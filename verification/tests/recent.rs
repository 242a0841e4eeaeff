use tableizer::path::{recent_name, same_path, segments};
use tableizer::recent::{add, read, stored};

fn list(items: &[&str]) -> Vec<String> {
    items.iter().map(|s| s.to_string()).collect()
}

#[test]
fn an_opened_source_comes_first_and_once() {
    let mut recent = list(&["/a", "/b", "/c"]);
    add(&mut recent, "/b");
    assert_eq!(recent, list(&["/b", "/a", "/c"]));
    add(&mut recent, "/d");
    assert_eq!(recent, list(&["/d", "/b", "/a", "/c"]));
}

#[test]
fn a_path_is_the_same_however_it_is_written() {
    let paths = [
        "/a/b", "/a//b", "/a/./b", "/a/b/", "/a/b/.", "//a/b", "/./a/b", "a/b", "./a/b", "a/./b",
        "a//b", "/a", "/a/../b", "/a/.b", "/", "//", ".", "./", "", "..", "s3://x/y", "s3:/x/y",
    ];
    for a in paths {
        for b in paths {
            let expected = std::path::Path::new(a) == std::path::Path::new(b);
            assert_eq!(same_path(a, b), expected, "{a} {b}");
        }
    }
    let mut recent = list(&["/a//b", "/c", "/a/./b", "./a/b"]);
    add(&mut recent, "/a/b");
    assert_eq!(recent, list(&["/a/b", "/c", "./a/b"]));
    assert_eq!(segments("/a//./b/"), list(&["a", "b"]));
}

#[test]
fn the_list_holds_ten_sources() {
    let mut recent = Vec::new();
    for i in 0..15 {
        add(&mut recent, &format!("/{i}"));
    }
    assert_eq!(recent.len(), 10);
    assert_eq!(recent[0], "/14");
    assert_eq!(recent[9], "/5");
}

#[test]
fn a_stored_list_reads_back() {
    let recent = list(&["/a b", "/ü", "s3://bucket/key"]);
    assert_eq!(stored(&recent), "/a b\n/ü\ns3://bucket/key");
    assert_eq!(read(&stored(&recent)), recent);
    assert_eq!(stored(&Vec::new()), "");
}

#[test]
fn lines_are_read_as_lines_are() {
    for text in ["", "a", "a\n", "a\r\nb", "a\n\nb\n", "\n", "a\rb\n", "x\r"] {
        let expected: Vec<String> = text.lines().map(str::to_string).collect();
        assert_eq!(read(text), expected, "{text:?}");
    }
}

#[test]
fn recent_names_are_the_last_names() {
    assert_eq!(recent_name("/data/sales.csv"), "sales.csv");
    assert_eq!(recent_name("/"), "/");
    assert_eq!(recent_name("/data/.."), "/data/..");
}
