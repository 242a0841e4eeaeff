use std::path::Path;
use tableizer::path::{extension, last_name};

#[test]
fn paths_are_split_as_the_system_does() {
    for path in [
        "", "/", ".", "..", "a", "a/", "a/b", "a/b/", "a/.", "a/./", "a/..", "./a", "../a", "a//b",
        "a//", "/a.b/c", "c.csv", ".csv", "a.", "a.b.c", "..a", "a..b", ".a.b", "//", "./.", "...",
    ] {
        let chars: Vec<char> = path.chars().collect();
        let name = last_name(&chars).map(|n| n.into_iter().collect::<String>());
        let expected = Path::new(path).file_name().map(|n| n.to_str().unwrap().to_string());
        assert_eq!(name, expected, "{path}");
        let ext = extension(&chars).map(|n| n.into_iter().collect::<String>());
        let expected = Path::new(path).extension().map(|n| n.to_str().unwrap().to_string());
        assert_eq!(ext, expected, "{path}");
    }
}
