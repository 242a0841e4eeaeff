use tableizer::cache::{cache_file_name, load, save, Fingerprint};
use tableizer::index::OffsetIndex;
use tableizer::parse::Dialect;

fn build_index(data: &[u8], dialect: &Dialect) -> OffsetIndex {
    OffsetIndex::build(data, dialect).unwrap()
}

fn fingerprint(data: &[u8], mtime_secs: u64) -> Fingerprint {
    Fingerprint { size: data.len() as u64, mtime_secs, mtime_nanos: 7 }
}

#[test]
fn saves_and_reloads_a_valid_index() {
    let data = b"a,b\nc,d\ne,f\n";
    let dialect = Dialect::default();
    let index = build_index(data, &dialect);

    let stored = save(&fingerprint(data, 100), &dialect, &index);
    let loaded = load(&stored, &fingerprint(data, 100), &dialect).expect("cache hit");

    assert_eq!(loaded.row_count(), index.row_count());
    assert_eq!(loaded.offset_of_row(data, 2), Some(8));
}

#[test]
fn rejects_a_cache_when_the_file_changed() {
    let dialect = Dialect::default();
    let before = b"a,b\nc,d\n";
    let stored = save(&fingerprint(before, 100), &dialect, &build_index(before, &dialect));

    // Appending changes the file size (and mtime): the cached index must be treated as stale.
    let after = b"a,b\nc,d\ne,f\n";
    assert!(
        load(&stored, &fingerprint(after, 101), &dialect).is_none(),
        "a stale cache must never be reused"
    );
    // Each of the two is enough.
    assert!(load(&stored, &fingerprint(before, 101), &dialect).is_none());
    assert!(load(&stored, &fingerprint(after, 100), &dialect).is_none());
    let mut nanos = fingerprint(before, 100);
    nanos.mtime_nanos = 8;
    assert!(load(&stored, &nanos, &dialect).is_none());
}

#[test]
fn rejects_a_cache_built_with_a_different_dialect() {
    let data = b"a;b\nc;d\n";
    let comma = Dialect::default();
    let stored = save(&fingerprint(data, 100), &comma, &build_index(data, &comma));

    let semicolon = Dialect { delimiter: b';', ..Dialect::default() };
    assert!(
        load(&stored, &fingerprint(data, 100), &semicolon).is_none(),
        "an index built for a different delimiter must miss"
    );
}

#[test]
fn rejects_a_cache_that_is_cut_short_or_foreign() {
    let data = b"a,b\nc,d\n";
    let dialect = Dialect::default();
    let stored = save(&fingerprint(data, 100), &dialect, &build_index(data, &dialect));
    for n in 0..stored.len() {
        assert!(load(&stored[..n], &fingerprint(data, 100), &dialect).is_none(), "cut at {n}");
    }
    let mut foreign = stored.clone();
    foreign[0] ^= 1;
    assert!(load(&foreign, &fingerprint(data, 100), &dialect).is_none());
}

#[test]
fn cache_files_are_named_by_the_hash_of_the_path() {
    assert_eq!(cache_file_name("/data/sales.csv"), "83b5782259db9067.idx");
}
