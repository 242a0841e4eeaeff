use flate2::write::GzEncoder;
use flate2::Compression;
use std::io::Write;
use tableizer::gzip::{cache_name, decompress, inner_extension, is_gzip, unpack, Decompressor};
use tableizer::{stable_hash, CancellationToken, Error};

fn gzip(data: &[u8]) -> Vec<u8> {
    let mut encoder = GzEncoder::new(Vec::new(), Compression::default());
    encoder.write_all(data).unwrap();
    encoder.finish().unwrap()
}

#[test]
fn is_gzip_detects_by_magic_not_extension() {
    assert!(is_gzip(&gzip(b"a,b\n1,2\n")));
    assert!(!is_gzip(b"name,age\nbob,30\n"));
    assert!(!is_gzip(&[0x1f]));
    assert!(!is_gzip(&[]));
}

#[test]
fn decompress_round_trips_and_reuses_the_cache() {
    let original = b"id,name\n1,alice\n2,bob\n3,carol\n";
    let gz = gzip(original);
    let cancel = CancellationToken::new();
    assert_eq!(decompress(&gz, Some(&cancel)).unwrap(), original);

    // Progress reaches the compressed size.
    let mut stream = Decompressor::new(&gz);
    let mut out = Vec::new();
    let mut last = stream.consumed();
    while stream.step(&mut out, Some(&cancel)).unwrap() {
        assert!(last <= stream.consumed());
        last = stream.consumed();
    }
    assert_eq!(stream.consumed(), gz.len() as u64);
    assert_eq!(out, original);

    // The copy of an unchanged source has the same name, with the inner extension.
    let name = cache_name("/d/data.csv.gz", gz.len() as u64, 100);
    assert_eq!(name, cache_name("/d/data.csv.gz", gz.len() as u64, 100));
    assert!(name.ends_with(".csv"));

    // The second time, the copy that was kept is used again.
    let first = unpack("/d/data.csv.gz", &gz, 100, None, Some(&cancel)).ok().unwrap();
    assert_eq!(first.content, original);
    assert_eq!(first.name, name);
    assert_eq!(first.consumed, gz.len() as u64);
    let kept = Some(first.content.clone());
    cancel.cancel();
    let second = unpack("/d/data.csv.gz", &gz, 100, kept, Some(&cancel)).ok().unwrap();
    assert_eq!((second.name, second.content), (first.name, first.content));
    assert_eq!(second.consumed, gz.len() as u64);
    assert!(matches!(unpack("/d/data.csv.gz", &gz, 100, None, Some(&cancel)), Err(Error::Cancelled)));
    let broken = unpack("/d/data.csv.gz", &gz[..9], 100, None, Some(&CancellationToken::new()));
    assert!(matches!(broken, Err(Error::Io(_))));
}

#[test]
fn inner_extension_strips_the_gz_suffix() {
    assert_eq!(inner_extension("/d/logs.tsv.gz").as_deref(), Some("tsv"));
    assert_eq!(inner_extension("/d/data.csv.GZ").as_deref(), Some("csv"));
    assert_eq!(inner_extension("/d/archive.gz"), None);
}

#[test]
fn the_inner_extension_is_in_lower_case_and_may_stand_alone() {
    assert_eq!(inner_extension("/d/LOG.TSV.gz").as_deref(), Some("tsv"));
    assert_eq!(inner_extension("plain.Csv").as_deref(), Some("csv"));
    assert_eq!(inner_extension("/d/.csv.gz"), None);
    assert_eq!(inner_extension("/d/a..gz"), None);
    assert_eq!(inner_extension("/"), None);
}

#[test]
fn copies_are_named_by_path_size_and_time() {
    let hash = format!("{:016x}", stable_hash("/d/logs.tsv.gz"));
    assert_eq!(cache_name("/d/logs.tsv.gz", 120, 1700000000), format!("{hash}-120-1700000000.tsv"));
    let hash = format!("{:016x}", stable_hash("/d/archive.gz"));
    assert_eq!(cache_name("/d/archive.gz", 1, 2), format!("{hash}-1-2"));
    assert_ne!(cache_name("/d/a.gz", 1, 23), cache_name("/d/a.gz", 12, 3));
}

#[test]
fn members_that_follow_one_another_are_all_read() {
    let mut gz = gzip(b"first\n");
    gz.extend_from_slice(&gzip(b"second\n"));
    assert_eq!(decompress(&gz, Some(&CancellationToken::new())).unwrap(), b"first\nsecond\n");
}

#[test]
fn long_streams_come_in_many_chunks() {
    let mut data = Vec::new();
    for i in 0..100_000u32 {
        data.extend_from_slice(format!("{}\n", i.wrapping_mul(2654435761)).as_bytes());
    }
    assert_eq!(decompress(&gzip(&data), Some(&CancellationToken::new())).unwrap(), data);
}

#[test]
fn a_broken_stream_is_an_error() {
    let gz = gzip(b"id,name\n1,alice\n");
    for n in [0, 5, gz.len() - 1] {
        assert!(
            matches!(decompress(&gz[..n], Some(&CancellationToken::new())), Err(Error::Io(m)) if m.starts_with("gzip decode failed: "))
        );
    }
    let mut bad = gz.clone();
    let n = bad.len();
    bad[n - 8] ^= 1; // the check sum
    assert!(matches!(decompress(&bad, Some(&CancellationToken::new())), Err(Error::Io(_))));
    assert!(matches!(decompress(b"plain", Some(&CancellationToken::new())), Err(Error::Io(_))));
}

#[test]
fn decompressing_is_cancellable() {
    let cancel = CancellationToken::new();
    cancel.cancel();
    assert!(matches!(decompress(&gzip(b"x"), Some(&cancel)), Err(Error::Cancelled)));
}
