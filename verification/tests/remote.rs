use tableizer::remote::{
    buckets_to_listing, cache_name, credential_options, is_remote, is_s3, last_segment, listing, locate,
    merge_options, object_identity, option_value, parent_url, region_bucket, s3_bucket, store_options,
    url_extension, S3Auth,
};
use tableizer::{stable_hash, Error};

fn pair(key: &str, value: &str) -> (String, String) {
    (key.to_string(), value.to_string())
}

#[test]
fn is_remote_classifies_schemes() {
    assert!(is_remote("s3://bucket/key.csv"));
    assert!(is_remote("gs://bucket/object"));
    assert!(is_remote("https://example.com/data.csv"));
    // Local paths are not remote.
    assert!(!is_remote("/var/data/local.csv"));
    assert!(!is_remote("relative/path.csv"));
    assert!(!is_remote("C:\\Users\\data.csv")); // Windows drive (scheme `c`)
    assert!(!is_remote("data.csv"));
}

#[test]
fn buckets_to_listing_sorts_and_builds_urls() {
    let listing = buckets_to_listing(vec!["zeta".to_string(), "alpha".to_string()]);
    let entries: Vec<(&str, &str, bool)> = listing
        .entries
        .iter()
        .map(|e| (e.name.as_str(), e.url.as_str(), e.is_dir))
        .collect();
    assert_eq!(
        entries,
        vec![("alpha", "s3://alpha/", true), ("zeta", "s3://zeta/", true)]
    );
}

#[test]
fn s3_bucket_extracts_the_host_for_s3_urls_only() {
    let bucket = |url: &str| s3_bucket(&locate(url).ok().unwrap());
    assert_eq!(bucket("s3://my-bucket/a/b.csv").as_deref(), Some("my-bucket"));
    assert_eq!(bucket("s3a://other/x").as_deref(), Some("other"));
    // Non-S3 schemes have no AWS bucket region to resolve.
    assert_eq!(bucket("gs://bucket/x"), None);
    assert_eq!(bucket("https://h/x"), None);
}

#[test]
fn parent_url_walks_up_to_the_bucket_root() {
    assert_eq!(parent_url("s3://bucket/a/b/").as_deref(), Some("s3://bucket/a/"));
    assert_eq!(parent_url("s3://bucket/a/file.csv").as_deref(), Some("s3://bucket/a/"));
    assert_eq!(parent_url("s3://bucket/a/").as_deref(), Some("s3://bucket/"));
    // Already at the root: no parent.
    assert_eq!(parent_url("s3://bucket/"), None);
    assert_eq!(parent_url("s3://bucket"), None);
}

#[test]
fn list_dir_returns_folders_then_files() {
    // What a store reports for a directory with `sub/`, `b.csv` and `a.csv`.
    let url = locate("file:///tmp/dir/").ok().unwrap();
    let listing = listing(
        &url,
        &["tmp/dir/sub".to_string()],
        &[("tmp/dir/b.csv".to_string(), 2), ("tmp/dir/a.csv".to_string(), 5)],
    );
    let names: Vec<&str> = listing.entries.iter().map(|e| e.name.as_str()).collect();
    // Folder first, then files sorted by name.
    assert_eq!(names, vec!["sub", "a.csv", "b.csv"]);
    assert!(listing.entries[0].is_dir);
    assert!(!listing.entries[1].is_dir);
    assert_eq!(listing.entries[1].size, Some(5)); // a.csv = "hello"
    // The folder URL is navigable (ends in `/`) and the file URL points at the object.
    assert!(listing.entries[0].url.ends_with("/sub/"));
    assert!(listing.entries[1].url.ends_with("/a.csv"));
    assert_eq!(listing.entries[1].url, "file:///tmp/dir/a.csv");
}

#[test]
fn is_s3_matches_only_the_s3_schemes() {
    assert!(is_s3("s3://bucket/key.csv"));
    assert!(is_s3("s3a://bucket/key.csv"));
    assert!(!is_s3("gs://bucket/key.csv"));
    assert!(!is_s3("https://example.com/key.csv"));
    assert!(!is_s3("/local/key.csv"));
}

#[test]
fn url_extension_picks_the_last_segment_suffix() {
    assert_eq!(url_extension("s3://b/dir/sales.csv").as_deref(), Some("csv"));
    assert_eq!(url_extension("https://h/x.PARQUET").as_deref(), Some("parquet"));
    assert_eq!(url_extension("s3://b/dir/noext").as_deref(), None);
}

#[test]
fn merge_options_appends_in_app_config_after_the_environment() {
    // The builder of a store applies options in order and lets the last win, so an in-app value must
    // follow the same key from the environment.
    let env = vec![pair("PATH", "/usr/bin"), pair("aws_region", "env-region")];
    let merged = merge_options(env, &[pair("aws_region", "form-region")]);
    let regions: Vec<&str> = merged
        .iter()
        .filter(|(k, _)| k == "aws_region")
        .map(|(_, v)| v.as_str())
        .collect();
    assert_eq!(regions, vec!["env-region", "form-region"]);
}

#[test]
fn odd_extensions_are_not_kept() {
    assert_eq!(url_extension("s3://b/a.verylongext"), None);
    assert_eq!(url_extension("s3://b/a.c-v"), None);
    assert_eq!(url_extension("s3://b/a."), None);
    assert_eq!(url_extension("s3://b/.hidden").as_deref(), Some("hidden"));
    assert_eq!(url_extension("no url.csv"), None);
    assert_eq!(url_extension("mailto:a@b.c"), None);
}

#[test]
fn a_location_that_is_no_url_is_an_error() {
    match locate("not a url") {
        Err(Error::Remote(message)) => assert!(message.starts_with("invalid URL: ")),
        _ => panic!("expected an error"),
    }
}

#[test]
fn names_are_the_last_segments() {
    assert_eq!(last_segment("a/b/c.csv"), "c.csv");
    assert_eq!(last_segment("a/b/"), "b");
    assert_eq!(last_segment("plain"), "plain");
    assert_eq!(last_segment(""), "");
    assert_eq!(last_segment("//"), "//");
}

#[test]
fn an_object_without_a_name_is_left_out_and_equal_names_keep_their_order() {
    let url = locate("s3://bucket/p/").ok().unwrap();
    let listing = listing(
        &url,
        &[],
        &[
            (String::new(), 0),
            ("y/same".to_string(), 1),
            ("x/same".to_string(), 2),
            ("Z".to_string(), 3),
        ],
    );
    let sizes: Vec<Option<u64>> = listing.entries.iter().map(|e| e.size).collect();
    assert_eq!(sizes, vec![Some(3), Some(1), Some(2)]);
    assert_eq!(listing.entries[1].url, "s3://bucket/y/same");
}

#[test]
fn local_copies_are_named_by_url_and_identity() {
    let url = "s3://b/dir/sales.csv";
    let expected = format!("{:016x}-{:016x}.csv", stable_hash(url), stable_hash("etag"));
    assert_eq!(cache_name(url, "etag"), expected);
    let url = "s3://b/noext";
    let expected = format!("{:016x}-{:016x}", stable_hash(url), stable_hash("etag"));
    assert_eq!(cache_name(url, "etag"), expected);
    assert_ne!(cache_name(url, "one"), cache_name(url, "two"));
}

#[test]
fn an_object_is_told_by_its_tag_or_its_size_and_time() {
    assert_eq!(object_identity(Some("tag".to_string()), 5, "now"), "tag");
    assert_eq!(
        object_identity(None, 5, "2024-01-01T00:00:00+00:00"),
        "5-2024-01-01T00:00:00+00:00"
    );
}

#[test]
fn the_region_of_a_bucket_counts_unless_there_is_an_endpoint() {
    let url = locate("s3://bucket/key").ok().unwrap();
    assert_eq!(region_bucket(&url, &[]).as_deref(), Some("bucket"));
    assert_eq!(region_bucket(&url, &[pair("aws_endpoint", "http://minio")]), None);
    let other = locate("gs://bucket/key").ok().unwrap();
    assert_eq!(region_bucket(&other, &[]), None);

    let options = store_options(
        vec![pair("aws_region", "env")],
        &[pair("aws_region", "form")],
        Some("found".to_string()),
    );
    assert_eq!(options.last(), Some(&pair("aws_region", "found")));
    assert_eq!(option_value(&options, "aws_region").as_deref(), Some("env"));
    assert_eq!(option_value(&options, "missing"), None);
    assert_eq!(store_options(vec![], &[], None), vec![]);
}

#[test]
fn credentials_become_options() {
    let options = credential_options(
        "key".to_string(),
        "secret".to_string(),
        Some("token".to_string()),
        Some("eu-west-1".to_string()),
    );
    assert_eq!(
        options,
        vec![
            pair("aws_access_key_id", "key"),
            pair("aws_secret_access_key", "secret"),
            pair("aws_session_token", "token"),
            pair("aws_region", "eu-west-1"),
        ]
    );
    assert_eq!(credential_options("k".to_string(), "s".to_string(), None, None).len(), 2);
}

#[test]
fn static_keys_count_only_together() {
    let mut auth = S3Auth::default();
    assert_eq!(auth.static_keys(), None);
    auth.access_key_id = Some("key".to_string());
    assert_eq!(auth.static_keys(), None);
    auth.secret_access_key = Some("secret".to_string());
    assert_eq!(auth.static_keys(), Some(pair("key", "secret")));
    assert_eq!(auth.custom_endpoint(), None);
    auth.endpoint = Some(String::new());
    assert_eq!(auth.custom_endpoint(), None);
    auth.endpoint = Some("http://minio".to_string());
    assert_eq!(auth.custom_endpoint().as_deref(), Some("http://minio"));
}
