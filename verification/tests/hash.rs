use tableizer::stable_hash;

#[test]
fn stable_hash_is_a_pinned_fnv1a_so_the_on_disk_layout_never_drifts() {
    // A fixed vector: if this value ever changes, every persisted cache/view would be orphaned.
    assert_eq!(stable_hash("/data/sales.csv"), 0x83b5_7822_59db_9067);
    // Deterministic, and distinct paths don't collide on this trivial pair.
    assert_eq!(stable_hash("/data/sales.csv"), stable_hash("/data/sales.csv"));
    assert_ne!(stable_hash("/a.csv"), stable_hash("/b.csv"));
}

#[test]
fn the_hash_of_nothing_is_the_offset() {
    assert_eq!(stable_hash(""), 0xcbf2_9ce4_8422_2325);
    assert_eq!(stable_hash("a"), 0xaf63_dc4c_8601_ec8c);
}
