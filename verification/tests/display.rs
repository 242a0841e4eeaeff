use tableizer::display::{
    elide_middle, extent_label, fmt_bytes, fmt_count, human_bytes, quality_label, selection_label,
};
use tableizer::model::RowSpan;
use tableizer::{DataQuality, RowCount};

#[test]
fn elide_middle_keeps_start_and_end() {
    // Short strings pass through unchanged.
    assert_eq!(elide_middle("short.csv", 58), "short.csv");
    // Long names keep both ends (so the extension survives) around a single ellipsis.
    let long =
        "121700706967_waflogs_ap-northeast-1_fusionauth-alb-acl_20260524T2355Z_43f57849.log.gz";
    let elided = elide_middle(long, 40);
    assert_eq!(elided.chars().count(), 40);
    assert!(elided.starts_with("121700706967"));
    assert!(elided.ends_with("43f57849.log.gz"));
    assert!(elided.contains('…'));
}

#[test]
fn elided_texts_have_exactly_the_length() {
    assert_eq!(elide_middle("abcdef", 5), "ab…ef");
    assert_eq!(elide_middle("abcdef", 4), "ab…f");
    assert_eq!(elide_middle("abcdef", 1), "…");
    assert_eq!(elide_middle("abcdef", 0), "");
    assert_eq!(elide_middle("", 0), "");
    assert_eq!(elide_middle("äöüßé", 3), "ä…é");
}

#[test]
fn counts_are_grouped_by_thousands() {
    for (n, text) in [
        (0, "0"),
        (999, "999"),
        (1000, "1,000"),
        (12_345, "12,345"),
        (1_000_000, "1,000,000"),
        (1_002_003, "1,002,003"),
    ] {
        assert_eq!(fmt_count(n), text);
    }
    assert_eq!(fmt_count(u64::MAX), "18,446,744,073,709,551,615");
}

fn by_doubles(n: u64, units: [&str; 5]) -> String {
    let mut value = n as f64;
    let mut unit = 0;
    while value >= 1024.0 && unit < units.len() - 1 {
        value /= 1024.0;
        unit += 1;
    }
    if unit == 0 {
        format!("{n} B")
    } else {
        format!("{value:.1} {}", units[unit])
    }
}

#[test]
fn sizes_are_rounded_as_doubles_are() {
    let mut samples: Vec<u64> = vec![0, 1, 1023, 1024, 1025, 1075, 1076, 1126, 1127, 1280, 1536];
    for shift in 10..64 {
        let base = 1u64 << shift;
        for delta in [0, 1, 51, 52, 512, 513, 1024, 1025] {
            samples.push(base.wrapping_add(delta));
            samples.push(base.wrapping_sub(delta));
            samples.push((base / 20).wrapping_mul(41).wrapping_add(delta));
        }
    }
    // Halves of a tenth, and numbers next to them that doubles do not tell apart.
    for k in 0..200u64 {
        let half = (2 * k + 1) * (1 << 38);
        for delta in [0, 1, 2, 1000] {
            samples.push(half + delta);
            samples.push(half.wrapping_sub(delta));
            samples.push((half << 18).wrapping_add(delta));
        }
    }
    samples.push(u64::MAX);
    for n in samples {
        assert_eq!(fmt_bytes(n), by_doubles(n, ["B", "KiB", "MiB", "GiB", "TiB"]), "{n}");
        assert_eq!(human_bytes(n), by_doubles(n, ["B", "KB", "MB", "GB", "TB"]), "{n}");
    }
    assert_eq!(fmt_bytes(1536), "1.5 KiB");
    assert_eq!(human_bytes(5 << 30), "5.0 GB");
}

#[test]
fn the_extent_says_whether_the_count_grows() {
    assert_eq!(extent_label(3, RowCount::Exact(1200)), "3 cols, 1,200 rows");
    assert_eq!(extent_label(3, RowCount::AtLeast(1200)), "3 cols, ≥ 1,200 rows");
}

#[test]
fn ragged_rows_are_reported_once_they_are_counted() {
    let quality = |ragged_rows, complete| DataQuality { ragged_rows, complete };
    assert_eq!(quality_label(quality(1500, true)).as_deref(), Some("⚠ 1,500 ragged rows"));
    assert_eq!(quality_label(quality(1500, false)), None);
    assert_eq!(quality_label(quality(0, true)), None);
}

#[test]
fn selections_are_counted_from_one() {
    assert_eq!(selection_label(RowSpan::single(999)), "row 1,000 selected");
    assert_eq!(
        selection_label(RowSpan { anchor: 9, lead: 4 }),
        "rows 5–10 selected (6)"
    );
}
