use tableizer::encoding::TextEncoding;
use tableizer::grid::{
    apply_pointer, cached_cell, copied_text, copy_span, cycle_sort, drops_after, exportable, find_start,
    is_numeric, move_selection, next_match, span_request, visible_request, FindCursor, NavKey,
    PointerEvents,
};
use tableizer::model::{RowSpan, ViewControls};
use tableizer::parse::Dialect;
use tableizer::search::Matcher;
use tableizer::{
    CancellationToken, Cell, Column, ColumnId, CsvTable, Direction, Error, FilterSpec, InferredType,
    RowCount, Schema, SortKey,
};

#[test]
fn keys_move_the_selection_within_the_table() {
    let at = |row| Some(RowSpan::single(row));
    for (from, key, to) in [
        (None, NavKey::Down, 0),
        (None, NavKey::PageUp, 0),
        (None, NavKey::End, 99),
        (at(5), NavKey::Down, 6),
        (at(99), NavKey::Down, 99),
        (at(5), NavKey::Up, 4),
        (at(0), NavKey::Up, 0),
        (at(5), NavKey::PageDown, 25),
        (at(90), NavKey::PageDown, 99),
        (at(25), NavKey::PageUp, 5),
        (at(5), NavKey::PageUp, 0),
        (at(50), NavKey::Home, 0),
        (at(50), NavKey::End, 99),
    ] {
        assert_eq!(move_selection(from, key, false, 100), RowSpan::single(to), "{key:?}");
    }
}

#[test]
fn shift_extends_the_selection_from_its_anchor() {
    let span = RowSpan { anchor: 5, lead: 7 };
    assert_eq!(
        move_selection(Some(span), NavKey::Down, true, 100),
        RowSpan { anchor: 5, lead: 8 }
    );
    assert_eq!(
        move_selection(Some(span), NavKey::Home, true, 100),
        RowSpan { anchor: 5, lead: 0 }
    );
    assert_eq!(move_selection(None, NavKey::Down, true, 100), RowSpan::single(0));
}

#[test]
fn clicks_cycle_the_sort() {
    let ascending = SortKey { column: ColumnId(1), direction: Direction::Ascending };
    let descending = SortKey { column: ColumnId(1), direction: Direction::Descending };
    assert_eq!(cycle_sort(None, ColumnId(1)), Some(ascending));
    assert_eq!(cycle_sort(Some(ascending), ColumnId(1)), Some(descending));
    assert_eq!(cycle_sort(Some(descending), ColumnId(1)), None);
    let other = SortKey { column: ColumnId(2), direction: Direction::Ascending };
    assert_eq!(cycle_sort(Some(descending), ColumnId(2)), Some(other));
}

fn still() -> PointerEvents {
    PointerEvents {
        drag_started: None,
        drag_lead: None,
        clicked: None,
        hovered: None,
        button_down: true,
    }
}

#[test]
fn a_drag_selects_from_its_start_to_the_pointer() {
    let mut view = ViewControls::default();
    apply_pointer(&mut view, &PointerEvents { drag_started: Some(4), ..still() });
    assert_eq!((view.selected, view.selecting), (Some(RowSpan::single(4)), true));
    apply_pointer(&mut view, &PointerEvents { drag_lead: Some(2), hovered: Some(2), ..still() });
    assert_eq!(view.selected, Some(RowSpan { anchor: 4, lead: 2 }));
    assert_eq!(view.hovered_row, Some(2));
    apply_pointer(&mut view, &PointerEvents { button_down: false, ..still() });
    assert!(!view.selecting);
    // Without a drag the pointer selects nothing.
    apply_pointer(&mut view, &PointerEvents { drag_lead: Some(9), ..still() });
    assert_eq!(view.selected, Some(RowSpan { anchor: 4, lead: 2 }));
    apply_pointer(&mut view, &PointerEvents { clicked: Some(7), ..still() });
    assert_eq!(view.selected, Some(RowSpan::single(7)));
}

#[test]
fn a_header_from_the_left_drops_behind() {
    let columns = vec![ColumnId(3), ColumnId(1), ColumnId(2)];
    assert!(drops_after(&columns, ColumnId(3), 2));
    assert!(!drops_after(&columns, ColumnId(2), 0));
    assert!(!drops_after(&columns, ColumnId(9), 2));
}

#[test]
fn a_row_is_copied_before_the_selection() {
    let selected = Some(RowSpan { anchor: 1, lead: 3 });
    assert_eq!(copy_span(Some(5), true, selected), Some(RowSpan::single(5)));
    assert_eq!(copy_span(None, true, selected), selected);
    assert_eq!(copy_span(None, false, selected), None);
}

#[test]
fn requests_cover_the_rows() {
    let columns = vec![ColumnId(1)];
    let request = span_request(RowSpan { anchor: 9, lead: 4 }, &columns);
    assert_eq!((request.rows.start, request.rows.len), (4, 6));
    let request = span_request(RowSpan { anchor: 0, lead: 1 << 40 }, &columns);
    assert_eq!(request.rows.len, u32::MAX);
    let request = visible_request(10, 35, &columns);
    assert_eq!((request.rows.start, request.rows.len), (10, 25));
    assert_eq!(visible_request(35, 10, &columns).rows.len, 0);
    assert_eq!(request.columns, columns);
}

fn row(cells: &[&[u8]]) -> Vec<Cell> {
    cells.iter().map(|c| Cell(c.to_vec())).collect()
}

#[test]
fn cells_are_found_in_what_was_fetched() {
    let rows = vec![row(&[b"a", b"b"]), row(&[b"c"])];
    assert_eq!(cached_cell(10, &rows, 11, 0), Some(&Cell(b"c".to_vec())));
    assert_eq!(cached_cell(10, &rows, 11, 1), None);
    assert_eq!(cached_cell(10, &rows, 9, 0), None);
    assert_eq!(cached_cell(10, &rows, 12, 0), None);
}

#[test]
fn rows_are_copied_as_lines_with_tabs() {
    let rows = vec![row(&[b"a", b"", b"caf\xe9"]), row(&[b"d"])];
    assert_eq!(copied_text(&rows, TextEncoding::Windows1252), "a\t\tcafé\nd");
    assert_eq!(copied_text(&vec![], TextEncoding::Utf8), "");
}

#[test]
fn numbers_stand_to_the_right() {
    let column = |i: u32, inferred| Column { id: ColumnId(i), name: vec![], inferred };
    let schema = Schema {
        columns: vec![
            column(0, InferredType::Text),
            column(1, InferredType::Integer),
            column(2, InferredType::Float),
            column(3, InferredType::Boolean),
        ],
    };
    let numeric: Vec<bool> = (0..5).map(|i| is_numeric(&schema, ColumnId(i))).collect();
    assert_eq!(numeric, vec![false, true, true, false, false]);
}

#[test]
fn a_search_begins_next_to_the_selection() {
    assert_eq!(find_start(Some(4), true, 10), Some(5));
    assert_eq!(find_start(Some(4), false, 10), Some(3));
    assert_eq!(find_start(Some(0), false, 10), None);
    assert_eq!(find_start(None, true, 10), Some(0));
    assert_eq!(find_start(None, false, 10), Some(9));
    assert_eq!(find_start(None, true, 0), None);
    assert_eq!(find_start(Some(u64::MAX), true, 10), Some(u64::MAX));
}

fn matcher(query: &str) -> Matcher {
    Matcher::compile(&FilterSpec {
        query: query.into(),
        regex: false,
        invert: false,
        case_sensitive: false,
    })
    .ok()
    .unwrap()
}

#[test]
fn the_next_and_the_previous_match_are_the_nearest_ones() {
    let mut data = Vec::new();
    for i in 0..1000u32 {
        let mark = if i == 3 || i == 300 || i == 900 { "hit" } else { "x" };
        data.extend_from_slice(format!("{mark},{i}\n").as_bytes());
    }
    let dialect = Dialect { has_header: false, ..Dialect::default() };
    let table = CsvTable::from_bytes(data, dialect).unwrap();
    let m = matcher("HIT");
    let columns = vec![ColumnId(0)];
    let go = |first, forward| {
        next_match(&table, &columns, &m, first, forward, 1000, &CancellationToken::new()).unwrap()
    };
    assert_eq!(go(0, true), Some(3));
    assert_eq!(go(3, true), Some(3));
    assert_eq!(go(4, true), Some(300));
    assert_eq!(go(301, true), Some(900));
    assert_eq!(go(901, true), None);
    assert_eq!(go(5000, true), None);
    assert_eq!(go(999, false), Some(900));
    assert_eq!(go(899, false), Some(300));
    assert_eq!(go(2, false), None);
    assert_eq!(go(5000, false), Some(900));
    // Only the columns that are shown count.
    let hidden = vec![ColumnId(1)];
    let found = next_match(&table, &hidden, &m, 0, true, 1000, &CancellationToken::new());
    assert_eq!(found.unwrap(), None);
    let cancel = CancellationToken::new();
    cancel.cancel();
    assert!(matches!(
        next_match(&table, &columns, &m, 0, true, 1000, &cancel),
        Err(Error::Cancelled)
    ));
    // Where there is no row to look at, nothing can fail.
    for (first, forward, total) in [(1000, true, 1000), (0, true, 0), (0, false, 0)] {
        let found = next_match(&table, &columns, &m, first, forward, total, &cancel);
        assert_eq!(found.unwrap(), None);
    }
}

#[test]
fn only_counted_tables_are_exported() {
    assert!(exportable(RowCount::Exact(0)));
    assert!(!exportable(RowCount::AtLeast(10)));
}

#[test]
fn a_search_goes_window_by_window() {
    let matcher = Matcher::compile(&FilterSpec {
        query: "hit".to_string(),
        regex: false,
        invert: false,
        case_sensitive: true,
    })
    .unwrap();
    let row = |text: &str| vec![Cell(text.as_bytes().to_vec())];
    let columns = vec![ColumnId(3)];

    let mut onward = FindCursor::new(10, true, 300);
    let request = onward.request(&columns).unwrap();
    assert_eq!((request.rows.start, request.rows.len), (10, 256));
    assert_eq!(request.columns, columns);
    assert_eq!(onward.look(&matcher, &vec![row("x"), row("y")]), None);
    let request = onward.request(&columns).unwrap();
    assert_eq!((request.rows.start, request.rows.len), (266, 34));
    assert_eq!(onward.look(&matcher, &vec![row("x"), row("hit"), row("hit")]), Some(267));

    let mut back = FindCursor::new(400, false, 300);
    let request = back.request(&columns).unwrap();
    assert_eq!((request.rows.start, request.rows.len), (44, 256));
    assert_eq!(back.look(&matcher, &vec![row("x")]), None);
    let request = back.request(&columns).unwrap();
    assert_eq!((request.rows.start, request.rows.len), (0, 44));
    assert_eq!(back.look(&matcher, &vec![row("hit"), row("hit"), row("x")]), Some(1));
    assert_eq!(back.look(&matcher, &vec![row("x")]), None);
    assert!(back.request(&columns).is_none());
    assert!(FindCursor::new(300, true, 300).request(&columns).is_none());
}
