//! The side panel, and what is decided when a source is opened or exported.
use vstd::prelude::*;
use crate::export::ExportScope;
use crate::model::{raw_name, Format, GridLayout};
use crate::parse::Dialect;
use crate::viewport::{ColumnId, Schema};

verus! {

/// A tab of the side panel.
#[derive(Clone, Copy, PartialEq, Eq, Debug, Structural)]
pub enum PanelTab {
    Columns,
    Parsing,
    Settings,
}

impl Default for PanelTab {
    fn default() -> (tab: PanelTab)
        ensures
            tab == PanelTab::Columns,
    {
        PanelTab::Columns
    }
}

impl PanelTab {
    /// The name of a tab.
    pub fn label(self) -> (name: &'static str)
        ensures
            name@ == (match self {
                PanelTab::Columns => "Columns"@,
                PanelTab::Parsing => "Parsing"@,
                PanelTab::Settings => "Settings"@,
            }),
    {
        match self {
            PanelTab::Columns => "Columns",
            PanelTab::Parsing => "Parsing",
            PanelTab::Settings => "Settings",
        }
    }
}

/// The tabs there are with a source of the given format, or with none: columns need a source,
/// parsing needs delimited text.
pub open spec fn tabs_for(format: Option<Format>) -> Seq<PanelTab> {
    match format {
        Some(Format::Delimited) => seq![PanelTab::Columns, PanelTab::Parsing, PanelTab::Settings],
        Some(_) => seq![PanelTab::Columns, PanelTab::Settings],
        None => seq![PanelTab::Settings],
    }
}

/// The tabs that there are.
pub fn available_tabs(format: Option<Format>) -> (tabs: Vec<PanelTab>)
    ensures
        tabs@ == tabs_for(format),
{
    let mut tabs: Vec<PanelTab> = Vec::new();
    match format {
        Some(f) => {
            tabs.push(PanelTab::Columns);
            if f == Format::Delimited {
                tabs.push(PanelTab::Parsing);
            }
        },
        None => {},
    }
    tabs.push(PanelTab::Settings);
    assert(tabs@ =~= tabs_for(format));
    tabs
}

/// A tab that there is: the given one, or else the first one.
pub fn fix_panel_tab(format: Option<Format>, tab: PanelTab) -> (fixed: PanelTab)
    ensures
        tabs_for(format).contains(fixed),
        tabs_for(format).contains(tab) ==> fixed == tab,
        !tabs_for(format).contains(tab) ==> fixed == tabs_for(format)[0],
{
    let tabs = available_tabs(format);
    for i in 0..tabs.len()
        invariant
            tabs@ == tabs_for(format),
            forall|j: int| 0 <= j < i ==> tabs@[j] != tab,
    {
        if tabs[i] == tab {
            return tab;
        }
    }
    proof {
        assert(tabs_for(format).contains(tabs_for(format)[0]));
    }
    match format {
        Some(_) => PanelTab::Columns,
        None => PanelTab::Settings,
    }
}

/// The panel after the switch of a tab was used: it closes where that tab is open, and opens on that
/// tab otherwise. The tab is kept when the panel closes.
pub fn toggle_tab(open: bool, tab: PanelTab, switched: PanelTab) -> (r: (bool, PanelTab))
    ensures
        r == (if open && tab == switched {
            (false, tab)
        } else {
            (true, switched)
        }),
{
    if open && tab == switched {
        (false, tab)
    } else {
        (true, switched)
    }
}

/// A format for export.
#[derive(Clone, Copy, PartialEq, Eq, Debug, Structural)]
pub enum ExportKind {
    Csv,
    Tsv,
    Ndjson,
    Parquet,
}

impl ExportKind {
    /// The formats that are offered.
    pub const ALL: [ExportKind; 4] = [
        ExportKind::Csv,
        ExportKind::Tsv,
        ExportKind::Ndjson,
        ExportKind::Parquet,
    ];

    /// The name of a format.
    pub fn label(self) -> (name: &'static str)
        ensures
            name@ == (match self {
                ExportKind::Csv => "CSV"@,
                ExportKind::Tsv => "TSV"@,
                ExportKind::Ndjson => "NDJSON"@,
                ExportKind::Parquet => "Parquet"@,
            }),
    {
        match self {
            ExportKind::Csv => "CSV",
            ExportKind::Tsv => "TSV",
            ExportKind::Ndjson => "NDJSON",
            ExportKind::Parquet => "Parquet",
        }
    }

    /// The extension of a file of a format.
    pub fn extension(self) -> (ext: &'static str)
        ensures
            ext@ == (match self {
                ExportKind::Csv => "csv"@,
                ExportKind::Tsv => "tsv"@,
                ExportKind::Ndjson => "ndjson"@,
                ExportKind::Parquet => "parquet"@,
            }),
    {
        match self {
            ExportKind::Csv => "csv",
            ExportKind::Tsv => "tsv",
            ExportKind::Ndjson => "ndjson",
            ExportKind::Parquet => "parquet",
        }
    }

    /// The delimiter of a format of delimited text.
    pub fn delimiter(self) -> (delimiter: Option<u8>)
        ensures
            delimiter == (match self {
                ExportKind::Csv => Some(0x2cu8),
                ExportKind::Tsv => Some(0x09u8),
                _ => None,
            }),
    {
        match self {
            ExportKind::Csv => Some(0x2c),
            ExportKind::Tsv => Some(0x09),
            _ => None,
        }
    }
}

/// How a source is opened.
#[derive(Clone, Copy, Debug, PartialEq, Eq, Structural)]
pub struct Opening {
    /// The dialect to read it with.
    pub dialect: Dialect,
    /// The delimiter that was detected.
    pub detected_delimiter: u8,
    /// Whether the detected delimiter is used, rather than one that the user chose.
    pub delimiter_auto: bool,
}

/// Decides how a source is opened: delimited text by the dialect that was detected, in which a
/// delimiter that was saved takes the place of the detected one; other formats by the default
/// dialect.
pub fn opening(format: Format, sniffed: Dialect, saved_delimiter: Option<u8>) -> (r: Opening)
    ensures
        r == (match format {
            Format::Delimited => match saved_delimiter {
                Some(byte) => (Opening {
                    dialect: Dialect { delimiter: byte, ..sniffed },
                    detected_delimiter: sniffed.delimiter,
                    delimiter_auto: false,
                }),
                None => (Opening {
                    dialect: sniffed,
                    detected_delimiter: sniffed.delimiter,
                    delimiter_auto: true,
                }),
            },
            _ => (Opening {
                dialect: Dialect { delimiter: 0x2c, quote: 0x22, has_header: true },
                detected_delimiter: 0x2c,
                delimiter_auto: true,
            }),
        }),
{
    match format {
        Format::Delimited => match saved_delimiter {
            Some(byte) => Opening {
                dialect: Dialect {
                    delimiter: byte,
                    quote: sniffed.quote,
                    has_header: sniffed.has_header,
                },
                detected_delimiter: sniffed.delimiter,
                delimiter_auto: false,
            },
            None => Opening {
                dialect: sniffed,
                detected_delimiter: sniffed.delimiter,
                delimiter_auto: true,
            },
        },
        _ => Opening {
            dialect: Dialect::default(),
            detected_delimiter: 0x2c,
            delimiter_auto: true,
        },
    }
}

/// The columns of an export: for the view those that are shown, as they are shown; for the source
/// all of them, in its order.
pub fn export_columns(scope: ExportScope, layout: &GridLayout, column_count: usize) -> (columns: Vec<
    ColumnId,
>)
    requires
        layout.wf(),
        column_count <= u32::MAX,
    ensures
        columns@ == (match scope {
            ExportScope::CurrentView => crate::model::shown_columns(layout.order@, layout.visible@),
            ExportScope::Source => crate::model::source_order(column_count as nat),
        }),
{
    match scope {
        ExportScope::CurrentView => layout.displayed(),
        ExportScope::Source => {
            let all = GridLayout::new(column_count);
            all.order
        },
    }
}

/// The names of columns for an export: the bytes of the source, which match those of the cells.
pub fn export_names(schema: &Schema, columns: &[ColumnId]) -> (names: Vec<Vec<u8>>)
    ensures
        names@.len() == columns@.len(),
        forall|i: int|
            0 <= i < columns@.len() ==> (#[trigger] names@[i])@ == (if columns@[i].0
                < schema.columns@.len() {
                crate::model::bare_name(schema.columns@[columns@[i].0 as int].name@)
            } else {
                Seq::empty()
            }),
{
    let mut names: Vec<Vec<u8>> = Vec::new();
    for k in 0..columns.len()
        invariant
            names@.len() == k,
            forall|i: int|
                0 <= i < k ==> (#[trigger] names@[i])@ == (if columns@[i].0 < schema.columns@.len() {
                    crate::model::bare_name(schema.columns@[columns@[i].0 as int].name@)
                } else {
                    Seq::empty()
                }),
    {
        names.push(raw_name(schema, columns[k]));
    }
    names
}

/// Columns can be chosen with every source, parsing only with delimited text, and the settings always;
/// no tab is there twice.
pub proof fn tabs_fit_the_source(format: Option<Format>)
    ensures
        tabs_for(format).contains(PanelTab::Columns) <==> format is Some,
        tabs_for(format).contains(PanelTab::Parsing) <==> format == Some(Format::Delimited),
        tabs_for(format).contains(PanelTab::Settings),
        tabs_for(format).last() == PanelTab::Settings,
        tabs_for(format).no_duplicates(),
{
    let tabs = tabs_for(format);
    assert(tabs[tabs.len() - 1] == PanelTab::Settings);
    if format is Some {
        assert(tabs[0] == PanelTab::Columns);
    }
    if format == Some(Format::Delimited) {
        assert(tabs[1] == PanelTab::Parsing);
    }
}

/// Every format is offered for an export.
pub proof fn every_format_is_offered(kind: ExportKind)
    ensures
        ExportKind::ALL@.contains(kind),
{
    let kinds = ExportKind::ALL@;
    assert(kinds[0] == ExportKind::Csv && kinds[1] == ExportKind::Tsv && kinds[2]
        == ExportKind::Ndjson && kinds[3] == ExportKind::Parquet);
}

} // verus!
