//! Tables over Parquet files in memory.
//!
//! The footer of a file gives its columns and the number of its rows, so a table knows them at once.
//! Rows are read when they are asked for, and their values are shown as text.
use vstd::prelude::*;
use std::sync::Arc;
use arrow::datatypes::{DataType, FieldRef};
use arrow::error::ArrowError;
use arrow::util::display::{ArrayFormatter, FormatOptions};
use bytes::Bytes;
use parquet::arrow::arrow_reader::{
    ArrowReaderMetadata, ArrowReaderOptions, ParquetRecordBatchReader,
    ParquetRecordBatchReaderBuilder, RowSelection, RowSelector,
};
use parquet::arrow::ProjectionMask;
use parquet::file::metadata::PageIndexPolicy;
use crate::cancel::{is_stopped, CancellationToken};
use crate::error::Error;
use crate::columnar::{
    assemble, row_selection, FetchPlan, FieldInfo, FieldKind, ParquetState, ReadPlan, Selector,
    ViewScan,
};
use crate::export::ExportScope;
use crate::search::Matcher;
use crate::view::contiguous_rows;
use crate::viewport::{
    Column, ColumnId, DataQuality, RowCount, RowRange, Schema, SortKey, ViewSpec, ViewStatus,
    Viewport, ViewportRequest, ViewportSource,
};

verus! {

#[verifier::external_type_specification]
#[verifier::external_body]
pub struct ExBytes(bytes::Bytes);

#[verifier::external_type_specification]
#[verifier::external_body]
pub struct ExArrowReaderMetadata(parquet::arrow::arrow_reader::ArrowReaderMetadata);

/// The rows that `ParquetRecordBatchReader` still has to give.
#[verifier::external_body]
pub struct BatchReader {
    batches: ParquetRecordBatchReader,
}

/// The bytes that are shared.
pub uninterp spec fn shared(bytes: bytes::Bytes) -> Seq<u8>;

/// The file whose footer was read.
pub uninterp spec fn file_of(meta: parquet::arrow::arrow_reader::ArrowReaderMetadata) -> Seq<u8>;

/// The columns of a file, each with its name and its type, and the number of rows that its footer
/// tells; nothing where it has no footer that can be read.
pub uninterp spec fn described(file: Seq<u8>) -> Option<(Seq<(Seq<char>, FieldKind)>, i64)>;

/// The number of rows, by the number that a footer tells.
pub open spec fn row_total(told: i64) -> u64 {
    if told < 0 {
        0
    } else {
        told as u64
    }
}

/// Whether bytes end like a file with a footer: with the mark of a plain footer or of an encrypted
/// one, behind the length of the footer.
pub open spec fn framed(bytes: Seq<u8>) -> bool {
    &&& bytes.len() >= 8
    &&& bytes[bytes.len() - 4] == 0x50
    &&& bytes[bytes.len() - 3] == 0x41
    &&& bytes[bytes.len() - 2] == 0x52
    &&& bytes[bytes.len() - 1] == 0x31 || bytes[bytes.len() - 1] == 0x45
}

/// Whether reading the footer of a file comes to an end, with what the footer tells or with an error:
/// without a panic, and with no more than a hundred calls of one function within one another. It
/// does not where the schema is nested deeper, where a list claims more elements than there is room
/// for, or where an Arrow schema that is stored in the footer is not one that can be converted.
pub uninterp spec fn footer_sound(file: Seq<u8>) -> bool;

/// Whether reading the rows of a file comes to an end, with their values or with an error, and without
/// a panic: opening a reader, reading any page, and showing any value. It does not where the row
/// groups count more rows together than can be numbered, or fewer than none, or where a page of
/// dictionary indices gives no width for them, or one of more than 32 bits.
pub uninterp spec fn pages_sound(file: Seq<u8>) -> bool;

/// The texts of the given rows and columns of a file, as far as they can be read, and whether all of
/// them can. They are read in batches of the given size.
pub uninterp spec fn parquet_rows(
    file: Seq<u8>,
    roots: Seq<u64>,
    rows: Seq<u64>,
    batch: int,
) -> (Seq<Seq<Seq<u8>>>, bool);

/// The texts of the given columns of all rows of a file, as far as they can be read, and whether all
/// of them can. They are read in batches of the given size.
pub uninterp spec fn parquet_scan(file: Seq<u8>, roots: Seq<u64>, batch: int) -> (
    Seq<Seq<Seq<u8>>>,
    bool,
);

/// The texts of the rows that a reader still gives, and whether it ends well.
pub uninterp spec fn upcoming(reader: BatchReader) -> (Seq<Seq<Seq<u8>>>, bool);

/// The file that a reader reads.
pub uninterp spec fn read_from(reader: BatchReader) -> Seq<u8>;

/// `bytes::Bytes::from` shares bytes.
#[verifier::external_body]
fn share(bytes: Vec<u8>) -> (r: Bytes)
    ensures
        shared(r) == bytes@,
{
    Bytes::from(bytes)
}

/// `ArrowReaderMetadata::load` reads the footer of a file, with its page index where it has one.
/// Bytes that do not end like a file with a footer are refused at once. Otherwise the footer has to be
/// sound. The message of a failure is left open.
#[verifier::external_body]
fn load_metadata(bytes: &Bytes) -> (meta: Result<ArrowReaderMetadata, String>)
    requires
        framed(shared(*bytes)) ==> footer_sound(shared(*bytes)),
    ensures
        meta is Ok ==> framed(shared(*bytes)),
        match meta {
            Ok(m) => file_of(m) == shared(*bytes) && described(shared(*bytes)) is Some,
            Err(_) => described(shared(*bytes)) is None,
        },
{
    let options = ArrowReaderOptions::new().with_page_index_policy(PageIndexPolicy::Optional);
    ArrowReaderMetadata::load(bytes, options).map_err(|e| e.to_string())
}

/// The columns of a file.
pub open spec fn fields_view(fields: Seq<FieldInfo>) -> Seq<(Seq<char>, FieldKind)> {
    fields.map_values(|f: FieldInfo| (f.name@, f.kind))
}

/// `ArrowReaderMetadata::schema` and `metadata` give the columns and the number of rows that the
/// footer tells, and `DataType` tells what the type of a column is.
#[verifier::external_body]
fn describe(meta: &ArrowReaderMetadata) -> (r: (Vec<FieldInfo>, i64))
    ensures
        described(file_of(*meta)) == Some((fields_view(r.0@), r.1)),
{
    let kind = |t: &DataType| FieldKind {
        boolean: t.equals_datatype(&DataType::Boolean),
        integer: t.is_integer(),
        floating: t.is_floating(),
        decimal: t.is_decimal(),
        width: t.primitive_width(),
    };
    let info = |f: &FieldRef| FieldInfo { name: f.name().clone(), kind: kind(f.data_type()) };
    let fields = meta.schema().fields().iter().map(info).collect();
    (fields, meta.metadata().file_metadata().num_rows())
}

/// `ParquetRecordBatchReaderBuilder` opens a file for the given columns, which have to be there, and
/// the rows that the selectors read. The reader gives no more rows than are selected. The message of
/// a failure is left open.
#[verifier::external_body]
fn open_reader(
    bytes: &Bytes,
    meta: &ArrowReaderMetadata,
    roots: &[u64],
    selectors: &[Selector],
    batch: usize,
) -> (reader: Result<BatchReader, String>)
    requires
        file_of(*meta) == shared(*bytes),
        described(shared(*bytes)) is Some,
        pages_sound(shared(*bytes)),
        forall|i: int|
            0 <= i < roots@.len() ==> #[trigger] roots@[i] < (described(shared(*bytes))->0).0.len(),
        crate::columnar::covered(selectors@) <= usize::MAX,
        crate::columnar::ends_reading(selectors@),
        batch > 0,
    ensures
        match reader {
            Ok(r) => {
                &&& read_from(r) == shared(*bytes)
                &&& upcoming(r) == parquet_rows(
                    shared(*bytes),
                    roots@,
                    crate::columnar::selected(selectors@),
                    batch as int,
                )
                &&& upcoming(r).0.len() <= crate::columnar::selected(selectors@).len()
            },
            Err(_) => parquet_rows(
                shared(*bytes),
                roots@,
                crate::columnar::selected(selectors@),
                batch as int,
            ) == (Seq::<Seq<Seq<u8>>>::empty(), false),
        },
{
    let descr = meta.metadata().file_metadata().schema_descr();
    let mask = ProjectionMask::roots(descr, roots.iter().map(|r| *r as usize));
    let selection: Vec<RowSelector> = selectors.iter().map(|s| match s {
        Selector::Skip(n) => RowSelector::skip(*n as usize),
        Selector::Select(n) => RowSelector::select(*n as usize),
    }).collect();
    let builder = ParquetRecordBatchReaderBuilder::new_with_metadata(bytes.clone(), meta.clone());
    let builder = builder.with_projection(mask).with_row_selection(RowSelection::from(selection));
    let batches = builder.with_batch_size(batch).build().map_err(|e| e.to_string())?;
    Ok(BatchReader { batches })
}

/// `ParquetRecordBatchReaderBuilder` opens a file for the given columns, which have to be there, and
/// all rows. The message of a failure is left open.
#[verifier::external_body]
fn open_scan(bytes: &Bytes, meta: &ArrowReaderMetadata, roots: &[u64], batch: usize) -> (reader: Result<
    BatchReader,
    String,
>)
    requires
        file_of(*meta) == shared(*bytes),
        described(shared(*bytes)) is Some,
        pages_sound(shared(*bytes)),
        forall|i: int|
            0 <= i < roots@.len() ==> #[trigger] roots@[i] < (described(shared(*bytes))->0).0.len(),
        batch > 0,
    ensures
        match reader {
            Ok(r) => {
                &&& read_from(r) == shared(*bytes)
                &&& upcoming(r) == parquet_scan(shared(*bytes), roots@, batch as int)
            },
            Err(_) => parquet_scan(shared(*bytes), roots@, batch as int) == (
                Seq::<Seq<Seq<u8>>>::empty(),
                false,
            ),
        },
{
    let descr = meta.metadata().file_metadata().schema_descr();
    let mask = ProjectionMask::roots(descr, roots.iter().map(|r| *r as usize));
    let builder = ParquetRecordBatchReaderBuilder::new_with_metadata(bytes.clone(), meta.clone());
    let builder = builder.with_projection(mask).with_batch_size(batch);
    Ok(BatchReader { batches: builder.build().map_err(|e| e.to_string())? })
}

/// `ParquetRecordBatchReader` as an iterator gives the next rows, which are never none, and
/// `ArrayFormatter` shows each of their values as text, a missing one as no text. The reader panics
/// on some pages that no writer makes, so the pages have to be sound. The message of a failure is
/// left open.
#[verifier::external_body]
fn next_rows(reader: &mut BatchReader) -> (rows: Option<
    Result<Vec<Vec<Vec<u8>>>, String>,
>)
    requires
        pages_sound(read_from(*old(reader))),
    ensures
        read_from(*final(reader)) == read_from(*old(reader)),
        match rows {
            Some(Ok(read)) => {
                &&& read@.len() > 0
                &&& upcoming(*old(reader)).0 == crate::columnar::read_bytes(read@) + upcoming(
                    *final(reader),
                ).0
                &&& upcoming(*old(reader)).1 == upcoming(*final(reader)).1
            },
            Some(Err(_)) => upcoming(*old(reader)) == (Seq::<Seq<Seq<u8>>>::empty(), false),
            None => upcoming(*old(reader)) == (Seq::<Seq<Seq<u8>>>::empty(), true),
        },
{
    let batch = match reader.batches.next()? {
        Ok(batch) => batch,
        Err(e) => return Some(Err(e.to_string())),
    };
    let options = FormatOptions::default().with_null("");
    let columns = batch.columns().iter().map(|c| ArrayFormatter::try_new(c.as_ref(), &options));
    let formatters = match columns.collect::<Result<Vec<ArrayFormatter>, ArrowError>>() {
        Ok(formatters) => formatters,
        Err(e) => return Some(Err(e.to_string())),
    };
    let row = |r: usize| formatters.iter().map(|f| f.value(r).to_string().into_bytes()).collect();
    Some(Ok((0..batch.num_rows()).map(row).collect()))
}

/// How many rows are read at a time, at most.
pub const READ_BATCH: usize = 8192;

/// How many rows are read at a time where as many are wanted.
pub open spec fn batch_for(wanted: int) -> int {
    if wanted < 1 {
        1
    } else if wanted > READ_BATCH {
        READ_BATCH as int
    } else {
        wanted
    }
}

/// The cells of the given rows and columns of a file; one that the file does not have is empty.
pub open spec fn file_cells(
    file: Seq<u8>,
    total: int,
    fields: int,
    rows: Seq<u64>,
    columns: Seq<ColumnId>,
) -> Seq<Seq<Seq<u8>>> {
    let inside = crate::columnar::ascending(rows, total);
    let roots = crate::columnar::ascending(crate::columnar::column_numbers(columns), fields);
    crate::columnar::assembled(
        inside,
        roots,
        parquet_rows(file, roots, inside, batch_for(inside.len() as int)).0,
        rows,
        columns,
    )
}

/// Whether these cells can be read.
pub open spec fn cells_readable(
    file: Seq<u8>,
    total: int,
    fields: int,
    rows: Seq<u64>,
    columns: Seq<ColumnId>,
) -> bool {
    let inside = crate::columnar::ascending(rows, total);
    let roots = crate::columnar::ascending(crate::columnar::column_numbers(columns), fields);
    parquet_rows(file, roots, inside, batch_for(inside.len() as int)).1
}

/// The first numbers.
pub open spec fn first_numbers(n: int) -> Seq<u64> {
    Seq::new(n as nat, |i: int| i as u64)
}

/// The columns that a scan for a view reads: the one by which rows are sorted where there is no
/// search, and all of them otherwise. A column that is not there is not read.
pub open spec fn scan_roots(fields: int, search: crate::view::Search, order: Option<SortKey>) -> Seq<
    u64,
> {
    match order {
        Some(sort) if search is None => if sort.column.0 < fields {
            seq![sort.column.0 as u64]
        } else {
            Seq::empty()
        },
        _ => first_numbers(fields),
    }
}

/// What a scan for a view reads, row by row, and whether it can be read: all rows of the file,
/// whatever number of them its footer tells.
pub open spec fn scanned(
    file: Seq<u8>,
    fields: int,
    search: crate::view::Search,
    order: Option<SortKey>,
) -> (Seq<Seq<Seq<u8>>>, bool) {
    parquet_scan(file, scan_roots(fields, search, order), READ_BATCH as int)
}

/// A Parquet file in memory.
pub struct ParquetFile {
    bytes: Bytes,
    meta: ArrowReaderMetadata,
    fields: Vec<FieldInfo>,
    rows: u64,
}

impl ParquetFile {
    /// The bytes of the file.
    pub closed spec fn content(&self) -> Seq<u8> {
        shared(self.bytes)
    }

    /// The columns.
    pub closed spec fn columns(&self) -> Seq<FieldInfo> {
        self.fields@
    }

    /// The number of rows.
    pub closed spec fn total(&self) -> u64 {
        self.rows
    }

    /// The invariant of the file: columns and rows are those that it describes.
    pub closed spec fn wf(&self) -> bool {
        &&& file_of(self.meta) == shared(self.bytes)
        &&& described(self.content()) matches Some((fields, told))
        &&& fields == fields_view(self.columns())
        &&& self.rows == row_total(told)
        &&& self.rows <= usize::MAX
    }

    /// A file in the given bytes; it fails where they are none, or have more rows than can be
    /// numbered in memory.
    pub fn from_bytes(bytes: Vec<u8>) -> (r: Result<ParquetFile, Error>)
        requires
            framed(bytes@) ==> footer_sound(bytes@),
        ensures
            is_opened(bytes@, r),
            !framed(bytes@) ==> described(bytes@) is None,
    {
        ParquetFile::from_shared(share(bytes))
    }

    /// A file in bytes that are shared.
    pub fn from_shared(bytes: Bytes) -> (r: Result<ParquetFile, Error>)
        requires
            framed(shared(bytes)) ==> footer_sound(shared(bytes)),
        ensures
            is_opened(shared(bytes), r),
            !framed(shared(bytes)) ==> described(shared(bytes)) is None,
    {
        match load_metadata(&bytes) {
            Ok(meta) => {
                let (fields, told) = describe(&meta);
                let rows: u64 = if told < 0 {
                    0
                } else {
                    told as u64
                };
                if rows > usize::MAX as u64 {
                    return Err(Error::Io("the file has too many rows".to_string()));
                }
                Ok(ParquetFile { bytes, meta, fields, rows })
            },
            Err(message) => Err(Error::Io(message)),
        }
    }

    /// The columns.
    pub fn fields(&self) -> (fields: &Vec<FieldInfo>)
        ensures
            fields@ == self.columns(),
    {
        &self.fields
    }

    /// The number of rows.
    pub fn row_count(&self) -> (n: u64)
        ensures
            n == self.total(),
    {
        self.rows
    }

    /// Reads rows and columns, unless it is cancelled meanwhile, which takes a token.
    pub fn read(&self, plan: &ReadPlan, cancel: Option<&CancellationToken>) -> (r: Result<
        Vec<Vec<Vec<u8>>>,
        Error,
    >)
        requires
            self.wf(),
            pages_sound(self.content()),
            crate::columnar::ascends(plan.rows@),
            forall|i: int| 0 <= i < plan.rows@.len() ==> #[trigger] plan.rows@[i] < self.total(),
            forall|i: int|
                0 <= i < plan.roots@.len() ==> #[trigger] plan.roots@[i] < self.columns().len(),
        ensures
            ({
                let all = parquet_rows(
                    self.content(),
                    plan.roots@,
                    plan.rows@,
                    batch_for(plan.rows@.len() as int),
                );
                match r {
                    Ok(read) => all == (crate::columnar::read_bytes(read@), true),
                    Err(Error::Io(_)) => !all.1,
                    Err(e) => e is Cancelled && cancel is Some && (all.0.len() > 0 || !all.1),
                }
            }),
    {
        let selectors = row_selection(plan.rows.as_slice());
        let batch: usize = if plan.rows.len() < 1 {
            1
        } else if plan.rows.len() > READ_BATCH {
            READ_BATCH
        } else {
            plan.rows.len()
        };
        let opened = open_reader(
            &self.bytes,
            &self.meta,
            plan.roots.as_slice(),
            selectors.as_slice(),
            batch,
        );
        let mut reader = match opened {
            Ok(reader) => reader,
            Err(message) => return Err(Error::Io(message)),
        };
        let ghost all = upcoming(reader);
        let mut read: Vec<Vec<Vec<u8>>> = Vec::new();
        assert(crate::columnar::read_bytes(read@) + all.0 =~= all.0);
        loop
            invariant
                all == parquet_rows(
                    self.content(),
                    plan.roots@,
                    plan.rows@,
                    batch_for(plan.rows@.len() as int),
                ),
                all.0 == crate::columnar::read_bytes(read@) + upcoming(reader).0,
                all.1 == upcoming(reader).1,
                pages_sound(read_from(reader)),
            decreases upcoming(reader).0.len(),
        {
            let next = next_rows(&mut reader);
            if next.is_some() && is_stopped(cancel) {
                return Err(Error::Cancelled);
            }
            match next {
                Some(Ok(rows)) => {
                    let mut rows = rows;
                    let ghost before = crate::columnar::read_bytes(read@);
                    let ghost next = crate::columnar::read_bytes(rows@);
                    read.append(&mut rows);
                    assert(crate::columnar::read_bytes(read@) =~= before + next);
                    assert(before + (next + upcoming(reader).0) =~= before + next + upcoming(
                        reader,
                    ).0);
                },
                Some(Err(message)) => return Err(Error::Io(message)),
                None => {
                    assert(crate::columnar::read_bytes(read@) + Seq::empty()
                        =~= crate::columnar::read_bytes(read@));
                    return Ok(read);
                },
            }
        }
    }

    /// The rows that a view shows, from one scan of the file, unless it is cancelled meanwhile.
    pub fn build_view(
        &self,
        matcher: Option<Matcher>,
        sort: Option<SortKey>,
        cancel: Option<&CancellationToken>,
    ) -> (r: Result<Vec<u64>, Error>)
        requires
            self.wf(),
            pages_sound(self.content()),
        ensures
            ({
                let search = crate::view::search_of(matcher);
                let scan = scanned(self.content(), self.columns().len() as int, search, sort);
                match r {
                    Ok(shown) => scan_succeeds(scan) && crate::view::is_view(
                        scan.0,
                        search,
                        scan_key(search, sort),
                        shown@,
                    ),
                    Err(Error::Io(_)) => !scan_succeeds(scan),
                    Err(e) => e is Cancelled && cancel is Some && (scan.0.len() > 0 || !scan.1),
                }
            }),
    {
        let ghost search = crate::view::search_of(matcher);
        let ghost expected = scanned(self.content(), self.columns().len() as int, search, sort);
        let mut scan = ViewScan::new(matcher, sort);
        let mut roots: Vec<u64> = Vec::new();
        match scan.only_column() {
            Some(column) => {
                if (column.0 as usize) < self.fields.len() {
                    roots.push(column.0 as u64);
                }
            },
            None => {
                for i in 0..self.fields.len()
                    invariant
                        roots@.len() == i,
                        forall|j: int| 0 <= j < i ==> #[trigger] roots@[j] == j,
                {
                    roots.push(i as u64);
                }
            },
        }
        assert(roots@ =~= scan_roots(self.columns().len() as int, search, sort));
        let mut reader = match open_scan(&self.bytes, &self.meta, roots.as_slice(), READ_BATCH) {
            Ok(reader) => reader,
            Err(message) => return Err(Error::Io(message)),
        };
        assert(scan.read() + expected.0 =~= expected.0);
        loop
            invariant
                search == crate::view::search_of(matcher),
                scan.wf(),
                scan.search() == search,
                scan.order() == sort,
                expected.0 == scan.read() + upcoming(reader).0,
                expected.1 == upcoming(reader).1,
                pages_sound(read_from(reader)),
                expected == scanned(self.content(), self.columns().len() as int, search, sort),
            decreases upcoming(reader).0.len(),
        {
            let next = next_rows(&mut reader);
            if next.is_some() && is_stopped(cancel) {
                return Err(Error::Cancelled);
            }
            match next {
                Some(Ok(rows)) => {
                    let ghost before = scan.read();
                    let ghost next = crate::columnar::read_bytes(rows@);
                    assert(before + next.take(0) =~= before);
                    assert(before + (next + upcoming(reader).0) =~= before + next + upcoming(
                        reader,
                    ).0);
                    for i in 0..rows.len()
                        invariant
                            scan.wf(),
                            scan.search() == search,
                            scan.order() == sort,
                            next == crate::columnar::read_bytes(rows@),
                            scan.read() == before + next.take(i as int),
                            search == crate::view::search_of(matcher),
                            expected.0 == before + next + upcoming(reader).0,
                            expected == scanned(
                                self.content(),
                                self.columns().len() as int,
                                search,
                                sort,
                            ),
                    {
                        if scan.count() == u64::MAX {
                            return Err(Error::Io("the file has too many rows".to_string()));
                        }
                        scan.add_row(&rows[i]);
                        assert(next[i as int] == crate::search::contents(rows@[i as int]@));
                        assert(before + next.take(i + 1) =~= (before + next.take(i as int)).push(
                            next[i as int],
                        ));
                    }
                    assert(next.take(next.len() as int) =~= next);
                },
                Some(Err(message)) => return Err(Error::Io(message)),
                None => {
                    assert(scan.read() + Seq::empty() =~= scan.read());
                    let n: u64 = scan.count();
                    assert(scan.read().len() == n);
                    return Ok(scan.finish());
                },
            }
        }
    }
}

/// Whether a scan reads all that there is, and no more rows than can be numbered.
pub open spec fn scan_succeeds(scan: (Seq<Seq<Seq<u8>>>, bool)) -> bool {
    scan.1 && scan.0.len() <= u64::MAX
}

/// Whether a file was opened, or why not.
pub open spec fn is_opened(bytes: Seq<u8>, r: Result<ParquetFile, Error>) -> bool {
    match described(bytes) {
        Some((fields, told)) if row_total(told) <= usize::MAX => {
            &&& r matches Ok(file)
            &&& file.wf()
            &&& file.content() == bytes
            &&& fields_view(file.columns()) == fields
            &&& file.total() == row_total(told)
        },
        _ => r matches Err(Error::Io(_)),
    }
}

/// The sort by the column whose fields are the keys, in what a scan reads.
pub open spec fn scan_key(search: crate::view::Search, order: Option<SortKey>) -> Option<SortKey> {
    match order {
        Some(sort) => Some(crate::columnar::key_column(search, sort)),
        None => None,
    }
}

/// A table over a Parquet file in memory.
pub struct ParquetTable {
    file: Arc<ParquetFile>,
    state: ParquetState,
}

impl ParquetTable {
    /// The bytes of the file.
    pub closed spec fn source(&self) -> Seq<u8> {
        self.file.content()
    }

    /// The state of the table.
    pub closed spec fn state(&self) -> ParquetState {
        self.state
    }

    /// The invariant: the state belongs to the file, and so does the slice that is kept.
    pub closed spec fn fits(&self) -> bool {
        &&& self.file.wf()
        &&& self.state.fields() == self.file.columns().len()
        &&& self.state.total() == self.file.total()
        &&& self.state.cached() matches Some(c) ==> c.cells == self.cells(c.rows, c.columns)
    }

    /// The cells of the given rows and columns of the file.
    pub open spec fn cells(&self, rows: Seq<u64>, columns: Seq<ColumnId>) -> Seq<Seq<Seq<u8>>> {
        file_cells(
            self.source(),
            self.state().total() as int,
            self.state().fields() as int,
            rows,
            columns,
        )
    }

    /// Whether these cells can be read.
    pub open spec fn readable(&self, rows: Seq<u64>, columns: Seq<ColumnId>) -> bool {
        cells_readable(
            self.source(),
            self.state().total() as int,
            self.state().fields() as int,
            rows,
            columns,
        )
    }

    /// Whether anything is read of the file for these cells: some of them are in it, and they are not
    /// the slice that is kept.
    pub open spec fn reads(&self, rows: Seq<u64>, columns: Seq<ColumnId>) -> bool {
        &&& exists|i: int| 0 <= i < rows.len() && #[trigger] rows[i] < self.state().total()
        &&& exists|j: int|
            0 <= j < columns.len() && (#[trigger] columns[j]).0 < self.state().fields()
        &&& self.state().cached() matches Some(c) ==> c.rows != rows || c.columns != columns
    }

    /// A table over the file in the given bytes.
    pub fn from_bytes(bytes: Vec<u8>) -> (r: Result<ParquetTable, Error>)
        requires
            framed(bytes@) ==> footer_sound(bytes@),
        ensures
            is_table_over(bytes@, r),
    {
        match ParquetFile::from_bytes(bytes) {
            Ok(file) => {
                assert(crate::columnar::field_columns(file.columns()) =~= described_columns(
                    fields_view(file.columns()),
                ));
                Ok(ParquetTable::over(Arc::new(file)))
            },
            Err(e) => Err(e),
        }
    }

    /// A table over a file.
    pub fn over(file: Arc<ParquetFile>) -> (table: ParquetTable)
        requires
            file.wf(),
        ensures
            table.fits(),
            table.source() == file.content(),
            crate::table::column_views(table.state().columns()) == crate::columnar::field_columns(
                file.columns(),
            ),
            table.state().fields() == file.columns().len(),
            table.state().total() == file.total(),
            table.state().slot().shown() is None,
            !table.state().slot().is_building(),
    {
        let state = ParquetState::new(file.fields().as_slice(), file.row_count());
        ParquetTable { file, state }
    }

    /// Fetches rows of the file, from the slice that is kept where it is the same, unless it is
    /// cancelled meanwhile, which takes a token.
    pub fn fetch_rows(
        &self,
        data_rows: &[u64],
        columns: &[ColumnId],
        cancel: Option<&CancellationToken>,
    ) -> (r: Result<Viewport, Error>)
        requires
            self.fits(),
            pages_sound(self.source()),
        ensures
            match r {
                Ok(viewport) => viewport@ == self.cells(data_rows@, columns@),
                Err(Error::Io(_)) => data_rows@.len() > 0 && !self.readable(data_rows@, columns@),
                Err(e) => data_rows@.len() > 0 && e is Cancelled && cancel is Some,
            },
            r is Err ==> self.reads(data_rows@, columns@),
    {
        match self.state.plan(data_rows, columns) {
            FetchPlan::Done(viewport) => {
                proof {
                    self.lemma_unread(data_rows@, columns@);
                }
                Ok(viewport)
            },
            FetchPlan::Read(plan) => {
                proof {
                    crate::columnar::lemma_ascending(
                        plan.rows@,
                        data_rows@,
                        self.state().total() as int,
                    );
                    crate::columnar::lemma_ascending(
                        plan.roots@,
                        crate::columnar::column_numbers(columns@),
                        self.state().fields() as int,
                    );
                    assert(data_rows@.contains(plan.rows@[0]));
                    let i = data_rows@.index_of(plan.rows@[0]);
                    assert(data_rows@[i] < self.state().total());
                    let numbers = crate::columnar::column_numbers(columns@);
                    assert(numbers.contains(plan.roots@[0]));
                    let j = numbers.index_of(plan.roots@[0]);
                    assert(numbers[j] == columns@[j].0 as u64);
                    assert(columns@[j].0 < self.state().fields());
                }
                match self.file.read(&plan, cancel) {
                    Ok(read) => Ok(assemble(&plan, &read, data_rows, columns)),
                    Err(e) => Err(e),
                }
            },
        }
    }

    /// Where no row or no column is in the file, every cell is empty.
    proof fn lemma_unread(&self, rows: Seq<u64>, columns: Seq<ColumnId>)
        ensures
            rows.len() == 0 ==> self.cells(rows, columns) == Seq::<Seq<Seq<u8>>>::empty(),
            (forall|i: int| 0 <= i < rows.len() ==> #[trigger] rows[i] >= self.state().total())
                ==> self.cells(rows, columns) == crate::columnar::empty_grid(rows, columns),
            (forall|i: int|
                0 <= i < columns.len() ==> (#[trigger] columns[i]).0 >= self.state().fields())
                ==> self.cells(rows, columns) == crate::columnar::empty_grid(rows, columns),
    {
        let none = Seq::<u64>::empty();
        let numbers = crate::columnar::column_numbers(columns);
        let (total, fields) = (self.state().total() as int, self.state().fields() as int);
        if rows.len() == 0 {
            assert(self.cells(rows, columns) =~= Seq::<Seq<Seq<u8>>>::empty());
        }
        if forall|i: int| 0 <= i < rows.len() ==> #[trigger] rows[i] >= total {
            assert(crate::columnar::is_ascending_set(none, rows, total));
            crate::columnar::lemma_ascending(none, rows, total);
            assert(self.cells(rows, columns) =~~= crate::columnar::empty_grid(rows, columns));
        }
        if forall|i: int| 0 <= i < columns.len() ==> (#[trigger] columns[i]).0 >= fields {
            assert(crate::columnar::is_ascending_set(none, numbers, fields)) by {
                assert forall|i: int| 0 <= i < numbers.len() implies (#[trigger] numbers[i])
                    >= fields by {
                    assert(numbers[i] == columns[i].0 as u64);
                }
            }
            crate::columnar::lemma_ascending(none, numbers, fields);
            assert(self.cells(rows, columns) =~~= crate::columnar::empty_grid(rows, columns));
        }
    }

    /// Fetches rows of the active view as [`ViewportSource::fetch`] does, and keeps what was read, so
    /// that the same request does not read it again.
    pub fn fetch_keeping(&mut self, request: &ViewportRequest, cancel: &CancellationToken) -> (r:
        Result<Viewport, Error>)
        requires
            old(self).fits(),
            pages_sound(old(self).source()),
        ensures
            final(self).fits(),
            final(self).source() == old(self).source(),
            final(self).state().columns() == old(self).state().columns(),
            final(self).state().fields() == old(self).state().fields(),
            final(self).state().total() == old(self).state().total(),
            final(self).state().slot() == old(self).state().slot(),
            r matches Ok(viewport) ==> final(self).state().cached() == Some(
                (crate::columnar::CacheView {
                    rows: crate::view::resolved(old(self).state().slot().shown(), request.rows),
                    columns: request.columns@,
                    cells: viewport@,
                }),
            ),
            r is Err ==> final(self).state().cached() == old(self).state().cached() && old(self).reads(
                crate::view::resolved(old(self).state().slot().shown(), request.rows),
                request.columns@,
            ),
            ({
                let rows = crate::view::resolved(old(self).state().slot().shown(), request.rows);
                match r {
                    Ok(viewport) => viewport@ == old(self).cells(rows, request.columns@),
                    Err(Error::Io(_)) => rows.len() > 0 && !old(self).readable(
                        rows,
                        request.columns@,
                    ),
                    Err(e) => rows.len() > 0 && e is Cancelled,
                }
            }),
    {
        let rows = self.state.resolve(request.rows);
        let columns = request.columns.as_slice();
        let viewport = match self.fetch_rows(rows.as_slice(), columns, Some(cancel)) {
            Ok(viewport) => viewport,
            Err(e) => return Err(e),
        };
        self.state.keep(rows.as_slice(), columns, &viewport);
        Ok(viewport)
    }

    /// Shows a view. A search that does not compile is refused, and a file that cannot be read has
    /// none; either way what is shown stays.
    pub fn set_view(&mut self, spec: &ViewSpec) -> (r: Result<(), Error>)
        requires
            old(self).fits(),
            pages_sound(old(self).source()),
        ensures
            final(self).fits(),
            final(self).source() == old(self).source(),
            final(self).state().columns() == old(self).state().columns(),
            final(self).state().fields() == old(self).state().fields(),
            final(self).state().total() == old(self).state().total(),
            !(r matches Err(Error::InvalidPattern(_))) ==> final(self).state().slot().current()
                == crate::view::next_job(old(self).state().slot().current()),
            ({
                let search = crate::view::wanted(*spec);
                let scan = scanned(
                    old(self).source(),
                    old(self).state().fields() as int,
                    search,
                    spec.sort,
                );
                let identical = spec.filter is None && spec.sort is None;
                match r {
                    Ok(()) => {
                        &&& crate::view::compiles(*spec)
                        &&& !final(self).state().slot().is_building()
                        &&& if identical {
                            final(self).state().slot().shown() is None
                        } else {
                            scan_succeeds(scan) && (final(self).state().slot().shown() matches Some(shown)
                                && crate::view::is_view(
                                scan.0,
                                search,
                                scan_key(search, spec.sort),
                                shown,
                            ))
                        }
                    },
                    Err(Error::InvalidPattern(text)) => {
                        &&& final(self).state().slot() == old(self).state().slot()
                        &&& spec.filter matches Some(filter) && filter.texts() == Err::<
                            Set<Seq<u8>>,
                            Seq<char>,
                        >(text@)
                    },
                    Err(e) => {
                        &&& e is Io && crate::view::compiles(*spec) && !identical && !scan_succeeds(scan)
                        &&& final(self).state().slot().shown() == old(self).state().slot().shown()
                        &&& !final(self).state().slot().is_building()
                    },
                }
            }),
    {
        match self.state.begin_view(spec) {
            Err(e) => Err(e),
            Ok(None) => Ok(()),
            Ok(Some(job)) => {
                let id: u64 = job.id;
                match self.file.build_view(job.matcher, job.sort, None) {
                    Ok(rows) => {
                        self.state.finish_view(id, Some(rows));
                        Ok(())
                    },
                    Err(e) => {
                        self.state.finish_view(id, None);
                        Err(e)
                    },
                }
            },
        }
    }

    /// Returns to the order of the file.
    pub fn clear_view(&mut self)
        requires
            old(self).fits(),
        ensures
            final(self).fits(),
            final(self).source() == old(self).source(),
            final(self).state().columns() == old(self).state().columns(),
            final(self).state().fields() == old(self).state().fields(),
            final(self).state().total() == old(self).state().total(),
            final(self).state().slot().shown() is None,
            !final(self).state().slot().is_building(),
            final(self).state().slot().current() == crate::view::next_job(
                old(self).state().slot().current(),
            ),
    {
        self.state.clear_view();
    }

    /// How the work on a view stands.
    pub fn view_status(&self) -> (status: ViewStatus)
        ensures
            status.building == self.state().slot().is_building(),
    {
        self.state.view_status()
    }
}

impl ViewportSource for ParquetTable {
    open spec fn reliable(&self) -> bool {
        false
    }

    open spec fn wf(&self) -> bool {
        self.fits() && pages_sound(self.source())
    }

    open spec fn columns(&self) -> Seq<Column> {
        self.state().columns()
    }

    open spec fn rows(&self) -> RowCount {
        self.state().rows()
    }

    open spec fn source_rows(&self) -> RowCount {
        RowCount::Exact(self.state().total())
    }

    open spec fn shown(&self, range: RowRange, columns: Seq<ColumnId>) -> Seq<Seq<Seq<u8>>> {
        self.cells(crate::view::resolved(self.state().slot().shown(), range), columns)
    }

    open spec fn stored(&self, range: RowRange, columns: Seq<ColumnId>) -> Seq<Seq<Seq<u8>>> {
        self.cells(crate::view::contiguous(range), columns)
    }

    open spec fn quality(&self) -> DataQuality {
        DataQuality { ragged_rows: 0, complete: true }
    }

    fn schema(&self) -> (schema: &Schema) {
        self.state.schema()
    }

    fn row_count(&self) -> (count: RowCount) {
        self.state.row_count()
    }

    fn source_count(&self) -> (count: RowCount) {
        self.state.source_count()
    }

    fn fetch(&self, request: &ViewportRequest, cancel: &CancellationToken) -> (r: Result<
        Viewport,
        Error,
    >) {
        let rows = self.state.resolve(request.rows);
        self.fetch_rows(rows.as_slice(), request.columns.as_slice(), Some(cancel))
    }

    fn fetch_source(&self, request: &ViewportRequest, cancel: &CancellationToken) -> (r: Result<
        Viewport,
        Error,
    >) {
        let rows = contiguous_rows(request.rows);
        self.fetch_rows(rows.as_slice(), request.columns.as_slice(), Some(cancel))
    }

    fn data_quality(&self) -> (quality: DataQuality) {
        self.state.data_quality()
    }
}

/// Whether a table over a file was made, or why not.
pub open spec fn is_table_over(bytes: Seq<u8>, r: Result<ParquetTable, Error>) -> bool {
    match described(bytes) {
        Some((fields, told)) if row_total(told) <= usize::MAX => {
            &&& r matches Ok(table)
            &&& table.fits()
            &&& table.source() == bytes
            &&& crate::table::column_views(table.state().columns()) == described_columns(fields)
            &&& table.state().fields() == fields.len()
            &&& table.state().total() == row_total(told)
            &&& table.state().slot().shown() is None
            &&& !table.state().slot().is_building()
        },
        _ => r matches Err(Error::Io(_)),
    }
}

/// The columns of a table over a file that is described so.
pub open spec fn described_columns(fields: Seq<(Seq<char>, FieldKind)>) -> Seq<
    crate::table::ColumnView,
> {
    Seq::new(
        fields.len(),
        |i: int|
            crate::table::ColumnView {
                id: i as u32,
                name: vstd::utf8::encode_utf8(fields[i].0),
                inferred: crate::columnar::kind_type(fields[i].1),
            },
    )
}

proof fn lemma_texts_add(a: Seq<Seq<Seq<u8>>>, b: Seq<Seq<Seq<u8>>>, column: int)
    ensures
        crate::export::column_texts(a + b, column) == crate::export::column_texts(a, column)
            + crate::export::column_texts(b, column),
{
    assert(crate::export::column_texts(a + b, column) =~= crate::export::column_texts(a, column)
        + crate::export::column_texts(b, column));
}

proof fn lemma_stacked(batches: Seq<Seq<Seq<Seq<u8>>>>, n: nat, column: int)
    requires
        0 <= column < n,
    ensures
        crate::export::stacked(crate::export::text_batches(batches, n), column)
            == crate::export::column_texts(crate::export::batch_rows(batches), column),
    decreases batches.len(),
{
    let texts = crate::export::text_batches(batches, n);
    if batches.len() == 0 {
        assert(crate::export::stacked(texts, column) =~= crate::export::column_texts(
            crate::export::batch_rows(batches),
            column,
        ));
    } else {
        let rest = batches.drop_first();
        lemma_stacked(rest, n, column);
        assert(texts.drop_first() =~= crate::export::text_batches(rest, n));
        assert(texts[0] == crate::export::batch_columns(batches[0], n));
        lemma_texts_add(batches[0], crate::export::batch_rows(rest), column);
    }
}

/// A file that was exported reads back: a table over it has the names and the number of rows that
/// were written, and every cell that can be read is the text that was written.
pub proof fn exported_file_reads_back(
    table: &ParquetTable,
    names: Seq<Seq<char>>,
    batches: Seq<Seq<Seq<Seq<u8>>>>,
    rows: Seq<u64>,
    columns: Seq<ColumnId>,
    i: int,
    j: int,
)
    requires
        table.fits(),
        crate::export::reads_written(
            table.source(),
            names,
            crate::export::text_batches(batches, names.len()),
        ),
        table.readable(rows, columns),
        0 <= i < rows.len(),
        0 <= j < columns.len(),
        rows[i] < crate::export::batch_rows(batches).len(),
        columns[j].0 < names.len(),
    ensures
        table.state().fields() == names.len(),
        table.state().total() == crate::export::batch_rows(batches).len(),
        ({
            let row = crate::export::batch_rows(batches)[rows[i] as int];
            table.cells(rows, columns)[i][j] == if columns[j].0 < row.len() {
                vstd::utf8::encode_utf8(crate::text::lossy_text(row[columns[j].0 as int]))
            } else {
                Seq::empty()
            }
        }),
{
    let grid = crate::export::batch_rows(batches);
    let texts = crate::export::text_batches(batches, names.len());
    let c = columns[j].0 as int;
    lemma_stacked(batches, names.len(), 0);
    lemma_stacked(batches, names.len(), c);
    assert(crate::export::stacked(texts, 0).len() == grid.len());
    assert(fields_view(table.file.columns()).len() == names.len());
    let (total, fields) = (table.state().total() as int, table.state().fields() as int);
    let numbers = crate::columnar::column_numbers(columns);
    let inside = crate::columnar::ascending(rows, total);
    let roots = crate::columnar::ascending(numbers, fields);
    crate::columnar::lemma_ascending_exists(rows, total);
    crate::columnar::lemma_ascending_exists(numbers, fields);
    assert(numbers[j] == c);
    assert(roots.contains(numbers[j]));
    let file = |r: u64, c: u64|
        crate::export::stored_bytes(crate::export::stacked(texts, c as int)[r as int]);
    crate::columnar::assembled_cells_are_those_of_the_file(
        file,
        total,
        fields,
        inside,
        roots,
        rows,
        columns,
        i,
        j,
    );
    assert(crate::export::stored_rows(texts, roots, inside) =~~= Seq::new(
        inside.len(),
        |r: int| Seq::new(roots.len(), |c: int| file(inside[r], roots[c])),
    ));
}

/// Whether a view of a file was shown: everything in the order of the file, or the rows that a scan
/// of the file gives.
pub open spec fn view_shown(table: &ParquetTable, spec: ViewSpec) -> bool {
    let search = crate::view::wanted(spec);
    let scan = scanned(
        table.source(),
        table.state().fields() as int,
        search,
        spec.sort,
    );
    &&& crate::view::compiles(spec)
    &&& !table.state().slot().is_building()
    &&& if spec.filter is None && spec.sort is None {
        table.state().slot().shown() is None
    } else {
        scan_succeeds(scan) && (table.state().slot().shown() matches Some(shown) && crate::view::is_view(
            scan.0,
            search,
            scan_key(search, spec.sort),
            shown,
        ))
    }
}

/// Exports rows of a table as a Parquet file and reads the file again: a table over it, in the given
/// view, with the cells of a request. This is how an export is tried out.
pub fn reread_export<T: ViewportSource>(
    table: &T,
    scope: ExportScope,
    columns: &[ColumnId],
    names: &[Vec<u8>],
    spec: &ViewSpec,
    request: &ViewportRequest,
    cancel: &CancellationToken,
) -> (r: Result<(ParquetTable, Viewport), Error>)
    requires
        table.wf(),
        names@.len() <= u32::MAX,
    ensures
        ({
            let keys = crate::export::keys_for(crate::search::contents(names@), names@.len());
            let batches = crate::export::text_batches(
                crate::export::export_batches(table, scope, columns@),
                columns@.len(),
            );
            let written = crate::export::parquet_file(keys, batches);
            match r {
                Ok((copy, viewport)) => {
                    &&& copy.wf()
                    &&& written == Some(copy.source())
                    &&& crate::export::reads_written(copy.source(), keys, batches)
                    &&& view_shown(&copy, *spec)
                    &&& viewport@ == copy.shown(request.rows, request.columns@)
                },
                Err(Error::InvalidPattern(text)) => spec.filter matches Some(filter)
                    && filter.texts() == Err::<Set<Seq<u8>>, Seq<char>>(text@),
                Err(Error::Cancelled) => crate::export::total_of(table, scope) > 0
                    || request.rows.len > 0,
                Err(e) => {
                    &&& e is Io
                    &&& !table.reliable() || written is None || !is_readable(written->0) || exists|
                        b: int,
                    |
                        0 <= b < batches.len() && !crate::export::addressable(#[trigger] batches[b])
                },
            }
        }),
{
    let mut file: Vec<u8> = Vec::new();
    match crate::export::export_parquet(table, &mut file, scope, columns, names, cancel) {
        Ok(()) => {},
        Err(e) => return Err(e),
    }
    let ghost bytes = file@;
    proof {
        let keys = crate::export::keys_for(crate::search::contents(names@), names@.len());
        let batches = crate::export::text_batches(
            crate::export::export_batches(table, scope, columns@),
            columns@.len(),
        );
        assert(Seq::<u8>::empty() + crate::export::parquet_file(keys, batches)->0 =~= bytes);
    }
    let mut copy = match ParquetTable::from_bytes(file) {
        Ok(copy) => copy,
        Err(e) => return Err(e),
    };
    proof {
        if is_readable(copy.source()) {
            lemma_is_readable(&copy);
        }
    }
    match copy.set_view(spec) {
        Ok(()) => {},
        Err(e) => return Err(e),
    }
    proof {
        if is_readable(copy.source()) {
            lemma_is_readable(&copy);
        }
    }
    match copy.fetch_keeping(request, cancel) {
        Ok(viewport) => Ok((copy, viewport)),
        Err(e) => Err(e),
    }
}

/// Whether a file can be read as a whole: it has a footer with no more rows than can be numbered in
/// memory, and all rows and columns that it describes can be had.
pub open spec fn is_readable(file: Seq<u8>) -> bool {
    described(file) matches Some((fields, told)) && {
        &&& row_total(told) <= usize::MAX
        &&& forall|roots: Seq<u64>, rows: Seq<u64>, batch: int|
            {
                &&& batch > 0
                &&& crate::columnar::ascends(roots)
                &&& crate::columnar::ascends(rows)
                &&& forall|j: int| 0 <= j < roots.len() ==> #[trigger] roots[j] < fields.len()
                &&& forall|i: int| 0 <= i < rows.len() ==> #[trigger] rows[i] < row_total(told)
            } ==> (#[trigger] parquet_rows(file, roots, rows, batch)).1
        &&& forall|roots: Seq<u64>, batch: int|
            {
                &&& batch > 0
                &&& crate::columnar::ascends(roots)
                &&& forall|j: int| 0 <= j < roots.len() ==> #[trigger] roots[j] < fields.len()
            } ==> scan_succeeds(#[trigger] parquet_scan(file, roots, batch))
    }
}

/// Of a file that can be read as a whole, every request and every scan can be read.
proof fn lemma_is_readable(table: &ParquetTable)
    requires
        table.fits(),
        is_readable(table.source()),
    ensures
        forall|rows: Seq<u64>, columns: Seq<ColumnId>| #[trigger] table.readable(rows, columns),
        forall|search: crate::view::Search, order: Option<SortKey>|
            scan_succeeds(
                #[trigger] scanned(
                    table.source(),
                    table.state().fields() as int,
                    search,
                    order,
                ),
            ),
{
    let (total, fields) = (table.state().total() as int, table.state().fields() as int);
    assert(fields_view(table.file.columns()).len() == fields);
    assert forall|rows: Seq<u64>, columns: Seq<ColumnId>| #[trigger]
        table.readable(rows, columns) by {
        crate::columnar::lemma_ascending_exists(rows, total);
        crate::columnar::lemma_ascending_exists(
            crate::columnar::column_numbers(columns),
            fields,
        );
    }
}

/// Whether bytes end like a file with a footer.
pub fn is_framed(bytes: &[u8]) -> (r: bool)
    ensures
        r == framed(bytes@),
{
    let n: usize = bytes.len();
    n >= 8 && bytes[n - 4] == 0x50 && bytes[n - 3] == 0x41 && bytes[n - 2] == 0x52 && (bytes[n - 1]
        == 0x31 || bytes[n - 1] == 0x45)
}

/// Refuses bytes that do not end like a file with a footer, as opening them does; others are given
/// back as they are. Of those, no test short of reading the footer shows whether it can be read.
pub fn refuse_unframed(bytes: Vec<u8>) -> (r: Result<Vec<u8>, Error>)
    ensures
        match r {
            Ok(same) => framed(bytes@) && same@ == bytes@,
            Err(e) => !framed(bytes@) && described(bytes@) is None && e is Io,
        },
{
    if is_framed(bytes.as_slice()) {
        return Ok(bytes);
    }
    match ParquetFile::from_bytes(bytes) {
        Ok(_) => Err(Error::Io("the file has no footer".to_string())),
        Err(e) => Err(e),
    }
}

/// A view of a file that was exported is a view of what was written, searched in all columns and sorted
/// by the column that was asked for: `grid` has the texts of the cells that were written, row by row
/// and column by column.
pub proof fn views_of_an_exported_file(
    table: &ParquetTable,
    spec: ViewSpec,
    names: Seq<Seq<char>>,
    batches: Seq<Seq<Seq<Seq<u8>>>>,
    grid: Seq<Seq<Seq<u8>>>,
)
    requires
        table.fits(),
        names.len() > 0,
        crate::export::reads_written(
            table.source(),
            names,
            crate::export::text_batches(batches, names.len()),
        ),
        view_shown(table, spec),
        spec.filter is Some || spec.sort is Some,
        spec.sort matches Some(key) ==> key.column.0 < names.len(),
        grid.len() == crate::export::batch_rows(batches).len(),
        forall|r: int|
            0 <= r < grid.len() ==> (#[trigger] grid[r]).len() == names.len(),
        forall|r: int, c: int|
            #![trigger grid[r][c]]
            0 <= r < grid.len() && 0 <= c < names.len() ==> {
                let row = crate::export::batch_rows(batches)[r];
                grid[r][c] == if c < row.len() {
                    vstd::utf8::encode_utf8(crate::text::lossy_text(row[c]))
                } else {
                    Seq::empty()
                }
            },
    ensures
        table.state().slot().shown() matches Some(shown) && crate::view::is_view(
            grid,
            crate::view::wanted(spec),
            spec.sort,
            shown,
        ),
{
    let search = crate::view::wanted(spec);
    let file = table.source();
    let texts = crate::export::text_batches(batches, names.len());
    let written = crate::export::batch_rows(batches);
    let fields = table.state().fields() as int;
    assert(fields_view(table.file.columns()).len() == names.len());
    assert(fields == names.len());
    let roots = scan_roots(fields, search, spec.sort);
    let scan = parquet_scan(file, roots, READ_BATCH as int);
    lemma_stacked(batches, names.len(), 0);
    let n = crate::export::stacked(texts, 0).len() as int;
    assert(n == grid.len());
    assert(crate::columnar::ascends(roots));
    assert(scan.0 == crate::export::stored_rows(texts, roots, first_numbers(n)));
    let shown = table.state().slot().shown()->0;
    assert forall|r: int, j: int|
        0 <= r < grid.len() && 0 <= j < roots.len() implies #[trigger] scan.0[r][j]
        == grid[r][roots[j] as int] by {
        lemma_stacked(batches, names.len(), roots[j] as int);
        let row = written[r];
        assert(first_numbers(n)[r] == r as u64);
        assert(crate::export::column_texts(written, roots[j] as int)[r] == if roots[j] < row.len() {
            Some(crate::text::lossy_text(row[roots[j] as int]))
        } else {
            None
        });
    }
    if search is None && spec.sort is Some {
        let sort = spec.sort->0;
        let narrow = grid.map_values(
            |row: Seq<Seq<u8>>| seq![crate::view::cell_of(row, sort.column)],
        );
        assert forall|r: int| 0 <= r < grid.len() implies scan.0[r] == #[trigger] narrow[r] by {
            assert(scan.0[r][0] == grid[r][roots[0] as int]);
            assert(scan.0[r] =~= narrow[r]);
        }
        assert(scan.0 =~= narrow);
        crate::columnar::narrow_scan_finds_the_same_view(grid, sort, shown);
    } else {
        assert forall|r: int| 0 <= r < grid.len() implies scan.0[r] == #[trigger] grid[r] by {
            assert forall|j: int| 0 <= j < roots.len() implies scan.0[r][j] == #[trigger] grid[r][j] by {
                assert(scan.0[r][j] == grid[r][roots[j] as int]);
            }
            assert(scan.0[r] =~= grid[r]);
        }
        assert(scan.0 =~= grid);
    }
}

/// A table over a file has one column for each field that the file describes, under the field's name,
/// and no more rows than its footer tells; a footer that tells fewer than none has none.
pub proof fn described_columns_are_the_fields(fields: Seq<(Seq<char>, FieldKind)>, told: i64, i: int)
    ensures
        described_columns(fields).len() == fields.len(),
        0 <= i < fields.len() ==> described_columns(fields)[i].name == vstd::utf8::encode_utf8(
            fields[i].0,
        ),
        0 <= i < fields.len() <= u32::MAX ==> described_columns(fields)[i].id == i,
        0 <= i < fields.len() ==> described_columns(fields)[i].inferred == crate::columnar::kind_type(
            fields[i].1,
        ),
        told >= 0 ==> row_total(told) == told,
        told < 0 ==> row_total(told) == 0,
{
}

/// A file can be one only where it ends in `PAR1`, or in `PARE` where its footer is encrypted, behind
/// the four bytes of a length.
pub proof fn files_end_in_their_mark(front: Seq<u8>)
    ensures
        front.len() >= 4 ==> framed(front + seq![0x50u8, 0x41, 0x52, 0x31]),
        front.len() >= 4 ==> framed(front + seq![0x50u8, 0x41, 0x52, 0x45]),
        front.len() < 8 ==> !framed(front),
        front.len() > 0 && front.last() != 0x31 && front.last() != 0x45 ==> !framed(front),
{
}

/// Rows are read in batches of as many as are wanted, but at least one and at most 8192.
pub proof fn batches_fit_what_is_wanted(wanted: int)
    ensures
        1 <= wanted <= 8192 ==> batch_for(wanted) == wanted,
        wanted > 8192 ==> batch_for(wanted) == 8192,
        wanted < 1 ==> batch_for(wanted) == 1,
{
}

/// A table over a file has as many rows as the file, and a view as many as it shows; all are counted
/// at once.
pub proof fn file_tables_count_their_rows(table: &ParquetTable)
    ensures
        table.source_rows() == RowCount::Exact(table.state().total()),
        table.state().slot().shown() is None ==> table.rows() == table.source_rows(),
        table.state().slot().shown() matches Some(view) ==> view.len() <= u64::MAX ==> (
        table.rows() matches RowCount::Exact(n) && n == view.len()),
        table.quality().complete && table.quality().ragged_rows == 0,
{
}

} // verus!
