//! What a look at a table tells before it is converted.
use vstd::prelude::*;

use crate::convert::{is_row_step, is_run, is_trace, kept, texts};
use crate::modes::{AutoInspectMode, SelectionMode};
use crate::rsi::{Arithmetic, RsiModel};
use crate::table::{csv_records, csv_remaining, next_record, open_reader, readable, Record};
use crate::text::{blank, is_blank, is_white_space};

verus! {

/// What an inspection finds in a table.
#[derive(Clone, Copy, Debug, PartialEq, Eq, Structural)]
pub struct FileStats {
    /// How many rows it has, where they were counted.
    pub row_count: Option<usize>,
    /// How many fields its narrowest row has, where it has a row.
    pub min_columns: Option<usize>,
    /// How many fields its widest row has, where it has a row.
    pub max_columns: Option<usize>,
    /// Whether it is still to be converted, where that was asked.
    pub auto_processable: Option<bool>,
}

/// Why a table could not be inspected.
#[derive(Debug)]
pub enum InspectError {
    /// The first record could not be read; what the reader says of it.
    FirstRecord(String),
    /// A record could not be read; what the reader says of it.
    Record(String),
}

/// `least` is the width of the narrowest row.
pub open spec fn is_narrowest(least: Option<usize>, rows: Seq<Seq<Seq<char>>>) -> bool {
    match least {
        None => rows.len() == 0,
        Some(width) => {
            &&& forall|i: int| 0 <= i < rows.len() ==> width <= (#[trigger] rows[i]).len()
            &&& exists|i: int| 0 <= i < rows.len() && width == (#[trigger] rows[i]).len()
        },
    }
}

/// `most` is the width of the widest row.
pub open spec fn is_widest(most: Option<usize>, rows: Seq<Seq<Seq<char>>>) -> bool {
    match most {
        None => rows.len() == 0,
        Some(width) => {
            &&& forall|i: int| 0 <= i < rows.len() ==> (#[trigger] rows[i]).len() <= width
            &&& exists|i: int| 0 <= i < rows.len() && width == (#[trigger] rows[i]).len()
        },
    }
}

/// The counts of a table whose rows were all read.
pub open spec fn counts_rows(stats: FileStats, rows: Seq<Seq<Seq<char>>>) -> bool {
    &&& stats.row_count == Some(rows.len() as usize)
    &&& rows.len() <= usize::MAX
    &&& is_narrowest(stats.min_columns, rows)
    &&& is_widest(stats.max_columns, rows)
}

/// Every record can be read.
pub open spec fn all_readable(records: Seq<Record>) -> bool {
    forall|i: int| 0 <= i < records.len() ==> #[trigger] records[i] is Ok
}

/// The record at `index` is the first that cannot be read.
pub open spec fn is_first_unreadable(records: Seq<Record>, index: int) -> bool {
    &&& 0 <= index < records.len()
    &&& records[index] is Err
    &&& all_readable(records.take(index))
}

/// `text` is what is told of the first record that cannot be read.
pub open spec fn tells_unreadable(text: Seq<char>, records: Seq<Record>) -> bool {
    exists|index: int| #[trigger]
        is_first_unreadable(records, index) && records[index]->Err_0 == text
}

/// A row whose RSI columns are all there, with something in each.
pub open spec fn is_completed(row: Seq<Seq<char>>, expected_columns: nat, rsi_columns: nat) -> bool {
    forall|offset: int|
        0 <= offset < rsi_columns ==> expected_columns + offset < row.len() && !is_blank(
            #[trigger] row[expected_columns + offset],
        )
}

/// Whether the RSI columns of a row are all there, with something in each.
pub fn row_has_completed_appended_rsi_columns(
    record: &Vec<String>,
    expected_columns: usize,
    rsi_column_count: usize,
) -> (result: bool)
    ensures
        result == is_completed(
            record.deep_view(),
            expected_columns as nat,
            rsi_column_count as nat,
        ),
        result == !lacks_a_cell(
            record.deep_view(),
            expected_columns as nat,
            rsi_column_count as nat,
        ),
{
    proof {
        lemma_completed_or_lacking(
            record.deep_view(),
            expected_columns as nat,
            rsi_column_count as nat,
        );
    }
    let ghost row = record.deep_view();
    let mut offset: usize = 0;
    while offset < rsi_column_count
        invariant
            row == record.deep_view(),
            lacks_a_cell(row, expected_columns as nat, rsi_column_count as nat) <==> !is_completed(
                row,
                expected_columns as nat,
                rsi_column_count as nat,
            ),
            offset <= rsi_column_count,
            offset > 0 ==> expected_columns + offset <= record@.len(),
            forall|i: int|
                0 <= i < offset ==> expected_columns + i < row.len() && !is_blank(
                    #[trigger] row[expected_columns + i],
                ),
        decreases rsi_column_count - offset,
    {
        if expected_columns >= record.len() || expected_columns + offset >= record.len() {
            assert(!(expected_columns + offset < row.len()));
            assert(row[expected_columns + offset] == row[expected_columns + offset]);
            return false;
        }
        if blank(record[expected_columns + offset].as_str()) {
            assert(is_blank(row[expected_columns + offset]));
            return false;
        }
        offset += 1;
    }
    true
}

/// The narrowest and the widest row among those before and one of `columns`
/// fields.
fn count_row(stats: &mut FileStats, columns: usize, Ghost(rows): Ghost<Seq<Seq<Seq<char>>>>, Ghost(
    row,
): Ghost<Seq<Seq<char>>>)
    requires
        counts_rows(*old(stats), rows),
        rows.len() < usize::MAX,
        columns == row.len(),
    ensures
        counts_rows(*final(stats), rows.push(row)),
        final(stats).auto_processable == old(stats).auto_processable,
{
    let ghost longer = rows.push(row);
    let row_count = match stats.row_count {
        Some(row_count) => row_count,
        None => 0,
    };
    assert(longer[rows.len() as int] == row);
    proof {
        if stats.min_columns is Some {
            let i = choose|i: int|
                0 <= i < rows.len() && stats.min_columns->0 == (#[trigger] rows[i]).len();
            assert(longer[i] == rows[i]);
        }
        if stats.max_columns is Some {
            let i = choose|i: int|
                0 <= i < rows.len() && stats.max_columns->0 == (#[trigger] rows[i]).len();
            assert(longer[i] == rows[i]);
        }
    }
    let min_columns = match stats.min_columns {
        Some(current) if current <= columns => current,
        _ => columns,
    };
    let max_columns = match stats.max_columns {
        Some(current) if current >= columns => current,
        _ => columns,
    };
    stats.row_count = Some(row_count + 1);
    stats.min_columns = Some(min_columns);
    stats.max_columns = Some(max_columns);
    proof {
        assert forall|i: int| 0 <= i < longer.len() implies min_columns <= (
        #[trigger] longer[i]).len() && longer[i].len() <= max_columns by {
            if i < rows.len() {
                assert(longer[i] == rows[i]);
            }
        }
    }
}

/// Counts the records that are left and hands back the last of them, or `last`
/// where none is left.
fn count_records(
    reader: &mut csv::Reader<&[u8]>,
    stats: &mut FileStats,
    last: Option<Vec<String>>,
    Ghost(rows): Ghost<Seq<Seq<Seq<char>>>>,
) -> (result: Result<Option<Vec<String>>, InspectError>)
    requires
        counts_rows(*old(stats), rows),
        rows.len() + csv_remaining(*old(reader)).len() <= usize::MAX,
    ensures
        final(stats).auto_processable == old(stats).auto_processable,
        result is Ok <==> all_readable(csv_remaining(*old(reader))),
        match result {
            Ok(end) => {
                &&& counts_rows(*final(stats), rows + texts(csv_remaining(*old(reader))))
                &&& if csv_remaining(*old(reader)).len() == 0 {
                    end == last
                } else {
                    end matches Some(row) && row.deep_view() == texts(
                        csv_remaining(*old(reader)),
                    ).last()
                }
            },
            Err(error) => error matches InspectError::Record(text) && tells_unreadable(
                text@,
                csv_remaining(*old(reader)),
            ),
        },
{
    let ghost left = csv_remaining(*reader);
    let ghost mut count: int = 0;
    let ghost auto_processable = stats.auto_processable;
    let mut end = last;
    assert(rows + texts(left.take(0)) =~= rows);
    assert(left.skip(0) =~= left);
    loop
        invariant
            0 <= count <= left.len(),
            left == csv_remaining(*old(reader)),
            auto_processable == old(stats).auto_processable,
            stats.auto_processable == auto_processable,
            rows.len() + left.len() <= usize::MAX,
            csv_remaining(*reader) == left.skip(count),
            all_readable(left.take(count)),
            counts_rows(*stats, rows + texts(left.take(count))),
            count == 0 ==> end == last,
            count > 0 ==> (end matches Some(row) && left[count - 1] == Ok::<Seq<Seq<char>>, Seq<char>>(
                row.deep_view(),
            )),
        decreases left.len() - count,
    {
        match next_record(reader) {
            None => {
                assert(left.take(count) =~= left);
                return Ok(end);
            },
            Some(Err(error)) => {
                assert(is_first_unreadable(left, count));
                return Err(InspectError::Record(error));
            },
            Some(Ok(record)) => {
                let ghost row = record.deep_view();
                let ghost seen = rows + texts(left.take(count));
                count_row(stats, record.len(), Ghost(seen), Ghost(row));
                end = Some(record);
                proof {
                    assert(left[count] == Ok::<Seq<Seq<char>>, Seq<char>>(row));
                    assert(rows + texts(left.take(count + 1)) =~= seen.push(row));
                    assert forall|i: int| 0 <= i < count + 1 implies #[trigger] left.take(
                        count + 1,
                    )[i] is Ok by {
                        if i < count {
                            assert(left.take(count)[i] == left[i]);
                        }
                    }
                    assert(left.skip(count).drop_first() =~= left.skip(count + 1));
                    count = count + 1;
                }
            },
        }
    }
}

/// What a look at all records tells: the counts, where all can be read.
pub open spec fn is_full_report(
    result: Result<FileStats, InspectError>,
    records: Seq<Record>,
) -> bool {
    if all_readable(records) {
        &&& result matches Ok(stats)
        &&& counts_rows(stats, texts(records))
        &&& stats.auto_processable is None
    } else {
        result matches Err(InspectError::Record(text)) && tells_unreadable(text@, records)
    }
}

/// What a look that goes by the last record tells: the counts, and that the
/// table is still to be converted unless its last row is completed.
pub open spec fn is_last_row_report(
    result: Result<FileStats, InspectError>,
    records: Seq<Record>,
    expected_columns: nat,
    rsi_columns: nat,
) -> bool {
    if all_readable(records) {
        &&& result matches Ok(stats)
        &&& counts_rows(stats, texts(records))
        &&& stats.auto_processable == Some(
            records.len() == 0 || !is_completed(
                texts(records).last(),
                expected_columns,
                rsi_columns,
            ),
        )
    } else {
        result matches Err(InspectError::Record(text)) && tells_unreadable(text@, records)
    }
}

/// What a look that goes by the first record tells. Where the first row is
/// completed, the look ends there: the table is not to be converted, nothing
/// is counted, and whatever else the table holds does not matter.
pub open spec fn is_first_row_report(
    result: Result<FileStats, InspectError>,
    records: Seq<Record>,
    expected_columns: nat,
    rsi_columns: nat,
) -> bool {
    if records.len() == 0 {
        result matches Ok(stats) && stats == (FileStats {
            row_count: Some(0),
            min_columns: None,
            max_columns: None,
            auto_processable: Some(true),
        })
    } else if records[0] is Err {
        result matches Err(InspectError::FirstRecord(text)) && text@ == records[0]->Err_0
    } else if is_completed(records[0]->Ok_0, expected_columns, rsi_columns) {
        result matches Ok(stats) && stats == (FileStats {
            row_count: None,
            min_columns: Some((records[0]->Ok_0).len() as usize),
            max_columns: Some((records[0]->Ok_0).len() as usize),
            auto_processable: Some(false),
        }) && (records[0]->Ok_0).len() <= usize::MAX
    } else if all_readable(records) {
        &&& result matches Ok(stats)
        &&& counts_rows(stats, texts(records))
        &&& stats.auto_processable == Some(true)
    } else {
        result matches Err(InspectError::Record(text)) && tells_unreadable(text@, records)
    }
}

/// What a look under the given modes tells.
pub open spec fn is_report(
    result: Result<FileStats, InspectError>,
    records: Seq<Record>,
    selection_mode: SelectionMode,
    auto_inspect_mode: AutoInspectMode,
    expected_columns: nat,
    rsi_columns: nat,
) -> bool {
    match (selection_mode, auto_inspect_mode) {
        (SelectionMode::All, _) => is_full_report(result, records),
        (SelectionMode::Auto, AutoInspectMode::FirstRow) => is_first_row_report(
            result,
            records,
            expected_columns,
            rsi_columns,
        ),
        (SelectionMode::Auto, AutoInspectMode::LastRow) => is_last_row_report(
            result,
            records,
            expected_columns,
            rsi_columns,
        ),
    }
}

/// The counts of a table before any row was read.
fn no_rows(auto_processable: Option<bool>) -> (stats: FileStats)
    ensures
        counts_rows(stats, seq![]),
        stats == (FileStats {
            row_count: Some(0),
            min_columns: None,
            max_columns: None,
            auto_processable,
        }),
{
    FileStats { row_count: Some(0), min_columns: None, max_columns: None, auto_processable }
}

/// Counts the rows and columns of a table.
pub fn analyze_file_fully(data: &[u8]) -> (result: Result<FileStats, InspectError>)
    ensures
        is_full_report(result, csv_records(data@)),
{
    assert(data@.len() == data.len());
    let mut reader = open_reader(data);
    let mut stats = no_rows(None);
    assert(seq![] + texts(csv_records(data@)) =~= texts(csv_records(data@)));
    match count_records(&mut reader, &mut stats, None, Ghost(Seq::empty())) {
        Ok(_) => Ok(stats),
        Err(error) => Err(error),
    }
}

/// Looks at a table and lets its first row tell whether it is still to be
/// converted.
pub fn analyze_file_for_auto_first_row(
    data: &[u8],
    expected_columns: usize,
    rsi_column_count: usize,
) -> (result: Result<FileStats, InspectError>)
    ensures
        is_first_row_report(
            result,
            csv_records(data@),
            expected_columns as nat,
            rsi_column_count as nat,
        ),
{
    assert(data@.len() == data.len());
    let mut reader = open_reader(data);
    let ghost records = csv_records(data@);
    let record = match next_record(&mut reader) {
        None => {
            return Ok(no_rows(Some(true)));
        },
        Some(Err(error)) => {
            return Err(InspectError::FirstRecord(error));
        },
        Some(Ok(record)) => record,
    };
    let columns = record.len();
    if row_has_completed_appended_rsi_columns(&record, expected_columns, rsi_column_count) {
        return Ok(
            FileStats {
                row_count: None,
                min_columns: Some(columns),
                max_columns: Some(columns),
                auto_processable: Some(false),
            },
        );
    }
    let mut stats = no_rows(Some(true));
    let ghost first = record.deep_view();
    count_row(&mut stats, columns, Ghost(Seq::empty()), Ghost(first));
    let ghost rest = csv_remaining(reader);
    proof {
        assert(rest == records.drop_first());
        assert(seq![].push(first) + texts(rest) =~= texts(records));
        assert(all_readable(records) <==> all_readable(rest)) by {
            assert(forall|i: int| 0 <= i < rest.len() ==> rest[i] == records[i + 1]);
            if all_readable(rest) {
                assert forall|i: int| 0 <= i < records.len() implies #[trigger] records[i] is Ok by {
                    if i > 0 {
                        assert(rest[i - 1] is Ok);
                    }
                }
            }
        }
    }
    match count_records(&mut reader, &mut stats, None, Ghost(Seq::empty().push(first))) {
        Ok(_) => Ok(stats),
        Err(error) => {
            proof {
                let index = choose|index: int| #[trigger]
                    is_first_unreadable(rest, index) && rest[index]->Err_0 == error->Record_0@;
                assert(records[index + 1] == rest[index]);
                assert forall|i: int| 0 <= i < index + 1 implies #[trigger] records.take(
                    index + 1,
                )[i] is Ok by {
                    if i > 0 {
                        assert(rest.take(index)[i - 1] == records[i]);
                    }
                }
                assert(is_first_unreadable(records, index + 1));
            }
            Err(error)
        },
    }
}

/// Looks at a table and lets its last row tell whether it is still to be
/// converted.
pub fn analyze_file_for_auto_last_row(
    data: &[u8],
    expected_columns: usize,
    rsi_column_count: usize,
) -> (result: Result<FileStats, InspectError>)
    ensures
        is_last_row_report(
            result,
            csv_records(data@),
            expected_columns as nat,
            rsi_column_count as nat,
        ),
{
    assert(data@.len() == data.len());
    let mut reader = open_reader(data);
    let mut stats = no_rows(None);
    assert(seq![] + texts(csv_records(data@)) =~= texts(csv_records(data@)));
    match count_records(&mut reader, &mut stats, None, Ghost(Seq::empty())) {
        Ok(last) => {
            let auto_processable = match last {
                Some(record) => !row_has_completed_appended_rsi_columns(
                    &record,
                    expected_columns,
                    rsi_column_count,
                ),
                None => true,
            };
            stats.auto_processable = Some(auto_processable);
            Ok(stats)
        },
        Err(error) => Err(error),
    }
}

/// Looks at a table in the way that the modes ask for.
pub fn analyze_file(
    data: &[u8],
    selection_mode: SelectionMode,
    auto_inspect_mode: AutoInspectMode,
    expected_columns: usize,
    rsi_column_count: usize,
) -> (result: Result<FileStats, InspectError>)
    ensures
        is_report(
            result,
            csv_records(data@),
            selection_mode,
            auto_inspect_mode,
            expected_columns as nat,
            rsi_column_count as nat,
        ),
{
    match selection_mode {
        SelectionMode::Auto => match auto_inspect_mode {
            AutoInspectMode::FirstRow => analyze_file_for_auto_first_row(
                data,
                expected_columns,
                rsi_column_count,
            ),
            AutoInspectMode::LastRow => analyze_file_for_auto_last_row(
                data,
                expected_columns,
                rsi_column_count,
            ),
        },
        SelectionMode::All => analyze_file_fully(data),
    }
}

/// A converted row is completed exactly if every cell that was appended to it
/// holds something.
pub proof fn law_a_converted_row_is_completed_by_its_cells<A: Arithmetic>(
    before: Seq<RsiModel<A::Number>>,
    row: Seq<Seq<char>>,
    preserved: nat,
    fallback: Seq<char>,
    after: Seq<RsiModel<A::Number>>,
    output: Seq<Seq<char>>,
)
    requires
        is_row_step::<A>(before, row, preserved, fallback, after, output),
        row.len() >= preserved,
    ensures
        is_completed(output, preserved, before.len()) <==> forall|i: int|
            preserved <= i < output.len() ==> !is_blank(#[trigger] output[i]),
{
    assert(kept(row, preserved).len() == preserved);
    if is_completed(output, preserved, before.len()) {
        assert forall|i: int| preserved <= i < output.len() implies !is_blank(
            #[trigger] output[i],
        ) by {
            assert(output[preserved + (i - preserved)] == output[i]);
        }
    }
}

/// A converted table is left alone from then on: where the cells of its last
/// row all hold something, a look that goes by the last row finds it done.
pub proof fn law_a_converted_table_is_skipped<A: Arithmetic>(
    start: Seq<RsiModel<A::Number>>,
    rows: Seq<Seq<Seq<char>>>,
    outputs: Seq<Seq<Seq<char>>>,
    end: Seq<RsiModel<A::Number>>,
    preserved: nat,
    fallback: Seq<char>,
    result: Result<FileStats, InspectError>,
)
    requires
        is_run::<A>(start, rows, preserved, fallback, end, outputs),
        rows.len() > 0,
        rows.last().len() >= preserved,
        forall|i: int|
            preserved <= i < outputs.last().len() ==> !is_blank(#[trigger] outputs.last()[i]),
        is_last_row_report(result, readable(outputs), preserved, start.len()),
    ensures
        result matches Ok(stats) && stats.auto_processable == Some(false),
{
    crate::convert::law_leading_fields_stay::<A>(
        start,
        rows,
        outputs,
        end,
        preserved,
        fallback,
        rows.len() - 1,
    );
    let trace = choose|trace: Seq<Seq<RsiModel<A::Number>>>|
        {
            &&& #[trigger] is_trace::<A>(trace, rows, preserved, fallback, outputs)
            &&& trace.first() == start
            &&& trace.last() == end
        };
    let last = rows.len() - 1;
    assert(rows[last] == rows.last());
    assert(is_row_step::<A>(
        trace[last],
        rows[last],
        preserved,
        fallback,
        trace[last + 1],
        outputs[last],
    ));
    crate::convert::lemma_trace_width::<A>(trace, rows, preserved, fallback, outputs, last);
    law_a_converted_row_is_completed_by_its_cells::<A>(
        trace[last],
        rows[last],
        preserved,
        fallback,
        trace[last + 1],
        outputs[last],
    );
    assert(texts(readable(outputs)) =~= outputs);
    assert(all_readable(readable(outputs)));
}

/// The same holds by the first row: where the cells of a converted table's
/// first row all hold something, a look that goes by the first row finds it
/// done and counts nothing.
pub proof fn law_a_carried_table_is_skipped<A: Arithmetic>(
    start: Seq<RsiModel<A::Number>>,
    rows: Seq<Seq<Seq<char>>>,
    outputs: Seq<Seq<Seq<char>>>,
    end: Seq<RsiModel<A::Number>>,
    preserved: nat,
    fallback: Seq<char>,
    result: Result<FileStats, InspectError>,
)
    requires
        is_run::<A>(start, rows, preserved, fallback, end, outputs),
        rows.len() > 0,
        rows[0].len() >= preserved,
        forall|i: int| preserved <= i < outputs[0].len() ==> !is_blank(#[trigger] outputs[0][i]),
        is_first_row_report(result, readable(outputs), preserved, start.len()),
    ensures
        result matches Ok(stats) && stats.auto_processable == Some(false) && stats.row_count is None,
{
    let trace = choose|trace: Seq<Seq<RsiModel<A::Number>>>|
        {
            &&& #[trigger] is_trace::<A>(trace, rows, preserved, fallback, outputs)
            &&& trace.first() == start
            &&& trace.last() == end
        };
    assert(is_row_step::<A>(trace[0], rows[0], preserved, fallback, trace[1], outputs[0]));
    law_a_converted_row_is_completed_by_its_cells::<A>(
        trace[0],
        rows[0],
        preserved,
        fallback,
        trace[1],
        outputs[0],
    );
    assert(readable(outputs)[0] == Ok::<Seq<Seq<char>>, Seq<char>>(outputs[0]));
}

/// There is one narrowest width and one widest.
proof fn lemma_one_width(
    left: FileStats,
    right: FileStats,
    rows: Seq<Seq<Seq<char>>>,
)
    requires
        counts_rows(left, rows),
        counts_rows(right, rows),
    ensures
        left.row_count == right.row_count,
        left.min_columns == right.min_columns,
        left.max_columns == right.max_columns,
{
    if rows.len() > 0 {
        assert(left.min_columns is Some && right.min_columns is Some);
        assert(left.max_columns is Some && right.max_columns is Some);
        let i = choose|i: int|
            0 <= i < rows.len() && left.min_columns->0 == (#[trigger] rows[i]).len();
        let j = choose|j: int|
            0 <= j < rows.len() && right.min_columns->0 == (#[trigger] rows[j]).len();
        assert(rows[i].len() <= rows[j].len() && rows[j].len() <= rows[i].len());
        let k = choose|k: int|
            0 <= k < rows.len() && left.max_columns->0 == (#[trigger] rows[k]).len();
        let l = choose|l: int|
            0 <= l < rows.len() && right.max_columns->0 == (#[trigger] rows[l]).len();
        assert(rows[k].len() <= rows[l].len() && rows[l].len() <= rows[k].len());
    } else {
        assert(left.min_columns is None && right.min_columns is None);
        assert(left.max_columns is None && right.max_columns is None);
    }
}

/// A table has one report: two looks in the same way tell the same.
pub proof fn law_reports_agree(
    left: Result<FileStats, InspectError>,
    right: Result<FileStats, InspectError>,
    records: Seq<Record>,
    selection_mode: SelectionMode,
    auto_inspect_mode: AutoInspectMode,
    expected_columns: nat,
    rsi_columns: nat,
)
    requires
        is_report(
            left,
            records,
            selection_mode,
            auto_inspect_mode,
            expected_columns,
            rsi_columns,
        ),
        is_report(
            right,
            records,
            selection_mode,
            auto_inspect_mode,
            expected_columns,
            rsi_columns,
        ),
    ensures
        left is Ok <==> right is Ok,
        left is Ok ==> left->Ok_0 == right->Ok_0,
        match (left, right) {
            (Err(InspectError::FirstRecord(text)), Err(error)) => {
                error matches InspectError::FirstRecord(other) && other@ == text@
            },
            (Err(InspectError::Record(text)), Err(error)) => {
                error matches InspectError::Record(other) && other@ == text@
            },
            _ => true,
        },
{
    assert forall|i: int, j: int|
        #[trigger] is_first_unreadable(records, i) && #[trigger] is_first_unreadable(
            records,
            j,
        ) implies i == j by {
        if i < j {
            assert(records.take(j)[i] == records[i]);
        } else if j < i {
            assert(records.take(i)[j] == records[j]);
        }
    }
    if left is Ok && right is Ok {
        let a = left->Ok_0;
        let b = right->Ok_0;
        if counts_rows(a, texts(records)) && counts_rows(b, texts(records)) {
            lemma_one_width(a, b, texts(records));
        }
        assert(a.row_count == b.row_count);
        assert(a.min_columns == b.min_columns);
        assert(a.max_columns == b.max_columns);
        assert(a.auto_processable == b.auto_processable);
    }
}

/// The field is not there, or has nothing but white space in it.
pub open spec fn is_unfilled(row: Seq<Seq<char>>, column: int) -> bool {
    column < row.len() ==> forall|i: int|
        0 <= i < row[column].len() ==> is_white_space(#[trigger] row[column][i])
}

/// One of the `rsi_columns` fields behind the leading columns is not filled.
pub open spec fn lacks_a_cell(row: Seq<Seq<char>>, expected_columns: nat, rsi_columns: nat) -> bool {
    exists|column: int|
        expected_columns <= column < expected_columns + rsi_columns && #[trigger] is_unfilled(
            row,
            column,
        )
}

proof fn lemma_completed_field(
    row: Seq<Seq<char>>,
    expected_columns: nat,
    rsi_columns: nat,
    offset: int,
)
    requires
        is_completed(row, expected_columns, rsi_columns),
        0 <= offset < rsi_columns,
    ensures
        expected_columns + offset < row.len(),
        !is_blank(row[expected_columns + offset]),
{
}

/// A row lacks a cell or is completed, and not both.
pub(crate) proof fn lemma_completed_or_lacking(
    row: Seq<Seq<char>>,
    expected_columns: nat,
    rsi_columns: nat,
)
    ensures
        lacks_a_cell(row, expected_columns, rsi_columns) <==> !is_completed(
            row,
            expected_columns,
            rsi_columns,
        ),
{
    if lacks_a_cell(row, expected_columns, rsi_columns) {
        let column = choose|column: int|
            expected_columns <= column < expected_columns + rsi_columns && #[trigger] is_unfilled(
                row,
                column,
            );
        if is_completed(row, expected_columns, rsi_columns) {
            lemma_completed_field(row, expected_columns, rsi_columns, column - expected_columns);
            assert(is_blank(row[column]));
        }
    } else {
        if rsi_columns > 0 {
            assert(!is_unfilled(row, expected_columns + rsi_columns - 1));
        }
        assert forall|offset: int| 0 <= offset < rsi_columns implies expected_columns + offset
            < row.len() && !is_blank(#[trigger] row[expected_columns + offset]) by {
            assert(!is_unfilled(row, expected_columns + offset));
        }
    }
}

/// What a look tells of whether a table is still to be converted. Where it goes
/// by a row, the table is to be converted exactly if it has no row at all or
/// that row lacks one of the cells; where it goes by none, nothing is told.
pub proof fn law_a_look_goes_by_its_row(
    stats: FileStats,
    records: Seq<Record>,
    selection_mode: SelectionMode,
    auto_inspect_mode: AutoInspectMode,
    expected_columns: nat,
    rsi_columns: nat,
)
    requires
        is_report(
            Ok(stats),
            records,
            selection_mode,
            auto_inspect_mode,
            expected_columns,
            rsi_columns,
        ),
    ensures
        selection_mode == SelectionMode::All ==> stats.auto_processable is None,
        selection_mode == SelectionMode::Auto && auto_inspect_mode == AutoInspectMode::FirstRow
            ==> stats.auto_processable == Some(
            records.len() == 0 || lacks_a_cell(records[0]->Ok_0, expected_columns, rsi_columns),
        ),
        selection_mode == SelectionMode::Auto && auto_inspect_mode == AutoInspectMode::LastRow
            ==> stats.auto_processable == Some(
            records.len() == 0 || lacks_a_cell(
                records[records.len() - 1]->Ok_0,
                expected_columns,
                rsi_columns,
            ),
        ),
{
    if records.len() > 0 {
        lemma_completed_or_lacking(records[0]->Ok_0, expected_columns, rsi_columns);
        lemma_completed_or_lacking(
            records[records.len() - 1]->Ok_0,
            expected_columns,
            rsi_columns,
        );
        assert(texts(records).last() == records[records.len() - 1]->Ok_0);
    }
}

/// What a look counts. Unless it ends at a first row that lacks nothing, it
/// counts every record, and tells the widths of the narrowest and of the widest
/// row; then every record can be read.
pub proof fn law_a_look_counts_every_row(
    stats: FileStats,
    records: Seq<Record>,
    selection_mode: SelectionMode,
    auto_inspect_mode: AutoInspectMode,
    expected_columns: nat,
    rsi_columns: nat,
)
    requires
        is_report(
            Ok(stats),
            records,
            selection_mode,
            auto_inspect_mode,
            expected_columns,
            rsi_columns,
        ),
    ensures
        stats.row_count is None <==> {
            &&& selection_mode == SelectionMode::Auto
            &&& auto_inspect_mode == AutoInspectMode::FirstRow
            &&& records.len() > 0
            &&& !lacks_a_cell(records[0]->Ok_0, expected_columns, rsi_columns)
        },
        stats.row_count matches Some(count) ==> {
            &&& count == records.len()
            &&& forall|i: int| 0 <= i < records.len() ==> #[trigger] records[i] is Ok
            &&& stats.min_columns is None <==> records.len() == 0
            &&& stats.max_columns is None <==> records.len() == 0
            &&& stats.min_columns matches Some(least) ==> {
                &&& forall|i: int|
                    0 <= i < records.len() ==> least <= (#[trigger] records[i]->Ok_0).len()
                &&& exists|i: int|
                    0 <= i < records.len() && least == (#[trigger] records[i]->Ok_0).len()
            }
            &&& stats.max_columns matches Some(most) ==> {
                &&& forall|i: int|
                    0 <= i < records.len() ==> (#[trigger] records[i]->Ok_0).len() <= most
                &&& exists|i: int|
                    0 <= i < records.len() && most == (#[trigger] records[i]->Ok_0).len()
            }
        },
        stats.row_count is None ==> {
            &&& stats.min_columns matches Some(width) && width == (records[0]->Ok_0).len()
            &&& stats.max_columns matches Some(width) && width == (records[0]->Ok_0).len()
        },
{
    if records.len() > 0 {
        lemma_completed_or_lacking(records[0]->Ok_0, expected_columns, rsi_columns);
    }
    if stats.row_count is Some {
        let rows = texts(records);
        assert forall|i: int| 0 <= i < records.len() implies rows[i] == #[trigger] records[i]->Ok_0 by {}
        if stats.min_columns is Some && records.len() > 0 {
            let least = stats.min_columns->0;
            let place = choose|i: int|
                0 <= i < rows.len() && least == (#[trigger] rows[i]).len();
            assert(least == (records[place]->Ok_0).len());
            assert forall|i: int| 0 <= i < records.len() implies least <= (
            #[trigger] records[i]->Ok_0).len() by {
                assert(least <= rows[i].len());
            }
        }
        if stats.max_columns is Some && records.len() > 0 {
            let most = stats.max_columns->0;
            let place = choose|i: int|
                0 <= i < rows.len() && most == (#[trigger] rows[i]).len();
            assert(most == (records[place]->Ok_0).len());
            assert forall|i: int| 0 <= i < records.len() implies (
            #[trigger] records[i]->Ok_0).len() <= most by {
                assert(rows[i].len() <= most);
            }
        }
    }
}

/// When a table cannot be inspected: where a record before the end of the look
/// cannot be read. What is told is what the reader tells of the first of them,
/// and the look by the first row tells that record apart from the others.
pub proof fn law_a_look_needs_records(
    result: Result<FileStats, InspectError>,
    records: Seq<Record>,
    selection_mode: SelectionMode,
    auto_inspect_mode: AutoInspectMode,
    expected_columns: nat,
    rsi_columns: nat,
)
    requires
        is_report(
            result,
            records,
            selection_mode,
            auto_inspect_mode,
            expected_columns,
            rsi_columns,
        ),
    ensures
        result is Ok <==> {
            ||| forall|i: int| 0 <= i < records.len() ==> #[trigger] records[i] is Ok
            ||| {
                &&& selection_mode == SelectionMode::Auto
                &&& auto_inspect_mode == AutoInspectMode::FirstRow
                &&& records.len() > 0
                &&& records[0] matches Ok(row)
                &&& !lacks_a_cell(row, expected_columns, rsi_columns)
            }
        },
        result matches Err(InspectError::FirstRecord(text)) ==> {
            &&& selection_mode == SelectionMode::Auto
            &&& auto_inspect_mode == AutoInspectMode::FirstRow
            &&& records.len() > 0
            &&& records[0] == Err::<Seq<Seq<char>>, Seq<char>>(text@)
        },
        result matches Err(InspectError::Record(text)) ==> {
            &&& exists|i: int|
                {
                    &&& 0 <= i < records.len()
                    &&& #[trigger] records[i] == Err::<Seq<Seq<char>>, Seq<char>>(text@)
                    &&& forall|j: int| 0 <= j < i ==> #[trigger] records[j] is Ok
                }
            &&& selection_mode == SelectionMode::Auto && auto_inspect_mode
                == AutoInspectMode::FirstRow ==> records[0] is Ok
        },
{
    if records.len() > 0 && records[0] is Ok {
        lemma_completed_or_lacking(records[0]->Ok_0, expected_columns, rsi_columns);
    }
    if let Err(InspectError::Record(text)) = result {
        let index = choose|index: int| #[trigger]
            is_first_unreadable(records, index) && records[index]->Err_0 == text@;
        assert(records[index] == Err::<Seq<Seq<char>>, Seq<char>>(text@));
        assert forall|j: int| 0 <= j < index implies #[trigger] records[j] is Ok by {
            assert(records.take(index)[j] == records[j]);
        }
    }
}

}
