//! One table with RSI columns in place of whatever stood behind its leading
//! columns.
use vstd::prelude::*;

use crate::rsi::{
    are_like_states, gives_like_results, is_close_of, is_fresh, is_step,
    law_a_close_is_determined, law_a_step_is_determined, parse_close, Arithmetic, RsiModel,
    RsiState, CLOSE_COLUMN_INDEX,
};
use crate::table::{
    csv_bytes, csv_records, csv_remaining, csv_written, into_bytes, next_record, open_reader,
    open_writer, readable, reads_back, unequal_text, write_record, Record, RecordWriter,
};
use crate::text::decimal;

verus! {

/// The states of all RSI columns, as models.
pub open spec fn models<A: Arithmetic>(states: Seq<RsiState<A>>) -> Seq<RsiModel<A::Number>> {
    Seq::new(states.len(), |i: int| states[i]@)
}

/// Every state is well-formed.
pub open spec fn all_wf<A: Arithmetic>(states: Seq<RsiState<A>>) -> bool {
    forall|i: int| 0 <= i < states.len() ==> (#[trigger] states[i]).wf()
}

/// The leading fields of a row that stay: at most `preserved` of them.
pub open spec fn kept(row: Seq<Seq<char>>, preserved: nat) -> Seq<Seq<char>> {
    if row.len() <= preserved {
        row
    } else {
        row.take(preserved as int)
    }
}

/// `output` is the row with its leading fields kept and one cell per state
/// appended, and `after` is what the row makes of the states.
pub open spec fn is_row_step<A: Arithmetic>(
    before: Seq<RsiModel<A::Number>>,
    row: Seq<Seq<char>>,
    preserved: nat,
    fallback: Seq<char>,
    after: Seq<RsiModel<A::Number>>,
    output: Seq<Seq<char>>,
) -> bool {
    let lead = kept(row, preserved);
    &&& after.len() == before.len()
    &&& output.len() == lead.len() + before.len()
    &&& output.take(lead.len() as int) == lead
    &&& exists|close: Option<A::Number>| #[trigger]
        is_close_of::<A>(row, close) && forall|i: int| #![trigger before[i]]
            0 <= i < before.len() ==> is_step::<A>(
                before[i],
                close,
                fallback,
                after[i],
                output[lead.len() + i],
            )
}

/// `trace` holds the states before the first row, between the rows and after
/// the last, and `outputs` the rows that come out.
pub open spec fn is_trace<A: Arithmetic>(
    trace: Seq<Seq<RsiModel<A::Number>>>,
    rows: Seq<Seq<Seq<char>>>,
    preserved: nat,
    fallback: Seq<char>,
    outputs: Seq<Seq<Seq<char>>>,
) -> bool {
    &&& trace.len() == rows.len() + 1
    &&& outputs.len() == rows.len()
    &&& forall|i: int| #![trigger rows[i]]
        0 <= i < rows.len() ==> is_row_step::<A>(
            trace[i],
            rows[i],
            preserved,
            fallback,
            trace[i + 1],
            outputs[i],
        )
}

/// Rows taken one after the other lead from `before` to `after` and give
/// `outputs`.
pub open spec fn is_run<A: Arithmetic>(
    before: Seq<RsiModel<A::Number>>,
    rows: Seq<Seq<Seq<char>>>,
    preserved: nat,
    fallback: Seq<char>,
    after: Seq<RsiModel<A::Number>>,
    outputs: Seq<Seq<Seq<char>>>,
) -> bool {
    exists|trace: Seq<Seq<RsiModel<A::Number>>>|
        {
            &&& #[trigger] is_trace::<A>(trace, rows, preserved, fallback, outputs)
            &&& trace.first() == before
            &&& trace.last() == after
        }
}

/// Keeps the leading fields of a row and appends the next cell of each state.
pub fn output_row<A: Arithmetic>(
    record: &Vec<String>,
    preserved_columns: usize,
    fallback: &str,
    states: &mut Vec<RsiState<A>>,
) -> (output: Vec<String>)
    requires
        all_wf(old(states)@),
    ensures
        all_wf(final(states)@),
        is_row_step::<A>(
            models(old(states)@),
            record.deep_view(),
            preserved_columns as nat,
            fallback@,
            models(final(states)@),
            output.deep_view(),
        ),
        record@.len() <= preserved_columns ==> output@.len() == record@.len() + old(states)@.len(),
        record@.len() >= preserved_columns ==> output@.len() == preserved_columns + old(
            states,
        )@.len(),
        forall|i: int|
            0 <= i < record@.len() && i < preserved_columns ==> (#[trigger] output@[i])@
                == record@[i]@,
{
    let close = parse_close::<A>(record.as_slice());
    let mut output: Vec<String> = Vec::new();
    let ghost row = record.deep_view();
    let ghost lead = kept(row, preserved_columns as nat);
    let mut column: usize = 0;
    while column < record.len() && column < preserved_columns
        invariant
            column <= record.len(),
            column <= preserved_columns,
            row == record.deep_view(),
            output@.len() == column,
            forall|i: int| 0 <= i < column ==> (#[trigger] output@[i])@ == row[i],
        decreases record.len() - column,
    {
        output.push(record[column].clone());
        column += 1;
    }
    assert(output.deep_view() =~= lead);
    let ghost before = models(states@);
    let mut index: usize = 0;
    while index < states.len()
        invariant
            all_wf(states@),
            index <= states.len(),
            before == models(old(states)@),
            states@.len() == before.len(),
            is_close_of::<A>(row, close),
            output@.len() == lead.len() + index,
            output.deep_view().take(lead.len() as int) =~= lead,
            forall|i: int|
                #![trigger before[i]]
                0 <= i < index ==> is_step::<A>(
                    before[i],
                    close,
                    fallback@,
                    states@[i]@,
                    output@[lead.len() + i]@,
                ),
            forall|i: int| index <= i < states@.len() ==> #[trigger] states@[i]@ == before[i],
        decreases states.len() - index,
    {
        let cell = states[index].next_cell(close, fallback);
        output.push(cell);
        index += 1;
    }
    proof {
        let after = models(states@);
        assert(is_close_of::<A>(row, close));
        assert forall|i: int| #![trigger before[i]] 0 <= i < before.len() implies is_step::<A>(
            before[i],
            close,
            fallback@,
            after[i],
            output.deep_view()[lead.len() + i],
        ) by {}
        assert forall|i: int| 0 <= i < record@.len() && i < preserved_columns implies (
        #[trigger] output@[i])@ == record@[i]@ by {
            assert(output.deep_view().take(lead.len() as int)[i] == output@[i]@);
            assert(row[i] == record@[i]@);
        }
    }
    output
}

/// How wide the row that comes out of `row` is.
pub open spec fn output_width(row: Seq<Seq<char>>, preserved: nat, columns: nat) -> nat {
    kept(row, preserved).len() + columns
}

/// How wide every row of the table has to be: as wide as the first.
pub open spec fn table_width(
    rows: Seq<Record>,
    preserved: nat,
    columns: nat,
    written: Seq<Seq<Seq<char>>>,
) -> nat {
    if written.len() > 0 {
        written[0].len()
    } else if rows.len() > 0 && rows[0] is Ok {
        output_width(rows[0]->Ok_0, preserved, columns)
    } else {
        0
    }
}

/// A record that can be read and whose output row is `width` wide.
pub open spec fn is_sound(
    row: Record,
    preserved: nat,
    columns: nat,
    width: nat,
) -> bool {
    row matches Ok(fields) && output_width(fields, preserved, columns) == width
}

/// Every record is sound.
pub open spec fn all_sound(
    rows: Seq<Record>,
    preserved: nat,
    columns: nat,
    width: nat,
) -> bool {
    forall|i: int| 0 <= i < rows.len() ==> is_sound(#[trigger] rows[i], preserved, columns, width)
}

/// The fields of records that can all be read.
pub open spec fn texts(rows: Seq<Record>) -> Seq<Seq<Seq<char>>> {
    Seq::new(rows.len(), |i: int| rows[i]->Ok_0)
}

/// The first `limit` records, or all of them where there are fewer.
pub open spec fn up_to(rows: Seq<Record>, limit: nat) -> Seq<
    Record,
> {
    if rows.len() <= limit {
        rows
    } else {
        rows.take(limit as int)
    }
}

/// Why a table was not converted.
#[derive(Debug)]
pub enum ConvertError {
    /// A record could not be read; what the reader says of it.
    Read(String),
    /// A row could not be written; what the writer says of it.
    Write(String),
}

/// The first record of `rows` that is not sound is the one at `failed`, `error`
/// says whether it was refused as a record or as a row, and the states have
/// seen the rows before it, and it too if it was refused as a row.
pub open spec fn is_failure<A: Arithmetic>(
    before: Seq<RsiModel<A::Number>>,
    rows: Seq<Record>,
    preserved: nat,
    fallback: Seq<char>,
    width: nat,
    after: Seq<RsiModel<A::Number>>,
    error: ConvertError,
    failed: int,
) -> bool {
    &&& 0 <= failed < rows.len()
    &&& all_sound(rows.take(failed), preserved, before.len(), width)
    &&& !is_sound(rows[failed], preserved, before.len(), width)
    &&& match error {
        ConvertError::Read(text) => {
            &&& rows[failed] matches Err(told) && text@ == told
            &&& exists|outputs: Seq<Seq<Seq<char>>>| #[trigger]
                is_run::<A>(
                    before,
                    texts(rows.take(failed)),
                    preserved,
                    fallback,
                    after,
                    outputs,
                )
        },
        ConvertError::Write(text) => {
            &&& rows[failed] matches Ok(fields) && text@ == unequal_text(
                output_width(fields, preserved, before.len()),
                width,
            )
            &&& exists|outputs: Seq<Seq<Seq<char>>>| #[trigger]
                is_run::<A>(
                    before,
                    texts(rows.take(failed + 1)),
                    preserved,
                    fallback,
                    after,
                    outputs,
                )
        },
    }
}

/// A run goes on by one row.
proof fn lemma_trace_push<A: Arithmetic>(
    trace: Seq<Seq<RsiModel<A::Number>>>,
    rows: Seq<Seq<Seq<char>>>,
    preserved: nat,
    fallback: Seq<char>,
    outputs: Seq<Seq<Seq<char>>>,
    row: Seq<Seq<char>>,
    next: Seq<RsiModel<A::Number>>,
    output: Seq<Seq<char>>,
)
    requires
        is_trace::<A>(trace, rows, preserved, fallback, outputs),
        is_row_step::<A>(trace.last(), row, preserved, fallback, next, output),
    ensures
        is_trace::<A>(
            trace.push(next),
            rows.push(row),
            preserved,
            fallback,
            outputs.push(output),
        ),
{
    let longer = rows.push(row);
    assert forall|i: int| #![trigger longer[i]] 0 <= i < longer.len() implies is_row_step::<A>(
        trace.push(next)[i],
        longer[i],
        preserved,
        fallback,
        trace.push(next)[i + 1],
        outputs.push(output)[i],
    ) by {
        if i < rows.len() {
            assert(longer[i] == rows[i]);
        }
    }
}

/// A table on its way through: the records that are still to come, and the
/// rows that have come out.
pub struct Conversion<'a> {
    reader: csv::Reader<&'a [u8]>,
    writer: RecordWriter,
}

impl<'a> Conversion<'a> {
    /// The records that are still to come.
    pub closed spec fn left(&self) -> Seq<Record> {
        csv_remaining(self.reader)
    }

    /// The rows that have come out.
    pub closed spec fn done(&self) -> Seq<Seq<Seq<char>>> {
        csv_written(self.writer)
    }

    /// Starts on the bytes of a table.
    pub fn new(data: &'a [u8]) -> (conversion: Self)
        ensures
            conversion.left() == csv_records(data@),
            conversion.left().len() <= data@.len(),
            conversion.done().len() == 0,
    {
        Conversion { reader: open_reader(data), writer: open_writer() }
    }

    /// Takes up to `limit` records and says how many it took.
    pub fn advance<A: Arithmetic>(
        self,
        preserved_columns: usize,
        fallback: &str,
        states: &mut Vec<RsiState<A>>,
        limit: usize,
    ) -> (result: Result<(Self, usize), ConvertError>)
        requires
            all_wf(old(states)@),
        ensures
            all_wf(final(states)@),
            final(states)@.len() == old(states)@.len(),
            ({
                let preserved = preserved_columns as nat;
                let taken = up_to(self.left(), limit as nat);
                let width = table_width(taken, preserved, old(states)@.len(), self.done());
                &&& result is Ok <==> all_sound(taken, preserved, old(states)@.len(), width)
                &&& match result {
                    Ok((next, count)) => {
                        &&& count == taken.len()
                        &&& next.left() == self.left().skip(count as int)
                        &&& exists|outputs: Seq<Seq<Seq<char>>>|
                            {
                                &&& #[trigger] is_run::<A>(
                                    models(old(states)@),
                                    texts(taken),
                                    preserved,
                                    fallback@,
                                    models(final(states)@),
                                    outputs,
                                )
                                &&& next.done() == self.done() + outputs
                            }
                    },
                    Err(error) => exists|failed: int| #[trigger]
                        is_failure::<A>(
                            models(old(states)@),
                            taken,
                            preserved,
                            fallback@,
                            width,
                            models(final(states)@),
                            error,
                            failed,
                        ),
                }
            }),
    {
        let ghost preserved = preserved_columns as nat;
        let ghost columns = states@.len();
        let ghost all = self.left();
        let ghost taken = up_to(all, limit as nat);
        let ghost written = self.done();
        let ghost width = table_width(taken, preserved, columns, written);
        let ghost before = models(states@);
        let ghost mut trace: Seq<Seq<RsiModel<A::Number>>> = seq![before];
        let ghost mut outputs: Seq<Seq<Seq<char>>> = seq![];
        let mut reader = self.reader;
        let mut writer = self.writer;
        let mut count: usize = 0;
        proof {
            assert(texts(taken.take(0)) =~= Seq::<Seq<Seq<char>>>::empty());
            assert(all.skip(0) =~= all);
            assert(written + outputs =~= written);
        }
        while count < limit
            invariant
                all_wf(states@),
                states@.len() == columns,
                columns == before.len(),
                before == models(old(states)@),
                preserved == preserved_columns as nat,
                all == self.left(),
                written == self.done(),
                taken == up_to(all, limit as nat),
                width == table_width(taken, preserved, columns, written),
                count <= taken.len(),
                count <= limit,
                csv_remaining(reader) == all.skip(count as int),
                csv_written(writer) == written + outputs,
                outputs.len() == count,
                all_sound(taken.take(count as int), preserved, columns, width),
                forall|i: int| 0 <= i < count ==> (#[trigger] outputs[i]).len() == width,
                is_trace::<A>(
                    trace,
                    texts(taken.take(count as int)),
                    preserved,
                    fallback@,
                    outputs,
                ),
                trace.first() == before,
                trace.last() == models(states@),
            decreases limit - count,
        {
            let ghost rows = texts(taken.take(count as int));
            let next = next_record(&mut reader);
            match next {
                None => {
                    proof {
                        assert(count == all.len());
                        assert(taken.take(count as int) =~= taken);
                        assert(is_run::<A>(
                            before,
                            texts(taken),
                            preserved,
                            fallback@,
                            models(states@),
                            outputs,
                        ));
                        assert(csv_remaining(reader) =~= all.skip(count as int));
                    }
                    return Ok((Conversion { reader, writer }, count));
                },
                Some(Err(error)) => {
                    let error = ConvertError::Read(error);
                    proof {
                        assert(taken[count as int] is Err);
                        assert(is_run::<A>(
                            before,
                            rows,
                            preserved,
                            fallback@,
                            models(states@),
                            outputs,
                        ));
                        assert(is_failure::<A>(
                            before,
                            taken,
                            preserved,
                            fallback@,
                            width,
                            models(states@),
                            error,
                            count as int,
                        ));
                    }
                    return Err(error);
                },
                Some(Ok(record)) => {
                    let ghost row = record.deep_view();
                    assert(taken[count as int] == Ok::<Seq<Seq<char>>, Seq<char>>(row));
                    let output = output_row::<A>(&record, preserved_columns, fallback, states);
                    proof {
                        lemma_trace_push::<A>(
                            trace,
                            rows,
                            preserved,
                            fallback@,
                            outputs,
                            row,
                            models(states@),
                            output.deep_view(),
                        );
                        assert(texts(taken.take(count + 1)) =~= rows.push(row));
                        trace = trace.push(models(states@));
                        outputs = outputs.push(output.deep_view());
                        assert(output@.len() == output_width(row, preserved, columns));
                        if written.len() == 0 && count > 0 {
                            assert(csv_written(writer)[0] == outputs[0]);
                        }
                        if written.len() == 0 && count == 0 {
                            assert(taken[0] == Ok::<Seq<Seq<char>>, Seq<char>>(row));
                        }
                    }
                    match write_record(writer, &output) {
                        Ok(next) => {
                            writer = next;
                            proof {
                                assert(csv_written(writer) =~= written + outputs);
                                assert(is_sound(taken[count as int], preserved, columns, width));
                                assert forall|i: int| 0 <= i < count + 1 implies is_sound(
                                    #[trigger] taken.take(count + 1)[i],
                                    preserved,
                                    columns,
                                    width,
                                ) by {
                                    if i < count {
                                        assert(taken.take(count as int)[i] == taken[i]);
                                    }
                                }
                            }
                        },
                        Err(error) => {
                            let error = ConvertError::Write(error);
                            proof {
                                assert(is_run::<A>(
                                    before,
                                    texts(taken.take(count + 1)),
                                    preserved,
                                    fallback@,
                                    models(states@),
                                    outputs,
                                ));
                                assert(is_failure::<A>(
                                    before,
                                    taken,
                                    preserved,
                                    fallback@,
                                    width,
                                    models(states@),
                                    error,
                                    count as int,
                                ));
                            }
                            return Err(error);
                        },
                    }
                    count += 1;
                    assert(csv_remaining(reader) =~= all.skip(count as int));
                },
            }
        }
        proof {
            assert(taken.take(count as int) =~= taken);
            assert(is_run::<A>(
                before,
                texts(taken),
                preserved,
                fallback@,
                models(states@),
                outputs,
            ));
        }
        Ok((Conversion { reader, writer }, count))
    }

    /// The bytes of the rows that have come out.
    pub fn finish(self) -> (data: Vec<u8>)
        ensures
            data@ == csv_bytes(self.done()),
            reads_back(self.done()) ==> csv_records(data@) == readable(self.done()),
    {
        into_bytes(self.writer)
    }
}

/// `states` are fresh states for the windows, in their order.
pub open spec fn are_fresh<A: Arithmetic>(
    windows: Seq<usize>,
    states: Seq<RsiModel<A::Number>>,
) -> bool {
    &&& states.len() == windows.len()
    &&& forall|i: int|
        0 <= i < windows.len() ==> is_fresh::<A>(windows[i] as nat, #[trigger] states[i])
}

/// One fresh state for each window, in their order.
pub fn fresh_states<A: Arithmetic>(windows: &[usize]) -> (states: Vec<RsiState<A>>)
    ensures
        all_wf(states@),
        are_fresh::<A>(windows@, models(states@)),
{
    let mut states: Vec<RsiState<A>> = Vec::new();
    let mut index: usize = 0;
    while index < windows.len()
        invariant
            index <= windows@.len(),
            states@.len() == index,
            all_wf(states@),
            forall|i: int|
                0 <= i < index ==> is_fresh::<A>(
                    windows@[i] as nat,
                    (#[trigger] models(states@)[i]),
                ),
        decreases windows.len() - index,
    {
        let ghost before = states@;
        states.push(RsiState::new(windows[index]));
        assert forall|i: int| 0 <= i <= index implies is_fresh::<A>(
            windows@[i] as nat,
            (#[trigger] models(states@)[i]),
        ) by {
            if i < index {
                assert(models(states@)[i] == models(before)[i]);
            }
        }
        index += 1;
    }
    states
}

/// What comes of a table. It is converted exactly if all its records are sound.
pub open spec fn is_conversion<A: Arithmetic>(
    before: Seq<RsiModel<A::Number>>,
    rows: Seq<Record>,
    preserved: nat,
    fallback: Seq<char>,
    after: Seq<RsiModel<A::Number>>,
    result: Result<Vec<u8>, ConvertError>,
) -> bool {
    let width = table_width(rows, preserved, before.len(), seq![]);
    &&& result is Ok <==> all_sound(rows, preserved, before.len(), width)
    &&& match result {
        Ok(bytes) => exists|outputs: Seq<Seq<Seq<char>>>|
            {
                &&& #[trigger] is_run::<A>(
                    before,
                    texts(rows),
                    preserved,
                    fallback,
                    after,
                    outputs,
                )
                &&& bytes@ == csv_bytes(outputs)
                &&& reads_back(outputs) ==> csv_records(bytes@) == readable(outputs)
            },
        Err(error) => exists|failed: int| #[trigger]
            is_failure::<A>(before, rows, preserved, fallback, width, after, error, failed),
    }
}

/// Converts the bytes of a table: every row keeps its leading fields and gets
/// one cell per state, and the states go on to the next table.
pub fn process_file<A: Arithmetic>(
    data: &[u8],
    preserved_columns: usize,
    fallback: &str,
    states: &mut Vec<RsiState<A>>,
) -> (result: Result<Vec<u8>, ConvertError>)
    requires
        all_wf(old(states)@),
    ensures
        all_wf(final(states)@),
        final(states)@.len() == old(states)@.len(),
        is_conversion::<A>(
            models(old(states)@),
            csv_records(data@),
            preserved_columns as nat,
            fallback@,
            models(final(states)@),
            result,
        ),
{
    let conversion = Conversion::new(data);
    assert(conversion.done() =~= seq![]);
    match conversion.advance::<A>(preserved_columns, fallback, states, data.len()) {
        Ok((converted, _)) => {
            proof {
                let outputs = choose|outputs: Seq<Seq<Seq<char>>>|
                    {
                        &&& #[trigger] is_run::<A>(
                            models(old(states)@),
                            texts(csv_records(data@)),
                            preserved_columns as nat,
                            fallback@,
                            models(states@),
                            outputs,
                        )
                        &&& converted.done() == conversion.done() + outputs
                    };
                assert(converted.done() =~= outputs);
            }
            Ok(converted.finish())
        },
        Err(error) => Err(error),
    }
}

/// The rows that are taken next have to be as wide as the table.
pub(crate) proof fn lemma_chunk_width<A: Arithmetic>(
    before: Seq<RsiModel<A::Number>>,
    rows: Seq<Record>,
    preserved: nat,
    fallback: Seq<char>,
    middle: Seq<RsiModel<A::Number>>,
    done: Seq<Seq<Seq<char>>>,
    taken: int,
    limit: nat,
)
    requires
        0 <= taken <= rows.len(),
        limit > 0,
        all_sound(
            rows.take(taken),
            preserved,
            before.len(),
            table_width(rows, preserved, before.len(), seq![]),
        ),
        is_run::<A>(before, texts(rows.take(taken)), preserved, fallback, middle, done),
    ensures
        middle.len() == before.len(),
        done.len() == taken,
        taken < rows.len() ==> table_width(
            up_to(rows.skip(taken), limit),
            preserved,
            before.len(),
            done,
        ) == table_width(rows, preserved, before.len(), seq![]),
{
    let front = texts(rows.take(taken));
    if taken > 0 {
        law_leading_fields_stay::<A>(before, front, done, middle, preserved, fallback, 0);
        assert(rows.take(taken)[0] == rows[0]);
        assert(is_sound(
            rows.take(taken)[0],
            preserved,
            before.len(),
            table_width(rows, preserved, before.len(), seq![]),
        ));
        assert(front[0] == rows[0]->Ok_0);
    } else {
        assert(front.len() == 0);
        if rows.len() > 0 {
            assert(up_to(rows.skip(0), limit)[0] == rows[0]);
        }
    }
}

/// A failure among the rows behind those that were taken is a failure of the
/// table.
pub(crate) proof fn lemma_late_failure<A: Arithmetic>(
    before: Seq<RsiModel<A::Number>>,
    rows: Seq<Record>,
    preserved: nat,
    fallback: Seq<char>,
    middle: Seq<RsiModel<A::Number>>,
    done: Seq<Seq<Seq<char>>>,
    taken: int,
    limit: nat,
    after: Seq<RsiModel<A::Number>>,
    error: ConvertError,
    failed: int,
)
    requires
        0 <= taken <= rows.len(),
        middle.len() == before.len(),
        all_sound(
            rows.take(taken),
            preserved,
            before.len(),
            table_width(rows, preserved, before.len(), seq![]),
        ),
        is_run::<A>(before, texts(rows.take(taken)), preserved, fallback, middle, done),
        is_failure::<A>(
            middle,
            up_to(rows.skip(taken), limit),
            preserved,
            fallback,
            table_width(rows, preserved, before.len(), seq![]),
            after,
            error,
            failed,
        ),
    ensures
        is_failure::<A>(
            before,
            rows,
            preserved,
            fallback,
            table_width(rows, preserved, before.len(), seq![]),
            after,
            error,
            taken + failed,
        ),
{
    let chunk = up_to(rows.skip(taken), limit);
    let width = table_width(rows, preserved, before.len(), seq![]);
    assert(chunk[failed] == rows[taken + failed]);
    assert forall|i: int| 0 <= i < taken + failed implies is_sound(
        #[trigger] rows.take(taken + failed)[i],
        preserved,
        before.len(),
        width,
    ) by {
        if i < taken {
            assert(rows.take(taken)[i] == rows[i]);
        } else {
            assert(chunk.take(failed)[i - taken] == rows[i]);
        }
    }
    let count = if error is Read {
        failed
    } else {
        failed + 1
    };
    let outputs = choose|outputs: Seq<Seq<Seq<char>>>| #[trigger]
        is_run::<A>(middle, texts(chunk.take(count)), preserved, fallback, after, outputs);
    law_carried_runs_join::<A>(
        before,
        texts(rows.take(taken)),
        done,
        middle,
        texts(chunk.take(count)),
        outputs,
        after,
        preserved,
        fallback,
    );
    assert(texts(rows.take(taken)) + texts(chunk.take(count)) =~= texts(rows.take(taken + count)));
    assert(is_run::<A>(
        before,
        texts(rows.take(taken + count)),
        preserved,
        fallback,
        after,
        done + outputs,
    ));
    match error {
        ConvertError::Read(_) => {},
        ConvertError::Write(_) => {
            assert(taken + count == (taken + failed) + 1);
        },
    }
}

/// Carrying the states from one table to the next is the same as converting
/// the two tables as one: two runs of which the second starts where the first
/// ends are one run over the rows of both.
pub proof fn law_carried_runs_join<A: Arithmetic>(
    start: Seq<RsiModel<A::Number>>,
    first: Seq<Seq<Seq<char>>>,
    first_outputs: Seq<Seq<Seq<char>>>,
    middle: Seq<RsiModel<A::Number>>,
    second: Seq<Seq<Seq<char>>>,
    second_outputs: Seq<Seq<Seq<char>>>,
    end: Seq<RsiModel<A::Number>>,
    preserved: nat,
    fallback: Seq<char>,
)
    requires
        is_run::<A>(start, first, preserved, fallback, middle, first_outputs),
        is_run::<A>(middle, second, preserved, fallback, end, second_outputs),
    ensures
        is_run::<A>(
            start,
            first + second,
            preserved,
            fallback,
            end,
            first_outputs + second_outputs,
        ),
{
    let head = choose|trace: Seq<Seq<RsiModel<A::Number>>>|
        {
            &&& #[trigger] is_trace::<A>(trace, first, preserved, fallback, first_outputs)
            &&& trace.first() == start
            &&& trace.last() == middle
        };
    let tail = choose|trace: Seq<Seq<RsiModel<A::Number>>>|
        {
            &&& #[trigger] is_trace::<A>(trace, second, preserved, fallback, second_outputs)
            &&& trace.first() == middle
            &&& trace.last() == end
        };
    let rows = first + second;
    let trace = head + tail.skip(1);
    assert forall|i: int| #![trigger rows[i]] 0 <= i < rows.len() implies is_row_step::<A>(
        trace[i],
        rows[i],
        preserved,
        fallback,
        trace[i + 1],
        (first_outputs + second_outputs)[i],
    ) by {
        if i < first.len() {
            assert(rows[i] == first[i]);
        } else {
            assert(rows[i] == second[i - first.len()]);
            assert(trace[i] == tail[i - first.len()]);
        }
    }
    assert(is_trace::<A>(trace, rows, preserved, fallback, first_outputs + second_outputs));
}

/// Carrying the states through any number of tables, from each to the next, is
/// the same as converting all of them as one.
pub proof fn law_carried_tables_are_one<A: Arithmetic>(
    states: Seq<Seq<RsiModel<A::Number>>>,
    tables: Seq<Seq<Seq<Seq<char>>>>,
    outputs: Seq<Seq<Seq<Seq<char>>>>,
    preserved: nat,
    fallback: Seq<char>,
)
    requires
        states.len() == tables.len() + 1,
        outputs.len() == tables.len(),
        forall|i: int|
            #![trigger tables[i]]
            0 <= i < tables.len() ==> is_run::<A>(
                states[i],
                tables[i],
                preserved,
                fallback,
                states[i + 1],
                outputs[i],
            ),
    ensures
        is_run::<A>(
            states.first(),
            tables.flatten(),
            preserved,
            fallback,
            states.last(),
            outputs.flatten(),
        ),
    decreases tables.len(),
{
    if tables.len() == 0 {
        let trace = seq![states.first()];
        assert(is_trace::<A>(trace, tables.flatten(), preserved, fallback, outputs.flatten()));
    } else {
        let front = tables.drop_last();
        let front_outputs = outputs.drop_last();
        let front_states = states.drop_last();
        let last = tables.len() - 1;
        assert forall|i: int| #![trigger front[i]] 0 <= i < front.len() implies is_run::<A>(
            front_states[i],
            front[i],
            preserved,
            fallback,
            front_states[i + 1],
            front_outputs[i],
        ) by {
            assert(front[i] == tables[i]);
        }
        law_carried_tables_are_one::<A>(front_states, front, front_outputs, preserved, fallback);
        law_carried_runs_join::<A>(
            states.first(),
            front.flatten(),
            front_outputs.flatten(),
            states[last],
            tables[last],
            outputs[last],
            states.last(),
            preserved,
            fallback,
        );
        front.lemma_flatten_push(tables[last]);
        front_outputs.lemma_flatten_push(outputs[last]);
        assert(front.push(tables[last]) =~= tables);
        assert(front_outputs.push(outputs[last]) =~= outputs);
    }
}

/// A run may be cut anywhere: what comes out of the rows behind the cut
/// depends on the rows before it through the states alone.
pub proof fn law_runs_split<A: Arithmetic>(
    start: Seq<RsiModel<A::Number>>,
    rows: Seq<Seq<Seq<char>>>,
    outputs: Seq<Seq<Seq<char>>>,
    end: Seq<RsiModel<A::Number>>,
    preserved: nat,
    fallback: Seq<char>,
    cut: int,
)
    requires
        is_run::<A>(start, rows, preserved, fallback, end, outputs),
        0 <= cut <= rows.len(),
    ensures
        exists|middle: Seq<RsiModel<A::Number>>|
            #[trigger] is_run::<A>(
                start,
                rows.take(cut),
                preserved,
                fallback,
                middle,
                outputs.take(cut),
            ) && is_run::<A>(
                middle,
                rows.skip(cut),
                preserved,
                fallback,
                end,
                outputs.skip(cut),
            ),
{
    let trace = choose|trace: Seq<Seq<RsiModel<A::Number>>>|
        {
            &&& #[trigger] is_trace::<A>(trace, rows, preserved, fallback, outputs)
            &&& trace.first() == start
            &&& trace.last() == end
        };
    let head = trace.take(cut + 1);
    let tail = trace.skip(cut);
    let front = rows.take(cut);
    let back = rows.skip(cut);
    assert forall|i: int| #![trigger front[i]] 0 <= i < front.len() implies is_row_step::<A>(
        head[i],
        front[i],
        preserved,
        fallback,
        head[i + 1],
        outputs.take(cut)[i],
    ) by {
        assert(front[i] == rows[i]);
    }
    assert(is_trace::<A>(head, front, preserved, fallback, outputs.take(cut)));
    assert forall|i: int| #![trigger back[i]] 0 <= i < back.len() implies is_row_step::<A>(
        tail[i],
        back[i],
        preserved,
        fallback,
        tail[i + 1],
        outputs.skip(cut)[i],
    ) by {
        assert(back[i] == rows[i + cut]);
    }
    assert(is_trace::<A>(tail, back, preserved, fallback, outputs.skip(cut)));
    assert(is_run::<A>(start, front, preserved, fallback, trace[cut], outputs.take(cut)));
    assert(is_run::<A>(trace[cut], back, preserved, fallback, end, outputs.skip(cut)));
}

/// Each row that comes out begins with the leading fields of the row that went
/// in, and ends with one cell per state. Nothing else of the row is left.
pub proof fn law_leading_fields_stay<A: Arithmetic>(
    start: Seq<RsiModel<A::Number>>,
    rows: Seq<Seq<Seq<char>>>,
    outputs: Seq<Seq<Seq<char>>>,
    end: Seq<RsiModel<A::Number>>,
    preserved: nat,
    fallback: Seq<char>,
    index: int,
)
    requires
        is_run::<A>(start, rows, preserved, fallback, end, outputs),
        0 <= index < rows.len(),
    ensures
        outputs.len() == rows.len(),
        kept(rows[index], preserved).is_prefix_of(outputs[index]),
        outputs[index].len() == output_width(rows[index], preserved, start.len()),
        end.len() == start.len(),
        rows[index].len() <= preserved ==> outputs[index].len() == rows[index].len() + start.len(),
        rows[index].len() >= preserved ==> outputs[index].len() == preserved + start.len(),
        forall|k: int|
            0 <= k < rows[index].len() && k < preserved ==> #[trigger] outputs[index][k]
                == rows[index][k],
{
    let trace = choose|trace: Seq<Seq<RsiModel<A::Number>>>|
        {
            &&& #[trigger] is_trace::<A>(trace, rows, preserved, fallback, outputs)
            &&& trace.first() == start
            &&& trace.last() == end
        };
    lemma_trace_width::<A>(trace, rows, preserved, fallback, outputs, index);
    lemma_trace_width::<A>(trace, rows, preserved, fallback, outputs, rows.len() as int);
    assert(is_row_step::<A>(
        trace[index],
        rows[index],
        preserved,
        fallback,
        trace[index + 1],
        outputs[index],
    ));
    law_a_row_keeps_its_leading_fields::<A>(
        trace[index],
        rows[index],
        preserved,
        fallback,
        trace[index + 1],
        outputs[index],
    );
}

/// Of a row with `n` fields the first `preserved` come out as they are, or all
/// `n` where there are fewer; one cell per state follows, and nothing else.
pub proof fn law_a_row_keeps_its_leading_fields<A: Arithmetic>(
    before: Seq<RsiModel<A::Number>>,
    row: Seq<Seq<char>>,
    preserved: nat,
    fallback: Seq<char>,
    after: Seq<RsiModel<A::Number>>,
    output: Seq<Seq<char>>,
)
    requires
        is_row_step::<A>(before, row, preserved, fallback, after, output),
    ensures
        after.len() == before.len(),
        row.len() <= preserved ==> output.len() == row.len() + before.len(),
        row.len() >= preserved ==> output.len() == preserved + before.len(),
        forall|k: int|
            0 <= k < row.len() && k < preserved ==> #[trigger] output[k] == row[k],
{
    let lead = kept(row, preserved);
    assert forall|k: int| 0 <= k < row.len() && k < preserved implies #[trigger] output[k]
        == row[k] by {
        assert(output.take(lead.len() as int)[k] == output[k]);
    }
}

/// There are as many states behind a row as before it.
pub(crate) proof fn lemma_trace_width<A: Arithmetic>(
    trace: Seq<Seq<RsiModel<A::Number>>>,
    rows: Seq<Seq<Seq<char>>>,
    preserved: nat,
    fallback: Seq<char>,
    outputs: Seq<Seq<Seq<char>>>,
    index: int,
)
    requires
        is_trace::<A>(trace, rows, preserved, fallback, outputs),
        0 <= index <= rows.len(),
    ensures
        trace[index].len() == trace[0].len(),
    decreases index,
{
    if index > 0 {
        lemma_trace_width::<A>(trace, rows, preserved, fallback, outputs, index - 1);
        assert(is_row_step::<A>(
            trace[index - 1],
            rows[index - 1],
            preserved,
            fallback,
            trace[index],
            outputs[index - 1],
        ));
    }
}

/// Converting a converted table changes nothing: where the leading columns
/// hold the closing price and every row has them all, the rows that came out
/// of a run are a run's output for themselves, from and to the same states.
pub proof fn law_converting_twice_is_converting_once<A: Arithmetic>(
    start: Seq<RsiModel<A::Number>>,
    rows: Seq<Seq<Seq<char>>>,
    outputs: Seq<Seq<Seq<char>>>,
    end: Seq<RsiModel<A::Number>>,
    preserved: nat,
    fallback: Seq<char>,
)
    requires
        is_run::<A>(start, rows, preserved, fallback, end, outputs),
        preserved > CLOSE_COLUMN_INDEX,
        forall|i: int| 0 <= i < rows.len() ==> (#[trigger] rows[i]).len() >= preserved,
    ensures
        is_run::<A>(start, outputs, preserved, fallback, end, outputs),
{
    let trace = choose|trace: Seq<Seq<RsiModel<A::Number>>>|
        {
            &&& #[trigger] is_trace::<A>(trace, rows, preserved, fallback, outputs)
            &&& trace.first() == start
            &&& trace.last() == end
        };
    assert forall|i: int| #![trigger outputs[i]] 0 <= i < outputs.len() implies is_row_step::<A>(
        trace[i],
        outputs[i],
        preserved,
        fallback,
        trace[i + 1],
        outputs[i],
    ) by {
        let row = rows[i];
        let output = outputs[i];
        assert(is_row_step::<A>(trace[i], row, preserved, fallback, trace[i + 1], output));
        assert(kept(row, preserved) =~= row.take(preserved as int));
        assert(kept(output, preserved) =~= kept(row, preserved));
        assert(output.take(preserved as int)[CLOSE_COLUMN_INDEX as int] == row.take(
            preserved as int,
        )[CLOSE_COLUMN_INDEX as int]);
        let close = choose|close: Option<A::Number>| #[trigger]
            is_close_of::<A>(row, close) && forall|k: int| #![trigger trace[i][k]]
                0 <= k < trace[i].len() ==> is_step::<A>(
                    trace[i][k],
                    close,
                    fallback,
                    trace[i + 1][k],
                    output[kept(row, preserved).len() + k],
                );
        assert(is_close_of::<A>(output, close));
    }
    assert(is_trace::<A>(trace, outputs, preserved, fallback, outputs));
}

/// The two lists hold states that are alike.
pub open spec fn are_like_lists<N>(
    same: spec_fn(N, N) -> bool,
    left: Seq<RsiModel<N>>,
    right: Seq<RsiModel<N>>,
) -> bool {
    &&& left.len() == right.len()
    &&& forall|i: int|
        #![trigger left[i]]
        #![trigger right[i]]
        0 <= i < left.len() ==> are_like_states(same, left[i], right[i])
}

/// Where operations give like results, a row makes like states of like states
/// and gives one row.
proof fn lemma_like_rows<A: Arithmetic>(
    same: spec_fn(A::Number, A::Number) -> bool,
    before: Seq<RsiModel<A::Number>>,
    row: Seq<Seq<char>>,
    preserved: nat,
    fallback: Seq<char>,
    after: Seq<RsiModel<A::Number>>,
    output: Seq<Seq<char>>,
    other_before: Seq<RsiModel<A::Number>>,
    other_after: Seq<RsiModel<A::Number>>,
    other_output: Seq<Seq<char>>,
)
    requires
        gives_like_results::<A>(same),
        are_like_lists(same, before, other_before),
        is_row_step::<A>(before, row, preserved, fallback, after, output),
        is_row_step::<A>(other_before, row, preserved, fallback, other_after, other_output),
    ensures
        are_like_lists(same, after, other_after),
        output == other_output,
{
    let lead = kept(row, preserved);
    let close = choose|close: Option<A::Number>| #[trigger]
        is_close_of::<A>(row, close) && forall|k: int| #![trigger before[k]]
            0 <= k < before.len() ==> is_step::<A>(
                before[k],
                close,
                fallback,
                after[k],
                output[lead.len() + k],
            );
    let other = choose|close: Option<A::Number>| #[trigger]
        is_close_of::<A>(row, close) && forall|k: int| #![trigger other_before[k]]
            0 <= k < other_before.len() ==> is_step::<A>(
                other_before[k],
                close,
                fallback,
                other_after[k],
                other_output[lead.len() + k],
            );
    law_a_close_is_determined::<A>(same, row, close, other);
    assert forall|k: int| 0 <= k < before.len() implies are_like_states(
        same,
        #[trigger] after[k],
        other_after[k],
    ) && output[lead.len() + k] == other_output[lead.len() + k] by {
        assert(is_step::<A>(before[k], close, fallback, after[k], output[lead.len() + k]));
        assert(is_step::<A>(
            other_before[k],
            other,
            fallback,
            other_after[k],
            other_output[lead.len() + k],
        ));
        law_a_step_is_determined::<A>(
            same,
            before[k],
            close,
            fallback,
            after[k],
            output[lead.len() + k],
            other_before[k],
            other,
            other_after[k],
            other_output[lead.len() + k],
        );
    }
    assert forall|i: int| 0 <= i < output.len() implies #[trigger] output[i] == other_output[i] by {
        if i < lead.len() {
            assert(output.take(lead.len() as int)[i] == output[i]);
            assert(other_output.take(lead.len() as int)[i] == other_output[i]);
        } else {
            let k = i - lead.len();
            assert(are_like_states(same, after[k], other_after[k]));
        }
    }
    assert(output =~= other_output);
}

/// Where operations give like results, what comes of rows is determined by the
/// states that they start from: like states give the same rows and leave like
/// states.
pub proof fn law_runs_are_determined<A: Arithmetic>(
    same: spec_fn(A::Number, A::Number) -> bool,
    rows: Seq<Seq<Seq<char>>>,
    preserved: nat,
    fallback: Seq<char>,
    start: Seq<RsiModel<A::Number>>,
    end: Seq<RsiModel<A::Number>>,
    outputs: Seq<Seq<Seq<char>>>,
    other_start: Seq<RsiModel<A::Number>>,
    other_end: Seq<RsiModel<A::Number>>,
    other_outputs: Seq<Seq<Seq<char>>>,
)
    requires
        gives_like_results::<A>(same),
        are_like_lists(same, start, other_start),
        is_run::<A>(start, rows, preserved, fallback, end, outputs),
        is_run::<A>(other_start, rows, preserved, fallback, other_end, other_outputs),
    ensures
        are_like_lists(same, end, other_end),
        outputs == other_outputs,
{
    let trace = choose|trace: Seq<Seq<RsiModel<A::Number>>>|
        {
            &&& #[trigger] is_trace::<A>(trace, rows, preserved, fallback, outputs)
            &&& trace.first() == start
            &&& trace.last() == end
        };
    let other = choose|trace: Seq<Seq<RsiModel<A::Number>>>|
        {
            &&& #[trigger] is_trace::<A>(trace, rows, preserved, fallback, other_outputs)
            &&& trace.first() == other_start
            &&& trace.last() == other_end
        };
    lemma_like_traces::<A>(
        same,
        trace,
        other,
        rows,
        preserved,
        fallback,
        outputs,
        other_outputs,
        rows.len() as int,
    );
    assert(outputs =~= other_outputs);
}

proof fn lemma_like_traces<A: Arithmetic>(
    same: spec_fn(A::Number, A::Number) -> bool,
    trace: Seq<Seq<RsiModel<A::Number>>>,
    other: Seq<Seq<RsiModel<A::Number>>>,
    rows: Seq<Seq<Seq<char>>>,
    preserved: nat,
    fallback: Seq<char>,
    outputs: Seq<Seq<Seq<char>>>,
    other_outputs: Seq<Seq<Seq<char>>>,
    count: int,
)
    requires
        gives_like_results::<A>(same),
        is_trace::<A>(trace, rows, preserved, fallback, outputs),
        is_trace::<A>(other, rows, preserved, fallback, other_outputs),
        are_like_lists(same, trace[0], other[0]),
        0 <= count <= rows.len(),
    ensures
        are_like_lists(same, trace[count], other[count]),
        forall|i: int| 0 <= i < count ==> #[trigger] outputs[i] == other_outputs[i],
    decreases count,
{
    if count > 0 {
        let i = count - 1;
        lemma_like_traces::<A>(
            same,
            trace,
            other,
            rows,
            preserved,
            fallback,
            outputs,
            other_outputs,
            i,
        );
        assert(is_row_step::<A>(
            trace[i],
            rows[i],
            preserved,
            fallback,
            trace[i + 1],
            outputs[i],
        ));
        lemma_like_rows::<A>(
            same,
            trace[i],
            rows[i],
            preserved,
            fallback,
            trace[i + 1],
            outputs[i],
            other[i],
            other[i + 1],
            other_outputs[i],
        );
    }
}

/// Where operations give like results, a table has one conversion, in one step
/// or in many: the same bytes, or the same error, and like states.
pub proof fn law_conversions_are_determined<A: Arithmetic>(
    same: spec_fn(A::Number, A::Number) -> bool,
    rows: Seq<Record>,
    preserved: nat,
    fallback: Seq<char>,
    before: Seq<RsiModel<A::Number>>,
    after: Seq<RsiModel<A::Number>>,
    result: Result<Vec<u8>, ConvertError>,
    other_before: Seq<RsiModel<A::Number>>,
    other_after: Seq<RsiModel<A::Number>>,
    other_result: Result<Vec<u8>, ConvertError>,
)
    requires
        gives_like_results::<A>(same),
        are_like_lists(same, before, other_before),
        is_conversion::<A>(before, rows, preserved, fallback, after, result),
        is_conversion::<A>(other_before, rows, preserved, fallback, other_after, other_result),
    ensures
        are_like_lists(same, after, other_after),
        match (result, other_result) {
            (Ok(bytes), Ok(other_bytes)) => other_bytes@ == bytes@,
            (Err(ConvertError::Read(text)), Err(ConvertError::Read(other))) => other@ == text@,
            (Err(ConvertError::Write(text)), Err(ConvertError::Write(other))) => other@ == text@,
            _ => false,
        },
{
    let width = table_width(rows, preserved, before.len(), seq![]);
    match (result, other_result) {
        (Ok(bytes), Ok(other_bytes)) => {
            let outputs = choose|outputs: Seq<Seq<Seq<char>>>| #[trigger]
                is_run::<A>(before, texts(rows), preserved, fallback, after, outputs) && bytes@
                    == csv_bytes(outputs);
            let other_outputs = choose|outputs: Seq<Seq<Seq<char>>>| #[trigger]
                is_run::<A>(
                    other_before,
                    texts(rows),
                    preserved,
                    fallback,
                    other_after,
                    outputs,
                ) && other_bytes@ == csv_bytes(outputs);
            law_runs_are_determined::<A>(
                same,
                texts(rows),
                preserved,
                fallback,
                before,
                after,
                outputs,
                other_before,
                other_after,
                other_outputs,
            );
        },
        (Err(error), Err(other_error)) => {
            let failed = choose|failed: int| #[trigger]
                is_failure::<A>(before, rows, preserved, fallback, width, after, error, failed);
            let other = choose|failed: int| #[trigger]
                is_failure::<A>(
                    other_before,
                    rows,
                    preserved,
                    fallback,
                    width,
                    other_after,
                    other_error,
                    failed,
                );
            if failed < other {
                assert(rows.take(other)[failed] == rows[failed]);
            } else if other < failed {
                assert(rows.take(failed)[other] == rows[other]);
            }
            let count = if error is Read {
                failed
            } else {
                failed + 1
            };
            let outputs = choose|outputs: Seq<Seq<Seq<char>>>| #[trigger]
                is_run::<A>(
                    before,
                    texts(rows.take(count)),
                    preserved,
                    fallback,
                    after,
                    outputs,
                );
            let other_outputs = choose|outputs: Seq<Seq<Seq<char>>>| #[trigger]
                is_run::<A>(
                    other_before,
                    texts(rows.take(count)),
                    preserved,
                    fallback,
                    other_after,
                    outputs,
                );
            law_runs_are_determined::<A>(
                same,
                texts(rows.take(count)),
                preserved,
                fallback,
                before,
                after,
                outputs,
                other_before,
                other_after,
                other_outputs,
            );
        },
        _ => {},
    }
}

/// Converting a converted table again gives the same rows and leaves like
/// states, and nothing stands in its way: the rows are all as wide as the
/// table. The RSI columns are dropped and computed anew, never appended twice.
pub proof fn law_converting_again_changes_nothing<A: Arithmetic>(
    same: spec_fn(A::Number, A::Number) -> bool,
    start: Seq<RsiModel<A::Number>>,
    rows: Seq<Seq<Seq<char>>>,
    outputs: Seq<Seq<Seq<char>>>,
    end: Seq<RsiModel<A::Number>>,
    preserved: nat,
    fallback: Seq<char>,
    again_start: Seq<RsiModel<A::Number>>,
    again_outputs: Seq<Seq<Seq<char>>>,
    again_end: Seq<RsiModel<A::Number>>,
)
    requires
        gives_like_results::<A>(same),
        are_like_lists(same, start, again_start),
        is_run::<A>(start, rows, preserved, fallback, end, outputs),
        preserved > CLOSE_COLUMN_INDEX,
        forall|i: int| 0 <= i < rows.len() ==> (#[trigger] rows[i]).len() >= preserved,
        is_run::<A>(again_start, outputs, preserved, fallback, again_end, again_outputs),
    ensures
        again_outputs == outputs,
        are_like_lists(same, end, again_end),
        all_sound(
            readable(outputs),
            preserved,
            start.len(),
            table_width(readable(outputs), preserved, start.len(), seq![]),
        ),
{
    law_converting_twice_is_converting_once::<A>(start, rows, outputs, end, preserved, fallback);
    law_runs_are_determined::<A>(
        same,
        outputs,
        preserved,
        fallback,
        start,
        end,
        outputs,
        again_start,
        again_end,
        again_outputs,
    );
    assert(outputs.len() == rows.len());
    assert forall|i: int| 0 <= i < readable(outputs).len() implies (#[trigger] readable(
        outputs,
    )[i] matches Ok(row) && row.len() >= preserved) by {
        law_leading_fields_stay::<A>(start, rows, outputs, end, preserved, fallback, i);
        assert(rows[i].len() >= preserved);
    }
    law_full_tables_convert(readable(outputs), preserved, start.len());
}

/// A column depends on its own window alone: dropping every other state from a
/// run leaves a run that gives the same cells for the one that stays.
pub proof fn law_columns_are_independent<A: Arithmetic>(
    start: Seq<RsiModel<A::Number>>,
    rows: Seq<Seq<Seq<char>>>,
    outputs: Seq<Seq<Seq<char>>>,
    end: Seq<RsiModel<A::Number>>,
    preserved: nat,
    fallback: Seq<char>,
    column: int,
)
    requires
        is_run::<A>(start, rows, preserved, fallback, end, outputs),
        0 <= column < start.len(),
    ensures
        is_run::<A>(
            seq![start[column]],
            rows,
            preserved,
            fallback,
            seq![end[column]],
            Seq::new(
                rows.len(),
                |i: int|
                    kept(rows[i], preserved).push(
                        outputs[i][kept(rows[i], preserved).len() + column],
                    ),
            ),
        ),
{
    let trace = choose|trace: Seq<Seq<RsiModel<A::Number>>>|
        {
            &&& #[trigger] is_trace::<A>(trace, rows, preserved, fallback, outputs)
            &&& trace.first() == start
            &&& trace.last() == end
        };
    let single = Seq::new(trace.len(), |i: int| seq![trace[i][column]]);
    let cells = Seq::new(
        rows.len(),
        |i: int|
            kept(rows[i], preserved).push(outputs[i][kept(rows[i], preserved).len() + column]),
    );
    assert forall|i: int| #![trigger rows[i]] 0 <= i < rows.len() implies is_row_step::<A>(
        single[i],
        rows[i],
        preserved,
        fallback,
        single[i + 1],
        cells[i],
    ) by {
        lemma_trace_width::<A>(trace, rows, preserved, fallback, outputs, i);
        let row = rows[i];
        let lead = kept(row, preserved);
        assert(is_row_step::<A>(trace[i], row, preserved, fallback, trace[i + 1], outputs[i]));
        assert(cells[i].take(lead.len() as int) =~= lead);
        let close = choose|close: Option<A::Number>| #[trigger]
            is_close_of::<A>(row, close) && forall|k: int| #![trigger trace[i][k]]
                0 <= k < trace[i].len() ==> is_step::<A>(
                    trace[i][k],
                    close,
                    fallback,
                    trace[i + 1][k],
                    outputs[i][lead.len() + k],
                );
        assert(is_step::<A>(
            trace[i][column],
            close,
            fallback,
            trace[i + 1][column],
            outputs[i][lead.len() + column],
        ));
        assert(is_close_of::<A>(row, close));
    }
    assert(is_trace::<A>(single, rows, preserved, fallback, cells));
    assert(single.first() =~= seq![start[column]]);
    assert(single.last() =~= seq![end[column]]);
}

/// A table whose records can all be read, each with at least the leading
/// columns, is converted whatever its rows hold.
pub proof fn law_full_tables_convert(
    rows: Seq<Record>,
    preserved: nat,
    columns: nat,
)
    requires
        forall|i: int|
            0 <= i < rows.len() ==> (#[trigger] rows[i] matches Ok(row) && row.len() >= preserved),
    ensures
        all_sound(rows, preserved, columns, table_width(rows, preserved, columns, seq![])),
{
    assert forall|i: int| 0 <= i < rows.len() implies is_sound(
        #[trigger] rows[i],
        preserved,
        columns,
        table_width(rows, preserved, columns, seq![]),
    ) by {
        assert(rows[0] is Ok);
    }
}

/// When a table is converted, and what comes of it. It is converted exactly if
/// every record can be read and every row keeps as many leading fields as the
/// first. Then every record gives one row, in order, with its leading fields as
/// they were and with the cells of a run through all rows. Else the first record
/// in the way is told: with what the reader tells of it, or with the two widths
/// that do not agree.
pub proof fn law_a_table_is_converted_row_by_row<A: Arithmetic>(
    before: Seq<RsiModel<A::Number>>,
    records: Seq<Record>,
    preserved: nat,
    fallback: Seq<char>,
    after: Seq<RsiModel<A::Number>>,
    result: Result<Vec<u8>, ConvertError>,
)
    requires
        is_conversion::<A>(before, records, preserved, fallback, after, result),
    ensures
        result is Ok <==> is_even(records, preserved, records.len() as int),
        result matches Ok(bytes) ==> exists|outputs: Seq<Seq<Seq<char>>>|
            {
                &&& bytes@ == #[trigger] csv_bytes(outputs)
                &&& is_run::<A>(
                    before,
                    Seq::new(records.len(), |i: int| records[i]->Ok_0),
                    preserved,
                    fallback,
                    after,
                    outputs,
                )
                &&& outputs.len() == records.len()
                &&& forall|i: int, k: int|
                    0 <= i < records.len() && 0 <= k < (records[i]->Ok_0).len() && k < preserved
                        ==> #[trigger] outputs[i][k] == (records[i]->Ok_0)[k]
                &&& forall|i: int|
                    0 <= i < records.len() ==> (#[trigger] outputs[i]).len() == if (
                    records[i]->Ok_0).len() < preserved {
                        (records[i]->Ok_0).len() + before.len()
                    } else {
                        preserved + before.len()
                    }
            },
        result matches Err(ConvertError::Read(text)) ==> exists|i: int|
            {
                &&& 0 <= i < records.len()
                &&& #[trigger] records[i] == Err::<Seq<Seq<char>>, Seq<char>>(text@)
                &&& is_even(records, preserved, i)
            },
        result matches Err(ConvertError::Write(text)) ==> exists|i: int|
            {
                &&& 0 < i < records.len()
                &&& #[trigger] records[i] is Ok
                &&& is_even(records, preserved, i)
                &&& !is_even(records, preserved, i + 1)
                &&& text@ == "CSV error: found record with "@ + decimal(
                    fewer((records[i]->Ok_0).len(), preserved) + before.len(),
                ) + " fields, but the previous record has "@ + decimal(
                    fewer((records[0]->Ok_0).len(), preserved) + before.len(),
                ) + " fields"@
            },
{
    let width = table_width(records, preserved, before.len(), seq![]);
    lemma_even_is_sound(records, preserved, before.len(), records.len() as int);
    assert(records.take(records.len() as int) =~= records);
    match result {
        Ok(bytes) => {
            let outputs = choose|outputs: Seq<Seq<Seq<char>>>|
                {
                    &&& #[trigger] is_run::<A>(
                        before,
                        texts(records),
                        preserved,
                        fallback,
                        after,
                        outputs,
                    )
                    &&& bytes@ == csv_bytes(outputs)
                };
            let rows = texts(records);
            assert(rows =~= Seq::new(records.len(), |i: int| records[i]->Ok_0));
            assert(outputs.len() == rows.len());
            assert forall|i: int, k: int|
                0 <= i < records.len() && 0 <= k < (records[i]->Ok_0).len() && k
                    < preserved implies #[trigger] outputs[i][k] == (records[i]->Ok_0)[k] by {
                law_leading_fields_stay::<A>(before, rows, outputs, after, preserved, fallback, i);
                assert(rows[i] == records[i]->Ok_0);
            }
            assert forall|i: int| 0 <= i < records.len() implies (#[trigger] outputs[i]).len()
                == if (records[i]->Ok_0).len() < preserved {
                (records[i]->Ok_0).len() + before.len()
            } else {
                preserved + before.len()
            } by {
                law_leading_fields_stay::<A>(before, rows, outputs, after, preserved, fallback, i);
                assert(rows[i] == records[i]->Ok_0);
            }
            assert(bytes@ == csv_bytes(outputs));
        },
        Err(error) => {
            let failed = choose|failed: int| #[trigger]
                is_failure::<A>(
                    before,
                    records,
                    preserved,
                    fallback,
                    width,
                    after,
                    error,
                    failed,
                );
            lemma_even_is_sound(records, preserved, before.len(), failed);
            lemma_even_is_sound(records, preserved, before.len(), failed + 1);
            let longer = records.take(failed + 1);
            if all_sound(longer, preserved, before.len(), width) {
                assert(longer[failed] == records[failed]);
            }
            assert(records[failed] is Ok || records[failed] is Err);
        },
    }
}

/// The lesser of a number of fields and the number of leading columns.
pub open spec fn fewer(fields: nat, preserved: nat) -> nat {
    if fields < preserved {
        fields
    } else {
        preserved
    }
}

/// The first `count` records can be read, and each keeps as many fields as the
/// first.
pub open spec fn is_even(records: Seq<Record>, preserved: nat, count: int) -> bool {
    forall|i: int|
        0 <= i < count ==> (#[trigger] records[i] matches Ok(row) && records[0] matches Ok(first)
            && fewer(row.len(), preserved) == fewer(first.len(), preserved))
}

proof fn lemma_even_is_sound(records: Seq<Record>, preserved: nat, columns: nat, count: int)
    requires
        0 <= count <= records.len(),
    ensures
        is_even(records, preserved, count) <==> all_sound(
            records.take(count),
            preserved,
            columns,
            table_width(records, preserved, columns, seq![]),
        ),
{
    let width = table_width(records, preserved, columns, seq![]);
    let front = records.take(count);
    if all_sound(front, preserved, columns, width) {
        assert forall|i: int| 0 <= i < count implies (#[trigger] records[i] matches Ok(row)
            && records[0] matches Ok(first) && fewer(row.len(), preserved) == fewer(
            first.len(),
            preserved,
        )) by {
            assert(is_sound(front[i], preserved, columns, width));
            assert(is_sound(front[0], preserved, columns, width));
        }
    }
    if is_even(records, preserved, count) {
        assert forall|i: int| 0 <= i < count implies is_sound(
            #[trigger] front[i],
            preserved,
            columns,
            width,
        ) by {
            assert(records[i] is Ok);
            assert(records[0] is Ok);
        }
    }
}

/// The cells of a column are made of the closing prices of the rows, one after
/// the other, and of nothing else: the price of a row is what its fifth field
/// spells, where that is a finite number. The cell stands behind the leading
/// fields, at the place of its column.
pub proof fn law_a_column_goes_by_the_fifth_field<A: Arithmetic>(
    start: Seq<RsiModel<A::Number>>,
    rows: Seq<Seq<Seq<char>>>,
    outputs: Seq<Seq<Seq<char>>>,
    end: Seq<RsiModel<A::Number>>,
    preserved: nat,
    fallback: Seq<char>,
    column: int,
) -> (trace: (Seq<RsiModel<A::Number>>, Seq<Option<A::Number>>))
    requires
        is_run::<A>(start, rows, preserved, fallback, end, outputs),
        0 <= column < start.len(),
    ensures
        ({
            let (states, closes) = trace;
            &&& states.len() == rows.len() + 1
            &&& closes.len() == rows.len()
            &&& states[0] == start[column]
            &&& states[rows.len() as int] == end[column]
            &&& forall|i: int|
                #![trigger closes[i]]
                0 <= i < rows.len() ==> {
                    &&& rows[i].len() < 5 ==> closes[i] is None
                    &&& rows[i].len() >= 5 ==> exists|field: &str, parsed: Option<A::Number>|
                        {
                            &&& field@ == rows[i][4]
                            &&& #[trigger] call_ensures(A::parse, (field,), parsed)
                            &&& parsed is None ==> closes[i] is None
                            &&& parsed matches Some(price) ==> {
                                ||| closes[i] == parsed && call_ensures(
                                    A::is_finite,
                                    (price,),
                                    true,
                                )
                                ||| closes[i] is None && call_ensures(
                                    A::is_finite,
                                    (price,),
                                    false,
                                )
                            }
                        }
                    &&& is_step::<A>(
                        states[i],
                        closes[i],
                        fallback,
                        states[i + 1],
                        outputs[i][if rows[i].len() < preserved {
                            rows[i].len() + column
                        } else {
                            preserved + column
                        }],
                    )
                }
        }),
{
    let trace = choose|trace: Seq<Seq<RsiModel<A::Number>>>|
        {
            &&& #[trigger] is_trace::<A>(trace, rows, preserved, fallback, outputs)
            &&& trace.first() == start
            &&& trace.last() == end
        };
    let pick = |i: int|
        choose|close: Option<A::Number>| #[trigger]
            is_close_of::<A>(rows[i], close) && forall|k: int| #![trigger trace[i][k]]
                0 <= k < trace[i].len() ==> is_step::<A>(
                    trace[i][k],
                    close,
                    fallback,
                    trace[i + 1][k],
                    outputs[i][kept(rows[i], preserved).len() + k],
                );
    let states = Seq::new(trace.len(), |i: int| trace[i][column]);
    let closes = Seq::new(rows.len(), |i: int| pick(i));
    assert forall|i: int| #![trigger closes[i]] 0 <= i < rows.len() implies {
        &&& rows[i].len() < 5 ==> closes[i] is None
        &&& rows[i].len() >= 5 ==> exists|field: &str, parsed: Option<A::Number>|
            {
                &&& field@ == rows[i][4]
                &&& #[trigger] call_ensures(A::parse, (field,), parsed)
                &&& parsed is None ==> closes[i] is None
                &&& parsed matches Some(price) ==> {
                    ||| closes[i] == parsed && call_ensures(A::is_finite, (price,), true)
                    ||| closes[i] is None && call_ensures(A::is_finite, (price,), false)
                }
            }
        &&& is_step::<A>(
            states[i],
            closes[i],
            fallback,
            states[i + 1],
            outputs[i][if rows[i].len() < preserved {
                rows[i].len() + column
            } else {
                preserved + column
            }],
        )
    } by {
        lemma_trace_width::<A>(trace, rows, preserved, fallback, outputs, i);
        assert(is_row_step::<A>(trace[i], rows[i], preserved, fallback, trace[i + 1], outputs[i]));
        let close = closes[i];
        assert(is_close_of::<A>(rows[i], close));
        assert(is_step::<A>(
            trace[i][column],
            close,
            fallback,
            trace[i + 1][column],
            outputs[i][kept(rows[i], preserved).len() + column],
        ));
    }
    (states, closes)
}

/// A limit takes the first records, as many as it says, or all of them where
/// there are fewer.
pub proof fn law_a_limit_takes_the_first_records(rows: Seq<Record>, limit: nat, index: int)
    ensures
        rows.len() <= limit ==> up_to(rows, limit).len() == rows.len(),
        rows.len() >= limit ==> up_to(rows, limit).len() == limit,
        0 <= index < rows.len() && index < limit ==> up_to(rows, limit)[index] == rows[index],
{
}

/// Fresh states remember nothing and stand in the order of their windows.
pub proof fn law_fresh_states_remember_nothing<A: Arithmetic>(
    windows: Seq<usize>,
    states: Seq<RsiModel<A::Number>>,
    index: int,
)
    requires
        are_fresh::<A>(windows, states),
        0 <= index < windows.len(),
    ensures
        states.len() == windows.len(),
        states[index].window == windows[index],
        states[index].last_close is None,
        states[index].seed_count == 0,
        states[index].averages is None,
        call_ensures(A::whole, (0usize,), states[index].seed_gain_sum),
        call_ensures(A::whole, (0usize,), states[index].seed_loss_sum),
{
    assert(is_fresh::<A>(windows[index] as nat, states[index]));
}

}
