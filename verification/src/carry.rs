//! The state of the RSI columns on its way through the files of a group.
use vstd::prelude::*;

use crate::convert::{
    all_sound, all_wf, are_fresh, are_like_lists, fresh_states, is_conversion, is_failure, is_run,
    is_sound, is_trace, law_carried_runs_join, law_converting_again_changes_nothing,
    law_full_tables_convert, law_leading_fields_stay, law_runs_are_determined, lemma_chunk_width,
    lemma_late_failure, models, process_file, table_width, texts, up_to, Conversion, ConvertError,
};
use crate::exact::{
    average, falls, is_exact, law_a_converted_table_holds_wilders_index, rises, spells_in_fifth,
    values,
};
use crate::files::{is_sorted, FileInfo, InfoModel};
use crate::groups::is_no_later;
use crate::rsi::{
    gives_like_results, law_a_fresh_state_is_determined, Arithmetic, RsiModel, RsiState,
    CLOSE_COLUMN_INDEX,
};
use crate::run::{
    law_a_carry_group_is_a_directory, law_carryover_follows_the_months,
    law_the_same_files_are_grouped_alike, planned_groups, processed, Settings,
};
use crate::select::files_of;
use crate::table::{csv_bytes, csv_records, readable, reads_back, Record};

verus! {

/// The states of the RSI columns, from fresh ones on through any number of
/// tables.
pub struct Carrier<A: Arithmetic> {
    states: Vec<RsiState<A>>,
    preserved_columns: usize,
    fallback: String,
    start: Ghost<Seq<RsiModel<A::Number>>>,
    rows: Ghost<Seq<Seq<Seq<char>>>>,
    outputs: Ghost<Seq<Seq<Seq<char>>>>,
}

impl<A: Arithmetic> Carrier<A> {
    /// The states before the first row.
    pub closed spec fn first(&self) -> Seq<RsiModel<A::Number>> {
        self.start@
    }

    /// The states behind the last row.
    pub closed spec fn now(&self) -> Seq<RsiModel<A::Number>> {
        models(self.states@)
    }

    /// The rows that were taken, table after table.
    pub closed spec fn rows(&self) -> Seq<Seq<Seq<char>>> {
        self.rows@
    }

    /// The rows that came out, table after table.
    pub closed spec fn outputs(&self) -> Seq<Seq<Seq<char>>> {
        self.outputs@
    }

    /// How many leading fields stay.
    pub closed spec fn preserved(&self) -> nat {
        self.preserved_columns as nat
    }

    /// What stands in a cell that cannot be calculated.
    pub closed spec fn fallback(&self) -> Seq<char> {
        self.fallback@
    }

    /// The states are what the rows made of the first ones, and the rows that
    /// came out are theirs.
    pub closed spec fn wf(&self) -> bool {
        &&& all_wf(self.states@)
        &&& is_run::<A>(
            self.first(),
            self.rows(),
            self.preserved(),
            self.fallback(),
            self.now(),
            self.outputs(),
        )
    }

    /// Starts from fresh states, one for each window.
    pub fn start(windows: &[usize], preserved_columns: usize, fallback: String) -> (carrier: Self)
        ensures
            carrier.wf(),
            are_fresh::<A>(windows@, carrier.first()),
            carrier.now() == carrier.first(),
            carrier.rows().len() == 0,
            carrier.outputs().len() == 0,
            carrier.preserved() == preserved_columns,
            carrier.fallback() == fallback@,
    {
        let states = fresh_states::<A>(windows);
        let ghost first = models(states@);
        proof {
            assert(is_trace::<A>(
                seq![first],
                seq![],
                preserved_columns as nat,
                fallback@,
                seq![],
            ));
            assert(is_run::<A>(
                first,
                seq![],
                preserved_columns as nat,
                fallback@,
                first,
                seq![],
            ));
        }
        Carrier {
            states,
            preserved_columns,
            fallback,
            start: Ghost(first),
            rows: Ghost(Seq::empty()),
            outputs: Ghost(Seq::empty()),
        }
    }

    /// `next` is this carrier behind a table that was converted: its rows and
    /// outputs are longer by those of the table, and `bytes` are the outputs.
    pub open spec fn is_carried(&self, data: Seq<u8>, next: Self, bytes: Seq<u8>) -> bool {
        let added = next.outputs().skip(self.outputs().len() as int);
        &&& next.rows() == self.rows() + texts(csv_records(data))
        &&& next.outputs() == self.outputs() + added
        &&& added.len() == csv_records(data).len()
        &&& is_run::<A>(
            self.now(),
            texts(csv_records(data)),
            self.preserved(),
            self.fallback(),
            next.now(),
            added,
        )
        &&& bytes == csv_bytes(added)
        &&& reads_back(added) ==> csv_records(bytes) == readable(added)
    }

    /// Takes down what a conversion took and what came of it. `before` is the
    /// carrier as it was.
    fn record(
        &mut self,
        Ghost(before): Ghost<Self>,
        Ghost(data): Ghost<Seq<u8>>,
        Ghost(result): Ghost<Result<Vec<u8>, ConvertError>>,
    )
        requires
            before.wf(),
            all_wf(old(self).states@),
            *old(self) == (Carrier { states: old(self).states, ..before }),
            is_conversion::<A>(
                before.now(),
                csv_records(data),
                before.preserved(),
                before.fallback(),
                old(self).now(),
                result,
            ),
        ensures
            final(self).wf(),
            before.is_outcome(data, *final(self), result),
    {
        let ghost (table, added) = lemma_taken::<A>(
            before.now(),
            csv_records(data),
            before.preserved(),
            before.fallback(),
            self.now(),
            result,
        );
        self.rows = Ghost(self.rows@ + table);
        self.outputs = Ghost(self.outputs@ + added);
        proof {
            lemma_carried::<A>(before, *self, table, added);
        }
    }

    /// Converts a table and carries the states on behind it.
    pub fn convert(&mut self, data: &[u8]) -> (result: Result<Vec<u8>, ConvertError>)
        requires
            old(self).wf(),
        ensures
            final(self).wf(),
            old(self).is_outcome(data@, *final(self), result),
            is_conversion::<A>(
                old(self).now(),
                csv_records(data@),
                old(self).preserved(),
                old(self).fallback(),
                final(self).now(),
                result,
            ),
            final(self).preserved() == old(self).preserved(),
            final(self).fallback() == old(self).fallback(),
    {
        let ghost before = *self;
        let result = process_file::<A>(
            data,
            self.preserved_columns,
            self.fallback.as_str(),
            &mut self.states,
        );
        self.record(Ghost(before), Ghost(data@), Ghost(result));
        result
    }

    /// Starts to convert a table, `step` rows at a time.
    pub fn open<'d>(self, data: &'d [u8], step: usize) -> (run: TableRun<'d, A>)
        requires
            self.wf(),
            step > 0,
        ensures
            run.wf(),
            run.before() == self,
            run.data() == data@,
            run.step() == step,
            run.amounts().len() == 0,
    {
        let ghost before = self;
        let conversion = Conversion::new(data);
        proof {
            let records = csv_records(data@);
            assert(conversion.done() =~= seq![]);
            assert(records.skip(0) =~= records);
            assert(is_trace::<A>(
                seq![before.now()],
                texts(records.take(0)),
                before.preserved(),
                before.fallback(),
                seq![],
            ));
            assert(is_run::<A>(
                before.now(),
                texts(records.take(0)),
                before.preserved(),
                before.fallback(),
                before.now(),
                seq![],
            ));
        }
        TableRun {
            carrier: self,
            conversion,
            data,
            step,
            before: Ghost(before),
            amounts: Ghost(Seq::empty()),
        }
    }

    /// What comes of a table that is handed to this carrier. It is converted
    /// exactly if all its records are sound.
    pub open spec fn is_outcome(
        &self,
        data: Seq<u8>,
        next: Self,
        result: Result<Vec<u8>, ConvertError>,
    ) -> bool {
        &&& next.first() == self.first()
        &&& next.preserved() == self.preserved()
        &&& next.fallback() == self.fallback()
        &&& is_conversion::<A>(
            self.now(),
            csv_records(data),
            self.preserved(),
            self.fallback(),
            next.now(),
            result,
        )
        &&& result matches Ok(bytes) ==> self.is_carried(data, next, bytes@)
    }
}

/// The rows that a conversion took and those that came out.
proof fn lemma_taken<A: Arithmetic>(
    before: Seq<RsiModel<A::Number>>,
    records: Seq<Record>,
    preserved: nat,
    fallback: Seq<char>,
    after: Seq<RsiModel<A::Number>>,
    result: Result<Vec<u8>, ConvertError>,
) -> (taken: (Seq<Seq<Seq<char>>>, Seq<Seq<Seq<char>>>))
    requires
        is_conversion::<A>(before, records, preserved, fallback, after, result),
    ensures
        is_run::<A>(before, taken.0, preserved, fallback, after, taken.1),
        taken.1.len() == taken.0.len(),
        result matches Ok(bytes) ==> {
            &&& taken.0 == texts(records)
            &&& bytes@ == csv_bytes(taken.1)
            &&& reads_back(taken.1) ==> csv_records(bytes@) == readable(taken.1)
        },
{
    match result {
        Ok(bytes) => {
            let outputs = choose|outputs: Seq<Seq<Seq<char>>>|
                {
                    &&& #[trigger] is_run::<A>(
                        before,
                        texts(records),
                        preserved,
                        fallback,
                        after,
                        outputs,
                    )
                    &&& bytes@ == csv_bytes(outputs)
                    &&& reads_back(outputs) ==> csv_records(bytes@) == readable(outputs)
                };
            (texts(records), outputs)
        },
        Err(error) => {
            let width = table_width(records, preserved, before.len(), seq![]);
            let failed = choose|failed: int| #[trigger]
                is_failure::<A>(
                    before,
                    records,
                    preserved,
                    fallback,
                    width,
                    after,
                    error,
                    failed,
                );
            let count = match error {
                ConvertError::Read(_) => failed,
                ConvertError::Write(_) => failed + 1,
            };
            let outputs = choose|outputs: Seq<Seq<Seq<char>>>| #[trigger]
                is_run::<A>(
                    before,
                    texts(records.take(count)),
                    preserved,
                    fallback,
                    after,
                    outputs,
                );
            (texts(records.take(count)), outputs)
        },
    }
}

/// A carrier stays well-formed when rows are taken.
proof fn lemma_carried<A: Arithmetic>(
    before: Carrier<A>,
    after: Carrier<A>,
    table: Seq<Seq<Seq<char>>>,
    added: Seq<Seq<Seq<char>>>,
)
    requires
        before.wf(),
        all_wf(after.states@),
        after.first() == before.first(),
        after.preserved() == before.preserved(),
        after.fallback() == before.fallback(),
        after.rows() == before.rows() + table,
        after.outputs() == before.outputs() + added,
        is_run::<A>(
            before.now(),
            table,
            before.preserved(),
            before.fallback(),
            after.now(),
            added,
        ),
    ensures
        after.wf(),
        after.outputs().skip(before.outputs().len() as int) == added,
{
    law_carried_runs_join::<A>(
        before.first(),
        before.rows(),
        before.outputs(),
        before.now(),
        table,
        added,
        after.now(),
        before.preserved(),
        before.fallback(),
    );
    assert(after.outputs().skip(before.outputs().len() as int) =~= added);
}

/// Numbers of rows added up.
pub open spec fn total(amounts: Seq<usize>) -> nat
    decreases amounts.len(),
{
    if amounts.len() == 0 {
        0
    } else {
        total(amounts.drop_last()) + amounts.last() as nat
    }
}

/// A table on its way through, some rows at a time.
pub struct TableRun<'d, A: Arithmetic> {
    carrier: Carrier<A>,
    conversion: Conversion<'d>,
    data: &'d [u8],
    step: usize,
    before: Ghost<Carrier<A>>,
    amounts: Ghost<Seq<usize>>,
}

/// What a step through a table brings.
pub enum TableStep<'d, A: Arithmetic> {
    /// Rows were taken; how many, and what is left.
    Rows(TableRun<'d, A>, usize),
    /// No row was left: the carrier behind the table, and the converted table.
    Done(Carrier<A>, Vec<u8>),
}

impl<'d, A: Arithmetic> TableRun<'d, A> {
    /// The carrier that the table was handed to.
    pub closed spec fn before(&self) -> Carrier<A> {
        self.before@
    }

    /// The bytes of the table.
    pub closed spec fn data(&self) -> Seq<u8> {
        self.data@
    }

    /// How many rows are taken at a time, at most.
    pub closed spec fn step(&self) -> usize {
        self.step
    }

    /// How many rows each step so far took.
    pub closed spec fn amounts(&self) -> Seq<usize> {
        self.amounts@
    }

    /// How wide every row of the table has to be.
    pub open spec fn width(&self) -> nat {
        table_width(
            csv_records(self.data()),
            self.before().preserved(),
            self.before().now().len(),
            seq![],
        )
    }

    /// The records that the next step takes.
    pub open spec fn upcoming(&self) -> Seq<Record> {
        up_to(
            csv_records(self.data()).skip(total(self.amounts()) as int),
            self.step() as nat,
        )
    }

    /// The rows so far are sound, the states are behind them, and the amounts
    /// are theirs.
    pub closed spec fn wf(&self) -> bool {
        let records = csv_records(self.data());
        let taken = self.conversion.done().len() as int;
        let before = self.before();
        &&& self.step > 0
        &&& before.wf()
        &&& self.carrier == (Carrier { states: self.carrier.states, ..before })
        &&& all_wf(self.carrier.states@)
        &&& taken <= records.len()
        &&& self.conversion.left() == records.skip(taken)
        &&& all_sound(
            records.take(taken),
            before.preserved(),
            before.now().len(),
            self.width(),
        )
        &&& is_run::<A>(
            before.now(),
            texts(records.take(taken)),
            before.preserved(),
            before.fallback(),
            self.carrier.now(),
            self.conversion.done(),
        )
        &&& total(self.amounts()) == taken
        &&& forall|i: int|
            0 <= i < self.amounts().len() ==> 1 <= #[trigger] self.amounts()[i] <= self.step
    }

    /// Takes the next rows: as many as a step has, or as there are left. The
    /// table is done when none is left, and fails when one of them is not sound.
    pub fn advance(self) -> (result: Result<TableStep<'d, A>, ConvertError>)
        requires
            self.wf(),
        ensures
            result is Err <==> !all_sound(
                self.upcoming(),
                self.before().preserved(),
                self.before().now().len(),
                self.width(),
            ),
            match result {
                Ok(TableStep::Rows(next, count)) => {
                    &&& next.wf()
                    &&& next.before() == self.before()
                    &&& next.data() == self.data()
                    &&& next.step() == self.step()
                    &&& next.amounts() == self.amounts().push(count)
                    &&& count == self.upcoming().len()
                    &&& 1 <= count <= self.step()
                    &&& count == if csv_records(self.data()).len() - total(self.amounts())
                        < self.step() {
                        csv_records(self.data()).len() - total(self.amounts())
                    } else {
                        self.step() as int
                    }
                },
                Ok(TableStep::Done(carrier, bytes)) => {
                    &&& carrier.wf()
                    &&& self.before().is_outcome(self.data(), carrier, Ok(bytes))
                    &&& is_conversion::<A>(
                        self.before().now(),
                        csv_records(self.data()),
                        self.before().preserved(),
                        self.before().fallback(),
                        carrier.now(),
                        Ok(bytes),
                    )
                    &&& carrier.preserved() == self.before().preserved()
                    &&& carrier.fallback() == self.before().fallback()
                    &&& total(self.amounts()) == csv_records(self.data()).len()
                },
                Err(error) => exists|after: Seq<RsiModel<A::Number>>| #[trigger]
                    is_conversion::<A>(
                        self.before().now(),
                        csv_records(self.data()),
                        self.before().preserved(),
                        self.before().fallback(),
                        after,
                        Err(error),
                    ),
            },
    {
        let ghost start = self;
        let ghost before = self.before();
        let ghost records = csv_records(self.data());
        let ghost preserved = before.preserved();
        let ghost fallback = before.fallback();
        let ghost width = self.width();
        let ghost taken = self.conversion.done().len() as int;
        let ghost middle = self.carrier.now();
        let ghost done = self.conversion.done();
        let ghost chunk = self.upcoming();
        let ghost chunk_width = table_width(chunk, preserved, before.now().len(), done);
        proof {
            lemma_chunk_width::<A>(
                before.now(),
                records,
                preserved,
                fallback,
                middle,
                done,
                taken,
                self.step as nat,
            );
        }
        let mut carrier = self.carrier;
        match self.conversion.advance::<A>(
            carrier.preserved_columns,
            carrier.fallback.as_str(),
            &mut carrier.states,
            self.step,
        ) {
            Ok((next, count)) => {
                proof {
                    let outputs = choose|outputs: Seq<Seq<Seq<char>>>|
                        {
                            &&& #[trigger] is_run::<A>(
                                middle,
                                texts(chunk),
                                preserved,
                                fallback,
                                carrier.now(),
                                outputs,
                            )
                            &&& next.done() == done + outputs
                        };
                    law_carried_runs_join::<A>(
                        before.now(),
                        texts(records.take(taken)),
                        done,
                        middle,
                        texts(chunk),
                        outputs,
                        carrier.now(),
                        preserved,
                        fallback,
                    );
                    assert(outputs.len() == texts(chunk).len());
                    assert(texts(records.take(taken)) + texts(chunk) =~= texts(
                        records.take(taken + count),
                    ));
                    assert(records.skip(taken).skip(count as int) =~= records.skip(taken + count));
                    assert forall|i: int| 0 <= i < taken + count implies is_sound(
                        #[trigger] records.take(taken + count)[i],
                        preserved,
                        before.now().len(),
                        width,
                    ) by {
                        if i < taken {
                            assert(records.take(taken)[i] == records[i]);
                        } else {
                            assert(chunk[i - taken] == records[i]);
                        }
                    }
                }
                if count == 0 {
                    let bytes = next.finish();
                    proof {
                        assert(taken == records.len());
                        assert(records.take(taken) =~= records);
                        assert(is_run::<A>(
                            before.now(),
                            texts(records),
                            preserved,
                            fallback,
                            carrier.now(),
                            next.done(),
                        ));
                    }
                    carrier.record(Ghost(before), Ghost(start.data()), Ghost(Ok(bytes)));
                    Ok(TableStep::Done(carrier, bytes))
                } else {
                    let ghost amounts = self.amounts@.push(count);
                    assert(amounts.drop_last() =~= self.amounts@);
                    let run = TableRun {
                        carrier,
                        conversion: next,
                        data: self.data,
                        step: self.step,
                        before: self.before,
                        amounts: Ghost(amounts),
                    };
                    Ok(TableStep::Rows(run, count))
                }
            },
            Err(error) => {
                let ghost after = carrier.now();
                proof {
                    assert(taken < records.len());
                    let failed = choose|failed: int| #[trigger]
                        is_failure::<A>(
                            middle,
                            chunk,
                            preserved,
                            fallback,
                            chunk_width,
                            after,
                            error,
                            failed,
                        );
                    lemma_late_failure::<A>(
                        before.now(),
                        records,
                        preserved,
                        fallback,
                        middle,
                        done,
                        taken,
                        self.step as nat,
                        after,
                        error,
                        failed,
                    );
                    assert(!is_sound(
                        records[taken + failed],
                        preserved,
                        before.now().len(),
                        width,
                    ));
                    assert(is_conversion::<A>(
                        start.before().now(),
                        csv_records(start.data()),
                        start.before().preserved(),
                        start.before().fallback(),
                        after,
                        Err(error),
                    ));
                }
                Err(error)
            },
        }
    }
}

/// What the steps report of a table: each time at least one row and at most a
/// step of them, never more in all than the table has, and of an empty table
/// nothing.
pub proof fn law_amounts_are_rows<A: Arithmetic>(run: TableRun<'_, A>)
    requires
        run.wf(),
    ensures
        forall|i: int|
            0 <= i < run.amounts().len() ==> 1 <= #[trigger] run.amounts()[i] <= run.step(),
        total(run.amounts()) <= csv_records(run.data()).len(),
        csv_records(run.data()).len() == 0 ==> run.amounts().len() == 0,
{
    if run.amounts().len() > 0 {
        assert(run.amounts()[run.amounts().len() - 1] >= 1);
    }
}

/// The rows of tables, one table after the other.
pub open spec fn rows_of(tables: Seq<Seq<u8>>) -> Seq<Seq<Seq<char>>>
    decreases tables.len(),
{
    if tables.len() == 0 {
        seq![]
    } else {
        rows_of(tables.drop_last()) + texts(csv_records(tables.last()))
    }
}

/// `rows` came out of the table `data`: one for each record. Where they are
/// such that reading gives them back, they are the records of their bytes.
pub open spec fn is_written(data: Seq<u8>, rows: Seq<Seq<Seq<char>>>) -> bool {
    &&& rows.len() == csv_records(data).len()
    &&& reads_back(rows) ==> csv_records(csv_bytes(rows)) == readable(rows)
}

/// A group of files on its way through: the files that are converted already,
/// and the state that goes on to the next.
pub struct GroupRun<'a, A: Arithmetic> {
    files: &'a [FileInfo],
    count: usize,
    carrier: Carrier<A>,
    windows: Ghost<Seq<usize>>,
    tables: Ghost<Seq<Seq<u8>>>,
    written: Ghost<Seq<Seq<Seq<Seq<char>>>>>,
}

impl<'a, A: Arithmetic> GroupRun<'a, A> {
    /// The files of the group, in order.
    pub closed spec fn files(&self) -> Seq<InfoModel> {
        self.files.deep_view()
    }

    /// What the files that are converted already held, in order.
    pub closed spec fn tables(&self) -> Seq<Seq<u8>> {
        self.tables@
    }

    /// The rows that came out of each of them.
    pub closed spec fn written(&self) -> Seq<Seq<Seq<Seq<char>>>> {
        self.written@
    }

    /// The windows of the RSI columns.
    pub closed spec fn windows(&self) -> Seq<usize> {
        self.windows@
    }

    /// The states behind the last row.
    pub closed spec fn now(&self) -> Seq<RsiModel<A::Number>> {
        self.carrier.now()
    }

    /// How many leading fields stay.
    pub closed spec fn preserved(&self) -> nat {
        self.carrier.preserved()
    }

    /// What stands in a cell that cannot be calculated.
    pub closed spec fn fallback(&self) -> Seq<char> {
        self.carrier.fallback()
    }

    /// One table for each file that is converted already, carried from fresh
    /// states through all of them.
    pub closed spec fn wf(&self) -> bool {
        &&& self.carrier.wf()
        &&& are_fresh::<A>(self.windows(), self.carrier.first())
        &&& self.count == self.tables().len()
        &&& self.count <= self.files@.len()
        &&& self.written().len() == self.tables().len()
        &&& self.carrier.rows() == rows_of(self.tables())
        &&& self.carrier.outputs() == self.written().flatten()
        &&& forall|i: int|
            0 <= i < self.tables().len() ==> is_written(
                self.tables()[i],
                #[trigger] self.written()[i],
            )
    }

    /// Starts on the files of a group, from fresh states.
    pub fn start(settings: &Settings, fallback: &str, files: &'a [FileInfo]) -> (run: Self)
        ensures
            run.wf(),
            run.files() == files.deep_view(),
            run.tables().len() == 0,
            run.written().len() == 0,
            run.windows() == settings.windows@,
            are_fresh::<A>(settings.windows@, run.now()),
            run.preserved() == settings.column,
            run.fallback() == fallback@,
    {
        let carrier = Carrier::<A>::start(
            settings.windows.as_slice(),
            settings.column,
            fallback.to_owned(),
        );
        assert(carrier.rows() =~= rows_of(seq![]));
        assert(carrier.outputs() =~= Seq::<Seq<Seq<Seq<char>>>>::empty().flatten());
        GroupRun {
            files,
            count: 0,
            carrier,
            windows: Ghost(settings.windows@),
            tables: Ghost(Seq::empty()),
            written: Ghost(Seq::empty()),
        }
    }

    /// The file that is converted next, if one is left.
    pub fn current(&self) -> (file: Option<&'a FileInfo>)
        requires
            self.wf(),
        ensures
            match file {
                Some(info) => {
                    &&& self.tables().len() < self.files().len()
                    &&& info.deep_view() == self.files()[self.tables().len() as int]
                },
                None => self.tables().len() == self.files().len(),
            },
    {
        if self.count < self.files.len() {
            Some(&self.files[self.count])
        } else {
            None
        }
    }

    /// `next` is this group behind its next file, which held `data` and was
    /// converted to `bytes`.
    pub open spec fn is_next(&self, data: Seq<u8>, next: Self, bytes: Vec<u8>) -> bool {
        &&& next.files() == self.files()
        &&& next.windows() == self.windows()
        &&& next.preserved() == self.preserved()
        &&& next.fallback() == self.fallback()
        &&& next.tables() == self.tables().push(data)
        &&& next.written() == self.written().push(next.written().last())
        &&& is_conversion::<A>(
            self.now(),
            csv_records(data),
            self.preserved(),
            self.fallback(),
            next.now(),
            Ok(bytes),
        )
        &&& bytes@ == csv_bytes(next.written().last())
    }

    /// Starts on the next file, which holds `data`, `step` rows at a time.
    pub fn open<'d>(self, data: &'d [u8], step: usize) -> (run: FileRun<'a, 'd, A>)
        requires
            self.wf(),
            self.tables().len() < self.files().len(),
            step > 0,
        ensures
            run.wf(),
            run.before() == self,
            run.data() == data@,
            run.step() == step,
            run.amounts().len() == 0,
    {
        let ghost before = self;
        let table = self.carrier.open(data, step);
        FileRun {
            files: self.files,
            count: self.count,
            windows: self.windows,
            tables: self.tables,
            written: self.written,
            table,
            before: Ghost(before),
        }
    }
}

/// A file of a group on its way through, some rows at a time.
pub struct FileRun<'a, 'd, A: Arithmetic> {
    files: &'a [FileInfo],
    count: usize,
    windows: Ghost<Seq<usize>>,
    tables: Ghost<Seq<Seq<u8>>>,
    written: Ghost<Seq<Seq<Seq<Seq<char>>>>>,
    table: TableRun<'d, A>,
    before: Ghost<GroupRun<'a, A>>,
}

/// What a step through a file brings.
pub enum FileStep<'a, 'd, A: Arithmetic> {
    /// Rows were taken; how many, and what is left.
    Rows(FileRun<'a, 'd, A>, usize),
    /// No row was left: the group behind the file, and the converted file.
    Done(GroupRun<'a, A>, Vec<u8>),
}

impl<'a, 'd, A: Arithmetic> FileRun<'a, 'd, A> {
    /// The group before the file.
    pub closed spec fn before(&self) -> GroupRun<'a, A> {
        self.before@
    }

    /// The bytes of the file.
    pub closed spec fn data(&self) -> Seq<u8> {
        self.table.data()
    }

    /// How many rows are taken at a time, at most.
    pub closed spec fn step(&self) -> usize {
        self.table.step()
    }

    /// How many rows each step so far took.
    pub closed spec fn amounts(&self) -> Seq<usize> {
        self.table.amounts()
    }

    /// How wide every row of the file has to be.
    pub open spec fn width(&self) -> nat {
        table_width(
            csv_records(self.data()),
            self.before().preserved(),
            self.before().windows().len(),
            seq![],
        )
    }

    /// The records that the next step takes.
    pub open spec fn upcoming(&self) -> Seq<Record> {
        up_to(
            csv_records(self.data()).skip(total(self.amounts()) as int),
            self.step() as nat,
        )
    }

    /// The file is the next of the group, and its table goes through from the
    /// group's carrier on.
    pub closed spec fn wf(&self) -> bool {
        let before = self.before();
        &&& before.wf()
        &&& before.tables().len() < before.files().len()
        &&& self.table.wf()
        &&& self.table.before() == before.carrier
        &&& self.files == before.files
        &&& self.count == before.count
        &&& self.windows == before.windows
        &&& self.tables == before.tables
        &&& self.written == before.written
    }

    /// Takes the next rows: as many as a step has, or as there are left. The
    /// file is done when none is left, and fails when one of them is not sound;
    /// a group in which a file fails goes no further.
    pub fn advance(self) -> (result: Result<FileStep<'a, 'd, A>, ConvertError>)
        requires
            self.wf(),
        ensures
            result is Err <==> !all_sound(
                self.upcoming(),
                self.before().preserved(),
                self.before().windows().len(),
                self.width(),
            ),
            match result {
                Ok(FileStep::Rows(next, count)) => {
                    &&& next.wf()
                    &&& next.before() == self.before()
                    &&& next.data() == self.data()
                    &&& next.step() == self.step()
                    &&& next.amounts() == self.amounts().push(count)
                    &&& count == self.upcoming().len()
                    &&& 1 <= count <= self.step()
                    &&& count == if csv_records(self.data()).len() - total(self.amounts())
                        < self.step() {
                        csv_records(self.data()).len() - total(self.amounts())
                    } else {
                        self.step() as int
                    }
                },
                Ok(FileStep::Done(next, bytes)) => {
                    &&& next.wf()
                    &&& self.before().is_next(self.data(), next, bytes)
                    &&& is_conversion::<A>(
                        self.before().now(),
                        csv_records(self.data()),
                        self.before().preserved(),
                        self.before().fallback(),
                        next.now(),
                        Ok(bytes),
                    )
                    &&& next.files() == self.before().files()
                    &&& next.windows() == self.before().windows()
                    &&& next.preserved() == self.before().preserved()
                    &&& next.fallback() == self.before().fallback()
                    &&& next.tables() == self.before().tables().push(self.data())
                    &&& bytes@ == csv_bytes(next.written().last())
                    &&& total(self.amounts()) == csv_records(self.data()).len()
                },
                Err(error) => exists|after: Seq<RsiModel<A::Number>>| #[trigger]
                    is_conversion::<A>(
                        self.before().now(),
                        csv_records(self.data()),
                        self.before().preserved(),
                        self.before().fallback(),
                        after,
                        Err(error),
                    ),
            },
    {
        let ghost start = self;
        let ghost before = self.before();
        proof {
            lemma_widths::<A>(before.carrier, before.windows());
            assert(self.table.upcoming() == self.upcoming());
            assert(self.table.width() == self.width());
        }
        assert(self.files@.len() == self.files.len());
        match self.table.advance() {
            Ok(TableStep::Rows(table, count)) => {
                let next = FileRun {
                    files: self.files,
                    count: self.count,
                    windows: self.windows,
                    tables: self.tables,
                    written: self.written,
                    table,
                    before: self.before,
                };
                Ok(FileStep::Rows(next, count))
            },
            Ok(TableStep::Done(carrier, bytes)) => {
                let ghost data = start.data();
                let ghost added = carrier.outputs().skip(before.carrier.outputs().len() as int);
                let ghost tables = self.tables@.push(data);
                let ghost written = self.written@.push(added);
                proof {
                    assert(tables.drop_last() =~= self.tables@);
                    self.written@.lemma_flatten_push(added);
                    assert forall|i: int| 0 <= i < tables.len() implies is_written(
                        tables[i],
                        #[trigger] written[i],
                    ) by {
                        if i < self.tables@.len() {
                            assert(is_written(before.tables()[i], before.written()[i]));
                        }
                    }
                    assert(carrier.rows() =~= rows_of(tables));
                    assert(carrier.outputs() =~= written.flatten());
                }
                let next = GroupRun {
                    files: self.files,
                    count: self.count + 1,
                    carrier,
                    windows: self.windows,
                    tables: Ghost(tables),
                    written: Ghost(written),
                };
                Ok(FileStep::Done(next, bytes))
            },
            Err(error) => {
                proof {
                    let after = choose|after: Seq<RsiModel<A::Number>>| #[trigger]
                        is_conversion::<A>(
                            before.carrier.now(),
                            csv_records(start.table.data()),
                            before.carrier.preserved(),
                            before.carrier.fallback(),
                            after,
                            Err(error),
                        );
                    assert(is_conversion::<A>(
                        start.before().now(),
                        csv_records(start.data()),
                        start.before().preserved(),
                        start.before().fallback(),
                        after,
                        Err(error),
                    ));
                }
                Err(error)
            },
        }
    }
}

/// What the steps report of a file: each time at least one row and at most a
/// step of them, never more in all than the file has, and of an empty file
/// nothing.
pub proof fn law_reported_amounts_are_rows<A: Arithmetic>(run: FileRun<'_, '_, A>)
    requires
        run.wf(),
    ensures
        forall|i: int|
            0 <= i < run.amounts().len() ==> 1 <= #[trigger] run.amounts()[i] <= run.step(),
        total(run.amounts()) <= csv_records(run.data()).len(),
        csv_records(run.data()).len() == 0 ==> run.amounts().len() == 0,
{
    law_amounts_are_rows::<A>(run.table);
}

/// There are as many states as windows.
proof fn lemma_widths<A: Arithmetic>(carrier: Carrier<A>, windows: Seq<usize>)
    requires
        carrier.wf(),
        are_fresh::<A>(windows, carrier.first()),
    ensures
        carrier.now().len() == windows.len(),
{
    if carrier.rows().len() > 0 {
        law_leading_fields_stay::<A>(
            carrier.first(),
            carrier.rows(),
            carrier.outputs(),
            carrier.now(),
            carrier.preserved(),
            carrier.fallback(),
            0,
        );
    }
}

/// Where operations give like results, the fresh states for windows are alike.
pub proof fn law_fresh_states_are_determined<A: Arithmetic>(
    same: spec_fn(A::Number, A::Number) -> bool,
    windows: Seq<usize>,
    fresh: Seq<RsiModel<A::Number>>,
    other: Seq<RsiModel<A::Number>>,
)
    requires
        gives_like_results::<A>(same),
        are_fresh::<A>(windows, fresh),
        are_fresh::<A>(windows, other),
    ensures
        are_like_lists(same, fresh, other),
{
    assert forall|i: int|
        #![trigger fresh[i]]
        #![trigger other[i]]
        0 <= i < windows.len() implies crate::rsi::are_like_states(same, fresh[i], other[i]) by {
        law_a_fresh_state_is_determined::<A>(same, windows[i] as nat, fresh[i], other[i]);
    }
}

/// The files of a group are one run from fresh states through all their rows:
/// what comes out of them, file after file, is what comes of those rows. This
/// holds of any arithmetic, whatever its operations leave open.
pub proof fn law_a_group_is_one_run<A: Arithmetic>(run: GroupRun<'_, A>)
    requires
        run.wf(),
    ensures
        exists|start: Seq<RsiModel<A::Number>>| #[trigger]
            are_fresh::<A>(run.windows(), start) && is_run::<A>(
                start,
                rows_of(run.tables()),
                run.preserved(),
                run.fallback(),
                run.now(),
                run.written().flatten(),
            ),
{
    assert(are_fresh::<A>(run.windows(), run.carrier.first()));
}

/// Where operations give like results, the rows that come out of a group are
/// those of any run from fresh states through all its rows.
pub proof fn law_a_group_is_converted_as_one<A: Arithmetic>(
    same: spec_fn(A::Number, A::Number) -> bool,
    run: GroupRun<'_, A>,
    start: Seq<RsiModel<A::Number>>,
    end: Seq<RsiModel<A::Number>>,
    outputs: Seq<Seq<Seq<char>>>,
)
    requires
        gives_like_results::<A>(same),
        run.wf(),
        are_fresh::<A>(run.windows(), start),
        is_run::<A>(start, rows_of(run.tables()), run.preserved(), run.fallback(), end, outputs),
    ensures
        run.written().flatten() == outputs,
        are_like_lists(same, run.now(), end),
{
    law_fresh_states_are_determined::<A>(same, run.windows(), run.carrier.first(), start);
    law_runs_are_determined::<A>(
        same,
        rows_of(run.tables()),
        run.preserved(),
        run.fallback(),
        run.carrier.first(),
        run.now(),
        run.written().flatten(),
        start,
        end,
        outputs,
    );
}

/// The same, of a single file that holds all rows of the group: converted from
/// fresh states, its bytes are those of the rows that come out of the group.
pub proof fn law_a_group_is_converted_as_one_file<A: Arithmetic>(
    same: spec_fn(A::Number, A::Number) -> bool,
    run: GroupRun<'_, A>,
    whole: Seq<u8>,
    start: Seq<RsiModel<A::Number>>,
    end: Seq<RsiModel<A::Number>>,
    bytes: Vec<u8>,
)
    requires
        gives_like_results::<A>(same),
        run.wf(),
        texts(csv_records(whole)) == rows_of(run.tables()),
        are_fresh::<A>(run.windows(), start),
        is_conversion::<A>(
            start,
            csv_records(whole),
            run.preserved(),
            run.fallback(),
            end,
            Ok(bytes),
        ),
    ensures
        bytes@ == csv_bytes(run.written().flatten()),
        are_like_lists(same, run.now(), end),
{
    let (_, outputs) = lemma_taken::<A>(
        start,
        csv_records(whole),
        run.preserved(),
        run.fallback(),
        end,
        Ok(bytes),
    );
    law_a_group_is_converted_as_one::<A>(same, run, start, end, outputs);
}

/// Without carryover a file is converted by itself: the group of a plan holds
/// that file alone, and what comes out of it is a run from fresh states through
/// its rows and no others.
pub proof fn law_no_carry_runs_through_one_file<A: Arithmetic>(
    process: Seq<InfoModel>,
    index: int,
    run: GroupRun<'_, A>,
    data: Seq<u8>,
)
    requires
        0 <= index < process.len(),
        run.wf(),
        run.files() == planned_groups(process, false)[index],
        run.tables() == seq![data],
    ensures
        run.files() == seq![process[index]],
        run.written().len() == 1,
        exists|start: Seq<RsiModel<A::Number>>| #[trigger]
            are_fresh::<A>(run.windows(), start) && is_run::<A>(
                start,
                texts(csv_records(data)),
                run.preserved(),
                run.fallback(),
                run.now(),
                run.written()[0],
            ),
{
    reveal_with_fuel(rows_of, 2);
    assert(run.tables().drop_last() =~= seq![]);
    assert(rows_of(run.tables()) =~= texts(csv_records(data)));
    let empty = Seq::<Seq<Seq<Seq<char>>>>::empty();
    empty.lemma_flatten_push(run.written()[0]);
    assert(empty.push(run.written()[0]) =~= run.written());
    assert(run.written().flatten() =~= run.written()[0]);
    assert(are_fresh::<A>(run.windows(), run.carrier.first()));
}

/// Where operations give like results, the file has the bytes that converting
/// it alone from fresh states gives, whatever the other files are and however
/// many are worked on at a time.
pub proof fn law_no_carry_converts_files_alone<A: Arithmetic>(
    same: spec_fn(A::Number, A::Number) -> bool,
    process: Seq<InfoModel>,
    index: int,
    run: GroupRun<'_, A>,
    data: Seq<u8>,
    start: Seq<RsiModel<A::Number>>,
    end: Seq<RsiModel<A::Number>>,
    bytes: Vec<u8>,
)
    requires
        gives_like_results::<A>(same),
        0 <= index < process.len(),
        run.wf(),
        run.files() == planned_groups(process, false)[index],
        run.tables() == seq![data],
        are_fresh::<A>(run.windows(), start),
        is_conversion::<A>(
            start,
            csv_records(data),
            run.preserved(),
            run.fallback(),
            end,
            Ok(bytes),
        ),
    ensures
        run.files() == seq![process[index]],
        bytes@ == csv_bytes(run.written()[0]),
{
    reveal_with_fuel(rows_of, 2);
    assert(run.tables().drop_last() =~= seq![]);
    assert(rows_of(run.tables()) =~= texts(csv_records(data)));
    law_a_group_is_converted_as_one_file::<A>(same, run, data, start, end, bytes);
    let empty = Seq::<Seq<Seq<Seq<char>>>>::empty();
    empty.lemma_flatten_push(run.written()[0]);
    assert(empty.push(run.written()[0]) =~= run.written());
    assert(run.written().flatten() =~= run.written()[0]);
}

/// With carryover the files of a directory that are converted, and no others,
/// go through in the order of their months, and what comes out of them is one
/// run from fresh states through all their rows.
pub proof fn law_carry_runs_through_a_directory<A: Arithmetic>(
    settings: Settings,
    infos: Seq<InfoModel>,
    index: int,
    run: GroupRun<'_, A>,
)
    requires
        is_sorted(files_of(infos)),
        0 <= index < planned_groups(processed(settings, infos), true).len(),
        run.wf(),
        run.files() == planned_groups(processed(settings, infos), true)[index],
    ensures
        run.files() == processed(settings, infos).filter(
            |info: InfoModel| info.file.group.parts == run.files()[0].file.group.parts,
        ),
        forall|i: int, j: int|
            0 <= i < j < run.files().len() ==> is_no_later(
                (#[trigger] run.files()[i]).file,
                (#[trigger] run.files()[j]).file,
            ),
        exists|start: Seq<RsiModel<A::Number>>| #[trigger]
            are_fresh::<A>(run.windows(), start) && is_run::<A>(
                start,
                rows_of(run.tables()),
                run.preserved(),
                run.fallback(),
                run.now(),
                run.written().flatten(),
            ),
{
    law_a_carry_group_is_a_directory(settings, infos, index);
    law_carryover_follows_the_months(settings, infos);
    law_a_group_is_one_run::<A>(run);
    let groups = planned_groups(processed(settings, infos), true);
    assert forall|i: int, j: int| 0 <= i < j < run.files().len() implies is_no_later(
        (#[trigger] run.files()[i]).file,
        (#[trigger] run.files()[j]).file,
    ) by {
        assert(is_no_later(groups[index][i].file, groups[index][j].file));
    }
}

/// Where operations give like results, what comes out of a directory has the
/// bytes of one file that holds all the rows, converted from fresh states.
pub proof fn law_carry_converts_a_directory_as_one_file<A: Arithmetic>(
    same: spec_fn(A::Number, A::Number) -> bool,
    settings: Settings,
    infos: Seq<InfoModel>,
    index: int,
    run: GroupRun<'_, A>,
    whole: Seq<u8>,
    start: Seq<RsiModel<A::Number>>,
    end: Seq<RsiModel<A::Number>>,
    bytes: Vec<u8>,
)
    requires
        gives_like_results::<A>(same),
        is_sorted(files_of(infos)),
        0 <= index < planned_groups(processed(settings, infos), true).len(),
        run.wf(),
        run.files() == planned_groups(processed(settings, infos), true)[index],
        run.tables().len() == run.files().len(),
        texts(csv_records(whole)) == rows_of(run.tables()),
        are_fresh::<A>(run.windows(), start),
        is_conversion::<A>(
            start,
            csv_records(whole),
            run.preserved(),
            run.fallback(),
            end,
            Ok(bytes),
        ),
    ensures
        run.files() == processed(settings, infos).filter(
            |info: InfoModel| info.file.group.parts == run.files()[0].file.group.parts,
        ),
        bytes@ == csv_bytes(run.written().flatten()),
{
    law_a_carry_group_is_a_directory(settings, infos, index);
    law_a_group_is_converted_as_one_file::<A>(same, run, whole, start, end, bytes);
}

/// Sequences that are the same one after the other, and equally long, are the
/// same.
proof fn lemma_parts_are_told_apart<T>(left: Seq<Seq<T>>, right: Seq<Seq<T>>)
    requires
        left.len() == right.len(),
        forall|i: int| 0 <= i < left.len() ==> (#[trigger] left[i]).len() == right[i].len(),
        left.flatten() == right.flatten(),
    ensures
        left == right,
    decreases left.len(),
{
    if left.len() > 0 {
        let left_front = left.drop_last();
        let right_front = right.drop_last();
        let whole = left.flatten();
        left_front.lemma_flatten_push(left.last());
        right_front.lemma_flatten_push(right.last());
        assert(left_front.push(left.last()) =~= left);
        assert(right_front.push(right.last()) =~= right);
        assert(left[left.len() - 1].len() == right[left.len() - 1].len());
        assert(left_front.flatten() =~= whole.take(whole.len() - left.last().len()));
        assert(right_front.flatten() =~= whole.take(whole.len() - left.last().len()));
        assert(left.last() =~= whole.skip(whole.len() - left.last().len()));
        assert(right.last() =~= whole.skip(whole.len() - left.last().len()));
        assert forall|i: int| 0 <= i < left_front.len() implies (#[trigger] left_front[i]).len()
            == right_front[i].len() by {
            assert(left[i].len() == right[i].len());
        }
        lemma_parts_are_told_apart(left_front, right_front);
    }
    assert(left =~= right);
}

/// What holds of all items holds of the items of every part.
proof fn lemma_parts_keep<T>(parts: Seq<Seq<T>>, holds: spec_fn(T) -> bool)
    requires
        forall|i: int| 0 <= i < parts.flatten().len() ==> holds(#[trigger] parts.flatten()[i]),
    ensures
        forall|i: int, j: int|
            0 <= i < parts.len() && 0 <= j < parts[i].len() ==> holds(#[trigger] parts[i][j]),
    decreases parts.len(),
{
    if parts.len() > 0 {
        let front = parts.drop_last();
        front.lemma_flatten_push(parts.last());
        assert(front.push(parts.last()) =~= parts);
        let start = front.flatten();
        assert forall|i: int| 0 <= i < start.len() implies holds(#[trigger] start[i]) by {
            assert(parts.flatten()[i] == start[i]);
        }
        lemma_parts_keep(front, holds);
        assert forall|i: int, j: int| 0 <= i < parts.len() && 0 <= j < parts[i].len() implies holds(
            #[trigger] parts[i][j],
        ) by {
            if i < front.len() {
                assert(front[i] == parts[i]);
                assert(holds(front[i][j]));
            } else {
                assert(parts.flatten()[start.len() + j] == parts[i][j]);
            }
        }
    }
}

/// The rows of tables, where they are known table by table.
proof fn lemma_rows_are_flat(tables: Seq<Seq<u8>>, rows: Seq<Seq<Seq<Seq<char>>>>)
    requires
        tables.len() == rows.len(),
        forall|i: int|
            0 <= i < tables.len() ==> csv_records(#[trigger] tables[i]) == readable(rows[i]),
    ensures
        rows_of(tables) == rows.flatten(),
    decreases tables.len(),
{
    if tables.len() == 0 {
        assert(rows_of(tables) =~= rows.flatten());
    } else {
        let front = tables.drop_last();
        let front_rows = rows.drop_last();
        assert forall|i: int| 0 <= i < front.len() implies csv_records(#[trigger] front[i])
            == readable(front_rows[i]) by {
            assert(tables[i] == front[i]);
        }
        lemma_rows_are_flat(front, front_rows);
        front_rows.lemma_flatten_push(rows.last());
        assert(front_rows.push(rows.last()) =~= rows);
        assert(csv_records(tables[tables.len() - 1]) == readable(rows[tables.len() - 1]));
        assert(texts(readable(rows.last())) =~= rows.last());
    }
}

/// Converting a group a second time changes nothing: where every row has the
/// leading columns and they hold the closing price, and each file holds the
/// bytes that the first time left there, every file is converted again, to the
/// rows that it holds already. Left out are files whose bytes do not read back,
/// because a byte order mark stands at their start.
pub proof fn law_converting_a_group_again_changes_nothing<A: Arithmetic>(
    same: spec_fn(A::Number, A::Number) -> bool,
    run: GroupRun<'_, A>,
    again: GroupRun<'_, A>,
)
    requires
        gives_like_results::<A>(same),
        run.wf(),
        again.wf(),
        again.windows() == run.windows(),
        again.preserved() == run.preserved(),
        again.fallback() == run.fallback(),
        run.preserved() > CLOSE_COLUMN_INDEX,
        forall|i: int|
            0 <= i < rows_of(run.tables()).len() ==> (#[trigger] rows_of(run.tables())[i]).len()
                >= run.preserved(),
        again.tables().len() == run.tables().len(),
        forall|i: int|
            0 <= i < again.tables().len() ==> #[trigger] again.tables()[i] == csv_bytes(
                run.written()[i],
            ) && reads_back(run.written()[i]),
    ensures
        again.written() == run.written(),
        are_like_lists(same, run.now(), again.now()),
        forall|i: int|
            0 <= i < again.tables().len() ==> all_sound(
                csv_records(#[trigger] again.tables()[i]),
                run.preserved(),
                run.windows().len(),
                table_width(
                    csv_records(again.tables()[i]),
                    run.preserved(),
                    run.windows().len(),
                    seq![],
                ),
            ),
{
    let start = run.carrier.first();
    let rows = rows_of(run.tables());
    let outputs = run.written().flatten();
    let preserved = run.preserved();
    assert forall|i: int| 0 <= i < again.tables().len() implies csv_records(
        #[trigger] again.tables()[i],
    ) == readable(run.written()[i]) by {
        assert(is_written(run.tables()[i], run.written()[i]));
    }
    law_fresh_states_are_determined::<A>(same, run.windows(), start, again.carrier.first());
    lemma_rows_are_flat(again.tables(), run.written());
    law_converting_again_changes_nothing::<A>(
        same,
        start,
        rows,
        outputs,
        run.now(),
        preserved,
        run.fallback(),
        again.carrier.first(),
        again.written().flatten(),
        again.now(),
    );
    assert forall|i: int| 0 <= i < run.written().len() implies (#[trigger] again.written()[i]).len()
        == run.written()[i].len() by {
        assert(csv_records(again.tables()[i]) == readable(run.written()[i]));
        assert(is_written(again.tables()[i], again.written()[i]));
    }
    lemma_parts_are_told_apart(again.written(), run.written());
    assert forall|i: int| 0 <= i < outputs.len() implies (#[trigger] outputs[i]).len()
        >= preserved by {
        law_leading_fields_stay::<A>(start, rows, outputs, run.now(), preserved, run.fallback(), i);
        assert(rows[i].len() >= preserved);
    }
    lemma_parts_keep(run.written(), |row: Seq<Seq<char>>| row.len() >= preserved);
    assert forall|i: int| 0 <= i < again.tables().len() implies all_sound(
        csv_records(#[trigger] again.tables()[i]),
        preserved,
        run.windows().len(),
        table_width(
            csv_records(again.tables()[i]),
            preserved,
            run.windows().len(),
            seq![],
        ),
    ) by {
        let table = run.written()[i];
        assert forall|j: int| 0 <= j < readable(table).len() implies (#[trigger] readable(
            table,
        )[j] matches Ok(row) && row.len() >= preserved) by {
            assert(run.written()[i][j].len() >= preserved);
        }
        law_full_tables_convert(readable(table), preserved, run.windows().len());
    }
}

/// Where operations give like results, groups with the same settings that held
/// the same tables come out the same, however their rows were taken.
pub proof fn law_groups_are_determined<A: Arithmetic>(
    same: spec_fn(A::Number, A::Number) -> bool,
    run: GroupRun<'_, A>,
    other: GroupRun<'_, A>,
)
    requires
        gives_like_results::<A>(same),
        run.wf(),
        other.wf(),
        other.windows() == run.windows(),
        other.preserved() == run.preserved(),
        other.fallback() == run.fallback(),
        other.tables() == run.tables(),
    ensures
        other.written() == run.written(),
        are_like_lists(same, run.now(), other.now()),
{
    law_a_group_is_converted_as_one::<A>(
        same,
        run,
        other.carrier.first(),
        other.now(),
        other.written().flatten(),
    );
    assert forall|i: int| 0 <= i < run.written().len() implies (#[trigger] other.written()[i]).len()
        == run.written()[i].len() by {
        assert(is_written(run.tables()[i], run.written()[i]));
        assert(is_written(other.tables()[i], other.written()[i]));
    }
    lemma_parts_are_told_apart(other.written(), run.written());
}

/// `groups` are the groups of a plan for the files `infos`, each behind its
/// last file.
pub open spec fn is_whole_run<A: Arithmetic>(
    settings: Settings,
    fallback: Seq<char>,
    infos: Seq<InfoModel>,
    groups: Seq<GroupRun<'_, A>>,
) -> bool {
    let planned = planned_groups(processed(settings, infos), settings.carry);
    &&& groups.len() == planned.len()
    &&& forall|i: int|
        0 <= i < groups.len() ==> {
            &&& (#[trigger] groups[i]).wf()
            &&& groups[i].files() == planned[i]
            &&& groups[i].tables().len() == planned[i].len()
            &&& groups[i].windows() == settings.windows@
            &&& groups[i].preserved() == settings.column
            &&& groups[i].fallback() == fallback
        }
}

/// A second run over the files that the first one wrote changes nothing. Where
/// no file is passed over, every row has the leading columns and they hold the
/// closing price, and operations give like results, the second run has the same
/// groups of the same files, none of them fails, and every file comes out as it
/// is. Left out are files whose bytes do not read back, because a byte order
/// mark stands at their start.
pub proof fn law_a_second_run_changes_nothing<A: Arithmetic>(
    same: spec_fn(A::Number, A::Number) -> bool,
    settings: Settings,
    fallback: Seq<char>,
    infos: Seq<InfoModel>,
    groups: Seq<GroupRun<'_, A>>,
    again_infos: Seq<InfoModel>,
    again: Seq<GroupRun<'_, A>>,
)
    requires
        gives_like_results::<A>(same),
        !settings.auto,
        settings.column > CLOSE_COLUMN_INDEX,
        is_whole_run::<A>(settings, fallback, infos, groups),
        is_whole_run::<A>(settings, fallback, again_infos, again),
        files_of(again_infos) == files_of(infos),
        forall|i: int, j: int|
            0 <= i < groups.len() && 0 <= j < rows_of(groups[i].tables()).len() ==> (
            #[trigger] rows_of(groups[i].tables())[j]).len() >= settings.column,
        forall|i: int, j: int|
            0 <= i < groups.len() && 0 <= j < groups[i].tables().len() ==> {
                &&& #[trigger] again[i].tables()[j] == csv_bytes(groups[i].written()[j])
                &&& reads_back(groups[i].written()[j])
            },
    ensures
        again.len() == groups.len(),
        forall|i: int|
            0 <= i < groups.len() ==> {
                &&& files_of((#[trigger] again[i]).files()) == files_of(groups[i].files())
                &&& again[i].written() == groups[i].written()
            },
        forall|i: int, j: int|
            0 <= i < groups.len() && 0 <= j < groups[i].tables().len() ==> all_sound(
                csv_records(#[trigger] again[i].tables()[j]),
                settings.column as nat,
                settings.windows@.len(),
                table_width(
                    csv_records(again[i].tables()[j]),
                    settings.column as nat,
                    settings.windows@.len(),
                    seq![],
                ),
            ),
{
    law_the_same_files_are_grouped_alike(settings, infos, again_infos);
    assert forall|i: int| 0 <= i < groups.len() implies {
        &&& files_of((#[trigger] again[i]).files()) == files_of(groups[i].files())
        &&& again[i].written() == groups[i].written()
        &&& again[i].tables().len() == groups[i].tables().len()
        &&& forall|j: int|
            0 <= j < again[i].tables().len() ==> all_sound(
                csv_records(#[trigger] again[i].tables()[j]),
                settings.column as nat,
                settings.windows@.len(),
                table_width(
                    csv_records(again[i].tables()[j]),
                    settings.column as nat,
                    settings.windows@.len(),
                    seq![],
                ),
            )
    } by {
        assert(groups[i].wf());
        assert(files_of(again[i].files()).len() == files_of(groups[i].files()).len());
        law_converting_a_group_again_changes_nothing::<A>(same, groups[i], again[i]);
    }
}

/// Amounts add up one after the other.
pub proof fn law_amounts_add_up(amounts: Seq<usize>, amount: usize)
    ensures
        total(seq![]) == 0,
        total(amounts.push(amount)) == total(amounts) + amount,
{
    assert(amounts.push(amount).drop_last() =~= amounts);
}

/// The rows of tables are those of each table, in their order, table after
/// table.
pub proof fn law_rows_follow_their_tables(tables: Seq<Seq<u8>>, data: Seq<u8>)
    ensures
        rows_of(seq![]) == Seq::<Seq<Seq<char>>>::empty(),
        rows_of(tables.push(data)) == rows_of(tables) + Seq::new(
            csv_records(data).len(),
            |i: int| csv_records(data)[i]->Ok_0,
        ),
{
    assert(tables.push(data).drop_last() =~= tables);
}

/// The files of a group hold one index, across all of them: where every row of
/// every file has a price in its fifth field, the cell of a window is the
/// fallback before a whole window of changes, counted from the first row of the
/// first file, and from then on the index of all prices up to that row.
pub proof fn law_a_group_holds_one_index<A: Arithmetic>(
    value: spec_fn(A::Number) -> real,
    run: GroupRun<'_, A>,
    closes: Seq<A::Number>,
    column: int,
    index: int,
)
    requires
        is_exact::<A>(value),
        run.wf(),
        closes.len() == rows_of(run.tables()).len(),
        forall|i: int|
            0 <= i < closes.len() ==> #[trigger] spells_in_fifth::<A>(
                rows_of(run.tables())[i],
                closes[i],
            ),
        0 <= column < run.windows().len(),
        run.windows()[column] > 0,
        0 <= index < closes.len(),
    ensures
        ({
            let window = run.windows()[column] as int;
            let row = rows_of(run.tables())[index];
            let cell = run.written().flatten()[index][if row.len() < run.preserved() {
                row.len() + column
            } else {
                run.preserved() + column
            }];
            let gain = average(window, rises(values(value, closes)), index);
            let loss = average(window, falls(values(value, closes)), index);
            &&& index < window ==> cell == run.fallback()
            &&& index >= window && loss == 0 as real && gain == 0 as real ==> cell == "50"@
            &&& index >= window && loss == 0 as real && gain != 0 as real ==> cell == "100"@
            &&& index >= window && loss != 0 as real ==> exists|rsi: A::Number, text: String|
                {
                    &&& #[trigger] call_ensures(A::text, (rsi,), text)
                    &&& cell == text@
                    &&& value(rsi) == 100 as real - (100 as real) / (1 as real + gain / loss)
                }
        }),
{
    law_a_group_is_one_run::<A>(run);
    let start = choose|start: Seq<RsiModel<A::Number>>| #[trigger]
        are_fresh::<A>(run.windows(), start) && is_run::<A>(
            start,
            rows_of(run.tables()),
            run.preserved(),
            run.fallback(),
            run.now(),
            run.written().flatten(),
        );
    law_a_converted_table_holds_wilders_index::<A>(
        value,
        run.windows(),
        start,
        rows_of(run.tables()),
        closes,
        run.preserved(),
        run.fallback(),
        run.now(),
        run.written().flatten(),
        column,
        index,
    );
}

}
