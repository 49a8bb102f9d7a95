//! Wilder's relative strength index, one cell per closing price.
//!
//! The index is written over [`Arithmetic`], the operations of a number type
//! that the caller picks. Every contract speaks of those operations through
//! `call_ensures`: which of them are made, on which operands, and what becomes
//! of their results. Nothing is taken for granted of an operation itself.
use vstd::prelude::*;

verus! {

/// The field that holds the closing price in a kline row.
pub const CLOSE_COLUMN_INDEX: usize = 4;

/// The operations on prices that the index is made of.
pub trait Arithmetic {
    /// A price, a sum of price changes or an average of them.
    type Number: Copy;

    /// The number that a field spells, if it spells one.
    fn parse(text: &str) -> Option<Self::Number>;

    /// The shortest text that spells the number.
    fn text(value: Self::Number) -> String;

    /// The number that equals `count`.
    fn whole(count: usize) -> Self::Number;

    /// Whether the number is neither infinite nor undefined.
    fn is_finite(value: Self::Number) -> bool;

    /// `left == right`.
    fn equal(left: Self::Number, right: Self::Number) -> bool;

    /// The larger of the two.
    fn larger(left: Self::Number, right: Self::Number) -> Self::Number;

    /// `-value`.
    fn negated(value: Self::Number) -> Self::Number;

    /// `left + right`.
    fn plus(left: Self::Number, right: Self::Number) -> Self::Number;

    /// `left - right`.
    fn minus(left: Self::Number, right: Self::Number) -> Self::Number;

    /// `left * right`.
    fn times(left: Self::Number, right: Self::Number) -> Self::Number;

    /// `left / right`.
    fn over(left: Self::Number, right: Self::Number) -> Self::Number;
}

/// `gain` is `max(close - previous, 0)` and `loss` is `max(-(close - previous), 0)`.
pub open spec fn is_move<A: Arithmetic>(
    previous: A::Number,
    close: A::Number,
    gain: A::Number,
    loss: A::Number,
) -> bool {
    exists|zero: A::Number, change: A::Number, fall: A::Number|
        #![trigger call_ensures(A::whole, (0usize,), zero), call_ensures(
            A::minus,
            (close, previous),
            change,
        ), call_ensures(A::negated, (change,), fall)]
        {
            &&& call_ensures(A::whole, (0usize,), zero)
            &&& call_ensures(A::minus, (close, previous), change)
            &&& call_ensures(A::negated, (change,), fall)
            &&& call_ensures(A::larger, (change, zero), gain)
            &&& call_ensures(A::larger, (fall, zero), loss)
        }
}

/// `result` is `((average * (window - 1)) + amount) / window`.
pub open spec fn is_smoothed<A: Arithmetic>(
    window: usize,
    average: A::Number,
    amount: A::Number,
    result: A::Number,
) -> bool {
    exists|
        size: A::Number,
        one: A::Number,
        rest: A::Number,
        weighted: A::Number,
        total: A::Number,
    |
        #![trigger call_ensures(A::whole, (window,), size), call_ensures(
            A::whole,
            (1usize,),
            one,
        ), call_ensures(A::minus, (size, one), rest), call_ensures(
            A::times,
            (average, rest),
            weighted,
        ), call_ensures(A::plus, (weighted, amount), total)]
        {
            &&& call_ensures(A::whole, (window,), size)
            &&& call_ensures(A::whole, (1usize,), one)
            &&& call_ensures(A::minus, (size, one), rest)
            &&& call_ensures(A::times, (average, rest), weighted)
            &&& call_ensures(A::plus, (weighted, amount), total)
            &&& call_ensures(A::over, (total, size), result)
        }
}

/// `result` is `sum / window`.
pub open spec fn is_mean<A: Arithmetic>(
    window: usize,
    sum: A::Number,
    result: A::Number,
) -> bool {
    exists|size: A::Number| #[trigger]
        call_ensures(A::whole, (window,), size) && call_ensures(A::over, (sum, size), result)
}

/// `rsi` is `100 - (100 / (1 + strength))`.
pub open spec fn is_index_of<A: Arithmetic>(strength: A::Number, rsi: A::Number) -> bool {
    exists|hundred: A::Number, one: A::Number, raised: A::Number, share: A::Number|
        #![trigger call_ensures(A::whole, (100usize,), hundred), call_ensures(
            A::whole,
            (1usize,),
            one,
        ), call_ensures(A::plus, (one, strength), raised), call_ensures(
            A::over,
            (hundred, raised),
            share,
        )]
        {
            &&& call_ensures(A::whole, (100usize,), hundred)
            &&& call_ensures(A::whole, (1usize,), one)
            &&& call_ensures(A::plus, (one, strength), raised)
            &&& call_ensures(A::over, (hundred, raised), share)
            &&& call_ensures(A::minus, (hundred, share), rsi)
        }
}

/// `cell` is the index of a finite gain over a finite loss that is not zero:
/// its text, or the fallback where the ratio or the index is not finite.
pub open spec fn is_ratio_cell<A: Arithmetic>(
    average_gain: A::Number,
    average_loss: A::Number,
    fallback: Seq<char>,
    cell: Seq<char>,
) -> bool {
    exists|strength: A::Number, strong: bool|
        #![trigger call_ensures(A::over, (average_gain, average_loss), strength), call_ensures(
            A::is_finite,
            (strength,),
            strong,
        )]
        {
            &&& call_ensures(A::over, (average_gain, average_loss), strength)
            &&& call_ensures(A::is_finite, (strength,), strong)
            &&& if !strong {
                cell == fallback
            } else {
                exists|rsi: A::Number, shown: bool|
                    {
                        &&& #[trigger] is_index_of::<A>(strength, rsi)
                        &&& #[trigger] call_ensures(A::is_finite, (rsi,), shown)
                        &&& if shown {
                            exists|text: String| #[trigger]
                                call_ensures(A::text, (rsi,), text) && cell == text@
                        } else {
                            cell == fallback
                        }
                    }
            }
        }
}

/// `cell` is the index of a finite gain over a finite loss: `50` where neither
/// moved, `100` where nothing was lost, and else what the ratio gives.
pub open spec fn is_finite_cell<A: Arithmetic>(
    average_gain: A::Number,
    average_loss: A::Number,
    fallback: Seq<char>,
    cell: Seq<char>,
) -> bool {
    exists|zero: A::Number, lossless: bool|
        #![trigger call_ensures(A::whole, (0usize,), zero), call_ensures(
            A::equal,
            (average_loss, zero),
            lossless,
        )]
        {
            &&& call_ensures(A::whole, (0usize,), zero)
            &&& call_ensures(A::equal, (average_loss, zero), lossless)
            &&& if lossless {
                exists|gainless: bool| #[trigger]
                    call_ensures(A::equal, (average_gain, zero), gainless) && cell == if gainless {
                        "50"@
                    } else {
                        "100"@
                    }
            } else {
                is_ratio_cell::<A>(average_gain, average_loss, fallback, cell)
            }
        }
}

/// `cell` is what stands in the table for the two averages.
pub open spec fn is_rsi_cell<A: Arithmetic>(
    average_gain: A::Number,
    average_loss: A::Number,
    fallback: Seq<char>,
    cell: Seq<char>,
) -> bool {
    exists|gain_known: bool| #[trigger]
        call_ensures(A::is_finite, (average_gain,), gain_known) && if !gain_known {
            cell == fallback
        } else {
            exists|loss_known: bool| #[trigger]
                call_ensures(A::is_finite, (average_loss,), loss_known) && if !loss_known {
                    cell == fallback
                } else {
                    is_finite_cell::<A>(average_gain, average_loss, fallback, cell)
                }
        }
}

/// The text of the index for an average gain and an average loss.
pub fn format_rsi<A: Arithmetic>(
    average_gain: A::Number,
    average_loss: A::Number,
    fallback: &str,
) -> (cell: String)
    ensures
        is_rsi_cell::<A>(average_gain, average_loss, fallback@, cell@),
{
    if !A::is_finite(average_gain) {
        return fallback.to_owned();
    }
    if !A::is_finite(average_loss) {
        return fallback.to_owned();
    }
    let zero = A::whole(0);
    if A::equal(average_loss, zero) {
        return if A::equal(average_gain, zero) {
            "50".to_owned()
        } else {
            "100".to_owned()
        };
    }
    let strength = A::over(average_gain, average_loss);
    if !A::is_finite(strength) {
        return fallback.to_owned();
    }
    let hundred = A::whole(100);
    let raised = A::plus(A::whole(1), strength);
    let rsi = A::minus(hundred, A::over(hundred, raised));
    assert(is_index_of::<A>(strength, rsi));
    if !A::is_finite(rsi) {
        return fallback.to_owned();
    }
    A::text(rsi)
}

/// What one RSI column remembers between rows.
pub struct RsiState<A: Arithmetic> {
    window: usize,
    last_close: Option<A::Number>,
    seed_count: usize,
    seed_gain_sum: A::Number,
    seed_loss_sum: A::Number,
    average_gain: Option<A::Number>,
    average_loss: Option<A::Number>,
}

/// The parts of an [`RsiState`], for contracts.
#[verifier::ext_equal]
pub struct RsiModel<N> {
    /// How many price changes an average covers.
    pub window: nat,
    /// The last usable closing price.
    pub last_close: Option<N>,
    /// How many changes the seed sums hold.
    pub seed_count: nat,
    /// The sum of the gains among them.
    pub seed_gain_sum: N,
    /// The sum of the losses among them.
    pub seed_loss_sum: N,
    /// The average gain and the average loss, once the seed is complete.
    pub averages: Option<(N, N)>,
}

impl<A: Arithmetic> View for RsiState<A> {
    type V = RsiModel<A::Number>;

    closed spec fn view(&self) -> RsiModel<A::Number> {
        RsiModel {
            window: self.window as nat,
            last_close: self.last_close,
            seed_count: self.seed_count as nat,
            seed_gain_sum: self.seed_gain_sum,
            seed_loss_sum: self.seed_loss_sum,
            averages: match (self.average_gain, self.average_loss) {
                (Some(gain), Some(loss)) => Some((gain, loss)),
                _ => None,
            },
        }
    }
}

/// `fresh` remembers nothing: no price, no change, no average.
pub open spec fn is_fresh<A: Arithmetic>(window: nat, fresh: RsiModel<A::Number>) -> bool {
    &&& fresh.window == window
    &&& fresh.last_close is None
    &&& fresh.seed_count == 0
    &&& fresh.averages is None
    &&& call_ensures(A::whole, (0usize,), fresh.seed_gain_sum)
    &&& call_ensures(A::whole, (0usize,), fresh.seed_loss_sum)
}

/// What a change of price makes of a state whose averages stand.
pub open spec fn is_smoothing_step<A: Arithmetic>(
    before: RsiModel<A::Number>,
    close: A::Number,
    gain: A::Number,
    loss: A::Number,
    fallback: Seq<char>,
    after: RsiModel<A::Number>,
    cell: Seq<char>,
) -> bool {
    &&& before.averages matches Some((old_gain, old_loss))
    &&& after.averages matches Some((new_gain, new_loss))
    &&& is_smoothed::<A>(before.window as usize, old_gain, gain, new_gain)
    &&& is_smoothed::<A>(before.window as usize, old_loss, loss, new_loss)
    &&& is_rsi_cell::<A>(new_gain, new_loss, fallback, cell)
    &&& after == (RsiModel { last_close: Some(close), averages: after.averages, ..before })
}

/// What a change of price makes of a state whose seed is not complete: the
/// change joins the seed sums, and the change that completes the seed turns
/// them into the first averages.
pub open spec fn is_seeding_step<A: Arithmetic>(
    before: RsiModel<A::Number>,
    close: A::Number,
    gain: A::Number,
    loss: A::Number,
    fallback: Seq<char>,
    after: RsiModel<A::Number>,
    cell: Seq<char>,
) -> bool {
    &&& before.averages is None
    &&& call_ensures(A::plus, (before.seed_gain_sum, gain), after.seed_gain_sum)
    &&& call_ensures(A::plus, (before.seed_loss_sum, loss), after.seed_loss_sum)
    &&& after == (RsiModel {
        last_close: Some(close),
        seed_count: before.seed_count + 1,
        seed_gain_sum: after.seed_gain_sum,
        seed_loss_sum: after.seed_loss_sum,
        averages: after.averages,
        ..before
    })
    &&& if before.seed_count + 1 < before.window {
        after.averages is None && cell == fallback
    } else {
        &&& after.averages matches Some((new_gain, new_loss))
        &&& is_mean::<A>(before.window as usize, after.seed_gain_sum, new_gain)
        &&& is_mean::<A>(before.window as usize, after.seed_loss_sum, new_loss)
        &&& is_rsi_cell::<A>(new_gain, new_loss, fallback, cell)
    }
}

/// What a usable closing price makes of a state, and the cell it gives.
pub open spec fn is_price_step<A: Arithmetic>(
    before: RsiModel<A::Number>,
    close: A::Number,
    fallback: Seq<char>,
    after: RsiModel<A::Number>,
    cell: Seq<char>,
) -> bool {
    match before.last_close {
        None => {
            &&& after == (RsiModel { last_close: Some(close), ..before })
            &&& cell == fallback
        },
        Some(previous) => exists|gain: A::Number, loss: A::Number|
            {
                &&& #[trigger] is_move::<A>(previous, close, gain, loss)
                &&& if before.averages is Some {
                    is_smoothing_step::<A>(before, close, gain, loss, fallback, after, cell)
                } else {
                    is_seeding_step::<A>(before, close, gain, loss, fallback, after, cell)
                }
            },
    }
}

/// What a row makes of a state, and the cell it gives. A row without a finite
/// closing price leaves the state as it is and gives the fallback.
pub open spec fn is_step<A: Arithmetic>(
    before: RsiModel<A::Number>,
    close: Option<A::Number>,
    fallback: Seq<char>,
    after: RsiModel<A::Number>,
    cell: Seq<char>,
) -> bool {
    match close {
        None => after == before && cell == fallback,
        Some(price) => exists|usable: bool| #[trigger]
            call_ensures(A::is_finite, (price,), usable) && if usable {
                is_price_step::<A>(before, price, fallback, after, cell)
            } else {
                after == before && cell == fallback
            },
    }
}

/// The gain and the loss from one closing price to the next.
fn split_change<A: Arithmetic>(previous: A::Number, close: A::Number) -> (moved: (
    A::Number,
    A::Number,
))
    ensures
        is_move::<A>(previous, close, moved.0, moved.1),
{
    let zero = A::whole(0);
    let change = A::minus(close, previous);
    let gain = A::larger(change, zero);
    let fall = A::negated(change);
    (gain, A::larger(fall, zero))
}

/// Wilder's next average.
fn smooth<A: Arithmetic>(window: usize, average: A::Number, amount: A::Number) -> (result:
    A::Number)
    ensures
        is_smoothed::<A>(window, average, amount, result),
{
    let size = A::whole(window);
    let rest = A::minus(size, A::whole(1));
    A::over(A::plus(A::times(average, rest), amount), size)
}

/// The first average, from the sum of the seed.
fn mean<A: Arithmetic>(window: usize, sum: A::Number) -> (result: A::Number)
    ensures
        is_mean::<A>(window, sum, result),
{
    A::over(sum, A::whole(window))
}

impl<A: Arithmetic> RsiState<A> {
    /// The averages stand together, and before they do the seed has room.
    pub closed spec fn wf(&self) -> bool {
        &&& self.average_gain is Some <==> self.average_loss is Some
        &&& self.average_gain is None ==> self.seed_count == 0 || self.seed_count < self.window
    }

    /// A state that has seen no price.
    pub fn new(window: usize) -> (state: Self)
        ensures
            state.wf(),
            is_fresh::<A>(window as nat, state@),
    {
        RsiState {
            window,
            last_close: None,
            seed_count: 0,
            seed_gain_sum: A::whole(0),
            seed_loss_sum: A::whole(0),
            average_gain: None,
            average_loss: None,
        }
    }

    /// Takes the closing price of the next row and gives that row's cell.
    pub fn next_cell(&mut self, close: Option<A::Number>, fallback: &str) -> (cell: String)
        requires
            old(self).wf(),
        ensures
            final(self).wf(),
            is_step::<A>(old(self)@, close, fallback@, final(self)@, cell@),
    {
        let close = match close {
            Some(price) => price,
            None => {
                return fallback.to_owned();
            },
        };
        if !A::is_finite(close) {
            return fallback.to_owned();
        }
        let previous = match self.last_close {
            Some(previous) => previous,
            None => {
                self.last_close = Some(close);
                return fallback.to_owned();
            },
        };
        self.last_close = Some(close);
        let (gain, loss) = split_change::<A>(previous, close);
        let (next_gain, next_loss) = match (self.average_gain, self.average_loss) {
            (Some(average_gain), Some(average_loss)) => (
                smooth::<A>(self.window, average_gain, gain),
                smooth::<A>(self.window, average_loss, loss),
            ),
            _ => {
                self.seed_count += 1;
                self.seed_gain_sum = A::plus(self.seed_gain_sum, gain);
                self.seed_loss_sum = A::plus(self.seed_loss_sum, loss);
                if self.seed_count < self.window {
                    return fallback.to_owned();
                }
                (
                    mean::<A>(self.window, self.seed_gain_sum),
                    mean::<A>(self.window, self.seed_loss_sum),
                )
            },
        };
        self.average_gain = Some(next_gain);
        self.average_loss = Some(next_loss);
        format_rsi::<A>(next_gain, next_loss, fallback)
    }
}

/// `close` is the closing price of a row: what its close field spells, where
/// that is a finite number.
pub open spec fn is_close_of<A: Arithmetic>(
    row: Seq<Seq<char>>,
    close: Option<A::Number>,
) -> bool {
    if row.len() <= CLOSE_COLUMN_INDEX {
        close is None
    } else {
        exists|field: &str, parsed: Option<A::Number>|
            {
                &&& field@ == row[CLOSE_COLUMN_INDEX as int]
                &&& #[trigger] call_ensures(A::parse, (field,), parsed)
                &&& match parsed {
                    None => close is None,
                    Some(price) => exists|usable: bool| #[trigger]
                        call_ensures(A::is_finite, (price,), usable) && close == if usable {
                            parsed
                        } else {
                            None
                        },
                }
            }
    }
}

/// The closing price of a row, where it has one that is finite.
pub fn parse_close<A: Arithmetic>(record: &[String]) -> (close: Option<A::Number>)
    ensures
        is_close_of::<A>(record.deep_view(), close),
{
    if record.len() <= CLOSE_COLUMN_INDEX {
        return None;
    }
    let field = record[CLOSE_COLUMN_INDEX].as_str();
    match A::parse(field) {
        Some(price) => if A::is_finite(price) {
            Some(price)
        } else {
            None
        },
        None => None,
    }
}

/// `states` holds the states before the first price, between the prices and
/// after the last, and `cells` the cells that the prices give.
pub open spec fn is_price_trace<A: Arithmetic>(
    states: Seq<RsiModel<A::Number>>,
    closes: Seq<A::Number>,
    fallback: Seq<char>,
    cells: Seq<Seq<char>>,
) -> bool {
    &&& states.len() == closes.len() + 1
    &&& cells.len() == closes.len()
    &&& forall|i: int| #![trigger closes[i]]
        0 <= i < closes.len() ==> is_price_step::<A>(
            states[i],
            closes[i],
            fallback,
            states[i + 1],
            cells[i],
        )
}

/// When a column starts: the first cell that is not the fallback can come with
/// the price that completes a whole window of changes, which is the price
/// behind as many prices as the window counts. From then on every price has
/// averages, and its cell is theirs.
pub proof fn law_a_window_of_prices_comes_first<A: Arithmetic>(
    window: nat,
    states: Seq<RsiModel<A::Number>>,
    closes: Seq<A::Number>,
    fallback: Seq<char>,
    cells: Seq<Seq<char>>,
    index: int,
)
    requires
        is_price_trace::<A>(states, closes, fallback, cells),
        is_fresh::<A>(window, states[0]),
        0 <= index < closes.len(),
        window > 0,
    ensures
        index < window ==> cells[index] == fallback && states[index + 1].averages is None,
        index >= window ==> (states[index + 1].averages matches Some((gain, loss))
            && is_rsi_cell::<A>(gain, loss, fallback, cells[index])),
{
    lemma_phase::<A>(window, states, closes, fallback, cells, index);
    assert(is_price_step::<A>(
        states[index],
        closes[index],
        fallback,
        states[index + 1],
        cells[index],
    ));
}

/// Where a state stands after `index` prices.
proof fn lemma_phase<A: Arithmetic>(
    window: nat,
    states: Seq<RsiModel<A::Number>>,
    closes: Seq<A::Number>,
    fallback: Seq<char>,
    cells: Seq<Seq<char>>,
    index: int,
)
    requires
        is_price_trace::<A>(states, closes, fallback, cells),
        is_fresh::<A>(window, states[0]),
        0 <= index <= closes.len(),
        window > 0,
    ensures
        states[index].window == window,
        states[index].last_close is Some <==> index > 0,
        states[index].averages is Some <==> index > window,
        0 < index <= window ==> states[index].seed_count == index - 1,
        index == 0 ==> states[index].seed_count == 0,
    decreases index,
{
    if index > 0 {
        lemma_phase::<A>(window, states, closes, fallback, cells, index - 1);
        assert(is_price_step::<A>(
            states[index - 1],
            closes[index - 1],
            fallback,
            states[index],
            cells[index - 1],
        ));
    }
}

/// Once the averages stand, each price moves them by Wilder's formula:
/// `average' = ((average * (window - 1)) + amount) / window`, with the gain of
/// the price for the one and its loss for the other.
pub proof fn law_averages_are_smoothed<A: Arithmetic>(
    before: RsiModel<A::Number>,
    close: A::Number,
    fallback: Seq<char>,
    after: RsiModel<A::Number>,
    cell: Seq<char>,
)
    requires
        is_price_step::<A>(before, close, fallback, after, cell),
        before.averages is Some,
        before.last_close is Some,
    ensures
        after.window == before.window,
        after.last_close == Some(close),
        exists|gain: A::Number, loss: A::Number|
            {
                &&& #[trigger] is_move::<A>(before.last_close->0, close, gain, loss)
                &&& after.averages matches Some((new_gain, new_loss))
                &&& is_smoothed::<A>(before.window as usize, (before.averages->0).0, gain, new_gain)
                &&& is_smoothed::<A>(before.window as usize, (before.averages->0).1, loss, new_loss)
            },
{
}

/// A row without a finite closing price is passed over: the state stays as it
/// is, and the cell is the fallback.
pub proof fn law_an_unusable_close_changes_nothing<A: Arithmetic>(
    before: RsiModel<A::Number>,
    close: Option<A::Number>,
    fallback: Seq<char>,
    after: RsiModel<A::Number>,
    cell: Seq<char>,
)
    requires
        is_step::<A>(before, close, fallback, after, cell),
        close matches Some(price) ==> !call_ensures(A::is_finite, (price,), true),
    ensures
        after == before,
        cell == fallback,
{
}

/// The first finite closing price is remembered, and nothing else changes.
pub proof fn law_the_first_price_is_remembered<A: Arithmetic>(
    before: RsiModel<A::Number>,
    price: A::Number,
    fallback: Seq<char>,
    after: RsiModel<A::Number>,
    cell: Seq<char>,
)
    requires
        is_step::<A>(before, Some(price), fallback, after, cell),
        !call_ensures(A::is_finite, (price,), false),
        before.last_close is None,
    ensures
        after.last_close == Some(price),
        after.window == before.window,
        after.seed_count == before.seed_count,
        after.seed_gain_sum == before.seed_gain_sum,
        after.seed_loss_sum == before.seed_loss_sum,
        after.averages == before.averages,
        cell == fallback,
{
}

/// Before the averages stand, each finite closing price adds
/// `max(price - previous, 0)` to the one sum and `max(-(price - previous), 0)`
/// to the other. The change that makes the window whole turns the sums into the
/// averages `sum / window`; before it the cell is the fallback.
pub proof fn law_a_price_joins_the_seed<A: Arithmetic>(
    before: RsiModel<A::Number>,
    price: A::Number,
    fallback: Seq<char>,
    after: RsiModel<A::Number>,
    cell: Seq<char>,
)
    requires
        is_step::<A>(before, Some(price), fallback, after, cell),
        !call_ensures(A::is_finite, (price,), false),
        before.last_close is Some,
        before.averages is None,
    ensures
        after.last_close == Some(price),
        after.window == before.window,
        after.seed_count == before.seed_count + 1,
        exists|zero: A::Number, change: A::Number, gain: A::Number|
            {
                &&& #[trigger] call_ensures(A::whole, (0usize,), zero)
                &&& #[trigger] call_ensures(A::minus, (price, before.last_close->0), change)
                &&& #[trigger] call_ensures(A::larger, (change, zero), gain)
                &&& call_ensures(A::plus, (before.seed_gain_sum, gain), after.seed_gain_sum)
            },
        exists|zero: A::Number, change: A::Number, fall: A::Number, loss: A::Number|
            {
                &&& #[trigger] call_ensures(A::whole, (0usize,), zero)
                &&& #[trigger] call_ensures(A::minus, (price, before.last_close->0), change)
                &&& #[trigger] call_ensures(A::negated, (change,), fall)
                &&& #[trigger] call_ensures(A::larger, (fall, zero), loss)
                &&& call_ensures(A::plus, (before.seed_loss_sum, loss), after.seed_loss_sum)
            },
        before.seed_count + 1 < before.window ==> after.averages is None && cell == fallback,
        before.seed_count + 1 >= before.window ==> {
            &&& after.averages matches Some((gain, loss))
            &&& exists|size: A::Number| #[trigger]
                call_ensures(A::whole, (before.window as usize,), size) && call_ensures(
                    A::over,
                    (after.seed_gain_sum, size),
                    gain,
                )
            &&& exists|size: A::Number| #[trigger]
                call_ensures(A::whole, (before.window as usize,), size) && call_ensures(
                    A::over,
                    (after.seed_loss_sum, size),
                    loss,
                )
            &&& is_rsi_cell::<A>(gain, loss, fallback, cell)
        },
{
    let previous = before.last_close->0;
    let (gain, loss) = choose|gain: A::Number, loss: A::Number|
        {
            &&& #[trigger] is_move::<A>(previous, price, gain, loss)
            &&& is_seeding_step::<A>(before, price, gain, loss, fallback, after, cell)
        };
    assert(is_move::<A>(previous, price, gain, loss));
}

/// Once the averages stand, each finite closing price gives new ones:
/// `((average * (window - 1)) + gain) / window` with the gain
/// `max(price - previous, 0)`, and the same with the loss
/// `max(-(price - previous), 0)`.
pub proof fn law_a_price_smooths_the_averages<A: Arithmetic>(
    before: RsiModel<A::Number>,
    price: A::Number,
    fallback: Seq<char>,
    after: RsiModel<A::Number>,
    cell: Seq<char>,
)
    requires
        is_step::<A>(before, Some(price), fallback, after, cell),
        !call_ensures(A::is_finite, (price,), false),
        before.last_close is Some,
        before.averages is Some,
    ensures
        after.last_close == Some(price),
        after.window == before.window,
        after.averages matches Some((gain, loss)) && is_rsi_cell::<A>(gain, loss, fallback, cell),
        exists|
            zero: A::Number,
            change: A::Number,
            gain: A::Number,
            size: A::Number,
            one: A::Number,
            rest: A::Number,
            weighted: A::Number,
            total: A::Number,
        |
            {
                &&& #[trigger] call_ensures(A::whole, (0usize,), zero)
                &&& #[trigger] call_ensures(A::minus, (price, before.last_close->0), change)
                &&& #[trigger] call_ensures(A::larger, (change, zero), gain)
                &&& #[trigger] call_ensures(A::whole, (before.window as usize,), size)
                &&& #[trigger] call_ensures(A::whole, (1usize,), one)
                &&& #[trigger] call_ensures(A::minus, (size, one), rest)
                &&& #[trigger] call_ensures(A::times, ((before.averages->0).0, rest), weighted)
                &&& #[trigger] call_ensures(A::plus, (weighted, gain), total)
                &&& call_ensures(A::over, (total, size), (after.averages->0).0)
            },
        exists|
            zero: A::Number,
            change: A::Number,
            fall: A::Number,
            loss: A::Number,
            size: A::Number,
            one: A::Number,
            rest: A::Number,
            weighted: A::Number,
            total: A::Number,
        |
            {
                &&& #[trigger] call_ensures(A::whole, (0usize,), zero)
                &&& #[trigger] call_ensures(A::minus, (price, before.last_close->0), change)
                &&& #[trigger] call_ensures(A::negated, (change,), fall)
                &&& #[trigger] call_ensures(A::larger, (fall, zero), loss)
                &&& #[trigger] call_ensures(A::whole, (before.window as usize,), size)
                &&& #[trigger] call_ensures(A::whole, (1usize,), one)
                &&& #[trigger] call_ensures(A::minus, (size, one), rest)
                &&& #[trigger] call_ensures(A::times, ((before.averages->0).1, rest), weighted)
                &&& #[trigger] call_ensures(A::plus, (weighted, loss), total)
                &&& call_ensures(A::over, (total, size), (after.averages->0).1)
            },
{
    let previous = before.last_close->0;
    let (gain, loss) = choose|gain: A::Number, loss: A::Number|
        {
            &&& #[trigger] is_move::<A>(previous, price, gain, loss)
            &&& is_smoothing_step::<A>(before, price, gain, loss, fallback, after, cell)
        };
    assert(is_move::<A>(previous, price, gain, loss));
    let window = before.window as usize;
    assert(is_smoothed::<A>(window, (before.averages->0).0, gain, (after.averages->0).0));
    assert(is_smoothed::<A>(window, (before.averages->0).1, loss, (after.averages->0).1));
}

/// What stands in the table for two averages, case by case: the fallback where
/// one of them is not finite, `50` where both are zero, `100` where only the
/// loss is, and else the text of `100 - (100 / (1 + gain / loss))`, or the
/// fallback where the ratio or that number is not finite.
pub proof fn law_a_cell_shows_the_index<A: Arithmetic>(
    gain: A::Number,
    loss: A::Number,
    fallback: Seq<char>,
    cell: Seq<char>,
)
    requires
        is_rsi_cell::<A>(gain, loss, fallback, cell),
    ensures
        !call_ensures(A::is_finite, (gain,), true) ==> cell == fallback,
        !call_ensures(A::is_finite, (loss,), true) ==> cell == fallback,
        ({
            ||| cell == fallback && call_ensures(A::is_finite, (gain,), false)
            ||| cell == fallback && call_ensures(A::is_finite, (loss,), false)
            ||| exists|zero: A::Number|
                {
                    &&& #[trigger] call_ensures(A::whole, (0usize,), zero)
                    &&& call_ensures(A::equal, (loss, zero), true)
                    &&& call_ensures(A::equal, (gain, zero), true)
                    &&& cell == "50"@
                }
            ||| exists|zero: A::Number|
                {
                    &&& #[trigger] call_ensures(A::whole, (0usize,), zero)
                    &&& call_ensures(A::equal, (loss, zero), true)
                    &&& call_ensures(A::equal, (gain, zero), false)
                    &&& cell == "100"@
                }
            ||| exists|zero: A::Number, strength: A::Number|
                {
                    &&& #[trigger] call_ensures(A::whole, (0usize,), zero)
                    &&& call_ensures(A::equal, (loss, zero), false)
                    &&& #[trigger] call_ensures(A::over, (gain, loss), strength)
                    &&& call_ensures(A::is_finite, (strength,), false)
                    &&& cell == fallback
                }
            ||| exists|
                zero: A::Number,
                strength: A::Number,
                hundred: A::Number,
                one: A::Number,
                raised: A::Number,
                share: A::Number,
                rsi: A::Number,
            |
                {
                    &&& #[trigger] call_ensures(A::whole, (0usize,), zero)
                    &&& call_ensures(A::equal, (loss, zero), false)
                    &&& #[trigger] call_ensures(A::over, (gain, loss), strength)
                    &&& call_ensures(A::is_finite, (strength,), true)
                    &&& #[trigger] call_ensures(A::whole, (100usize,), hundred)
                    &&& #[trigger] call_ensures(A::whole, (1usize,), one)
                    &&& #[trigger] call_ensures(A::plus, (one, strength), raised)
                    &&& #[trigger] call_ensures(A::over, (hundred, raised), share)
                    &&& #[trigger] call_ensures(A::minus, (hundred, share), rsi)
                    &&& {
                        ||| cell == fallback && call_ensures(A::is_finite, (rsi,), false)
                        ||| call_ensures(A::is_finite, (rsi,), true) && exists|text: String|
                            #[trigger]
                            call_ensures(A::text, (rsi,), text) && cell == text@
                    }
                }
        }),
{
}

/// `averages` are Wilder's averages of `amounts`, each of which belongs to one
/// price and the one before it. `sums` adds the amounts up from the left; the
/// first average, at the price behind a window of prices, is their mean, and
/// each later one is smoothed from the one before.
pub open spec fn is_wilder_average<A: Arithmetic>(
    window: nat,
    amounts: Seq<A::Number>,
    sums: Seq<A::Number>,
    averages: Seq<A::Number>,
) -> bool {
    &&& sums.len() == amounts.len()
    &&& averages.len() == amounts.len()
    &&& amounts.len() > 0 ==> call_ensures(A::whole, (0usize,), sums[0])
    &&& forall|i: int| #![trigger amounts[i]]
        1 <= i < amounts.len() && i <= window ==> call_ensures(
            A::plus,
            (sums[i - 1], amounts[i]),
            sums[i],
        )
    &&& window < amounts.len() ==> is_mean::<A>(
        window as usize,
        sums[window as int],
        averages[window as int],
    )
    &&& forall|i: int| #![trigger amounts[i]]
        window < i < amounts.len() ==> is_smoothed::<A>(
            window as usize,
            averages[i - 1],
            amounts[i],
            averages[i],
        )
}

/// The gains and losses of a run of prices, their sums and averages, and the
/// cells that come of them.
pub struct WilderChain<N> {
    /// The gain at each price but the first.
    pub gains: Seq<N>,
    /// The loss at each price but the first.
    pub losses: Seq<N>,
    /// The gains added up.
    pub gain_sums: Seq<N>,
    /// The losses added up.
    pub loss_sums: Seq<N>,
    /// The average gains.
    pub average_gains: Seq<N>,
    /// The average losses.
    pub average_losses: Seq<N>,
}

/// `cells` are the cells of a fresh column over `closes`: the fallback for a
/// window of prices, and from then on the index of Wilder's averages.
pub open spec fn is_wilder_column<A: Arithmetic>(
    window: nat,
    closes: Seq<A::Number>,
    fallback: Seq<char>,
    cells: Seq<Seq<char>>,
    chain: WilderChain<A::Number>,
) -> bool {
    &&& chain.gains.len() == closes.len()
    &&& chain.losses.len() == closes.len()
    &&& cells.len() == closes.len()
    &&& forall|i: int| #![trigger closes[i]]
        1 <= i < closes.len() ==> is_move::<A>(
            closes[i - 1],
            closes[i],
            chain.gains[i],
            chain.losses[i],
        )
    &&& is_wilder_average::<A>(window, chain.gains, chain.gain_sums, chain.average_gains)
    &&& is_wilder_average::<A>(window, chain.losses, chain.loss_sums, chain.average_losses)
    &&& forall|i: int| #![trigger cells[i]]
        0 <= i < cells.len() ==> if i < window {
            cells[i] == fallback
        } else {
            is_rsi_cell::<A>(chain.average_gains[i], chain.average_losses[i], fallback, cells[i])
        }
}

/// A gain and a loss by which a step goes from one state to the next.
spec fn moved<A: Arithmetic>(
    before: RsiModel<A::Number>,
    close: A::Number,
    fallback: Seq<char>,
    after: RsiModel<A::Number>,
    cell: Seq<char>,
) -> (A::Number, A::Number) {
    choose|gain: A::Number, loss: A::Number|
        {
            &&& #[trigger] is_move::<A>(before.last_close->0, close, gain, loss)
            &&& if before.averages is Some {
                is_smoothing_step::<A>(before, close, gain, loss, fallback, after, cell)
            } else {
                is_seeding_step::<A>(before, close, gain, loss, fallback, after, cell)
            }
        }
}

/// What happens at one price but the first: the sums go on while the seed is
/// not complete, the price that completes it sets the averages, and each later
/// one smooths them.
proof fn lemma_link<A: Arithmetic>(
    window: nat,
    states: Seq<RsiModel<A::Number>>,
    closes: Seq<A::Number>,
    fallback: Seq<char>,
    cells: Seq<Seq<char>>,
    i: int,
)
    requires
        is_price_trace::<A>(states, closes, fallback, cells),
        is_fresh::<A>(window, states[0]),
        window > 0,
        1 <= i < closes.len(),
    ensures
        ({
            let (gain, loss) = moved::<A>(
                states[i],
                closes[i],
                fallback,
                states[i + 1],
                cells[i],
            );
            let before = states[i];
            let after = states[i + 1];
            let size = window as usize;
            &&& is_move::<A>(closes[i - 1], closes[i], gain, loss)
            &&& i <= window ==> {
                &&& call_ensures(A::plus, (before.seed_gain_sum, gain), after.seed_gain_sum)
                &&& call_ensures(A::plus, (before.seed_loss_sum, loss), after.seed_loss_sum)
            }
            &&& i == window ==> {
                &&& is_mean::<A>(size, after.seed_gain_sum, (after.averages->0).0)
                &&& is_mean::<A>(size, after.seed_loss_sum, (after.averages->0).1)
            }
            &&& i > window ==> {
                &&& is_smoothed::<A>(
                    size,
                    (before.averages->0).0,
                    gain,
                    (after.averages->0).0,
                )
                &&& is_smoothed::<A>(
                    size,
                    (before.averages->0).1,
                    loss,
                    (after.averages->0).1,
                )
            }
        }),
{
    lemma_phase::<A>(window, states, closes, fallback, cells, i - 1);
    lemma_phase::<A>(window, states, closes, fallback, cells, i);
    assert(is_price_step::<A>(states[i - 1], closes[i - 1], fallback, states[i], cells[i - 1]));
    assert(states[i].last_close == Some(closes[i - 1]));
    assert(is_price_step::<A>(states[i], closes[i], fallback, states[i + 1], cells[i]));
}

/// What a fresh column makes of prices, as a whole: the mean of the first
/// changes as a seed and Wilder's smoothing from there on.
pub proof fn law_a_fresh_column_is_wilders<A: Arithmetic>(
    window: nat,
    states: Seq<RsiModel<A::Number>>,
    closes: Seq<A::Number>,
    fallback: Seq<char>,
    cells: Seq<Seq<char>>,
)
    requires
        is_price_trace::<A>(states, closes, fallback, cells),
        is_fresh::<A>(window, states[0]),
        window > 0,
    ensures
        exists|chain: WilderChain<A::Number>|
            is_wilder_column::<A>(window, closes, fallback, cells, chain),
{
    let n = closes.len();
    let change = |i: int| moved::<A>(states[i], closes[i], fallback, states[i + 1], cells[i]);
    let gains = Seq::new(n, |i: int| change(i).0);
    let losses = Seq::new(n, |i: int| change(i).1);
    let gain_sums = Seq::new(n, |i: int| states[i + 1].seed_gain_sum);
    let loss_sums = Seq::new(n, |i: int| states[i + 1].seed_loss_sum);
    let average_gains = Seq::new(n, |i: int| (states[i + 1].averages->0).0);
    let average_losses = Seq::new(n, |i: int| (states[i + 1].averages->0).1);
    let chain = WilderChain {
        gains,
        losses,
        gain_sums,
        loss_sums,
        average_gains,
        average_losses,
    };
    if n > 0 {
        assert(is_price_step::<A>(states[0], closes[0], fallback, states[1], cells[0]));
    }
    assert(is_wilder_average::<A>(window, gains, gain_sums, average_gains)) by {
        assert forall|i: int| #![trigger gains[i]] 1 <= i < n && i <= window implies call_ensures(
            A::plus,
            (gain_sums[i - 1], gains[i]),
            gain_sums[i],
        ) by {
            lemma_link::<A>(window, states, closes, fallback, cells, i);
        }
        assert forall|i: int| #![trigger gains[i]] window < i < n implies is_smoothed::<A>(
            window as usize,
            average_gains[i - 1],
            gains[i],
            average_gains[i],
        ) by {
            lemma_link::<A>(window, states, closes, fallback, cells, i);
        }
        if window < n {
            lemma_link::<A>(window, states, closes, fallback, cells, window as int);
        }
    }
    assert(is_wilder_average::<A>(window, losses, loss_sums, average_losses)) by {
        assert forall|i: int| #![trigger losses[i]] 1 <= i < n && i <= window implies call_ensures(
            A::plus,
            (loss_sums[i - 1], losses[i]),
            loss_sums[i],
        ) by {
            lemma_link::<A>(window, states, closes, fallback, cells, i);
        }
        assert forall|i: int| #![trigger losses[i]] window < i < n implies is_smoothed::<A>(
            window as usize,
            average_losses[i - 1],
            losses[i],
            average_losses[i],
        ) by {
            lemma_link::<A>(window, states, closes, fallback, cells, i);
        }
        if window < n {
            lemma_link::<A>(window, states, closes, fallback, cells, window as int);
        }
    }
    assert(is_wilder_column::<A>(window, closes, fallback, cells, chain)) by {
        assert forall|i: int| #![trigger closes[i]] 1 <= i < n implies is_move::<A>(
            closes[i - 1],
            closes[i],
            gains[i],
            losses[i],
        ) by {
            lemma_link::<A>(window, states, closes, fallback, cells, i);
        }
        assert forall|i: int| #![trigger cells[i]] 0 <= i < n implies if i < window {
            cells[i] == fallback
        } else {
            is_rsi_cell::<A>(average_gains[i], average_losses[i], fallback, cells[i])
        } by {
            law_a_window_of_prices_comes_first::<A>(window, states, closes, fallback, cells, i);
        }
    }
}

/// `cell` is the text of a number: of an index that is finite, or of one of the
/// two that need no division.
pub open spec fn is_number_cell<A: Arithmetic>(cell: Seq<char>) -> bool {
    ||| cell == "50"@
    ||| cell == "100"@
    ||| exists|rsi: A::Number, text: String|
        {
            &&& call_ensures(A::is_finite, (rsi,), true)
            &&& #[trigger] call_ensures(A::text, (rsi,), text)
            &&& cell == text@
        }
}

/// One of the two averages, their ratio or its index is not finite.
pub open spec fn is_not_finite<A: Arithmetic>(gain: A::Number, loss: A::Number) -> bool {
    ||| call_ensures(A::is_finite, (gain,), false)
    ||| call_ensures(A::is_finite, (loss,), false)
    ||| exists|strength: A::Number| #[trigger]
        call_ensures(A::over, (gain, loss), strength) && (call_ensures(
            A::is_finite,
            (strength,),
            false,
        ) || exists|rsi: A::Number| #[trigger]
            is_index_of::<A>(strength, rsi) && call_ensures(A::is_finite, (rsi,), false))
}

/// Once the averages stand, the cell is the text of a number; the fallback
/// comes only where something is not finite.
pub proof fn law_finite_averages_give_a_number<A: Arithmetic>(
    gain: A::Number,
    loss: A::Number,
    fallback: Seq<char>,
    cell: Seq<char>,
)
    requires
        is_rsi_cell::<A>(gain, loss, fallback, cell),
    ensures
        is_number_cell::<A>(cell) || cell == fallback && is_not_finite::<A>(gain, loss),
{
}

/// Which cells of a fresh column are numbers: none before a whole window of
/// changes, and from there on every one, unless an average of the prices so
/// far, the ratio of the two or its index is not finite. Whether prices can
/// bring that about is a matter of the arithmetic.
pub proof fn law_a_full_window_gives_numbers<A: Arithmetic>(
    window: nat,
    states: Seq<RsiModel<A::Number>>,
    closes: Seq<A::Number>,
    fallback: Seq<char>,
    cells: Seq<Seq<char>>,
    index: int,
)
    requires
        is_price_trace::<A>(states, closes, fallback, cells),
        is_fresh::<A>(window, states[0]),
        0 <= index < closes.len(),
        window > 0,
    ensures
        index < window ==> cells[index] == fallback,
        index >= window ==> {
            ||| is_number_cell::<A>(cells[index])
            ||| {
                &&& cells[index] == fallback
                &&& states[index + 1].averages matches Some((gain, loss))
                &&& is_not_finite::<A>(gain, loss)
            }
        },
{
    law_a_window_of_prices_comes_first::<A>(window, states, closes, fallback, cells, index);
    if index >= window {
        let (gain, loss) = states[index + 1].averages->0;
        law_finite_averages_give_a_number::<A>(gain, loss, fallback, cells[index]);
    }
}

/// Both are there and alike, or neither is there.
pub open spec fn are_alike<N>(
    same: spec_fn(N, N) -> bool,
    left: Option<N>,
    right: Option<N>,
) -> bool {
    match (left, right) {
        (Some(a), Some(b)) => same(a, b),
        (None, None) => true,
        _ => false,
    }
}

/// Operations on numbers that are alike give numbers that are alike, and what
/// is decided and shown of them is the same.
///
/// `same` need not be equality. The contracts of `f64` leave open which of the
/// two zeros `max` returns and what bits a NaN has; there two numbers are alike
/// if they compare equal or are both NaN. Division is asked about only by one
/// and the same divisor and by one that is not zero, and a text only of an
/// index, because the two zeros divide and show differently.
pub open spec fn gives_like_results<A: Arithmetic>(
    same: spec_fn(A::Number, A::Number) -> bool,
) -> bool {
    &&& forall|left: &str, right: &str, a: Option<A::Number>, b: Option<A::Number>|
        #![trigger call_ensures(A::parse, (left,), a), call_ensures(A::parse, (right,), b)]
        left@ == right@ && call_ensures(A::parse, (left,), a) && call_ensures(
            A::parse,
            (right,),
            b,
        ) ==> are_alike(same, a, b)
    &&& forall|count: usize, a: A::Number, b: A::Number|
        #![trigger call_ensures(A::whole, (count,), a), call_ensures(A::whole, (count,), b)]
        call_ensures(A::whole, (count,), a) && call_ensures(A::whole, (count,), b) ==> a == b
            && same(a, b)
    &&& forall|x: A::Number, y: A::Number, a: bool, b: bool|
        #![trigger call_ensures(A::is_finite, (x,), a), call_ensures(A::is_finite, (y,), b)]
        same(x, y) && call_ensures(A::is_finite, (x,), a) && call_ensures(A::is_finite, (y,), b)
            ==> a == b
    &&& forall|x: A::Number, u: A::Number, y: A::Number, v: A::Number, a: bool, b: bool|
        #![trigger call_ensures(A::equal, (x, u), a), call_ensures(A::equal, (y, v), b)]
        same(x, y) && same(u, v) && call_ensures(A::equal, (x, u), a) && call_ensures(
            A::equal,
            (y, v),
            b,
        ) ==> a == b
    &&& forall|x: A::Number, y: A::Number, a: A::Number, b: A::Number|
        #![trigger call_ensures(A::negated, (x,), a), call_ensures(A::negated, (y,), b)]
        same(x, y) && call_ensures(A::negated, (x,), a) && call_ensures(A::negated, (y,), b)
            ==> same(a, b)
    &&& forall|
        x: A::Number,
        u: A::Number,
        y: A::Number,
        v: A::Number,
        a: A::Number,
        b: A::Number,
    |
        #![trigger call_ensures(A::larger, (x, u), a), call_ensures(A::larger, (y, v), b)]
        same(x, y) && same(u, v) && call_ensures(A::larger, (x, u), a) && call_ensures(
            A::larger,
            (y, v),
            b,
        ) ==> same(a, b)
    &&& forall|
        x: A::Number,
        u: A::Number,
        y: A::Number,
        v: A::Number,
        a: A::Number,
        b: A::Number,
    |
        #![trigger call_ensures(A::plus, (x, u), a), call_ensures(A::plus, (y, v), b)]
        same(x, y) && same(u, v) && call_ensures(A::plus, (x, u), a) && call_ensures(
            A::plus,
            (y, v),
            b,
        ) ==> same(a, b)
    &&& forall|
        x: A::Number,
        u: A::Number,
        y: A::Number,
        v: A::Number,
        a: A::Number,
        b: A::Number,
    |
        #![trigger call_ensures(A::minus, (x, u), a), call_ensures(A::minus, (y, v), b)]
        same(x, y) && same(u, v) && call_ensures(A::minus, (x, u), a) && call_ensures(
            A::minus,
            (y, v),
            b,
        ) ==> same(a, b)
    &&& forall|
        x: A::Number,
        u: A::Number,
        y: A::Number,
        v: A::Number,
        a: A::Number,
        b: A::Number,
    |
        #![trigger call_ensures(A::times, (x, u), a), call_ensures(A::times, (y, v), b)]
        same(x, y) && same(u, v) && call_ensures(A::times, (x, u), a) && call_ensures(
            A::times,
            (y, v),
            b,
        ) ==> same(a, b)
    &&& forall|x: A::Number, y: A::Number, divisor: A::Number, a: A::Number, b: A::Number|
        #![trigger call_ensures(A::over, (x, divisor), a), call_ensures(A::over, (y, divisor), b)]
        same(x, y) && call_ensures(A::over, (x, divisor), a) && call_ensures(
            A::over,
            (y, divisor),
            b,
        ) ==> same(a, b)
    &&& forall|
        x: A::Number,
        u: A::Number,
        y: A::Number,
        v: A::Number,
        zero: A::Number,
        a: A::Number,
        b: A::Number,
    |
        #![trigger call_ensures(A::over, (x, u), a), call_ensures(A::over, (y, v), b), call_ensures(
            A::equal,
            (u, zero),
            false,
        )]
        same(x, y) && same(u, v) && call_ensures(A::whole, (0usize,), zero) && call_ensures(
            A::equal,
            (u, zero),
            false,
        ) && call_ensures(A::over, (x, u), a) && call_ensures(A::over, (y, v), b) ==> same(a, b)
    &&& forall|x: A::Number, y: A::Number, a: A::Number, b: A::Number|
        #![trigger is_index_of::<A>(x, a), is_index_of::<A>(y, b)]
        same(x, y) && is_index_of::<A>(x, a) && is_index_of::<A>(y, b) ==> same(a, b)
            && show_alike::<A>(a, b)
}

/// The two numbers have the same text.
pub open spec fn show_alike<A: Arithmetic>(left: A::Number, right: A::Number) -> bool {
    forall|a: String, b: String|
        #![trigger call_ensures(A::text, (left,), a), call_ensures(A::text, (right,), b)]
        call_ensures(A::text, (left,), a) && call_ensures(A::text, (right,), b) ==> a@ == b@
}

/// The two states hold numbers that are alike and are the same in all else.
pub open spec fn are_like_states<N>(
    same: spec_fn(N, N) -> bool,
    left: RsiModel<N>,
    right: RsiModel<N>,
) -> bool {
    &&& left.window == right.window
    &&& are_alike(same, left.last_close, right.last_close)
    &&& left.seed_count == right.seed_count
    &&& same(left.seed_gain_sum, right.seed_gain_sum)
    &&& same(left.seed_loss_sum, right.seed_loss_sum)
    &&& match (left.averages, right.averages) {
        (Some(a), Some(b)) => same(a.0, b.0) && same(a.1, b.1),
        (None, None) => true,
        _ => false,
    }
}

proof fn lemma_like_moves<A: Arithmetic>(
    same: spec_fn(A::Number, A::Number) -> bool,
    previous: A::Number,
    close: A::Number,
    gain: A::Number,
    loss: A::Number,
    other_previous: A::Number,
    other_close: A::Number,
    other_gain: A::Number,
    other_loss: A::Number,
)
    requires
        gives_like_results::<A>(same),
        same(previous, other_previous),
        same(close, other_close),
        is_move::<A>(previous, close, gain, loss),
        is_move::<A>(other_previous, other_close, other_gain, other_loss),
    ensures
        same(gain, other_gain),
        same(loss, other_loss),
{
}

proof fn lemma_like_smoothed<A: Arithmetic>(
    same: spec_fn(A::Number, A::Number) -> bool,
    window: usize,
    average: A::Number,
    amount: A::Number,
    result: A::Number,
    other_average: A::Number,
    other_amount: A::Number,
    other_result: A::Number,
)
    requires
        gives_like_results::<A>(same),
        same(average, other_average),
        same(amount, other_amount),
        is_smoothed::<A>(window, average, amount, result),
        is_smoothed::<A>(window, other_average, other_amount, other_result),
    ensures
        same(result, other_result),
{
}

proof fn lemma_like_means<A: Arithmetic>(
    same: spec_fn(A::Number, A::Number) -> bool,
    window: usize,
    sum: A::Number,
    result: A::Number,
    other_sum: A::Number,
    other_result: A::Number,
)
    requires
        gives_like_results::<A>(same),
        same(sum, other_sum),
        is_mean::<A>(window, sum, result),
        is_mean::<A>(window, other_sum, other_result),
    ensures
        same(result, other_result),
{
}

proof fn lemma_like_ratio_cells<A: Arithmetic>(
    same: spec_fn(A::Number, A::Number) -> bool,
    gain: A::Number,
    loss: A::Number,
    fallback: Seq<char>,
    cell: Seq<char>,
    other_gain: A::Number,
    other_loss: A::Number,
    other_cell: Seq<char>,
    zero: A::Number,
)
    requires
        gives_like_results::<A>(same),
        same(gain, other_gain),
        same(loss, other_loss),
        call_ensures(A::whole, (0usize,), zero),
        call_ensures(A::equal, (loss, zero), false),
        is_ratio_cell::<A>(gain, loss, fallback, cell),
        is_ratio_cell::<A>(other_gain, other_loss, fallback, other_cell),
    ensures
        cell == other_cell,
{
}

proof fn lemma_like_cells<A: Arithmetic>(
    same: spec_fn(A::Number, A::Number) -> bool,
    gain: A::Number,
    loss: A::Number,
    fallback: Seq<char>,
    cell: Seq<char>,
    other_gain: A::Number,
    other_loss: A::Number,
    other_cell: Seq<char>,
)
    requires
        gives_like_results::<A>(same),
        same(gain, other_gain),
        same(loss, other_loss),
        is_rsi_cell::<A>(gain, loss, fallback, cell),
        is_rsi_cell::<A>(other_gain, other_loss, fallback, other_cell),
    ensures
        cell == other_cell,
{
    if is_ratio_cell::<A>(gain, loss, fallback, cell) && is_ratio_cell::<A>(
        other_gain,
        other_loss,
        fallback,
        other_cell,
    ) {
        assert forall|zero: A::Number|
            #[trigger] call_ensures(A::whole, (0usize,), zero) && call_ensures(
                A::equal,
                (loss, zero),
                false,
            ) implies cell == other_cell by {
            lemma_like_ratio_cells::<A>(
                same,
                gain,
                loss,
                fallback,
                cell,
                other_gain,
                other_loss,
                other_cell,
                zero,
            );
        }
    }
}

proof fn lemma_like_price_steps<A: Arithmetic>(
    same: spec_fn(A::Number, A::Number) -> bool,
    before: RsiModel<A::Number>,
    close: A::Number,
    fallback: Seq<char>,
    after: RsiModel<A::Number>,
    cell: Seq<char>,
    other_before: RsiModel<A::Number>,
    other_close: A::Number,
    other_after: RsiModel<A::Number>,
    other_cell: Seq<char>,
)
    requires
        gives_like_results::<A>(same),
        are_like_states(same, before, other_before),
        same(close, other_close),
        is_price_step::<A>(before, close, fallback, after, cell),
        is_price_step::<A>(other_before, other_close, fallback, other_after, other_cell),
    ensures
        are_like_states(same, after, other_after),
        cell == other_cell,
{
    if before.last_close is Some {
        let (gain, loss) = moved::<A>(before, close, fallback, after, cell);
        let (other_gain, other_loss) = moved::<A>(
            other_before,
            other_close,
            fallback,
            other_after,
            other_cell,
        );
        lemma_like_moves::<A>(
            same,
            before.last_close->0,
            close,
            gain,
            loss,
            other_before.last_close->0,
            other_close,
            other_gain,
            other_loss,
        );
        let size = before.window as usize;
        let new = after.averages->0;
        let other = other_after.averages->0;
        if before.averages is Some {
            let old_averages = before.averages->0;
            let other_old = other_before.averages->0;
            lemma_like_smoothed::<A>(
                same,
                size,
                old_averages.0,
                gain,
                new.0,
                other_old.0,
                other_gain,
                other.0,
            );
            lemma_like_smoothed::<A>(
                same,
                size,
                old_averages.1,
                loss,
                new.1,
                other_old.1,
                other_loss,
                other.1,
            );
            lemma_like_cells::<A>(
                same,
                new.0,
                new.1,
                fallback,
                cell,
                other.0,
                other.1,
                other_cell,
            );
        } else {
            assert(same(after.seed_gain_sum, other_after.seed_gain_sum));
            assert(same(after.seed_loss_sum, other_after.seed_loss_sum));
            if before.seed_count + 1 >= before.window {
                lemma_like_means::<A>(
                    same,
                    size,
                    after.seed_gain_sum,
                    new.0,
                    other_after.seed_gain_sum,
                    other.0,
                );
                lemma_like_means::<A>(
                    same,
                    size,
                    after.seed_loss_sum,
                    new.1,
                    other_after.seed_loss_sum,
                    other.1,
                );
                lemma_like_cells::<A>(
                    same,
                    new.0,
                    new.1,
                    fallback,
                    cell,
                    other.0,
                    other.1,
                    other_cell,
                );
            }
        }
    }
}

/// Where operations give like results, a row makes like states of like states
/// and gives one cell.
pub proof fn law_a_step_is_determined<A: Arithmetic>(
    same: spec_fn(A::Number, A::Number) -> bool,
    before: RsiModel<A::Number>,
    close: Option<A::Number>,
    fallback: Seq<char>,
    after: RsiModel<A::Number>,
    cell: Seq<char>,
    other_before: RsiModel<A::Number>,
    other_close: Option<A::Number>,
    other_after: RsiModel<A::Number>,
    other_cell: Seq<char>,
)
    requires
        gives_like_results::<A>(same),
        are_like_states(same, before, other_before),
        are_alike(same, close, other_close),
        is_step::<A>(before, close, fallback, after, cell),
        is_step::<A>(other_before, other_close, fallback, other_after, other_cell),
    ensures
        are_like_states(same, after, other_after),
        cell == other_cell,
{
    if close is Some {
        let price = close->0;
        let other_price = other_close->0;
        if is_price_step::<A>(before, price, fallback, after, cell) && is_price_step::<A>(
            other_before,
            other_price,
            fallback,
            other_after,
            other_cell,
        ) {
            lemma_like_price_steps::<A>(
                same,
                before,
                price,
                fallback,
                after,
                cell,
                other_before,
                other_price,
                other_after,
                other_cell,
            );
        }
    }
}

/// Where operations give like results, the closing prices of a row are alike.
pub proof fn law_a_close_is_determined<A: Arithmetic>(
    same: spec_fn(A::Number, A::Number) -> bool,
    row: Seq<Seq<char>>,
    close: Option<A::Number>,
    other: Option<A::Number>,
)
    requires
        gives_like_results::<A>(same),
        is_close_of::<A>(row, close),
        is_close_of::<A>(row, other),
    ensures
        are_alike(same, close, other),
{
}

/// Where operations give like results, the fresh states for a window are alike.
pub proof fn law_a_fresh_state_is_determined<A: Arithmetic>(
    same: spec_fn(A::Number, A::Number) -> bool,
    window: nat,
    fresh: RsiModel<A::Number>,
    other: RsiModel<A::Number>,
)
    requires
        gives_like_results::<A>(same),
        is_fresh::<A>(window, fresh),
        is_fresh::<A>(window, other),
    ensures
        are_like_states(same, fresh, other),
{
}

}
