//! The index over numbers that are calculated exactly.
//!
//! Here the index is written down once more, as a formula over real numbers,
//! and what a column makes of prices is shown to be that formula wherever the
//! operations of the number type give exact results.
use vstd::prelude::*;

use crate::convert::{are_fresh, is_run, law_a_column_goes_by_the_fifth_field};
use crate::rsi::{
    is_fresh, is_move, is_price_step, is_rsi_cell, is_seeding_step, is_smoothed,
    is_smoothing_step, is_step, Arithmetic, RsiModel,
};

verus! {

/// Every operation gives the number that it stands for, and every number is
/// finite. `value` tells which real number a number is.
pub open spec fn is_exact<A: Arithmetic>(value: spec_fn(A::Number) -> real) -> bool {
    &&& forall|count: usize, r: A::Number| #[trigger]
        call_ensures(A::whole, (count,), r) ==> value(r) == count as real
    &&& forall|x: A::Number, r: bool| #[trigger] call_ensures(A::is_finite, (x,), r) ==> r
    &&& forall|x: A::Number, y: A::Number, r: bool| #[trigger]
        call_ensures(A::equal, (x, y), r) ==> (r <==> value(x) == value(y))
    &&& forall|x: A::Number, y: A::Number, r: A::Number| #[trigger]
        call_ensures(A::larger, (x, y), r) ==> value(r) == if value(x) > value(y) {
            value(x)
        } else {
            value(y)
        }
    &&& forall|x: A::Number, r: A::Number| #[trigger]
        call_ensures(A::negated, (x,), r) ==> value(r) == -value(x)
    &&& forall|x: A::Number, y: A::Number, r: A::Number| #[trigger]
        call_ensures(A::plus, (x, y), r) ==> value(r) == value(x) + value(y)
    &&& forall|x: A::Number, y: A::Number, r: A::Number| #[trigger]
        call_ensures(A::minus, (x, y), r) ==> value(r) == value(x) - value(y)
    &&& forall|x: A::Number, y: A::Number, r: A::Number| #[trigger]
        call_ensures(A::times, (x, y), r) ==> value(r) == value(x) * value(y)
    &&& forall|x: A::Number, y: A::Number, r: A::Number| #[trigger]
        call_ensures(A::over, (x, y), r) && value(y) != 0 as real ==> value(r) == value(x)
            / value(y)
}

/// By how much each price is above the one before it, or zero.
pub open spec fn rises(prices: Seq<real>) -> Seq<real> {
    Seq::new(
        prices.len(),
        |i: int|
            if i > 0 && prices[i] > prices[i - 1] {
                prices[i] - prices[i - 1]
            } else {
                0 as real
            },
    )
}

/// By how much each price is below the one before it, or zero.
pub open spec fn falls(prices: Seq<real>) -> Seq<real> {
    Seq::new(
        prices.len(),
        |i: int|
            if i > 0 && prices[i] < prices[i - 1] {
                prices[i - 1] - prices[i]
            } else {
                0 as real
            },
    )
}

/// The amounts up to the one at `last`, added up.
pub open spec fn sum(amounts: Seq<real>, last: int) -> real
    decreases last,
{
    if last <= 0 {
        0 as real
    } else {
        sum(amounts, last - 1) + amounts[last]
    }
}

/// Wilder's average of the amounts up to the one at `last`: the mean of the
/// first `window` amounts, and from then on the average before, weighted by one
/// less than the window, and the new amount.
pub open spec fn average(window: int, amounts: Seq<real>, last: int) -> real
    decreases last - window,
{
    if last <= window {
        sum(amounts, window) / (window as real)
    } else {
        (average(window, amounts, last - 1) * (window as real - 1 as real) + amounts[last]) / (
        window as real)
    }
}

/// The real numbers that prices are.
pub open spec fn values<N>(value: spec_fn(N) -> real, closes: Seq<N>) -> Seq<real> {
    Seq::new(closes.len(), |i: int| value(closes[i]))
}

/// What a change of price is.
proof fn lemma_moves<A: Arithmetic>(
    value: spec_fn(A::Number) -> real,
    closes: Seq<A::Number>,
    i: int,
    gain: A::Number,
    loss: A::Number,
)
    requires
        is_exact::<A>(value),
        0 < i < closes.len(),
        is_move::<A>(closes[i - 1], closes[i], gain, loss),
    ensures
        value(gain) == rises(values(value, closes))[i],
        value(loss) == falls(values(value, closes))[i],
{
}

/// What smoothing does to an average.
proof fn lemma_smooths<A: Arithmetic>(
    value: spec_fn(A::Number) -> real,
    window: usize,
    old: A::Number,
    amount: A::Number,
    new: A::Number,
)
    requires
        is_exact::<A>(value),
        window > 0,
        is_smoothed::<A>(window, old, amount, new),
    ensures
        value(new) == (value(old) * (window as real - 1 as real) + value(amount)) / (window as real),
{
}

/// What a column remembers behind `count` prices.
spec fn is_behind<A: Arithmetic>(
    value: spec_fn(A::Number) -> real,
    window: int,
    closes: Seq<A::Number>,
    count: int,
    state: RsiModel<A::Number>,
) -> bool {
    let prices = values(value, closes);
    &&& state.window == window
    &&& state.last_close == if count > 0 {
        Some(closes[count - 1])
    } else {
        None
    }
    &&& if count <= window {
        &&& state.averages is None
        &&& state.seed_count == if count > 0 {
            count - 1
        } else {
            0
        }
        &&& value(state.seed_gain_sum) == sum(rises(prices), count - 1)
        &&& value(state.seed_loss_sum) == sum(falls(prices), count - 1)
    } else {
        &&& state.averages matches Some((gain, loss))
        &&& value(gain) == average(window, rises(prices), count - 1)
        &&& value(loss) == average(window, falls(prices), count - 1)
    }
}

/// A price takes a column one step further.
proof fn lemma_goes_on<A: Arithmetic>(
    value: spec_fn(A::Number) -> real,
    window: int,
    closes: Seq<A::Number>,
    count: int,
    before: RsiModel<A::Number>,
    fallback: Seq<char>,
    after: RsiModel<A::Number>,
    cell: Seq<char>,
)
    requires
        is_exact::<A>(value),
        0 < window <= usize::MAX,
        0 <= count < closes.len(),
        is_behind::<A>(value, window, closes, count, before),
        is_price_step::<A>(before, closes[count], fallback, after, cell),
    ensures
        is_behind::<A>(value, window, closes, count + 1, after),
        count < window ==> cell == fallback,
        count >= window ==> is_rsi_cell::<A>(
            (after.averages->0).0,
            (after.averages->0).1,
            fallback,
            cell,
        ),
{
    if count > 0 {
        let (gain, loss) = choose|gain: A::Number, loss: A::Number|
            {
                &&& #[trigger] is_move::<A>(closes[count - 1], closes[count], gain, loss)
                &&& if before.averages is Some {
                    is_smoothing_step::<A>(
                        before,
                        closes[count],
                        gain,
                        loss,
                        fallback,
                        after,
                        cell,
                    )
                } else {
                    is_seeding_step::<A>(
                        before,
                        closes[count],
                        gain,
                        loss,
                        fallback,
                        after,
                        cell,
                    )
                }
            };
        lemma_moves::<A>(value, closes, count, gain, loss);
        if count > window {
            lemma_smooths::<A>(
                value,
                window as usize,
                (before.averages->0).0,
                gain,
                (after.averages->0).0,
            );
            lemma_smooths::<A>(
                value,
                window as usize,
                (before.averages->0).1,
                loss,
                (after.averages->0).1,
            );
        }
    }
}

/// Sums and averages of what is not negative are not negative.
proof fn lemma_averages_are_not_negative(window: int, amounts: Seq<real>, last: int)
    requires
        window > 0,
        window < amounts.len(),
        last < amounts.len(),
        forall|i: int| 0 <= i < amounts.len() ==> #[trigger] amounts[i] >= 0 as real,
    ensures
        average(window, amounts, last) >= 0 as real,
    decreases last - window,
{
    let size = window as real;
    if last <= window {
        lemma_sums_are_not_negative(amounts, window);
        let total = sum(amounts, window);
        assert(total / size >= 0 as real) by (nonlinear_arith)
            requires
                total >= 0 as real,
                size > 0 as real,
        ;
    } else {
        lemma_averages_are_not_negative(window, amounts, last - 1);
        let old = average(window, amounts, last - 1);
        let amount = amounts[last];
        assert((old * (size - 1 as real) + amount) / size >= 0 as real) by (nonlinear_arith)
            requires
                old >= 0 as real,
                amount >= 0 as real,
                size >= 1 as real,
        ;
    }
}

proof fn lemma_sums_are_not_negative(amounts: Seq<real>, last: int)
    requires
        last < amounts.len(),
        forall|i: int| 0 <= i < amounts.len() ==> #[trigger] amounts[i] >= 0 as real,
    ensures
        sum(amounts, last) >= 0 as real,
    decreases last,
{
    if last > 0 {
        lemma_sums_are_not_negative(amounts, last - 1);
    }
}

/// What a column remembers behind each price.
proof fn lemma_column<A: Arithmetic>(
    value: spec_fn(A::Number) -> real,
    window: int,
    states: Seq<RsiModel<A::Number>>,
    closes: Seq<A::Number>,
    fallback: Seq<char>,
    cells: Seq<Seq<char>>,
    count: int,
)
    requires
        is_exact::<A>(value),
        0 < window <= usize::MAX,
        states.len() == closes.len() + 1,
        cells.len() == closes.len(),
        is_fresh::<A>(window as nat, states[0]),
        forall|i: int|
            #![trigger closes[i]]
            0 <= i < closes.len() ==> is_step::<A>(
                states[i],
                Some(closes[i]),
                fallback,
                states[i + 1],
                cells[i],
            ),
        0 <= count <= closes.len(),
    ensures
        is_behind::<A>(value, window, closes, count, states[count]),
        count > 0 ==> {
            &&& count <= window ==> cells[count - 1] == fallback
            &&& count > window ==> is_rsi_cell::<A>(
                (states[count].averages->0).0,
                (states[count].averages->0).1,
                fallback,
                cells[count - 1],
            )
        },
    decreases count,
{
    if count > 0 {
        let i = count - 1;
        lemma_column::<A>(value, window, states, closes, fallback, cells, i);
        assert(is_step::<A>(states[i], Some(closes[i]), fallback, states[i + 1], cells[i]));
        lemma_goes_on::<A>(
            value,
            window,
            closes,
            i,
            states[i],
            fallback,
            states[i + 1],
            cells[i],
        );
    }
}

/// The cell of two averages that are not negative.
proof fn lemma_cell<A: Arithmetic>(
    value: spec_fn(A::Number) -> real,
    gain: A::Number,
    loss: A::Number,
    fallback: Seq<char>,
    cell: Seq<char>,
)
    requires
        is_exact::<A>(value),
        is_rsi_cell::<A>(gain, loss, fallback, cell),
        value(gain) >= 0 as real,
        value(loss) >= 0 as real,
    ensures
        value(loss) == 0 as real && value(gain) == 0 as real ==> cell == "50"@,
        value(loss) == 0 as real && value(gain) != 0 as real ==> cell == "100"@,
        value(loss) != 0 as real ==> exists|rsi: A::Number, text: String|
            {
                &&& #[trigger] call_ensures(A::text, (rsi,), text)
                &&& cell == text@
                &&& value(rsi) == 100 as real - (100 as real) / (1 as real + value(gain) / value(
                    loss,
                ))
            },
{
    let g = value(gain);
    let l = value(loss);
    if l != 0 as real {
        assert(1 as real + g / l != 0 as real) by (nonlinear_arith)
            requires
                g >= 0 as real,
                l > 0 as real,
        ;
    }
}

/// What stands in a column that starts fresh: nothing before a whole window of
/// changes, and from then on `100 - 100 / (1 + gain / loss)` of Wilder's
/// averages of the rises and of the falls, `100` where nothing fell and `50`
/// where nothing moved.
pub proof fn law_cells_are_wilders_index<A: Arithmetic>(
    value: spec_fn(A::Number) -> real,
    window: int,
    states: Seq<RsiModel<A::Number>>,
    closes: Seq<A::Number>,
    fallback: Seq<char>,
    cells: Seq<Seq<char>>,
    index: int,
)
    requires
        is_exact::<A>(value),
        0 < window <= usize::MAX,
        states.len() == closes.len() + 1,
        cells.len() == closes.len(),
        is_fresh::<A>(window as nat, states[0]),
        forall|i: int|
            #![trigger closes[i]]
            0 <= i < closes.len() ==> is_step::<A>(
                states[i],
                Some(closes[i]),
                fallback,
                states[i + 1],
                cells[i],
            ),
        0 <= index < closes.len(),
    ensures
        index < window ==> cells[index] == fallback,
        index >= window ==> ({
            let gain = average(window, rises(values(value, closes)), index);
            let loss = average(window, falls(values(value, closes)), index);
            &&& loss == 0 as real && gain == 0 as real ==> cells[index] == "50"@
            &&& loss == 0 as real && gain != 0 as real ==> cells[index] == "100"@
            &&& loss != 0 as real ==> exists|rsi: A::Number, text: String|
                {
                    &&& #[trigger] call_ensures(A::text, (rsi,), text)
                    &&& cells[index] == text@
                    &&& value(rsi) == 100 as real - (100 as real) / (1 as real + gain / loss)
                }
        }),
{
    lemma_column::<A>(value, window, states, closes, fallback, cells, index + 1);
    if index >= window {
        let prices = values(value, closes);
        lemma_averages_are_not_negative(window, rises(prices), index);
        lemma_averages_are_not_negative(window, falls(prices), index);
        let (gain, loss) = states[index + 1].averages->0;
        lemma_cell::<A>(value, gain, loss, fallback, cells[index]);
    }
}

/// How a price moves averages that stand: `window` times the new average is
/// `window - 1` times the old one and the rise, or the fall, from the price
/// before.
pub proof fn law_averages_move_by_wilders_rule<A: Arithmetic>(
    value: spec_fn(A::Number) -> real,
    before: RsiModel<A::Number>,
    close: A::Number,
    fallback: Seq<char>,
    after: RsiModel<A::Number>,
    cell: Seq<char>,
)
    requires
        is_exact::<A>(value),
        is_step::<A>(before, Some(close), fallback, after, cell),
        0 < before.window <= usize::MAX,
        before.last_close is Some,
        before.averages is Some,
    ensures
        ({
            let size = before.window as real;
            let change = value(close) - value(before.last_close->0);
            let rise = if change > 0 as real {
                change
            } else {
                0 as real
            };
            let fall = if change < 0 as real {
                -change
            } else {
                0 as real
            };
            &&& after.window == before.window
            &&& after.last_close == Some(close)
            &&& after.averages matches Some((gain, loss))
            &&& value(gain) * size == value((before.averages->0).0) * (size - 1 as real) + rise
            &&& value(loss) * size == value((before.averages->0).1) * (size - 1 as real) + fall
        }),
{
    let previous = before.last_close->0;
    let (gain, loss) = choose|gain: A::Number, loss: A::Number|
        {
            &&& #[trigger] is_move::<A>(previous, close, gain, loss)
            &&& is_smoothing_step::<A>(before, close, gain, loss, fallback, after, cell)
        };
    let size = before.window as real;
    let (old_gain, old_loss) = before.averages->0;
    let (new_gain, new_loss) = after.averages->0;
    lemma_moves::<A>(value, seq![previous, close], 1, gain, loss);
    lemma_smooths::<A>(value, before.window as usize, old_gain, gain, new_gain);
    lemma_smooths::<A>(value, before.window as usize, old_loss, loss, new_loss);
    let gain_total = value(old_gain) * (size - 1 as real) + value(gain);
    let loss_total = value(old_loss) * (size - 1 as real) + value(loss);
    assert(gain_total / size * size == gain_total) by (nonlinear_arith)
        requires
            size > 0 as real,
    ;
    assert(loss_total / size * size == loss_total) by (nonlinear_arith)
        requires
            size > 0 as real,
    ;
}

/// The fifth field of a row spells the price, and nothing else is read from it.
pub open spec fn spells_in_fifth<A: Arithmetic>(row: Seq<Seq<char>>, price: A::Number) -> bool {
    &&& row.len() >= 5
    &&& forall|field: &str, parsed: Option<A::Number>|
        field@ == row[4] && #[trigger] call_ensures(A::parse, (field,), parsed) ==> parsed == Some(
            price,
        )
}

/// What comes out of a table that starts with fresh states and has a price in
/// the fifth field of every row: behind the leading fields of a row, the cell of
/// each window is the fallback before a whole window of changes, and from then
/// on the index of the prices up to that row.
pub proof fn law_a_converted_table_holds_wilders_index<A: Arithmetic>(
    value: spec_fn(A::Number) -> real,
    windows: Seq<usize>,
    start: Seq<RsiModel<A::Number>>,
    rows: Seq<Seq<Seq<char>>>,
    closes: Seq<A::Number>,
    preserved: nat,
    fallback: Seq<char>,
    end: Seq<RsiModel<A::Number>>,
    outputs: Seq<Seq<Seq<char>>>,
    column: int,
    index: int,
)
    requires
        is_exact::<A>(value),
        are_fresh::<A>(windows, start),
        is_run::<A>(start, rows, preserved, fallback, end, outputs),
        closes.len() == rows.len(),
        forall|i: int| 0 <= i < rows.len() ==> #[trigger] spells_in_fifth::<A>(rows[i], closes[i]),
        0 <= column < windows.len(),
        windows[column] > 0,
        0 <= index < rows.len(),
    ensures
        ({
            let window = windows[column] as int;
            let cell = outputs[index][if rows[index].len() < preserved {
                rows[index].len() + column
            } else {
                preserved + column
            }];
            let gain = average(window, rises(values(value, closes)), index);
            let loss = average(window, falls(values(value, closes)), index);
            &&& index < window ==> cell == fallback
            &&& index >= window && loss == 0 as real && gain == 0 as real ==> cell == "50"@
            &&& index >= window && loss == 0 as real && gain != 0 as real ==> cell == "100"@
            &&& index >= window && loss != 0 as real ==> exists|rsi: A::Number, text: String|
                {
                    &&& #[trigger] call_ensures(A::text, (rsi,), text)
                    &&& cell == text@
                    &&& value(rsi) == 100 as real - (100 as real) / (1 as real + gain / loss)
                }
        }),
{
    let (states, found) = law_a_column_goes_by_the_fifth_field::<A>(
        start,
        rows,
        outputs,
        end,
        preserved,
        fallback,
        column,
    );
    let cells = Seq::new(
        rows.len(),
        |i: int|
            outputs[i][if rows[i].len() < preserved {
                rows[i].len() + column
            } else {
                preserved + column
            }],
    );
    assert(is_fresh::<A>(windows[column] as nat, start[column]));
    assert forall|i: int| #![trigger closes[i]] 0 <= i < closes.len() implies is_step::<A>(
        states[i],
        Some(closes[i]),
        fallback,
        states[i + 1],
        cells[i],
    ) by {
        assert(spells_in_fifth::<A>(rows[i], closes[i]));
        assert(found[i] == Some(closes[i]));
    }
    law_cells_are_wilders_index::<A>(
        value,
        windows[column] as int,
        states,
        closes,
        fallback,
        cells,
        index,
    );
}

}
