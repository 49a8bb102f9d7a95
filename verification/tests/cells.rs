//! The RSI column over 64-bit floating point.
use add_rsi::rsi::{format_rsi, parse_close, Arithmetic, RsiState};

struct Ieee;

impl Arithmetic for Ieee {
    type Number = f64;

    fn parse(text: &str) -> Option<f64> {
        text.parse().ok()
    }

    fn text(value: f64) -> String {
        value.to_string()
    }

    fn whole(count: usize) -> f64 {
        count as f64
    }

    fn is_finite(value: f64) -> bool {
        value.is_finite()
    }

    fn equal(left: f64, right: f64) -> bool {
        left == right
    }

    fn larger(left: f64, right: f64) -> f64 {
        left.max(right)
    }

    fn negated(value: f64) -> f64 {
        -value
    }

    fn plus(left: f64, right: f64) -> f64 {
        left + right
    }

    fn minus(left: f64, right: f64) -> f64 {
        left - right
    }

    fn times(left: f64, right: f64) -> f64 {
        left * right
    }

    fn over(left: f64, right: f64) -> f64 {
        left / right
    }
}

fn cell(average_gain: f64, average_loss: f64, fallback: &str) -> String {
    format_rsi::<Ieee>(average_gain, average_loss, fallback)
}

fn column(window: usize) -> RsiState<Ieee> {
    RsiState::new(window)
}

fn row(fields: &[&str]) -> Vec<String> {
    fields.iter().map(|field| (*field).to_owned()).collect()
}

#[test]
fn format_rsi_zero_gain_zero_loss_returns_50() {
    assert_eq!(cell(0.0, 0.0, "NA"), "50");
}

#[test]
fn format_rsi_nonzero_gain_zero_loss_returns_100() {
    assert_eq!(cell(1.0, 0.0, "NA"), "100");
}

#[test]
fn format_rsi_zero_gain_nonzero_loss_returns_0() {
    let result = cell(0.0, 1.0, "NA");
    let value: f64 = result.parse().expect("parseable float");
    assert!((value - 0.0).abs() < 1e-12);
}

#[test]
fn format_rsi_equal_gain_and_loss_returns_50() {
    let result = cell(1.0, 1.0, "NA");
    let value: f64 = result.parse().expect("parseable float");
    assert!((value - 50.0).abs() < 1e-12);
}

#[test]
fn format_rsi_infinite_gain_returns_fallback() {
    assert_eq!(cell(f64::INFINITY, 1.0, "NA"), "NA");
}

#[test]
fn format_rsi_nan_loss_returns_fallback() {
    assert_eq!(cell(1.0, f64::NAN, "NA"), "NA");
}

#[test]
fn a_ratio_that_overflows_gives_the_fallback() {
    assert_eq!(cell(f64::MAX, f64::MIN_POSITIVE, "NA"), "NA");
}

#[test]
fn the_index_is_written_in_full() {
    assert_eq!(cell(3.0, 1.0, "NA"), "75");
    assert_eq!(cell(0.5, 1.0, "NA"), (100.0 - (100.0 / 1.5)).to_string());
}

#[test]
fn rsi_state_first_close_returns_fallback() {
    let mut state = column(2);
    assert_eq!(state.next_cell(Some(100.0), "NA"), "NA");
}

#[test]
fn rsi_state_non_finite_close_returns_fallback() {
    let mut state = column(2);
    state.next_cell(Some(100.0), "NA");
    assert_eq!(state.next_cell(Some(f64::NAN), "NA"), "NA");
    assert_eq!(state.next_cell(Some(f64::INFINITY), "NA"), "NA");
    assert_eq!(state.next_cell(None, "NA"), "NA");
}

#[test]
fn rsi_state_window_2_pure_gains() {
    let mut state = column(2);
    state.next_cell(Some(10.0), "NA");
    state.next_cell(Some(11.0), "NA");
    let result = state.next_cell(Some(12.0), "NA");
    let value: f64 = result.parse().expect("parseable float");
    assert_eq!(value, 100.0);
}

#[test]
fn rsi_state_window_2_pure_losses() {
    let mut state = column(2);
    state.next_cell(Some(12.0), "NA");
    state.next_cell(Some(11.0), "NA");
    let result = state.next_cell(Some(10.0), "NA");
    let value: f64 = result.parse().expect("parseable float");
    assert!((value - 0.0).abs() < 1e-12);
}

#[test]
fn rsi_state_wilder_smoothing_after_seed() {
    let mut state = column(2);
    state.next_cell(Some(10.0), "NA");
    state.next_cell(Some(11.0), "NA");
    state.next_cell(Some(12.0), "NA");
    // Averages of 1 and 0, then a fall by 2: (1 * 1 + 0) / 2 and (0 * 1 + 2) / 2.
    let result = state.next_cell(Some(10.0), "NA");
    let value: f64 = result.parse().expect("parseable float");
    let expected = 100.0 - 100.0 / (1.0 + 0.5);
    assert!((value - expected).abs() < 1e-12);
}

#[test]
fn a_window_of_changes_comes_before_the_first_index() {
    let mut state = column(3);
    let cells: Vec<String> = [10.0, 11.0, 12.0, 11.0, 11.0]
        .iter()
        .map(|close| state.next_cell(Some(*close), "NA"))
        .collect();
    assert_eq!(&cells[..3], ["NA", "NA", "NA"]);
    let value: f64 = cells[3].parse().expect("parseable float");
    assert!((value - (100.0 - 100.0 / 3.0)).abs() < 1e-12);
    assert_ne!(cells[4], "NA");
}

#[test]
fn an_unusable_price_leaves_the_column_as_it_was() {
    let mut gap = column(1);
    let mut straight = column(1);
    gap.next_cell(Some(10.0), "NA");
    straight.next_cell(Some(10.0), "NA");
    assert_eq!(gap.next_cell(None, "NA"), "NA");
    assert_eq!(gap.next_cell(Some(f64::NEG_INFINITY), "NA"), "NA");
    assert_eq!(gap.next_cell(Some(9.0), "NA"), straight.next_cell(Some(9.0), "NA"));
    assert_eq!(gap.next_cell(Some(9.5), "NA"), straight.next_cell(Some(9.5), "NA"));
}

#[test]
fn the_close_is_the_fifth_field() {
    let fields = row(&["0", "1", "2", "3", "4.25", "5"]);
    assert_eq!(parse_close::<Ieee>(&fields), Some(4.25));
    assert_eq!(parse_close::<Ieee>(&fields[..4]), None);
}

#[test]
fn a_close_that_is_no_finite_number_is_none() {
    assert_eq!(parse_close::<Ieee>(&row(&["", "", "", "", "close"])), None);
    assert_eq!(parse_close::<Ieee>(&row(&["", "", "", "", "inf"])), None);
    assert_eq!(parse_close::<Ieee>(&row(&["", "", "", "", "NaN"])), None);
    assert_eq!(parse_close::<Ieee>(&row(&["", "", "", "", ""])), None);
    assert_eq!(parse_close::<Ieee>(&row(&["", "", "", "", "1e3"])), Some(1000.0));
}

#[test]
fn a_column_is_a_seed_and_wilders_smoothing() {
    let closes = [10.0, 12.0, 11.0, 11.5, 9.0, 10.0];
    let window = 2;
    let mut state = column(window);
    let cells: Vec<String> =
        closes.iter().map(|close| state.next_cell(Some(*close), "NA")).collect();
    let moves: Vec<f64> = closes.windows(2).map(|pair| pair[1] - pair[0]).collect();
    let size = window as f64;
    let mut gain = (moves[0].max(0.0) + moves[1].max(0.0)) / size;
    let mut loss = ((-moves[0]).max(0.0) + (-moves[1]).max(0.0)) / size;
    assert_eq!(&cells[..window], ["NA", "NA"]);
    assert_eq!(cells[window], cell(gain, loss, "NA"));
    for index in window + 1..closes.len() {
        let change = moves[index - 1];
        gain = (gain * (size - 1.0) + change.max(0.0)) / size;
        loss = (loss * (size - 1.0) + (-change).max(0.0)) / size;
        assert_eq!(cells[index], cell(gain, loss, "NA"));
        assert!(cells[index].parse::<f64>().is_ok());
    }
}
