use ta_lib::rolling::{SeriesError, Window, WindowMode};
use ta_lib::series::Series;
use ta_lib::signal::{and, not, or};

fn present(values: &[i64]) -> Series {
    Series::from_values(&values.to_vec())
}

fn series(values: &[Option<i64>]) -> Series {
    Series::new(values.to_vec())
}

fn window(period: usize, mode: WindowMode) -> Window {
    Window::new(period, mode).unwrap()
}

#[test]
fn test_roc() {
    let source = present(&[1, 2, 3, 4, 5]);
    let period = 3;
    let expected = vec![Some(0), Some(0), Some(0), Some(300), Some(150)];

    let result = source.roc(period).to_vec();

    assert_eq!(result, expected);
}

#[test]
fn roc_of_zero_reference_is_zero() {
    let source = series(&[Some(0), Some(5), None, Some(8)]);
    assert_eq!(source.roc(1).to_vec(), vec![Some(0), Some(0), Some(0), Some(0)]);
}

#[test]
fn test_tma() {
    // values in ten-thousandths
    let source = present(&[10000, 20000, 30000, 40000, 50000]);
    let w = window(3, WindowMode::Partial);
    let expected = vec![Some(10000), Some(12500), Some(15000), Some(21666), Some(30000)];

    let result = source.ma(w).ma(w).to_vec();

    assert_eq!(result, expected);
}

#[test]
fn shift_keeps_length_and_pads_missing() {
    let s = present(&[1, 2, 3, 4]);
    let r = s.shift(2);
    assert_eq!(r.len(), 4);
    assert_eq!(r.to_vec(), vec![None, None, Some(1), Some(2)]);
    assert_eq!(s.shift(9).to_vec(), vec![None, None, None, None]);
}

#[test]
fn change_is_difference_with_lag() {
    let s = series(&[Some(1), Some(4), None, Some(10)]);
    assert_eq!(s.change(1).to_vec(), vec![None, Some(3), None, None]);
    assert_eq!(s.change(2).to_vec(), vec![None, None, None, Some(6)]);
}

#[test]
fn fill_missing_twice_is_fill_missing_once() {
    let s = series(&[None, Some(2), None]);
    let once = s.fill_missing(7);
    let twice = once.fill_missing(7);
    assert_eq!(once.to_vec(), vec![Some(7), Some(2), Some(7)]);
    assert_eq!(twice.to_vec(), once.to_vec());
}

#[test]
fn arithmetic_propagates_missing() {
    let a = series(&[Some(6), None, Some(7), Some(i64::MAX)]);
    let b = series(&[Some(3), Some(1), Some(0), Some(1)]);
    assert_eq!(a.add(&b).to_vec(), vec![Some(9), None, Some(7), None]);
    assert_eq!(a.sub(&b).to_vec(), vec![Some(3), None, Some(7), Some(i64::MAX - 1)]);
    assert_eq!(a.mul(&b).to_vec(), vec![Some(18), None, Some(0), Some(i64::MAX)]);
    assert_eq!(a.div(&b).to_vec(), vec![Some(2), None, None, Some(i64::MAX)]);
}

#[test]
fn division_rounds_toward_zero() {
    let a = present(&[-7, 7]);
    let b = present(&[2, -2]);
    assert_eq!(a.div(&b).to_vec(), vec![Some(-3), Some(-3)]);
}

#[test]
fn abs_of_smallest_value_is_missing() {
    let s = series(&[Some(-5), Some(i64::MIN), None]);
    assert_eq!(s.abs().to_vec(), vec![Some(5), None, None]);
}

#[test]
fn zero_period_is_refused() {
    let e = Window::new(0, WindowMode::Full).unwrap_err();
    assert_eq!(e, SeriesError::ZeroPeriod);
    assert!(!e.message().is_empty());
    assert_eq!(present(&[1]).ema(0).unwrap_err(), SeriesError::ZeroPeriod);
}

#[test]
fn weight_length_must_match_period() {
    let s = present(&[1, 2, 3, 4]);
    assert_eq!(s.wg(3, &vec![1, 2]).unwrap_err(), SeriesError::WeightLength);
    assert_eq!(s.wg(0, &vec![]).unwrap_err(), SeriesError::ZeroPeriod);
}

#[test]
fn weighted_mean_of_whole_windows() {
    let s = present(&[1, 2, 3, 4]);
    let r = s.wg(3, &vec![1, 2, 3]).unwrap();
    assert_eq!(r.to_vec(), vec![None, None, Some(2), Some(3)]);
    let gap = series(&[Some(1), None, Some(3), Some(4)]);
    assert_eq!(gap.wg(2, &vec![1, 1]).unwrap().to_vec(), vec![None, None, None, Some(3)]);
    assert_eq!(s.wg(2, &vec![1, -1]).unwrap().to_vec(), vec![None, None, None, None]);
}

#[test]
fn sum_in_full_and_partial_modes() {
    let s = series(&[Some(1), None, None, Some(4)]);
    let full = s.sum(window(2, WindowMode::Full)).to_vec();
    assert_eq!(full, vec![None, Some(1), None, Some(4)]);
    let partial = s.sum(window(2, WindowMode::Partial)).to_vec();
    assert_eq!(partial, vec![Some(1), Some(1), None, Some(4)]);
}

#[test]
fn mean_of_arithmetic_sequence_is_middle() {
    let s = present(&[3, 7, 11, 15, 19, 23]);
    let r = s.ma(window(4, WindowMode::Full)).to_vec();
    assert_eq!(r, vec![None, None, None, Some(9), Some(13), Some(17)]);
}

#[test]
fn mean_absolute_deviation() {
    let s = present(&[2, 4, 9]);
    let r = s.md(window(3, WindowMode::Partial)).to_vec();
    assert_eq!(r, vec![Some(0), Some(1), Some(2)]);
}

#[test]
fn highest_and_lowest_of_windows() {
    let s = series(&[Some(3), None, Some(7), Some(1), Some(2)]);
    let w = window(3, WindowMode::Full);
    assert_eq!(s.highest(w).to_vec(), vec![None, None, Some(7), Some(7), Some(7)]);
    assert_eq!(s.lowest(w).to_vec(), vec![None, None, Some(3), Some(1), Some(1)]);
    let p = window(3, WindowMode::Partial);
    assert_eq!(s.highest(p).to_vec(), vec![Some(3), Some(3), Some(7), Some(7), Some(7)]);
}

#[test]
fn highest_bounds_its_window() {
    let values = [5, -2, 8, 8, 0, 3, 9, -4];
    let s = present(&values);
    let r = s.highest(window(3, WindowMode::Full)).to_vec();
    for i in 2..values.len() {
        let m = r[i].unwrap();
        let win = &values[i - 2..=i];
        assert!(win.iter().all(|v| *v <= m));
        assert!(win.contains(&m));
    }
}

#[test]
fn exponential_smoothing_holds_through_gaps() {
    let s = series(&[None, Some(10), Some(20), None, Some(40)]);
    let r = s.ema(3).unwrap().to_vec();
    assert_eq!(r, vec![None, Some(10), Some(15), Some(15), Some(27)]);
}

#[test]
fn running_smoothing() {
    let s = present(&[10, 20, 30]);
    assert_eq!(s.rma(2).unwrap().to_vec(), vec![Some(10), Some(15), Some(22)]);
}

#[test]
fn adaptive_smoothing_contracts() {
    // values in thousandths
    let inputs = [19099, 19079, 19074, 19139, 19191];
    let s = present(&inputs);
    let r = s.adaptive(3).unwrap().to_vec();
    assert_eq!(r, vec![Some(19099), Some(19089), Some(19082), Some(19107), Some(19184)]);
    assert_eq!(r[0], Some(inputs[0]));
    for i in 1..inputs.len() {
        let prev = r[i - 1].unwrap();
        let out = r[i].unwrap();
        let lo = prev.min(inputs[i]);
        let hi = prev.max(inputs[i]);
        assert!(lo <= out && out <= hi);
    }
}

#[test]
fn adaptive_smoothing_reseeds_after_gap() {
    let s = series(&[Some(10), None, Some(50)]);
    assert_eq!(s.adaptive(2).unwrap().to_vec(), vec![Some(10), None, Some(50)]);
}

#[test]
fn crossings_are_exclusive() {
    let a = present(&[1, 3, 2, 5]);
    let b = present(&[2, 2, 3, 3]);
    let over = a.cross_over(&b);
    let under = a.cross_under(&b);
    assert_eq!(over, vec![false, true, false, true]);
    assert_eq!(under, vec![false, false, true, false]);
    assert_eq!(and(&over, &under), vec![false; 4]);
}

#[test]
fn crossings_of_a_line() {
    let a = series(&[Some(1), Some(5), None, Some(6), Some(2)]);
    assert_eq!(a.cross_over_line(4), vec![false, true, false, false, false]);
    assert_eq!(a.cross_under_line(4), vec![false, false, false, false, true]);
}

#[test]
fn logical_combinators() {
    let a = vec![true, true, false, false];
    let b = vec![true, false, true, false];
    assert_eq!(and(&a, &b), vec![true, false, false, false]);
    assert_eq!(or(&a, &b), vec![true, true, true, false]);
    assert_eq!(not(&a), vec![false, false, true, true]);
}

#[test]
fn missing_mask() {
    let s = series(&[None, Some(1)]);
    assert_eq!(s.na(), vec![true, false]);
    assert_eq!(Series::empty(2).to_vec(), vec![None, None]);
    assert_eq!(s.get(1), Some(1));
}

#[test]
fn pairwise_max_and_min() {
    let a = series(&[Some(1), Some(5), None]);
    let b = series(&[Some(3), Some(2), Some(4)]);
    assert_eq!(a.max(&b).to_vec(), vec![Some(3), Some(5), None]);
    assert_eq!(a.min(&b).to_vec(), vec![Some(1), Some(2), None]);
}
