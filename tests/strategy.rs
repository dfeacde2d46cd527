use ta_lib::rolling::SeriesError;
use ta_lib::series::Series;
use ta_lib::smooth::Smooth;
use ta_lib::strategy::{ma_from_code, MovingAverageType, STCConfirm, TrixSignalLineSignal};

#[test]
fn stc_confirm_lookback_is_longest_period() {
    let c = STCConfirm::new(Smooth::Ema, 12, 26, 10, 3, 3);
    assert_eq!(c.lookback(), 26);
    let c = STCConfirm::new(Smooth::Ema, 1, 2, 3, 4, 50);
    assert_eq!(c.lookback(), 50);
}

#[test]
fn stc_confirm_validate() {
    let c = STCConfirm::new(Smooth::Ema, 12, 26, 10, 3, 3);
    let stc = Series::from_values(&vec![70, 80, 78, 20, 10]);
    let (long, short) = c.validate(&stc);
    assert_eq!(long, vec![false, true, false, false, false]);
    assert_eq!(short, vec![false, false, false, true, true]);
}

#[test]
fn trix_signal_line() {
    let s = TrixSignalLineSignal::new(Smooth::Sma, 18, 2);
    assert_eq!(s.lookback(), 18);
    let trix = Series::from_values(&vec![1, 3, 2, 5]);
    let (long, short) = s.generate(&trix).unwrap();
    assert_eq!(long, vec![false, true, false, true]);
    assert_eq!(short, vec![false, false, false, false]);
}

#[test]
fn trix_signal_line_zero_period() {
    let s = TrixSignalLineSignal::new(Smooth::Ema, 18, 0);
    let trix = Series::from_values(&vec![1, 3]);
    assert_eq!(s.generate(&trix).unwrap_err(), SeriesError::ZeroPeriod);
}

#[test]
fn moving_average_types_compare() {
    assert_eq!(MovingAverageType::KAMA, MovingAverageType::KAMA);
    assert_ne!(MovingAverageType::SMA, MovingAverageType::EMA);
}

#[test]
fn host_codes_select_moving_averages() {
    assert_eq!(ma_from_code(1), MovingAverageType::ALMA);
    assert_eq!(ma_from_code(7), MovingAverageType::KAMA);
    assert_eq!(ma_from_code(8), MovingAverageType::RMSMA);
    assert_eq!(ma_from_code(12), MovingAverageType::TTHREE);
    assert_eq!(ma_from_code(17), MovingAverageType::ZLEMA);
    assert_eq!(ma_from_code(0), MovingAverageType::SMA);
    assert_eq!(ma_from_code(99), MovingAverageType::SMA);
}
