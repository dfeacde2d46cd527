use ta_lib::series::Series;

fn series(values: &[Option<i64>]) -> Series {
    Series::new(values.to_vec())
}

fn flags(values: &[i64]) -> Vec<bool> {
    values.iter().map(|v| *v != 0).collect()
}

#[test]
fn test_scalar_eq() {
    let a = series(&[None, Some(2), Some(3), Some(1), Some(5)]);
    let b = 1;
    let expected = flags(&[0, 0, 0, 1, 0]);

    let result = a.seq(b);

    assert_eq!(result, expected);
}

#[test]
fn test_scalar_ne() {
    let a = series(&[None, Some(2), Some(3), Some(1), Some(5)]);
    let b = 1;
    let expected = flags(&[1, 1, 1, 0, 1]);

    let result = a.sne(b);

    assert_eq!(result, expected);
}

#[test]
fn test_scalar_gt() {
    let a = series(&[None, Some(2), Some(3), Some(4), Some(5)]);
    let b = 1;
    let expected = flags(&[0, 1, 1, 1, 1]);

    let result = a.sgt(b);

    assert_eq!(result, expected);
}

#[test]
fn test_scalar_gte() {
    let a = series(&[None, Some(2), Some(1), Some(1), Some(5)]);
    let b = 1;
    let expected = flags(&[0, 1, 1, 1, 1]);

    let result = a.sgte(b);

    assert_eq!(result, expected);
}

#[test]
fn test_scalar_lt() {
    let a = series(&[None, Some(2), Some(3), Some(4), Some(5)]);
    let b = 1;
    let expected = flags(&[0, 0, 0, 0, 0]);

    let result = a.slt(b);

    assert_eq!(result, expected);
}

#[test]
fn test_scalar_lte() {
    let a = series(&[None, Some(2), Some(3), Some(1), Some(5)]);
    let b = 1;
    let expected = flags(&[0, 0, 0, 1, 0]);

    let result = a.slte(b);

    assert_eq!(result, expected);
}

#[test]
fn test_series_eq() {
    let a = series(&[None, Some(2), Some(3), Some(1), Some(5)]);
    let b = series(&[Some(1), Some(1), Some(6), Some(1), Some(1)]);
    let expected = flags(&[0, 0, 0, 1, 0]);

    let result = a.eq(&b);

    assert_eq!(result, expected);
}

#[test]
fn test_series_ne() {
    let a = series(&[None, Some(2), Some(3), Some(1), Some(5)]);
    let b = series(&[Some(1), Some(1), Some(6), Some(1), Some(1)]);
    let expected = flags(&[1, 1, 1, 0, 1]);

    let result = a.ne(&b);

    assert_eq!(result, expected);
}

#[test]
fn test_series_gt() {
    let a = series(&[None, Some(2), Some(3), Some(4), Some(5)]);
    let b = series(&[Some(1), Some(1), Some(6), Some(1), Some(1)]);
    let expected = flags(&[0, 1, 0, 1, 1]);

    let result = a.gt(&b);

    assert_eq!(result, expected);
}

#[test]
fn test_series_gte() {
    let a = series(&[None, Some(2), Some(1), Some(1), Some(5)]);
    let b = series(&[Some(1), Some(1), Some(6), Some(1), Some(1)]);
    let expected = flags(&[0, 1, 0, 1, 1]);

    let result = a.gte(&b);

    assert_eq!(result, expected);
}

#[test]
fn test_series_lt() {
    let a = series(&[None, Some(2), Some(3), Some(4), Some(5)]);
    let b = series(&[Some(1), Some(1), Some(6), Some(1), Some(1)]);
    let expected = flags(&[0, 0, 1, 0, 0]);

    let result = a.lt(&b);

    assert_eq!(result, expected);
}

#[test]
fn test_series_lte() {
    let a = series(&[None, Some(2), Some(3), Some(1), Some(5)]);
    let b = series(&[Some(1), Some(1), Some(6), Some(1), Some(1)]);
    let expected = flags(&[0, 0, 1, 1, 0]);

    let result = a.lte(&b);

    assert_eq!(result, expected);
}

#[test]
fn both_missing_compare_as_nan() {
    let a = series(&[None]);
    let b = series(&[None]);
    assert_eq!(a.eq(&b), vec![false]);
    assert_eq!(a.ne(&b), vec![true]);
    assert_eq!(a.lte(&b), vec![false]);
}
