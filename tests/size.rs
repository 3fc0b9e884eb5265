use linesample::error::SampleError;
use linesample::size::{parse_size, resolve_size, SampleSize};

#[test]
fn parse_absolute_count() {
    assert_eq!(parse_size("3"), Ok(SampleSize::Absolute(3)));
    assert_eq!(parse_size("0"), Ok(SampleSize::Absolute(0)));
    assert_eq!(parse_size("120"), Ok(SampleSize::Absolute(120)));
}

#[test]
fn parse_relative_fraction() {
    assert_eq!(parse_size("0.25"), Ok(SampleSize::Relative { numer: 25, denom: 100 }));
    assert_eq!(parse_size(".5"), Ok(SampleSize::Relative { numer: 5, denom: 10 }));
    assert_eq!(parse_size("1.0"), Ok(SampleSize::Relative { numer: 1, denom: 1 }));
    assert_eq!(parse_size("1."), Ok(SampleSize::Relative { numer: 1, denom: 1 }));
}

#[test]
fn parse_rejects_fraction_above_one() {
    assert_eq!(parse_size("1.5"), Err(SampleError::InvalidConfiguration));
    assert_eq!(parse_size("2.0"), Err(SampleError::InvalidConfiguration));
    assert_eq!(parse_size("1.0001"), Err(SampleError::InvalidConfiguration));
}

#[test]
fn parse_rejects_malformed() {
    assert_eq!(parse_size("+"), Err(SampleError::InvalidConfiguration));
    assert_eq!(parse_size("++3"), Err(SampleError::InvalidConfiguration));
    assert_eq!(parse_size("1e5"), Err(SampleError::InvalidConfiguration));
    assert_eq!(parse_size("0.5e"), Err(SampleError::InvalidConfiguration));
    assert_eq!(parse_size("0.5e-"), Err(SampleError::InvalidConfiguration));
    assert_eq!(parse_size("0.5e1.0"), Err(SampleError::InvalidConfiguration));
    assert_eq!(parse_size("-0.5"), Err(SampleError::InvalidConfiguration));
    assert_eq!(parse_size(""), Err(SampleError::InvalidConfiguration));
    assert_eq!(parse_size("."), Err(SampleError::InvalidConfiguration));
    assert_eq!(parse_size("abc"), Err(SampleError::InvalidConfiguration));
    assert_eq!(parse_size("0.2.1"), Err(SampleError::InvalidConfiguration));
    assert_eq!(parse_size("-3"), Err(SampleError::InvalidConfiguration));
    assert_eq!(parse_size("3x"), Err(SampleError::InvalidConfiguration));
    assert_eq!(parse_size("99999999999999999999999"), Err(SampleError::InvalidConfiguration));
}

#[test]
fn resolve_absolute() {
    assert_eq!(resolve_size(&SampleSize::Absolute(3), 5), Ok(3));
    assert_eq!(resolve_size(&SampleSize::Absolute(5), 5), Ok(5));
    assert_eq!(resolve_size(&SampleSize::Absolute(6), 5), Err(SampleError::SizeExceedsPopulation));
}

#[test]
fn resolve_relative_floors() {
    assert_eq!(resolve_size(&SampleSize::Relative { numer: 25, denom: 100 }, 10), Ok(2));
    assert_eq!(resolve_size(&SampleSize::Relative { numer: 3, denom: 10 }, 10), Ok(3));
    assert_eq!(resolve_size(&SampleSize::Relative { numer: 10, denom: 10 }, 7), Ok(7));
    assert_eq!(resolve_size(&SampleSize::Relative { numer: 1, denom: 10 }, 7), Ok(0));
    assert_eq!(
        resolve_size(&SampleSize::Relative { numer: 1, denom: 1 }, usize::MAX),
        Ok(usize::MAX)
    );
}

#[test]
fn resolve_rejects_invalid_fraction() {
    assert_eq!(
        resolve_size(&SampleSize::Relative { numer: 3, denom: 2 }, 10),
        Err(SampleError::InvalidConfiguration)
    );
    assert_eq!(
        resolve_size(&SampleSize::Relative { numer: 0, denom: 0 }, 10),
        Err(SampleError::InvalidConfiguration)
    );
    assert_eq!(
        resolve_size(&SampleSize::Relative { numer: 0, denom: 10 }, 10),
        Err(SampleError::InvalidConfiguration)
    );
}

#[test]
fn parse_rejects_zero_fraction() {
    assert_eq!(parse_size("0.0"), Err(SampleError::InvalidConfiguration));
    assert_eq!(parse_size("0."), Err(SampleError::InvalidConfiguration));
    assert_eq!(parse_size(".0"), Err(SampleError::InvalidConfiguration));
    assert_eq!(parse_size("0.000"), Err(SampleError::InvalidConfiguration));
    assert_eq!(parse_size("0.001"), Ok(SampleSize::Relative { numer: 1, denom: 1000 }));
}

#[test]
fn resolve_twice_gives_same_count() {
    let sizes = [
        SampleSize::Absolute(4),
        SampleSize::Relative { numer: 1, denom: 3 },
        SampleSize::Relative { numer: 7, denom: 10 },
    ];
    for size in sizes.iter() {
        let first = resolve_size(size, 17).unwrap();
        let second = resolve_size(size, 17).unwrap();
        assert_eq!(first, second);
        assert_eq!(resolve_size(&SampleSize::Absolute(first), 17), Ok(first));
    }
}

#[test]
fn parse_accepts_plus_sign() {
    assert_eq!(parse_size("+3"), Ok(SampleSize::Absolute(3)));
    assert_eq!(parse_size("+0.5"), Ok(SampleSize::Relative { numer: 5, denom: 10 }));
    assert_eq!(parse_size("+.5"), Ok(SampleSize::Relative { numer: 5, denom: 10 }));
}

#[test]
fn parse_accepts_exponent() {
    assert_eq!(parse_size("5.0e-1"), Ok(SampleSize::Relative { numer: 5, denom: 10 }));
    assert_eq!(parse_size("2.5E-1"), Ok(SampleSize::Relative { numer: 25, denom: 100 }));
    assert_eq!(parse_size("0.5e+0"), Ok(SampleSize::Relative { numer: 5, denom: 10 }));
    assert_eq!(parse_size("10.0e-1"), Ok(SampleSize::Relative { numer: 1, denom: 1 }));
    assert_eq!(parse_size("0.001e2"), Ok(SampleSize::Relative { numer: 1, denom: 10 }));
    assert_eq!(parse_size("0.05e2"), Err(SampleError::InvalidConfiguration));
    assert_eq!(parse_size("0.0e5"), Err(SampleError::InvalidConfiguration));
    assert_eq!(parse_size("1.5e-1"), Ok(SampleSize::Relative { numer: 15, denom: 100 }));
}

#[test]
fn parse_cancels_trailing_zeros() {
    assert_eq!(
        parse_size("0.50000000000000000000"),
        Ok(SampleSize::Relative { numer: 5, denom: 10 })
    );
    assert_eq!(parse_size("0.2500"), Ok(SampleSize::Relative { numer: 25, denom: 100 }));
    assert_eq!(
        parse_size("0.1234567890123456789"),
        Ok(SampleSize::Relative { numer: 1234567890123456789, denom: 10000000000000000000 })
    );
}

#[test]
fn parse_rounds_long_fractions_down() {
    let ten19 = 10_000_000_000_000_000_000u64;
    assert_eq!(
        parse_size("0.12345678901234567891"),
        Ok(SampleSize::Relative { numer: 1234567890123456789, denom: ten19 })
    );
    assert_eq!(
        parse_size("0.99999999999999999999"),
        Ok(SampleSize::Relative { numer: 9999999999999999999, denom: ten19 })
    );
    assert_eq!(parse_size("1.0e-30"), Ok(SampleSize::Relative { numer: 1, denom: ten19 }));
    assert_eq!(
        parse_size("0.00000000000000000000001"),
        Ok(SampleSize::Relative { numer: 1, denom: ten19 })
    );
    assert_eq!(parse_size("1.00000000000000000001"), Err(SampleError::InvalidConfiguration));
    assert_eq!(parse_size("5.0e-99999999999"), Ok(SampleSize::Relative { numer: 1, denom: ten19 }));
    assert_eq!(
        resolve_size(&parse_size("0.12345678901234567891").unwrap(), 100),
        Ok(12)
    );
}
