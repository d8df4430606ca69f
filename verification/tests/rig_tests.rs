use catgraph_applied::rig::{first_violated_law, BoolRig, CheckedOps, Checked, One, Zero};

const BIG: i64 = 4_000_000_000;

#[test]
fn bool_rig_zero_one_distinct() {
    assert_ne!(BoolRig::zero(), BoolRig::one());
}

#[test]
fn checked_add_overflow_poisons() {
    let sum = Checked::new(i64::MAX) + Checked::new(1_i64);
    assert!(sum.is_poisoned());
    assert_eq!(
        Checked::new(i64::MAX - 1) + Checked::new(1_i64),
        Checked::new(i64::MAX)
    );
}

#[test]
fn checked_mul_overflow_poisons() {
    let product = Checked::new(BIG) * Checked::new(BIG);
    assert!(product.is_poisoned());
    assert_eq!(product.value(), None);
    assert_eq!(product.into_value(), None);
}

#[test]
fn poison_is_fully_absorbing() {
    let poison = Checked::<i64>::Poison;
    let x = Checked::new(7_i64);

    assert!((poison + x).is_poisoned());
    assert!((x + poison).is_poisoned());
    assert!((poison * x).is_poisoned());
    assert!((x * poison).is_poisoned());

    assert!((poison * Checked::<i64>::zero()).is_poisoned());
    assert!((Checked::<i64>::zero() * poison).is_poisoned());
}

#[test]
fn checked_zero_and_one_are_unpoisoned() {
    assert_eq!(Checked::<i64>::zero(), Checked::new(0_i64));
    assert_eq!(Checked::<i64>::one(), Checked::new(1_i64));
    assert!(!Checked::<i64>::zero().is_poisoned());
    assert!(!Checked::<i64>::one().is_poisoned());

    assert!(Checked::<i64>::zero().is_zero());
    assert!(Checked::<i64>::one().is_one());
    assert!(!Checked::<i64>::Poison.is_zero());
    assert!(!Checked::<i64>::Poison.is_one());
}

#[test]
fn checked_display_from_str_round_trip() {
    let value = Checked::new(-42_i64);
    assert_eq!(value.to_string(), "-42");
    assert_eq!("-42".parse::<Checked<i64>>().unwrap(), value);

    let poison = Checked::<i64>::Poison;
    assert_eq!(poison.to_string(), "⊥");
    assert_eq!("⊥".parse::<Checked<i64>>().unwrap(), poison);

    assert!("not-a-number".parse::<Checked<i64>>().is_err());
}

#[test]
fn bool_rig_is_or_and() {
    let t = BoolRig(true);
    let f = BoolRig(false);
    assert_eq!(t + f, t);
    assert_eq!(f + f, f);
    assert_eq!(t * f, f);
    assert_eq!(t * t, t);
}

#[test]
fn primitive_checked_ops_report_overflow() {
    assert_eq!(<u8 as CheckedOps>::checked_add(&250u8, &10u8), None);
    assert_eq!(<u8 as CheckedOps>::checked_mul(&25u8, &10u8), Some(250u8));
    assert_eq!(<i32 as CheckedOps>::checked_mul(&i32::MIN, &-1i32), None);
    assert_eq!(Checked::from(5u64), Checked::Value(5u64));
}

#[test]
fn checked_text_is_an_optional_sign_and_decimal_digits() {
    assert_eq!("-12".parse::<Checked<i8>>(), Ok(Checked::Value(-12)));
    assert_eq!("+7".parse::<Checked<u8>>(), Ok(Checked::Value(7)));
    assert_eq!("007".parse::<Checked<u64>>(), Ok(Checked::Value(7)));
    assert_eq!("⊥".parse::<Checked<i64>>(), Ok(Checked::Poison));
    assert!("-0".parse::<Checked<u8>>().is_err());
    assert!("256".parse::<Checked<u8>>().is_err());
    assert!("-129".parse::<Checked<i8>>().is_err());
    assert!("".parse::<Checked<i32>>().is_err());
    assert!("+".parse::<Checked<i32>>().is_err());
    assert!(" 1".parse::<Checked<i32>>().is_err());
}

#[test]
fn the_first_failing_law_is_reported() {
    assert_eq!(first_violated_law(&[true, true, false, false]), Some(2));
    assert_eq!(first_violated_law(&[false]), Some(0));
    assert_eq!(first_violated_law(&[true, true]), None);
    assert_eq!(first_violated_law(&[]), None);
}
