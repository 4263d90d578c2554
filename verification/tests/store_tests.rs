use accustore::store::Store;
use accustore::value::{BigDecVal, BigIntVal, StoreError, StoredVal};

fn big(text: &str) -> BigIntVal {
    BigIntVal::parse(text).unwrap()
}

fn dec(text: &str) -> BigDecVal {
    BigDecVal::parse(text).unwrap()
}

fn stored_big_digits(store: &Store, key: &str) -> String {
    match store.get(&key.to_string()) {
        Some(StoredVal::Big(b)) => b.digits.clone(),
        _ => panic!("expected a BigInt slot under {key}"),
    }
}

fn stored_dec_parts(store: &Store, key: &str) -> (String, u64) {
    match store.get(&key.to_string()) {
        Some(StoredVal::Dec(d)) => (d.mantissa.clone(), d.scale),
        _ => panic!("expected a BigDecimal slot under {key}"),
    }
}

fn stored_i64(store: &Store, key: &str) -> i64 {
    match store.get(&key.to_string()) {
        Some(StoredVal::I64(x)) => *x,
        _ => panic!("expected an Int64 slot under {key}"),
    }
}

fn stored_f64(store: &Store, key: &str) -> f64 {
    match store.get_float64_bits(&key.to_string()) {
        Ok(Some(bits)) => f64::from_bits(bits),
        _ => panic!("expected a Float64 slot under {key}"),
    }
}

/// One float64 sum merge, the way an unverified caller drives the
/// bits-level store API.
fn merge_sum_float64(store: &mut Store, ord: u64, key: &str, value: f64) {
    let new = match store.get_float64_bits(&key.to_string()).unwrap() {
        None => value,
        Some(bits) => f64::from_bits(bits) + value,
    };
    store.set_float64_bits(ord, key.to_string(), new.to_bits()).unwrap();
}

/// One float64 set_min merge; NaN is never the minimum.
fn merge_set_min_float64(store: &mut Store, ord: u64, key: &str, value: f64) {
    let new = match store.get_float64_bits(&key.to_string()).unwrap() {
        None => value,
        Some(bits) => {
            let cur = f64::from_bits(bits);
            if value.is_nan() {
                cur
            } else if cur.is_nan() || value < cur {
                value
            } else {
                cur
            }
        }
    };
    store.set_float64_bits(ord, key.to_string(), new.to_bits()).unwrap();
}

#[test]
fn test_sum_big_int() {
    let mut store = Store::new();
    store.sum_bigint(1, "test.key.1".to_string(), big("10")).unwrap();
    store.sum_bigint(1, "test.key.1".to_string(), big("10")).unwrap();
    assert_eq!(stored_big_digits(&store, "test.key.1"), "20");
}

#[test]
fn test_sum_int64() {
    let mut store = Store::new();
    store.sum_int64(1, "sum.int.64".to_string(), 10).unwrap();
    store.sum_int64(1, "sum.int.64".to_string(), 10).unwrap();
    assert_eq!(stored_i64(&store, "sum.int.64"), 20);
}

#[test]
fn test_sum_float64() {
    let mut store = Store::new();
    merge_sum_float64(&mut store, 1, "sum.float.64", 10.75);
    merge_sum_float64(&mut store, 1, "sum.float.64", 10.75);
    assert_eq!(stored_f64(&store, "sum.float.64"), 21.5);
}

#[test]
fn test_sum_big_float_small_number() {
    let mut store = Store::new();
    store.sum_bigfloat(1, "sum.big.float".to_string(), dec("10.5")).unwrap();
    store.sum_bigfloat(1, "sum.big.float".to_string(), dec("10.5")).unwrap();
    // 10.5 + 10.5 = 21.0 with scale 1 preserved.
    assert_eq!(stored_dec_parts(&store, "sum.big.float"), ("210".to_string(), 1));
}

#[test]
fn test_sum_big_float_big_number() {
    let mut store = Store::new();
    store.sum_bigfloat(1, "sum.big.float".to_string(), dec("12345678987654321.5")).unwrap();
    store.sum_bigfloat(1, "sum.big.float".to_string(), dec("12345678987654321.5")).unwrap();
    // 24691357975308643.0, exact, scale 1 preserved.
    assert_eq!(
        stored_dec_parts(&store, "sum.big.float"),
        ("246913579753086430".to_string(), 1)
    );
}

#[test]
fn test_set_min_int64() {
    let mut store = Store::new();
    store.set_min_int64(1, "set_min_int64".to_string(), 5).unwrap();
    store.set_min_int64(1, "set_min_int64".to_string(), 2).unwrap();
    assert_eq!(stored_i64(&store, "set_min_int64"), 2);
}

#[test]
fn test_set_min_bigint() {
    let mut store = Store::new();
    store.set_min_bigint(1, "set_min_bigint".to_string(), big("5")).unwrap();
    store.set_min_bigint(1, "set_min_bigint".to_string(), big("3")).unwrap();
    assert_eq!(stored_big_digits(&store, "set_min_bigint"), "3");
}

#[test]
fn test_set_min_float64() {
    let mut store = Store::new();
    merge_set_min_float64(&mut store, 1, "set_min_float64", 10.05);
    merge_set_min_float64(&mut store, 1, "set_min_float64", 10.04);
    assert_eq!(stored_f64(&store, "set_min_float64"), 10.04);
}

#[test]
fn test_set_min_bigfloat() {
    let mut store = Store::new();
    store.set_min_bigfloat(1, "set_min_bigfloat".to_string(), dec("11.05")).unwrap();
    store.set_min_bigfloat(1, "set_min_bigfloat".to_string(), dec("11.04")).unwrap();
    assert_eq!(stored_dec_parts(&store, "set_min_bigfloat"), ("1104".to_string(), 2));
}

#[test]
fn sum_int64_order_independent() {
    let mut a = Store::new();
    let mut b = Store::new();
    for v in [1, 2, 3, -4] {
        a.sum_int64(1, "k".to_string(), v).unwrap();
    }
    for v in [-4, 3, 1, 2] {
        b.sum_int64(1, "k".to_string(), v).unwrap();
    }
    assert_eq!(stored_i64(&a, "k"), 2);
    assert_eq!(stored_i64(&b, "k"), 2);
}

#[test]
fn sum_bigint_order_independent() {
    let mut a = Store::new();
    let mut b = Store::new();
    for v in ["7", "11", "2"] {
        a.sum_bigint(1, "k".to_string(), big(v)).unwrap();
    }
    for v in ["2", "7", "11"] {
        b.sum_bigint(1, "k".to_string(), big(v)).unwrap();
    }
    assert_eq!(stored_big_digits(&a, "k"), "20");
    assert_eq!(stored_big_digits(&b, "k"), "20");
}

#[test]
fn sum_bigfloat_order_independent() {
    let mut a = Store::new();
    let mut b = Store::new();
    for v in ["0.5", "2", "1.25"] {
        a.sum_bigfloat(1, "k".to_string(), dec(v)).unwrap();
    }
    for v in ["1.25", "0.5", "2"] {
        b.sum_bigfloat(1, "k".to_string(), dec(v)).unwrap();
    }
    // 3.75 at the largest scale seen.
    assert_eq!(stored_dec_parts(&a, "k"), ("375".to_string(), 2));
    assert_eq!(stored_dec_parts(&b, "k"), ("375".to_string(), 2));
}

#[test]
fn set_min_order_independent() {
    let mut a = Store::new();
    let mut b = Store::new();
    for v in [5, 2, 9] {
        a.set_min_int64(1, "k".to_string(), v).unwrap();
    }
    for v in [9, 5, 2] {
        b.set_min_int64(1, "k".to_string(), v).unwrap();
    }
    assert_eq!(stored_i64(&a, "k"), 2);
    assert_eq!(stored_i64(&b, "k"), 2);
}

#[test]
fn set_min_repeated_value_idempotent() {
    let mut store = Store::new();
    store.set_min_int64(1, "k".to_string(), 5).unwrap();
    store.set_min_int64(2, "k".to_string(), 5).unwrap();
    assert_eq!(stored_i64(&store, "k"), 5);
}

#[test]
fn domain_mismatch_leaves_slot_unchanged() {
    let mut store = Store::new();
    store.sum_int64(1, "k".to_string(), 10).unwrap();
    let r = store.sum_bigint(2, "k".to_string(), big("10"));
    assert_eq!(r, Err(StoreError::DomainMismatch));
    let r = store.set_min_bigfloat(3, "k".to_string(), dec("1.5"));
    assert_eq!(r, Err(StoreError::DomainMismatch));
    let r = store.set_float64_bits(4, "k".to_string(), 1.0f64.to_bits());
    assert_eq!(r, Err(StoreError::DomainMismatch));
    assert_eq!(stored_i64(&store, "k"), 10);
    assert_eq!(store.last_ordinal(&"k".to_string()), Some(1));
}

#[test]
fn int64_overflow_leaves_slot_unchanged() {
    let mut store = Store::new();
    store.sum_int64(1, "k".to_string(), i64::MAX).unwrap();
    let r = store.sum_int64(2, "k".to_string(), 1);
    assert_eq!(r, Err(StoreError::ArithmeticOverflow));
    assert_eq!(stored_i64(&store, "k"), i64::MAX);
    assert_eq!(store.last_ordinal(&"k".to_string()), Some(1));

    let mut store = Store::new();
    store.sum_int64(1, "n".to_string(), i64::MIN).unwrap();
    let r = store.sum_int64(2, "n".to_string(), -1);
    assert_eq!(r, Err(StoreError::ArithmeticOverflow));
    assert_eq!(stored_i64(&store, "n"), i64::MIN);
}

#[test]
fn absent_key_reads_as_absent() {
    let store = Store::new();
    assert!(store.get(&"nope".to_string()).is_none());
    assert_eq!(store.last_ordinal(&"nope".to_string()), None);
    assert_eq!(store.get_float64_bits(&"nope".to_string()), Ok(None));
}

#[test]
fn last_ordinal_tracks_latest_write() {
    let mut store = Store::new();
    store.sum_int64(3, "k".to_string(), 1).unwrap();
    assert_eq!(store.last_ordinal(&"k".to_string()), Some(3));
    store.sum_int64(9, "k".to_string(), 1).unwrap();
    assert_eq!(store.last_ordinal(&"k".to_string()), Some(9));
}

#[test]
fn bigint_parse_rejects_malformed_text() {
    assert_eq!(BigIntVal::parse(""), Err(StoreError::ParseError));
    assert_eq!(BigIntVal::parse("12a"), Err(StoreError::ParseError));
    assert_eq!(BigIntVal::parse("-5"), Err(StoreError::ParseError));
    assert_eq!(BigIntVal::parse("1.5"), Err(StoreError::ParseError));
    assert!(BigIntVal::parse("0012").is_ok());
}

#[test]
fn bigdec_parse_accepts_and_rejects() {
    let d = dec("10.5");
    assert_eq!(d.mantissa, "105");
    assert_eq!(d.scale, 1);
    let d = dec("-11.04");
    assert_eq!(d.mantissa, "-1104");
    assert_eq!(d.scale, 2);
    let d = dec("42");
    assert_eq!(d.mantissa, "42");
    assert_eq!(d.scale, 0);
    assert_eq!(BigDecVal::parse(""), Err(StoreError::ParseError));
    assert_eq!(BigDecVal::parse("."), Err(StoreError::ParseError));
    assert_eq!(BigDecVal::parse(".5"), Err(StoreError::ParseError));
    assert_eq!(BigDecVal::parse("10."), Err(StoreError::ParseError));
    assert_eq!(BigDecVal::parse("1.2.3"), Err(StoreError::ParseError));
    assert_eq!(BigDecVal::parse("-"), Err(StoreError::ParseError));
    assert_eq!(BigDecVal::parse("1,5"), Err(StoreError::ParseError));
}

#[test]
fn bigfloat_min_compares_by_numeric_value() {
    // 1.50 (scale 2) is numerically equal to 1.5 (scale 1); the stored
    // slot keeps the earlier representation on a tie.
    let mut store = Store::new();
    store.set_min_bigfloat(1, "k".to_string(), dec("1.50")).unwrap();
    store.set_min_bigfloat(2, "k".to_string(), dec("1.5")).unwrap();
    assert_eq!(stored_dec_parts(&store, "k"), ("150".to_string(), 2));
    // A numerically smaller value wins whatever its scale.
    store.set_min_bigfloat(3, "k".to_string(), dec("0.75")).unwrap();
    assert_eq!(stored_dec_parts(&store, "k"), ("75".to_string(), 2));
}

#[test]
fn separate_keys_do_not_interact() {
    let mut store = Store::new();
    store.sum_int64(1, "a".to_string(), 1).unwrap();
    store.sum_bigint(2, "b".to_string(), big("2")).unwrap();
    store.sum_bigfloat(3, "c".to_string(), dec("3.5")).unwrap();
    let _ = store.sum_int64(4, "b".to_string(), 1);
    assert_eq!(stored_i64(&store, "a"), 1);
    assert_eq!(stored_big_digits(&store, "b"), "2");
    assert_eq!(stored_dec_parts(&store, "c"), ("35".to_string(), 1));
}

#[test]
fn set_min_float64_nan_is_never_minimum() {
    let mut store = Store::new();
    merge_set_min_float64(&mut store, 1, "k", 2.5);
    merge_set_min_float64(&mut store, 2, "k", f64::NAN);
    assert_eq!(stored_f64(&store, "k"), 2.5);
    let mut store = Store::new();
    merge_set_min_float64(&mut store, 1, "n", f64::NAN);
    merge_set_min_float64(&mut store, 2, "n", 7.0);
    assert_eq!(stored_f64(&store, "n"), 7.0);
}
