use match_recognize::datum::Scalar;
use match_recognize::pack_pk::{FORMAT_VERSION, _rw_pack_pk};

#[test]
fn test_rw_pack_pk_deterministic_and_distinct() {
    let r1 = vec![Some(Scalar::Int32(1)), Some(Scalar::Utf8("a".into()))];
    let r2 = vec![Some(Scalar::Int32(1)), Some(Scalar::Utf8("a".into()))];
    let r3 = vec![Some(Scalar::Int32(1)), Some(Scalar::Utf8("b".into()))];
    let v1 = _rw_pack_pk(&r1).unwrap();
    let v2 = _rw_pack_pk(&r2).unwrap();
    let v3 = _rw_pack_pk(&r3).unwrap();
    assert_eq!(v1, v2);
    assert_ne!(v1, v3);
    assert_eq!(v1[0], 0x01);
}

#[test]
fn test_rw_pack_pk_null_distinguished() {
    let r_null_a = vec![None, Some(Scalar::Utf8("a".into()))];
    let r_null_b = vec![Some(Scalar::Int32(0)), Some(Scalar::Utf8("a".into()))];
    let r_null_both = vec![None, None];
    let v_a = _rw_pack_pk(&r_null_a).unwrap();
    let v_b = _rw_pack_pk(&r_null_b).unwrap();
    let v_both = _rw_pack_pk(&r_null_both).unwrap();
    assert_ne!(
        v_a, v_b,
        "NULL must encode distinctly from any concrete value"
    );
    assert_ne!(v_a, v_both);
    assert_ne!(v_b, v_both);
}

#[test]
fn test_rw_pack_pk_cross_type_distinct() {
    // Same logical value 1 with different integer widths must encode differently because their
    // encoded widths differ.
    let r4 = vec![Some(Scalar::Int32(1))];
    let r8 = vec![Some(Scalar::Int64(1))];
    let v4 = _rw_pack_pk(&r4).unwrap();
    let v8 = _rw_pack_pk(&r8).unwrap();
    assert_ne!(v4, v8, "different integer widths produce different bytes");
}

#[test]
fn test_rw_pack_pk_supports_various_types() {
    // A decimal (3.14), a timestamp (2026-05-28 12:00:00), a date (2026, 5, 28) and a time
    // (12, 0, 0), each carried as its encoding: an exponent with pairs of digits, seconds with
    // nanoseconds, days, and seconds with nanoseconds.
    let decimal = vec![0x18, 0x07, 0x1c];
    let timestamp = memcomparable::to_vec(&(1_779_969_600i64, 0u32)).unwrap();
    let date = memcomparable::to_vec(&739_764i32).unwrap();
    let time = memcomparable::to_vec(&(43_200u32, 0u32)).unwrap();
    let mut row: Vec<_> = [decimal, timestamp, date, time]
        .into_iter()
        .map(|b| Some(Scalar::Encoded(b)))
        .collect();
    row.push(Some(Scalar::Bytea(vec![1, 2, 3])));
    let v1 = _rw_pack_pk(&row).unwrap();
    let v2 = _rw_pack_pk(&row).unwrap();
    assert_eq!(v1, v2);
    assert_eq!(v1[0], 0x01, "format version byte still present");
    assert!(
        v1.len() > 1,
        "encoding should produce more than just the version byte"
    );
}

#[test]
fn the_packed_bytes_of_each_type() {
    assert_eq!(_rw_pack_pk(&vec![]).unwrap(), vec![FORMAT_VERSION]);
    assert_eq!(_rw_pack_pk(&vec![None]).unwrap(), vec![1, 1]);
    assert_eq!(
        _rw_pack_pk(&vec![Some(Scalar::Bool(true)), Some(Scalar::Bool(false))]).unwrap(),
        vec![1, 0, 1, 0, 0]
    );
    assert_eq!(
        _rw_pack_pk(&vec![Some(Scalar::Int16(258)), Some(Scalar::Int16(-1))]).unwrap(),
        vec![1, 0, 0x81, 2, 0, 0x7f, 0xff]
    );
    assert_eq!(
        _rw_pack_pk(&vec![Some(Scalar::Int32(1))]).unwrap(),
        vec![1, 0, 0x80, 0, 0, 1]
    );
    assert_eq!(
        _rw_pack_pk(&vec![Some(Scalar::Int32(-2))]).unwrap(),
        vec![1, 0, 0x7f, 0xff, 0xff, 0xfe]
    );
    assert_eq!(
        _rw_pack_pk(&vec![Some(Scalar::Int64(258))]).unwrap(),
        vec![1, 0, 0x80, 0, 0, 0, 0, 0, 1, 2]
    );
    assert_eq!(
        _rw_pack_pk(&vec![Some(Scalar::Utf8("".into()))]).unwrap(),
        vec![1, 0, 0]
    );
    assert_eq!(
        _rw_pack_pk(&vec![Some(Scalar::Utf8("ab".into()))]).unwrap(),
        vec![1, 0, 1, b'a', b'b', 0, 0, 0, 0, 0, 0, 2]
    );
    assert_eq!(
        _rw_pack_pk(&vec![Some(Scalar::Utf8("abcdefgh".into()))]).unwrap(),
        vec![1, 0, 1, b'a', b'b', b'c', b'd', b'e', b'f', b'g', b'h', 8]
    );
    assert_eq!(
        _rw_pack_pk(&vec![Some(Scalar::Utf8("abcdefg\u{e9}".into()))]).unwrap(),
        vec![
            1, 0, 1, b'a', b'b', b'c', b'd', b'e', b'f', b'g', 0xc3, 9, 0xa9, 0, 0, 0, 0, 0, 0, 0,
            1
        ]
    );
    assert_eq!(
        _rw_pack_pk(&vec![Some(Scalar::Bytea(vec![]))]).unwrap(),
        vec![1, 0, 0]
    );
    assert_eq!(
        _rw_pack_pk(&vec![Some(Scalar::Bytea(vec![0xff, 1, 2, 3, 4, 5, 6, 7, 0]))]).unwrap(),
        vec![1, 0, 1, 0xff, 1, 2, 3, 4, 5, 6, 7, 9, 0, 0, 0, 0, 0, 0, 0, 0, 1]
    );
    assert_eq!(
        _rw_pack_pk(&vec![Some(Scalar::Encoded(vec![7, 8]))]).unwrap(),
        vec![1, 0, 7, 8]
    );
}

#[test]
fn packed_rows_of_the_same_types_differ() {
    // the columns cannot run into each other
    let a = vec![
        Some(Scalar::Utf8("ab".into())),
        Some(Scalar::Utf8("c".into())),
    ];
    let b = vec![
        Some(Scalar::Utf8("a".into())),
        Some(Scalar::Utf8("bc".into())),
    ];
    assert_ne!(_rw_pack_pk(&a).unwrap(), _rw_pack_pk(&b).unwrap());
    // neither can columns of bytes, nor bytes that only zeros tell apart
    let a = vec![
        Some(Scalar::Bytea(vec![1, 2])),
        Some(Scalar::Bytea(vec![3])),
    ];
    let b = vec![
        Some(Scalar::Bytea(vec![1])),
        Some(Scalar::Bytea(vec![2, 3])),
    ];
    assert_ne!(_rw_pack_pk(&a).unwrap(), _rw_pack_pk(&b).unwrap());
    let a = vec![Some(Scalar::Bytea(vec![1]))];
    let b = vec![Some(Scalar::Bytea(vec![1, 0]))];
    assert_ne!(_rw_pack_pk(&a).unwrap(), _rw_pack_pk(&b).unwrap());
    let a = vec![Some(Scalar::Int16(1)), Some(Scalar::Int16(2))];
    let b = vec![Some(Scalar::Int16(2)), Some(Scalar::Int16(1))];
    assert_ne!(_rw_pack_pk(&a).unwrap(), _rw_pack_pk(&b).unwrap());
}
