//! Packing the columns of a row into bytes.

use crate::datum::{
    before, bytes_before, differ_first_at, lemma_order_of_values, row_view, Datum, DatumView, RowView,
    Scalar, ScalarView,
};
use vstd::prelude::*;
use vstd::utf8::{decode_utf8, encode_utf8, encode_utf8_decode_utf8};

verus! {

/// The error of an encoding.
#[verifier::external_type_specification]
#[verifier::external_body]
pub struct ExMemcomparableError(memcomparable::Error);

/// Why a row could not be packed.
#[derive(Debug, Clone, Copy, PartialEq, Eq, Structural)]
pub enum PackError {
    /// A value has no encoding.
    Internal,
}

/// The first byte of every packed row, so that the encoding can change later.
pub const FORMAT_VERSION: u8 = 1;

/// The lowest `n` bytes of a number, the highest byte first.
pub open spec fn be_bytes(v: nat, n: nat) -> Seq<u8>
    decreases n,
{
    if n == 0 {
        Seq::empty()
    } else {
        be_bytes(v / 256, (n - 1) as nat).push((v % 256) as u8)
    }
}

/// `n` zero bytes.
pub open spec fn zeros(n: nat) -> Seq<u8> {
    Seq::new(n, |i: int| 0u8)
}

/// Bytes in groups of eight, each followed by a marker: 9 where more groups follow, and the number
/// of bytes in the group where it is the last. The last group is filled up with zeros.
pub open spec fn groups(b: Seq<u8>) -> Seq<u8>
    decreases b.len(),
{
    if b.len() == 0 {
        Seq::empty()
    } else if b.len() <= 8 {
        b + zeros((8 - b.len()) as nat) + seq![b.len() as u8]
    } else {
        b.take(8) + seq![9u8] + groups(b.skip(8))
    }
}

/// The encoding of bytes: whether there are any, and their groups.
pub open spec fn encoded_bytes(b: Seq<u8>) -> Seq<u8> {
    seq![if b.len() == 0 { 0u8 } else { 1u8 }] + groups(b)
}

/// Calls `memcomparable::to_vec` on a `bool`: one byte, 1 for `true`.
#[verifier::external_body]
fn encode_bool(v: bool) -> (r: Result<Vec<u8>, memcomparable::Error>)
    ensures
        r is Ok,
        r->Ok_0@ == seq![if v { 1u8 } else { 0u8 }],
{
    memcomparable::to_vec(&v)
}

/// Calls `memcomparable::to_vec` on an `i16`: two bytes, the highest first, with the sign bit
/// flipped, which adds 2^15.
#[verifier::external_body]
fn encode_i16(v: i16) -> (r: Result<Vec<u8>, memcomparable::Error>)
    ensures
        r is Ok,
        r->Ok_0@ == be_bytes((v + 0x8000) as nat, 2),
{
    memcomparable::to_vec(&v)
}

/// Calls `memcomparable::to_vec` on an `i32`: four bytes, the highest first, with the sign bit
/// flipped, which adds 2^31.
#[verifier::external_body]
fn encode_i32(v: i32) -> (r: Result<Vec<u8>, memcomparable::Error>)
    ensures
        r is Ok,
        r->Ok_0@ == be_bytes((v + 0x8000_0000) as nat, 4),
{
    memcomparable::to_vec(&v)
}

/// Calls `memcomparable::to_vec` on an `i64`: eight bytes, the highest first, with the sign bit
/// flipped, which adds 2^63.
#[verifier::external_body]
fn encode_i64(v: i64) -> (r: Result<Vec<u8>, memcomparable::Error>)
    ensures
        r is Ok,
        r->Ok_0@ == be_bytes((v + 0x8000_0000_0000_0000) as nat, 8),
{
    memcomparable::to_vec(&v)
}

/// Calls `memcomparable::to_vec` on a string: the encoding of its UTF-8 bytes.
#[verifier::external_body]
fn encode_str(v: &str) -> (r: Result<Vec<u8>, memcomparable::Error>)
    ensures
        r is Ok,
        r->Ok_0@ == encoded_bytes(encode_utf8(v@)),
{
    memcomparable::to_vec(&v)
}

/// Calls `serialize_bytes` of a `memcomparable::Serializer` over an empty buffer, which fills the
/// buffer with the encoding of the bytes, as of those of a string.
#[verifier::external_body]
fn encode_bytes(v: &[u8]) -> (r: Result<Vec<u8>, memcomparable::Error>)
    ensures
        r is Ok,
        r->Ok_0@ == encoded_bytes(v@),
{
    let mut serializer = memcomparable::Serializer::new(Vec::new());
    serde::Serializer::serialize_bytes(&mut serializer, v)?;
    Ok(serializer.into_inner())
}

/// The encoding of a value. A value that is given by its encoding has that one.
pub open spec fn scalar_bytes(s: ScalarView) -> Seq<u8> {
    match s {
        ScalarView::Bool(v) => seq![if v { 1u8 } else { 0u8 }],
        ScalarView::Int16(v) => be_bytes((v + 0x8000) as nat, 2),
        ScalarView::Int32(v) => be_bytes((v + 0x8000_0000) as nat, 4),
        ScalarView::Int64(v) => be_bytes((v + 0x8000_0000_0000_0000) as nat, 8),
        ScalarView::Utf8(v) => encoded_bytes(encode_utf8(v)),
        ScalarView::Bytea(b) => encoded_bytes(b),
        ScalarView::Encoded(b) => b,
    }
}

/// The encoding of a column: a tag that says whether it is NULL, and the value. NULL sorts last.
pub open spec fn datum_bytes(d: DatumView) -> Seq<u8> {
    match d {
        None => seq![1u8],
        Some(s) => seq![0u8] + scalar_bytes(s),
    }
}

/// The encodings of the columns from index `i` on.
pub open spec fn columns_bytes(row: RowView, i: int) -> Seq<u8>
    decreases row.len() - i,
{
    if i < 0 || i >= row.len() {
        Seq::empty()
    } else {
        datum_bytes(row[i]) + columns_bytes(row, i + 1)
    }
}

/// The packed row: the format version, and the encodings of the columns.
pub open spec fn packed(row: RowView) -> Seq<u8> {
    seq![FORMAT_VERSION] + columns_bytes(row, 0)
}

/// The encoding of a value.
fn encode_scalar(s: &Scalar) -> (r: Result<Vec<u8>, PackError>)
    ensures
        r is Ok,
        r->Ok_0@ == scalar_bytes(s@),
{
    let encoded = match s {
        Scalar::Bool(v) => encode_bool(*v),
        Scalar::Int16(v) => encode_i16(*v),
        Scalar::Int32(v) => encode_i32(*v),
        Scalar::Int64(v) => encode_i64(*v),
        Scalar::Utf8(v) => encode_str(v.as_str()),
        Scalar::Bytea(b) => encode_bytes(b.as_slice()),
        Scalar::Encoded(b) => Ok(bytes_copy(b)),
    };
    match encoded {
        Ok(b) => Ok(b),
        Err(_) => Err(PackError::Internal),
    }
}

fn bytes_copy(b: &Vec<u8>) -> (r: Vec<u8>)
    ensures
        r@ == b@,
{
    let mut r: Vec<u8> = Vec::new();
    append_bytes(&mut r, b);
    assert(r@ =~= b@);
    r
}

fn append_bytes(out: &mut Vec<u8>, b: &Vec<u8>)
    ensures
        final(out)@ == old(out)@ + b@,
{
    let ghost start = out@;
    let mut i: usize = 0;
    assert(out@ =~= start + b@.take(0));
    while i < b.len()
        invariant
            i <= b@.len(),
            out@ == start + b@.take(i as int),
        decreases b@.len() - i,
    {
        out.push(b[i]);
        assert(start + b@.take(i + 1) =~= (start + b@.take(i as int)).push(b@[i as int]));
        i = i + 1;
    }
    assert(b@.take(i as int) =~= b@);
}

/// Pack the columns of a row into bytes.
pub fn _rw_pack_pk(row: &Vec<Datum>) -> (r: Result<Vec<u8>, PackError>)
    ensures
        r is Ok,
        r->Ok_0@ == packed(row_view(row@)),
{
    let ghost rv = row_view(row@);
    let mut out: Vec<u8> = Vec::new();
    out.push(FORMAT_VERSION);
    let mut i: usize = 0;
    assert(out@ =~= seq![FORMAT_VERSION]);
    while i < row.len()
        invariant
            i <= row@.len(),
            rv == row_view(row@),
            packed(rv) == out@ + columns_bytes(rv, i as int),
        decreases row@.len() - i,
    {
        let ghost start = out@;
        match &row[i] {
            None => {
                out.push(1u8);
                assert(out@ =~= start + datum_bytes(rv[i as int]));
            },
            Some(s) => {
                let encoded = match encode_scalar(s) {
                    Ok(b) => b,
                    Err(e) => {
                        return Err(e);
                    },
                };
                out.push(0u8);
                append_bytes(&mut out, &encoded);
                assert(out@ =~= start + datum_bytes(rv[i as int]));
            },
        }
        assert(start + (datum_bytes(rv[i as int]) + columns_bytes(rv, i + 1)) =~= out@
            + columns_bytes(rv, i + 1));
        i = i + 1;
    }
    assert(out@ + Seq::empty() =~= out@);
    Ok(out)
}

proof fn lemma_be_bytes_len(v: nat, n: nat)
    ensures
        be_bytes(v, n).len() == n,
    decreases n,
{
    if n > 0 {
        lemma_be_bytes_len(v / 256, (n - 1) as nat);
    }
}

spec fn power256(n: nat) -> nat
    decreases n,
{
    if n == 0 {
        1
    } else {
        256 * power256((n - 1) as nat)
    }
}

proof fn lemma_be_bytes_injective(a: nat, b: nat, n: nat)
    requires
        be_bytes(a, n) == be_bytes(b, n),
        a < power256(n),
        b < power256(n),
    ensures
        a == b,
    decreases n,
{
    if n > 0 {
        let m = (n - 1) as nat;
        lemma_be_bytes_len(a / 256, m);
        lemma_be_bytes_len(b / 256, m);
        let x = be_bytes(a, n);
        let y = be_bytes(b, n);
        assert(x.last() == y.last());
        assert(x.drop_last() =~= be_bytes(a / 256, m));
        assert(y.drop_last() =~= be_bytes(b / 256, m));
        assert(a % 256 == b % 256) by {
            assert((a % 256) as u8 == (b % 256) as u8);
        }
        lemma_be_bytes_injective(a / 256, b / 256, m);
    }
}

/// Bytes of the same length at the front of equal sequences are equal, and so is the rest.
proof fn lemma_split(a: Seq<u8>, b: Seq<u8>, x: Seq<u8>, y: Seq<u8>)
    requires
        a + x == b + y,
        a.len() == b.len(),
    ensures
        a == b,
        x == y,
{
    assert((a + x).take(a.len() as int) =~= a);
    assert((b + y).take(b.len() as int) =~= b);
    assert((a + x).skip(a.len() as int) =~= x);
    assert((b + y).skip(b.len() as int) =~= y);
}

proof fn lemma_groups_unique(a: Seq<u8>, b: Seq<u8>, x: Seq<u8>, y: Seq<u8>)
    requires
        a.len() > 0,
        b.len() > 0,
        groups(a) + x == groups(b) + y,
    ensures
        a == b,
        x == y,
    decreases a.len(),
{
    let ga = groups(a) + x;
    let gb = groups(b) + y;
    let ma = if a.len() <= 8 {
        a.len() as u8
    } else {
        9u8
    };
    let mb = if b.len() <= 8 {
        b.len() as u8
    } else {
        9u8
    };
    assert(ga[8] == ma);
    assert(gb[8] == mb);
    if a.len() <= 8 {
        assert(b.len() <= 8 && a.len() == b.len());
        let fa = a + zeros((8 - a.len()) as nat) + seq![ma];
        let fb = b + zeros((8 - b.len()) as nat) + seq![mb];
        lemma_split(fa, fb, x, y);
        assert(fa.take(a.len() as int) =~= a);
        assert(fb.take(b.len() as int) =~= b);
    } else {
        let ha = a.take(8) + seq![9u8];
        let hb = b.take(8) + seq![9u8];
        assert(ha + (groups(a.skip(8)) + x) =~= ga);
        assert(hb + (groups(b.skip(8)) + y) =~= gb);
        lemma_split(ha, hb, groups(a.skip(8)) + x, groups(b.skip(8)) + y);
        lemma_groups_unique(a.skip(8), b.skip(8), x, y);
        assert(a =~= ha.take(8) + a.skip(8));
        assert(b =~= hb.take(8) + b.skip(8));
    }
}

proof fn lemma_bytes_unique(p: Seq<u8>, q: Seq<u8>, x: Seq<u8>, y: Seq<u8>)
    requires
        encoded_bytes(p) + x == encoded_bytes(q) + y,
    ensures
        p == q,
        x == y,
{
    let hp = seq![if p.len() == 0 { 0u8 } else { 1u8 }];
    let hq = seq![if q.len() == 0 { 0u8 } else { 1u8 }];
    assert(hp + (groups(p) + x) =~= encoded_bytes(p) + x);
    assert(hq + (groups(q) + y) =~= encoded_bytes(q) + y);
    lemma_split(hp, hq, groups(p) + x, groups(q) + y);
    assert(hp[0] == hq[0]);
    if p.len() == 0 {
        assert(p =~= q);
        assert(groups(p) + x =~= x);
        assert(groups(q) + y =~= y);
    } else {
        lemma_groups_unique(p, q, x, y);
    }
}

/// Two values are of the same type. Of two that are given by their encodings, either the encodings
/// have the same length, as those of a type of fixed width have, or neither begins with the other.
pub open spec fn same_type(a: ScalarView, b: ScalarView) -> bool {
    match (a, b) {
        (ScalarView::Bool(_), ScalarView::Bool(_)) => true,
        (ScalarView::Int16(_), ScalarView::Int16(_)) => true,
        (ScalarView::Int32(_), ScalarView::Int32(_)) => true,
        (ScalarView::Int64(_), ScalarView::Int64(_)) => true,
        (ScalarView::Utf8(_), ScalarView::Utf8(_)) => true,
        (ScalarView::Bytea(_), ScalarView::Bytea(_)) => true,
        (ScalarView::Encoded(x), ScalarView::Encoded(y)) => x.len() == y.len() || !(x.is_prefix_of(
            y,
        ) || y.is_prefix_of(x)),
        _ => false,
    }
}

proof fn lemma_scalar_unique(a: ScalarView, b: ScalarView, x: Seq<u8>, y: Seq<u8>)
    requires
        same_type(a, b),
        scalar_bytes(a) + x == scalar_bytes(b) + y,
    ensures
        a == b,
        x == y,
{
    match (a, b) {
        (ScalarView::Bool(u), ScalarView::Bool(v)) => {
            lemma_split(scalar_bytes(a), scalar_bytes(b), x, y);
            assert(scalar_bytes(a)[0] == scalar_bytes(b)[0]);
        },
        (ScalarView::Int16(u), ScalarView::Int16(v)) => {
            let m = (u + 0x8000) as nat;
            let n = (v + 0x8000) as nat;
            lemma_be_bytes_len(m, 2);
            lemma_be_bytes_len(n, 2);
            lemma_split(scalar_bytes(a), scalar_bytes(b), x, y);
            reveal_with_fuel(power256, 3);
            lemma_be_bytes_injective(m, n, 2);
        },
        (ScalarView::Int32(u), ScalarView::Int32(v)) => {
            let m = (u + 0x8000_0000) as nat;
            let n = (v + 0x8000_0000) as nat;
            lemma_be_bytes_len(m, 4);
            lemma_be_bytes_len(n, 4);
            lemma_split(scalar_bytes(a), scalar_bytes(b), x, y);
            reveal_with_fuel(power256, 5);
            lemma_be_bytes_injective(m, n, 4);
        },
        (ScalarView::Int64(u), ScalarView::Int64(v)) => {
            let m = (u + 0x8000_0000_0000_0000) as nat;
            let n = (v + 0x8000_0000_0000_0000) as nat;
            lemma_be_bytes_len(m, 8);
            lemma_be_bytes_len(n, 8);
            lemma_split(scalar_bytes(a), scalar_bytes(b), x, y);
            reveal_with_fuel(power256, 9);
            lemma_be_bytes_injective(m, n, 8);
        },
        (ScalarView::Utf8(u), ScalarView::Utf8(v)) => {
            let p = encode_utf8(u);
            let q = encode_utf8(v);
            lemma_bytes_unique(p, q, x, y);
            encode_utf8_decode_utf8(u);
            encode_utf8_decode_utf8(v);
            assert(decode_utf8(p) == u);
            assert(decode_utf8(q) == v);
        },
        (ScalarView::Bytea(u), ScalarView::Bytea(v)) => {
            lemma_bytes_unique(u, v, x, y);
        },
        (ScalarView::Encoded(u), ScalarView::Encoded(v)) => {
            if u.len() <= v.len() {
                assert(u.is_prefix_of(v)) by {
                    assert((u + x).take(u.len() as int) =~= u);
                    assert((v + y).take(u.len() as int) =~= v.take(u.len() as int));
                }
            } else {
                assert(v.is_prefix_of(u)) by {
                    assert((u + x).take(v.len() as int) =~= u.take(v.len() as int));
                    assert((v + y).take(v.len() as int) =~= v);
                }
            }
            lemma_split(u, v, x, y);
        },
        _ => {},
    }
}

/// Two rows have columns of the same types.
pub open spec fn same_types(a: RowView, b: RowView) -> bool {
    &&& a.len() == b.len()
    &&& forall|i: int|
        0 <= i < a.len() ==> (match (#[trigger] a[i], b[i]) {
            (Some(x), Some(y)) => same_type(x, y),
            _ => true,
        })
}

proof fn lemma_columns_unique(a: RowView, b: RowView, i: int)
    requires
        same_types(a, b),
        0 <= i <= a.len(),
        columns_bytes(a, i) == columns_bytes(b, i),
    ensures
        a.skip(i) == b.skip(i),
    decreases a.len() - i,
{
    if i < a.len() {
        let x = columns_bytes(a, i + 1);
        let y = columns_bytes(b, i + 1);
        let da = datum_bytes(a[i]);
        let db = datum_bytes(b[i]);
        assert((da + x)[0] == da[0]);
        assert((db + y)[0] == db[0]);
        match (a[i], b[i]) {
            (None, None) => {
                lemma_split(da, db, x, y);
            },
            (Some(s), Some(t)) => {
                let tag = seq![0u8];
                assert(tag + (scalar_bytes(s) + x) =~= da + x);
                assert(tag + (scalar_bytes(t) + y) =~= db + y);
                lemma_split(tag, tag, scalar_bytes(s) + x, scalar_bytes(t) + y);
                lemma_scalar_unique(s, t, x, y);
            },
            _ => {},
        }
        lemma_columns_unique(a, b, i + 1);
        assert(a.skip(i) =~= seq![a[i]] + a.skip(i + 1));
        assert(b.skip(i) =~= seq![b[i]] + b.skip(i + 1));
    } else {
        assert(a.skip(i) =~= b.skip(i));
    }
}

/// The law of packing: two rows with columns of the same types have the same packed form if and only
/// if they are the same row. So the packed form identifies the row, and NULL differs from every
/// value.
pub proof fn lemma_packed_identifies_row(a: RowView, b: RowView)
    requires
        same_types(a, b),
    ensures
        packed(a) == packed(b) <==> a == b,
{
    if packed(a) == packed(b) {
        lemma_split(
            seq![FORMAT_VERSION],
            seq![FORMAT_VERSION],
            columns_bytes(a, 0),
            columns_bytes(b, 0),
        );
        lemma_columns_unique(a, b, 0);
        assert(a.skip(0) =~= a);
        assert(b.skip(0) =~= b);
    }
}

/// There is a byte in which the two differ, all bytes before it are the same, and it is less in `a`.
pub open spec fn less_at(a: Seq<u8>, b: Seq<u8>, k: int) -> bool {
    &&& 0 <= k < a.len()
    &&& k < b.len()
    &&& forall|i: int| 0 <= i < k ==> #[trigger] a[i] == b[i]
    &&& a[k] < b[k]
}

/// Packed rows begin with the byte 1, and they are ordered as the rows are: by the first column in
/// which the rows differ, a value before NULL and a lesser value before a greater one.
pub proof fn lemma_packed_in_order(a: RowView, b: RowView, i: int)
    requires
        same_types(a, b),
        0 <= i < a.len(),
        forall|j: int| 0 <= j < i ==> #[trigger] a[j] == b[j],
        a[i] is Some,
        b[i] is None || before(a[i]->Some_0, b[i]->Some_0),
    ensures
        packed(a)[0] == 1,
        packed(b)[0] == 1,
        exists|k: int| #[trigger] less_at(packed(a), packed(b), k),
{
    let k = lemma_columns_in_order(a, b, 0, i);
    lemma_less_behind(seq![FORMAT_VERSION], columns_bytes(a, 0), columns_bytes(b, 0), k);
    assert(less_at(packed(a), packed(b), 1 + k));
}

proof fn lemma_columns_in_order(a: RowView, b: RowView, from: int, i: int) -> (k: int)
    requires
        same_types(a, b),
        0 <= from <= i < a.len(),
        forall|j: int| 0 <= j < i ==> #[trigger] a[j] == b[j],
        a[i] is Some,
        b[i] is None || before(a[i]->Some_0, b[i]->Some_0),
    ensures
        less_at(columns_bytes(a, from), columns_bytes(b, from), k),
    decreases i - from,
{
    let ra = columns_bytes(a, from + 1);
    let rb = columns_bytes(b, from + 1);
    if from < i {
        let k = lemma_columns_in_order(a, b, from + 1, i);
        assert(a[from] == b[from]);
        lemma_less_behind(datum_bytes(a[from]), ra, rb, k);
        datum_bytes(a[from]).len() + k
    } else {
        match b[i] {
            None => {
                assert(less_at(datum_bytes(a[i]), datum_bytes(b[i]), 0));
                lemma_less_before(datum_bytes(a[i]), datum_bytes(b[i]), ra, rb, 0);
                0
            },
            Some(y) => {
                let x = a[i]->Some_0;
                assert(same_type(x, y));
                let k = lemma_scalar_in_order(x, y);
                lemma_less_behind(seq![0u8], scalar_bytes(x), scalar_bytes(y), k);
                lemma_less_before(datum_bytes(a[i]), datum_bytes(b[i]), ra, rb, 1 + k);
                1 + k
            },
        }
    }
}

/// What comes before two byte strings makes no difference to their order.
proof fn lemma_less_behind(head: Seq<u8>, a: Seq<u8>, b: Seq<u8>, k: int)
    requires
        less_at(a, b, k),
    ensures
        less_at(head + a, head + b, head.len() + k),
{
    assert forall|i: int| 0 <= i < head.len() + k implies #[trigger] (head + a)[i] == (head
        + b)[i] by {
        if i >= head.len() {
            assert(a[i - head.len()] == b[i - head.len()]);
        }
    }
}

/// What comes behind the byte in which two byte strings differ makes no difference to their order.
proof fn lemma_less_before(a: Seq<u8>, b: Seq<u8>, x: Seq<u8>, y: Seq<u8>, k: int)
    requires
        less_at(a, b, k),
    ensures
        less_at(a + x, b + y, k),
{
    assert forall|i: int| 0 <= i < k implies #[trigger] (a + x)[i] == (b + y)[i] by {
        assert(a[i] == b[i]);
    }
}

proof fn lemma_scalar_in_order(a: ScalarView, b: ScalarView) -> (k: int)
    requires
        same_type(a, b),
        before(a, b),
    ensures
        less_at(scalar_bytes(a), scalar_bytes(b), k),
{
    match (a, b) {
        (ScalarView::Bool(x), ScalarView::Bool(y)) => {
            assert(less_at(scalar_bytes(a), scalar_bytes(b), 0));
            0
        },
        (ScalarView::Int16(x), ScalarView::Int16(y)) => {
            assert(power256(2) == 0x1_0000) by {
                reveal_with_fuel(power256, 3);
            }
            lemma_be_bytes_in_order((x + 0x8000) as nat, (y + 0x8000) as nat, 2)
        },
        (ScalarView::Int32(x), ScalarView::Int32(y)) => {
            assert(power256(4) == 0x1_0000_0000) by {
                reveal_with_fuel(power256, 5);
            }
            lemma_be_bytes_in_order((x + 0x8000_0000) as nat, (y + 0x8000_0000) as nat, 4)
        },
        (ScalarView::Int64(x), ScalarView::Int64(y)) => {
            assert(power256(8) == 0x1_0000_0000_0000_0000) by {
                reveal_with_fuel(power256, 9);
            }
            lemma_be_bytes_in_order(
                (x + 0x8000_0000_0000_0000) as nat,
                (y + 0x8000_0000_0000_0000) as nat,
                8,
            )
        },
        (ScalarView::Utf8(x), ScalarView::Utf8(y)) => lemma_encoded_in_order(
            encode_utf8(x),
            encode_utf8(y),
        ),
        (ScalarView::Bytea(x), ScalarView::Bytea(y)) => lemma_encoded_in_order(x, y),
        (ScalarView::Encoded(x), ScalarView::Encoded(y)) => {
            let k = lemma_first_difference(x, y);
            if k == x.len() {
                assert(x =~= y.take(k));
                assert(x.is_prefix_of(y));
                assert(false);
            }
            k
        },
        _ => 0,
    }
}

/// Where the first of two byte strings comes before the other: at the byte in which they differ, or at
/// the end of the first.
proof fn lemma_first_difference(x: Seq<u8>, y: Seq<u8>) -> (k: int)
    requires
        bytes_before(x, y, 0),
    ensures
        k == x.len() && k < y.len() && (forall|i: int| 0 <= i < k ==> #[trigger] x[i] == y[i])
            || less_at(x, y, k),
{
    lemma_order_of_values(false, false, 0, 0, 0, 0, 0, 0, x, y, Seq::empty(), Seq::empty());
    assert(before(ScalarView::Bytea(x), ScalarView::Bytea(y)));
    let k = choose|k: int|
        #[trigger] differ_first_at(x, y, k) && (k == x.len() || k < y.len() && x[k] < y[k]);
    k
}

proof fn lemma_be_bytes_in_order(a: nat, b: nat, n: nat) -> (k: int)
    requires
        a < b,
        b < power256(n),
    ensures
        less_at(be_bytes(a, n), be_bytes(b, n), k),
    decreases n,
{
    if n == 0 {
        0
    } else {
        let m = (n - 1) as nat;
        lemma_be_bytes_len(a / 256, m);
        lemma_be_bytes_len(b / 256, m);
        assert(be_bytes(a, n) =~= be_bytes(a / 256, m) + seq![(a % 256) as u8]);
        assert(be_bytes(b, n) =~= be_bytes(b / 256, m) + seq![(b % 256) as u8]);
        if a / 256 < b / 256 {
            let k = lemma_be_bytes_in_order(a / 256, b / 256, m);
            lemma_less_before(
                be_bytes(a / 256, m),
                be_bytes(b / 256, m),
                seq![(a % 256) as u8],
                seq![(b % 256) as u8],
                k,
            );
            k
        } else {
            assert(a / 256 == b / 256);
            assert(a % 256 < b % 256);
            m as int
        }
    }
}

proof fn lemma_encoded_in_order(x: Seq<u8>, y: Seq<u8>) -> (k: int)
    requires
        bytes_before(x, y, 0),
    ensures
        less_at(encoded_bytes(x), encoded_bytes(y), k),
{
    let d = lemma_first_difference(x, y);
    if x.len() == 0 {
        0
    } else {
        let k = lemma_groups_in_order(x, y, d);
        lemma_less_behind(seq![1u8], groups(x), groups(y), k);
        1 + k
    }
}

proof fn lemma_groups_in_order(x: Seq<u8>, y: Seq<u8>, d: int) -> (k: int)
    requires
        x.len() > 0,
        y.len() > 0,
        d == x.len() && d < y.len() && (forall|i: int| 0 <= i < d ==> #[trigger] x[i] == y[i])
            || less_at(x, y, d),
    ensures
        less_at(groups(x), groups(y), k),
    decreases x.len(),
{
    let gx = groups(x);
    let gy = groups(y);
    assert forall|i: int| 0 <= i < 8 implies #[trigger] gx[i] == if i < x.len() {
        x[i]
    } else {
        0u8
    } by {
        if x.len() > 8 {
            assert(x.take(8)[i] == x[i]);
        }
    }
    assert forall|i: int| 0 <= i < 8 implies #[trigger] gy[i] == if i < y.len() {
        y[i]
    } else {
        0u8
    } by {
        if y.len() > 8 {
            assert(y.take(8)[i] == y[i]);
        }
    }
    let mx: u8 = if x.len() > 8 {
        9
    } else {
        x.len() as u8
    };
    let my: u8 = if y.len() > 8 {
        9
    } else {
        y.len() as u8
    };
    assert(gx.len() >= 9 && gx[8] == mx);
    assert(gy.len() >= 9 && gy[8] == my);
    if d < 8 && d < x.len() {
        assert forall|i: int| 0 <= i < d implies #[trigger] gx[i] == gy[i] by {
            assert(x[i] == y[i]);
        }
        d
    } else if x.len() <= 8 {
        assert(d == x.len());
        if exists|j: int| d <= j < 8 && gy[j] != 0 {
            let j = lemma_first_nonzero(gy, d);
            assert forall|i: int| 0 <= i < j implies #[trigger] gx[i] == gy[i] by {
                if i < d {
                    assert(x[i] == y[i]);
                }
            }
            j
        } else {
            assert forall|i: int| 0 <= i < 8 implies #[trigger] gx[i] == gy[i] by {
                if i < d {
                    assert(x[i] == y[i]);
                }
            }
            8
        }
    } else {
        assert(d >= 8);
        assert(y.len() > 8);
        let rx = x.skip(8);
        let ry = y.skip(8);
        assert forall|i: int| 0 <= i < d - 8 implies #[trigger] rx[i] == ry[i] by {
            assert(x[i + 8] == y[i + 8]);
        }
        let k = lemma_groups_in_order(rx, ry, d - 8);
        let head = x.take(8) + seq![9u8];
        assert(y.take(8) =~= x.take(8)) by {
            assert forall|i: int| 0 <= i < 8 implies x[i] == y[i] by {}
        }
        assert(gx =~= head + groups(rx));
        assert(gy =~= head + groups(ry));
        lemma_less_behind(head, groups(rx), groups(ry), k);
        9 + k
    }
}

proof fn lemma_first_nonzero(g: Seq<u8>, d: int) -> (j: int)
    requires
        exists|j: int| d <= j < 8 && g[j] != 0,
    ensures
        d <= j < 8,
        g[j] != 0,
        forall|i: int| d <= i < j ==> g[i] == 0,
    decreases 8 - d,
{
    if g[d] != 0 {
        d
    } else {
        lemma_first_nonzero(g, d + 1)
    }
}

/// A packed row is the byte 1 and the encodings of its columns, one right after the other: packing more
/// columns appends their encodings. The encoding of a column is the byte 1 where it is NULL, and the
/// byte 0 before that of its value where it is not; a value that is given by its encoding has just that.
pub proof fn lemma_packed_appends(a: RowView, b: RowView, s: ScalarView)
    ensures
        packed(Seq::empty()) == seq![1u8],
        packed(a + b) == packed(a) + packed(b).subrange(1, packed(b).len() as int),
        packed(seq![None]) == seq![1u8, 1u8],
        packed(seq![Some(s)]) == seq![1u8, 0u8] + scalar_bytes(s),
        s matches ScalarView::Encoded(e) ==> scalar_bytes(s) == e,
{
    assert(packed(Seq::empty()) =~= seq![1u8]);
    lemma_columns_append(a, b, 0);
    assert(packed(a + b) =~= packed(a) + packed(b).subrange(1, packed(b).len() as int));
    reveal_with_fuel(columns_bytes, 2);
    assert(packed(seq![None]) =~= seq![1u8, 1u8]);
    assert(packed(seq![Some(s)]) =~= seq![1u8, 0u8] + scalar_bytes(s));
}

proof fn lemma_columns_append(a: RowView, b: RowView, i: int)
    requires
        0 <= i <= a.len(),
    ensures
        columns_bytes(a + b, i) == columns_bytes(a, i) + columns_bytes(b, 0),
    decreases a.len() - i,
{
    if i < a.len() {
        lemma_columns_append(a, b, i + 1);
        assert((a + b)[i] == a[i]);
    } else {
        lemma_columns_shift(a, b, 0);
    }
    assert(columns_bytes(a + b, i) =~= columns_bytes(a, i) + columns_bytes(b, 0));
}

proof fn lemma_columns_shift(a: RowView, b: RowView, j: int)
    requires
        0 <= j <= b.len(),
    ensures
        columns_bytes(a + b, a.len() + j) == columns_bytes(b, j),
    decreases b.len() - j,
{
    if j < b.len() {
        lemma_columns_shift(a, b, j + 1);
        assert((a + b)[a.len() + j] == b[j]);
    }
}

} // verus!
