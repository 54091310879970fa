//! Column values, their order, and rows of them.
//!
//! A [`Scalar`] is a non-null column value and a [`Datum`] a nullable one. Values of a type that has
//! no variant of its own are carried as their memory-comparable encoding, whose byte order is the
//! order of the type.

use vstd::prelude::*;
use vstd::utf8::encode_utf8;

verus! {

/// A non-null column value.
#[derive(Debug, PartialEq, Eq)]
pub enum Scalar {
    Bool(bool),
    Int16(i16),
    Int32(i32),
    Int64(i64),
    Utf8(String),
    Bytea(Vec<u8>),
    /// A value of any other type, as its memory-comparable encoding.
    Encoded(Vec<u8>),
}

/// A column value, or `NULL`.
pub type Datum = Option<Scalar>;

/// The model of a [`Scalar`].
pub enum ScalarView {
    Bool(bool),
    Int16(i16),
    Int32(i32),
    Int64(i64),
    Utf8(Seq<char>),
    Bytea(Seq<u8>),
    Encoded(Seq<u8>),
}

/// The model of a [`Datum`].
pub type DatumView = Option<ScalarView>;

/// The model of a row.
pub type RowView = Seq<DatumView>;

impl View for Scalar {
    type V = ScalarView;

    open spec fn view(&self) -> ScalarView {
        match self {
            Scalar::Bool(b) => ScalarView::Bool(*b),
            Scalar::Int16(i) => ScalarView::Int16(*i),
            Scalar::Int32(i) => ScalarView::Int32(*i),
            Scalar::Int64(i) => ScalarView::Int64(*i),
            Scalar::Utf8(s) => ScalarView::Utf8(s@),
            Scalar::Bytea(b) => ScalarView::Bytea(b@),
            Scalar::Encoded(b) => ScalarView::Encoded(b@),
        }
    }
}

/// The model of a column value.
pub open spec fn datum_view(d: Datum) -> DatumView {
    match d {
        Some(s) => Some(s@),
        None => None,
    }
}

/// The model of a row of column values.
pub open spec fn row_view(row: Seq<Datum>) -> RowView {
    row.map_values(|d: Datum| datum_view(d))
}

/// Whether `a` comes before `b` in byte order, both read from index `i` on.
pub open spec fn bytes_before(a: Seq<u8>, b: Seq<u8>, i: int) -> bool
    decreases b.len() - i,
{
    if i >= b.len() || i < 0 {
        false
    } else if i >= a.len() {
        true
    } else if a[i] == b[i] {
        bytes_before(a, b, i + 1)
    } else {
        a[i] < b[i]
    }
}

/// The place of a value's type in the order of values.
pub open spec fn type_rank(s: ScalarView) -> int {
    match s {
        ScalarView::Bool(_) => 0,
        ScalarView::Int16(_) => 1,
        ScalarView::Int32(_) => 2,
        ScalarView::Int64(_) => 3,
        ScalarView::Utf8(_) => 4,
        ScalarView::Bytea(_) => 5,
        ScalarView::Encoded(_) => 6,
    }
}

/// The order of values: by value within a type, and by type between types. Text is ordered by its
/// UTF-8 bytes.
pub open spec fn before(a: ScalarView, b: ScalarView) -> bool {
    match (a, b) {
        (ScalarView::Bool(x), ScalarView::Bool(y)) => !x && y,
        (ScalarView::Int16(x), ScalarView::Int16(y)) => x < y,
        (ScalarView::Int32(x), ScalarView::Int32(y)) => x < y,
        (ScalarView::Int64(x), ScalarView::Int64(y)) => x < y,
        (ScalarView::Utf8(x), ScalarView::Utf8(y)) => bytes_before(
            encode_utf8(x),
            encode_utf8(y),
            0,
        ),
        (ScalarView::Bytea(x), ScalarView::Bytea(y)) => bytes_before(x, y, 0),
        (ScalarView::Encoded(x), ScalarView::Encoded(y)) => bytes_before(x, y, 0),
        _ => type_rank(a) < type_rank(b),
    }
}

proof fn lemma_bytes_before_order(a: Seq<u8>, b: Seq<u8>, c: Seq<u8>, i: int)
    requires
        0 <= i,
    ensures
        !bytes_before(a, a, i),
        bytes_before(a, b, i) && bytes_before(b, c, i) ==> bytes_before(a, c, i),
        bytes_before(a, b, i) ==> !bytes_before(b, a, i),
    decreases a.len() + b.len() + c.len() - i,
{
    if i < a.len() + b.len() + c.len() {
        lemma_bytes_before_order(a, b, c, i + 1);
    }
}

proof fn lemma_bytes_before_total(a: Seq<u8>, b: Seq<u8>, i: int)
    requires
        0 <= i <= a.len(),
        i <= b.len(),
        a.take(i) == b.take(i),
        a != b,
    ensures
        bytes_before(a, b, i) || bytes_before(b, a, i),
    decreases a.len() - i,
{
    if i < a.len() && i < b.len() {
        if a[i] == b[i] {
            assert(a.take(i + 1) =~= a.take(i).push(a[i]));
            assert(b.take(i + 1) =~= b.take(i).push(b[i]));
            lemma_bytes_before_total(a, b, i + 1);
        }
    } else {
        if a.len() == b.len() {
            assert(a.take(i) =~= a);
            assert(b.take(i) =~= b);
        }
    }
}

/// The order of values is a strict total order: no value comes before itself, the order is
/// transitive, and of two different values exactly one comes before the other.
pub proof fn lemma_before_is_total_order(a: ScalarView, b: ScalarView, c: ScalarView)
    ensures
        !before(a, a),
        before(a, b) && before(b, c) ==> before(a, c),
        before(a, b) ==> !before(b, a),
        a != b ==> before(a, b) || before(b, a),
{
    match (a, b) {
        (ScalarView::Utf8(x), ScalarView::Utf8(y)) => {
            let (ex, ey) = (encode_utf8(x), encode_utf8(y));
            if x != y {
                vstd::utf8::encode_utf8_decode_utf8(x);
                vstd::utf8::encode_utf8_decode_utf8(y);
                assert(ex.take(0) =~= ey.take(0));
                lemma_bytes_before_total(ex, ey, 0);
            }
            if let ScalarView::Utf8(z) = c {
                lemma_bytes_before_order(ex, ey, encode_utf8(z), 0);
            } else {
                lemma_bytes_before_order(ex, ey, ex, 0);
            }
        },
        (ScalarView::Bytea(x), ScalarView::Bytea(y)) => {
            if x != y {
                assert(x.take(0) =~= y.take(0));
                lemma_bytes_before_total(x, y, 0);
            }
            if let ScalarView::Bytea(z) = c {
                lemma_bytes_before_order(x, y, z, 0);
            } else {
                lemma_bytes_before_order(x, y, x, 0);
            }
        },
        (ScalarView::Encoded(x), ScalarView::Encoded(y)) => {
            if x != y {
                assert(x.take(0) =~= y.take(0));
                lemma_bytes_before_total(x, y, 0);
            }
            if let ScalarView::Encoded(z) = c {
                lemma_bytes_before_order(x, y, z, 0);
            } else {
                lemma_bytes_before_order(x, y, x, 0);
            }
        },
        _ => {
            match a {
                ScalarView::Utf8(x) => lemma_bytes_before_order(
                    encode_utf8(x),
                    encode_utf8(x),
                    encode_utf8(x),
                    0,
                ),
                ScalarView::Bytea(x) => lemma_bytes_before_order(x, x, x, 0),
                ScalarView::Encoded(x) => lemma_bytes_before_order(x, x, x, 0),
                _ => {},
            }
        },
    }
}

fn bytes_less(a: &[u8], b: &[u8]) -> (r: bool)
    ensures
        r == bytes_before(a@, b@, 0),
{
    let mut i: usize = 0;
    while i < a.len() && i < b.len() && a[i] == b[i]
        invariant
            i <= a@.len(),
            i <= b@.len(),
            bytes_before(a@, b@, 0) == bytes_before(a@, b@, i as int),
        decreases a@.len() - i,
    {
        i = i + 1;
    }
    if i >= b.len() {
        false
    } else if i >= a.len() {
        true
    } else {
        a[i] < b[i]
    }
}

fn bytes_same(a: &[u8], b: &[u8]) -> (r: bool)
    ensures
        r == (a@ == b@),
{
    if a.len() != b.len() {
        return false;
    }
    let mut i: usize = 0;
    while i < a.len()
        invariant
            i <= a@.len(),
            a@.len() == b@.len(),
            forall|j: int| 0 <= j < i ==> a@[j] == b@[j],
        decreases a@.len() - i,
    {
        if a[i] != b[i] {
            return false;
        }
        i = i + 1;
    }
    assert(a@ =~= b@);
    true
}

fn bytes_copy(a: &Vec<u8>) -> (r: Vec<u8>)
    ensures
        r@ == a@,
{
    let mut r: Vec<u8> = Vec::new();
    let mut i: usize = 0;
    while i < a.len()
        invariant
            i <= a@.len(),
            r@ == a@.take(i as int),
        decreases a@.len() - i,
    {
        r.push(a[i]);
        i = i + 1;
        assert(a@.take(i as int) =~= a@.take(i - 1).push(a@[i - 1]));
    }
    assert(a@.take(i as int) =~= a@);
    r
}

impl Scalar {
    /// Whether this value comes before `other` in the order of values.
    pub fn less(&self, other: &Scalar) -> (r: bool)
        ensures
            r == before(self@, other@),
    {
        match (self, other) {
            (Scalar::Bool(x), Scalar::Bool(y)) => !*x && *y,
            (Scalar::Int16(x), Scalar::Int16(y)) => *x < *y,
            (Scalar::Int32(x), Scalar::Int32(y)) => *x < *y,
            (Scalar::Int64(x), Scalar::Int64(y)) => *x < *y,
            (Scalar::Utf8(x), Scalar::Utf8(y)) => bytes_less(
                x.as_str().as_bytes(),
                y.as_str().as_bytes(),
            ),
            (Scalar::Bytea(x), Scalar::Bytea(y)) => bytes_less(x.as_slice(), y.as_slice()),
            (Scalar::Encoded(x), Scalar::Encoded(y)) => bytes_less(x.as_slice(), y.as_slice()),
            _ => self.rank() < other.rank(),
        }
    }

    fn rank(&self) -> (r: u8)
        ensures
            r == type_rank(self@),
    {
        match self {
            Scalar::Bool(_) => 0,
            Scalar::Int16(_) => 1,
            Scalar::Int32(_) => 2,
            Scalar::Int64(_) => 3,
            Scalar::Utf8(_) => 4,
            Scalar::Bytea(_) => 5,
            Scalar::Encoded(_) => 6,
        }
    }

    /// Whether this value and `other` are the same.
    pub fn same(&self, other: &Scalar) -> (r: bool)
        ensures
            r == (self@ == other@),
    {
        match (self, other) {
            (Scalar::Bool(x), Scalar::Bool(y)) => *x == *y,
            (Scalar::Int16(x), Scalar::Int16(y)) => *x == *y,
            (Scalar::Int32(x), Scalar::Int32(y)) => *x == *y,
            (Scalar::Int64(x), Scalar::Int64(y)) => *x == *y,
            (Scalar::Utf8(x), Scalar::Utf8(y)) => *x == *y,
            (Scalar::Bytea(x), Scalar::Bytea(y)) => bytes_same(x.as_slice(), y.as_slice()),
            (Scalar::Encoded(x), Scalar::Encoded(y)) => bytes_same(x.as_slice(), y.as_slice()),
            _ => false,
        }
    }
}

impl Clone for Scalar {
    fn clone(&self) -> (r: Self)
        ensures
            r@ == self@,
    {
        match self {
            Scalar::Bool(x) => Scalar::Bool(*x),
            Scalar::Int16(x) => Scalar::Int16(*x),
            Scalar::Int32(x) => Scalar::Int32(*x),
            Scalar::Int64(x) => Scalar::Int64(*x),
            Scalar::Utf8(x) => Scalar::Utf8(x.clone()),
            Scalar::Bytea(x) => Scalar::Bytea(bytes_copy(x)),
            Scalar::Encoded(x) => Scalar::Encoded(bytes_copy(x)),
        }
    }
}

/// A copy of a column value.
pub fn datum_clone(d: &Datum) -> (r: Datum)
    ensures
        datum_view(r) == datum_view(*d),
{
    match d {
        Some(s) => Some(s.clone()),
        None => None,
    }
}

/// Whether two column values are the same; `NULL` is the same as `NULL`.
pub fn datum_same(a: &Datum, b: &Datum) -> (r: bool)
    ensures
        r == (datum_view(*a) == datum_view(*b)),
{
    match (a, b) {
        (Some(x), Some(y)) => x.same(y),
        (None, None) => true,
        _ => false,
    }
}

/// A copy of a row.
pub fn row_clone(row: &Vec<Datum>) -> (r: Vec<Datum>)
    ensures
        row_view(r@) == row_view(row@),
{
    let mut r: Vec<Datum> = Vec::new();
    let mut i: usize = 0;
    while i < row.len()
        invariant
            i <= row@.len(),
            row_view(r@) == row_view(row@).take(i as int),
        decreases row@.len() - i,
    {
        let ghost done = r@;
        r.push(datum_clone(&row[i]));
        i = i + 1;
        assert(row_view(r@) =~= row_view(done).push(datum_view(row@[i - 1])));
        assert(row_view(row@).take(i as int) =~= row_view(row@).take(i - 1).push(
            datum_view(row@[i - 1]),
        ));
    }
    assert(row_view(row@).take(i as int) =~= row_view(row@));
    r
}

/// Whether two rows hold the same values.
pub fn row_same(a: &Vec<Datum>, b: &Vec<Datum>) -> (r: bool)
    ensures
        r == (row_view(a@) == row_view(b@)),
{
    if a.len() != b.len() {
        assert(row_view(a@).len() != row_view(b@).len());
        return false;
    }
    let mut i: usize = 0;
    while i < a.len()
        invariant
            i <= a@.len(),
            a@.len() == b@.len(),
            forall|j: int| 0 <= j < i ==> row_view(a@)[j] == row_view(b@)[j],
        decreases a@.len() - i,
    {
        if !datum_same(&a[i], &b[i]) {
            assert(row_view(a@)[i as int] != row_view(b@)[i as int]);
            return false;
        }
        i = i + 1;
    }
    assert(row_view(a@) =~= row_view(b@));
    true
}

/// The order of values: numbers by their size, false before true, and bytes and text, text by its
/// UTF-8 bytes, by the first byte in which they differ; where there is none the shorter comes first.
pub proof fn lemma_order_of_values(
    b: bool,
    c: bool,
    x: i16,
    y: i16,
    u: i32,
    v: i32,
    p: i64,
    q: i64,
    f: Seq<u8>,
    g: Seq<u8>,
    s: Seq<char>,
    t: Seq<char>,
)
    ensures
        before(ScalarView::Bool(b), ScalarView::Bool(c)) <==> !b && c,
        before(ScalarView::Int16(x), ScalarView::Int16(y)) <==> x < y,
        before(ScalarView::Int32(u), ScalarView::Int32(v)) <==> u < v,
        before(ScalarView::Int64(p), ScalarView::Int64(q)) <==> p < q,
        before(ScalarView::Bytea(f), ScalarView::Bytea(g)) <==> exists|k: int|
            #[trigger] differ_first_at(f, g, k) && (k == f.len() || k < g.len() && f[k] < g[k]),
        before(ScalarView::Encoded(f), ScalarView::Encoded(g)) <==> exists|k: int|
            #[trigger] differ_first_at(f, g, k) && (k == f.len() || k < g.len() && f[k] < g[k]),
        before(ScalarView::Utf8(s), ScalarView::Utf8(t)) <==> before(
            ScalarView::Bytea(encode_utf8(s)),
            ScalarView::Bytea(encode_utf8(t)),
        ),
{
    lemma_bytes_before_first(f, g, 0);
}

/// The first `k` bytes of the two are the same, and the next ones are not, or only one of the two
/// has a next one.
pub open spec fn differ_first_at(f: Seq<u8>, g: Seq<u8>, k: int) -> bool {
    &&& 0 <= k <= f.len()
    &&& k <= g.len()
    &&& forall|i: int| 0 <= i < k ==> #[trigger] f[i] == g[i]
    &&& k < f.len() && k < g.len() ==> f[k] != g[k]
    &&& k < f.len() || k < g.len()
}

proof fn lemma_bytes_before_first(f: Seq<u8>, g: Seq<u8>, i: int)
    requires
        0 <= i <= f.len(),
        i <= g.len(),
        forall|j: int| 0 <= j < i ==> #[trigger] f[j] == g[j],
    ensures
        bytes_before(f, g, i) <==> exists|k: int|
            #[trigger] differ_first_at(f, g, k) && (k == f.len() || k < g.len() && f[k] < g[k]),
    decreases f.len() - i,
{
    if i < f.len() && i < g.len() && f[i] == g[i] {
        lemma_bytes_before_first(f, g, i + 1);
    } else {
        assert forall|k: int| #[trigger] differ_first_at(f, g, k) implies k == i by {
            if k < i {
                assert(f[k] == g[k]);
            } else if i < k {
                assert(f[i] == g[i]);
            }
        }
        if i < f.len() || i < g.len() {
            assert(differ_first_at(f, g, i));
        }
    }
}

} // verus!
