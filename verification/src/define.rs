//! `DEFINE` predicates.
//!
//! A predicate is an expression over a synthetic row. Each column of the synthetic row is read by
//! a slot from the rows of the match in progress and the candidate row.

use crate::buffer::{buffer_view, BufferView, BufferedRow};
use crate::datum::{
    datum_clone, datum_view, row_view, Datum, DatumView, RowView, Scalar, ScalarView,
};
use crate::eval::{EvalRequest, Evaluations, Request};
use crate::matcher::{shifted, CandidateMatcher};
use crate::names::{is_one_of, lemma_first_of, lemma_last_of, names_clone, position, rposition};
use crate::pattern::{first_of, last_of, texts, Pattern, Var, Verdict, Verdicts};
use crate::plan::{MatchRecognizeDefine, MatchRecognizeDefineSlot, PlanError};
use crate::reach::{far_enough, lemma_ways_far};
use crate::refine::refines;
use crate::scan::{agree, same_ways, ways, window};
use vstd::prelude::*;

verus! {

/// What a [`DefineSlot`] reads.
#[derive(Debug, Clone, Copy, PartialEq, Eq, Structural)]
pub enum DefineSlotKind {
    /// The candidate row's own column.
    SelfCol,
    /// The row that many positions before the candidate row.
    Prev,
    /// The row that many positions after the candidate row.
    Next,
    /// The first row of the match in progress that is bound to one of the variables.
    RunningFirst,
    /// The last row of the match in progress that is bound to one of the variables.
    RunningLast,
}

/// One input that a `DEFINE` predicate reads.
#[derive(Debug)]
pub struct DefineSlot {
    kind: DefineSlotKind,
    vars: Vec<String>,
    col_idx: usize,
    offset: usize,
}

/// The model of a [`DefineSlot`].
pub struct DefineSlotView {
    pub kind: DefineSlotKind,
    pub vars: Seq<Var>,
    pub col_idx: nat,
    pub offset: nat,
}

impl View for DefineSlot {
    type V = DefineSlotView;

    closed spec fn view(&self) -> DefineSlotView {
        DefineSlotView {
            kind: self.kind,
            vars: texts(self.vars@),
            col_idx: self.col_idx as nat,
            offset: self.offset as nat,
        }
    }
}

/// A compiled `DEFINE` predicate.
#[derive(Debug)]
pub struct CompiledDefine {
    symbol: String,
    /// The number of the condition expression.
    condition: usize,
    slots: Vec<DefineSlot>,
}

/// The model of a [`CompiledDefine`].
pub struct DefineView {
    pub symbol: Var,
    pub condition: usize,
    pub slots: Seq<DefineSlotView>,
}

/// The model of a list of slots.
pub open spec fn slot_views(l: Seq<DefineSlot>) -> Seq<DefineSlotView> {
    l.map_values(|s: DefineSlot| s@)
}

impl View for CompiledDefine {
    type V = DefineView;

    closed spec fn view(&self) -> DefineView {
        DefineView {
            symbol: self.symbol@,
            condition: self.condition,
            slots: slot_views(self.slots@),
        }
    }
}

/// The model of a list of predicates.
pub open spec fn define_views(l: Seq<CompiledDefine>) -> Seq<DefineView> {
    l.map_values(|d: CompiledDefine| d@)
}

/// The slot kind that a plan's code stands for.
pub open spec fn define_slot_kind(code: u32) -> Option<DefineSlotKind> {
    if code == 0 {
        Some(DefineSlotKind::SelfCol)
    } else if code == 1 {
        Some(DefineSlotKind::Prev)
    } else if code == 2 {
        Some(DefineSlotKind::Next)
    } else if code == 3 {
        Some(DefineSlotKind::RunningFirst)
    } else if code == 4 {
        Some(DefineSlotKind::RunningLast)
    } else {
        None
    }
}

/// The slot that a planned slot stands for.
pub open spec fn lowered_slot(s: MatchRecognizeDefineSlot) -> DefineSlotView {
    DefineSlotView {
        kind: define_slot_kind(s.kind)->Some_0,
        vars: texts(s.vars@),
        col_idx: s.col_idx as nat,
        offset: s.offset as nat,
    }
}

/// The first code from slot `i` on that stands for no kind.
pub open spec fn unknown_define_kind(slots: Seq<MatchRecognizeDefineSlot>, i: int) -> Option<u32>
    decreases slots.len() - i,
{
    if i < 0 || i >= slots.len() {
        None
    } else if define_slot_kind(slots[i].kind) is None {
        Some(slots[i].kind)
    } else {
        unknown_define_kind(slots, i + 1)
    }
}

fn decode_define_kind(code: u32) -> (r: Option<DefineSlotKind>)
    ensures
        r == define_slot_kind(code),
{
    match code {
        0 => Some(DefineSlotKind::SelfCol),
        1 => Some(DefineSlotKind::Prev),
        2 => Some(DefineSlotKind::Next),
        3 => Some(DefineSlotKind::RunningFirst),
        4 => Some(DefineSlotKind::RunningLast),
        _ => None,
    }
}

impl CompiledDefine {
    /// Compile a planned predicate. A plan without a condition, or with a slot of unknown kind, is
    /// refused.
    pub fn from_protobuf(pb: &MatchRecognizeDefine) -> (r: Result<Self, PlanError>)
        ensures
            pb.condition is None ==> r == Err::<Self, PlanError>(PlanError::MissingCondition),
            pb.condition is Some ==> match unknown_define_kind(pb.slots@, 0) {
                Some(code) => r == Err::<Self, PlanError>(PlanError::InvalidDefineSlotKind(code)),
                None => r is Ok && (r->Ok_0)@ == (DefineView {
                    symbol: pb.symbol@,
                    condition: pb.condition->Some_0,
                    slots: pb.slots@.map_values(|s: MatchRecognizeDefineSlot| lowered_slot(s)),
                }),
            },
    {
        let condition: usize = match pb.condition {
            Some(c) => c,
            None => {
                return Err(PlanError::MissingCondition);
            },
        };
        let ghost want = pb.slots@.map_values(|s: MatchRecognizeDefineSlot| lowered_slot(s));
        let mut slots: Vec<DefineSlot> = Vec::new();
        let mut i: usize = 0;
        while i < pb.slots.len()
            invariant
                pb.condition == Some(condition),
                i <= pb.slots@.len(),
                slots@.len() == i,
                want == pb.slots@.map_values(|s: MatchRecognizeDefineSlot| lowered_slot(s)),
                unknown_define_kind(pb.slots@, 0) == unknown_define_kind(pb.slots@, i as int),
                forall|j: int| 0 <= j < i ==> (#[trigger] slots@[j])@ == want[j],
            decreases pb.slots@.len() - i,
        {
            let s = &pb.slots[i];
            let kind: DefineSlotKind = match decode_define_kind(s.kind) {
                Some(k) => k,
                None => {
                    return Err(PlanError::InvalidDefineSlotKind(s.kind));
                },
            };
            let slot = DefineSlot {
                kind,
                vars: names_clone(s.vars.as_slice()),
                col_idx: s.col_idx as usize,
                offset: s.offset as usize,
            };
            assert(slot@ == want[i as int]);
            slots.push(slot);
            i = i + 1;
        }
        assert(slot_views(slots@) =~= want);
        Ok(CompiledDefine { symbol: pb.symbol.clone(), condition, slots })
    }
}

/// The slots read columns before `arity`.
pub open spec fn define_fits(d: DefineView, arity: int) -> bool {
    forall|s: int| 0 <= s < d.slots.len() ==> (#[trigger] d.slots[s]).col_idx < arity
}

impl CompiledDefine {
    /// Whether the slots read columns before `arity`.
    pub fn within_columns(&self, arity: usize) -> (r: bool)
        ensures
            r == define_fits(self@, arity as int),
    {
        let mut i: usize = 0;
        while i < self.slots.len()
            invariant
                i <= self.slots@.len(),
                forall|j: int| 0 <= j < i ==> (#[trigger] self@.slots[j]).col_idx < arity,
            decreases self.slots@.len() - i,
        {
            assert(self@.slots[i as int] == self.slots@[i as int]@);
            if self.slots[i].col_idx >= arity {
                return false;
            }
            i = i + 1;
        }
        true
    }
}

/// The last predicate before index `i` that defines `var`.
pub open spec fn define_of(defines: Seq<DefineView>, var: Var, i: int) -> Option<DefineView>
    decreases i,
{
    if i <= 0 || i > defines.len() {
        None
    } else if defines[i - 1].symbol == var {
        Some(defines[i - 1])
    } else {
        define_of(defines, var, i - 1)
    }
}

/// What verdicts are made from: the rows in their order, of which the first `safe_len` are
/// matched, the predicates, and the number of the `WITHIN` expression.
pub struct Matching {
    pub rows: Seq<BufferView>,
    pub safe_len: int,
    pub defines: Seq<DefineView>,
    pub within: Option<usize>,
}

/// The answers that are known.
pub type Answers = spec_fn(Request) -> Option<DatumView>;

/// The row that a slot reads, where the candidate row at `pos` is tested for `var`. For running
/// navigation the candidate row counts as bound to `var`.
pub open spec fn slot_row(
    m: Matching,
    s: DefineSlotView,
    var: Var,
    pos: int,
    labels: Seq<Var>,
) -> Option<int> {
    let start = pos - labels.len();
    let running = labels.push(var);
    match s.kind {
        DefineSlotKind::SelfCol => Some(pos),
        DefineSlotKind::Prev => if s.offset <= pos {
            Some(pos - s.offset)
        } else {
            None
        },
        DefineSlotKind::Next => if pos + s.offset < m.safe_len {
            Some(pos + s.offset)
        } else {
            None
        },
        DefineSlotKind::RunningFirst => match first_of(running, s.vars, 0) {
            Some(k) => Some(start + k),
            None => None,
        },
        DefineSlotKind::RunningLast => match last_of(running, s.vars, running.len() as int) {
            Some(k) => Some(start + k),
            None => None,
        },
    }
}

/// The value that a slot reads, NULL where it reads no row.
pub open spec fn slot_datum(
    m: Matching,
    s: DefineSlotView,
    var: Var,
    pos: int,
    labels: Seq<Var>,
) -> DatumView {
    match slot_row(m, s, var, pos, labels) {
        Some(i) => m.rows[i].row[s.col_idx as int],
        None => None,
    }
}

/// The synthetic row of a predicate.
pub open spec fn define_row(
    m: Matching,
    d: DefineView,
    var: Var,
    pos: int,
    labels: Seq<Var>,
) -> RowView {
    d.slots.map_values(|s: DefineSlotView| slot_datum(m, s, var, pos, labels))
}

/// Whether an answer is true. NULL is not.
pub open spec fn is_true(d: DatumView) -> bool {
    d == Some(ScalarView::Bool(true))
}

/// Whether the answer to a request is true, or the request if the answer is not known.
pub open spec fn asked(answers: Answers, q: Request) -> Verdict {
    match answers(q) {
        Some(d) => Ok(is_true(d)),
        None => Err(q),
    }
}

/// The verdict of a `WITHIN` bound on a match from row `start` to row `pos`.
pub open spec fn within_verdict(m: Matching, answers: Answers, start: int, pos: int) -> Verdict {
    match m.within {
        None => Ok(true),
        Some(e) => asked(
            answers,
            Request { expr: e, args: seq![m.rows[pos].order_key, m.rows[start].order_key] },
        ),
    }
}

/// The verdict on binding the row at `pos` to `var`: its predicate holds, if it has one, and the
/// match stays within the bound, if there is one.
pub open spec fn define_verdict(
    m: Matching,
    answers: Answers,
    var: Var,
    pos: int,
    labels: Seq<Var>,
) -> Verdict {
    match define_of(m.defines, var, m.defines.len() as int) {
        None => within_verdict(m, answers, pos - labels.len(), pos),
        Some(d) => match asked(
            answers,
            Request { expr: d.condition, args: define_row(m, d, var, pos, labels) },
        ) {
            Ok(true) => within_verdict(m, answers, pos - labels.len(), pos),
            Ok(false) => Ok(false),
            Err(q) => Err(q),
        },
    }
}

/// The verdicts.
pub open spec fn define_verdicts(m: Matching, answers: Answers) -> Verdicts {
    |var: Var, pos: int, labels: Seq<Var>| define_verdict(m, answers, var, pos, labels)
}

/// Every slot reads a column that the rows have.
pub open spec fn slots_fit(rows: Seq<BufferView>, defines: Seq<DefineView>) -> bool {
    forall|i: int, d: int, s: int|
        0 <= i < rows.len() && 0 <= d < defines.len() && 0 <= s < defines[d].slots.len() ==> (
        #[trigger] defines[d].slots[s]).col_idx < (#[trigger] rows[i]).row.len()
}

/// Evaluates `DEFINE` predicates on the rows of a partition.
pub struct DefineMatcher<'a> {
    rows: &'a Vec<BufferedRow>,
    safe_len: usize,
    defines: &'a Vec<CompiledDefine>,
    within: Option<usize>,
    evals: &'a Evaluations,
}

/// The known answers.
pub open spec fn known(evals: Evaluations) -> Answers {
    |q: Request| evals.answer(q)
}

impl<'a> DefineMatcher<'a> {
    /// What verdicts are made from.
    pub closed spec fn matching(&self) -> Matching {
        Matching {
            rows: buffer_view(self.rows@),
            safe_len: self.safe_len as int,
            defines: define_views(self.defines@),
            within: self.within,
        }
    }

    /// The answers that are known.
    pub closed spec fn answers(&self) -> Answers {
        known(*self.evals)
    }

    #[verifier::type_invariant]
    spec fn fits(self) -> bool {
        &&& self.safe_len <= self.rows@.len()
        &&& slots_fit(buffer_view(self.rows@), define_views(self.defines@))
    }

    /// A matcher on the first `safe_len` rows.
    pub fn new(
        rows: &'a Vec<BufferedRow>,
        safe_len: usize,
        defines: &'a Vec<CompiledDefine>,
        within: Option<usize>,
        evals: &'a Evaluations,
    ) -> (r: Self)
        requires
            safe_len <= rows@.len(),
            slots_fit(buffer_view(rows@), define_views(defines@)),
        ensures
            r.rows() == safe_len,
            r.matching() == (Matching {
                rows: buffer_view(rows@),
                safe_len: safe_len as int,
                defines: define_views(defines@),
                within,
            }),
            r.answers() == known(*evals),
    {
        DefineMatcher { rows, safe_len, defines, within, evals }
    }

    /// The number of rows that are matched.
    pub fn row_count(&self) -> (r: usize)
        ensures
            r == self.rows(),
    {
        self.safe_len
    }

    /// The value at a row and a column.
    fn col_at(&self, i: usize, col: usize) -> (r: Datum)
        requires
            i < self.rows@.len(),
            col < self.rows@[i as int].row@.len(),
        ensures
            datum_view(r) == self.matching().rows[i as int].row[col as int],
    {
        datum_clone(&self.rows[i].row[col])
    }

    /// The value that a slot reads for the candidate row at `pos` that is tested for `var`.
    fn slot_value(&self, slot: &DefineSlot, var: &String, pos: usize, labels: &[String]) -> (r:
        Datum)
        requires
            pos < self.rows@.len(),
            labels@.len() <= pos,
            self.safe_len <= self.rows@.len(),
            forall|i: int|
                0 <= i < self.rows@.len() ==> slot.col_idx < (#[trigger] self.rows@[i]).row@.len(),
        ensures
            datum_view(r) == slot_datum(
                self.matching(),
                slot@,
                var@,
                pos as int,
                texts(labels@),
            ),
    {
        let start: usize = pos - labels.len();
        let ghost l = texts(labels@);
        let ghost running = l.push(var@);
        let ghost vars = texts(slot.vars@);
        match slot.kind {
            DefineSlotKind::SelfCol => self.col_at(pos, slot.col_idx),
            DefineSlotKind::Prev => {
                if slot.offset <= pos {
                    self.col_at(pos - slot.offset, slot.col_idx)
                } else {
                    None
                }
            },
            DefineSlotKind::Next => {
                if pos < self.safe_len && slot.offset < self.safe_len - pos {
                    self.col_at(pos + slot.offset, slot.col_idx)
                } else {
                    None
                }
            },
            DefineSlotKind::RunningFirst => {
                proof {
                    lemma_first_of_push(l, var@, vars, 0);
                }
                match position(labels, &slot.vars) {
                    Some(k) => self.col_at(start + k, slot.col_idx),
                    None => {
                        if is_one_of(var, &slot.vars) {
                            self.col_at(pos, slot.col_idx)
                        } else {
                            None
                        }
                    },
                }
            },
            DefineSlotKind::RunningLast => {
                proof {
                    lemma_last_of_push(l, var@, vars, l.len() as int);
                }
                if is_one_of(var, &slot.vars) {
                    self.col_at(pos, slot.col_idx)
                } else {
                    match rposition(labels, &slot.vars) {
                        Some(k) => self.col_at(start + k, slot.col_idx),
                        None => None,
                    }
                }
            },
        }
    }

    /// The predicate of `var`.
    fn define(&self, var: &String) -> (r: Option<&CompiledDefine>)
        ensures
            match r {
                Some(d) => define_of(
                    self.matching().defines,
                    var@,
                    self.matching().defines.len() as int,
                ) == Some(d@) && exists|i: int|
                    0 <= i < self.defines@.len() && #[trigger] self.defines@[i] == *d,
                None => define_of(
                    self.matching().defines,
                    var@,
                    self.matching().defines.len() as int,
                ) is None,
            },
    {
        let ghost ds = self.matching().defines;
        let mut i: usize = self.defines.len();
        while i > 0
            invariant
                i <= self.defines@.len(),
                ds == define_views(self.defines@),
                define_of(ds, var@, ds.len() as int) == define_of(ds, var@, i as int),
            decreases i,
        {
            let d = &self.defines[i - 1];
            assert(ds[i - 1] == d@);
            if d.symbol == *var {
                assert(self.defines@[i - 1] == *d);
                return Some(d);
            }
            i = i - 1;
        }
        None
    }
}

proof fn lemma_first_of_push(labels: Seq<Var>, var: Var, vars: Seq<Var>, i: int)
    requires
        0 <= i <= labels.len(),
    ensures
        first_of(labels.push(var), vars, i) == match first_of(labels, vars, i) {
            Some(k) => Some(k),
            None => if vars.contains(var) {
                Some(labels.len() as int)
            } else {
                None
            },
        },
    decreases labels.len() - i,
{
    let running = labels.push(var);
    if i < labels.len() {
        assert(running[i] == labels[i]);
        lemma_first_of_push(labels, var, vars, i + 1);
    } else {
        reveal_with_fuel(first_of, 2);
    }
}

proof fn lemma_last_of_push(labels: Seq<Var>, var: Var, vars: Seq<Var>, i: int)
    requires
        0 <= i <= labels.len(),
    ensures
        last_of(labels.push(var), vars, i) == last_of(labels, vars, i),
        last_of(labels.push(var), vars, labels.len() as int + 1) == if vars.contains(var) {
            Some(labels.len() as int)
        } else {
            last_of(labels.push(var), vars, labels.len() as int)
        },
    decreases i,
{
    let running = labels.push(var);
    if i > 0 {
        assert(running[i - 1] == labels[i - 1]);
        lemma_last_of_push(labels, var, vars, i - 1);
    }
}

/// Whether an answer is true.
fn holds(d: &Datum) -> (r: bool)
    ensures
        r == is_true(datum_view(*d)),
{
    match d {
        Some(Scalar::Bool(b)) => *b,
        _ => false,
    }
}

impl<'a> CandidateMatcher for DefineMatcher<'a> {
    open spec fn verdicts(&self) -> Verdicts {
        define_verdicts(self.matching(), self.answers())
    }

    open spec fn first(&self) -> int {
        0
    }

    closed spec fn rows(&self) -> usize {
        self.safe_len
    }

    fn matches(&self, var: &String, pos: usize, labels: &[String]) -> (r: Result<
        bool,
        EvalRequest,
    >) {
        proof {
            use_type_invariant(self);
        }
        let start: usize = pos - labels.len();
        let ghost m = self.matching();
        let ghost l = texts(labels@);
        if let Some(def) = self.define(var) {
            let ghost want = define_row(m, def@, var@, pos as int, l);
            let mut synthetic: Vec<Datum> = Vec::new();
            let mut i: usize = 0;
            while i < def.slots.len()
                invariant
                    i <= def.slots@.len(),
                    synthetic@.len() == i,
                    pos < self.safe_len <= self.rows@.len(),
                    labels@.len() <= pos,
                    m == self.matching(),
                    l == texts(labels@),
                    want == define_row(m, def@, var@, pos as int, l),
                    slots_fit(m.rows, m.defines),
                    exists|j: int| 0 <= j < self.defines@.len() && #[trigger] self.defines@[j]
                        == *def,
                    forall|j: int| 0 <= j < i ==> datum_view(#[trigger] synthetic@[j]) == want[j],
                decreases def.slots@.len() - i,
            {
                let slot = &def.slots[i];
                proof {
                    let d = choose|j: int|
                        0 <= j < self.defines@.len() && #[trigger] self.defines@[j] == *def;
                    assert(m.defines[d] == def@);
                    assert(m.defines[d].slots[i as int] == slot@);
                    assert forall|j: int| 0 <= j < self.rows@.len() implies slot.col_idx < (
                    #[trigger] self.rows@[j]).row@.len() by {
                        assert(m.rows[j] == self.rows@[j]@);
                    }
                }
                synthetic.push(self.slot_value(slot, var, pos, labels));
                i = i + 1;
            }
            assert(row_view(synthetic@) =~= want);
            match self.evals.get(def.condition, synthetic) {
                Ok(value) => {
                    if !holds(&value) {
                        return Ok(false);
                    }
                },
                Err(q) => {
                    return Err(q);
                },
            }
        }
        if let Some(within) = self.within {
            let mut span: Vec<Datum> = Vec::new();
            span.push(datum_clone(&self.rows[pos].order_key));
            span.push(datum_clone(&self.rows[start].order_key));
            assert(row_view(span@) =~= seq![
                m.rows[pos as int].order_key,
                m.rows[start as int].order_key,
            ]);
            match self.evals.get(within, span) {
                Ok(value) => Ok(holds(&value)),
                Err(q) => Err(q),
            }
        } else {
            Ok(true)
        }
    }
}

/// `b` gives each answer that `a` gives.
pub open spec fn more_answers(a: Answers, b: Answers) -> bool {
    forall|q: Request| #[trigger] a(q) is Some ==> a(q) == b(q)
}

/// With more answers each verdict that was known stays as it is.
pub proof fn lemma_more_answers_refine(m: Matching, a: Answers, b: Answers, n: int)
    requires
        more_answers(a, b),
    ensures
        refines(define_verdicts(m, a), define_verdicts(m, b), n),
{
}

/// No predicate reads rows after the candidate row.
pub open spec fn no_lookahead(defines: Seq<DefineView>) -> bool {
    forall|d: int, s: int|
        0 <= d < defines.len() && 0 <= s < defines[d].slots.len() && (
        #[trigger] defines[d].slots[s]).kind is Next ==> defines[d].slots[s].offset == 0
}

/// The farthest that one of the first `i` slots reads before the candidate row.
pub open spec fn farthest(slots: Seq<DefineSlotView>, i: int) -> nat
    decreases i,
{
    if i <= 0 || i > slots.len() {
        0
    } else {
        let rest = farthest(slots, i - 1);
        let s = slots[i - 1];
        if s.kind is Prev && s.offset > rest {
            s.offset
        } else {
            rest
        }
    }
}

/// How far the predicate of each variable reads before the candidate row.
pub open spec fn lookback(defines: Seq<DefineView>) -> spec_fn(Var) -> nat {
    |var: Var|
        match define_of(defines, var, defines.len() as int) {
            Some(d) => farthest(d.slots, d.slots.len() as int),
            None => 0,
        }
}

/// No predicate reads rows before the match in progress: none reads farther before the candidate row
/// than the pattern puts it behind the first row of the match.
pub open spec fn reads_no_row_before(p: Pattern, defines: Seq<DefineView>) -> bool {
    far_enough(p, 0, lookback(defines))
}

/// No predicate reads rows outside of the match in progress: neither rows after the candidate row
/// nor rows before the match.
pub open spec fn reads_inside(p: Pattern, defines: Seq<DefineView>) -> bool {
    no_lookahead(defines) && reads_no_row_before(p, defines)
}

proof fn lemma_farthest(slots: Seq<DefineSlotView>, i: int, s: int)
    requires
        0 <= s < i <= slots.len(),
        slots[s].kind is Prev,
    ensures
        slots[s].offset <= farthest(slots, i),
    decreases i,
{
    if s < i - 1 {
        lemma_farthest(slots, i - 1, s);
    }
}

proof fn lemma_define_of(defines: Seq<DefineView>, var: Var, i: int) -> (k: int)
    requires
        0 <= i <= defines.len(),
    ensures
        define_of(defines, var, i) matches Some(d) ==> 0 <= k < defines.len() && defines[k] == d,
    decreases i,
{
    if i > 0 && defines[i - 1].symbol != var {
        lemma_define_of(defines, var, i - 1)
    } else {
        i - 1
    }
}

/// Verdicts on rows depend on no row after them: where the first `n` rows are the same, so are the
/// verdicts on them.
pub proof fn lemma_same_rows_agree(m1: Matching, m2: Matching, answers: Answers, n: int)
    requires
        0 <= n <= m1.rows.len(),
        n <= m2.rows.len(),
        n <= m1.safe_len,
        n <= m2.safe_len,
        m1.rows.take(n) == m2.rows.take(n),
        m1.defines == m2.defines,
        m1.within == m2.within,
        no_lookahead(m1.defines),
    ensures
        agree(define_verdicts(m1, answers), define_verdicts(m2, answers), 0, n),
{
    let v1 = define_verdicts(m1, answers);
    let v2 = define_verdicts(m2, answers);
    assert forall|i: int| 0 <= i < n implies m1.rows[i] == m2.rows[i] by {
        assert(m1.rows.take(n)[i] == m1.rows[i]);
        assert(m2.rows.take(n)[i] == m2.rows[i]);
    }
    assert forall|var: Var, pos: int, labels: Seq<Var>|
        0 <= pos - labels.len() && pos < n implies #[trigger] v1(var, pos, labels) == v2(
        var,
        pos,
        labels,
    ) by {
        let k = lemma_define_of(m1.defines, var, m1.defines.len() as int);
        if let Some(d) = define_of(m1.defines, var, m1.defines.len() as int) {
            assert forall|s: int| 0 <= s < d.slots.len() implies slot_datum(
                m1,
                #[trigger] d.slots[s],
                var,
                pos,
                labels,
            ) == slot_datum(m2, d.slots[s], var, pos, labels) by {
                assert(m1.defines[k].slots[s].kind is Next ==> d.slots[s].offset == 0);
                lemma_slot_row_bounds(m1, d.slots[s], var, pos, labels);
            }
            assert(define_row(m1, d, var, pos, labels) =~= define_row(m2, d, var, pos, labels));
        }
    }
}

/// The verdicts on the safe rows depend on no other row.
pub proof fn lemma_safe_rows_agree(m1: Matching, m2: Matching, answers: Answers)
    requires
        0 <= m1.safe_len <= m1.rows.len(),
        m2.safe_len == m1.safe_len,
        m2.safe_len <= m2.rows.len(),
        m1.rows.take(m1.safe_len) == m2.rows.take(m1.safe_len),
        m1.defines == m2.defines,
        m1.within == m2.within,
    ensures
        agree(define_verdicts(m1, answers), define_verdicts(m2, answers), 0, m1.safe_len),
{
    let n = m1.safe_len;
    let v1 = define_verdicts(m1, answers);
    let v2 = define_verdicts(m2, answers);
    assert forall|i: int| 0 <= i < n implies m1.rows[i] == m2.rows[i] by {
        assert(m1.rows.take(n)[i] == m1.rows[i]);
        assert(m2.rows.take(n)[i] == m2.rows[i]);
    }
    assert forall|var: Var, pos: int, labels: Seq<Var>|
        0 <= pos - labels.len() && pos < n implies #[trigger] v1(var, pos, labels) == v2(
        var,
        pos,
        labels,
    ) by {
        if let Some(d) = define_of(m1.defines, var, m1.defines.len() as int) {
            assert forall|s: int| 0 <= s < d.slots.len() implies slot_datum(
                m1,
                #[trigger] d.slots[s],
                var,
                pos,
                labels,
            ) == slot_datum(m2, d.slots[s], var, pos, labels) by {
                if !(d.slots[s].kind is Next) {
                    lemma_slot_row_bounds(m1, d.slots[s], var, pos, labels);
                }
            }
            assert(define_row(m1, d, var, pos, labels) =~= define_row(m2, d, var, pos, labels));
        }
    }
}

proof fn lemma_slot_row_bounds(
    m: Matching,
    s: DefineSlotView,
    var: Var,
    pos: int,
    labels: Seq<Var>,
)
    requires
        0 <= pos - labels.len(),
        s.kind is Next ==> s.offset == 0,
    ensures
        slot_row(m, s, var, pos, labels) matches Some(i) ==> 0 <= i <= pos,
        !(s.kind is Prev) ==> (slot_row(m, s, var, pos, labels) matches Some(i) ==> pos
            - labels.len() <= i),
{
    let running = labels.push(var);
    lemma_first_of(running, s.vars, 0);
    lemma_last_of(running, s.vars, running.len() as int);
}

/// Matches from row `b` on depend on no row before it, where no predicate reads rows before the match
/// in progress.
pub proof fn lemma_evicted_rows_same_ways(
    p: Pattern,
    m1: Matching,
    m2: Matching,
    answers: Answers,
    b: int,
    n: int,
)
    requires
        0 <= b <= m1.rows.len(),
        m2.rows == m1.rows.skip(b),
        m1.defines == m2.defines,
        m1.within == m2.within,
        reads_no_row_before(p, m1.defines),
        n <= m2.safe_len <= m2.rows.len(),
        m2.safe_len + b == m1.safe_len,
    ensures
        same_ways(p, shifted(define_verdicts(m1, answers), b), define_verdicts(m2, answers), 0, n),
{
    let v1 = shifted(define_verdicts(m1, answers), b);
    let v2 = define_verdicts(m2, answers);
    let need = lookback(m1.defines);
    assert forall|start: int| 0 <= start implies #[trigger] ways(p, v1, start, n) == ways(
        p,
        v2,
        start,
        n,
    ) by {
        let w1 = window(v1, start, n);
        let w2 = window(v2, start, n);
        assert forall|var: Var, labels: Seq<Var>|
            w1.start + labels.len() < w1.n && need(var) <= labels.len() implies #[trigger] (
        w1.verdicts)(var, w1.start + labels.len(), labels) == (w2.verdicts)(
            var,
            w2.start + labels.len(),
            labels,
        ) by {
            lemma_evicted_verdict(m1, m2, answers, b, var, start + labels.len(), labels);
        }
        lemma_ways_far(p, v1, v2, start, n, need);
    }
}

proof fn lemma_evicted_verdict(
    m1: Matching,
    m2: Matching,
    answers: Answers,
    b: int,
    var: Var,
    pos: int,
    labels: Seq<Var>,
)
    requires
        0 <= b <= m1.rows.len(),
        m2.rows == m1.rows.skip(b),
        m1.defines == m2.defines,
        m1.within == m2.within,
        0 <= pos - labels.len(),
        pos < m2.safe_len <= m2.rows.len(),
        m2.safe_len + b == m1.safe_len,
        lookback(m1.defines)(var) <= labels.len(),
    ensures
        define_verdict(m1, answers, var, pos + b, labels) == define_verdict(
            m2,
            answers,
            var,
            pos,
            labels,
        ),
{
    assert(m2.rows[pos] == m1.rows[pos + b]);
    assert(m2.rows[pos - labels.len()] == m1.rows[pos + b - labels.len()]);
    if let Some(d) = define_of(m1.defines, var, m1.defines.len() as int) {
        assert forall|s: int| 0 <= s < d.slots.len() implies slot_datum(
            m1,
            #[trigger] d.slots[s],
            var,
            pos + b,
            labels,
        ) == slot_datum(m2, d.slots[s], var, pos, labels) by {
            let slot = d.slots[s];
            if !(slot.kind is Next) {
                lemma_slot_row_bounds(m2, slot, var, pos, labels);
            }
            if slot.kind is Prev {
                lemma_farthest(d.slots, d.slots.len() as int, s);
            }
            match slot_row(m2, slot, var, pos, labels) {
                Some(i) => {
                    assert(slot_row(m1, slot, var, pos + b, labels) == Some(i + b));
                    assert(m2.rows[i] == m1.rows[i + b]);
                },
                None => {
                    assert(slot_row(m1, slot, var, pos + b, labels) is None);
                },
            }
        }
        assert(define_row(m1, d, var, pos + b, labels) =~= define_row(m2, d, var, pos, labels));
    }
}

/// The variable that a row of the match in progress is bound to, where the candidate row behind those
/// that are bound counts as bound to `var`.
pub open spec fn running_name(labels: Seq<Var>, var: Var, j: int) -> Var {
    if j < labels.len() {
        labels[j]
    } else {
        var
    }
}

/// What each kind of slot reads for the candidate row at `pos`:
///
/// - the candidate row itself, the row `offset` positions before it or after it, by the place in
///   the ordered rows and whatever they are bound to; NULL before the first row and from the first
///   row on that is not safe;
/// - the first or the last row of the match in progress, the candidate row among them, that is
///   bound to one of the variables; NULL where none is.
pub proof fn lemma_slot_reads(
    m: Matching,
    s: DefineSlotView,
    var: Var,
    pos: int,
    labels: Seq<Var>,
    j: int,
)
    requires
        0 <= pos,
        0 <= j <= labels.len(),
    ensures
        ({
            let d = slot_datum(m, s, var, pos, labels);
            let col = s.col_idx as int;
            let start = pos - labels.len();
            let bound = |i: int| s.vars.contains(running_name(labels, var, i));
            &&& s.kind is SelfCol ==> d == m.rows[pos].row[col]
            &&& s.kind is Prev && s.offset <= pos ==> d == m.rows[pos - s.offset].row[col]
            &&& s.kind is Prev && s.offset > pos ==> d is None
            &&& s.kind is Next && pos + s.offset < m.safe_len ==> d == m.rows[pos
                + s.offset].row[col]
            &&& s.kind is Next && pos + s.offset >= m.safe_len ==> d is None
            &&& s.kind is RunningFirst && bound(j) && (forall|i: int|
                0 <= i < j ==> !#[trigger] bound(i)) ==> d == m.rows[start + j].row[col]
            &&& s.kind is RunningLast && bound(j) && (forall|i: int|
                j < i <= labels.len() ==> !#[trigger] bound(i)) ==> d == m.rows[start + j].row[col]
            &&& (s.kind is RunningFirst || s.kind is RunningLast) && (forall|i: int|
                0 <= i <= labels.len() ==> !#[trigger] bound(i)) ==> d is None
        }),
{
    let running = labels.push(var);
    let bound = |i: int| s.vars.contains(running_name(labels, var, i));
    lemma_first_of(running, s.vars, 0);
    lemma_last_of(running, s.vars, running.len() as int);
    assert forall|i: int| 0 <= i < running.len() implies #[trigger] running[i] == running_name(
        labels,
        var,
        i,
    ) by {}
    if let Some(k) = first_of(running, s.vars, 0) {
        assert(bound(k));
        if k < j {
            assert(bound(k));
        } else if j < k {
            assert(!s.vars.contains(running[j]));
        }
    } else {
        assert(!s.vars.contains(running[j]));
    }
    if let Some(k) = last_of(running, s.vars, running.len() as int) {
        assert(bound(k));
        if k < j {
            assert(!s.vars.contains(running[j]));
        }
    }
}

/// Two slots that look back from the same row read rows that lie as many positions apart as their
/// offsets do: one that looks back by `a` positions more reads what the other reads for the
/// candidate row `a` positions before.
pub proof fn lemma_lookback_is_by_position(
    m: Matching,
    s: DefineSlotView,
    t: DefineSlotView,
    var: Var,
    other: Var,
    pos: int,
    labels: Seq<Var>,
    others: Seq<Var>,
    a: nat,
)
    requires
        a <= pos,
        s.kind is Prev && t.kind is Prev || s.kind is Prev && t.kind is SelfCol && s.offset == a,
        t.kind is Prev ==> s.offset == t.offset + a,
        s.col_idx == t.col_idx,
    ensures
        slot_datum(m, s, var, pos, labels) == slot_datum(m, t, other, pos - a, others),
{
}

/// When a row can be bound to a variable. The last predicate that is given for the variable is the
/// one that counts, and it counts as false unless its answer is true; NULL is not. The answer is
/// that to its condition over what its slots read, one after the other. A variable without a
/// predicate takes every row. A bound on the length of a match is a further condition, over the
/// order keys of the candidate row and of the first row of the match.
pub proof fn lemma_when_a_row_is_bound(
    m: Matching,
    answers: Answers,
    var: Var,
    pos: int,
    labels: Seq<Var>,
    k: int,
)
    ensures
        ({
            let verdict = define_verdict(m, answers, var, pos, labels);
            let within = Request {
                expr: m.within->Some_0,
                args: seq![m.rows[pos].order_key, m.rows[pos - labels.len()].order_key],
            };
            let bounded: Verdict = match m.within {
                None => Ok(true),
                Some(e) => match answers(within) {
                    None => Err(within),
                    Some(d) => Ok(d == Some(ScalarView::Bool(true))),
                },
            };
            let condition = Request {
                expr: m.defines[k].condition,
                args: Seq::new(
                    m.defines[k].slots.len(),
                    |i: int| slot_datum(m, m.defines[k].slots[i], var, pos, labels),
                ),
            };
            &&& (forall|i: int| 0 <= i < m.defines.len() ==> (#[trigger] m.defines[i]).symbol != var)
                ==> verdict == bounded
            &&& 0 <= k < m.defines.len() && m.defines[k].symbol == var && (forall|i: int|
                k < i < m.defines.len() ==> (#[trigger] m.defines[i]).symbol != var)
                ==> verdict == match answers(condition) {
                None => Err(condition),
                Some(d) => if d == Some(ScalarView::Bool(true)) {
                    bounded
                } else {
                    Ok(false)
                },
            }
        }),
{
    let n = m.defines.len() as int;
    lemma_last_define(m.defines, var, n);
    if let Some(d) = define_of(m.defines, var, n) {
        if 0 <= k < n && d == m.defines[k] {
            assert(define_row(m, d, var, pos, labels) =~= Seq::new(
                m.defines[k].slots.len(),
                |i: int| slot_datum(m, m.defines[k].slots[i], var, pos, labels),
            ));
        }
    }
}

/// The predicate of a variable is the last one that is given for it.
proof fn lemma_last_define(defines: Seq<DefineView>, var: Var, i: int)
    requires
        0 <= i <= defines.len(),
    ensures
        match define_of(defines, var, i) {
            Some(d) => exists|k: int|
                0 <= k < i && #[trigger] defines[k] == d && d.symbol == var && forall|j: int|
                    k < j < i ==> (#[trigger] defines[j]).symbol != var,
            None => forall|j: int| 0 <= j < i ==> (#[trigger] defines[j]).symbol != var,
        },
    decreases i,
{
    if i > 0 {
        if defines[i - 1].symbol == var {
            assert(defines[i - 1] == define_of(defines, var, i)->Some_0);
        } else {
            lemma_last_define(defines, var, i - 1);
            if let Some(d) = define_of(defines, var, i) {
                let k = choose|k: int|
                    0 <= k < i - 1 && #[trigger] defines[k] == d && d.symbol == var && forall|
                        j: int,
                    |
                        k < j < i - 1 ==> (#[trigger] defines[j]).symbol != var;
                assert(defines[k] == d);
            }
        }
    }
}

/// What a plan's codes of slot kinds stand for, and which of them are refused: the first that
/// stands for none.
pub proof fn lemma_planned_slots(slots: Seq<MatchRecognizeDefineSlot>, i: int, code: u32)
    requires
        0 <= i <= slots.len(),
    ensures
        define_slot_kind(0) == Some(DefineSlotKind::SelfCol),
        define_slot_kind(1) == Some(DefineSlotKind::Prev),
        define_slot_kind(2) == Some(DefineSlotKind::Next),
        define_slot_kind(3) == Some(DefineSlotKind::RunningFirst),
        define_slot_kind(4) == Some(DefineSlotKind::RunningLast),
        code > 4 ==> define_slot_kind(code) is None,
        match unknown_define_kind(slots, i) {
            Some(c) => c > 4 && exists|k: int|
                i <= k < slots.len() && (#[trigger] slots[k]).kind == c && forall|j: int|
                    i <= j < k ==> (#[trigger] slots[j]).kind <= 4,
            None => forall|j: int| i <= j < slots.len() ==> (#[trigger] slots[j]).kind <= 4,
        },
        forall|j: int|
            0 <= j < slots.len() ==> {
                let s = lowered_slot(#[trigger] slots[j]);
                &&& s.vars == texts(slots[j].vars@)
                &&& s.col_idx == slots[j].col_idx
                &&& s.offset == slots[j].offset
                &&& slots[j].kind <= 4 ==> define_slot_kind(slots[j].kind) == Some(s.kind)
            },
    decreases slots.len() - i,
{
    if i < slots.len() {
        if define_slot_kind(slots[i].kind) is None {
            assert(slots[i].kind == unknown_define_kind(slots, i)->Some_0);
        } else {
            lemma_planned_slots(slots, i + 1, code);
            if let Some(c) = unknown_define_kind(slots, i) {
                let k = choose|k: int|
                    i + 1 <= k < slots.len() && (#[trigger] slots[k]).kind == c && forall|j: int|
                        i + 1 <= j < k ==> (#[trigger] slots[j]).kind <= 4;
                assert(slots[k].kind == c);
            }
        }
    }
}

} // verus!
