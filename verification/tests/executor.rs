use match_recognize::buffer::{project, stored_row, BufferedRow};
use match_recognize::datum::{Datum, Scalar};
use match_recognize::define::CompiledDefine;
use match_recognize::eval::EvalRequest;
use match_recognize::executor::{MatchRecognizeExecutor, MatchRecognizeExecutorArgs};
use match_recognize::frontier::{take_candidate, TableWrite};
use match_recognize::groups::Grouper;
use match_recognize::measure::CompiledMeasure;
use match_recognize::nfa::Nfa;
use match_recognize::pattern::{Pattern, Quantifier};
use match_recognize::plan::{
    MatchRecognizeDefine, MatchRecognizeDefineSlot, MatchRecognizeMeasure,
    MatchRecognizeMeasureSlot, Op, PlanError,
};
use match_recognize::skip::{SkipDegradation, SkipMode};

/// The expression that is its first column.
const FIRST_COLUMN: usize = 0;
/// The expression that tells whether its first column is at most 10 more than its second.
const WITHIN: usize = 1;
/// The expression that adds 10 to its first column.
const DEADLINE: usize = 2;
/// The expression that tells whether its first column is 1.
const IS_ONE: usize = 3;
/// The expression that tells whether its first column is 2.
const IS_TWO: usize = 4;
/// The expression that tells whether its first column is less than its second.
const LESS: usize = 5;
/// The expression that tells whether its first column is odd.
const IS_ODD: usize = 6;
/// The expression that tells whether its first column is even.
const IS_EVEN: usize = 7;

type Row = Vec<Datum>;

fn num(i: i32) -> Datum {
    Some(Scalar::Int32(i))
}

fn number(d: &Datum) -> i32 {
    match d {
        Some(Scalar::Int32(i)) => *i,
        Some(Scalar::Int64(i)) => *i as i32,
        _ => panic!("no number: {:?}", d),
    }
}

fn answer(q: &EvalRequest) -> Datum {
    let first = &q.args[0];
    match q.expr {
        FIRST_COLUMN => first.clone(),
        WITHIN => Some(Scalar::Bool(number(first) - number(&q.args[1]) <= 10)),
        DEADLINE => num(number(first) + 10),
        IS_ONE => Some(Scalar::Bool(number(first) == 1)),
        IS_TWO => Some(Scalar::Bool(number(first) == 2)),
        LESS => Some(Scalar::Bool(number(first) < number(&q.args[1]))),
        IS_ODD => Some(Scalar::Bool(number(first) % 2 == 1)),
        IS_EVEN => Some(Scalar::Bool(number(first) % 2 == 0)),
        _ => unreachable!(),
    }
}

fn define(symbol: &str, condition: usize) -> CompiledDefine {
    define_on(symbol, condition, 2)
}

/// A predicate on the column `col_idx` of the row.
fn define_on(symbol: &str, condition: usize, col_idx: u32) -> CompiledDefine {
    CompiledDefine::from_protobuf(&MatchRecognizeDefine {
        symbol: symbol.to_owned(),
        condition: Some(condition),
        slots: vec![MatchRecognizeDefineSlot {
            kind: 0,
            vars: vec![],
            col_idx,
            offset: 0,
        }],
    })
    .unwrap()
}

/// The number of rows of the match.
fn count() -> CompiledMeasure {
    CompiledMeasure::from_protobuf(&MatchRecognizeMeasure {
        expr: Some(FIRST_COLUMN),
        slots: vec![MatchRecognizeMeasureSlot {
            kind: 3,
            vars: vec![],
            col_idx: 0,
            agg_call: None,
        }],
    })
    .unwrap()
}

/// `a b+`.
fn a_then_bs() -> Pattern {
    Pattern::Concat(vec![
        Pattern::Var("a".to_owned()),
        Pattern::Quantified(
            Box::new(Pattern::Var("b".to_owned())),
            Quantifier::Plus,
            false,
        ),
    ])
}

/// `a b`.
fn a_then_b() -> Pattern {
    Pattern::Concat(vec![
        Pattern::Var("a".to_owned()),
        Pattern::Var("b".to_owned()),
    ])
}

/// An executor with tables in memory. Input rows are `[partition, time, value]`.
struct Operator {
    x: MatchRecognizeExecutor,
    buffer: Vec<Row>,
    meta: Vec<Row>,
    index: Vec<Row>,
    next_seq: i64,
    /// Records told downstream: the kind, the partition, the number of rows and the identity.
    out: Vec<(Op, i32, i32, i32)>,
    degradations: Vec<SkipDegradation>,
}

fn executor(
    pattern: &Pattern,
    skip: SkipMode,
    within: bool,
    emit_on_update: bool,
) -> MatchRecognizeExecutor {
    MatchRecognizeExecutor::new(MatchRecognizeExecutorArgs {
        partition_key_indices: vec![0],
        order_key_indices: vec![1],
        measures: vec![count()],
        defines: vec![define("a", IS_ONE), define("b", IS_TWO)],
        within: if within { Some(WITHIN) } else { None },
        within_deadline: if within { Some(DEADLINE) } else { None },
        nfa: Nfa::compile(pattern),
        skip,
        input_arity: 3,
        emit_on_update,
    })
}

impl Operator {
    fn new(pattern: &Pattern, skip: SkipMode, within: bool, emit_on_update: bool) -> Self {
        Operator {
            x: executor(pattern, skip, within, emit_on_update),
            buffer: vec![],
            meta: vec![],
            index: vec![],
            next_seq: 0,
            out: vec![],
            degradations: vec![],
        }
    }

    /// Take a step until no answer is missing.
    fn step<T>(
        &mut self,
        mut f: impl FnMut(&mut MatchRecognizeExecutor) -> Result<T, EvalRequest>,
    ) -> T {
        loop {
            match f(&mut self.x) {
                Ok(r) => {
                    self.x.forget_answers();
                    return r;
                }
                Err(q) => {
                    let a = answer(&q);
                    self.x.record(q, a);
                }
            }
        }
    }

    fn write(&mut self, writes: Vec<TableWrite>) {
        fn delete(table: &mut Vec<Row>, r: Row) {
            let at = table.iter().position(|x| *x == r).unwrap();
            table.remove(at);
        }
        fn insert(table: &mut Vec<Row>, r: Row) {
            assert!(!table.contains(&r));
            table.push(r);
        }
        for w in writes {
            match w {
                TableWrite::MetaInsert(r) => insert(&mut self.meta, r),
                TableWrite::MetaUpdate(o, n) => {
                    delete(&mut self.meta, o);
                    insert(&mut self.meta, n);
                }
                TableWrite::MetaDelete(r) => delete(&mut self.meta, r),
                TableWrite::IndexInsert(r) => insert(&mut self.index, r),
                TableWrite::IndexDelete(r) => delete(&mut self.index, r),
            }
        }
        self.index.sort_by_key(|r| (number(&r[0]), number(&r[1])));
        // both tables hold the same wakeups
        let mut from_meta: Vec<(i32, i32)> = self
            .meta
            .iter()
            .map(|r| (number(&r[1]), number(&r[0])))
            .collect();
        from_meta.sort();
        let from_index: Vec<(i32, i32)> = self
            .index
            .iter()
            .map(|r| (number(&r[0]), number(&r[1])))
            .collect();
        assert_eq!(from_meta, from_index);
    }

    fn partition(&self, key: &Row) -> Vec<BufferedRow> {
        let mut rows: Vec<BufferedRow> = self
            .buffer
            .iter()
            .map(|r| BufferedRow::from_stored(r, 3, 1).unwrap())
            .filter(|r| project(&r.row, &vec![0]) == *key)
            .collect();
        rows.sort_by_key(|r| (number(&r.order_key), r.seq));
        rows
    }

    fn tell(&mut self, op: Op, row: &Row) {
        self.out
            .push((op, number(&row[0]), number(&row[1]), number(&row[2])));
    }

    fn chunk(&mut self, rows: &[(i32, i32, i32)]) {
        let chunk: Vec<(Op, Row)> = rows
            .iter()
            .map(|(p, t, v)| (Op::Insert, vec![num(*p), num(*t), num(*v)]))
            .collect();
        let mut taken = self.x.take_chunk(&chunk).unwrap();
        for row in &taken.kept {
            self.buffer.push(stored_row(self.next_seq, row));
            self.next_seq += 1;
        }
        while let Some((key, min)) = taken.minima.pop() {
            let meta = self.meta.iter().find(|r| r[..1] == key[..]).cloned();
            let writes = self.x.schedule_insert(key, &min, &meta);
            self.write(writes);
        }
    }

    fn watermark(&mut self, t: i32) {
        let w = Scalar::Int32(t);
        if self.x.nothing_due(&w) {
            return;
        }
        let mut next_min: Datum = None;
        let mut candidates = vec![];
        for row in &self.index {
            match take_candidate(row, &w, &mut next_min) {
                Some(c) => candidates.push(c),
                None => break,
            }
        }
        for (old_wakeup, key) in candidates {
            let rows = self.partition(&key);
            if rows.is_empty() {
                let writes = self.x.drop_empty_partition(&key, &old_wakeup);
                self.write(writes);
                continue;
            }
            let ops = self.step(|x| x.emit_before_finalize(&key, &rows));
            for (op, row) in &ops {
                self.tell(*op, row);
            }
            let visited = {
                let mut min = next_min.clone();
                let v = self.step(|x| {
                    min = next_min.clone();
                    x.visit(&key, &old_wakeup, &rows, &w, &mut min)
                });
                next_min = min;
                v
            };
            for row in &visited.visit.out_rows {
                self.tell(Op::Insert, row);
            }
            self.degradations.extend(visited.visit.degradations);
            for r in &rows[..visited.visit.retain_from] {
                let stored = stored_row(r.seq, &r.row);
                self.buffer.retain(|x| *x != stored);
            }
            self.write(visited.writes);
        }
        self.x.set_min_wakeup(next_min);
    }

    fn barrier(&mut self) {
        while let Some(key) = self.x.pop_dirty() {
            let rows = self.partition(&key);
            let ops = self.step(|x| x.diff_partition(&key, &rows));
            for (op, row) in &ops {
                self.tell(*op, row);
            }
        }
    }

    /// Lose everything but the tables.
    fn restart(&mut self, x: MatchRecognizeExecutor) {
        self.x = x;
        let mut rows: Vec<BufferedRow> = self
            .buffer
            .iter()
            .map(|r| BufferedRow::from_stored(r, 3, 1).unwrap())
            .collect();
        rows.sort_by_key(|r| (number(&r.row[0]), number(&r.order_key), r.seq));
        let mut grouper = Grouper::new();
        let mut groups = vec![];
        for r in rows {
            let key = project(&r.row, &vec![0]);
            groups.extend(grouper.push(key, r));
        }
        groups.extend(grouper.finish());
        for g in groups {
            self.step(|x| x.seed_partition(&g.key, &g.rows));
        }
    }

    fn told(&mut self) -> Vec<(Op, i32, i32, i32)> {
        std::mem::take(&mut self.out)
    }
}

#[test]
fn final_matches_are_told_once_at_the_watermark() {
    let mut op = Operator::new(&a_then_bs(), SkipMode::PastLastRow, false, false);
    // rows of two partitions, out of order
    op.chunk(&[(7, 3, 2), (7, 1, 1), (8, 2, 1), (7, 2, 2)]);
    assert_eq!(op.meta.len(), 2);
    // nothing is due below the earliest row
    op.watermark(0);
    assert_eq!(op.told(), vec![]);
    // rows 1 and 2 of partition 7 are safe: the match can still grow
    op.watermark(3);
    assert_eq!(op.told(), vec![]);
    assert_eq!(op.buffer.len(), 4);
    // a row at the watermark is not safe
    op.chunk(&[(7, 5, 9)]);
    op.watermark(5);
    assert_eq!(op.told(), vec![]);
    op.watermark(6);
    assert_eq!(op.told(), vec![(Op::Insert, 7, 3, 1)]);
    // only the `a` of partition 8 is left: it waits for a `b` without end
    assert_eq!(op.buffer.len(), 1);
    assert_eq!(op.index.len(), 0);
    op.watermark(100);
    assert_eq!(op.told(), vec![]);
    op.chunk(&[(8, 120, 2), (8, 121, 9)]);
    op.watermark(130);
    assert_eq!(op.told(), vec![(Op::Insert, 8, 2, 2)]);
    assert_eq!(op.buffer.len(), 0);
}

#[test]
fn a_match_that_nothing_can_extend_is_told_at_once() {
    let mut op = Operator::new(&a_then_b(), SkipMode::PastLastRow, false, false);
    op.chunk(&[(7, 1, 1), (7, 2, 2)]);
    op.watermark(3);
    assert_eq!(op.told(), vec![(Op::Insert, 7, 2, 0)]);
    assert_eq!(op.buffer.len(), 0);
    assert_eq!(op.index.len(), 0);
}

#[test]
fn the_time_bound_ends_waiting_strictly_after_it() {
    let mut op = Operator::new(&a_then_bs(), SkipMode::PastLastRow, true, false);
    op.chunk(&[(7, 1, 1), (7, 2, 2), (8, 2, 1)]);
    op.watermark(3);
    assert_eq!(op.told(), vec![]);
    // the partitions are woken when the bounds of their first rows have passed
    let wakeups: Vec<i32> = op.index.iter().map(|r| number(&r[0])).collect();
    assert_eq!(wakeups, vec![11, 12]);
    // at the bound a row may still come that extends the match
    op.watermark(11);
    assert_eq!(op.told(), vec![]);
    assert_eq!(op.buffer.len(), 3);
    op.chunk(&[(7, 11, 2)]);
    op.watermark(12);
    assert_eq!(op.told(), vec![(Op::Insert, 7, 3, 0)]);
    // the lone `a` of partition 8 is evicted once its bound has passed
    assert_eq!(op.buffer.len(), 1);
    op.watermark(13);
    assert_eq!(op.told(), vec![]);
    assert_eq!(op.buffer.len(), 0);
    assert_eq!(op.index.len(), 0);
}

#[test]
fn the_changelog_corrects_itself() {
    let mut op = Operator::new(&a_then_bs(), SkipMode::PastLastRow, true, true);
    op.chunk(&[(7, 1, 1), (7, 2, 2)]);
    op.barrier();
    assert_eq!(op.told(), vec![(Op::Insert, 7, 2, 0)]);
    // another row extends the match
    op.chunk(&[(7, 3, 2)]);
    op.barrier();
    assert_eq!(
        op.told(),
        vec![(Op::Delete, 7, 2, 0), (Op::Insert, 7, 3, 0)]
    );
    // a barrier without rows tells nothing
    op.barrier();
    assert_eq!(op.told(), vec![]);
    // a late row takes the match over: it now starts at the late row
    op.chunk(&[(7, 2, 1)]);
    op.barrier();
    assert_eq!(
        op.told(),
        vec![(Op::Delete, 7, 3, 0), (Op::Insert, 7, 2, 0), (Op::Insert, 7, 2, 3)]
    );
}

#[test]
fn a_match_is_told_before_its_rows_are_evicted() {
    let mut op = Operator::new(&a_then_b(), SkipMode::PastLastRow, true, true);
    // rows, watermark and barrier in one epoch
    op.chunk(&[(7, 1, 1), (7, 2, 2), (7, 3, 9)]);
    op.watermark(4);
    assert_eq!(op.told(), vec![(Op::Insert, 7, 2, 0)]);
    assert_eq!(op.buffer.len(), 0);
    // what is final is not taken back
    op.barrier();
    assert_eq!(op.told(), vec![]);
    op.chunk(&[(7, 5, 1)]);
    op.barrier();
    assert_eq!(op.told(), vec![]);
}

#[test]
fn a_restart_tells_nothing_again() {
    let mut op = Operator::new(&a_then_bs(), SkipMode::PastLastRow, true, true);
    op.chunk(&[(7, 1, 1), (7, 2, 2), (8, 1, 1), (8, 2, 2), (9, 1, 1)]);
    op.barrier();
    assert_eq!(op.told().len(), 2);
    op.restart(executor(&a_then_bs(), SkipMode::PastLastRow, true, true));
    assert_eq!(op.told(), vec![]);
    op.barrier();
    assert_eq!(op.told(), vec![]);
    op.chunk(&[(7, 3, 2)]);
    op.barrier();
    assert_eq!(
        op.told(),
        vec![(Op::Delete, 7, 2, 0), (Op::Insert, 7, 3, 0)]
    );
    // the same when the owned partitions change
    op.x.forget_partitions();
    assert!(!op.x.nothing_due(&Scalar::Int32(-100)));
}

#[test]
fn skips_that_cannot_be_honored_are_noted() {
    let mut op = Operator::new(
        &a_then_b(),
        SkipMode::ToLast("z".to_owned()),
        false,
        false,
    );
    op.chunk(&[(7, 1, 1), (7, 2, 2), (7, 3, 1), (7, 4, 2)]);
    op.watermark(5);
    assert_eq!(op.told().len(), 2);
    assert_eq!(
        op.degradations,
        vec![SkipDegradation::TargetAbsent, SkipDegradation::TargetAbsent]
    );
}

#[test]
fn rows_without_order_key_are_dropped_and_other_records_refused() {
    let x = executor(&a_then_b(), SkipMode::PastLastRow, false, false);
    let chunk = vec![
        (Op::Insert, vec![num(7), None, num(1)]),
        (Op::Insert, vec![num(7), num(4), num(1)]),
        (Op::Insert, vec![num(8), num(5), num(2)]),
        (Op::Insert, vec![num(7), num(3), num(2)]),
    ];
    let mut taken = x.take_chunk(&chunk).unwrap();
    assert_eq!(
        taken.kept,
        vec![
            vec![num(7), num(4), num(1)],
            vec![num(8), num(5), num(2)],
            vec![num(7), num(3), num(2)],
        ]
    );
    let mut minima = vec![];
    while let Some((key, min)) = taken.minima.pop() {
        minima.push((number(&key[0]), min));
    }
    minima.sort_by_key(|m| m.0);
    assert_eq!(
        minima,
        vec![(7, Scalar::Int32(3)), (8, Scalar::Int32(5))]
    );

    let chunk = vec![
        (Op::Insert, vec![num(7), num(4), num(1)]),
        (Op::UpdateDelete, vec![num(7), num(4), num(1)]),
        (Op::Delete, vec![num(7), num(4), num(1)]),
    ];
    let e = x.take_chunk(&chunk).err().unwrap();
    assert_eq!(e, PlanError::NotAppendOnly(Op::UpdateDelete));
    assert_eq!(
        e.message(),
        "MATCH_RECOGNIZE requires append-only input but received a UpdateDelete record"
    );
}

#[test]
fn stored_rows_are_read_back() {
    let row = vec![num(7), num(4), None];
    let stored = stored_row(12, &row);
    assert_eq!(
        stored,
        vec![Some(Scalar::Int64(12)), num(7), num(4), None]
    );
    assert_eq!(
        BufferedRow::from_stored(&stored, 3, 1),
        Some(BufferedRow {
            seq: 12,
            order_key: num(4),
            row,
        })
    );
    assert_eq!(BufferedRow::from_stored(&stored, 4, 1), None);
    assert_eq!(BufferedRow::from_stored(&vec![None, num(1)], 1, 0), None);
}

#[test]
fn every_incremental_run_tells_what_one_barrier_tells() {
    let rows = [
        (7, 1, 1),
        (7, 4, 2),
        (7, 2, 2),
        (7, 3, 1),
        (7, 6, 1),
        (7, 5, 2),
        (7, 7, 2),
    ];
    // what is live downstream after all changes
    fn live(told: &[(Op, i32, i32, i32)]) -> Vec<(i32, i32)> {
        let mut l: Vec<(i32, i32)> = vec![];
        for (op, _, n, id) in told {
            match op {
                Op::Insert => l.push((*id, *n)),
                _ => {
                    let at = l.iter().position(|x| *x == (*id, *n)).unwrap();
                    l.remove(at);
                }
            }
        }
        l.sort();
        l
    }
    let mut whole = Operator::new(&a_then_bs(), SkipMode::PastLastRow, true, true);
    whole.chunk(&rows);
    whole.barrier();
    let want = live(&whole.told());
    assert_eq!(want, vec![(0, 2), (3, 3), (4, 2)]);
    for mask in 0..64u32 {
        let mut op = Operator::new(&a_then_bs(), SkipMode::PastLastRow, true, true);
        for (i, r) in rows.iter().enumerate() {
            op.chunk(&[*r]);
            if i == rows.len() - 1 || mask & (1 << i) != 0 {
                op.barrier();
            }
        }
        assert_eq!(live(&op.told()), want);
    }
}

#[test]
fn telling_the_changes_again_tells_nothing() {
    let mut op = Operator::new(&a_then_bs(), SkipMode::PastLastRow, true, true);
    op.chunk(&[(7, 1, 1), (7, 2, 2), (7, 3, 2), (7, 4, 1), (7, 5, 2)]);
    let key = vec![num(7)];
    let rows = op.partition(&key);
    let ops = op.step(|x| x.diff_partition(&key, &rows));
    assert_eq!(ops.len(), 2);
    // no answer is known any more, and none is asked for
    let again = op.x.diff_partition(&key, &rows).unwrap();
    assert_eq!(again, vec![]);
}

#[test]
fn a_step_asks_only_for_answers_that_are_not_known() {
    let mut x = executor(&a_then_bs(), SkipMode::PastLastRow, true, true);
    let key = vec![num(7)];
    let rows: Vec<BufferedRow> = [(0, 1, 1), (1, 2, 2), (2, 3, 2), (3, 4, 1), (4, 9, 2)]
        .iter()
        .map(|(seq, t, v)| BufferedRow {
            seq: *seq,
            order_key: num(*t),
            row: vec![num(7), num(*t), num(*v)],
        })
        .collect();
    let mut asked: Vec<(usize, Row)> = vec![];
    while let Err(q) = x.diff_partition(&key, &rows) {
        let request = (q.expr, q.args.clone());
        assert!(!asked.contains(&request));
        asked.push(request);
        let a = answer(&q);
        x.record(q, a);
    }
    assert!(asked.contains(&(FIRST_COLUMN, vec![Some(Scalar::Int64(3))])));
    let mut next_min: Datum = None;
    let mut visits = 0;
    while let Err(q) = x.visit(&key, &Scalar::Int32(1), &rows, &Scalar::Int32(10), &mut next_min) {
        let request = (q.expr, q.args.clone());
        assert!(!asked.contains(&request));
        asked.push(request);
        assert_eq!(next_min, None);
        visits += 1;
        let a = answer(&q);
        x.record(q, a);
    }
    // the time bounds are asked for at the watermark only
    assert!(visits > 0);
    assert!(asked.contains(&(DEADLINE, vec![num(4)])));
}

#[test]
fn a_visit_can_be_replayed() {
    let rows = [(7, 1, 1), (7, 2, 2), (7, 3, 2), (7, 4, 9), (7, 5, 1), (7, 6, 2)];
    // one executor visits at every watermark, the other is restarted before each
    for skip in 0..2 {
        let mode = || {
            if skip == 0 {
                SkipMode::PastLastRow
            } else {
                SkipMode::ToNextRow
            }
        };
        let mut steady = Operator::new(&a_then_bs(), mode(), true, false);
        let mut shaky = Operator::new(&a_then_bs(), mode(), true, false);
        for op in [&mut steady, &mut shaky] {
            op.chunk(&rows);
        }
        for t in 1..30 {
            shaky.x = executor(&a_then_bs(), mode(), true, false);
            steady.watermark(t);
            shaky.watermark(t);
            assert_eq!(steady.out, shaky.out);
            assert_eq!(steady.buffer, shaky.buffer);
            assert_eq!(steady.index, shaky.index);
        }
        assert_eq!(
            steady.told(),
            vec![(Op::Insert, 7, 3, 0), (Op::Insert, 7, 2, 4)]
        );
    }
}

/// `a b+`, where each `b` has a greater value than the row before it.
fn ascending(emit_on_update: bool) -> MatchRecognizeExecutor {
    let slot = |kind: u32, offset: u32| MatchRecognizeDefineSlot {
        kind,
        vars: vec![],
        col_idx: 2,
        offset,
    };
    let b = CompiledDefine::from_protobuf(&MatchRecognizeDefine {
        symbol: "b".to_owned(),
        condition: Some(LESS),
        slots: vec![slot(1, 1), slot(0, 0)],
    })
    .unwrap();
    MatchRecognizeExecutor::new(MatchRecognizeExecutorArgs {
        partition_key_indices: vec![0],
        order_key_indices: vec![1],
        measures: vec![count()],
        defines: vec![b],
        within: Some(WITHIN),
        within_deadline: Some(DEADLINE),
        nfa: Nfa::compile(&a_then_bs()),
        skip: SkipMode::PastLastRow,
        input_arity: 3,
        emit_on_update,
    })
}

#[test]
fn a_predicate_reads_back_within_the_match_whatever_is_evicted() {
    let rows = [
        (7, 1, 5),
        (7, 2, 6),
        (7, 3, 7),
        (7, 4, 3),
        (7, 5, 4),
        (7, 6, 2),
        (7, 7, 9),
        (7, 8, 1),
    ];
    let want = vec![
        (Op::Insert, 7, 3, 0),
        (Op::Insert, 7, 2, 3),
        (Op::Insert, 7, 2, 5),
    ];
    // all rows at once
    let mut whole = Operator::new(&a_then_bs(), SkipMode::PastLastRow, true, true);
    whole.x = ascending(true);
    whole.chunk(&rows);
    whole.barrier();
    assert_eq!(whole.told(), want);
    // row by row, with rows evicted as they become final
    let mut op = Operator::new(&a_then_bs(), SkipMode::PastLastRow, true, false);
    op.x = ascending(false);
    for r in rows {
        op.chunk(&[r]);
        op.watermark(r.1);
        assert!(op.buffer.len() <= 5);
    }
    op.watermark(100);
    assert_eq!(op.told(), want);
    assert_eq!(op.buffer.len(), 0);
}

#[test]
fn evicting_rows_takes_nothing_back() {
    let mut op = Operator::new(&a_then_bs(), SkipMode::PastLastRow, true, true);
    op.chunk(&[(7, 1, 1), (7, 2, 2), (7, 20, 1), (7, 21, 2)]);
    op.barrier();
    assert_eq!(
        op.told(),
        vec![(Op::Insert, 7, 2, 0), (Op::Insert, 7, 2, 2)]
    );
    op.watermark(15);
    assert_eq!(op.told(), vec![]);
    assert_eq!(op.buffer.len(), 2);
    let key = vec![num(7)];
    let rows = op.partition(&key);
    let ops = op.step(|x| x.diff_partition(&key, &rows));
    assert_eq!(ops, vec![]);
}

#[test]
fn nothing_told_after_an_eviction_names_an_evicted_row() {
    let mut op = Operator::new(&a_then_bs(), SkipMode::PastLastRow, true, true);
    let mut live: Vec<(i32, i32)> = vec![];
    let mut evicted: Vec<i32> = vec![];
    fn fold(op: &mut Operator, live: &mut Vec<(i32, i32)>, evicted: &[i32]) {
        for (o, _, n, id) in op.told() {
            assert!(!evicted.contains(&id));
            match o {
                Op::Insert => {
                    // at most one row has an identity
                    assert!(live.iter().all(|x| x.0 != id));
                    live.push((id, n));
                }
                _ => {
                    // what is deleted was inserted, as it is
                    let at = live.iter().position(|x| *x == (id, n)).unwrap();
                    live.remove(at);
                }
            }
        }
    }
    let chunks: [&[(i32, i32, i32)]; 4] = [
        &[(7, 1, 1), (7, 2, 2), (7, 3, 9), (7, 5, 1), (7, 6, 2)],
        &[(7, 9, 2), (7, 7, 2)],
        &[(7, 8, 1)],
        &[(7, 12, 1), (7, 11, 2), (7, 10, 9)],
    ];
    for (step, rows) in chunks.iter().enumerate() {
        op.chunk(rows);
        op.barrier();
        fold(&mut op, &mut live, &evicted);
        op.watermark(4 + 2 * step as i32);
        fold(&mut op, &mut live, &evicted);
        let buffered: Vec<i32> = op.buffer.iter().map(|r| number(&r[0])).collect();
        evicted = (0..op.next_seq as i32)
            .filter(|id| !buffered.contains(id))
            .collect();
        op.barrier();
        fold(&mut op, &mut live, &evicted);
    }
    live.sort();
    assert_eq!(evicted[..3], [0, 1, 2]);
    assert_eq!(live, vec![(0, 2), (3, 3), (7, 2)]);
}

#[test]
fn a_visit_tells_the_first_matches_up_to_one_that_can_grow() {
    let mut op = Operator::new(&a_then_bs(), SkipMode::PastLastRow, false, false);
    op.chunk(&[(7, 1, 1), (7, 2, 2), (7, 3, 1), (7, 4, 2), (7, 5, 2)]);
    // the second match ends with the last safe row
    op.watermark(6);
    assert_eq!(op.told(), vec![(Op::Insert, 7, 2, 0)]);
    // its rows stay
    let kept: Vec<i32> = op.buffer.iter().map(|r| number(&r[0])).collect();
    assert_eq!(kept, vec![2, 3, 4]);
    op.chunk(&[(7, 6, 2), (7, 7, 9)]);
    op.watermark(8);
    assert_eq!(op.told(), vec![(Op::Insert, 7, 4, 2)]);
    assert_eq!(op.buffer.len(), 0);
}

#[test]
fn telling_the_changes_after_a_seed_tells_nothing() {
    let mut op = Operator::new(&a_then_bs(), SkipMode::PastLastRow, true, true);
    op.chunk(&[(7, 1, 1), (7, 2, 2), (7, 3, 1), (7, 4, 2)]);
    let key = vec![num(7)];
    let rows = op.partition(&key);
    op.step(|x| x.seed_partition(&key, &rows));
    let ops = op.x.diff_partition(&key, &rows).unwrap();
    assert_eq!(ops, vec![]);
    // also where the matcher was fed other rows since
    let w = Scalar::Int32(3);
    let visited = op.step(|x| {
        let mut min = None;
        x.visit(&key, &Scalar::Int32(1), &rows, &w, &mut min)
    });
    assert_eq!(visited.visit.retain_from, 0);
    let ops = op.step(|x| x.diff_partition(&key, &rows));
    assert_eq!(ops, vec![]);
}

#[test]
fn a_step_asks_about_no_row_before_where_it_resumes() {
    // a b, where rows at odd times are `a` and rows at even times `b`
    let mut x = MatchRecognizeExecutor::new(MatchRecognizeExecutorArgs {
        partition_key_indices: vec![0],
        order_key_indices: vec![1],
        measures: vec![],
        defines: vec![define_on("a", IS_ODD, 1), define_on("b", IS_EVEN, 1)],
        within: None,
        within_deadline: None,
        nfa: Nfa::compile(&a_then_b()),
        skip: SkipMode::PastLastRow,
        input_arity: 3,
        emit_on_update: true,
    });
    let key = vec![num(7)];
    // tell the changes, and note the times of the rows that are asked about
    let mut diff = |times: &[i32]| -> (usize, Vec<i32>) {
        let rows: Vec<BufferedRow> = times
            .iter()
            .enumerate()
            .map(|(i, t)| BufferedRow {
                seq: i as i64,
                order_key: num(*t),
                row: vec![num(7), num(*t), num(0)],
            })
            .collect();
        let mut asked = vec![];
        let ops = loop {
            match x.diff_partition(&key, &rows) {
                Ok(ops) => break ops,
                Err(q) => {
                    asked.push(number(&q.args[0]));
                    let a = answer(&q);
                    x.record(q, a);
                }
            }
        };
        x.forget_answers();
        asked.sort();
        asked.dedup();
        (ops.len(), asked)
    };
    assert_eq!(diff(&[1, 2, 4]), (1, vec![1, 2, 4]));
    // the match of the first two rows is frozen, and the scan resumes behind it
    assert_eq!(diff(&[1, 2, 4, 5, 6]), (1, vec![4, 5, 6]));
    // the row at 6 could have been followed by rows that change the second match
    assert_eq!(diff(&[1, 2, 4, 5, 6, 8]), (0, vec![4, 5, 6, 8]));
    assert_eq!(diff(&[1, 2, 4, 5, 6, 8, 9, 10]), (1, vec![8, 9, 10]));
}

#[test]
fn one_pass_gives_each_partition_once() {
    let mut grouper = Grouper::new();
    let mut groups = vec![];
    for (seq, p) in [(0, 7), (1, 7), (2, 8), (3, 9), (4, 9)] {
        let row = BufferedRow {
            seq,
            order_key: num(0),
            row: vec![num(p)],
        };
        groups.extend(grouper.push(vec![num(p)], row));
    }
    groups.extend(grouper.finish());
    assert!(grouper.finish().is_none());
    let found: Vec<(i32, Vec<i64>)> = groups
        .iter()
        .map(|g| (number(&g.key[0]), g.rows.iter().map(|r| r.seq).collect()))
        .collect();
    assert_eq!(found, vec![(7, vec![0, 1]), (8, vec![2]), (9, vec![3, 4])]);
}

#[test]
fn a_partition_stays_dirty_until_its_changes_are_told() {
    let mut op = Operator::new(&a_then_b(), SkipMode::PastLastRow, true, true);
    let key = vec![num(7)];
    op.chunk(&[(7, 1, 1), (7, 2, 2)]);
    assert!(op.x.is_dirty(&key));
    let rows = op.partition(&key);
    // the step lacks answers: the partition stays dirty
    assert!(op.x.emit_before_finalize(&key, &rows).is_err());
    assert!(op.x.is_dirty(&key));
    let ops = op.step(|x| x.emit_before_finalize(&key, &rows));
    assert_eq!(ops.len(), 1);
    assert!(!op.x.is_dirty(&key));
    // taking another partition leaves it dirty
    op.chunk(&[(7, 3, 1), (8, 3, 1)]);
    let taken = op.x.pop_dirty().unwrap();
    let other = if taken == key { vec![num(8)] } else { key };
    assert!(!op.x.is_dirty(&taken));
    assert!(op.x.is_dirty(&other));
}
