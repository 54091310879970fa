# match_recognize

Streaming row pattern recognition: the decisions of a `MATCH_RECOGNIZE` operator over append-only
input, verified with Verus, and the rules by which snapshots of Iceberg tables expire.

- `pattern.rs`, `scan.rs`: what a pattern matches, and which matches a scan of the rows finds.
- `nfa.rs`: patterns compiled into an automaton that finds these matches.
- `incremental.rs`, `refresh.rs`: matching rows as they arrive, without scanning all of them again.
- `define.rs`, `measure.rs`, `skip.rs`, `plan.rs`: the clauses of a query.
- `emission.rs`, `changelog.rs`: matches told as a changelog that is corrected as rows arrive.
- `visit.rs`, `eviction.rs`, `frontier.rs`: what a watermark decides, and when it comes to a
  partition.
- `ingest.rs`, `groups.rs`, `partitions.rs`, `buffer.rs`: rows on their way in and out.
- `executor.rs`: the steps of the operator, over the rows that were read.
- `gc.rs`, `pack_pk.rs`: the expiration of snapshots, and the encoding of a row as one value.

A step needs expressions evaluated, which happens elsewhere. It returns the request for the answer
that it lacks; once the answer is recorded the same step is taken again (`eval.rs`).

What holds of the parts together stands in proof functions: `refine.rs` and `settled.rs` (what
missing answers and missing rows cannot change), `reach.rs` (how far back a predicate may read),
`finality.rs` (what a watermark decides stays right), `consistency.rs` (what is told is what
evaluating the query on all rows gives, across arrivals, evictions and restarts), `history.rs` (the
same of everything that a partition ever tells), and `pending.rs` (a step stops only for an answer
that is not known).

`app/` reads and writes tables, evaluates expressions, passes messages on, and commits to Iceberg
catalogs.
