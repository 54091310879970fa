use match_recognize::buffer::BufferedRow;
use match_recognize::incremental::{Finalized, IncrementalMatcher, SeqMatch};
use match_recognize::matcher::SetMatcher;
use match_recognize::nfa::{LabeledMatch, Nfa};
use match_recognize::pattern::{Pattern, Quantifier};
use match_recognize::refresh::refresh_matcher;
use match_recognize::skip::SkipMode;

/// Feeding rows incrementally (in any split) must equal one batch scan over the same rows.
fn assert_equiv(nfa: &Nfa, skip: SkipMode, rows: &[Vec<String>], split_at: &[usize]) {
    let matcher = SetMatcher::new(rows.to_vec());
    let batch = nfa
        .find_matches_dynamic(rows.len(), &matcher, &skip)
        .unwrap();
    let mut inc = IncrementalMatcher::new(nfa, skip.clone());
    let mut fed = 0usize;
    for &cut in split_at.iter().chain(std::iter::once(&rows.len())) {
        let seqs: Vec<i64> = (fed..cut).map(|i| i as i64).collect();
        inc.advance(&seqs, &matcher).unwrap();
        fed = cut;
    }
    let inc_matches: Vec<(usize, usize)> = inc
        .provisional()
        .iter()
        .map(|m| (m.start_seq as usize, m.end_seq as usize))
        .collect();
    let batch_matches: Vec<(usize, usize)> = batch.iter().map(|m| (m.start, m.end)).collect();
    assert_eq!(inc_matches, batch_matches);
    let inc_labels: Vec<&Vec<String>> = inc.provisional().iter().map(|m| &m.labels).collect();
    let batch_labels: Vec<&Vec<String>> = batch.iter().map(|m| &m.labels).collect();
    assert_eq!(inc_labels, batch_labels);
}

fn sets(labels: &[&str]) -> Vec<String> {
    labels.iter().map(|s| s.to_string()).collect()
}

/// One row per non-whitespace char, each satisfying the single variable named by that char.
fn from_str(s: &str) -> Vec<Vec<String>> {
    s.chars()
        .filter(|c| !c.is_whitespace())
        .map(|c| vec![c.to_string()])
        .collect()
}

/// `n` rows that each satisfy both `a` and `b`, so quantifier preference (not the predicate)
/// decides the split.
fn ab_rows(n: usize) -> Vec<Vec<String>> {
    vec![vec!["a".to_string(), "b".to_string()]; n]
}

fn quant(inner: Pattern, q: Quantifier, reluctant: bool) -> Pattern {
    Pattern::Quantified(Box::new(inner), q, reluctant)
}

fn spans(found: &[LabeledMatch]) -> Vec<(usize, usize)> {
    found.iter().map(|m| (m.start, m.end)).collect()
}

#[test]
fn incremental_equals_batch_in_order() {
    // pattern (a b+): greedy trailing quantifier exercises the "still-open trailing match must
    // re-scan" rule.
    let pat = Pattern::Concat(vec![
        Pattern::Var("a".into()),
        Pattern::Quantified(Box::new(Pattern::Var("b".into())), Quantifier::Plus, false),
    ]);
    let nfa = Nfa::compile(&pat);
    let rows = vec![
        sets(&["a"]),
        sets(&["b"]),
        sets(&["b"]),
        sets(&["a"]),
        sets(&["b"]),
    ];
    // every split point, including feeding one row at a time
    assert_equiv(&nfa, SkipMode::PastLastRow, &rows, &[1]);
    assert_equiv(&nfa, SkipMode::PastLastRow, &rows, &[1, 2, 3, 4]);
    assert_equiv(&nfa, SkipMode::ToNextRow, &rows, &[2]);
}

#[test]
fn alternation_incremental_equals_batch() {
    // (a | b) c: the trailing `c` makes a match ending at the buffer boundary re-attempt until the
    // `c` row arrives.
    let pat = Pattern::Concat(vec![
        Pattern::Alt(vec![Pattern::Var("a".into()), Pattern::Var("b".into())]),
        Pattern::Var("c".into()),
    ]);
    let nfa = Nfa::compile(&pat);
    let rows = from_str("acbc");
    for split in [&[1][..], &[2][..], &[1, 2, 3][..], &[3][..]] {
        assert_equiv(&nfa, SkipMode::PastLastRow, &rows, split);
    }
}

#[test]
fn range_quantifier_incremental_equals_batch() {
    // a{2,3}: a bounded range that greedily takes up to three, with the optional third copy ending
    // at the boundary (open) until the next row disambiguates it.
    let pat = quant(
        Pattern::Var("a".into()),
        Quantifier::Range {
            min: 2,
            max: Some(3),
        },
        false,
    );
    let nfa = Nfa::compile(&pat);
    let rows = from_str("aaxaa");
    for split in [&[1][..], &[2][..], &[1, 2, 3, 4][..], &[3][..]] {
        assert_equiv(&nfa, SkipMode::PastLastRow, &rows, split);
    }
}

#[test]
fn reluctant_quantifier_incremental_equals_batch() {
    // a+? b over rows that each satisfy both a and b: the reluctant `a+?` takes the fewest `a`, so
    // each match is exactly "ab".
    let pat = Pattern::Concat(vec![
        quant(Pattern::Var("a".into()), Quantifier::Plus, true),
        Pattern::Var("b".into()),
    ]);
    let nfa = Nfa::compile(&pat);
    let rows = ab_rows(4);
    for split in [&[1][..], &[2][..], &[1, 2, 3][..]] {
        assert_equiv(&nfa, SkipMode::PastLastRow, &rows, split);
    }
}

#[test]
fn to_next_row_overlap_incremental_equals_batch() {
    // a+ with SKIP TO NEXT ROW: overlapping matches (0,3),(1,3),(2,3) over "aaa". Every open match
    // ends at the boundary, so none freezes until a non-`a` row (or nothing) follows.
    let pat = quant(Pattern::Var("a".into()), Quantifier::Plus, false);
    let nfa = Nfa::compile(&pat);
    let rows = from_str("aaa");
    for split in [&[1][..], &[2][..], &[1, 2][..]] {
        assert_equiv(&nfa, SkipMode::ToNextRow, &rows, split);
    }
    // and with a trailing non-`a` row that closes all three matches strictly before the boundary
    let rows = from_str("aaab");
    assert_equiv(&nfa, SkipMode::ToNextRow, &rows, &[1, 2, 3]);
}

#[test]
fn empty_advances_are_noops() {
    // A repeated split point feeds an empty advance; a leading `0` feeds one before any real row.
    // Both must be no-ops, so the final matches still equal the batch answer.
    let pat = Pattern::Concat(vec![
        Pattern::Var("a".into()),
        quant(Pattern::Var("b".into()), Quantifier::Plus, false),
    ]);
    let nfa = Nfa::compile(&pat);
    let rows = from_str("abbab");
    assert_equiv(&nfa, SkipMode::PastLastRow, &rows, &[2, 2, 3]); // empty in the middle
    assert_equiv(&nfa, SkipMode::PastLastRow, &rows, &[0, 1, 3]); // empty at the very start
    assert_equiv(&nfa, SkipMode::PastLastRow, &rows, &[1, 3, 3, 3]); // empties at the end
}

#[test]
fn single_row_feeds_over_twelve_rows() {
    // Feed 12-row inputs one row at a time (split = [1..=11]) for several patterns.
    let one_at_a_time: Vec<usize> = (1..12).collect();

    let ab_plus = Nfa::compile(&Pattern::Concat(vec![
        Pattern::Var("a".into()),
        quant(Pattern::Var("b".into()), Quantifier::Plus, false),
    ]));
    assert_equiv(
        &ab_plus,
        SkipMode::PastLastRow,
        &from_str("abbabbaabbab"),
        &one_at_a_time,
    );

    let alt_c = Nfa::compile(&Pattern::Concat(vec![
        Pattern::Alt(vec![Pattern::Var("a".into()), Pattern::Var("b".into())]),
        Pattern::Var("c".into()),
    ]));
    assert_equiv(
        &alt_c,
        SkipMode::PastLastRow,
        &from_str("acbcacxbcacb"),
        &one_at_a_time,
    );
    assert_equiv(
        &alt_c,
        SkipMode::PastLastRow,
        &from_str("acbcbcacacbc"),
        &one_at_a_time,
    );

    // overlapping matches under ToNextRow, single-fed
    let a_plus = Nfa::compile(&quant(Pattern::Var("a".into()), Quantifier::Plus, false));
    assert_equiv(
        &a_plus,
        SkipMode::ToNextRow,
        &from_str("aaxaaaxaaaax"),
        &one_at_a_time,
    );
}

/// An alternation whose shorter alternative accepts before the boundary while a longer one that is
/// preferred is still alive at the boundary: the shorter match must not freeze.
#[test]
fn known_limitation_alternation_alive_at_boundary_diverges() {
    let pat = Pattern::Alt(vec![
        Pattern::Concat(vec![
            Pattern::Var("a".into()),
            Pattern::Var("b".into()),
            Pattern::Var("c".into()),
        ]),
        Pattern::Var("a".into()),
    ]);
    let nfa = Nfa::compile(&pat);
    let rows = from_str("abc");
    assert_equiv(&nfa, SkipMode::PastLastRow, &rows, &[2]);
}

#[test]
fn every_split_of_many_patterns_equals_batch() {
    let v = |s: &str| Pattern::Var(s.to_string());
    let patterns = vec![
        Pattern::Alt(vec![
            Pattern::Concat(vec![v("a"), v("b"), v("c")]),
            v("a"),
            v("b"),
        ]),
        Pattern::Permute(vec![v("a"), v("b"), v("c")]),
        quant(
            Pattern::Alt(vec![v("a"), Pattern::Concat(vec![v("b"), v("c")])]),
            Quantifier::Star,
            false,
        ),
        Pattern::Concat(vec![
            quant(v("a"), Quantifier::Question, true),
            quant(v("b"), Quantifier::Star, false),
            v("c"),
        ]),
        quant(
            quant(v("a"), Quantifier::Star, false),
            Quantifier::Plus,
            false,
        ),
    ];
    let inputs = ["abcabc", "aabbcc", "cbacba", "abcxab", "bcbcaa"];
    let skips = [
        SkipMode::PastLastRow,
        SkipMode::ToNextRow,
        SkipMode::ToFirst("b".to_string()),
        SkipMode::ToLast("a".to_string()),
    ];
    for p in &patterns {
        let nfa = Nfa::compile(p);
        for input in inputs {
            for skip in &skips {
                for mask in 0..32u32 {
                    let split: Vec<usize> =
                        (1..6).filter(|i| mask & (1 << (i - 1)) != 0).collect();
                    assert_equiv(&nfa, skip.clone(), &from_str(input), &split);
                }
            }
        }
    }
}

#[test]
fn permute_matches_every_order() {
    let v = |s: &str| Pattern::Var(s.to_string());
    let nfa = Nfa::compile(&Pattern::Permute(vec![v("a"), v("b"), v("c")]));
    for input in ["abc", "acb", "bac", "bca", "cab", "cba"] {
        let rows = from_str(input);
        let matcher = SetMatcher::new(rows);
        let found = nfa
            .find_matches_dynamic(3, &matcher, &SkipMode::PastLastRow)
            .unwrap();
        assert_eq!(spans(&found), vec![(0, 3)]);
        assert_eq!(found[0].labels.concat(), input);
    }
    let matcher = SetMatcher::new(from_str("aab"));
    assert_eq!(
        nfa.find_matches_dynamic(3, &matcher, &SkipMode::PastLastRow)
            .unwrap(),
        vec![]
    );
}

#[test]
fn a_pattern_that_binds_no_row_does_not_match() {
    let nfa = Nfa::compile(&quant(
        Pattern::Var("a".to_string()),
        Quantifier::Star,
        true,
    ));
    let matcher = SetMatcher::new(from_str("aa"));
    assert_eq!(
        nfa.find_matches_dynamic(2, &matcher, &SkipMode::PastLastRow)
            .unwrap(),
        vec![]
    );
}

#[test]
fn greedy_and_reluctant_take_the_most_and_the_least() {
    let a = || Pattern::Var("a".to_string());
    let range = Quantifier::Range {
        min: 2,
        max: Some(3),
    };
    let matcher = SetMatcher::new(from_str("aaaa"));
    let greedy = Nfa::compile(&quant(a(), range, false));
    assert_eq!(
        spans(
            &greedy
                .find_matches_dynamic(4, &matcher, &SkipMode::PastLastRow)
                .unwrap()
        ),
        vec![(0, 3)]
    );
    let reluctant = Nfa::compile(&quant(a(), range, true));
    assert_eq!(
        spans(
            &reluctant
                .find_matches_dynamic(4, &matcher, &SkipMode::PastLastRow)
                .unwrap()
        ),
        vec![(0, 2), (2, 4)]
    );
    let open = Nfa::compile(&quant(a(), Quantifier::Range { min: 2, max: None }, false));
    assert_eq!(
        spans(
            &open
                .find_matches_dynamic(4, &matcher, &SkipMode::PastLastRow)
                .unwrap()
        ),
        vec![(0, 4)]
    );
}

#[test]
fn may_extend_follows_the_order_of_preference() {
    let v = |s: &str| Pattern::Var(s.to_string());
    let matcher = SetMatcher::new(from_str("ab"));
    // a fixed (a b) cannot change
    let fixed = Nfa::compile(&Pattern::Concat(vec![v("a"), v("b")]));
    assert!(!fixed.may_extend(0, 2, &matcher).unwrap());
    // a greedy b+ can take another row
    let greedy = Nfa::compile(&Pattern::Concat(vec![
        v("a"),
        quant(v("b"), Quantifier::Plus, false),
    ]));
    assert!(greedy.may_extend(0, 2, &matcher).unwrap());
    // a reluctant b+? does not
    let reluctant = Nfa::compile(&Pattern::Concat(vec![
        v("a"),
        quant(v("b"), Quantifier::Plus, true),
    ]));
    assert!(!reluctant.may_extend(0, 2, &matcher).unwrap());
    // a branch that is listed later holds nothing back
    let alt = Nfa::compile(&Pattern::Alt(vec![
        Pattern::Concat(vec![v("a"), v("b")]),
        Pattern::Concat(vec![v("a"), v("b"), v("c")]),
    ]));
    assert!(!alt.may_extend(0, 2, &matcher).unwrap());
    assert!(alt.reaches_boundary_alive(0, 2, &matcher).unwrap());
}

#[test]
fn reaches_boundary_alive_is_false_for_a_dead_start() {
    let v = |s: &str| Pattern::Var(s.to_string());
    let nfa = Nfa::compile(&Pattern::Concat(vec![v("a"), v("b")]));
    let matcher = SetMatcher::new(from_str("axx"));
    assert!(!nfa.reaches_boundary_alive(0, 3, &matcher).unwrap());
    assert!(nfa.reaches_boundary_alive(0, 1, &matcher).unwrap());
    assert!(nfa.reaches_boundary_alive(3, 3, &matcher).unwrap());
}

#[test]
fn matches_are_anchored_by_seqs() {
    let nfa = Nfa::compile(&Pattern::Concat(vec![
        Pattern::Var("a".to_string()),
        Pattern::Var("b".to_string()),
    ]));
    let matcher = SetMatcher::new(from_str("xab"));
    let mut inc = IncrementalMatcher::new(&nfa, SkipMode::PastLastRow);
    inc.advance(&[10, 30, 20], &matcher).unwrap();
    assert_eq!(
        inc.provisional(),
        &[SeqMatch {
            start_seq: 30,
            end_seq: 21,
            labels: vec!["a".to_string(), "b".to_string()],
        }]
    );
    let m = LabeledMatch {
        start: 0,
        end: 2,
        labels: vec!["x".to_string(), "a".to_string()],
    };
    assert_eq!(
        inc.to_seq_match(&m),
        SeqMatch {
            start_seq: 10,
            end_seq: 31,
            labels: vec!["x".to_string(), "a".to_string()],
        }
    );
}

#[test]
fn rolling_back_and_feeding_again_equals_batch() {
    let nfa = Nfa::compile(&Pattern::Concat(vec![
        Pattern::Var("a".to_string()),
        quant(Pattern::Var("b".to_string()), Quantifier::Plus, false),
    ]));
    let before = SetMatcher::new(from_str("abxabb"));
    let mut inc = IncrementalMatcher::new(&nfa, SkipMode::PastLastRow);
    inc.advance(&[0, 1, 2, 3, 4, 5], &before).unwrap();
    // a row arrives before the row with seq 4
    let after = SetMatcher::new(from_str("abxaxbb"));
    inc.truncate_from_seq(4, &after).unwrap();
    assert_eq!(inc.fed_seqs(), &[0, 1, 2, 3]);
    inc.advance(&[9, 4, 5], &after).unwrap();
    let batch = nfa
        .find_matches_dynamic(7, &after, &SkipMode::PastLastRow)
        .unwrap();
    assert_eq!(spans(&inc.labeled()), spans(&batch));
    assert_eq!(inc.provisional().len(), 1);
    // a seq that was not fed rolls nothing back
    inc.truncate_from_seq(77, &after).unwrap();
    assert_eq!(inc.fed_seqs().len(), 7);
}

#[test]
fn rescan_finds_the_matches_behind_the_frozen_ones_again() {
    let nfa = Nfa::compile(&Pattern::Concat(vec![
        Pattern::Var("a".to_string()),
        quant(Pattern::Var("b".to_string()), Quantifier::Plus, false),
    ]));
    let matcher = SetMatcher::new(from_str("abxabb"));
    let mut inc = IncrementalMatcher::new(&nfa, SkipMode::PastLastRow);
    inc.advance(&[0, 1, 2, 3, 4, 5], &matcher).unwrap();
    inc.truncate_from_seq(5, &matcher).unwrap();
    assert_eq!(inc.provisional().len(), 1);
    inc.rescan(&matcher).unwrap();
    assert_eq!(spans(&inc.labeled()), vec![(0, 2), (3, 5)]);
}

#[test]
fn an_evicted_prefix_is_dropped_in_place_where_it_can_be() {
    let nfa = Nfa::compile(&Pattern::Concat(vec![
        Pattern::Var("a".to_string()),
        Pattern::Var("b".to_string()),
    ]));
    let matcher = SetMatcher::new(from_str("abxab"));
    let mut inc = IncrementalMatcher::new(&nfa, SkipMode::PastLastRow);
    inc.advance(&[0, 1, 2, 3, 4], &matcher).unwrap();
    // the first match is frozen, and no match reaches across row 2
    assert_eq!(inc.finalize_evicted_prefix(2), Finalized::Rebased);
    assert_eq!(inc.fed_seqs(), &[2, 3, 4]);
    assert_eq!(spans(&inc.labeled()), vec![(1, 3)]);
    // a row that was never fed
    assert_eq!(inc.finalize_evicted_prefix(99), Finalized::MustRebuild);
    // a row in the middle of a match
    assert_eq!(inc.finalize_evicted_prefix(4), Finalized::MustRebuild);

    let mut next_row = IncrementalMatcher::new(&nfa, SkipMode::ToNextRow);
    next_row.advance(&[0, 1, 2, 3, 4], &matcher).unwrap();
    assert_eq!(next_row.finalize_evicted_prefix(2), Finalized::MustRebuild);
    assert_eq!(next_row.fed_seqs().len(), 5);
}

#[test]
fn whatever_refreshes_came_before_the_last_one_equals_batch() {
    // a b+ over rows with the seqs 0 to 4
    let nfa = Nfa::compile(&Pattern::Concat(vec![
        Pattern::Var("a".into()),
        quant(Pattern::Var("b".into()), Quantifier::Plus, false),
    ]));
    let vars = from_str("abbab");
    let lists: [&[usize]; 7] = [
        &[],
        &[0, 1],
        &[0, 1, 2],
        &[0, 2, 3, 4],
        &[0, 1, 2, 3, 4],
        &[3, 4],
        &[0, 3, 1, 4],
    ];
    let refresh = |inc: &mut IncrementalMatcher, list: &[usize]| {
        let rows: Vec<BufferedRow> = list
            .iter()
            .map(|i| BufferedRow {
                seq: *i as i64,
                order_key: None,
                row: vec![],
            })
            .collect();
        let matcher = SetMatcher::new(list.iter().map(|i| vars[*i].clone()).collect());
        refresh_matcher(inc, &rows, rows.len(), &matcher).unwrap();
        let fed: Vec<i64> = list.iter().map(|i| *i as i64).collect();
        assert_eq!(inc.fed_seqs(), &fed[..]);
        let scratch = nfa
            .find_matches_dynamic(list.len(), &matcher, &SkipMode::PastLastRow)
            .unwrap();
        assert_eq!(inc.labeled(), scratch);
        let kept: Vec<SeqMatch> = inc.provisional().to_vec();
        // again: nothing changes, and nothing is asked
        refresh_matcher(inc, &rows, rows.len(), &matcher).unwrap();
        assert_eq!(inc.provisional(), &kept[..]);
    };
    for a in lists {
        for b in lists {
            for c in lists {
                let mut inc = IncrementalMatcher::new(&nfa, SkipMode::PastLastRow);
                refresh(&mut inc, a);
                refresh(&mut inc, b);
                refresh(&mut inc, c);
            }
        }
    }
}
