use vstd::prelude::*;

verus! {

/// A stored sound together with its whole-file similarity score.
///
/// The score is carried as the IEEE 754 bit pattern of the similarity value.
/// Similarity values are clamped to the non-negative range, and for
/// non-negative doubles the unsigned order of the bit patterns coincides
/// with the numeric order, so the ranking compares the raw patterns.
#[derive(Debug, Clone, Copy, PartialEq, Eq, Structural)]
pub struct ScoredSound {
    pub sound_id: i64,
    pub score_bits: u64,
}

/// Descending score order: no element scores lower than a later one.
pub open spec fn sorted_desc(s: Seq<ScoredSound>) -> bool {
    forall|i: int, j: int|
        0 <= i < j < s.len() ==> (#[trigger] s[i]).score_bits >= (#[trigger] s[j]).score_bits
}

/// Insert `x` behind every element scoring at least as high, in front of the
/// first element scoring strictly lower. Equal scores keep their first-seen
/// order, which is the stable tiebreak of the search.
pub open spec fn insert_ranked(s: Seq<ScoredSound>, x: ScoredSound) -> Seq<ScoredSound>
    decreases s.len(),
{
    if s.len() == 0 {
        seq![x]
    } else if s[0].score_bits >= x.score_bits {
        seq![s[0]] + insert_ranked(s.skip(1), x)
    } else {
        seq![x] + s
    }
}

/// Stable descending sort by score: elements are taken in input order and
/// each is placed behind all earlier elements that score at least as high.
pub open spec fn rank_by_score(s: Seq<ScoredSound>) -> Seq<ScoredSound>
    decreases s.len(),
{
    if s.len() == 0 {
        s
    } else {
        insert_ranked(rank_by_score(s.drop_last()), s.last())
    }
}

/// The first `cap` elements, or all of them when there are fewer.
pub open spec fn truncated(s: Seq<ScoredSound>, cap: nat) -> Seq<ScoredSound> {
    if s.len() <= cap {
        s
    } else {
        s.take(cap as int)
    }
}

/// The ranked candidate list of one scoring pass: everything scoring at
/// least `threshold_bits`, in descending score order with the stable
/// first-seen tiebreak, cut off after `cap` entries.
pub open spec fn ranked_candidates(s: Seq<ScoredSound>, threshold_bits: u64, cap: nat) -> Seq<
    ScoredSound,
> {
    truncated(rank_by_score(s.filter(|x: ScoredSound| x.score_bits >= threshold_bits)), cap)
}

/// Rank one scoring pass: keep the candidates scoring at least
/// `threshold_bits`, sort them by descending score (stable, so equal scores
/// keep their first-seen order) and truncate to `max_results`.
///
/// The result is a function of the inputs alone, so two passes over the
/// same scores return the same list in the same order.
pub fn rank_candidates(scored: &Vec<ScoredSound>, threshold_bits: u64, max_results: usize) -> (r:
    Vec<ScoredSound>)
    ensures
        r@ == ranked_candidates(scored@, threshold_bits, max_results as nat),
{
    let ghost pred = |x: ScoredSound| x.score_bits >= threshold_bits;
    let mut ranked: Vec<ScoredSound> = Vec::new();
    let n = scored.len();
    let mut idx: usize = 0;
    while idx < n
        invariant
            n == scored@.len(),
            idx <= n,
            pred == (|x: ScoredSound| x.score_bits >= threshold_bits),
            ranked@ == rank_by_score(scored@.take(idx as int).filter(pred)),
            sorted_desc(ranked@),
        decreases n - idx,
    {
        let x = scored[idx];
        proof {
            reveal_with_fuel(Seq::<ScoredSound>::filter, 2);
            assert(scored@.take(idx + 1).drop_last() =~= scored@.take(idx as int));
            assert(scored@.take(idx + 1).last() == scored@[idx as int]);
        }
        if x.score_bits >= threshold_bits {
            let ghost before = ranked@;
            let mut j: usize = 0;
            let m = ranked.len();
            while j < m
                invariant
                    m == ranked@.len(),
                    j <= m,
                    ranked@ == before,
                    forall|k: int|
                        0 <= k < j ==> (#[trigger] ranked@[k]).score_bits >= x.score_bits,
                ensures
                    j <= m,
                    ranked@ == before,
                    forall|k: int|
                        0 <= k < j ==> (#[trigger] ranked@[k]).score_bits >= x.score_bits,
                    j < m ==> ranked@[j as int].score_bits < x.score_bits,
                decreases m - j,
            {
                if ranked[j].score_bits < x.score_bits {
                    break ;
                }
                j += 1;
            }
            ranked.insert(j, x);
            proof {
                reveal_with_fuel(Seq::<ScoredSound>::filter, 2);
                lemma_insert_ranked_at(before, x, j as int);
                assert(ranked@ == insert_ranked(before, x));
                let f1 = scored@.take(idx + 1).filter(pred);
                assert(f1 =~= scored@.take(idx as int).filter(pred).push(x));
                assert(f1.len() > 0);
                assert(f1.drop_last() =~= scored@.take(idx as int).filter(pred));
                assert(f1.last() == x);
                assert(rank_by_score(f1) == insert_ranked(
                    rank_by_score(scored@.take(idx as int).filter(pred)),
                    x,
                ));
                lemma_insert_ranked_sorted(before, x);
            }
        } else {
            proof {
                reveal_with_fuel(Seq::<ScoredSound>::filter, 2);
                assert(scored@.take(idx + 1).filter(pred) =~= scored@.take(idx as int).filter(
                    pred,
                ));
            }
        }
        idx += 1;
    }
    proof {
        assert(scored@.take(n as int) =~= scored@);
    }
    if ranked.len() > max_results {
        ranked.truncate(max_results);
        proof {
            assert(ranked@ == truncated(rank_by_score(scored@.filter(pred)), max_results as nat));
        }
    }
    ranked
}

/// `insert_ranked` places `x` exactly at the first position whose element
/// scores strictly lower.
proof fn lemma_insert_ranked_at(s: Seq<ScoredSound>, x: ScoredSound, j: int)
    requires
        0 <= j <= s.len(),
        forall|m: int| 0 <= m < j ==> (#[trigger] s[m]).score_bits >= x.score_bits,
        j < s.len() ==> s[j].score_bits < x.score_bits,
    ensures
        insert_ranked(s, x) == s.insert(j, x),
    decreases j,
{
    if j == 0 {
        if s.len() == 0 {
            assert(insert_ranked(s, x) =~= s.insert(0, x));
        } else {
            assert(insert_ranked(s, x) =~= s.insert(0, x));
        }
    } else {
        lemma_insert_ranked_at(s.skip(1), x, j - 1);
        assert(insert_ranked(s, x) == seq![s[0]] + insert_ranked(s.skip(1), x));
        assert(insert_ranked(s, x) =~= s.insert(j, x));
    }
}

/// Inserting into a descending list keeps it descending.
proof fn lemma_insert_ranked_sorted(s: Seq<ScoredSound>, x: ScoredSound)
    requires
        sorted_desc(s),
    ensures
        sorted_desc(insert_ranked(s, x)),
    decreases s.len(),
{
    if s.len() == 0 {
    } else if s[0].score_bits >= x.score_bits {
        assert(sorted_desc(s.skip(1)));
        lemma_insert_ranked_sorted(s.skip(1), x);
        let t = insert_ranked(s, x);
        let rest = insert_ranked(s.skip(1), x);
        lemma_insert_ranked_multiset(s.skip(1), x);
        assert forall|i: int, j: int| 0 <= i < j < t.len() implies (#[trigger] t[i]).score_bits
            >= (#[trigger] t[j]).score_bits by {
            if i == 0 {
                assert(t[j] == rest[j - 1]);
                lemma_insert_ranked_origin(s.skip(1), x, rest, j - 1);
            } else {
                assert(t[i] == rest[i - 1]);
                assert(t[j] == rest[j - 1]);
            }
        }
    } else {
        let t = insert_ranked(s, x);
        assert forall|i: int, j: int| 0 <= i < j < t.len() implies (#[trigger] t[i]).score_bits
            >= (#[trigger] t[j]).score_bits by {
            if i == 0 {
                assert(t[j] == s[j - 1]);
                if j == 1 {
                } else {
                    assert(s[0].score_bits >= s[j - 1].score_bits);
                }
            } else {
                assert(t[i] == s[i - 1]);
                assert(t[j] == s[j - 1]);
            }
        }
    }
}

/// Every element of `insert_ranked(s, x)` is `x` or one of the old
/// elements; stated through the element at a position to serve the
/// sortedness proof.
proof fn lemma_insert_ranked_origin(s: Seq<ScoredSound>, x: ScoredSound, t: Seq<ScoredSound>, j: int)
    requires
        t == insert_ranked(s, x),
        0 <= j < t.len(),
    ensures
        t[j] == x || s.contains(t[j]),
    decreases s.len(),
{
    if s.len() == 0 {
    } else if s[0].score_bits >= x.score_bits {
        if j == 0 {
            assert(s.contains(t[0]));
        } else {
            lemma_insert_ranked_origin(s.skip(1), x, insert_ranked(s.skip(1), x), j - 1);
            assert(t[j] == insert_ranked(s.skip(1), x)[j - 1]);
            if s.skip(1).contains(t[j]) {
                let k = choose|k: int| 0 <= k < s.skip(1).len() && s.skip(1)[k] == t[j];
                assert(s[k + 1] == t[j]);
            }
        }
    } else {
        if j == 0 {
        } else {
            assert(t[j] == s[j - 1]);
        }
    }
}

/// `insert_ranked` adds exactly `x` to the elements of `s`.
pub proof fn lemma_insert_ranked_multiset(s: Seq<ScoredSound>, x: ScoredSound)
    ensures
        insert_ranked(s, x).to_multiset() == s.to_multiset().insert(x),
    decreases s.len(),
{
    broadcast use vstd::seq_lib::group_seq_properties;

    if s.len() == 0 {
        assert(insert_ranked(s, x) =~= seq![x]);
        assert(seq![x].to_multiset() == Seq::<ScoredSound>::empty().to_multiset().insert(x)) by {
            assert(seq![x].drop_last() =~= Seq::<ScoredSound>::empty());
        }
    } else if s[0].score_bits >= x.score_bits {
        lemma_insert_ranked_multiset(s.skip(1), x);
        let rest = insert_ranked(s.skip(1), x);
        assert(insert_ranked(s, x) == seq![s[0]] + rest);
        vstd::seq_lib::lemma_multiset_commutative(seq![s[0]], rest);
        vstd::seq_lib::lemma_multiset_commutative(seq![s[0]], s.skip(1));
        assert(s =~= seq![s[0]] + s.skip(1));
    } else {
        assert(insert_ranked(s, x) == seq![x] + s);
        vstd::seq_lib::lemma_multiset_commutative(seq![x], s);
    }
}

/// The sorting pass permutes its input: same elements, same multiplicities.
pub proof fn lemma_rank_by_score_multiset(s: Seq<ScoredSound>)
    ensures
        rank_by_score(s).to_multiset() == s.to_multiset(),
    decreases s.len(),
{
    broadcast use vstd::seq_lib::group_seq_properties;

    if s.len() == 0 {
    } else {
        lemma_rank_by_score_multiset(s.drop_last());
        lemma_insert_ranked_multiset(rank_by_score(s.drop_last()), s.last());
        vstd::seq_lib::to_multiset_build(s.drop_last(), s.last());
        assert(s =~= s.drop_last().push(s.last()));
    }
}

/// The sorting pass returns a descending list.
pub proof fn lemma_rank_by_score_sorted(s: Seq<ScoredSound>)
    ensures
        sorted_desc(rank_by_score(s)),
    decreases s.len(),
{
    if s.len() == 0 {
    } else {
        lemma_rank_by_score_sorted(s.drop_last());
        lemma_insert_ranked_sorted(rank_by_score(s.drop_last()), s.last());
    }
}

/// Every element of a filtered sequence occurs in the sequence it was
/// filtered from.
proof fn lemma_filter_subset(s: Seq<ScoredSound>, pred: spec_fn(ScoredSound) -> bool)
    ensures
        forall|i: int|
            0 <= i < s.filter(pred).len() ==> s.contains(#[trigger] s.filter(pred)[i]),
    decreases s.len(),
{
    reveal(Seq::filter);
    let f = s.filter(pred);
    if s.len() > 0 {
        lemma_filter_subset(s.drop_last(), pred);
        let g = s.drop_last().filter(pred);
        assert forall|i: int| 0 <= i < f.len() implies s.contains(#[trigger] f[i]) by {
            if i < g.len() {
                assert(f[i] == g[i]);
                assert(s.drop_last().contains(g[i]));
                let j = choose|j: int| 0 <= j < s.drop_last().len() && s.drop_last()[j] == g[i];
                assert(s[j] == g[i]);
            } else {
                assert(f[i] == s.last());
            }
        }
    }
}

/// What one ranked scoring pass guarantees: the list is descending, holds at
/// most `cap` entries, and every entry meets the threshold and comes from
/// the scored input.
pub proof fn lemma_ranked_candidates_props(s: Seq<ScoredSound>, threshold_bits: u64, cap: nat)
    ensures
        sorted_desc(ranked_candidates(s, threshold_bits, cap)),
        ranked_candidates(s, threshold_bits, cap).len() <= cap,
        forall|i: int|
            0 <= i < ranked_candidates(s, threshold_bits, cap).len() ==> (
            #[trigger] ranked_candidates(s, threshold_bits, cap)[i]).score_bits >= threshold_bits
                && s.contains(ranked_candidates(s, threshold_bits, cap)[i]),
{
    broadcast use vstd::seq_lib::group_seq_properties;

    let pred = |x: ScoredSound| x.score_bits >= threshold_bits;
    let f = s.filter(pred);
    let sorted = rank_by_score(f);
    let ranked = ranked_candidates(s, threshold_bits, cap);
    lemma_rank_by_score_sorted(f);
    lemma_rank_by_score_multiset(f);
    broadcast use vstd::seq_lib::group_filter_ensures;

    lemma_filter_subset(s, pred);
    assert forall|i: int| 0 <= i < ranked.len() implies (#[trigger] ranked[i]).score_bits
        >= threshold_bits && s.contains(ranked[i]) by {
        assert(ranked[i] == sorted[i]);
        assert(sorted.contains(sorted[i]));
        assert(sorted.to_multiset().count(sorted[i]) > 0);
        assert(f.to_multiset().count(sorted[i]) > 0);
        assert(f.contains(sorted[i]));
        let j = choose|j: int| 0 <= j < f.len() && f[j] == sorted[i];
        assert(pred(f[j]));
        assert(s.contains(f[j]));
    }
}

} // verus!
