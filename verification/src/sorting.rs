use vstd::prelude::*;

use crate::store::SoundRecordView;

verus! {

/// `keep(e, x)` reads: an earlier element `e` stays in front of a newly
/// inserted `x`. A stable insertion sort keeps `e` exactly when this holds,
/// so equal keys keep their input order.
pub open spec fn sorted_records_by(
    s: Seq<SoundRecordView>,
    keep: spec_fn(SoundRecordView, SoundRecordView) -> bool,
) -> bool {
    forall|i: int, j: int| 0 <= i < j < s.len() ==> keep(#[trigger] s[i], #[trigger] s[j])
}

/// Insert `x` behind every element that stays in front of it, in front of
/// the first one that does not.
pub open spec fn insert_record(
    s: Seq<SoundRecordView>,
    x: SoundRecordView,
    keep: spec_fn(SoundRecordView, SoundRecordView) -> bool,
) -> Seq<SoundRecordView>
    decreases s.len(),
{
    if s.len() == 0 {
        seq![x]
    } else if keep(s[0], x) {
        seq![s[0]] + insert_record(s.skip(1), x, keep)
    } else {
        seq![x] + s
    }
}

/// Stable sort: elements are taken in input order and each is placed behind
/// all earlier elements that stay in front of it.
pub open spec fn sort_records(
    s: Seq<SoundRecordView>,
    keep: spec_fn(SoundRecordView, SoundRecordView) -> bool,
) -> Seq<SoundRecordView>
    decreases s.len(),
{
    if s.len() == 0 {
        s
    } else {
        insert_record(sort_records(s.drop_last(), keep), s.last(), keep)
    }
}

/// `insert_record` places `x` exactly at the first position whose element
/// does not stay in front of it.
pub proof fn lemma_insert_record_at(
    s: Seq<SoundRecordView>,
    x: SoundRecordView,
    keep: spec_fn(SoundRecordView, SoundRecordView) -> bool,
    j: int,
)
    requires
        0 <= j <= s.len(),
        forall|m: int| 0 <= m < j ==> keep(#[trigger] s[m], x),
        j < s.len() ==> !keep(s[j], x),
    ensures
        insert_record(s, x, keep) == s.insert(j, x),
    decreases j,
{
    if j == 0 {
        assert(insert_record(s, x, keep) =~= s.insert(0, x));
    } else {
        lemma_insert_record_at(s.skip(1), x, keep, j - 1);
        assert(insert_record(s, x, keep) == seq![s[0]] + insert_record(s.skip(1), x, keep));
        assert(insert_record(s, x, keep) =~= s.insert(j, x));
    }
}

/// Every element of the inserted list is `x` or one of the old elements.
proof fn lemma_insert_record_origin(
    s: Seq<SoundRecordView>,
    x: SoundRecordView,
    keep: spec_fn(SoundRecordView, SoundRecordView) -> bool,
    j: int,
)
    requires
        0 <= j < insert_record(s, x, keep).len(),
    ensures
        insert_record(s, x, keep)[j] == x || s.contains(insert_record(s, x, keep)[j]),
    decreases s.len(),
{
    let t = insert_record(s, x, keep);
    if s.len() == 0 {
    } else if keep(s[0], x) {
        if j == 0 {
            assert(s.contains(t[0]));
        } else {
            lemma_insert_record_origin(s.skip(1), x, keep, j - 1);
            assert(t[j] == insert_record(s.skip(1), x, keep)[j - 1]);
            if s.skip(1).contains(t[j]) {
                let k = choose|k: int| 0 <= k < s.skip(1).len() && s.skip(1)[k] == t[j];
                assert(s[k + 1] == t[j]);
            }
        }
    } else {
        if j > 0 {
            assert(t[j] == s[j - 1]);
        }
    }
}

/// A stable insertion into a sorted list keeps it sorted, for any total and
/// transitive order.
pub proof fn lemma_insert_record_sorted(
    s: Seq<SoundRecordView>,
    x: SoundRecordView,
    keep: spec_fn(SoundRecordView, SoundRecordView) -> bool,
)
    requires
        sorted_records_by(s, keep),
        forall|p: SoundRecordView, q: SoundRecordView| #[trigger] keep(p, q) || #[trigger] keep(q, p),
        forall|p: SoundRecordView, q: SoundRecordView, r: SoundRecordView|
            #[trigger] keep(p, q) && #[trigger] keep(q, r) ==> keep(p, r),
    ensures
        sorted_records_by(insert_record(s, x, keep), keep),
    decreases s.len(),
{
    let t = insert_record(s, x, keep);
    if s.len() == 0 {
    } else if keep(s[0], x) {
        assert(sorted_records_by(s.skip(1), keep));
        lemma_insert_record_sorted(s.skip(1), x, keep);
        let rest = insert_record(s.skip(1), x, keep);
        assert forall|i: int, j: int| 0 <= i < j < t.len() implies keep(
            #[trigger] t[i],
            #[trigger] t[j],
        ) by {
            if i == 0 {
                assert(t[j] == rest[j - 1]);
                lemma_insert_record_origin(s.skip(1), x, keep, j - 1);
                if s.skip(1).contains(t[j]) {
                    let k = choose|k: int| 0 <= k < s.skip(1).len() && s.skip(1)[k] == t[j];
                    assert(keep(s[0], s[k + 1]));
                }
            } else {
                assert(t[i] == rest[i - 1]);
                assert(t[j] == rest[j - 1]);
            }
        }
    } else {
        assert forall|i: int, j: int| 0 <= i < j < t.len() implies keep(
            #[trigger] t[i],
            #[trigger] t[j],
        ) by {
            if i == 0 {
                assert(t[j] == s[j - 1]);
                assert(keep(x, s[0]));
                if j > 1 {
                    assert(keep(s[0], s[j - 1]));
                }
            } else {
                assert(t[i] == s[i - 1]);
                assert(t[j] == s[j - 1]);
            }
        }
    }
}

/// The stable sort permutes its input: same records, same multiplicities.
pub proof fn lemma_insert_record_multiset(
    s: Seq<SoundRecordView>,
    x: SoundRecordView,
    keep: spec_fn(SoundRecordView, SoundRecordView) -> bool,
)
    ensures
        insert_record(s, x, keep).to_multiset() == s.to_multiset().insert(x),
    decreases s.len(),
{
    broadcast use vstd::seq_lib::group_seq_properties;

    if s.len() == 0 {
        assert(insert_record(s, x, keep) =~= seq![x]);
        assert(seq![x].to_multiset() == Seq::<SoundRecordView>::empty().to_multiset().insert(x))
            by {
            assert(seq![x].drop_last() =~= Seq::<SoundRecordView>::empty());
        }
    } else if keep(s[0], x) {
        lemma_insert_record_multiset(s.skip(1), x, keep);
        let rest = insert_record(s.skip(1), x, keep);
        assert(insert_record(s, x, keep) == seq![s[0]] + rest);
        vstd::seq_lib::lemma_multiset_commutative(seq![s[0]], rest);
        vstd::seq_lib::lemma_multiset_commutative(seq![s[0]], s.skip(1));
        assert(s =~= seq![s[0]] + s.skip(1));
    } else {
        assert(insert_record(s, x, keep) == seq![x] + s);
        vstd::seq_lib::lemma_multiset_commutative(seq![x], s);
    }
}

/// The full sort is sorted for any total and transitive order.
pub proof fn lemma_sort_records_sorted(
    s: Seq<SoundRecordView>,
    keep: spec_fn(SoundRecordView, SoundRecordView) -> bool,
)
    requires
        forall|p: SoundRecordView, q: SoundRecordView| #[trigger] keep(p, q) || #[trigger] keep(q, p),
        forall|p: SoundRecordView, q: SoundRecordView, r: SoundRecordView|
            #[trigger] keep(p, q) && #[trigger] keep(q, r) ==> keep(p, r),
    ensures
        sorted_records_by(sort_records(s, keep), keep),
    decreases s.len(),
{
    if s.len() == 0 {
    } else {
        lemma_sort_records_sorted(s.drop_last(), keep);
        lemma_insert_record_sorted(sort_records(s.drop_last(), keep), s.last(), keep);
    }
}

/// The full sort permutes its input.
pub proof fn lemma_sort_records_multiset(
    s: Seq<SoundRecordView>,
    keep: spec_fn(SoundRecordView, SoundRecordView) -> bool,
)
    ensures
        sort_records(s, keep).to_multiset() == s.to_multiset(),
    decreases s.len(),
{
    broadcast use vstd::seq_lib::group_seq_properties;

    if s.len() == 0 {
    } else {
        lemma_sort_records_multiset(s.drop_last(), keep);
        lemma_insert_record_multiset(sort_records(s.drop_last(), keep), s.last(), keep);
        vstd::seq_lib::to_multiset_build(s.drop_last(), s.last());
        assert(s =~= s.drop_last().push(s.last()));
    }
}

} // verus!
