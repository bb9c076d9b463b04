//! Ordered collections of feature sets.
use crate::constraints::FeatureSet;
use crate::data::{feature_name, feature_text, FeatureId};
use vstd::prelude::*;

verus! {

/// The lexicographic order on feature lists.
pub open spec fn ids_lt(a: Seq<FeatureId>, b: Seq<FeatureId>) -> bool
    decreases a.len(),
{
    if b.len() == 0 {
        false
    } else if a.len() == 0 {
        true
    } else if a[0] != b[0] {
        a[0].0 < b[0].0
    } else {
        ids_lt(a.drop_first(), b.drop_first())
    }
}

/// The order of feature lists is strict and total.
pub proof fn law_set_order_is_total(a: Seq<FeatureId>, b: Seq<FeatureId>, c: Seq<FeatureId>)
    ensures
        !ids_lt(a, a),
        ids_lt(a, b) && ids_lt(b, c) ==> ids_lt(a, c),
        ids_lt(a, b) || ids_lt(b, a) || a == b,
{
    lemma_irreflexive(a);
    if ids_lt(a, b) && ids_lt(b, c) {
        lemma_transitive(a, b, c);
    }
    lemma_total(a, b);
}

proof fn lemma_irreflexive(a: Seq<FeatureId>)
    ensures
        !ids_lt(a, a),
    decreases a.len(),
{
    if a.len() > 0 {
        lemma_irreflexive(a.drop_first());
    }
}

proof fn lemma_transitive(a: Seq<FeatureId>, b: Seq<FeatureId>, c: Seq<FeatureId>)
    requires
        ids_lt(a, b),
        ids_lt(b, c),
    ensures
        ids_lt(a, c),
    decreases a.len(),
{
    if a.len() > 0 && a[0] == b[0] && b[0] == c[0] {
        lemma_transitive(a.drop_first(), b.drop_first(), c.drop_first());
    }
}

proof fn lemma_total(a: Seq<FeatureId>, b: Seq<FeatureId>)
    ensures
        ids_lt(a, b) || ids_lt(b, a) || a == b,
    decreases a.len(),
{
    if a.len() == 0 || b.len() == 0 {
        assert(a.len() == b.len() ==> a =~= b);
    } else if a[0] == b[0] {
        lemma_total(a.drop_first(), b.drop_first());
        if a.drop_first() == b.drop_first() {
            assert(a =~= seq![a[0]] + a.drop_first());
            assert(b =~= seq![b[0]] + b.drop_first());
        }
    } else {
        assert(a[0].0 != b[0].0);
    }
}

/// Whether one feature list comes before another.
pub fn ids_less(a: &Vec<FeatureId>, b: &Vec<FeatureId>) -> (r: bool)
    ensures
        r == ids_lt(a@, b@),
{
    let mut i: usize = 0;
    assert(a@.skip(0) =~= a@);
    assert(b@.skip(0) =~= b@);
    while i < a.len() && i < b.len()
        invariant
            i <= a.len(),
            i <= b.len(),
            ids_lt(a@, b@) == ids_lt(a@.skip(i as int), b@.skip(i as int)),
        decreases a.len() - i,
    {
        assert(a@.skip(i as int)[0] == a@[i as int]);
        assert(b@.skip(i as int)[0] == b@[i as int]);
        if a[i] != b[i] {
            return a[i].0 < b[i].0;
        }
        assert(a@.skip(i as int).drop_first() =~= a@.skip(i + 1));
        assert(b@.skip(i as int).drop_first() =~= b@.skip(i + 1));
        i = i + 1;
    }
    i < b.len()
}

/// Whether the sets stand in ascending order, each once.
pub open spec fn sets_ascend(list: Seq<FeatureSet>) -> bool {
    forall|i: int, j: int|
        0 <= i < j < list.len() ==> ids_lt((#[trigger] list[i]).ids@, (#[trigger] list[j]).ids@)
}

/// Whether a list holds a set.
pub open spec fn has_set(list: Seq<FeatureSet>, ids: Seq<FeatureId>) -> bool {
    exists|i: int| 0 <= i < list.len() && (#[trigger] list[i]).ids@ == ids
}

/// A copy of a feature list.
pub fn copy_ids(ids: &Vec<FeatureId>) -> (v: Vec<FeatureId>)
    ensures
        v@ == ids@,
{
    let mut v: Vec<FeatureId> = Vec::with_capacity(ids.len());
    let mut i: usize = 0;
    while i < ids.len()
        invariant
            i <= ids.len(),
            v@ =~= ids@.take(i as int),
        decreases ids.len() - i,
    {
        v.push(ids[i]);
        i = i + 1;
    }
    assert(ids@.take(i as int) =~= ids@);
    v
}

/// Adds a set in its place, unless it is there already.
pub fn insert_set(list: &mut Vec<FeatureSet>, ids: &Vec<FeatureId>)
    requires
        sets_ascend(old(list)@),
    ensures
        sets_ascend(final(list)@),
        forall|x: Seq<FeatureId>| #[trigger]
            has_set(final(list)@, x) <==> (has_set(old(list)@, x) || x == ids@),
{
    let mut i: usize = 0;
    while i < list.len() && ids_less(&list[i].ids, ids)
        invariant
            i <= list.len(),
            *list == *old(list),
            forall|j: int| 0 <= j < i ==> ids_lt((#[trigger] list@[j]).ids@, ids@),
        decreases list.len() - i,
    {
        i = i + 1;
    }
    let ghost before = list@;
    if i < list.len() && !ids_less(ids, &list[i].ids) {
        proof {
            lemma_total(list@[i as int].ids@, ids@);
            assert(has_set(before, ids@));
        }
        return;
    }
    list.insert(i, FeatureSet { ids: copy_ids(ids) });
    proof {
        let now = list@;
        assert forall|a: int, b: int| 0 <= a < b < now.len() implies ids_lt(
            (#[trigger] now[a]).ids@,
            (#[trigger] now[b]).ids@,
        ) by {
            let oa = if a < i {
                a
            } else {
                a - 1
            };
            let ob = if b < i {
                b
            } else {
                b - 1
            };
            if a == i {
                // The next set is not before the new one, and the others follow.
                assert(now[b] == before[ob]);
                assert(ids_lt(ids@, before[i as int].ids@));
                if ob > i {
                    assert(ids_lt(before[i as int].ids@, before[ob].ids@));
                    lemma_transitive(ids@, before[i as int].ids@, before[ob].ids@);
                }
            } else if b == i {
                assert(now[a] == before[a]);
            } else {
                assert(now[a] == before[oa]);
                assert(now[b] == before[ob]);
                assert(ids_lt(before[oa].ids@, before[ob].ids@));
            }
        }
        assert forall|x: Seq<FeatureId>| #[trigger] has_set(now, x) <==> (has_set(before, x) || x
            == ids@) by {
            if has_set(now, x) {
                let k = choose|k: int| 0 <= k < now.len() && (#[trigger] now[k]).ids@ == x;
                if k < i {
                    assert(before[k].ids@ == x);
                } else if k > i {
                    assert(before[k - 1].ids@ == x);
                }
            }
            if has_set(before, x) {
                let k = choose|k: int| 0 <= k < before.len() && (#[trigger] before[k]).ids@ == x;
                if k < i {
                    assert(now[k].ids@ == x);
                } else {
                    assert(now[k + 1].ids@ == x);
                }
            }
            assert(now[i as int].ids@ == ids@);
        }
    }
}

/// Two ascending lists with the same sets hold the same sets in the same order.
pub proof fn law_set_list_is_unique(a: Seq<FeatureSet>, b: Seq<FeatureSet>, i: int)
    requires
        sets_ascend(a),
        sets_ascend(b),
        forall|x: Seq<FeatureId>| #[trigger] has_set(a, x) <==> has_set(b, x),
        0 <= i < a.len(),
    ensures
        i < b.len(),
        a[i].ids@ == b[i].ids@,
    decreases i,
{
    if i > 0 {
        law_set_list_is_unique(a, b, i - 1);
    }
    assert(has_set(a, a[i].ids@));
    assert(has_set(b, a[i].ids@));
    let j = choose|j: int| 0 <= j < b.len() && (#[trigger] b[j]).ids@ == a[i].ids@;
    if j < i {
        law_set_list_is_unique(a, b, j);
        assert(ids_lt(a[j].ids@, a[i].ids@));
        lemma_irreflexive(a[i].ids@);
    } else if j > i {
        // The set at `i` of `b` must be one of `a` that lies strictly between.
        assert(has_set(b, b[i].ids@));
        assert(has_set(a, b[i].ids@));
        let k = choose|k: int| 0 <= k < a.len() && (#[trigger] a[k]).ids@ == b[i].ids@;
        assert(ids_lt(b[i].ids@, b[j].ids@));
        if k < i {
            law_set_list_is_unique(a, b, k);
            assert(ids_lt(b[k].ids@, b[i].ids@));
            lemma_irreflexive(b[i].ids@);
        } else if k == i {
            lemma_irreflexive(a[i].ids@);
        } else {
            assert(ids_lt(a[i].ids@, a[k].ids@));
            lemma_transitive(a[i].ids@, a[k].ids@, a[i].ids@);
            lemma_irreflexive(a[i].ids@);
        }
    }
}

/// The features of a set as text, separated by commas.
pub open spec fn ids_text(ids: Seq<FeatureId>, n: nat) -> Seq<char>
    decreases n,
{
    if n == 0 {
        ""@
    } else if n == 1 {
        feature_text(ids[0])
    } else {
        ids_text(ids, (n - 1) as nat) + ", "@ + feature_text(ids[n - 1])
    }
}

/// A feature set as text.
pub open spec fn set_text(ids: Seq<FeatureId>) -> Seq<char> {
    "FeatureSet(["@ + ids_text(ids, ids.len()) + "])"@
}

/// A feature set as text.
pub fn set_name(ids: &Vec<FeatureId>) -> (s: String)
    ensures
        s@ == set_text(ids@),
{
    let mut body = String::from_str("");
    let mut i: usize = 0;
    proof {
        reveal_strlit("");
    }
    while i < ids.len()
        invariant
            i <= ids.len(),
            body@ == ids_text(ids@, i as nat),
            ""@.len() == 0,
        decreases ids.len() - i,
    {
        if i > 0 {
            body.append(", ");
        }
        body.append(feature_name(ids[i]).as_str());
        proof {
            if i == 0 {
                assert(body@ =~= feature_text(ids@[0]));
            }
        }
        i = i + 1;
    }
    let mut s = String::from_str("FeatureSet([");
    s.append(body.as_str());
    s.append("])");
    s
}

/// Feature lists are compared at the first place where they differ, and a
/// beginning comes before what continues it.
pub proof fn law_sets_are_compared_at_their_first_difference(
    a: Seq<FeatureId>,
    b: Seq<FeatureId>,
    k: int,
)
    requires
        0 <= k <= a.len(),
        k <= b.len(),
        forall|i: int| 0 <= i < k ==> a[i] == b[i],
    ensures
        k < a.len() && k < b.len() && a[k] != b[k] ==> (ids_lt(a, b) <==> a[k].0 < b[k].0),
        k == a.len() && k < b.len() ==> ids_lt(a, b),
        k == b.len() ==> !ids_lt(a, b),
    decreases k,
{
    if k > 0 {
        let (x, y) = (a.drop_first(), b.drop_first());
        assert(a[0] == b[0]);
        assert forall|i: int| 0 <= i < k - 1 implies x[i] == y[i] by {
            assert(a[i + 1] == b[i + 1]);
        }
        law_sets_are_compared_at_their_first_difference(x, y, k - 1);
    }
}

} // verus!
