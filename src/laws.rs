use vstd::prelude::*;
use crate::analysis::{exported, measured, pick, target_of, Analysis};
use crate::grouping::{lemma_members_eq, members, ComplexityGroup};
use crate::ranking::{ranked, ranked_groups_of, score_of};
use crate::scoring::{call_weight, lemma_sensitivity_same, sensitivity};
use crate::score::{is_positive, lemma_ranks_before_order};
use crate::store::{
    facts, feed_callers, feed_facts, has_record, lemma_index_of, mentions, offsets_distinct,
    prior_callers, prior_facts, record, same_ingested, total_callers, total_calls, Function,
    FunctionData,
};

verus! {

/// The sum of the call-in counts.
pub open spec fn total_call_ins(fs: Seq<Function>) -> int
    decreases fs.len(),
{
    if fs.len() == 0 {
        0
    } else {
        total_call_ins(fs.drop_last()) + fs.last().x_f
    }
}

/// Derived call-in counts sum to the number of recorded callers.
proof fn lemma_call_ins_are_callers(fs: Seq<Function>)
    requires
        forall|i: int| 0 <= i < fs.len() ==> (#[trigger] fs[i]).x_f == fs[i].callers@.len(),
    ensures
        total_call_ins(fs) == total_callers(fs),
    decreases fs.len(),
{
    if fs.len() > 0 {
        assert(fs[fs.len() - 1].x_f == fs[fs.len() - 1].callers@.len());
        lemma_call_ins_are_callers(fs.drop_last());
    }
}

/// Once the call-in counts are derived, their sum over all functions is the
/// number of `CALL` edges ingested (each function's `calls` holds its own).
pub proof fn lemma_call_ins_count_edges(a: Analysis)
    requires
        a.wf(),
        forall|i: int|
            0 <= i < a.functions@.len() ==> (#[trigger] a.functions@[i]).x_f
                == a.functions@[i].callers@.len(),
    ensures
        total_call_ins(a.functions@) == total_calls(a.functions@),
{
    lemma_call_ins_are_callers(a.functions@);
}

/// A member of index `k` is the address of a record of index `k`.
proof fn lemma_member_record(fs: Seq<Function>, k: u64, a: u64)
    requires
        members(fs, k).contains(a),
    ensures
        exists|q: int| 0 <= q < fs.len() && fs[q].offset == a && fs[q].complex_f == k,
    decreases fs.len(),
{
    let m = members(fs.drop_last(), k);
    if fs.last().complex_f == k && fs.last().offset == a {
        assert(fs[fs.len() - 1].offset == a);
    } else {
        if fs.last().complex_f == k {
            let w = choose|w: int| 0 <= w < m.push(fs.last().offset).len() && m.push(fs.last().offset)[w] == a;
            assert(m[w] == a);
        }
        assert(m.contains(a));
        lemma_member_record(fs.drop_last(), k, a);
        let q = choose|q: int| 0 <= q < fs.len() - 1 && fs.drop_last()[q].offset == a && fs.drop_last()[q].complex_f == k;
        assert(fs[q] == fs.drop_last()[q]);
    }
}

/// A picked address is a member.
proof fn lemma_pick_member(fs: Seq<Function>, m: Seq<u64>)
    requires
        pick(fs, m) is Some,
    ensures
        m.contains(pick(fs, m)->0),
    decreases m.len(),
{
    if m.len() > 0 && pick(fs, m) != Some(m[0]) {
        lemma_pick_member(fs, m.drop_first());
        let w = choose|w: int| 0 <= w < m.drop_first().len() && m.drop_first()[w] == pick(fs, m)->0;
        assert(m[w + 1] == pick(fs, m)->0);
    } else {
        assert(m[0] == pick(fs, m)->0);
    }
}

/// Every exported target is a member of the class of its index.
proof fn lemma_exported_from_groups(fs: Seq<Function>, groups: Seq<ComplexityGroup>)
    ensures
        forall|i: int|
            0 <= i < exported(fs, groups).len() ==> exists|g: int|
                0 <= g < groups.len() && groups[g].functions@.contains(
                    (#[trigger] exported(fs, groups)[i]).0,
                ) && groups[g].complex_f == exported(fs, groups)[i].2,
    decreases groups.len(),
{
    if groups.len() > 0 {
        let d = groups.drop_last();
        lemma_exported_from_groups(fs, d);
        let e = exported(fs, groups);
        let last = (groups.len() - 1) as int;
        assert forall|i: int| 0 <= i < e.len() implies exists|g: int|
            0 <= g < groups.len() && groups[g].functions@.contains((#[trigger] e[i]).0)
                && groups[g].complex_f == e[i].2 by {
            if i < exported(fs, d).len() {
                assert(e[i] == exported(fs, d)[i]);
                let g = choose|g: int|
                    0 <= g < d.len() && d[g].functions@.contains(exported(fs, d)[i].0)
                        && d[g].complex_f == exported(fs, d)[i].2;
                assert(groups[g] == d[g]);
            } else {
                lemma_pick_member(fs, groups.last().functions@);
                assert(groups[last] == groups.last());
            }
        }
    }
}

/// A function whose complexity index is 0 is in no complexity class and is
/// never exported.
pub proof fn lemma_simple_functions_excluded(
    fs: Seq<Function>,
    groups: Seq<ComplexityGroup>,
    k: int,
)
    requires
        offsets_distinct(fs),
        ranked_groups_of(fs, groups),
        0 <= k < fs.len(),
        fs[k].complex_f == 0,
    ensures
        forall|g: int|
            0 <= g < groups.len() ==> !(#[trigger] groups[g].functions@).contains(fs[k].offset),
        forall|i: int|
            0 <= i < exported(fs, groups).len() ==> (#[trigger] exported(fs, groups)[i]).0
                != fs[k].offset,
{
    broadcast use vstd::seq_lib::group_to_multiset_ensures;

    assert forall|g: int| 0 <= g < groups.len() implies !(
    #[trigger] groups[g].functions@).contains(fs[k].offset) by {
        let key = groups[g].complex_f;
        if groups[g].functions@.contains(fs[k].offset) {
            assert(groups[g].functions@.to_multiset() == members(fs, key).to_multiset());
            assert(groups[g].functions@.to_multiset().count(fs[k].offset) > 0);
            assert(members(fs, key).contains(fs[k].offset));
            lemma_member_record(fs, key, fs[k].offset);
        }
    }
    lemma_exported_from_groups(fs, groups);
    assert forall|i: int| 0 <= i < exported(fs, groups).len() implies (
    #[trigger] exported(fs, groups)[i]).0 != fs[k].offset by {
        let g = choose|g: int|
            0 <= g < groups.len() && groups[g].functions@.contains(exported(fs, groups)[i].0)
                && groups[g].complex_f == exported(fs, groups)[i].2;
        assert(!groups[g].functions@.contains(fs[k].offset));
    }
}

/// Targets of ascending classes have ascending indexes, none above the last
/// class.
proof fn lemma_exported_bounded(fs: Seq<Function>, groups: Seq<ComplexityGroup>)
    requires
        forall|i: int, j: int|
            0 <= i < j < groups.len() ==> groups[i].complex_f < groups[j].complex_f,
    ensures
        forall|i: int, j: int|
            0 <= i < j < exported(fs, groups).len() ==> exported(fs, groups)[i].2 < exported(
                fs,
                groups,
            )[j].2,
        groups.len() > 0 ==> forall|i: int|
            0 <= i < exported(fs, groups).len() ==> exported(fs, groups)[i].2
                <= groups.last().complex_f,
    decreases groups.len(),
{
    if groups.len() > 0 {
        let d = groups.drop_last();
        lemma_exported_bounded(fs, d);
        let e = exported(fs, groups);
        let ed = exported(fs, d);
        let last = (groups.len() - 1) as int;
        if d.len() > 0 {
            assert(d.last() == groups[last - 1]);
            assert(groups[last - 1].complex_f < groups[last].complex_f);
        }
        assert forall|i: int| 0 <= i < ed.len() implies ed[i].2 < groups.last().complex_f by {
            if d.len() == 0 {
                assert(ed.len() == 0);
            }
        }
        assert forall|i: int, j: int| 0 <= i < j < e.len() implies e[i].2 < e[j].2 by {
            if j < ed.len() {
                assert(e[i] == ed[i] && e[j] == ed[j]);
            } else {
                assert(e[i] == ed[i]);
            }
        }
        assert forall|i: int| 0 <= i < e.len() implies e[i].2 <= groups.last().complex_f by {
            if i < ed.len() {
                assert(e[i] == ed[i]);
            }
        }
    }
}

/// The complexity indexes of the exported targets strictly increase.
pub proof fn lemma_export_increasing(fs: Seq<Function>, groups: Seq<ComplexityGroup>)
    requires
        ranked_groups_of(fs, groups),
    ensures
        forall|i: int, j: int|
            0 <= i < j < exported(fs, groups).len() ==> exported(fs, groups)[i].2 < exported(
                fs,
                groups,
            )[j].2,
{
    lemma_exported_bounded(fs, groups);
}

/// No two exported targets share a complexity index.
pub proof fn lemma_export_one_per_class(fs: Seq<Function>, groups: Seq<ComplexityGroup>)
    requires
        ranked_groups_of(fs, groups),
    ensures
        forall|i: int, j: int|
            0 <= i < exported(fs, groups).len() && 0 <= j < exported(fs, groups).len() && i
                != j ==> exported(fs, groups)[i].2 != exported(fs, groups)[j].2,
{
    lemma_exported_bounded(fs, groups);
    assert forall|i: int, j: int|
        0 <= i < exported(fs, groups).len() && 0 <= j < exported(fs, groups).len() && i
            != j implies exported(fs, groups)[i].2 != exported(fs, groups)[j].2 by {
        if i < j {
            assert(exported(fs, groups)[i].2 < exported(fs, groups)[j].2);
        } else {
            assert(exported(fs, groups)[j].2 < exported(fs, groups)[i].2);
        }
    }
}

/// Fully measured stores that agree on ingested facts agree on every measure
/// that export reads.
proof fn lemma_same_measures(f1: Seq<Function>, f2: Seq<Function>, table: Map<Seq<char>, u64>)
    requires
        f1.len() == f2.len(),
        forall|i: int| 0 <= i < f1.len() ==> same_ingested(#[trigger] f2[i], f1[i]),
        offsets_distinct(f1),
        forall|i: int| 0 <= i < f1.len() ==> measured(f1, table, i),
        forall|i: int| 0 <= i < f2.len() ==> measured(f2, table, i),
    ensures
        forall|i: int|
            0 <= i < f1.len() ==> (#[trigger] f2[i]).offset == f1[i].offset && f2[i].complex_f
                == f1[i].complex_f && f2[i].vulnerability_f == f1[i].vulnerability_f
                && f2[i].name@ == f1[i].name@,
{
    assert forall|i: int| 0 <= i < f1.len() implies (#[trigger] f2[i]).offset == f1[i].offset
        && f2[i].complex_f == f1[i].complex_f && f2[i].vulnerability_f == f1[i].vulnerability_f
        && f2[i].name@ == f1[i].name@ by {
        assert(same_ingested(f2[i], f1[i]));
        assert(measured(f1, table, i));
        assert(measured(f2, table, i));
        lemma_sensitivity_same(f1, f2, table, f1[i].calls@);
    }
}

/// Such stores give each address the same score and name.
proof fn lemma_same_lookups(f1: Seq<Function>, f2: Seq<Function>, a: u64)
    requires
        f1.len() == f2.len(),
        offsets_distinct(f1),
        forall|i: int|
            0 <= i < f1.len() ==> (#[trigger] f2[i]).offset == f1[i].offset && f2[i].complex_f
                == f1[i].complex_f && f2[i].vulnerability_f == f1[i].vulnerability_f
                && f2[i].name@ == f1[i].name@,
    ensures
        score_of(f1, a) == score_of(f2, a),
        record(f1, a).name@ == record(f2, a).name@ || !has_record(f1, a),
{
    assert(offsets_distinct(f2)) by {
        assert forall|x: int, y: int| 0 <= x < f2.len() && 0 <= y < f2.len() && x != y implies f2[x].offset
            != f2[y].offset by {
            assert(f2[x].offset == f1[x].offset);
            assert(f2[y].offset == f1[y].offset);
        }
    }
    if has_record(f1, a) {
        let i = choose|i: int| 0 <= i < f1.len() && f1[i].offset == a;
        lemma_index_of(f1, i);
        assert(f2[i].offset == a);
        lemma_index_of(f2, i);
    } else {
        assert forall|i: int| 0 <= i < f2.len() implies f2[i].offset != a by {
            assert(f2[i].offset == f1[i].offset);
        }
    }
}

/// Equal scores give equal picks.
proof fn lemma_pick_same(f1: Seq<Function>, f2: Seq<Function>, m: Seq<u64>)
    requires
        forall|a: u64| score_of(f1, a) == #[trigger] score_of(f2, a),
    ensures
        pick(f1, m) == pick(f2, m),
    decreases m.len(),
{
    if m.len() > 0 {
        assert(score_of(f1, m[0]) == score_of(f2, m[0]));
        lemma_pick_same(f1, f2, m.drop_first());
    }
}

/// A picked address has a record.
proof fn lemma_pick_member_has_record(fs: Seq<Function>, m: Seq<u64>)
    requires
        pick(fs, m) is Some,
    ensures
        has_record(fs, pick(fs, m)->0),
    decreases m.len(),
{
    if m.len() > 0 && !is_positive(score_of(fs, m[0])) {
        lemma_pick_member_has_record(fs, m.drop_first());
    }
}

/// Classes that agree on indexes and members export the same targets, and
/// so do stores that agree on scores and names.
proof fn lemma_exported_same(
    f1: Seq<Function>,
    f2: Seq<Function>,
    g1: Seq<ComplexityGroup>,
    g2: Seq<ComplexityGroup>,
)
    requires
        forall|a: u64| score_of(f1, a) == #[trigger] score_of(f2, a),
        forall|a: u64| has_record(f1, a) ==> #[trigger] record(f1, a).name@ == record(f2, a).name@,
        g1.len() == g2.len(),
        forall|i: int|
            0 <= i < g1.len() ==> (#[trigger] g1[i]).complex_f == g2[i].complex_f
                && g1[i].functions@ == g2[i].functions@,
    ensures
        exported(f1, g1) == exported(f2, g2),
    decreases g1.len(),
{
    if g1.len() > 0 {
        let last = g1.len() - 1;
        assert(g1[last].complex_f == g2[last].complex_f);
        lemma_exported_same(f1, f2, g1.drop_last(), g2.drop_last());
        lemma_pick_same(f1, f2, g1.last().functions@);
        if pick(f1, g1.last().functions@) is Some {
            lemma_pick_member_has_record(f1, g1.last().functions@);
            let a = pick(f1, g1.last().functions@)->0;
            assert(target_of(f1, a, g1.last().complex_f) == target_of(f2, a, g2.last().complex_f));
        }
    }
}

/// Two ranked orders of the same members are one order.
proof fn lemma_ranked_unique(fs: Seq<Function>, m1: Seq<u64>, m2: Seq<u64>)
    requires
        m1.to_multiset() == m2.to_multiset(),
        ranked(fs, m1),
        ranked(fs, m2),
    ensures
        m1 == m2,
    decreases m1.len(),
{
    broadcast use vstd::seq_lib::group_to_multiset_ensures;

    if m1.len() == 0 {
        m1.to_multiset_ensures();
        m2.to_multiset_ensures();
        assert(m2.to_multiset().len() == 0);
        assert(m2 =~= m1);
    } else {
        m1.to_multiset_ensures();
        m2.to_multiset_ensures();
        assert(m2.len() == m1.len());
        let x = m1[0];
        let y = m2[0];
        if x != y {
            assert(m1.to_multiset().count(y) > 0);
            assert(m1.contains(y));
            let i = choose|i: int| 0 <= i < m1.len() && m1[i] == y;
            assert(m2.to_multiset().count(x) > 0);
            assert(m2.contains(x));
            let j = choose|j: int| 0 <= j < m2.len() && m2[j] == x;
            assert(!crate::score::ranks_before(score_of(fs, m1[i]), m1[i], score_of(fs, m1[0]), m1[0]));
            assert(!crate::score::ranks_before(score_of(fs, m2[j]), m2[j], score_of(fs, m2[0]), m2[0]));
            lemma_ranks_before_order(score_of(fs, x), x, score_of(fs, y), y, score_of(fs, y), y);
        }
        assert(m1 =~= seq![x] + m1.drop_first());
        assert(m2 =~= seq![x] + m2.drop_first());
        assert(m1.remove(0) =~= m1.drop_first());
        assert(m2.remove(0) =~= m2.drop_first());
        assert(m1.drop_first().to_multiset() == m1.to_multiset().remove(x));
        assert(m2.drop_first().to_multiset() == m2.to_multiset().remove(x));
        assert(ranked(fs, m1.drop_first())) by {
            assert forall|i: int, j: int| 0 <= i < j < m1.drop_first().len() implies !crate::score::ranks_before(
                score_of(fs, #[trigger] m1.drop_first()[j]),
                m1.drop_first()[j],
                score_of(fs, #[trigger] m1.drop_first()[i]),
                m1.drop_first()[i],
            ) by {
                assert(m1.drop_first()[i] == m1[i + 1] && m1.drop_first()[j] == m1[j + 1]);
            }
        }
        assert(ranked(fs, m2.drop_first())) by {
            assert forall|i: int, j: int| 0 <= i < j < m2.drop_first().len() implies !crate::score::ranks_before(
                score_of(fs, #[trigger] m2.drop_first()[j]),
                m2.drop_first()[j],
                score_of(fs, #[trigger] m2.drop_first()[i]),
                m2.drop_first()[i],
            ) by {
                assert(m2.drop_first()[i] == m2[i + 1] && m2.drop_first()[j] == m2[j + 1]);
            }
        }
        lemma_ranked_unique(fs, m1.drop_first(), m2.drop_first());
    }
}

/// Two strictly ascending sequences with the same elements are equal.
proof fn lemma_sorted_same(s1: Seq<u64>, s2: Seq<u64>)
    requires
        forall|i: int, j: int| 0 <= i < j < s1.len() ==> s1[i] < s1[j],
        forall|i: int, j: int| 0 <= i < j < s2.len() ==> s2[i] < s2[j],
        forall|x: u64| s1.contains(x) <==> s2.contains(x),
    ensures
        s1 == s2,
    decreases s1.len(),
{
    if s1.len() == 0 {
        if s2.len() > 0 {
            assert(s2.contains(s2[0]));
        }
        assert(s1 =~= s2);
    } else {
        assert(s1.contains(s1[0]));
        let j = choose|j: int| 0 <= j < s2.len() && s2[j] == s1[0];
        assert(s2.contains(s2[0]));
        let i = choose|i: int| 0 <= i < s1.len() && s1[i] == s2[0];
        assert(s1[0] == s2[0]);
        let d1 = s1.drop_first();
        let d2 = s2.drop_first();
        assert forall|x: u64| d1.contains(x) <==> d2.contains(x) by {
            if d1.contains(x) {
                let a = choose|a: int| 0 <= a < d1.len() && d1[a] == x;
                assert(s1[a + 1] == x);
                assert(s2.contains(x));
                let b = choose|b: int| 0 <= b < s2.len() && s2[b] == x;
                assert(b != 0);
                assert(d2[b - 1] == x);
            }
            if d2.contains(x) {
                let a = choose|a: int| 0 <= a < d2.len() && d2[a] == x;
                assert(s2[a + 1] == x);
                assert(s1.contains(x));
                let b = choose|b: int| 0 <= b < s1.len() && s1[b] == x;
                assert(b != 0);
                assert(d1[b - 1] == x);
            }
        }
        lemma_sorted_same(d1, d2);
        assert(s1 =~= s2) by {
            assert forall|k: int| 0 <= k < s1.len() implies s1[k] == s2[k] by {
                if k > 0 {
                    assert(s1[k] == d1[k - 1]);
                    assert(s2[k] == d2[k - 1]);
                }
            }
        }
    }
}

/// The index of class `i` of `g1` is the index of some class of `g2`.
proof fn lemma_key_present(fs: Seq<Function>, g1: Seq<ComplexityGroup>, g2: Seq<ComplexityGroup>, i: int)
    requires
        ranked_groups_of(fs, g1),
        ranked_groups_of(fs, g2),
        0 <= i < g1.len(),
    ensures
        exists|j: int| 0 <= j < g2.len() && g2[j].complex_f == g1[i].complex_f,
{
    let k = g1[i].complex_f;
    let m = members(fs, k);
    assert(g1[i].functions@.len() > 0);
    g1[i].functions@.to_multiset_ensures();
    m.to_multiset_ensures();
    assert(m.len() > 0);
    assert(m.contains(m[0]));
    lemma_member_record(fs, k, m[0]);
    let q = choose|q: int| 0 <= q < fs.len() && fs[q].offset == m[0] && fs[q].complex_f == k;
    assert(fs[q].complex_f > 0);
}

/// Two sets of ranked classes of one store are the same classes.
proof fn lemma_groups_unique(fs: Seq<Function>, g1: Seq<ComplexityGroup>, g2: Seq<ComplexityGroup>)
    requires
        ranked_groups_of(fs, g1),
        ranked_groups_of(fs, g2),
    ensures
        g1.len() == g2.len(),
        forall|i: int|
            0 <= i < g1.len() ==> (#[trigger] g1[i]).complex_f == g2[i].complex_f
                && g1[i].functions@ == g2[i].functions@,
{
    let s1 = g1.map_values(|g: ComplexityGroup| g.complex_f);
    let s2 = g2.map_values(|g: ComplexityGroup| g.complex_f);
    assert forall|x: u64| s1.contains(x) <==> s2.contains(x) by {
        if s1.contains(x) {
            let i = choose|i: int| 0 <= i < s1.len() && s1[i] == x;
            lemma_key_present(fs, g1, g2, i);
            let j = choose|j: int| 0 <= j < g2.len() && g2[j].complex_f == g1[i].complex_f;
            assert(s2[j] == x);
        }
        if s2.contains(x) {
            let i = choose|i: int| 0 <= i < s2.len() && s2[i] == x;
            lemma_key_present(fs, g2, g1, i);
            let j = choose|j: int| 0 <= j < g1.len() && g1[j].complex_f == g2[i].complex_f;
            assert(s1[j] == x);
        }
    }
    lemma_sorted_same(s1, s2);
    assert(s1.len() == s2.len());
    assert forall|i: int| 0 <= i < g1.len() implies (#[trigger] g1[i]).complex_f == g2[i].complex_f
        && g1[i].functions@ == g2[i].functions@ by {
        assert(s1[i] == s2[i]);
        lemma_ranked_unique(fs, g1[i].functions@, g2[i].functions@);
    }
}

/// Stores that have records at the same addresses, with the same ingested
/// facts at each, and whose measures are all derived, give every address
/// the same score, name and complexity index.
proof fn lemma_same_by_address(f1: Seq<Function>, f2: Seq<Function>, table: Map<Seq<char>, u64>)
    requires
        offsets_distinct(f1),
        offsets_distinct(f2),
        forall|a: u64| #[trigger] has_record(f1, a) == has_record(f2, a),
        forall|a: u64| has_record(f1, a) ==> same_ingested(#[trigger] record(f2, a), record(f1, a)),
        forall|i: int| 0 <= i < f1.len() ==> measured(f1, table, i),
        forall|i: int| 0 <= i < f2.len() ==> measured(f2, table, i),
    ensures
        forall|a: u64| score_of(f1, a) == #[trigger] score_of(f2, a),
        forall|a: u64|
            has_record(f1, a) ==> (#[trigger] record(f1, a)).name@ == record(f2, a).name@
                && record(f1, a).complex_f == record(f2, a).complex_f,
{
    assert forall|c: u64| #[trigger] call_weight(f1, table, c) == call_weight(f2, table, c) by {
        if has_record(f1, c) {
            assert(same_ingested(record(f2, c), record(f1, c)));
        }
    }
    assert forall|a: u64| has_record(f1, a) implies score_of(f1, a) == score_of(f2, a)
        && (#[trigger] record(f1, a)).name@ == record(f2, a).name@ && record(f1, a).complex_f == record(
        f2,
        a,
    ).complex_f by {
        let i1 = choose|i: int| 0 <= i < f1.len() && f1[i].offset == a;
        lemma_index_of(f1, i1);
        assert(has_record(f2, a));
        let i2 = choose|i: int| 0 <= i < f2.len() && f2[i].offset == a;
        lemma_index_of(f2, i2);
        assert(same_ingested(f2[i2], f1[i1]));
        assert(measured(f1, table, i1));
        assert(measured(f2, table, i2));
        lemma_sensitivity_by_address(f1, f2, table, f1[i1].calls@);
    }
    assert forall|a: u64| score_of(f1, a) == #[trigger] score_of(f2, a) by {
        if has_record(f1, a) {
            assert(record(f1, a).name@ == record(f2, a).name@);
        }
    }
}

/// Calls weigh the same in stores whose callees have the same names.
proof fn lemma_sensitivity_by_address(
    f1: Seq<Function>,
    f2: Seq<Function>,
    table: Map<Seq<char>, u64>,
    calls: Seq<u64>,
)
    requires
        forall|c: u64| #[trigger] call_weight(f1, table, c) == call_weight(f2, table, c),
    ensures
        sensitivity(f1, table, calls) == sensitivity(f2, table, calls),
    decreases calls.len(),
{
    if calls.len() > 0 {
        assert(call_weight(f1, table, calls.last()) == call_weight(f2, table, calls.last()));
        lemma_sensitivity_by_address(f1, f2, table, calls.drop_last());
    }
}

/// Each address is a member of index `k` once if its record has index `k`,
/// and never otherwise.
proof fn lemma_members_count(fs: Seq<Function>, k: u64, a: u64)
    requires
        offsets_distinct(fs),
    ensures
        members(fs, k).to_multiset().count(a) == if has_record(fs, a) && record(fs, a).complex_f
            == k {
            1nat
        } else {
            0nat
        },
    decreases fs.len(),
{
    broadcast use vstd::seq_lib::group_to_multiset_ensures;

    if fs.len() == 0 {
    } else {
        let d = fs.drop_last();
        let last = fs.len() - 1;
        assert(fs[last] == fs.last());
        lemma_members_count(d, k, a);
        if fs.last().offset == a {
            lemma_index_of(fs, last);
            assert(!has_record(d, a)) by {
                if has_record(d, a) {
                    let i = choose|i: int| 0 <= i < d.len() && d[i].offset == a;
                    assert(fs[i].offset == a);
                }
            }
        } else if has_record(d, a) {
            let i = choose|i: int| 0 <= i < d.len() && d[i].offset == a;
            assert(fs[i] == d[i]);
            lemma_index_of(fs, i);
            lemma_index_of(d, i);
        } else {
            assert(!has_record(fs, a)) by {
                if has_record(fs, a) {
                    let i = choose|i: int| 0 <= i < fs.len() && fs[i].offset == a;
                    if i < d.len() {
                        assert(d[i].offset == a);
                    }
                }
            }
        }
    }
}

/// Analysing the same ingested store twice exports the same targets: two
/// stores with records at the same addresses and the same ingested facts at
/// each (wherever in the store they stand), whose measures are all derived,
/// each with ranked complexity classes, give one export.
pub proof fn lemma_export_repeatable(
    f1: Seq<Function>,
    g1: Seq<ComplexityGroup>,
    f2: Seq<Function>,
    g2: Seq<ComplexityGroup>,
    table: Map<Seq<char>, u64>,
)
    requires
        offsets_distinct(f1),
        offsets_distinct(f2),
        forall|a: u64| #[trigger] has_record(f1, a) == has_record(f2, a),
        forall|a: u64| has_record(f1, a) ==> same_ingested(#[trigger] record(f2, a), record(f1, a)),
        forall|i: int| 0 <= i < f1.len() ==> measured(f1, table, i),
        forall|i: int| 0 <= i < f2.len() ==> measured(f2, table, i),
        ranked_groups_of(f1, g1),
        ranked_groups_of(f2, g2),
    ensures
        exported(f1, g1) == exported(f2, g2),
{
    lemma_same_by_address(f1, f2, table);
    assert forall|k: u64| #[trigger] members(f2, k).to_multiset() == members(f1, k).to_multiset() by {
        assert forall|a: u64| members(f2, k).to_multiset().count(a) == members(f1, k).to_multiset().count(a) by {
            lemma_members_count(f1, k, a);
            lemma_members_count(f2, k, a);
        }
        assert(members(f2, k).to_multiset() =~= members(f1, k).to_multiset());
    }
    assert(ranked_groups_of(f1, g2)) by {
        assert forall|i: int| 0 <= i < g2.len() implies ranked(f1, (#[trigger] g2[i]).functions@) by {
            assert(ranked(f2, g2[i].functions@));
        }
        assert forall|q: int| 0 <= q < f1.len() && (#[trigger] f1[q]).complex_f > 0 implies exists|
            i: int,
        | 0 <= i < g2.len() && g2[i].complex_f == f1[q].complex_f by {
            let a = f1[q].offset;
            lemma_index_of(f1, q);
            assert(has_record(f2, a));
            let q2 = choose|i: int| 0 <= i < f2.len() && f2[i].offset == a;
            lemma_index_of(f2, q2);
            assert(record(f1, a).complex_f == record(f2, a).complex_f);
            assert(f2[q2].complex_f > 0);
        }
        assert forall|i: int| 0 <= i < g2.len() implies g2[i].complex_f > 0 && (
        #[trigger] g2[i]).functions@.to_multiset() == members(f1, g2[i].complex_f).to_multiset() by {
            assert(members(f2, g2[i].complex_f).to_multiset() == members(f1, g2[i].complex_f).to_multiset());
        }
    }
    lemma_groups_unique(f1, g1, g2);
    lemma_exported_same(f1, f1, g1, g2);
    lemma_exported_same(f1, f2, g2, g2);
}

/// Ingesting one feed into one store determines every record: two results
/// of `set_functions` on the same store and feed have records at the same
/// addresses, with the same ingested facts at each.
pub proof fn lemma_feed_determines_store(
    o: Seq<Function>,
    f1: Seq<Function>,
    f2: Seq<Function>,
    feed: Seq<FunctionData>,
)
    requires
        offsets_distinct(f1),
        offsets_distinct(f2),
        f1.len() >= o.len(),
        f2.len() >= o.len(),
        forall|i: int| 0 <= i < o.len() ==> f1[i].offset == o[i].offset && f2[i].offset == o[i].offset,
        forall|a: u64| has_record(f1, a) <==> (has_record(o, a) || mentions(feed, a)),
        forall|a: u64| has_record(f2, a) <==> (has_record(o, a) || mentions(feed, a)),
        forall|i: int|
            0 <= i < f1.len() ==> #[trigger] f1[i].callers@ == prior_callers(o, i) + feed_callers(
                feed,
                f1[i].offset,
            ),
        forall|i: int|
            0 <= i < f1.len() ==> facts(#[trigger] f1[i]) == feed_facts(
                prior_facts(o, i),
                feed,
                f1[i].offset,
            ),
        forall|i: int|
            0 <= i < f2.len() ==> #[trigger] f2[i].callers@ == prior_callers(o, i) + feed_callers(
                feed,
                f2[i].offset,
            ),
        forall|i: int|
            0 <= i < f2.len() ==> facts(#[trigger] f2[i]) == feed_facts(
                prior_facts(o, i),
                feed,
                f2[i].offset,
            ),
    ensures
        forall|a: u64| #[trigger] has_record(f1, a) == has_record(f2, a),
        forall|a: u64| has_record(f1, a) ==> same_ingested(#[trigger] record(f2, a), record(f1, a)),
{
    assert forall|a: u64| #[trigger] has_record(f1, a) == has_record(f2, a) by {}
    assert forall|a: u64| has_record(f1, a) implies same_ingested(
        #[trigger] record(f2, a),
        record(f1, a),
    ) by {
        let i1 = choose|i: int| 0 <= i < f1.len() && f1[i].offset == a;
        lemma_index_of(f1, i1);
        let i2 = choose|i: int| 0 <= i < f2.len() && f2[i].offset == a;
        lemma_index_of(f2, i2);
        assert(f1[i1].callers@ == prior_callers(o, i1) + feed_callers(feed, a));
        assert(f2[i2].callers@ == prior_callers(o, i2) + feed_callers(feed, a));
        assert(facts(f1[i1]) == feed_facts(prior_facts(o, i1), feed, a));
        assert(facts(f2[i2]) == feed_facts(prior_facts(o, i2), feed, a));
        if i1 < o.len() {
            assert(f2[i1].offset == a);
        } else if i2 < o.len() {
            assert(f1[i2].offset == a);
        }
        assert(prior_callers(o, i1) == prior_callers(o, i2));
        assert(prior_facts(o, i1) == prior_facts(o, i2));
    }
}
} // verus!
