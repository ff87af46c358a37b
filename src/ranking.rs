use vstd::prelude::*;
use crate::grouping::{groups_of, members, ComplexityGroup};
use crate::score::{lemma_ranks_before_order, rank_before, ranks_before};
use crate::store::{find, has_record, lemma_index_of, offsets_distinct, record, Function};

verus! {

/// The vulnerability score of the function at `a`; undefined when there is
/// no record of it.
pub open spec fn score_of(fs: Seq<Function>, a: u64) -> Option<u128> {
    if has_record(fs, a) {
        record(fs, a).vulnerability_f
    } else {
        None
    }
}

/// No address of `m` ranks before one that comes earlier.
pub open spec fn ranked(fs: Seq<Function>, m: Seq<u64>) -> bool {
    forall|i: int, j: int|
        0 <= i < j < m.len() ==> !ranks_before(
            score_of(fs, #[trigger] m[j]),
            m[j],
            score_of(fs, #[trigger] m[i]),
            m[i],
        )
}

/// The score of the function at `a`.
pub fn lookup_score(fs: &Vec<Function>, a: u64) -> (r: Option<u128>)
    requires
        offsets_distinct(fs@),
    ensures
        r == score_of(fs@, a),
{
    match find(fs, a) {
        Some(i) => {
            proof {
                lemma_index_of(fs@, i as int);
            }
            fs[i].vulnerability_f
        },
        None => None,
    }
}

/// Inserting an address after every member that ranks before it keeps a
/// ranked list ranked.
proof fn lemma_insert_ranked(fs: Seq<Function>, m: Seq<u64>, p: int, x: u64)
    requires
        ranked(fs, m),
        0 <= p <= m.len(),
        forall|q: int|
            0 <= q < p ==> ranks_before(score_of(fs, #[trigger] m[q]), m[q], score_of(fs, x), x),
        p < m.len() ==> !ranks_before(score_of(fs, m[p]), m[p], score_of(fs, x), x),
    ensures
        ranked(fs, m.insert(p, x)),
{
    let r = m.insert(p, x);
    assert forall|i: int, j: int| 0 <= i < j < r.len() implies !ranks_before(
        score_of(fs, #[trigger] r[j]),
        r[j],
        score_of(fs, #[trigger] r[i]),
        r[i],
    ) by {
        if j < p {
            assert(r[i] == m[i] && r[j] == m[j]);
        } else if j == p {
            assert(r[i] == m[i]);
            lemma_ranks_before_order(score_of(fs, m[i]), m[i], score_of(fs, x), x, score_of(fs, x), x);
        } else if i < p {
            assert(r[i] == m[i] && r[j] == m[j - 1]);
        } else if i == p {
            let y = m[j - 1];
            assert(r[j] == y);
            if j - 1 > p {
                assert(!ranks_before(score_of(fs, m[j - 1]), m[j - 1], score_of(fs, m[p]), m[p]));
            }
            lemma_ranks_before_order(score_of(fs, m[p]), m[p], score_of(fs, y), y, score_of(fs, x), x);
            lemma_ranks_before_order(score_of(fs, y), y, score_of(fs, m[p]), m[p], score_of(fs, x), x);
        } else {
            assert(r[i] == m[i - 1] && r[j] == m[j - 1]);
        }
    }
}

/// The members of a class in ranked order.
fn rank_members(fs: &Vec<Function>, members: &Vec<u64>) -> (r: Vec<u64>)
    requires
        offsets_distinct(fs@),
    ensures
        r@.to_multiset() == members@.to_multiset(),
        ranked(fs@, r@),
{
    broadcast use vstd::seq_lib::group_to_multiset_ensures;

    let mut out: Vec<u64> = Vec::new();
    let mut scores: Vec<Option<u128>> = Vec::new();
    let n = members.len();
    let mut j: usize = 0;
    while j < n
        invariant
            n == members@.len(),
            j <= n,
            offsets_distinct(fs@),
            out@.len() == scores@.len(),
            forall|q: int| 0 <= q < out@.len() ==> #[trigger] scores@[q] == score_of(fs@, out@[q]),
            ranked(fs@, out@),
            out@.to_multiset() == members@.take(j as int).to_multiset(),
        decreases n - j,
    {
        let x = members[j];
        let sx = lookup_score(fs, x);
        let m = out.len();
        let mut p: usize = 0;
        while p < m && rank_before(scores[p], out[p], sx, x)
            invariant
                m == out@.len(),
                m == scores@.len(),
                p <= m,
                forall|q: int| 0 <= q < m ==> #[trigger] scores@[q] == score_of(fs@, out@[q]),
                forall|q: int|
                    0 <= q < p ==> ranks_before(score_of(fs@, #[trigger] out@[q]), out@[q], sx, x),
            decreases m - p,
        {
            p = p + 1;
        }
        proof {
            lemma_insert_ranked(fs@, out@, p as int, x);
            assert(members@.take(j + 1) =~= members@.take(j as int).push(x));
        }
        let ghost prev = out@;
        let ghost prev_scores = scores@;
        out.insert(p, x);
        scores.insert(p, sx);
        proof {
            vstd::seq_lib::to_multiset_insert(prev, p as int, x);
            vstd::seq_lib::to_multiset_build(members@.take(j as int), x);
            assert(out@ == prev.insert(p as int, x));
            assert forall|q: int| 0 <= q < out@.len() implies #[trigger] scores@[q] == score_of(
                fs@,
                out@[q],
            ) by {
                if q < p {
                    assert(scores@[q] == prev_scores[q] && out@[q] == prev[q]);
                } else if q > p {
                    assert(scores@[q] == prev_scores[q - 1] && out@[q] == prev[q - 1]);
                }
            }
        }
        j = j + 1;
    }
    assert(members@.take(n as int) =~= members@);
    out
}

/// Like `groups_of`, with each class's members in ranked order.
pub open spec fn ranked_groups_of(fs: Seq<Function>, groups: Seq<ComplexityGroup>) -> bool {
    &&& forall|i: int, j: int|
        0 <= i < j < groups.len() ==> groups[i].complex_f < groups[j].complex_f
    &&& forall|i: int|
        0 <= i < groups.len() ==> groups[i].complex_f > 0 && (#[trigger] groups[i]).functions@.to_multiset()
            == members(fs, groups[i].complex_f).to_multiset()
    &&& forall|i: int| 0 <= i < groups.len() ==> (#[trigger] groups[i]).functions@.len() > 0
    &&& forall|i: int| 0 <= i < groups.len() ==> ranked(fs, (#[trigger] groups[i]).functions@)
    &&& forall|k: int|
        0 <= k < fs.len() && (#[trigger] fs[k]).complex_f > 0 ==> exists|i: int|
            0 <= i < groups.len() && groups[i].complex_f == fs[k].complex_f
}

/// Orders the members of every class in `groups`.
pub fn rank_functions(fs: &Vec<Function>, groups: &mut Vec<ComplexityGroup>)
    requires
        offsets_distinct(fs@),
        groups_of(fs@, old(groups)@),
    ensures
        ranked_groups_of(fs@, final(groups)@),
{
    broadcast use vstd::seq_lib::group_to_multiset_ensures;

    let n = groups.len();
    let mut g: usize = 0;
    while g < n
        invariant
            n == groups@.len(),
            g <= n,
            offsets_distinct(fs@),
            forall|i: int|
                0 <= i < n ==> (#[trigger] groups@[i]).complex_f == old(groups)@[i].complex_f
                    && groups@[i].functions@.to_multiset() == old(groups)@[i].functions@.to_multiset(),
            forall|i: int| 0 <= i < g ==> ranked(fs@, (#[trigger] groups@[i]).functions@),
        decreases n - g,
    {
        let r = rank_members(fs, &groups[g].functions);
        groups[g].functions = r;
        g = g + 1;
    }
    proof {
        let og = old(groups)@;
        assert forall|i: int| 0 <= i < n implies (#[trigger] groups@[i]).functions@.len() > 0 by {
            assert(og[i].functions@.len() > 0);
            assert(groups@[i].functions@.to_multiset().len() == og[i].functions@.to_multiset().len());
        }
        assert forall|k: int| 0 <= k < fs@.len() && (#[trigger] fs@[k]).complex_f > 0 implies exists|i: int|
            0 <= i < n && groups@[i].complex_f == fs@[k].complex_f by {
            let i = choose|i: int| 0 <= i < og.len() && og[i].complex_f == fs@[k].complex_f;
            assert(groups@[i].complex_f == og[i].complex_f);
        }
        assert forall|i: int, j: int| 0 <= i < j < n implies groups@[i].complex_f < groups@[j].complex_f by {
            assert(groups@[i].complex_f == og[i].complex_f);
            assert(groups@[j].complex_f == og[j].complex_f);
        }
        assert forall|i: int| 0 <= i < n implies groups@[i].complex_f > 0 && (#[trigger] groups@[i]).functions@.to_multiset()
            == members(fs@, groups@[i].complex_f).to_multiset() by {
            assert(og[i].functions@ == members(fs@, og[i].complex_f));
        }
    }
}

} // verus!
