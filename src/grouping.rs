use vstd::prelude::*;
use crate::store::Function;

verus! {

/// The functions of one complexity class.
pub struct ComplexityGroup {
    /// complexity index
    pub complex_f: u64,
    /// addresses of the functions with this complexity index
    pub functions: Vec<u64>,
}

impl ComplexityGroup {
    /// An empty class for the index `complex_f`.
    pub fn new(complex_f: u64) -> (r: ComplexityGroup)
        ensures
            r.complex_f == complex_f,
            r.functions@.len() == 0,
    {
        ComplexityGroup { complex_f, functions: Vec::new() }
    }
}

/// The addresses of the records whose complexity index is `k`, in store order.
pub open spec fn members(fs: Seq<Function>, k: u64) -> Seq<u64>
    decreases fs.len(),
{
    if fs.len() == 0 {
        Seq::empty()
    } else if fs.last().complex_f == k {
        members(fs.drop_last(), k).push(fs.last().offset)
    } else {
        members(fs.drop_last(), k)
    }
}

/// `groups` are the complexity classes of `fs`: one per positive index that
/// some record has, in ascending order of index, each holding exactly the
/// records of its index in store order, none empty. Records of index 0 have
/// no class.
pub open spec fn groups_of(fs: Seq<Function>, groups: Seq<ComplexityGroup>) -> bool {
    &&& forall|i: int, j: int|
        0 <= i < j < groups.len() ==> groups[i].complex_f < groups[j].complex_f
    &&& forall|i: int|
        0 <= i < groups.len() ==> groups[i].complex_f > 0 && (#[trigger] groups[i]).functions@
            == members(fs, groups[i].complex_f)
    &&& forall|i: int| 0 <= i < groups.len() ==> (#[trigger] groups[i]).functions@.len() > 0
    &&& forall|k: int|
        0 <= k < fs.len() && (#[trigger] fs[k]).complex_f > 0 ==> exists|i: int|
            0 <= i < groups.len() && groups[i].complex_f == fs[k].complex_f
}

/// Builds the complexity classes of `fs`.
pub fn group_functions(fs: &Vec<Function>) -> (groups: Vec<ComplexityGroup>)
    ensures
        groups_of(fs@, groups@),
{
    let mut groups: Vec<ComplexityGroup> = Vec::new();
    let n = fs.len();
    let mut i: usize = 0;
    while i < n
        invariant
            n == fs@.len(),
            i <= n,
            groups_of(fs@.take(i as int), groups@),
        decreases n - i,
    {
        add_to_group(fs, i, &mut groups);
        i = i + 1;
    }
    assert(fs@.take(n as int) =~= fs@);
    groups
}

/// Places the record at position `i` into its class, given the classes of the
/// records before it.
fn add_to_group(fs: &Vec<Function>, i: usize, groups: &mut Vec<ComplexityGroup>)
    requires
        i < fs@.len(),
        groups_of(fs@.take(i as int), old(groups)@),
    ensures
        groups_of(fs@.take(i + 1), final(groups)@),
{
    let ghost pre = fs@.take(i as int);
    let ghost post = fs@.take(i + 1);
    let ghost gs = groups@;
    assert(post.drop_last() =~= pre);
    let k = fs[i].complex_f;
    let a = fs[i].offset;
    if k > 0 {
        let m = groups.len();
        let mut p: usize = 0;
        while p < m && groups[p].complex_f < k
            invariant
                m == groups@.len(),
                p <= m,
                groups@ == gs,
                forall|q: int| 0 <= q < p ==> groups@[q].complex_f < k,
            decreases m - p,
        {
            p = p + 1;
        }
        if p < m && groups[p].complex_f == k {
            groups[p].functions.push(a);
            proof {
                lemma_group_join(pre, post, gs, groups@, p as int);
            }
        } else {
            let mut g = ComplexityGroup::new(k);
            g.functions.push(a);
            groups.insert(p, g);
            proof {
                assert(groups@[p as int].functions@ =~= seq![a]);
                lemma_group_open(pre, post, gs, groups@, p as int);
            }
        }
    } else {
        proof {
            lemma_group_skip(pre, post, gs);
        }
    }
}

/// Adding a record to the existing class of its index keeps the classes
/// right.
proof fn lemma_group_join(
    pre: Seq<Function>,
    post: Seq<Function>,
    gs: Seq<ComplexityGroup>,
    groups: Seq<ComplexityGroup>,
    p: int,
)
    requires
        post.len() == pre.len() + 1,
        post.drop_last() == pre,
        groups_of(pre, gs),
        0 <= p < gs.len(),
        gs[p].complex_f == post.last().complex_f,
        groups.len() == gs.len(),
        groups[p].complex_f == gs[p].complex_f,
        groups[p].functions@ == gs[p].functions@.push(post.last().offset),
        forall|g: int| 0 <= g < gs.len() && g != p ==> groups[g] == gs[g],
    ensures
        groups_of(post, groups),
{
    let k = post.last().complex_f;
    assert forall|g: int| 0 <= g < groups.len() implies groups[g].complex_f > 0 && (
    #[trigger] groups[g]).functions@ == members(post, groups[g].complex_f) by {
        if g != p {
            assert(groups[g] == gs[g]);
        }
    }
    assert forall|q: int| 0 <= q < post.len() && (#[trigger] post[q]).complex_f > 0 implies exists|
        g: int,
    | 0 <= g < groups.len() && groups[g].complex_f == post[q].complex_f by {
        if q < pre.len() {
            assert(post[q] == pre[q]);
            let g = choose|g: int| 0 <= g < gs.len() && gs[g].complex_f == pre[q].complex_f;
            assert(groups[g].complex_f == gs[g].complex_f);
        } else {
            assert(groups[p].complex_f == k);
        }
    }
    assert forall|x: int, y: int| 0 <= x < y < groups.len() implies groups[x].complex_f
        < groups[y].complex_f by {
        assert(groups[x].complex_f == gs[x].complex_f);
        assert(groups[y].complex_f == gs[y].complex_f);
    }
}

/// Opening a new class at its sorted place for a record keeps the classes
/// right.
proof fn lemma_group_open(
    pre: Seq<Function>,
    post: Seq<Function>,
    gs: Seq<ComplexityGroup>,
    groups: Seq<ComplexityGroup>,
    p: int,
)
    requires
        post.len() == pre.len() + 1,
        post.drop_last() == pre,
        groups_of(pre, gs),
        post.last().complex_f > 0,
        0 <= p <= gs.len(),
        forall|q: int| 0 <= q < p ==> gs[q].complex_f < post.last().complex_f,
        p < gs.len() ==> gs[p].complex_f > post.last().complex_f,
        groups.len() == gs.len() + 1,
        groups[p].complex_f == post.last().complex_f,
        groups[p].functions@ == seq![post.last().offset],
        forall|g: int| 0 <= g < p ==> groups[g] == gs[g],
        forall|g: int| p < g < groups.len() ==> groups[g] == gs[g - 1],
    ensures
        groups_of(post, groups),
{
    let k = post.last().complex_f;
    assert forall|q: int| 0 <= q < pre.len() implies pre[q].complex_f != k by {
        if pre[q].complex_f == k {
            let g = choose|g: int| 0 <= g < gs.len() && gs[g].complex_f == pre[q].complex_f;
            if g < p {
            } else if g > p {
                assert(gs[g].complex_f > gs[p].complex_f);
            }
        }
    }
    lemma_members_absent(pre, k);
    assert forall|x: int, y: int| 0 <= x < y < groups.len() implies groups[x].complex_f
        < groups[y].complex_f by {
        if y < p {
            assert(groups[x] == gs[x]);
            assert(groups[y] == gs[y]);
        } else if y == p {
            assert(groups[x] == gs[x]);
        } else if x == p {
            assert(groups[y] == gs[y - 1]);
            if y - 1 > p {
                assert(gs[p].complex_f < gs[y - 1].complex_f);
            }
        } else if x < p {
            assert(groups[x] == gs[x]);
            assert(groups[y] == gs[y - 1]);
        } else {
            assert(groups[y] == gs[y - 1]);
            assert(groups[x] == gs[x - 1]);
        }
    }
    assert forall|x: int| 0 <= x < groups.len() implies groups[x].complex_f > 0 && (
    #[trigger] groups[x]).functions@ == members(post, groups[x].complex_f) by {
        if x < p {
            assert(groups[x] == gs[x]);
        } else if x > p {
            assert(groups[x] == gs[x - 1]);
        } else {
            assert(groups[x].functions@ =~= members(post, k));
        }
    }
    assert forall|q: int| 0 <= q < post.len() && (#[trigger] post[q]).complex_f > 0 implies exists|
        x: int,
    | 0 <= x < groups.len() && groups[x].complex_f == post[q].complex_f by {
        if q < pre.len() {
            assert(post[q] == pre[q]);
            let g = choose|g: int| 0 <= g < gs.len() && gs[g].complex_f == pre[q].complex_f;
            if g < p {
                assert(groups[g] == gs[g]);
            } else {
                assert(groups[g + 1] == gs[g]);
            }
        } else {
            assert(groups[p].complex_f == k);
        }
    }
}

/// A record of index 0 leaves the classes as they are.
proof fn lemma_group_skip(pre: Seq<Function>, post: Seq<Function>, gs: Seq<ComplexityGroup>)
    requires
        post.len() == pre.len() + 1,
        post.drop_last() == pre,
        groups_of(pre, gs),
        post.last().complex_f == 0,
    ensures
        groups_of(post, gs),
{
    assert forall|q: int| 0 <= q < post.len() && (#[trigger] post[q]).complex_f > 0 implies exists|
        x: int,
    | 0 <= x < gs.len() && gs[x].complex_f == post[q].complex_f by {
        assert(post[q] == pre[q]);
    }
    assert forall|x: int| 0 <= x < gs.len() implies gs[x].complex_f > 0 && (
    #[trigger] gs[x]).functions@ == members(post, gs[x].complex_f) by {
    }
}

/// No record of index `k`: no members.
pub proof fn lemma_members_absent(fs: Seq<Function>, k: u64)
    requires
        forall|q: int| 0 <= q < fs.len() ==> fs[q].complex_f != k,
    ensures
        members(fs, k).len() == 0,
    decreases fs.len(),
{
    if fs.len() > 0 {
        lemma_members_absent(fs.drop_last(), k);
    }
}

/// Stores that agree on addresses and complexity indexes have the same
/// classes.
pub proof fn lemma_members_same(f: Seq<Function>, g: Seq<Function>, groups: Seq<ComplexityGroup>)
    requires
        f.len() == g.len(),
        forall|i: int|
            0 <= i < f.len() ==> (#[trigger] g[i]).offset == f[i].offset && g[i].complex_f
                == f[i].complex_f,
        groups_of(f, groups),
    ensures
        groups_of(g, groups),
{
    assert forall|k: u64| #[trigger] members(g, k) == members(f, k) by {
        lemma_members_eq(f, g, k);
    }
    assert forall|k: int| 0 <= k < g.len() && (#[trigger] g[k]).complex_f > 0 implies exists|i: int|
        0 <= i < groups.len() && groups[i].complex_f == g[k].complex_f by {
        assert(f[k].complex_f == g[k].complex_f);
    }
}

/// Stores that agree on addresses and complexity indexes have the same
/// members for every index.
pub proof fn lemma_members_eq(f: Seq<Function>, g: Seq<Function>, k: u64)
    requires
        f.len() == g.len(),
        forall|i: int|
            0 <= i < f.len() ==> (#[trigger] g[i]).offset == f[i].offset && g[i].complex_f
                == f[i].complex_f,
    ensures
        members(g, k) == members(f, k),
    decreases f.len(),
{
    if f.len() > 0 {
        assert(g[f.len() - 1].offset == f[f.len() - 1].offset);
        lemma_members_eq(f.drop_last(), g.drop_last(), k);
    }
}

} // verus!
