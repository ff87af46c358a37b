use vstd::prelude::*;
use crate::score::{density, SCORE_SCALE};
use crate::sensitive::{fragment, name_fragment, weight_of, SensitiveTable};
use crate::store::{
    find, has_record, lemma_index_of, lemma_same_distinct, offsets_distinct, record,
    same_ingested, Function, Operation,
};

verus! {

/// What one call to `callee` adds to the sensitivity score: the weight of the
/// callee's bare name, 0 when the callee has no record or an empty name.
pub open spec fn call_weight(fs: Seq<Function>, table: Map<Seq<char>, u64>, callee: u64) -> nat {
    if has_record(fs, callee) && record(fs, callee).name@.len() > 0 {
        weight_of(table, fragment(record(fs, callee).name@))
    } else {
        0
    }
}

/// The sensitivity score of a list of calls: the sum of their weights, each
/// call counted.
pub open spec fn sensitivity(fs: Seq<Function>, table: Map<Seq<char>, u64>, calls: Seq<u64>) -> nat
    decreases calls.len(),
{
    if calls.len() == 0 {
        0
    } else {
        sensitivity(fs, table, calls.drop_last()) + call_weight(fs, table, calls.last())
    }
}

/// Whether an operation type is a memory access.
pub open spec fn is_memory_kind(kind: Seq<char>) -> bool {
    kind == "load"@ || kind == "store"@
}

/// How many of `ops` are memory accesses.
pub open spec fn memory_count(ops: Seq<Operation>) -> nat
    decreases ops.len(),
{
    if ops.len() == 0 {
        0
    } else {
        memory_count(ops.drop_last()) + if is_memory_kind(ops.last().kind@) {
            1nat
        } else {
            0nat
        }
    }
}

/// The memory density of a function's operations.
pub open spec fn memory_density(ops: Seq<Operation>) -> Option<u128> {
    density(memory_count(ops), ops.len())
}

/// A defined density is at most one whole unit.
pub open spec fn density_bounded(p: Option<u128>) -> bool {
    match p {
        Some(d) => d <= SCORE_SCALE,
        None => true,
    }
}

/// The largest sensitivity a list of `n` calls can reach.
pub open spec fn sensitivity_cap(n: nat) -> int {
    n * (u64::MAX as int)
}

/// The sensitivity score of `calls`: the weights of the bare names of the
/// callees, summed over the calls.
pub fn call_sensitivity(fs: &Vec<Function>, table: &SensitiveTable, calls: &Vec<u64>) -> (r: u128)
    requires
        offsets_distinct(fs@),
        table.wf(),
    ensures
        r == sensitivity(fs@, table@, calls@),
        r <= sensitivity_cap(calls@.len()),
{
    let n = calls.len();
    let mut total: u128 = 0;
    let mut i: usize = 0;
    while i < n
        invariant
            n == calls@.len(),
            i <= n,
            offsets_distinct(fs@),
            table.wf(),
            total == sensitivity(fs@, table@, calls@.take(i as int)),
            total <= sensitivity_cap(i as nat),
        decreases n - i,
    {
        assert(calls@.take(i + 1).drop_last() =~= calls@.take(i as int));
        let mut w: u64 = 0;
        match find(fs, calls[i]) {
            Some(j) => {
                proof {
                    lemma_index_of(fs@, j as int);
                }
                if fs[j].name.as_str().unicode_len() > 0 {
                    let bare = name_fragment(&fs[j].name);
                    w = table.weight(&bare);
                }
            },
            None => {},
        }
        assert(w == call_weight(fs@, table@, calls@[i as int]));
        proof {
            assert(sensitivity_cap((i + 1) as nat) == sensitivity_cap(i as nat) + u64::MAX) by (nonlinear_arith);
            assert(sensitivity_cap(i as nat) <= sensitivity_cap(usize::MAX as nat)) by (nonlinear_arith)
                requires i <= usize::MAX;
            assert(sensitivity_cap(usize::MAX as nat) + u64::MAX <= u128::MAX) by (nonlinear_arith);
        }
        total = total + w as u128;
        i = i + 1;
    }
    assert(calls@.take(n as int) =~= calls@);
    total
}

/// The memory density of `ops`: the share of `load` and `store` operations,
/// undefined when there are none.
pub fn operations_density(ops: &Vec<Operation>) -> (r: Option<u128>)
    ensures
        r == memory_density(ops@),
        match r {
            Some(d) => d <= SCORE_SCALE,
            None => true,
        },
{
    let load = String::from_str("load");
    let store = String::from_str("store");
    proof {
        reveal_strlit("load");
        reveal_strlit("store");
    }
    let n = ops.len();
    let mut count: u64 = 0;
    let mut i: usize = 0;
    while i < n
        invariant
            n == ops@.len(),
            i <= n,
            load@ == "load"@,
            store@ == "store"@,
            count == memory_count(ops@.take(i as int)),
            count <= i,
        decreases n - i,
    {
        assert(ops@.take(i + 1).drop_last() =~= ops@.take(i as int));
        if ops[i].kind == load || ops[i].kind == store {
            count = count + 1;
        }
        i = i + 1;
    }
    assert(ops@.take(n as int) =~= ops@);
    if n == 0 {
        None
    } else {
        let scaled: u128 = SCORE_SCALE as u128 * count as u128;
        let d: u128 = scaled / (n as u128);
        proof {
            assert(scaled <= SCORE_SCALE as int * n) by (nonlinear_arith)
                requires scaled as int == SCORE_SCALE as int * count, count <= n;
            assert(d <= SCORE_SCALE) by (nonlinear_arith)
                requires d as int == (scaled as int) / (n as int), scaled <= SCORE_SCALE as int * n, n > 0;
        }
        Some(d)
    }
}

/// Stores that agree on everything ingested give calls the same sensitivity.
pub proof fn lemma_sensitivity_same(
    f: Seq<Function>,
    g: Seq<Function>,
    table: Map<Seq<char>, u64>,
    calls: Seq<u64>,
)
    requires
        f.len() == g.len(),
        forall|i: int| 0 <= i < f.len() ==> same_ingested(#[trigger] g[i], f[i]),
        offsets_distinct(f),
    ensures
        sensitivity(f, table, calls) == sensitivity(g, table, calls),
    decreases calls.len(),
{
    if calls.len() > 0 {
        lemma_sensitivity_same(f, g, table, calls.drop_last());
        lemma_same_distinct(f, g);
        let a = calls.last();
        if has_record(f, a) {
            let i = choose|i: int| 0 <= i < f.len() && f[i].offset == a;
            lemma_index_of(f, i);
            assert(same_ingested(g[i], f[i]));
            lemma_index_of(g, i);
        } else {
            assert forall|i: int| 0 <= i < g.len() implies g[i].offset != a by {
                assert(same_ingested(g[i], f[i]));
            }
        }
    }
}

} // verus!
