use vstd::prelude::*;

verus! {

/// One operation inside a function: its address and its type as the analysis
/// engine names it (`load`, `store`, `add`, ...).
pub struct Operation {
    pub addr: u64,
    pub kind: String,
}

/// One outgoing reference of a function: its kind (`CALL`, `DATA`, ...) and
/// the address it points to.
pub struct Reference {
    pub kind: String,
    pub to: u64,
}

/// What the analysis engine reports of one defined function.
pub struct FunctionData {
    pub name: String,
    pub offset: u64,
    pub size: u64,
    pub cc: u64,
    pub references: Vec<Reference>,
    pub operations: Vec<Operation>,
}

/// One function of the binary, with the facts ingested for it and the
/// measures derived from them.
pub struct Function {
    /// function address
    pub offset: u64,
    /// function name; empty while the function is known only as a call target
    pub name: String,
    /// function size in bytes
    pub size: u64,
    /// cyclomatic complexity
    pub cc: u64,
    /// addresses this function calls, one per call
    pub calls: Vec<u64>,
    /// addresses of the functions that call this one, one per call
    pub callers: Vec<u64>,
    /// number of times called
    pub x_f: u64,
    /// complexity index
    pub complex_f: u64,
    /// sensitivity score, in `SCORE_SCALE` units
    pub s_f: u128,
    /// operations of the function
    pub operation_list: Vec<Operation>,
    /// memory density in `SCORE_SCALE` units; `None` when undefined
    pub p_f: Option<u128>,
    /// vulnerability score in `SCORE_SCALE` units; `None` when undefined
    pub vulnerability_f: Option<u128>,
}

impl Function {
    /// A bare record for `offset`, with no facts and no measures yet.
    pub fn new(offset: u64) -> (r: Function)
        ensures
            r.offset == offset,
            r.name@.len() == 0,
            r.size == 0,
            r.cc == 0,
            r.calls@.len() == 0,
            r.callers@.len() == 0,
            r.x_f == 0,
            r.complex_f == 0,
            r.s_f == 0,
            r.operation_list@.len() == 0,
            r.p_f is None,
            r.vulnerability_f is None,
    {
        Function {
            offset,
            name: String::new(),
            size: 0,
            cc: 0,
            calls: Vec::new(),
            callers: Vec::new(),
            x_f: 0,
            complex_f: 0,
            s_f: 0,
            operation_list: Vec::new(),
            p_f: None,
            vulnerability_f: None,
        }
    }
}

/// No two records share an address.
pub open spec fn offsets_distinct(fs: Seq<Function>) -> bool {
    forall|i: int, j: int|
        0 <= i < fs.len() && 0 <= j < fs.len() && i != j ==> fs[i].offset != fs[j].offset
}

/// Some record has address `a`.
pub open spec fn has_record(fs: Seq<Function>, a: u64) -> bool {
    exists|i: int| 0 <= i < fs.len() && fs[i].offset == a
}

/// The position of the record with address `a` (meaningful when `has`).
pub open spec fn index_of(fs: Seq<Function>, a: u64) -> int {
    choose|i: int| 0 <= i < fs.len() && fs[i].offset == a
}

/// With distinct addresses, the record found for an address is the one at
/// its position.
pub proof fn lemma_index_of(fs: Seq<Function>, i: int)
    requires
        offsets_distinct(fs),
        0 <= i < fs.len(),
    ensures
        has_record(fs, fs[i].offset),
        index_of(fs, fs[i].offset) == i,
{
}

/// The targets of the `CALL` references, in order.
pub open spec fn call_targets(refs: Seq<Reference>) -> Seq<u64>
    decreases refs.len(),
{
    if refs.len() == 0 {
        Seq::empty()
    } else if refs.last().kind@ == "CALL"@ {
        call_targets(refs.drop_last()).push(refs.last().to)
    } else {
        call_targets(refs.drop_last())
    }
}

/// How often `a` occurs in `s`.
pub open spec fn occurrences(s: Seq<u64>, a: u64) -> nat
    decreases s.len(),
{
    if s.len() == 0 {
        0
    } else {
        occurrences(s.drop_last(), a) + if s.last() == a {
            1nat
        } else {
            0nat
        }
    }
}

/// An address that does not occur has no occurrences.
pub proof fn lemma_occurrences_absent(s: Seq<u64>, a: u64)
    requires
        !s.contains(a),
    ensures
        occurrences(s, a) == 0,
    decreases s.len(),
{
    if s.len() > 0 {
        assert(s.drop_last().len() < s.len());
        assert forall|w: int| 0 <= w < s.drop_last().len() implies s.drop_last()[w] != a by {
            assert(s[w] != a);
        }
        assert(s[s.len() - 1] != a);
        lemma_occurrences_absent(s.drop_last(), a);
    }
}

/// The sum of the lengths of the callers lists.
pub open spec fn total_callers(fs: Seq<Function>) -> nat
    decreases fs.len(),
{
    if fs.len() == 0 {
        0
    } else {
        total_callers(fs.drop_last()) + fs.last().callers@.len()
    }
}

/// The sum of the lengths of the calls lists: every call edge ingested.
pub open spec fn total_calls(fs: Seq<Function>) -> nat
    decreases fs.len(),
{
    if fs.len() == 0 {
        0
    } else {
        total_calls(fs.drop_last()) + fs.last().calls@.len()
    }
}

/// Replacing one record changes the totals by the difference of its lists.
pub proof fn lemma_totals_update(fs: Seq<Function>, i: int, g: Function)
    requires
        0 <= i < fs.len(),
    ensures
        total_callers(fs.update(i, g)) + fs[i].callers@.len() == total_callers(fs)
            + g.callers@.len(),
        total_calls(fs.update(i, g)) + fs[i].calls@.len() == total_calls(fs) + g.calls@.len(),
    decreases fs.len(),
{
    if i < fs.len() - 1 {
        lemma_totals_update(fs.drop_last(), i, g);
        assert(fs.update(i, g).drop_last() =~= fs.drop_last().update(i, g));
    } else {
        assert(fs.update(i, g).drop_last() =~= fs.drop_last());
    }
}

/// Appending a record adds its lists to the totals.
pub proof fn lemma_totals_push(fs: Seq<Function>, g: Function)
    ensures
        total_callers(fs.push(g)) == total_callers(fs) + g.callers@.len(),
        total_calls(fs.push(g)) == total_calls(fs) + g.calls@.len(),
{
    assert(fs.push(g).drop_last() =~= fs);
}

/// The position of the record with address `a`, if there is one.
pub fn find(fs: &Vec<Function>, a: u64) -> (r: Option<usize>)
    ensures
        match r {
            Some(i) => i < fs@.len() && fs@[i as int].offset == a,
            None => !has_record(fs@, a),
        },
{
    let n = fs.len();
    let mut i: usize = 0;
    while i < n
        invariant
            n == fs@.len(),
            i <= n,
            forall|j: int| 0 <= j < i ==> fs@[j].offset != a,
        decreases n - i,
    {
        if fs[i].offset == a {
            return Some(i);
        }
        i = i + 1;
    }
    None
}

/// The position of the record with address `a`, which is created bare at the
/// end when there is none yet.
pub fn find_or_create(fs: &mut Vec<Function>, a: u64) -> (r: usize)
    requires
        offsets_distinct(old(fs)@),
    ensures
        offsets_distinct(final(fs)@),
        r < final(fs)@.len(),
        final(fs)@[r as int].offset == a,
        has_record(old(fs)@, a) ==> final(fs)@ == old(fs)@,
        !has_record(old(fs)@, a) ==> final(fs)@.len() == old(fs)@.len() + 1 && final(fs)@.drop_last()
            == old(fs)@ && r == old(fs)@.len(),
        !has_record(old(fs)@, a) ==> ({
            let g = final(fs)@[r as int];
            &&& g.name@.len() == 0
            &&& g.size == 0
            &&& g.cc == 0
            &&& g.calls@.len() == 0
            &&& g.callers@.len() == 0
            &&& g.x_f == 0
            &&& g.complex_f == 0
            &&& g.s_f == 0
            &&& g.operation_list@.len() == 0
            &&& g.p_f is None
            &&& g.vulnerability_f is None
        }),
{
    match find(fs, a) {
        Some(i) => i,
        None => {
            fs.push(Function::new(a));
            assert(fs@.drop_last() =~= old(fs)@);
            fs.len() - 1
        },
    }
}

/// The ingested facts of a record: name, size, complexity, calls, operations.
pub open spec fn facts(f: Function) -> (Seq<char>, u64, u64, Seq<u64>, Seq<Operation>) {
    (f.name@, f.size, f.cc, f.calls@, f.operation_list@)
}

/// The facts that position `i` held in `o`: none for a position past its end.
pub open spec fn prior_facts(o: Seq<Function>, i: int) -> (
    Seq<char>,
    u64,
    u64,
    Seq<u64>,
    Seq<Operation>,
) {
    if 0 <= i < o.len() {
        facts(o[i])
    } else {
        (Seq::empty(), 0, 0, Seq::empty(), Seq::empty())
    }
}

/// The callers that position `i` held in `o`: none for a position past its end.
pub open spec fn prior_callers(o: Seq<Function>, i: int) -> Seq<u64> {
    if 0 <= i < o.len() {
        o[i].callers@
    } else {
        Seq::empty()
    }
}

/// `n` copies of the address `a`.
pub open spec fn copies(n: nat, a: u64) -> Seq<u64> {
    Seq::new(n, |_k: int| a)
}

/// Adds one defined function to the store. A record is created for its address
/// and for each `CALL` target that has none yet; the function's facts are set
/// and its call targets and operations appended; each `CALL` target gains the
/// function as a caller, once per call. References of other kinds are ignored.
pub fn ingest_function(fs: &mut Vec<Function>, data: FunctionData)
    requires
        offsets_distinct(old(fs)@),
    ensures
        offsets_distinct(final(fs)@),
        final(fs)@.len() >= old(fs)@.len(),
        forall|i: int| 0 <= i < old(fs)@.len() ==> final(fs)@[i].offset == old(fs)@[i].offset,
        forall|a: u64|
            has_record(final(fs)@, a) <==> (has_record(old(fs)@, a) || a == data.offset
                || call_targets(data.references@).contains(a)),
        forall|i: int|
            0 <= i < final(fs)@.len() ==> #[trigger] final(fs)@[i].callers@ == prior_callers(
                old(fs)@,
                i,
            ) + copies(occurrences(call_targets(data.references@), final(fs)@[i].offset), data.offset),
        forall|i: int|
            0 <= i < final(fs)@.len() && final(fs)@[i].offset != data.offset ==> facts(
                #[trigger] final(fs)@[i],
            ) == prior_facts(old(fs)@, i),
        forall|i: int|
            0 <= i < final(fs)@.len() && final(fs)@[i].offset == data.offset ==> facts(
                #[trigger] final(fs)@[i],
            ) == (
                data.name@,
                data.size,
                data.cc,
                prior_facts(old(fs)@, i).3 + call_targets(data.references@),
                prior_facts(old(fs)@, i).4 + data.operations@,
            ),
        total_callers(final(fs)@) == total_callers(old(fs)@) + call_targets(
            data.references@,
        ).len(),
        total_calls(final(fs)@) == total_calls(old(fs)@) + call_targets(data.references@).len(),
{
    let FunctionData { name, offset, size, cc, references, operations } = data;
    let mut operations = operations;
    let ghost name0 = name@;
    let ghost ops0 = operations@;
    let ghost o = fs@;
    find_or_create(fs, offset);
    proof {
        if !has_record(o, offset) {
            lemma_totals_push(o, fs@.last());
        }
    }
    let ghost start = fs@;
    let call_kind = String::from_str("CALL");
    proof {
        reveal_strlit("CALL");
    }
    let mut targets: Vec<u64> = Vec::new();
    let n = references.len();
    let mut j: usize = 0;
    while j < n
        invariant
            n == references@.len(),
            j <= n,
            call_kind@ == "CALL"@,
            offsets_distinct(fs@),
            fs@.len() >= start.len(),
            forall|i: int| 0 <= i < start.len() ==> fs@[i].offset == start[i].offset,
            targets@ == call_targets(references@.take(j as int)),
            forall|a: u64| #[trigger]
                has_record(fs@, a) <==> (has_record(start, a) || targets@.contains(a)),
            forall|i: int|
                0 <= i < fs@.len() ==> #[trigger] fs@[i].callers@ == prior_callers(start, i)
                    + copies(occurrences(targets@, fs@[i].offset), offset),
            forall|i: int| 0 <= i < fs@.len() ==> facts(#[trigger] fs@[i]) == prior_facts(start, i),
            total_callers(fs@) == total_callers(start) + targets@.len(),
            total_calls(fs@) == total_calls(start),
        decreases n - j,
    {
        assert(references@.take(j + 1).drop_last() =~= references@.take(j as int));
        if references[j].kind == call_kind {
            let to = references[j].to;
            let ghost before = fs@;
            let ghost tb = targets@;
            let k = find_or_create(fs, to);
            proof {
                if !has_record(before, to) {
                    lemma_totals_push(before, fs@.last());
                }
            }
            let ghost mid = fs@;
            fs[k].callers.push(offset);
            proof {
                lemma_totals_update(mid, k as int, fs@[k as int]);
                assert(fs@ == mid.update(k as int, fs@[k as int]));
            }
            targets.push(to);
            proof {
                assert(targets@.drop_last() =~= tb);
                assert forall|a: u64| has_record(fs@, a) <==> (has_record(start, a)
                    || targets@.contains(a)) by {
                    if has_record(fs@, a) && !has_record(start, a) && a != to {
                        let i = choose|i: int| 0 <= i < fs@.len() && fs@[i].offset == a;
                        assert(mid[i].offset == a);
                        if has_record(before, to) {
                            assert(before[i].offset == a);
                        } else {
                            assert(i < before.len());
                            assert(mid.drop_last()[i] == mid[i]);
                            assert(before[i].offset == a);
                        }
                        assert(has_record(before, a));
                        assert(tb.contains(a));
                        let w = choose|w: int| 0 <= w < tb.len() && tb[w] == a;
                        assert(targets@[w] == a);
                    }
                    if targets@.contains(a) && a != to {
                        let w = choose|w: int| 0 <= w < targets@.len() && targets@[w] == a;
                        assert(tb[w] == a);
                        assert(tb.contains(a));
                        assert(has_record(before, a));
                        let i = choose|i: int| 0 <= i < before.len() && before[i].offset == a;
                        assert(fs@[i].offset == a);
                    }
                    if a == to {
                        assert(fs@[k as int].offset == a);
                        assert(targets@[targets@.len() - 1] == a);
                    }
                    if has_record(start, a) {
                        let i = choose|i: int| 0 <= i < start.len() && start[i].offset == a;
                        assert(fs@[i].offset == a);
                    }
                }
                assert forall|i: int| 0 <= i < fs@.len() implies #[trigger] fs@[i].callers@
                    == prior_callers(start, i) + copies(occurrences(targets@, fs@[i].offset), offset)
                    by {
                    assert(occurrences(targets@, fs@[i].offset) == occurrences(tb, fs@[i].offset)
                        + if to == fs@[i].offset {
                        1nat
                    } else {
                        0nat
                    });
                    if i == k {
                        if has_record(before, to) {
                            assert(mid[i] == before[i]);
                        } else {
                            assert(!tb.contains(to));
                            lemma_occurrences_absent(tb, to);
                            assert(prior_callers(start, i) =~= Seq::<u64>::empty());
                        }
                        assert(copies(occurrences(targets@, to), offset) =~= copies(
                            occurrences(tb, to),
                            offset,
                        ).push(offset));
                        assert(fs@[i].callers@ =~= prior_callers(start, i) + copies(
                            occurrences(targets@, fs@[i].offset),
                            offset,
                        ));
                    } else if i < before.len() {
                        if !has_record(before, to) {
                            assert(mid.drop_last()[i] == mid[i]);
                        }
                        assert(fs@[i] == before[i]);
                    } else {
                        assert(false);
                    }
                }
                assert forall|i: int| 0 <= i < fs@.len() implies facts(#[trigger] fs@[i])
                    == prior_facts(start, i) by {
                    if i < before.len() {
                        assert(facts(before[i]) == prior_facts(start, i));
                    } else {
                        assert(facts(mid[i]) == prior_facts(start, i));
                    }
                }
            }
        }
        j = j + 1;
    }
    assert(references@.take(n as int) =~= references@);
    let ghost ready = fs@;
    let ghost tseq = targets@;
    let idx = find_or_create(fs, offset);
    proof {
        assert(has_record(start, offset)) by {
            assert(start[(start.len() - 1) as int].offset == offset || has_record(o, offset));
        }
    }
    fs[idx].name = name;
    fs[idx].size = size;
    fs[idx].cc = cc;
    fs[idx].calls.append(&mut targets);
    fs[idx].operation_list.append(&mut operations);
    proof {
        lemma_totals_update(ready, idx as int, fs@[idx as int]);
        assert(fs@ == ready.update(idx as int, fs@[idx as int]));
        assert forall|a: u64| has_record(fs@, a) <==> (has_record(o, a) || a == offset
            || tseq.contains(a)) by {
            if has_record(fs@, a) {
                let i = choose|i: int| 0 <= i < fs@.len() && fs@[i].offset == a;
                assert(ready[i].offset == a);
            }
            if has_record(ready, a) {
                let i = choose|i: int| 0 <= i < ready.len() && ready[i].offset == a;
                assert(fs@[i].offset == a);
            }
            if has_record(o, a) {
                let i = choose|i: int| 0 <= i < o.len() && o[i].offset == a;
                assert(start[i].offset == a);
            }
            if a == offset {
                assert(has_record(start, a));
            }
            if has_record(start, a) && !has_record(o, a) {
                let i = choose|i: int| 0 <= i < start.len() && start[i].offset == a;
                if i < o.len() {
                    assert(o[i].offset == a);
                }
            }
        }
        assert forall|i: int| 0 <= i < fs@.len() implies #[trigger] fs@[i].callers@ == prior_callers(
            o,
            i,
        ) + copies(occurrences(tseq, fs@[i].offset), offset) by {
            assert(ready[i].callers@ == prior_callers(start, i) + copies(
                occurrences(tseq, fs@[i].offset),
                offset,
            ));
            if i >= o.len() && i < start.len() {
                assert(prior_callers(start, i).len() == 0);
                assert(prior_callers(start, i) =~= prior_callers(o, i));
            }
        }
        assert forall|i: int| 0 <= i < fs@.len() && fs@[i].offset != offset implies facts(
            #[trigger] fs@[i],
        ) == prior_facts(o, i) by {
            assert(facts(ready[i]) == prior_facts(start, i));
            if i >= o.len() && i < start.len() {
                assert(start[i].offset == offset);
            }
        }
        assert forall|i: int| 0 <= i < fs@.len() && fs@[i].offset == offset implies facts(
            #[trigger] fs@[i],
        ) == (
            name0,
            size,
            cc,
            prior_facts(o, i).3 + tseq,
            prior_facts(o, i).4 + ops0,
        ) by {
            assert(i == idx);
            assert(facts(ready[i]) == prior_facts(start, i));
        }
    }
}

/// The record with address `a` (meaningful when there is one).
pub open spec fn record(fs: Seq<Function>, a: u64) -> Function {
    fs[index_of(fs, a)]
}

/// The record `g` holds what `f` held, derived measures aside.
pub open spec fn same_ingested(f: Function, g: Function) -> bool {
    &&& f.offset == g.offset
    &&& facts(f) == facts(g)
    &&& f.callers@ == g.callers@
}

/// Stores that agree on everything ingested have distinct addresses together.
pub proof fn lemma_same_distinct(f: Seq<Function>, g: Seq<Function>)
    requires
        f.len() == g.len(),
        forall|i: int| 0 <= i < f.len() ==> same_ingested(#[trigger] g[i], f[i]),
        offsets_distinct(f),
    ensures
        offsets_distinct(g),
{
    assert forall|a: int, b: int| 0 <= a < g.len() && 0 <= b < g.len() && a != b implies g[a].offset
        != g[b].offset by {
        assert(same_ingested(g[a], f[a]));
        assert(same_ingested(g[b], f[b]));
    }
}

/// Stores that agree on everything ingested agree on the edge totals.
pub proof fn lemma_totals_same(f: Seq<Function>, g: Seq<Function>)
    requires
        f.len() == g.len(),
        forall|i: int| 0 <= i < f.len() ==> same_ingested(#[trigger] g[i], f[i]),
    ensures
        total_callers(f) == total_callers(g),
        total_calls(f) == total_calls(g),
    decreases f.len(),
{
    if f.len() > 0 {
        assert(same_ingested(g[f.len() - 1], f[f.len() - 1]));
        lemma_totals_same(f.drop_last(), g.drop_last());
    }
}

/// The callers that the functions of `feed` give the address `a`: each
/// function once per `CALL` reference to `a`, in feed order.
pub open spec fn feed_callers(feed: Seq<FunctionData>, a: u64) -> Seq<u64>
    decreases feed.len(),
{
    if feed.len() == 0 {
        Seq::empty()
    } else {
        feed_callers(feed.drop_last(), a) + copies(
            occurrences(call_targets(feed.last().references@), a),
            feed.last().offset,
        )
    }
}

/// The facts of the record at `a` after `feed` is ingested on top of `p`:
/// name, size and complexity of the last definition at `a`, with the call
/// targets and operations of every definition at `a` appended in feed order.
pub open spec fn feed_facts(
    p: (Seq<char>, u64, u64, Seq<u64>, Seq<Operation>),
    feed: Seq<FunctionData>,
    a: u64,
) -> (Seq<char>, u64, u64, Seq<u64>, Seq<Operation>)
    decreases feed.len(),
{
    if feed.len() == 0 {
        p
    } else {
        let q = feed_facts(p, feed.drop_last(), a);
        let d = feed.last();
        if d.offset == a {
            (d.name@, d.size, d.cc, q.3 + call_targets(d.references@), q.4 + d.operations@)
        } else {
            q
        }
    }
}

/// Some function of `feed` is defined at `a` or calls `a`.
pub open spec fn mentions(feed: Seq<FunctionData>, a: u64) -> bool {
    exists|i: int|
        0 <= i < feed.len() && (feed[i].offset == a || call_targets(feed[i].references@).contains(a))
}

/// A feed that never mentions `a` gives it no callers and leaves its facts.
pub proof fn lemma_feed_silent(
    p: (Seq<char>, u64, u64, Seq<u64>, Seq<Operation>),
    feed: Seq<FunctionData>,
    a: u64,
)
    requires
        !mentions(feed, a),
    ensures
        feed_callers(feed, a) == Seq::<u64>::empty(),
        feed_facts(p, feed, a) == p,
    decreases feed.len(),
{
    if feed.len() > 0 {
        let d = feed.drop_last();
        assert(!mentions(d, a)) by {
            if mentions(d, a) {
                let i = choose|i: int|
                    0 <= i < d.len() && (d[i].offset == a || call_targets(d[i].references@).contains(a));
                assert(feed[i] == d[i]);
            }
        }
        lemma_feed_silent(p, d, a);
        let last = feed.len() - 1;
        assert(feed[last] == feed.last());
        lemma_occurrences_absent(call_targets(feed.last().references@), a);
        assert(feed_callers(feed, a) =~= Seq::<u64>::empty());
    }
}

/// Every address that a record calls has a record.
pub open spec fn calls_resolved(fs: Seq<Function>) -> bool {
    forall|i: int, j: int|
        0 <= i < fs.len() && 0 <= j < fs[i].calls@.len() ==> has_record(fs, #[trigger] fs[i].calls@[j])
}

/// Stores that agree on everything ingested resolve their calls together.
pub proof fn lemma_same_resolved(f: Seq<Function>, g: Seq<Function>)
    requires
        f.len() == g.len(),
        forall|i: int| 0 <= i < f.len() ==> same_ingested(#[trigger] g[i], f[i]),
        calls_resolved(f),
    ensures
        calls_resolved(g),
{
    assert forall|i: int, j: int| 0 <= i < g.len() && 0 <= j < g[i].calls@.len() implies has_record(
        g,
        #[trigger] g[i].calls@[j],
    ) by {
        assert(same_ingested(g[i], f[i]));
        let c = f[i].calls@[j];
        assert(has_record(f, c));
        let k = choose|k: int| 0 <= k < f.len() && f[k].offset == c;
        assert(same_ingested(g[k], f[k]));
    }
}

/// Ingesting one function keeps every call resolved.
pub proof fn lemma_ingest_resolved(s0: Seq<Function>, s1: Seq<Function>, d: FunctionData)
    requires
        calls_resolved(s0),
        forall|a: u64|
            has_record(s1, a) <==> (has_record(s0, a) || a == d.offset || call_targets(
                d.references@,
            ).contains(a)),
        forall|i: int|
            0 <= i < s1.len() && s1[i].offset != d.offset ==> facts(#[trigger] s1[i])
                == prior_facts(s0, i),
        forall|i: int|
            0 <= i < s1.len() && s1[i].offset == d.offset ==> facts(#[trigger] s1[i]) == (
                d.name@,
                d.size,
                d.cc,
                prior_facts(s0, i).3 + call_targets(d.references@),
                prior_facts(s0, i).4 + d.operations@,
            ),
    ensures
        calls_resolved(s1),
{
    assert forall|i: int, j: int| 0 <= i < s1.len() && 0 <= j < s1[i].calls@.len() implies has_record(
        s1,
        #[trigger] s1[i].calls@[j],
    ) by {
        let c = s1[i].calls@[j];
        let p = prior_facts(s0, i).3;
        assert(facts(s1[i]).3 == s1[i].calls@);
        if j < p.len() {
            if s1[i].offset == d.offset {
                assert(s1[i].calls@[j] == p[j]);
            }
            assert(i < s0.len());
            assert(s0[i].calls@[j] == c);
            assert(has_record(s0, c));
        } else {
            let t = call_targets(d.references@);
            assert(s1[i].offset == d.offset);
            assert(t[j - p.len()] == c);
            assert(t.contains(c));
        }
    }
}

} // verus!
