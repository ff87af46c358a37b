use vstd::prelude::*;
use crate::grouping::{group_functions, groups_of, lemma_members_same, ComplexityGroup};
use crate::ranking::{lookup_score, rank_functions, ranked_groups_of, score_of};
use crate::score::{combined, is_positive, ln_floor, ln_floor_of, SCORE_SCALE};
use crate::scoring::{
    call_sensitivity, density_bounded, lemma_sensitivity_same, memory_density,
    operations_density, sensitivity, sensitivity_cap,
};
use crate::sensitive::SensitiveTable;
use crate::store::{
    find, has_record, lemma_index_of, lemma_same_distinct, lemma_totals_same, offsets_distinct, record,
    same_ingested, total_callers, total_calls, call_targets, Function, FunctionData,
    mentions, feed_callers, feed_facts, facts, prior_facts, prior_callers, lemma_feed_silent,
    copies, occurrences, calls_resolved, lemma_same_resolved, lemma_ingest_resolved,
    ingest_function,
};

verus! {

/// One selected fuzz target.
pub struct TargetFunction {
    /// function address
    pub address: u64,
    /// function name
    pub name: String,
    /// function complexity index
    pub complexity: u64,
    /// vulnerability score, in `SCORE_SCALE` units
    pub vulnerability: u128,
}

impl View for TargetFunction {
    type V = (u64, Seq<char>, u64, u128);

    open spec fn view(&self) -> (u64, Seq<char>, u64, u128) {
        (self.address, self.name@, self.complexity, self.vulnerability)
    }
}

impl TargetFunction {
    /// A target with the given fields.
    pub fn new(address: u64, name: String, complexity: u64, vulnerability: u128) -> (r:
        TargetFunction)
        ensures
            r.address == address,
            r.name == name,
            r.complexity == complexity,
            r.vulnerability == vulnerability,
    {
        TargetFunction { address, name, complexity, vulnerability }
    }
}

/// The complexity index: floor(ln cc) (0 for cc = 0) plus the call-in count,
/// saturating at `u64::MAX`.
pub open spec fn complexity_index(cc: u64, x_f: u64) -> u64 {
    if ln_floor(cc) + x_f > u64::MAX {
        u64::MAX
    } else {
        (ln_floor(cc) + x_f) as u64
    }
}

/// The number of `CALL` references in `feed`.
pub open spec fn call_edges(feed: Seq<FunctionData>) -> nat
    decreases feed.len(),
{
    if feed.len() == 0 {
        0
    } else {
        call_edges(feed.drop_last()) + call_targets(feed.last().references@).len()
    }
}

/// The record `g` holds the three scores that `f` held.
pub open spec fn scores_kept(f: Function, g: Function) -> bool {
    &&& f.s_f == g.s_f
    &&& f.p_f == g.p_f
    &&& f.vulnerability_f == g.vulnerability_f
}

/// The function store, the complexity classes and the sensitive-function
/// table of one analysis run.
pub struct Analysis {
    pub functions: Vec<Function>,
    pub complexity_groups: Vec<ComplexityGroup>,
    pub sensitive_functions: SensitiveTable,
}

impl Analysis {
    /// Addresses are unique, the table is sound, every call edge has been
    /// recorded both at its caller and at its callee, and every called address
    /// has a record.
    pub open spec fn wf(&self) -> bool {
        &&& offsets_distinct(self.functions@)
        &&& self.sensitive_functions.wf()
        &&& total_callers(self.functions@) == total_calls(self.functions@)
        &&& calls_resolved(self.functions@)
    }

    /// An empty run with the given sensitive-function table.
    pub fn new(sensitive_functions: SensitiveTable) -> (r: Analysis)
        requires
            sensitive_functions.wf(),
        ensures
            r.wf(),
            r.functions@.len() == 0,
            r.complexity_groups@.len() == 0,
            r.sensitive_functions@ == sensitive_functions@,
    {
        Analysis { functions: Vec::new(), complexity_groups: Vec::new(), sensitive_functions }
    }

    /// Ingests the engine's report, one defined function after another.
    pub fn set_functions(&mut self, feed: Vec<FunctionData>)
        requires
            old(self).wf(),
        ensures
            final(self).wf(),
            final(self).sensitive_functions@ == old(self).sensitive_functions@,
            final(self).complexity_groups == old(self).complexity_groups,
            final(self).functions@.len() >= old(self).functions@.len(),
            forall|i: int|
                0 <= i < old(self).functions@.len() ==> final(self).functions@[i].offset
                    == old(self).functions@[i].offset,
            forall|a: u64|
                has_record(final(self).functions@, a) <==> (has_record(old(self).functions@, a)
                    || mentions(feed@, a)),
            forall|i: int|
                0 <= i < final(self).functions@.len() ==> #[trigger] final(self).functions@[i].callers@
                    == prior_callers(old(self).functions@, i) + feed_callers(
                    feed@,
                    final(self).functions@[i].offset,
                ),
            forall|i: int|
                0 <= i < final(self).functions@.len() ==> facts(#[trigger] final(self).functions@[i])
                    == feed_facts(
                    prior_facts(old(self).functions@, i),
                    feed@,
                    final(self).functions@[i].offset,
                ),
            total_calls(final(self).functions@) == total_calls(old(self).functions@) + call_edges(
                feed@,
            ),
    {
        let mut feed = feed;
        let ghost all = feed@;
        let ghost o = self.functions@;
        let ghost total = feed.len();
        let mut j: usize = 0;
        while feed.len() > 0
            invariant
                self.wf(),
                o == old(self).functions@,
                self.sensitive_functions@ == old(self).sensitive_functions@,
                self.complexity_groups == old(self).complexity_groups,
                j + feed@.len() == all.len(),
                all.len() == total,
                feed@ == all.subrange(j as int, all.len() as int),
                self.functions@.len() >= o.len(),
                forall|i: int| 0 <= i < o.len() ==> self.functions@[i].offset == o[i].offset,
                forall|a: u64|
                    has_record(self.functions@, a) <==> (has_record(o, a) || mentions(
                        all.take(j as int),
                        a,
                    )),
                forall|i: int|
                    0 <= i < self.functions@.len() ==> #[trigger] self.functions@[i].callers@
                        == prior_callers(o, i) + feed_callers(
                        all.take(j as int),
                        self.functions@[i].offset,
                    ),
                forall|i: int|
                    0 <= i < self.functions@.len() ==> facts(#[trigger] self.functions@[i])
                        == feed_facts(prior_facts(o, i), all.take(j as int), self.functions@[i].offset),
                total_calls(self.functions@) == total_calls(o) + call_edges(all.take(j as int)),
            decreases feed@.len(),
        {
            let data = feed.remove(0);
            assert(data == all[j as int]);
            let ghost d = data;
            let ghost s0 = self.functions@;
            ingest_function(&mut self.functions, data);
            proof {
                let pre = all.take(j as int);
                let post = all.take(j + 1);
                assert(post.drop_last() =~= pre);
                assert(post.last() == d);
                lemma_ingest_step(o, s0, self.functions@, pre, post, d);
                lemma_ingest_resolved(s0, self.functions@, d);
            }
            j = j + 1;
            assert(feed@ =~= all.subrange(j as int, all.len() as int));
        }
        assert(all.take(j as int) =~= all);
    }

    /// Sets each call-in count to the number of recorded callers.
    fn calculate_reference_relationship(&mut self)
        requires
            old(self).wf(),
        ensures
            final(self).wf(),
            final(self).complexity_groups == old(self).complexity_groups,
            final(self).sensitive_functions == old(self).sensitive_functions,
            final(self).functions@.len() == old(self).functions@.len(),
            forall|i: int|
                0 <= i < final(self).functions@.len() ==> same_ingested(
                    #[trigger] final(self).functions@[i],
                    old(self).functions@[i],
                ) && scores_kept(final(self).functions@[i], old(self).functions@[i])
                    && final(self).functions@[i].complex_f == old(self).functions@[i].complex_f
                    && final(self).functions@[i].x_f == final(self).functions@[i].callers@.len(),
    {
        let n = self.functions.len();
        let mut i: usize = 0;
        while i < n
            invariant
                n == self.functions@.len(),
                n == old(self).functions@.len(),
                i <= n,
                self.complexity_groups == old(self).complexity_groups,
                self.sensitive_functions == old(self).sensitive_functions,
                forall|k: int|
                    0 <= k < n ==> same_ingested(
                        #[trigger] self.functions@[k],
                        old(self).functions@[k],
                    ) && scores_kept(self.functions@[k], old(self).functions@[k])
                        && self.functions@[k].complex_f == old(self).functions@[k].complex_f,
                forall|k: int|
                    0 <= k < i ==> #[trigger] self.functions@[k].x_f
                        == self.functions@[k].callers@.len(),
            decreases n - i,
        {
            let c = self.functions[i].callers.len() as u64;
            self.functions[i].x_f = c;
            i = i + 1;
        }
        proof {
            lemma_totals_same(old(self).functions@, self.functions@);
            lemma_same_distinct(old(self).functions@, self.functions@);
            lemma_same_resolved(old(self).functions@, self.functions@);
        }
    }

    /// Sets each complexity index from the cyclomatic complexity and the
    /// call-in count.
    fn calculate_complexity_index(&mut self)
        requires
            old(self).wf(),
        ensures
            final(self).wf(),
            final(self).complexity_groups == old(self).complexity_groups,
            final(self).sensitive_functions == old(self).sensitive_functions,
            final(self).functions@.len() == old(self).functions@.len(),
            forall|i: int|
                0 <= i < final(self).functions@.len() ==> same_ingested(
                    #[trigger] final(self).functions@[i],
                    old(self).functions@[i],
                ) && final(self).functions@[i].x_f == old(self).functions@[i].x_f
                    && scores_kept(final(self).functions@[i], old(self).functions@[i])
                    && final(self).functions@[i].complex_f == complexity_index(
                    final(self).functions@[i].cc,
                    final(self).functions@[i].x_f,
                ),
    {
        let n = self.functions.len();
        let mut i: usize = 0;
        while i < n
            invariant
                n == self.functions@.len(),
                n == old(self).functions@.len(),
                i <= n,
                self.complexity_groups == old(self).complexity_groups,
                self.sensitive_functions == old(self).sensitive_functions,
                forall|k: int|
                    0 <= k < n ==> same_ingested(
                        #[trigger] self.functions@[k],
                        old(self).functions@[k],
                    ) && self.functions@[k].x_f == old(self).functions@[k].x_f
                        && scores_kept(self.functions@[k], old(self).functions@[k]),
                forall|k: int|
                    0 <= k < i ==> #[trigger] self.functions@[k].complex_f == complexity_index(
                        self.functions@[k].cc,
                        self.functions@[k].x_f,
                    ),
            decreases n - i,
        {
            let ln = ln_floor_of(self.functions[i].cc);
            let x = self.functions[i].x_f;
            let c = ln.saturating_add(x);
            self.functions[i].complex_f = c;
            i = i + 1;
        }
        proof {
            lemma_totals_same(old(self).functions@, self.functions@);
            lemma_same_distinct(old(self).functions@, self.functions@);
            lemma_same_resolved(old(self).functions@, self.functions@);
        }
    }

    /// Sets each sensitivity score from the function's calls and the table.
    fn calculate_sensitivity_function_call_index(&mut self)
        requires
            old(self).wf(),
        ensures
            final(self).wf(),
            final(self).complexity_groups == old(self).complexity_groups,
            final(self).sensitive_functions == old(self).sensitive_functions,
            final(self).functions@.len() == old(self).functions@.len(),
            forall|i: int|
                0 <= i < final(self).functions@.len() ==> same_ingested(
                    #[trigger] final(self).functions@[i],
                    old(self).functions@[i],
                ) && final(self).functions@[i].x_f == old(self).functions@[i].x_f
                    && final(self).functions@[i].complex_f == old(self).functions@[i].complex_f
                    && final(self).functions@[i].p_f == old(self).functions@[i].p_f
                    && final(self).functions@[i].vulnerability_f
                    == old(self).functions@[i].vulnerability_f
                    && final(self).functions@[i].s_f == sensitivity(
                    final(self).functions@,
                    final(self).sensitive_functions@,
                    final(self).functions@[i].calls@,
                ) && final(self).functions@[i].s_f <= sensitivity_cap(
                    final(self).functions@[i].calls@.len(),
                ),
    {
        let n = self.functions.len();
        let mut scores: Vec<u128> = Vec::new();
        let mut i: usize = 0;
        while i < n
            invariant
                n == self.functions@.len(),
                i <= n,
                self.wf(),
                scores@.len() == i,
                forall|k: int|
                    0 <= k < i ==> #[trigger] scores@[k] == sensitivity(
                        self.functions@,
                        self.sensitive_functions@,
                        self.functions@[k].calls@,
                    ) && scores@[k] <= sensitivity_cap(self.functions@[k].calls@.len()),
            decreases n - i,
        {
            let v = call_sensitivity(&self.functions, &self.sensitive_functions, &self.functions[i].calls);
            scores.push(v);
            i = i + 1;
        }
        let ghost o = self.functions@;
        i = 0;
        while i < n
            invariant
                n == self.functions@.len(),
                n == o.len(),
                o == old(self).functions@,
                i <= n,
                scores@.len() == n,
                self.complexity_groups == old(self).complexity_groups,
                self.sensitive_functions == old(self).sensitive_functions,
                forall|k: int|
                    0 <= k < n ==> same_ingested(#[trigger] self.functions@[k], o[k])
                        && self.functions@[k].x_f == o[k].x_f && self.functions@[k].complex_f
                        == o[k].complex_f && self.functions@[k].p_f == o[k].p_f
                        && self.functions@[k].vulnerability_f == o[k].vulnerability_f,
                forall|k: int| 0 <= k < i ==> #[trigger] self.functions@[k].s_f == scores@[k],
            decreases n - i,
        {
            self.functions[i].s_f = scores[i];
            i = i + 1;
        }
        proof {
            lemma_totals_same(o, self.functions@);
            lemma_same_distinct(o, self.functions@);
            lemma_same_resolved(o, self.functions@);
            assert forall|k: int| 0 <= k < n implies sensitivity(
                self.functions@,
                self.sensitive_functions@,
                #[trigger] self.functions@[k].calls@,
            ) == scores@[k] by {
                lemma_sensitivity_same(o, self.functions@, self.sensitive_functions@, o[k].calls@);
            }
        }
    }

    /// Sets each memory density from the function's operations.
    fn calculate_memory_operation_count(&mut self)
        requires
            old(self).wf(),
        ensures
            final(self).wf(),
            final(self).complexity_groups == old(self).complexity_groups,
            final(self).sensitive_functions == old(self).sensitive_functions,
            final(self).functions@.len() == old(self).functions@.len(),
            forall|i: int|
                0 <= i < final(self).functions@.len() ==> same_ingested(
                    #[trigger] final(self).functions@[i],
                    old(self).functions@[i],
                ) && final(self).functions@[i].x_f == old(self).functions@[i].x_f
                    && final(self).functions@[i].complex_f == old(self).functions@[i].complex_f
                    && final(self).functions@[i].s_f == old(self).functions@[i].s_f
                    && final(self).functions@[i].vulnerability_f
                    == old(self).functions@[i].vulnerability_f
                    && final(self).functions@[i].p_f == memory_density(
                    final(self).functions@[i].operation_list@,
                ) && density_bounded(final(self).functions@[i].p_f),
    {
        let n = self.functions.len();
        let mut i: usize = 0;
        while i < n
            invariant
                n == self.functions@.len(),
                n == old(self).functions@.len(),
                i <= n,
                self.complexity_groups == old(self).complexity_groups,
                self.sensitive_functions == old(self).sensitive_functions,
                forall|k: int|
                    0 <= k < n ==> same_ingested(
                        #[trigger] self.functions@[k],
                        old(self).functions@[k],
                    ) && self.functions@[k].x_f == old(self).functions@[k].x_f
                        && self.functions@[k].complex_f == old(self).functions@[k].complex_f
                        && self.functions@[k].s_f == old(self).functions@[k].s_f
                        && self.functions@[k].vulnerability_f
                        == old(self).functions@[k].vulnerability_f,
                forall|k: int|
                    0 <= k < i ==> #[trigger] self.functions@[k].p_f == memory_density(
                        self.functions@[k].operation_list@,
                    ) && density_bounded(self.functions@[k].p_f),
            decreases n - i,
        {
            let d = operations_density(&self.functions[i].operation_list);
            self.functions[i].p_f = d;
            i = i + 1;
        }
        proof {
            lemma_totals_same(old(self).functions@, self.functions@);
            lemma_same_distinct(old(self).functions@, self.functions@);
            lemma_same_resolved(old(self).functions@, self.functions@);
        }
    }

    /// Sets each vulnerability score: sensitivity plus memory density,
    /// undefined when the density is.
    fn calculate_vulnerability_feature_index(&mut self)
        requires
            old(self).wf(),
            forall|i: int|
                0 <= i < old(self).functions@.len() ==> (#[trigger] old(self).functions@[i]).s_f
                    <= sensitivity_cap(old(self).functions@[i].calls@.len())
                    && density_bounded(old(self).functions@[i].p_f),
        ensures
            final(self).wf(),
            final(self).complexity_groups == old(self).complexity_groups,
            final(self).sensitive_functions == old(self).sensitive_functions,
            final(self).functions@.len() == old(self).functions@.len(),
            forall|i: int|
                0 <= i < final(self).functions@.len() ==> same_ingested(
                    #[trigger] final(self).functions@[i],
                    old(self).functions@[i],
                ) && final(self).functions@[i].x_f == old(self).functions@[i].x_f
                    && final(self).functions@[i].complex_f == old(self).functions@[i].complex_f
                    && final(self).functions@[i].s_f == old(self).functions@[i].s_f
                    && final(self).functions@[i].p_f == old(self).functions@[i].p_f
                    && final(self).functions@[i].vulnerability_f == combined(
                    final(self).functions@[i].s_f,
                    final(self).functions@[i].p_f,
                ),
    {
        let n = self.functions.len();
        let mut i: usize = 0;
        while i < n
            invariant
                n == self.functions@.len(),
                n == old(self).functions@.len(),
                i <= n,
                self.complexity_groups == old(self).complexity_groups,
                self.sensitive_functions == old(self).sensitive_functions,
                forall|k: int|
                    0 <= k < n ==> same_ingested(
                        #[trigger] self.functions@[k],
                        old(self).functions@[k],
                    ) && self.functions@[k].x_f == old(self).functions@[k].x_f
                        && self.functions@[k].complex_f == old(self).functions@[k].complex_f
                        && self.functions@[k].s_f == old(self).functions@[k].s_f
                        && self.functions@[k].p_f == old(self).functions@[k].p_f,
                forall|k: int|
                    0 <= k < n ==> (#[trigger] old(self).functions@[k]).s_f <= sensitivity_cap(
                        old(self).functions@[k].calls@.len(),
                    ) && density_bounded(old(self).functions@[k].p_f),
                forall|k: int|
                    0 <= k < i ==> #[trigger] self.functions@[k].vulnerability_f == combined(
                        self.functions@[k].s_f,
                        self.functions@[k].p_f,
                    ),
            decreases n - i,
        {
            let s = self.functions[i].s_f;
            let n_calls = self.functions[i].calls.len();
            let v = match self.functions[i].p_f {
                Some(d) => {
                    proof {
                        let c = n_calls as nat;
                        assert(c == self.functions@[i as int].calls@.len());
                        assert(old(self).functions@[i as int].s_f <= sensitivity_cap(c));
                        assert(sensitivity_cap(c) <= sensitivity_cap(usize::MAX as nat))
                            by (nonlinear_arith)
                            requires c <= usize::MAX;
                        assert(sensitivity_cap(usize::MAX as nat) + SCORE_SCALE <= u128::MAX)
                            by (nonlinear_arith);
                    }
                    Some(s + d)
                },
                None => None,
            };
            self.functions[i].vulnerability_f = v;
            i = i + 1;
        }
        proof {
            lemma_totals_same(old(self).functions@, self.functions@);
            lemma_same_distinct(old(self).functions@, self.functions@);
            lemma_same_resolved(old(self).functions@, self.functions@);
        }
    }

    /// Derives the call-in counts and complexity indexes and builds the
    /// complexity classes.
    fn complexity_grouping(&mut self)
        requires
            old(self).wf(),
        ensures
            final(self).wf(),
            final(self).sensitive_functions == old(self).sensitive_functions,
            final(self).functions@.len() == old(self).functions@.len(),
            forall|i: int|
                0 <= i < final(self).functions@.len() ==> same_ingested(
                    #[trigger] final(self).functions@[i],
                    old(self).functions@[i],
                ) && final(self).functions@[i].x_f == final(self).functions@[i].callers@.len()
                    && final(self).functions@[i].complex_f == complexity_index(
                    final(self).functions@[i].cc,
                    final(self).functions@[i].x_f,
                ),
            groups_of(final(self).functions@, final(self).complexity_groups@),
    {
        self.calculate_reference_relationship();
        self.calculate_complexity_index();
        self.complexity_groups = group_functions(&self.functions);
    }

    /// Derives the sensitivity, memory-density and vulnerability scores and
    /// ranks the members of every complexity class.
    fn vulnerability_feature_ranking(&mut self)
        requires
            old(self).wf(),
            groups_of(old(self).functions@, old(self).complexity_groups@),
        ensures
            final(self).wf(),
            final(self).sensitive_functions == old(self).sensitive_functions,
            final(self).functions@.len() == old(self).functions@.len(),
            forall|i: int|
                0 <= i < final(self).functions@.len() ==> same_ingested(
                    #[trigger] final(self).functions@[i],
                    old(self).functions@[i],
                ) && final(self).functions@[i].x_f == old(self).functions@[i].x_f
                    && final(self).functions@[i].complex_f == old(self).functions@[i].complex_f
                    && scored(final(self).functions@, final(self).sensitive_functions@, i),
            ranked_groups_of(final(self).functions@, final(self).complexity_groups@),
    {
        let ghost o = self.functions@;
        self.calculate_sensitivity_function_call_index();
        let ghost a = self.functions@;
        self.calculate_memory_operation_count();
        self.calculate_vulnerability_feature_index();
        proof {
            let f = self.functions@;
            let t = self.sensitive_functions@;
            assert forall|i: int| 0 <= i < f.len() implies same_ingested(#[trigger] f[i], a[i]) by {}
            assert forall|i: int| 0 <= i < f.len() implies same_ingested(#[trigger] f[i], o[i])
                && f[i].complex_f == o[i].complex_f by {
                assert(same_ingested(f[i], a[i]));
                assert(same_ingested(a[i], o[i]));
            }
            assert forall|i: int| 0 <= i < f.len() implies scored(f, t, i) by {
                assert(same_ingested(f[i], a[i]));
                lemma_sensitivity_same(a, f, t, a[i].calls@);
            }
            lemma_members_same(o, f, self.complexity_groups@);
        }
        rank_functions(&self.functions, &mut self.complexity_groups);
    }

    /// Runs every stage on the ingested store: call-in counts, complexity
    /// indexes and classes, the three scores, and the ranking in each class.
    pub fn analyze(&mut self)
        requires
            old(self).wf(),
        ensures
            final(self).wf(),
            final(self).sensitive_functions@ == old(self).sensitive_functions@,
            final(self).functions@.len() == old(self).functions@.len(),
            forall|i: int|
                0 <= i < final(self).functions@.len() ==> same_ingested(
                    #[trigger] final(self).functions@[i],
                    old(self).functions@[i],
                ) && measured(final(self).functions@, final(self).sensitive_functions@, i),
            ranked_groups_of(final(self).functions@, final(self).complexity_groups@),
    {
        let ghost o = self.functions@;
        self.complexity_grouping();
        let ghost a = self.functions@;
        self.vulnerability_feature_ranking();
        proof {
            let f = self.functions@;
            assert forall|i: int| 0 <= i < f.len() implies same_ingested(#[trigger] f[i], o[i]) by {
                assert(same_ingested(f[i], a[i]));
                assert(same_ingested(a[i], o[i]));
            }
        }
    }

    /// The targets: walking the classes in ascending order of index, the first
    /// ranked member of each whose score is defined and positive.
    pub fn export(&self) -> (out: Vec<TargetFunction>)
        requires
            self.wf(),
        ensures
            out@.len() == exported(self.functions@, self.complexity_groups@).len(),
            forall|i: int|
                0 <= i < out@.len() ==> #[trigger] out@[i]@ == exported(
                    self.functions@,
                    self.complexity_groups@,
                )[i],
    {
        let fs = &self.functions;
        let groups = &self.complexity_groups;
        let mut out: Vec<TargetFunction> = Vec::new();
        let n = groups.len();
        let mut g: usize = 0;
        while g < n
            invariant
                n == groups@.len(),
                g <= n,
                offsets_distinct(fs@),
                out@.len() == exported(fs@, groups@.take(g as int)).len(),
                forall|i: int|
                    0 <= i < out@.len() ==> #[trigger] out@[i]@ == exported(
                        fs@,
                        groups@.take(g as int),
                    )[i],
            decreases n - g,
        {
            let ghost before = out@;
            assert(groups@.take(g + 1).drop_last() =~= groups@.take(g as int));
            let members = &groups[g].functions;
            let m = members.len();
            let mut j: usize = 0;
            let mut done = false;
            assert(members@.subrange(0, m as int) =~= members@);
            while j < m && !done
                invariant
                    n == groups@.len(),
                    g < n,
                    members@ == groups@[g as int].functions@,
                    m == members@.len(),
                    j <= m,
                    offsets_distinct(fs@),
                    done ==> out@.len() == before.len() + 1 && out@.drop_last() == before && pick(
                        fs@,
                        members@,
                    ) == Some(out@.last().address) && out@.last()@ == target_of(
                        fs@,
                        out@.last().address,
                        groups@[g as int].complex_f,
                    ),
                    !done ==> out@ == before && pick(fs@, members@) == pick(
                        fs@,
                        members@.subrange(j as int, m as int),
                    ),
                decreases m - j,
            {
                let a = members[j];
                let sa = lookup_score(fs, a);
                assert(members@.subrange(j as int, m as int).drop_first() =~= members@.subrange(
                    j + 1,
                    m as int,
                ));
                match sa {
                    Some(v) => {
                        if v > 0 {
                            let k = find(fs, a).unwrap();
                            proof {
                                lemma_index_of(fs@, k as int);
                            }
                            let t = TargetFunction::new(
                                a,
                                fs[k].name.clone(),
                                groups[g].complex_f,
                                v,
                            );
                            out.push(t);
                            done = true;
                            assert(out@.drop_last() =~= before);
                        }
                    },
                    None => {},
                }
                j = j + 1;
            }
            proof {
                if !done {
                    assert(members@.subrange(m as int, m as int).len() == 0);
                }
                assert forall|i: int| 0 <= i < out@.len() implies #[trigger] out@[i]@ == exported(
                    fs@,
                    groups@.take(g + 1),
                )[i] by {
                    if i < before.len() {
                        assert(out@[i] == before[i]);
                    }
                }
            }
            g = g + 1;
        }
        assert(groups@.take(n as int) =~= groups@);
        out
    }
}

/// Every score of the record at position `i` is what its facts give.
pub open spec fn scored(fs: Seq<Function>, table: Map<Seq<char>, u64>, i: int) -> bool {
    &&& fs[i].s_f == sensitivity(fs, table, fs[i].calls@)
    &&& fs[i].p_f == memory_density(fs[i].operation_list@)
    &&& fs[i].vulnerability_f == combined(fs[i].s_f, fs[i].p_f)
}

/// Every derived measure of the record at position `i` is what its facts give.
pub open spec fn measured(fs: Seq<Function>, table: Map<Seq<char>, u64>, i: int) -> bool {
    &&& fs[i].x_f == fs[i].callers@.len()
    &&& fs[i].complex_f == complexity_index(fs[i].cc, fs[i].x_f)
    &&& scored(fs, table, i)
}

/// The first member of `m` whose score is defined and positive.
pub open spec fn pick(fs: Seq<Function>, m: Seq<u64>) -> Option<u64>
    decreases m.len(),
{
    if m.len() == 0 {
        None
    } else if is_positive(score_of(fs, m[0])) {
        Some(m[0])
    } else {
        pick(fs, m.drop_first())
    }
}

/// The target record for the function at `a` in the class `complexity`.
pub open spec fn target_of(fs: Seq<Function>, a: u64, complexity: u64) -> (u64, Seq<char>, u64, u128) {
    (
        a,
        record(fs, a).name@,
        complexity,
        match score_of(fs, a) {
            Some(v) => v,
            None => 0,
        },
    )
}

/// What export yields for the classes `groups`: per class, in order, the
/// target for its pick, if it has one.
pub open spec fn exported(fs: Seq<Function>, groups: Seq<ComplexityGroup>) -> Seq<(u64, Seq<char>, u64, u128)>
    decreases groups.len(),
{
    if groups.len() == 0 {
        Seq::empty()
    } else {
        let e = exported(fs, groups.drop_last());
        match pick(fs, groups.last().functions@) {
            Some(a) => e.push(target_of(fs, a, groups.last().complex_f)),
            None => e,
        }
    }
}

/// One more ingested function carries the feed-level description of the
/// store over from `pre` to `post`.
proof fn lemma_ingest_step(
    o: Seq<Function>,
    s0: Seq<Function>,
    s1: Seq<Function>,
    pre: Seq<FunctionData>,
    post: Seq<FunctionData>,
    d: FunctionData,
)
    requires
        post.len() == pre.len() + 1,
        post.drop_last() == pre,
        post.last() == d,
        offsets_distinct(s1),
        s0.len() >= o.len(),
        forall|i: int| 0 <= i < o.len() ==> s0[i].offset == o[i].offset,
        forall|a: u64| has_record(s0, a) <==> (has_record(o, a) || mentions(pre, a)),
        forall|i: int|
            0 <= i < s0.len() ==> #[trigger] s0[i].callers@ == prior_callers(o, i) + feed_callers(
                pre,
                s0[i].offset,
            ),
        forall|i: int|
            0 <= i < s0.len() ==> facts(#[trigger] s0[i]) == feed_facts(
                prior_facts(o, i),
                pre,
                s0[i].offset,
            ),
        s1.len() >= s0.len(),
        forall|i: int| 0 <= i < s0.len() ==> s1[i].offset == s0[i].offset,
        forall|a: u64|
            has_record(s1, a) <==> (has_record(s0, a) || a == d.offset || call_targets(
                d.references@,
            ).contains(a)),
        forall|i: int|
            0 <= i < s1.len() ==> #[trigger] s1[i].callers@ == prior_callers(s0, i) + copies(
                occurrences(call_targets(d.references@), s1[i].offset),
                d.offset,
            ),
        forall|i: int|
            0 <= i < s1.len() && s1[i].offset != d.offset ==> facts(#[trigger] s1[i])
                == prior_facts(s0, i),
        forall|i: int|
            0 <= i < s1.len() && s1[i].offset == d.offset ==> facts(#[trigger] s1[i]) == (
                d.name@,
                d.size,
                d.cc,
                prior_facts(s0, i).3 + call_targets(d.references@),
                prior_facts(s0, i).4 + d.operations@,
            ),
    ensures
        forall|i: int| 0 <= i < o.len() ==> s1[i].offset == o[i].offset,
        forall|a: u64| has_record(s1, a) <==> (has_record(o, a) || mentions(post, a)),
        forall|i: int|
            0 <= i < s1.len() ==> #[trigger] s1[i].callers@ == prior_callers(o, i) + feed_callers(
                post,
                s1[i].offset,
            ),
        forall|i: int|
            0 <= i < s1.len() ==> facts(#[trigger] s1[i]) == feed_facts(
                prior_facts(o, i),
                post,
                s1[i].offset,
            ),
{
    let last = post.len() - 1;
    assert(post[last] == d);
    assert forall|a: u64| mentions(post, a) <==> (mentions(pre, a) || a == d.offset
        || call_targets(d.references@).contains(a)) by {
        if mentions(pre, a) {
            let i = choose|i: int|
                0 <= i < pre.len() && (pre[i].offset == a || call_targets(pre[i].references@).contains(a));
            assert(post[i] == pre[i]);
        }
        if mentions(post, a) {
            let i = choose|i: int|
                0 <= i < post.len() && (post[i].offset == a || call_targets(post[i].references@).contains(a));
            if i < pre.len() {
                assert(post[i] == pre[i]);
            }
        }
    }
    assert forall|i: int| 0 <= i < o.len() implies s1[i].offset == o[i].offset by {
        assert(s1[i].offset == s0[i].offset);
    }
    assert forall|i: int| 0 <= i < s1.len() implies (#[trigger] s1[i]).callers@ == prior_callers(o, i)
        + feed_callers(post, s1[i].offset) && facts(s1[i]) == feed_facts(
        prior_facts(o, i),
        post,
        s1[i].offset,
    ) by {
        let a = s1[i].offset;
        if i < s0.len() {
            assert(s0[i].offset == a);
            assert(s0[i].callers@ == prior_callers(o, i) + feed_callers(pre, a));
            assert(s1[i].callers@ =~= prior_callers(o, i) + feed_callers(post, a));
            assert(facts(s0[i]) == feed_facts(prior_facts(o, i), pre, a));
            assert(prior_facts(s0, i) == facts(s0[i]));
            let q = feed_facts(prior_facts(o, i), pre, a);
            if a == d.offset {
                assert(feed_facts(prior_facts(o, i), post, a) == (
                    d.name@,
                    d.size,
                    d.cc,
                    q.3 + call_targets(d.references@),
                    q.4 + d.operations@,
                ));
            } else {
                assert(feed_facts(prior_facts(o, i), post, a) == q);
            }
            assert(facts(s1[i]) == feed_facts(prior_facts(o, i), post, a));
        } else {
            assert(!has_record(s0, a)) by {
                if has_record(s0, a) {
                    let k = choose|k: int| 0 <= k < s0.len() && s0[k].offset == a;
                    assert(s1[k].offset == a);
                }
            }
            assert(!mentions(pre, a));
            lemma_feed_silent(prior_facts(o, i), pre, a);
            assert(prior_callers(o, i) =~= Seq::<u64>::empty());
            assert(prior_callers(s0, i) =~= Seq::<u64>::empty());
            assert(s1[i].callers@ =~= prior_callers(o, i) + feed_callers(post, a));
            assert(prior_facts(o, i) == prior_facts(s0, i));
            let q = prior_facts(o, i);
            if a == d.offset {
                assert(feed_facts(q, post, a) == (
                    d.name@,
                    d.size,
                    d.cc,
                    q.3 + call_targets(d.references@),
                    q.4 + d.operations@,
                ));
            } else {
                assert(feed_facts(q, post, a) == q);
            }
            assert(facts(s1[i]) == feed_facts(prior_facts(o, i), post, a));
        }
    }
}

} // verus!
