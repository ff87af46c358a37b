use vstd::prelude::*;

verus! {

/// Weights, densities and scores are fixed-point numbers: one whole unit is
/// `SCORE_SCALE` units of the integer that holds it.
pub const SCORE_SCALE: u64 = 1_000_000_000;

/// `E_STEPS[k - 1]` is the least integer not below e^k, for k from 1 to 44.
/// e^45 exceeds `u64::MAX`, so these are all the steps a `u64` can reach.
pub const E_STEPS: [u64; 44] = [
    3, 8, 21, 55, 149, 404, 1097, 2981, 8104, 22027, 59875, 162755, 442414, 1202605, 3269018,
    8886111, 24154953, 65659970, 178482301, 485165196, 1318815735, 3584912847, 9744803447,
    26489122130, 72004899338, 195729609429, 532048240602, 1446257064292, 3931334297145,
    10686474581525, 29048849665248, 78962960182681, 214643579785917, 583461742527455,
    1586013452313431, 4311231547115196, 11719142372802612, 31855931757113757,
    86593400423993747, 235385266837019986, 639843493530054950, 1739274941520501048,
    4727839468229346562, 12851600114359308276,
];

/// How many of `steps` are at most `n`.
pub open spec fn steps_reached(steps: Seq<u64>, n: u64) -> nat
    decreases steps.len(),
{
    if steps.len() == 0 {
        0
    } else {
        steps_reached(steps.drop_last(), n) + if steps.last() <= n {
            1nat
        } else {
            0nat
        }
    }
}

/// floor(ln n) for n >= 1: the number of k >= 1 with e^k <= n. For n = 0,
/// where the logarithm is undefined, the term is clamped to 0.
pub open spec fn ln_floor(n: u64) -> nat {
    steps_reached(E_STEPS@, n)
}

/// The integer part of the natural logarithm of `n`, 0 for `n` of 0 or 1.
pub fn ln_floor_of(n: u64) -> (r: u64)
    ensures
        r == ln_floor(n),
        r <= 44,
{
    let steps: [u64; 44] = E_STEPS;
    let mut r: u64 = 0;
    let mut i: usize = 0;
    while i < 44
        invariant
            i <= 44,
            steps@ == E_STEPS@,
            E_STEPS@.len() == 44,
            r == steps_reached(E_STEPS@.take(i as int), n),
            r <= i,
        decreases 44 - i,
    {
        assert(E_STEPS@.take(i + 1).drop_last() =~= E_STEPS@.take(i as int));
        if steps[i] <= n {
            r = r + 1;
        }
        i = i + 1;
    }
    assert(E_STEPS@.take(44) =~= E_STEPS@);
    r
}

/// The share of memory operations among `total` operations, in `SCORE_SCALE`
/// units and rounded down; undefined (`None`) when there are no operations.
pub open spec fn density(memory: nat, total: nat) -> Option<u128> {
    if total == 0 {
        None
    } else {
        Some(((SCORE_SCALE as int * memory) / (total as int)) as u128)
    }
}

/// The composite score: sensitivity plus memory density, undefined when the
/// density is.
pub open spec fn combined(sensitivity: u128, density: Option<u128>) -> Option<u128> {
    match density {
        Some(d) => Some((sensitivity + d) as u128),
        None => None,
    }
}

/// Whether a score makes its function eligible as a target: defined and
/// strictly positive.
pub open spec fn is_positive(score: Option<u128>) -> bool {
    match score {
        Some(v) => v > 0,
        None => false,
    }
}

/// The ranking order: the higher defined score first, every defined score
/// before an undefined one, and equal scores by ascending address.
pub open spec fn ranks_before(sa: Option<u128>, aa: u64, sb: Option<u128>, ab: u64) -> bool {
    match (sa, sb) {
        (Some(x), Some(y)) => x > y || (x == y && aa < ab),
        (Some(_), None) => true,
        (None, Some(_)) => false,
        (None, None) => aa < ab,
    }
}

/// Whether the function at `aa` with score `sa` ranks before the one at `ab`.
pub fn rank_before(sa: Option<u128>, aa: u64, sb: Option<u128>, ab: u64) -> (r: bool)
    ensures
        r == ranks_before(sa, aa, sb, ab),
{
    match (sa, sb) {
        (Some(x), Some(y)) => x > y || (x == y && aa < ab),
        (Some(_), None) => true,
        (None, Some(_)) => false,
        (None, None) => aa < ab,
    }
}

/// The ranking order is a strict total order on distinct addresses.
pub proof fn lemma_ranks_before_order(
    sa: Option<u128>,
    aa: u64,
    sb: Option<u128>,
    ab: u64,
    sc: Option<u128>,
    ac: u64,
)
    ensures
        !ranks_before(sa, aa, sa, aa),
        aa != ab ==> (ranks_before(sa, aa, sb, ab) || ranks_before(sb, ab, sa, aa)),
        ranks_before(sa, aa, sb, ab) ==> !ranks_before(sb, ab, sa, aa),
        ranks_before(sa, aa, sb, ab) && ranks_before(sb, ab, sc, ac) ==> ranks_before(
            sa,
            aa,
            sc,
            ac,
        ),
{
}

} // verus!
