use vstd::prelude::*;

use crate::floatbits::{float_gt, float_is_zero, gt_bits, is_nan, is_nan_bits, order_key, ONE, POSITIVE_ZERO};

verus! {

/// Multiplier of the xorshift* output step.
pub const XORSHIFT_MULTIPLIER: u64 = 0x2545_f491_4f6c_dd1d;

/// The xorshift state that follows `s`.
pub open spec fn xorshift_next(s: u64) -> u64 {
    let a = s ^ (s >> 12u64);
    let b = a ^ (a << 25u64);
    b ^ (b >> 27u64)
}

/// The 32 random bits drawn from the state `s` (already advanced).
pub open spec fn xorshift_output(s: u64) -> u32 {
    (s.wrapping_mul(XORSHIFT_MULTIPLIER) >> 32u64) as u32
}

/// The state after `n` draws from `seed`.
pub open spec fn xorshift_iterate(seed: u64, n: nat) -> u64
    decreases n,
{
    if n == 0 {
        seed
    } else {
        xorshift_next(xorshift_iterate(seed, (n - 1) as nat))
    }
}

/// `a <= b` on the binary32 values with these bit patterns: false when either is a NaN.
pub open spec fn float_le(a: u32, b: u32) -> bool {
    !is_nan(a) && !is_nan(b) && order_key(a) <= order_key(b)
}

/// A probability, as a binary32 bit pattern, and the token it belongs to.
#[derive(Clone, Copy, Debug, PartialEq, Eq, Structural)]
pub struct ProbIndex {
    pub prob_bits: u32,
    pub index: usize,
}

/// `a` comes before `b` among nucleus candidates: higher probability first, the higher
/// index first among equal probabilities.
pub open spec fn ranks_before(a: ProbIndex, b: ProbIndex) -> bool {
    order_key(a.prob_bits) > order_key(b.prob_bits) || (order_key(a.prob_bits) == order_key(
        b.prob_bits,
    ) && a.index > b.index)
}

/// `a >= b` on the binary32 values with these bit patterns: false when either is a NaN.
pub open spec fn float_ge(a: u32, b: u32) -> bool {
    float_le(b, a)
}

proof fn lemma_ranks_before_transitive(a: ProbIndex, b: ProbIndex, c: ProbIndex)
    requires
        ranks_before(a, b),
        ranks_before(b, c),
    ensures
        ranks_before(a, c),
{
}

/// The nucleus candidates of `probs`: every token whose probability is at least `cutoff`,
/// ordered by `ranks_before`.
pub fn nucleus_candidates(probs: &[u32], cutoff_bits: u32) -> (r: Vec<ProbIndex>)
    ensures
        forall|k: int|
            0 <= k < r@.len() ==> {
                &&& (#[trigger] r@[k]).index < probs@.len()
                &&& r@[k].prob_bits == probs@[r@[k].index as int]
                &&& float_ge(r@[k].prob_bits, cutoff_bits)
            },
        forall|i: int|
            0 <= i < probs@.len() && float_ge(#[trigger] probs@[i], cutoff_bits) ==> exists|k: int|
                0 <= k < r@.len() && #[trigger] r@[k].index == i,
        forall|a: int, b: int| 0 <= a < b < r@.len() ==> ranks_before(#[trigger] r@[a], #[trigger] r@[b]),
{
    let mut v: Vec<ProbIndex> = Vec::new();
    let mut i: usize = 0;
    while i < probs.len()
        invariant
            0 <= i <= probs@.len(),
            forall|k: int|
                0 <= k < v@.len() ==> {
                    &&& (#[trigger] v@[k]).index < i
                    &&& v@[k].prob_bits == probs@[v@[k].index as int]
                    &&& float_ge(v@[k].prob_bits, cutoff_bits)
                },
            forall|j: int|
                0 <= j < i && float_ge(#[trigger] probs@[j], cutoff_bits) ==> exists|k: int|
                    0 <= k < v@.len() && #[trigger] v@[k].index == j,
            forall|a: int, b: int| 0 <= a < b < v@.len() ==> ranks_before(#[trigger] v@[a], #[trigger] v@[b]),
        decreases probs@.len() - i,
    {
        let p = probs[i];
        let keep = !is_nan_bits(p) && !is_nan_bits(cutoff_bits) && !gt_bits(cutoff_bits, p);
        if keep {
            let item = ProbIndex { prob_bits: p, index: i };
            let mut lo: usize = 0;
            let mut hi: usize = v.len();
            while lo < hi
                invariant
                    0 <= lo <= hi <= v@.len(),
                    item.index == i,
                    item.prob_bits == p,
                    forall|k: int| 0 <= k < v@.len() ==> (#[trigger] v@[k]).index < i,
                    forall|a: int, b: int|
                        0 <= a < b < v@.len() ==> ranks_before(#[trigger] v@[a], #[trigger] v@[b]),
                    forall|k: int| 0 <= k < lo ==> ranks_before(#[trigger] v@[k], item),
                    forall|k: int| hi <= k < v@.len() ==> ranks_before(item, #[trigger] v@[k]),
                decreases hi - lo,
            {
                let mid = lo + (hi - lo) / 2;
                let other = v[mid];
                if key_of(other.prob_bits) > key_of(p) {
                    proof {
                        assert(ranks_before(other, item));
                        assert forall|k: int| 0 <= k < mid + 1 implies ranks_before(#[trigger] v@[k], item) by {
                            if k < mid {
                                lemma_ranks_before_transitive(v@[k], other, item);
                            }
                        }
                    }
                    lo = mid + 1;
                } else {
                    proof {
                        assert(ranks_before(item, other));
                        assert forall|k: int| mid <= k < v@.len() implies ranks_before(item, #[trigger] v@[k]) by {
                            if k > mid {
                                lemma_ranks_before_transitive(item, other, v@[k]);
                            }
                        }
                    }
                    hi = mid;
                }
            }
            let ghost old_v = v@;
            v.insert(lo, item);
            proof {
                assert(v@ == old_v.insert(lo as int, item));
                assert forall|a: int, b: int| 0 <= a < b < v@.len() implies ranks_before(#[trigger] v@[a], #[trigger] v@[b]) by {
                    if a < lo as int && b < lo as int {
                        assert(v@[a] == old_v[a] && v@[b] == old_v[b]);
                    } else if a < lo as int && b == lo as int {
                    } else if a < lo as int {
                        assert(v@[a] == old_v[a] && v@[b] == old_v[b - 1]);
                    } else if a == lo as int {
                        assert(v@[b] == old_v[b - 1]);
                    } else {
                        assert(v@[a] == old_v[a - 1] && v@[b] == old_v[b - 1]);
                    }
                }
                assert forall|k: int| 0 <= k < v@.len() implies {
                    &&& (#[trigger] v@[k]).index < i + 1
                    &&& v@[k].prob_bits == probs@[v@[k].index as int]
                    &&& float_ge(v@[k].prob_bits, cutoff_bits)
                } by {
                    if k < lo {
                        assert(v@[k] == old_v[k]);
                    } else if k > lo {
                        assert(v@[k] == old_v[k - 1]);
                    }
                }
                assert forall|j: int|
                    0 <= j < i + 1 && float_ge(#[trigger] probs@[j], cutoff_bits) implies exists|k: int|
                    0 <= k < v@.len() && #[trigger] v@[k].index == j by {
                    if j == i {
                        assert(v@[lo as int].index == j);
                    } else {
                        let m = choose|m: int| 0 <= m < old_v.len() && #[trigger] old_v[m].index == j;
                        if m < lo {
                            assert(v@[m].index == j);
                        } else {
                            assert(v@[m + 1].index == j);
                        }
                    }
                }
            }
        } else {
            proof {
                assert(!float_ge(probs@[i as int], cutoff_bits));
            }
        }
        i = i + 1;
    }
    v
}

/// `order_key` of a bit pattern.
fn key_of(b: u32) -> (r: i64)
    ensures
        r == order_key(b),
{
    if b >= 0x8000_0000 {
        -((b - 0x8000_0000) as i64)
    } else {
        b as i64
    }
}

/// How the next token is picked.
#[derive(Clone, Copy, Debug, PartialEq, Eq, Structural)]
pub enum SampleMode {
    /// Zero temperature: the highest logit.
    Greedy,
    /// A draw from the whole distribution.
    Multinomial,
    /// A draw from the smallest set of tokens that covers `topp` of the probability.
    Nucleus,
}

/// The mode for these settings: greedy at temperature zero; the whole distribution when
/// `topp` is not strictly between zero and one.
pub open spec fn mode_of(temperature_bits: u32, topp_bits: u32) -> SampleMode {
    if float_is_zero(temperature_bits) {
        SampleMode::Greedy
    } else if float_le(topp_bits, POSITIVE_ZERO) || float_le(ONE, topp_bits) {
        SampleMode::Multinomial
    } else {
        SampleMode::Nucleus
    }
}

/// Index of the largest of the first `k` logits, the first one among equals; a logit
/// replaces the current best only when it compares greater.
pub open spec fn argmax_upto(logits: Seq<u32>, k: nat) -> int
    decreases k,
{
    if k <= 1 {
        0
    } else {
        let m = argmax_upto(logits, (k - 1) as nat);
        if float_gt(logits[k - 1], logits[m]) {
            k - 1
        } else {
            m
        }
    }
}

/// What the sampler decided for one step.
#[derive(Clone, Copy, Debug, PartialEq, Eq, Structural)]
pub enum SampleStep {
    /// The token is known: the greedy choice.
    Token(usize),
    /// Draw from the softmax of the tempered logits with the uniform number
    /// `coin / 2^24`, over the whole distribution or the nucleus.
    Draw { coin: u32, nucleus: bool },
}

/// Settings and random state of token sampling. Floating-point settings are held as
/// their binary32 bit patterns.
#[derive(Clone, Copy, Debug, PartialEq, Eq, Structural)]
pub struct Sampler {
    pub temperature_bits: u32,
    pub topp_bits: u32,
    pub rng_state: u64,
    pub vocab_size: i32,
}

/// One step of the sampler in state `s` on `logits`: the decision and the next state.
pub open spec fn sample_spec(s: Sampler, logits: Seq<u32>) -> (SampleStep, Sampler) {
    let mode = mode_of(s.temperature_bits, s.topp_bits);
    if mode == SampleMode::Greedy {
        (SampleStep::Token(argmax_upto(logits, logits.len()) as usize), s)
    } else {
        let next = xorshift_next(s.rng_state);
        (
            SampleStep::Draw { coin: xorshift_output(next) / 256, nucleus: mode == SampleMode::Nucleus },
            Sampler { rng_state: next, ..s },
        )
    }
}

/// The decisions of a sampler started in `s` over successive logits.
pub open spec fn run_sampler(s: Sampler, ls: Seq<Seq<u32>>) -> Seq<SampleStep>
    decreases ls.len(),
{
    if ls.len() == 0 {
        Seq::empty()
    } else {
        let (step, next) = sample_spec(s, ls[0]);
        seq![step] + run_sampler(next, ls.drop_first())
    }
}

impl Sampler {
    pub fn new(temperature_bits: u32, topp_bits: u32, rng_state: u64, vocab_size: i32) -> (r: Sampler)
        ensures
            r == (Sampler { temperature_bits, topp_bits, rng_state, vocab_size }),
    {
        Sampler { temperature_bits, topp_bits, rng_state, vocab_size }
    }

    pub fn mode(&self) -> (r: SampleMode)
        ensures
            r == mode_of(self.temperature_bits, self.topp_bits),
    {
        if self.temperature_bits == POSITIVE_ZERO || self.temperature_bits == crate::floatbits::NEGATIVE_ZERO {
            SampleMode::Greedy
        } else if !is_nan_bits(self.topp_bits) && (!gt_bits(self.topp_bits, POSITIVE_ZERO)
            || !gt_bits(ONE, self.topp_bits)) {
            SampleMode::Multinomial
        } else {
            SampleMode::Nucleus
        }
    }

    /// Index of the highest logit, the lowest index among equal ones.
    pub fn sample_argmax(logits: &[u32]) -> (r: usize)
        requires
            logits@.len() > 0,
        ensures
            r == argmax_upto(logits@, logits@.len()),
            r < logits@.len(),
    {
        let mut max_i: usize = 0;
        let mut i: usize = 1;
        while i < logits.len()
            invariant
                1 <= i <= logits@.len(),
                max_i == argmax_upto(logits@, i as nat),
                max_i < i,
            decreases logits@.len() - i,
        {
            if gt_bits(logits[i], logits[max_i]) {
                max_i = i;
            }
            i = i + 1;
        }
        max_i
    }

    /// Advances the xorshift state and returns 32 random bits.
    pub fn random_u32(&mut self) -> (r: u32)
        ensures
            final(self).rng_state == xorshift_next(old(self).rng_state),
            r == xorshift_output(final(self).rng_state),
            final(self).temperature_bits == old(self).temperature_bits,
            final(self).topp_bits == old(self).topp_bits,
            final(self).vocab_size == old(self).vocab_size,
    {
        let mut s = self.rng_state;
        s = s ^ (s >> 12u64);
        s = s ^ (s << 25u64);
        s = s ^ (s >> 27u64);
        self.rng_state = s;
        (s.wrapping_mul(XORSHIFT_MULTIPLIER) >> 32u64) as u32
    }

    /// Picks the next token from logits given as binary32 bit patterns, or, away from
    /// zero temperature, draws the uniform number for the caller's draw from the
    /// distribution (the random state advances only then).
    pub fn sample(&mut self, logits: &[u32]) -> (r: SampleStep)
        requires
            logits@.len() > 0,
        ensures
            (r, *final(self)) == sample_spec(*old(self), logits@),
    {
        match self.mode() {
            SampleMode::Greedy => SampleStep::Token(Sampler::sample_argmax(logits)),
            mode => {
                let bits = self.random_u32();
                SampleStep::Draw { coin: bits / 256, nucleus: mode == SampleMode::Nucleus }
            },
        }
    }
}

proof fn lemma_argmax_upto(logits: Seq<u32>, k: nat)
    requires
        1 <= k <= logits.len(),
        forall|i: int| 0 <= i < logits.len() ==> !is_nan(#[trigger] logits[i]),
    ensures
        0 <= argmax_upto(logits, k) < k,
        forall|j: int|
            0 <= j < k ==> order_key(#[trigger] logits[j]) <= order_key(logits[argmax_upto(logits, k)]),
        forall|j: int|
            0 <= j < argmax_upto(logits, k) ==> order_key(#[trigger] logits[j]) < order_key(
                logits[argmax_upto(logits, k)],
            ),
    decreases k,
{
    if k > 1 {
        lemma_argmax_upto(logits, (k - 1) as nat);
        assert(!is_nan(logits[k - 1]));
    }
}

/// Greedy choice: with no NaN among the logits, `sample_argmax` returns the lowest index
/// of a largest logit.
pub proof fn lemma_argmax_is_first_maximum(logits: Seq<u32>)
    requires
        logits.len() > 0,
        forall|i: int| 0 <= i < logits.len() ==> !is_nan(#[trigger] logits[i]),
    ensures
        ({
            let r = argmax_upto(logits, logits.len());
            &&& 0 <= r < logits.len()
            &&& forall|j: int| 0 <= j < logits.len() ==> order_key(#[trigger] logits[j]) <= order_key(logits[r])
            &&& forall|j: int| 0 <= j < r ==> order_key(#[trigger] logits[j]) < order_key(logits[r])
        }),
{
    lemma_argmax_upto(logits, logits.len());
}

/// At temperature zero every step is the greedy choice on its own logits, and the
/// sampler's state never changes.
pub proof fn lemma_greedy_run(s: Sampler, ls: Seq<Seq<u32>>, k: int)
    requires
        mode_of(s.temperature_bits, s.topp_bits) == SampleMode::Greedy,
        0 <= k < ls.len(),
    ensures
        run_sampler(s, ls)[k] == SampleStep::Token(argmax_upto(ls[k], ls[k].len()) as usize),
    decreases k,
{
    lemma_run_sampler_unfold(s, ls);
    if k > 0 {
        lemma_greedy_run(s, ls.drop_first(), k - 1);
        assert(ls.drop_first()[k - 1] == ls[k]);
    }
}

proof fn lemma_run_sampler_len(s: Sampler, ls: Seq<Seq<u32>>)
    ensures
        run_sampler(s, ls).len() == ls.len(),
    decreases ls.len(),
{
    if ls.len() > 0 {
        lemma_run_sampler_len(sample_spec(s, ls[0]).1, ls.drop_first());
    }
}

proof fn lemma_run_sampler_unfold(s: Sampler, ls: Seq<Seq<u32>>)
    requires
        ls.len() > 0,
    ensures
        run_sampler(s, ls).len() == ls.len(),
        run_sampler(s, ls)[0] == sample_spec(s, ls[0]).0,
        forall|k: int|
            1 <= k < ls.len() ==> #[trigger] run_sampler(s, ls)[k] == run_sampler(
                sample_spec(s, ls[0]).1,
                ls.drop_first(),
            )[k - 1],
{
    lemma_run_sampler_len(s, ls);
    lemma_run_sampler_len(sample_spec(s, ls[0]).1, ls.drop_first());
}

proof fn lemma_iterate_shift(seed: u64, n: nat)
    ensures
        xorshift_iterate(xorshift_next(seed), n) == xorshift_iterate(seed, n + 1),
    decreases n,
{
    if n > 0 {
        lemma_iterate_shift(seed, (n - 1) as nat);
        assert(xorshift_iterate(xorshift_next(seed), n) == xorshift_next(
            xorshift_iterate(xorshift_next(seed), (n - 1) as nat),
        ));
        assert(xorshift_iterate(seed, n + 1) == xorshift_next(xorshift_iterate(seed, n)));
    } else {
        assert(xorshift_iterate(seed, 1) == xorshift_next(xorshift_iterate(seed, 0)));
    }
}

/// Away from temperature zero, the `k`-th draw is fixed by the seed alone: the same seed
/// gives the same uniform numbers, whatever the logits.
pub proof fn lemma_draws_follow_seed(s: Sampler, ls: Seq<Seq<u32>>, k: int)
    requires
        mode_of(s.temperature_bits, s.topp_bits) != SampleMode::Greedy,
        0 <= k < ls.len(),
    ensures
        run_sampler(s, ls)[k] == (SampleStep::Draw {
            coin: xorshift_output(xorshift_iterate(s.rng_state, (k + 1) as nat)) / 256,
            nucleus: mode_of(s.temperature_bits, s.topp_bits) == SampleMode::Nucleus,
        }),
    decreases k,
{
    let next = Sampler { rng_state: xorshift_next(s.rng_state), ..s };
    lemma_run_sampler_unfold(s, ls);
    assert(sample_spec(s, ls[0]).1 == next);
    if k > 0 {
        lemma_draws_follow_seed(next, ls.drop_first(), k - 1);
        lemma_iterate_shift(s.rng_state, k as nat);
    } else {
        assert(xorshift_iterate(s.rng_state, 1) == xorshift_next(xorshift_iterate(s.rng_state, 0)));
    }
}

} // verus!
