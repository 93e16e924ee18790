//! The Fiat-Shamir transcript: a duplex sponge with rate four. `Challenger` drives the sponge of the outside
//! crate; `Sim` runs the same sponge in the open and records the schedule of its permutations.

use p3_challenger::{CanObserve, CanSample, DuplexChallenger};
use p3_field::PrimeField64;
use p3_goldilocks::{default_goldilocks_poseidon2_8, Goldilocks, Poseidon2Goldilocks};
use vstd::arithmetic::power2::pow2;
use vstd::prelude::*;

use crate::bits::shifted_one;
use crate::field::{canonical, f_add, f_red, fadd, Ext, MODULUS};
use crate::poseidon::{permute, permuted};

verus! {

/// The state of a duplex sponge: eight lanes, the inputs not yet absorbed, the outputs not yet taken.
#[verifier::ext_equal]
pub struct SpongeView {
    pub state: Seq<u64>,
    pub input: Seq<u64>,
    pub output: Seq<u64>,
}

/// The lanes that enter the next permutation: the buffered inputs overwrite the head of the rate and zeros the
/// rest of it, and their number is added to the first capacity lane; without inputs the lanes stay.
pub open spec fn loaded(s: SpongeView) -> Seq<u64> {
    let n = s.input.len();
    if n == 0 {
        s.state
    } else {
        Seq::new(
            8,
            |i: int|
                if i < n {
                    s.input[i]
                } else if i < 4 {
                    0
                } else if i == 4 {
                    f_add(s.state[4], n as u64)
                } else {
                    s.state[i]
                },
        )
    }
}

/// One permutation: it takes in the buffered inputs and puts out the rate.
pub open spec fn duplexed(s: SpongeView) -> SpongeView {
    let next = permuted(loaded(s));
    SpongeView { state: next, input: Seq::empty(), output: next.subrange(0, 4) }
}

/// The sponge after observing `v`: outputs are stale, and a full rate is absorbed at once.
pub open spec fn observed(s: SpongeView, v: u64) -> SpongeView {
    let fed = SpongeView { state: s.state, input: s.input.push(f_red(v as int)), output: Seq::empty() };
    if fed.input.len() == 4 {
        duplexed(fed)
    } else {
        fed
    }
}

/// The sponge ready to be sampled: permuted where inputs wait or no output is left.
pub open spec fn ready(s: SpongeView) -> SpongeView {
    if s.input.len() > 0 || s.output.len() == 0 {
        duplexed(s)
    } else {
        s
    }
}

/// The sampled lane, the last output left.
pub open spec fn sampled(s: SpongeView) -> u64 {
    ready(s).output.last()
}

/// The sponge after a sample.
pub open spec fn after_sample(s: SpongeView) -> SpongeView {
    let r = ready(s);
    SpongeView { state: r.state, input: r.input, output: r.output.drop_last() }
}

/// The empty sponge.
pub open spec fn empty_sponge() -> SpongeView {
    SpongeView { state: Seq::new(8, |i: int| 0u64), input: Seq::empty(), output: Seq::empty() }
}

/// All values are canonical.
pub open spec fn all_canonical(s: Seq<u64>) -> bool {
    forall|i: int| 0 <= i < s.len() ==> #[trigger] s[i] < MODULUS
}

/// The buffers of a sponge between operations.
pub open spec fn sponge_ok(s: SpongeView) -> bool {
    &&& s.state.len() == 8
    &&& s.input.len() < 4
    &&& s.output.len() <= 4
    &&& all_canonical(s.state)
    &&& all_canonical(s.input)
    &&& all_canonical(s.output)
}

/// The duplex challenger that transcripts are run on.
type Duplex = DuplexChallenger<Goldilocks, Poseidon2Goldilocks<8>, 8, 4>;

/// The lanes and buffers of the outside crate's challenger.
pub struct Challenger {
    pub state: Vec<u64>,
    pub input: Vec<u64>,
    pub output: Vec<u64>,
}

impl View for Challenger {
    type V = SpongeView;

    open spec fn view(&self) -> SpongeView {
        SpongeView { state: self.state@, input: self.input@, output: self.output@ }
    }
}

/// `CanObserve::observe` of `p3_challenger::DuplexChallenger` (width 8, rate 4, over the width-8 Poseidon2 of
/// `p3_goldilocks`), on the challenger with these lanes and buffers: the value joins the inputs, the outputs
/// are dropped, and the fourth input triggers a permutation. Lanes come back canonical.
#[verifier::external_body]
fn duplex_observe(s: &Challenger, v: u64) -> (r: Challenger)
    requires
        sponge_ok(s@),
    ensures
        r@ == observed(s@, v),
        sponge_ok(r@),
{
    let mut ch = Duplex::new(default_goldilocks_poseidon2_8());
    let felts = |v: &Vec<u64>| -> Vec<_> { v.iter().copied().map(Goldilocks::new).collect() };
    let lanes = |v: &[Goldilocks]| v.iter().map(|x| x.as_canonical_u64()).collect();
    ch.sponge_state = core::array::from_fn(|i| Goldilocks::new(s.state[i]));
    ch.input_buffer = felts(&s.input);
    ch.output_buffer = felts(&s.output);
    ch.observe(Goldilocks::new(v));
    Challenger { state: lanes(&ch.sponge_state), input: lanes(&ch.input_buffer), output: lanes(&ch.output_buffer) }
}

/// `CanSample::sample` of `p3_challenger::DuplexChallenger` (width 8, rate 4, over the width-8 Poseidon2 of
/// `p3_goldilocks`) for one base-field element, on the challenger with these lanes and buffers: a permutation
/// where inputs wait or no output is left, then the last output. Lanes come back canonical.
#[verifier::external_body]
fn duplex_sample(s: &Challenger) -> (r: (u64, Challenger))
    requires
        sponge_ok(s@),
    ensures
        r.0 == sampled(s@),
        r.0 < MODULUS,
        r.1@ == after_sample(s@),
        sponge_ok(r.1@),
{
    let mut ch = Duplex::new(default_goldilocks_poseidon2_8());
    let felts = |v: &Vec<u64>| -> Vec<_> { v.iter().copied().map(Goldilocks::new).collect() };
    let lanes = |v: &[Goldilocks]| v.iter().map(|x| x.as_canonical_u64()).collect();
    ch.sponge_state = core::array::from_fn(|i| Goldilocks::new(s.state[i]));
    ch.input_buffer = felts(&s.input);
    ch.output_buffer = felts(&s.output);
    let v: Goldilocks = ch.sample();
    let rest = Challenger {
        state: lanes(&ch.sponge_state),
        input: lanes(&ch.input_buffer),
        output: lanes(&ch.output_buffer),
    };
    (v.as_canonical_u64(), rest)
}

/// The sponge after observing a run of values.
pub open spec fn observed_all(s: SpongeView, vs: Seq<u64>) -> SpongeView
    decreases vs.len(),
{
    if vs.len() == 0 {
        s
    } else {
        observed(observed_all(s, vs.drop_last()), vs.last())
    }
}

/// Two samples as an extension element.
pub open spec fn sampled_ext(s: SpongeView) -> Ext {
    Ext { c0: sampled(s), c1: sampled(after_sample(s)) }
}

/// The sponge after two samples.
pub open spec fn after_sample_ext(s: SpongeView) -> SpongeView {
    after_sample(after_sample(s))
}

/// The coordinates of a run of extension elements.
pub open spec fn ext_felts(xs: Seq<Ext>) -> Seq<u64>
    decreases xs.len(),
{
    if xs.len() == 0 {
        Seq::empty()
    } else {
        ext_felts(xs.drop_last()).push(xs.last().c0).push(xs.last().c1)
    }
}

/// The felts of a run of digests.
pub open spec fn digest_felts(ds: Seq<Vec<u64>>) -> Seq<u64>
    decreases ds.len(),
{
    if ds.len() == 0 {
        Seq::empty()
    } else {
        digest_felts(ds.drop_last()) + ds.last()@
    }
}

/// Observing two runs is observing their concatenation.
pub proof fn law_observe_concat(s: SpongeView, a: Seq<u64>, b: Seq<u64>)
    ensures
        observed_all(observed_all(s, a), b) == observed_all(s, a + b),
    decreases b.len(),
{
    if b.len() == 0 {
        assert(a + b =~= a);
    } else {
        law_observe_concat(s, a, b.drop_last());
        assert((a + b).drop_last() =~= a + b.drop_last());
    }
}

impl Challenger {
    /// A challenger in the same state.
    pub fn copied(&self) -> (r: Challenger)
        ensures
            r@ == self@,
    {
        Challenger {
            state: crate::stark::verify::copy_felts(&self.state),
            input: crate::stark::verify::copy_felts(&self.input),
            output: crate::stark::verify::copy_felts(&self.output),
        }
    }

    /// The challenger of an empty transcript.
    pub fn new() -> (r: Challenger)
        ensures
            r@ == empty_sponge(),
            sponge_ok(r@),
    {
        let r: Challenger = Challenger { state: vec![0, 0, 0, 0, 0, 0, 0, 0], input: Vec::new(), output: Vec::new() };
        assert(r@ =~= empty_sponge());
        r
    }

    /// Absorb one value.
    pub fn observe(&mut self, v: u64)
        requires
            sponge_ok(old(self)@),
        ensures
            final(self)@ == observed(old(self)@, v),
            sponge_ok(final(self)@),
    {
        let next: Challenger = duplex_observe(self, v);
        *self = next;
    }

    /// Absorb a run of values.
    pub fn observe_slice(&mut self, vs: &Vec<u64>)
        requires
            sponge_ok(old(self)@),
        ensures
            final(self)@ == observed_all(old(self)@, vs@),
            sponge_ok(final(self)@),
    {
        let ghost start = self@;
        let mut i: usize = 0;
        while i < vs.len()
            invariant
                i <= vs@.len(),
                sponge_ok(self@),
                self@ == observed_all(start, vs@.take(i as int)),
            decreases vs.len() - i,
        {
            self.observe(vs[i]);
            proof {
                assert(vs@.take(i + 1).drop_last() =~= vs@.take(i as int));
            }
            i += 1;
        }
        proof {
            assert(vs@.take(i as int) =~= vs@);
        }
    }

    /// Absorb the coordinates of a run of extension elements.
    pub fn observe_ext_slice(&mut self, xs: &Vec<Ext>)
        requires
            sponge_ok(old(self)@),
        ensures
            final(self)@ == observed_all(old(self)@, ext_felts(xs@)),
            sponge_ok(final(self)@),
    {
        let felts: Vec<u64> = felts_of_exts(xs);
        self.observe_slice(&felts);
    }

    /// Absorb a cap, digest by digest.
    pub fn observe_cap(&mut self, cap: &Vec<Vec<u64>>)
        requires
            sponge_ok(old(self)@),
        ensures
            final(self)@ == observed_all(old(self)@, digest_felts(cap@)),
            sponge_ok(final(self)@),
    {
        let felts: Vec<u64> = cap_felts(cap);
        self.observe_slice(&felts);
    }

    /// One base-field challenge.
    pub fn sample(&mut self) -> (r: u64)
        requires
            sponge_ok(old(self)@),
        ensures
            r == sampled(old(self)@),
            r < MODULUS,
            final(self)@ == after_sample(old(self)@),
            sponge_ok(final(self)@),
    {
        let (v, next): (u64, Challenger) = duplex_sample(self);
        *self = next;
        v
    }

    /// One extension-field challenge.
    pub fn sample_ext(&mut self) -> (r: Ext)
        requires
            sponge_ok(old(self)@),
        ensures
            r == sampled_ext(old(self)@),
            final(self)@ == after_sample_ext(old(self)@),
            sponge_ok(final(self)@),
    {
        let c0: u64 = self.sample();
        let c1: u64 = self.sample();
        Ext { c0, c1 }
    }

    /// The low `bits` bits of a challenge.
    pub fn sample_bits(&mut self, bits: usize) -> (r: usize)
        requires
            sponge_ok(old(self)@),
            pow2(bits as nat) <= usize::MAX,
            pow2(bits as nat) < MODULUS,
        ensures
            r == sampled(old(self)@) as nat % pow2(bits as nat),
            final(self)@ == after_sample(old(self)@),
            sponge_ok(final(self)@),
    {
        let v: u64 = self.sample();
        let m: usize = shifted_one(bits);
        proof {
            vstd::arithmetic::power2::lemma_pow2_pos(bits as nat);
        }
        (v % (m as u64)) as usize
    }

    /// Whether a proof-of-work witness makes the next `bits` challenge bits zero. No bits ask for no work.
    pub fn check_witness(&mut self, bits: usize, witness: u64) -> (ok: bool)
        requires
            sponge_ok(old(self)@),
            pow2(bits as nat) <= usize::MAX,
            pow2(bits as nat) < MODULUS,
        ensures
            bits == 0 ==> ok && final(self)@ == old(self)@,
            bits > 0 ==> ok == (sampled(observed(old(self)@, witness)) as nat % pow2(bits as nat) == 0) && final(self)@
                == after_sample(observed(old(self)@, witness)),
            sponge_ok(final(self)@),
    {
        if bits == 0 {
            return true;
        }
        self.observe(witness);
        self.sample_bits(bits) == 0
    }
}

/// The coordinates of a run of extension elements.
pub fn felts_of_exts(xs: &Vec<Ext>) -> (r: Vec<u64>)
    ensures
        r@ == ext_felts(xs@),
{
    let mut r: Vec<u64> = Vec::new();
    let mut i: usize = 0;
    while i < xs.len()
        invariant
            i <= xs@.len(),
            r@ == ext_felts(xs@.take(i as int)),
        decreases xs.len() - i,
    {
        r.push(xs[i].c0);
        r.push(xs[i].c1);
        proof {
            assert(xs@.take(i + 1).drop_last() =~= xs@.take(i as int));
        }
        i += 1;
    }
    proof {
        assert(xs@.take(i as int) =~= xs@);
    }
    r
}

/// The felts of a cap, digest by digest.
pub fn cap_felts(cap: &Vec<Vec<u64>>) -> (r: Vec<u64>)
    ensures
        r@ == digest_felts(cap@),
{
    let mut r: Vec<u64> = Vec::new();
    let mut i: usize = 0;
    while i < cap.len()
        invariant
            i <= cap@.len(),
            r@ == digest_felts(cap@.take(i as int)),
        decreases cap.len() - i,
    {
        let ghost before = r@;
        let mut k: usize = 0;
        while k < cap[i].len()
            invariant
                i < cap@.len(),
                k <= cap@[i as int]@.len(),
                r@ =~= before + cap@[i as int]@.take(k as int),
            decreases cap@[i as int]@.len() - k,
        {
            r.push(cap[i][k]);
            k += 1;
        }
        proof {
            assert(cap@[i as int]@.take(k as int) =~= cap@[i as int]@);
            assert(cap@.take(i + 1).drop_last() =~= cap@.take(i as int));
        }
        i += 1;
    }
    proof {
        assert(cap@.take(i as int) =~= cap@);
    }
    r
}

/// The recording sponge: its state, the lanes that entered each permutation, and how many inputs each took.
#[verifier::ext_equal]
pub struct SimView {
    pub sponge: SpongeView,
    pub blocks: Seq<Seq<u64>>,
    pub counts: Seq<u8>,
}

pub struct Sim {
    pub state: Vec<u64>,
    pub input: Vec<u64>,
    pub output: Vec<u64>,
    pub block_inputs: Vec<Vec<u64>>,
    pub counts: Vec<u8>,
}

impl View for Sim {
    type V = SimView;

    open spec fn view(&self) -> SimView {
        SimView {
            sponge: SpongeView { state: self.state@, input: self.input@, output: self.output@ },
            blocks: Seq::new(self.block_inputs@.len(), |i: int| self.block_inputs@[i]@),
            counts: self.counts@,
        }
    }
}

/// A recorded permutation.
pub open spec fn sim_duplexed(v: SimView) -> SimView {
    SimView {
        sponge: duplexed(v.sponge),
        blocks: v.blocks.push(loaded(v.sponge)),
        counts: v.counts.push(v.sponge.input.len() as u8),
    }
}

pub open spec fn sim_observed(v: SimView, x: u64) -> SimView {
    let fed = SimView {
        sponge: SpongeView {
            state: v.sponge.state,
            input: v.sponge.input.push(f_red(x as int)),
            output: Seq::empty(),
        },
        blocks: v.blocks,
        counts: v.counts,
    };
    if fed.sponge.input.len() == 4 {
        sim_duplexed(fed)
    } else {
        fed
    }
}

pub open spec fn sim_ready(v: SimView) -> SimView {
    if v.sponge.input.len() > 0 || v.sponge.output.len() == 0 {
        sim_duplexed(v)
    } else {
        v
    }
}

pub open spec fn sim_after_sample(v: SimView) -> SimView {
    let r = sim_ready(v);
    SimView {
        sponge: SpongeView { state: r.sponge.state, input: r.sponge.input, output: r.sponge.output.drop_last() },
        blocks: r.blocks,
        counts: r.counts,
    }
}

/// A sampled value with the block that put it out and its lane.
pub struct Squeeze {
    pub value: u64,
    pub block: nat,
    pub lane: nat,
}

pub open spec fn sim_sampled(v: SimView) -> Squeeze {
    let r = sim_ready(v);
    Squeeze {
        value: r.sponge.output.last(),
        block: (r.blocks.len() - 1) as nat,
        lane: (r.sponge.output.len() - 1) as nat,
    }
}

/// Block `b` follows the block before it as a sponge does: the capacity carries over with the new input count
/// added to its first lane, and a block without inputs keeps the rate; the first block starts from zero lanes.
pub open spec fn block_follows(blocks: Seq<Seq<u64>>, counts: Seq<u8>, b: int) -> bool {
    let prev = if b == 0 {
        Seq::new(8, |i: int| 0u64)
    } else {
        permuted(blocks[b - 1])
    };
    &&& blocks[b].len() == 8
    &&& blocks[b][4] == (if counts[b] == 0 { prev[4] } else { f_add(prev[4], counts[b] as u64) })
    &&& forall|i: int| 5 <= i < 8 ==> #[trigger] blocks[b][i] == prev[i]
    &&& counts[b] == 0 ==> forall|i: int| 0 <= i < 4 ==> #[trigger] blocks[b][i] == prev[i]
}

/// The recorded schedule of a sponge that started empty.
pub open spec fn schedule_ok(v: SimView) -> bool {
    &&& v.blocks.len() == v.counts.len()
    &&& forall|b: int| 0 <= b < v.counts.len() ==> (#[trigger] v.counts[b]) <= 4
    &&& forall|b: int| 0 <= b < v.blocks.len() ==> #[trigger] block_follows(v.blocks, v.counts, b)
    &&& v.sponge.state == (if v.blocks.len() == 0 {
        Seq::new(8, |i: int| 0u64)
    } else {
        permuted(v.blocks.last())
    })
}

/// Recording changes nothing: a recorded observation is an observation, and a recorded sample gives what the
/// challenger gives.
pub proof fn law_sim_is_challenger(v: SimView, x: u64)
    ensures
        sim_observed(v, x).sponge == observed(v.sponge, x),
        sim_sampled(v).value == sampled(v.sponge),
        sim_after_sample(v).sponge == after_sample(v.sponge),
{
}

pub(crate) proof fn lemma_duplex_schedule(v: SimView)
    requires
        schedule_ok(v),
        v.sponge.state.len() == 8,
        v.sponge.input.len() <= 4,
    ensures
        schedule_ok(sim_duplexed(v)),
{
    let n = sim_duplexed(v);
    let k = v.blocks.len() as int;
    assert forall|b: int| 0 <= b < n.blocks.len() implies #[trigger] block_follows(n.blocks, n.counts, b) by {
        if b < k {
            assert(block_follows(v.blocks, v.counts, b));
            assert(n.blocks[b] == v.blocks[b]);
            if b > 0 {
                assert(n.blocks[b - 1] == v.blocks[b - 1]);
            }
        } else {
            assert(n.blocks[b] == loaded(v.sponge));
            assert(n.counts[b] == v.sponge.input.len());
            if b > 0 {
                assert(n.blocks[b - 1] == v.blocks.last());
            }
        }
    }
}

impl Sim {
    /// The buffers between operations, and the schedule so far.
    pub open spec fn ok(&self) -> bool {
        &&& self.state@.len() == 8
        &&& self.input@.len() < 4
        &&& self.output@.len() <= 4
        &&& self.output@.len() > 0 ==> self.block_inputs@.len() > 0
        &&& schedule_ok(self@)
    }

    /// An empty sponge.
    pub fn new() -> (r: Sim)
        ensures
            r.ok(),
            r@ == (SimView { sponge: empty_sponge(), blocks: Seq::empty(), counts: Seq::empty() }),
    {
        let r: Sim = Sim {
            state: vec![0, 0, 0, 0, 0, 0, 0, 0],
            input: Vec::new(),
            output: Vec::new(),
            block_inputs: Vec::new(),
            counts: Vec::new(),
        };
        assert(r@ =~= (SimView { sponge: empty_sponge(), blocks: Seq::empty(), counts: Seq::empty() }));
        r
    }

    /// Absorb the inputs, permute, and expose the rate.
    pub fn duplex(&mut self)
        requires
            old(self).state@.len() == 8,
            old(self).input@.len() <= 4,
            schedule_ok(old(self)@),
        ensures
            final(self)@ == sim_duplexed(old(self)@),
            final(self).ok(),
            final(self).output@.len() == 4,
    {
        let ghost before = self@;
        let num: usize = self.input.len();
        let mut lanes: Vec<u64> = Vec::new();
        let mut i: usize = 0;
        while i < 8
            invariant
                i <= 8,
                num == before.sponge.input.len(),
                num <= 4,
                self.state@ == before.sponge.state,
                self.input@ == before.sponge.input,
                before.sponge.state.len() == 8,
                lanes@ =~= loaded(before.sponge).take(i as int),
                loaded(before.sponge).len() == 8,
            decreases 8 - i,
        {
            let v: u64 = if num == 0 {
                self.state[i]
            } else if i < num {
                self.input[i]
            } else if i < 4 {
                0
            } else if i == 4 {
                fadd(self.state[4], num as u64)
            } else {
                self.state[i]
            };
            lanes.push(v);
            i += 1;
        }
        assert(lanes@ =~= loaded(before.sponge));
        let next: Vec<u64> = permute(&lanes);
        let out: Vec<u64> = vec![next[0], next[1], next[2], next[3]];
        assert(out@ =~= next@.subrange(0, 4));
        self.input = Vec::new();
        self.output = out;
        self.state = next;
        self.counts.push(num as u8);
        self.block_inputs.push(lanes);
        proof {
            assert(self@.blocks =~= sim_duplexed(before).blocks);
            assert(self@.sponge =~= sim_duplexed(before).sponge);
            assert(self@ =~= sim_duplexed(before));
            lemma_duplex_schedule(before);
        }
    }

    /// Absorb one value.
    pub fn observe(&mut self, v: u64)
        requires
            old(self).ok(),
        ensures
            final(self)@ == sim_observed(old(self)@, v),
            final(self).ok(),
            final(self).output@.len() == (if old(self).input@.len() == 3 { 4int } else { 0 }),
    {
        let ghost before = self@;
        self.output = Vec::new();
        self.input.push(canonical(v));
        let ghost fed = SimView {
            sponge: SpongeView {
                state: before.sponge.state,
                input: before.sponge.input.push(f_red(v as int)),
                output: Seq::empty(),
            },
            blocks: before.blocks,
            counts: before.counts,
        };
        assert(self@ =~= fed);
        if self.input.len() == 4 {
            self.duplex();
        }
    }

    /// Absorb the coordinates of an extension element.
    pub fn observe_ext(&mut self, x: Ext)
        requires
            old(self).ok(),
        ensures
            final(self)@ == sim_observed(sim_observed(old(self)@, x.c0), x.c1),
            final(self).ok(),
    {
        self.observe(x.c0);
        self.observe(x.c1);
    }

    /// One base-field challenge, with the block that put it out and its lane.
    pub fn sample_base(&mut self) -> (r: (u64, usize, usize))
        requires
            old(self).ok(),
        ensures
            r.0 == sim_sampled(old(self)@).value,
            r.1 == sim_sampled(old(self)@).block,
            r.2 == sim_sampled(old(self)@).lane,
            final(self)@ == sim_after_sample(old(self)@),
            final(self).ok(),
            final(self).output@.len() == (if old(self).input@.len() > 0 || old(self).output@.len() == 0 {
                3int
            } else {
                old(self).output@.len() - 1
            }),
    {
        let ghost before = self@;
        if self.input.len() > 0 || self.output.len() == 0 {
            self.duplex();
        }
        let ghost mid = self@;
        assert(mid == sim_ready(before));
        let blk: usize = self.block_inputs.len() - 1;
        let lane: usize = self.output.len() - 1;
        let v: u64 = self.output[lane];
        self.output.truncate(lane);
        proof {
            assert(self.output@ =~= mid.sponge.output.drop_last());
            assert(self@ =~= sim_after_sample(before));
        }
        (v, blk, lane)
    }

    /// One extension-field challenge, with the block of its first coordinate.
    pub fn sample_ext(&mut self) -> (r: (Ext, usize))
        requires
            old(self).ok(),
        ensures
            r.0.c0 == sim_sampled(old(self)@).value,
            r.0.c1 == sim_sampled(sim_after_sample(old(self)@)).value,
            r.1 == sim_sampled(old(self)@).block,
            final(self)@ == sim_after_sample(sim_after_sample(old(self)@)),
            final(self).ok(),
    {
        let (c0, blk, _lane): (u64, usize, usize) = self.sample_base();
        let (c1, _b, _l): (u64, usize, usize) = self.sample_base();
        (Ext { c0, c1 }, blk)
    }
}

} // verus!
