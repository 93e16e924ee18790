//! The two rounds of a lookup proof before its quotient: the challenges between the two commitments, and the
//! point after them.

use vstd::prelude::*;

use crate::field::{x_same, x_zero, Ext};
use crate::transcript::{
    after_sample_ext, digest_felts, empty_sponge, observed_all, sampled_ext, sponge_ok, Challenger, SpongeView,
};

verus! {

/// The two committed rounds of a lookup proof with the drawn challenges.
pub struct LookupRoundProof {
    pub trace_commit: Vec<Vec<u64>>,
    pub aux_commit: Vec<Vec<u64>>,
    pub terminal: Ext,
    pub alpha: Ext,
    pub beta: Ext,
    pub zeta: Ext,
}

/// Why two rounds are refused.
#[derive(Clone, Copy, Debug, PartialEq, Eq, Structural)]
pub enum RoundError {
    /// The lookup challenges are not those of the transcript.
    Challenges,
    /// The opening point is not that of the transcript.
    Point,
    /// The looked-up values do not balance.
    Terminal,
}

/// The sponge that the lookup challenges are drawn from.
pub open spec fn trace_sponge(trace_commit: Seq<Vec<u64>>, pis: Seq<u64>) -> SpongeView {
    observed_all(observed_all(empty_sponge(), digest_felts(trace_commit)), pis)
}

/// The sponge after `n` extension challenges.
pub open spec fn after_challenges(s: SpongeView, n: nat) -> SpongeView
    decreases n,
{
    if n == 0 {
        s
    } else {
        after_sample_ext(after_challenges(s, (n - 1) as nat))
    }
}

/// The first `n` extension challenges of a sponge.
pub open spec fn challenges_of(s: SpongeView, n: nat) -> Seq<Ext> {
    Seq::new(n, |k: int| sampled_ext(after_challenges(s, k as nat)))
}

/// The sponge that the point is drawn from: after the lookup challenges, the aux commitment.
pub open spec fn aux_sponge(s: SpongeView, aux_commit: Seq<Vec<u64>>) -> SpongeView {
    observed_all(s, digest_felts(aux_commit))
}

/// The challenger after the trace commitment and the lookup challenges, two per lookup.
pub fn draw_lookup_challenges(trace_commit: &Vec<Vec<u64>>, pis: &Vec<u64>, count: usize) -> (r: (Vec<Ext>, Challenger))
    ensures
        r.0@ == challenges_of(trace_sponge(trace_commit@, pis@), count as nat),
        r.1@ == after_challenges(trace_sponge(trace_commit@, pis@), count as nat),
        sponge_ok(r.1@),
{
    let mut challenger: Challenger = Challenger::new();
    challenger.observe_cap(trace_commit);
    challenger.observe_slice(pis);
    let ghost s = challenger@;
    let mut out: Vec<Ext> = Vec::new();
    let mut k: usize = 0;
    while k < count
        invariant
            k <= count,
            sponge_ok(challenger@),
            challenger@ == after_challenges(s, k as nat),
            out@ =~= challenges_of(s, k as nat),
        decreases count - k,
    {
        out.push(challenger.sample_ext());
        k += 1;
    }
    (out, challenger)
}

/// Observe a commitment and draw one challenge.
pub fn draw_after_commit(challenger: &mut Challenger, commit: &Vec<Vec<u64>>) -> (r: Ext)
    requires
        sponge_ok(old(challenger)@),
    ensures
        r == sampled_ext(aux_sponge(old(challenger)@, commit@)),
        final(challenger)@ == after_sample_ext(aux_sponge(old(challenger)@, commit@)),
        sponge_ok(final(challenger)@),
{
    challenger.observe_cap(commit);
    challenger.sample_ext()
}

/// The point of two rounds.
pub open spec fn round_zeta(trace_commit: Seq<Vec<u64>>, aux_commit: Seq<Vec<u64>>, pis: Seq<u64>) -> Ext {
    sampled_ext(aux_sponge(after_challenges(trace_sponge(trace_commit, pis), 2), aux_commit))
}

/// Assemble the two rounds of a proof with one lookup: the challenges are drawn after the trace commitment, the
/// point after the aux commitment.
pub fn prove_lookup_rounds(
    trace_commit: Vec<Vec<u64>>,
    aux_commit: Vec<Vec<u64>>,
    terminal: Ext,
    pis: &Vec<u64>,
) -> (r: LookupRoundProof)
    ensures
        r.trace_commit == trace_commit,
        r.aux_commit == aux_commit,
        r.terminal == terminal,
        r.alpha == challenges_of(trace_sponge(trace_commit@, pis@), 2)[0],
        r.beta == challenges_of(trace_sponge(trace_commit@, pis@), 2)[1],
        r.zeta == round_zeta(trace_commit@, aux_commit@, pis@),
{
    let (ch, mut challenger): (Vec<Ext>, Challenger) = draw_lookup_challenges(&trace_commit, pis, 2);
    let zeta: Ext = draw_after_commit(&mut challenger, &aux_commit);
    LookupRoundProof { alpha: ch[0], beta: ch[1], trace_commit, aux_commit, terminal, zeta }
}

/// The fault of two rounds, if they have one.
pub open spec fn rounds_error(pis: Seq<u64>, proof: LookupRoundProof) -> Option<RoundError> {
    let ch = challenges_of(trace_sponge(proof.trace_commit@, pis), 2);
    if !x_same(ch[0], proof.alpha) || !x_same(ch[1], proof.beta) {
        Some(RoundError::Challenges)
    } else if !x_same(round_zeta(proof.trace_commit@, proof.aux_commit@, pis), proof.zeta) {
        Some(RoundError::Point)
    } else if !x_same(proof.terminal, x_zero()) {
        Some(RoundError::Terminal)
    } else {
        None
    }
}

/// Check two rounds: the challenges and the point are those of the transcript, and the terminal is zero.
pub fn verify_lookup_rounds(pis: &Vec<u64>, proof: &LookupRoundProof) -> (r: Result<(), RoundError>)
    ensures
        r is Ok <==> rounds_error(pis@, *proof) is None,
        r matches Err(e) ==> rounds_error(pis@, *proof) == Some(e),
        r is Ok ==> carries_drawn(pis@, *proof) && x_same(proof.terminal, x_zero()),
        carries_drawn(pis@, *proof) && x_same(proof.terminal, x_zero()) ==> r is Ok,
{
    proof {
        law_accepted_rounds(pis@, *proof);
    }
    let (ch, mut challenger): (Vec<Ext>, Challenger) = draw_lookup_challenges(&proof.trace_commit, pis, 2);
    if !ch[0].same(proof.alpha) || !ch[1].same(proof.beta) {
        return Err(RoundError::Challenges);
    }
    let zeta: Ext = draw_after_commit(&mut challenger, &proof.aux_commit);
    if !zeta.same(proof.zeta) {
        return Err(RoundError::Point);
    }
    if !proof.terminal.same(Ext::zero()) {
        return Err(RoundError::Terminal);
    }
    Ok(())
}

/// The challenges that rounds carry are those that a transcript gives: the trace commitment and the public values
/// go in, `alpha` and then `beta` come out, the aux commitment goes in, `zeta` comes out.
pub open spec fn carries_drawn(pis: Seq<u64>, proof: LookupRoundProof) -> bool {
    let first = observed_all(observed_all(empty_sponge(), digest_felts(proof.trace_commit@)), pis);
    let second = after_sample_ext(first);
    let third = observed_all(after_sample_ext(second), digest_felts(proof.aux_commit@));
    &&& x_same(sampled_ext(first), proof.alpha)
    &&& x_same(sampled_ext(second), proof.beta)
    &&& x_same(sampled_ext(third), proof.zeta)
}

/// Rounds are accepted exactly if all three challenges are those of the transcript and the terminal is zero, and
/// each fault names what first departs: a lookup challenge, else the point, else the terminal.
pub proof fn law_accepted_rounds(pis: Seq<u64>, proof: LookupRoundProof)
    ensures
        rounds_error(pis, proof) is None <==> carries_drawn(pis, proof) && x_same(proof.terminal, x_zero()),
        rounds_error(pis, proof) == Some(RoundError::Terminal) <==> carries_drawn(pis, proof) && !x_same(
            proof.terminal,
            x_zero(),
        ),
        rounds_error(pis, proof) == Some(RoundError::Challenges) <==> forall|zeta: Ext|
            !#[trigger] carries_drawn(pis, LookupRoundProof { zeta, ..proof }),
        rounds_error(pis, proof) == Some(RoundError::Point) <==> !carries_drawn(pis, proof) && exists|zeta: Ext|
            #[trigger] carries_drawn(pis, LookupRoundProof { zeta, ..proof }),
{
    let s = trace_sponge(proof.trace_commit@, pis);
    let ch = challenges_of(s, 2);
    reveal_with_fuel(after_challenges, 3);
    assert(ch[0] == sampled_ext(s));
    assert(ch[1] == sampled_ext(after_sample_ext(s)));
    let drawn = round_zeta(proof.trace_commit@, proof.aux_commit@, pis);
    assert(LookupRoundProof { zeta: proof.zeta, ..proof } == proof);
    if x_same(ch[0], proof.alpha) && x_same(ch[1], proof.beta) {
        assert(carries_drawn(pis, LookupRoundProof { zeta: drawn, ..proof }));
    }
}

/// Two accepted proofs over the same commitments and public values carry the same challenges and terminal: none
/// of the four can be exchanged.
pub proof fn law_rounds_bound(pis: Seq<u64>, p: LookupRoundProof, q: LookupRoundProof)
    requires
        rounds_error(pis, p) is None,
        rounds_error(pis, q) is None,
        p.trace_commit@ == q.trace_commit@,
        p.aux_commit@ == q.aux_commit@,
    ensures
        x_same(p.alpha, q.alpha),
        x_same(p.beta, q.beta),
        x_same(p.zeta, q.zeta),
        x_same(p.terminal, q.terminal),
{
    law_accepted_rounds(pis, p);
    law_accepted_rounds(pis, q);
}

/// Rounds that were assembled from their commitments are accepted exactly if their terminal is zero.
pub proof fn law_rounds_round_trip(pis: Seq<u64>, proof: LookupRoundProof)
    requires
        proof.alpha == challenges_of(trace_sponge(proof.trace_commit@, pis), 2)[0],
        proof.beta == challenges_of(trace_sponge(proof.trace_commit@, pis), 2)[1],
        proof.zeta == round_zeta(proof.trace_commit@, proof.aux_commit@, pis),
    ensures
        rounds_error(pis, proof) == if x_same(proof.terminal, x_zero()) {
            None::<RoundError>
        } else {
            Some(RoundError::Terminal)
        },
{
}

} // verus!
