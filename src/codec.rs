//! Wire format of the proof structures.
//!
//! Every element is written as its canonical encoding, of the width that
//! `ElementSizes` gives its group, with no framing: the round count fixes
//! where each element stands. An aggregate proof starts with the number of
//! aggregated proofs, `2^k`, as a little-endian `u64`; a sub-proof is read
//! with its round count given by the caller.
use vstd::prelude::*;
use vstd::arithmetic::power2::*;
use vstd::bytes::*;
use vstd::slice::slice_subrange;
use crate::error::ProofError;
use crate::aggregate::{
    comms_sized, pair_sized, pairs_sized, AggregateProof, AggregateProofModel, ElementSizes,
    EncPair, GipaMIPP, GipaMIPPModel, GipaTIPP, GipaTIPPModel, MIPPProof, MIPPProofModel, Output,
    TIPPProof, TIPPProofModel, MAX_ROUNDS, pairs_view, comms_view,
};

verus! {

pub open spec fn enc_pair(p: EncPair) -> Seq<u8> {
    p.0 + p.1
}

pub open spec fn enc_pairs(z: Seq<EncPair>) -> Seq<u8>
    decreases z.len(),
{
    if z.len() == 0 {
        Seq::empty()
    } else {
        enc_pairs(z.drop_last()) + enc_pair(z.last())
    }
}

pub open spec fn enc_comms(c: Seq<(EncPair, EncPair)>) -> Seq<u8>
    decreases c.len(),
{
    if c.len() == 0 {
        Seq::empty()
    } else {
        enc_comms(c.drop_last()) + enc_pair(c.last().0) + enc_pair(c.last().1)
    }
}

pub open spec fn enc_gipa_tipp(g: GipaTIPPModel) -> Seq<u8> {
    enc_comms(g.comms) + enc_pairs(g.z_vec) + g.final_a + g.final_b + enc_pair(g.final_vkey)
        + enc_pair(g.final_wkey)
}

pub open spec fn enc_tipp(p: TIPPProofModel) -> Seq<u8> {
    enc_gipa_tipp(p.gipa) + enc_pair(p.vkey_opening) + enc_pair(p.wkey_opening)
}

pub open spec fn enc_gipa_mipp(g: GipaMIPPModel) -> Seq<u8> {
    enc_comms(g.comms) + enc_pairs(g.z_vec) + g.final_c + g.final_r + enc_pair(g.final_vkey)
}

pub open spec fn enc_mipp(p: MIPPProofModel) -> Seq<u8> {
    enc_gipa_mipp(p.gipa) + enc_pair(p.vkey_opening)
}

/// Number of proofs that an aggregate of `k` rounds holds.
pub open spec fn proof_count(k: nat) -> u64 {
    pow2(k) as u64
}

pub open spec fn enc_aggregate(p: AggregateProofModel) -> Seq<u8> {
    spec_u64_to_le_bytes(proof_count(p.rounds())) + enc_pair(p.com_ab) + enc_pair(p.com_c)
        + p.ip_ab + p.agg_c + enc_tipp(p.proof_ab) + enc_mipp(p.proof_c)
}

pub open spec fn gipa_tipp_len(s: ElementSizes, k: nat) -> int {
    k * (4 * s.fqk) + k * (2 * s.fqk) + s.g1_affine + s.g2_affine + 2 * s.g2_affine + 2
        * s.g1_affine
}

pub open spec fn tipp_len(s: ElementSizes, k: nat) -> int {
    gipa_tipp_len(s, k) + 2 * s.g2_affine + 2 * s.g1_affine
}

pub open spec fn gipa_mipp_len(s: ElementSizes, k: nat) -> int {
    k * (4 * s.fqk) + k * (2 * s.g1) + s.g1_affine + s.fr + 2 * s.g2_affine
}

pub open spec fn mipp_len(s: ElementSizes, k: nat) -> int {
    gipa_mipp_len(s, k) + 2 * s.g2_affine
}

pub open spec fn aggregate_len(s: ElementSizes, k: nat) -> int {
    8 + 2 * s.fqk + 2 * s.fqk + s.fqk + s.g1 + tipp_len(s, k) + mipp_len(s, k)
}

proof fn lemma_split(x1: Seq<u8>, y1: Seq<u8>, x2: Seq<u8>, y2: Seq<u8>)
    requires
        x1.len() == x2.len() || y1.len() == y2.len(),
        x1 + y1 == x2 + y2,
    ensures
        x1 == x2,
        y1 == y2,
{
    let t = x1 + y1;
    assert((x1 + y1).len() == (x2 + y2).len());
    assert(x1 =~= t.subrange(0, x1.len() as int));
    assert(x2 =~= t.subrange(0, x2.len() as int));
    assert(y1 =~= t.subrange(x1.len() as int, t.len() as int));
    assert(y2 =~= t.subrange(x2.len() as int, t.len() as int));
}

proof fn lemma_pair_inj(p1: EncPair, p2: EncPair, a: usize, b: usize)
    requires
        pair_sized(p1, a, b),
        pair_sized(p2, a, b),
        enc_pair(p1) == enc_pair(p2),
    ensures
        p1 == p2,
{
    lemma_split(p1.0, p1.1, p2.0, p2.1);
}

proof fn lemma_enc_pairs_len(z: Seq<EncPair>, a: usize, b: usize)
    requires
        pairs_sized(z, a, b),
    ensures
        enc_pairs(z).len() == z.len() * (a + b),
    decreases z.len(),
{
    if z.len() > 0 {
        assert(pair_sized(z[z.len() - 1], a, b));
        lemma_enc_pairs_len(z.drop_last(), a, b);
        assert(z.len() * (a + b) == (z.len() - 1) * (a + b) + (a + b)) by (nonlinear_arith);
    }
}

proof fn lemma_enc_pairs_inj(z1: Seq<EncPair>, z2: Seq<EncPair>, a: usize, b: usize)
    requires
        pairs_sized(z1, a, b),
        pairs_sized(z2, a, b),
        z1.len() == z2.len(),
        enc_pairs(z1) == enc_pairs(z2),
    ensures
        z1 == z2,
    decreases z1.len(),
{
    if z1.len() > 0 {
        let n = z1.len() - 1;
        assert(pair_sized(z1[n], a, b));
        assert(pair_sized(z2[n], a, b));
        lemma_split(enc_pairs(z1.drop_last()), enc_pair(z1.last()), enc_pairs(z2.drop_last()), enc_pair(z2.last()));
        lemma_pair_inj(z1.last(), z2.last(), a, b);
        lemma_enc_pairs_inj(z1.drop_last(), z2.drop_last(), a, b);
        assert(z1 =~= z2.drop_last().push(z2.last()));
        assert(z2 =~= z2.drop_last().push(z2.last()));
    } else {
        assert(z1 =~= z2);
    }
}

proof fn lemma_enc_comms_len(c: Seq<(EncPair, EncPair)>, a: usize)
    requires
        comms_sized(c, a),
    ensures
        enc_comms(c).len() == c.len() * (4 * a),
    decreases c.len(),
{
    if c.len() > 0 {
        assert(pair_sized(c[c.len() - 1].0, a, a));
        lemma_enc_comms_len(c.drop_last(), a);
        assert(c.len() * (4 * a) == (c.len() - 1) * (4 * a) + 4 * a) by (nonlinear_arith);
    }
}

proof fn lemma_enc_comms_inj(c1: Seq<(EncPair, EncPair)>, c2: Seq<(EncPair, EncPair)>, a: usize)
    requires
        comms_sized(c1, a),
        comms_sized(c2, a),
        c1.len() == c2.len(),
        enc_comms(c1) == enc_comms(c2),
    ensures
        c1 == c2,
    decreases c1.len(),
{
    if c1.len() > 0 {
        let n = c1.len() - 1;
        assert(pair_sized(c1[n].0, a, a));
        assert(pair_sized(c2[n].0, a, a));
        let l1 = c1.last();
        let l2 = c2.last();
        lemma_split(enc_comms(c1.drop_last()) + enc_pair(l1.0), enc_pair(l1.1), enc_comms(c2.drop_last()) + enc_pair(l2.0), enc_pair(l2.1));
        lemma_split(enc_comms(c1.drop_last()), enc_pair(l1.0), enc_comms(c2.drop_last()), enc_pair(l2.0));
        lemma_pair_inj(l1.0, l2.0, a, a);
        lemma_pair_inj(l1.1, l2.1, a, a);
        lemma_enc_comms_inj(c1.drop_last(), c2.drop_last(), a);
        assert(c1 =~= c2.drop_last().push(l2));
        assert(c2 =~= c2.drop_last().push(l2));
    } else {
        assert(c1 =~= c2);
    }
}

proof fn lemma_pow2_small(k: nat)
    requires
        k <= MAX_ROUNDS,
    ensures
        0 < pow2(k) <= pow2(63),
        pow2(63) < 0x1_0000_0000_0000_0000,
        proof_count(k) == pow2(k),
{
    lemma2_to64();
    lemma2_to64_rest();
    lemma_pow2_pos(k);
    if k < 63 {
        lemma_pow2_strictly_increases(k, 63);
    }
}

proof fn lemma_gipa_tipp_len(s: ElementSizes, k: nat, g: GipaTIPPModel)
    requires
        g.wf(s, k),
    ensures
        enc_gipa_tipp(g).len() == gipa_tipp_len(s, k),
{
    lemma_enc_comms_len(g.comms, s.fqk);
    lemma_enc_pairs_len(g.z_vec, s.fqk, s.fqk);
    assert(k * (s.fqk + s.fqk) == k * (2 * s.fqk)) by (nonlinear_arith);
}

proof fn lemma_gipa_mipp_len(s: ElementSizes, k: nat, g: GipaMIPPModel)
    requires
        g.wf(s, k),
    ensures
        enc_gipa_mipp(g).len() == gipa_mipp_len(s, k),
{
    lemma_enc_comms_len(g.comms, s.fqk);
    lemma_enc_pairs_len(g.z_vec, s.g1, s.g1);
    assert(k * (s.g1 + s.g1) == k * (2 * s.g1)) by (nonlinear_arith);
}

proof fn lemma_tipp_len(s: ElementSizes, k: nat, p: TIPPProofModel)
    requires
        p.wf(s, k),
    ensures
        enc_tipp(p).len() == tipp_len(s, k),
{
    lemma_gipa_tipp_len(s, k, p.gipa);
}

proof fn lemma_mipp_len(s: ElementSizes, k: nat, p: MIPPProofModel)
    requires
        p.wf(s, k),
    ensures
        enc_mipp(p).len() == mipp_len(s, k),
{
    lemma_gipa_mipp_len(s, k, p.gipa);
}

proof fn lemma_aggregate_len(s: ElementSizes, p: AggregateProofModel)
    requires
        p.wf(s),
    ensures
        enc_aggregate(p).len() == aggregate_len(s, p.rounds()),
        enc_aggregate(p).subrange(0, 8) == spec_u64_to_le_bytes(proof_count(p.rounds())),
{
    lemma_auto_spec_u64_to_from_le_bytes();
    lemma_tipp_len(s, p.rounds(), p.proof_ab);
    lemma_mipp_len(s, p.rounds(), p.proof_c);
    let h = spec_u64_to_le_bytes(proof_count(p.rounds()));
    let rest = enc_pair(p.com_ab) + enc_pair(p.com_c) + p.ip_ab + p.agg_c + enc_tipp(p.proof_ab)
        + enc_mipp(p.proof_c);
    assert(enc_aggregate(p) =~= h + rest);
    assert((h + rest).subrange(0, 8) =~= h);
}

/// A well-formed GIPA transcript of the TIPP argument is determined by its
/// encoding: decoding what `encode` wrote gives the transcript back.
pub proof fn lemma_gipa_tipp_round_trip(s: ElementSizes, k: nat, g: GipaTIPPModel, h: GipaTIPPModel)
    requires
        g.wf(s, k),
        h.wf(s, k),
        enc_gipa_tipp(h) == enc_gipa_tipp(g),
    ensures
        h == g,
{
    lemma_enc_comms_len(g.comms, s.fqk);
    lemma_enc_comms_len(h.comms, s.fqk);
    let c1 = enc_comms(g.comms) + enc_pairs(g.z_vec);
    let c2 = enc_comms(h.comms) + enc_pairs(h.z_vec);
    lemma_split(c1 + g.final_a + g.final_b + enc_pair(g.final_vkey), enc_pair(g.final_wkey), c2 + h.final_a + h.final_b + enc_pair(h.final_vkey), enc_pair(h.final_wkey));
    lemma_split(c1 + g.final_a + g.final_b, enc_pair(g.final_vkey), c2 + h.final_a + h.final_b, enc_pair(h.final_vkey));
    lemma_split(c1 + g.final_a, g.final_b, c2 + h.final_a, h.final_b);
    lemma_split(c1, g.final_a, c2, h.final_a);
    lemma_split(enc_comms(g.comms), enc_pairs(g.z_vec), enc_comms(h.comms), enc_pairs(h.z_vec));
    lemma_pair_inj(g.final_vkey, h.final_vkey, s.g2_affine, s.g2_affine);
    lemma_pair_inj(g.final_wkey, h.final_wkey, s.g1_affine, s.g1_affine);
    lemma_enc_comms_inj(g.comms, h.comms, s.fqk);
    lemma_enc_pairs_inj(g.z_vec, h.z_vec, s.fqk, s.fqk);
}

/// A well-formed GIPA transcript of the MIPP argument is determined by its
/// encoding: decoding what `encode` wrote gives the transcript back.
pub proof fn lemma_gipa_mipp_round_trip(s: ElementSizes, k: nat, g: GipaMIPPModel, h: GipaMIPPModel)
    requires
        g.wf(s, k),
        h.wf(s, k),
        enc_gipa_mipp(h) == enc_gipa_mipp(g),
    ensures
        h == g,
{
    lemma_enc_comms_len(g.comms, s.fqk);
    lemma_enc_comms_len(h.comms, s.fqk);
    let c1 = enc_comms(g.comms) + enc_pairs(g.z_vec);
    let c2 = enc_comms(h.comms) + enc_pairs(h.z_vec);
    lemma_split(c1 + g.final_c + g.final_r, enc_pair(g.final_vkey), c2 + h.final_c + h.final_r, enc_pair(h.final_vkey));
    lemma_split(c1 + g.final_c, g.final_r, c2 + h.final_c, h.final_r);
    lemma_split(c1, g.final_c, c2, h.final_c);
    lemma_split(enc_comms(g.comms), enc_pairs(g.z_vec), enc_comms(h.comms), enc_pairs(h.z_vec));
    lemma_pair_inj(g.final_vkey, h.final_vkey, s.g2_affine, s.g2_affine);
    lemma_enc_comms_inj(g.comms, h.comms, s.fqk);
    lemma_enc_pairs_inj(g.z_vec, h.z_vec, s.g1, s.g1);
}

/// A well-formed TIPP proof is determined by its encoding: decoding what
/// `encode` wrote gives the proof back.
pub proof fn lemma_tipp_round_trip(s: ElementSizes, k: nat, p: TIPPProofModel, q: TIPPProofModel)
    requires
        p.wf(s, k),
        q.wf(s, k),
        enc_tipp(q) == enc_tipp(p),
    ensures
        q == p,
{
    lemma_split(enc_gipa_tipp(p.gipa) + enc_pair(p.vkey_opening), enc_pair(p.wkey_opening), enc_gipa_tipp(q.gipa) + enc_pair(q.vkey_opening), enc_pair(q.wkey_opening));
    lemma_split(enc_gipa_tipp(p.gipa), enc_pair(p.vkey_opening), enc_gipa_tipp(q.gipa), enc_pair(q.vkey_opening));
    lemma_pair_inj(p.vkey_opening, q.vkey_opening, s.g2_affine, s.g2_affine);
    lemma_pair_inj(p.wkey_opening, q.wkey_opening, s.g1_affine, s.g1_affine);
    lemma_gipa_tipp_round_trip(s, k, p.gipa, q.gipa);
}

/// A well-formed MIPP proof is determined by its encoding: decoding what
/// `encode` wrote gives the proof back.
pub proof fn lemma_mipp_round_trip(s: ElementSizes, k: nat, p: MIPPProofModel, q: MIPPProofModel)
    requires
        p.wf(s, k),
        q.wf(s, k),
        enc_mipp(q) == enc_mipp(p),
    ensures
        q == p,
{
    lemma_split(enc_gipa_mipp(p.gipa), enc_pair(p.vkey_opening), enc_gipa_mipp(q.gipa), enc_pair(q.vkey_opening));
    lemma_pair_inj(p.vkey_opening, q.vkey_opening, s.g2_affine, s.g2_affine);
    lemma_gipa_mipp_round_trip(s, k, p.gipa, q.gipa);
}

/// A well-formed aggregate proof is determined by its encoding: decoding
/// what `encode` wrote gives the proof back, with the same round count.
pub proof fn lemma_aggregate_round_trip(s: ElementSizes, p: AggregateProofModel, q: AggregateProofModel)
    requires
        p.wf(s),
        q.wf(s),
        enc_aggregate(q) == enc_aggregate(p),
    ensures
        q == p,
{
    lemma_auto_spec_u64_to_from_le_bytes();
    let hp = spec_u64_to_le_bytes(proof_count(p.rounds()));
    let hq = spec_u64_to_le_bytes(proof_count(q.rounds()));
    let rp = enc_pair(p.com_ab) + enc_pair(p.com_c) + p.ip_ab + p.agg_c + enc_tipp(p.proof_ab)
        + enc_mipp(p.proof_c);
    let rq = enc_pair(q.com_ab) + enc_pair(q.com_c) + q.ip_ab + q.agg_c + enc_tipp(q.proof_ab)
        + enc_mipp(q.proof_c);
    assert(enc_aggregate(p) =~= hp + rp);
    assert(enc_aggregate(q) =~= hq + rq);
    lemma_split(hp, rp, hq, rq);
    let k = p.rounds();
    lemma_pow2_small(k);
    lemma_pow2_small(q.rounds());
    if k < q.rounds() {
        lemma_pow2_strictly_increases(k, q.rounds());
    } else if q.rounds() < k {
        lemma_pow2_strictly_increases(q.rounds(), k);
    }
    assert(q.rounds() == k);
    lemma_tipp_len(s, k, p.proof_ab);
    lemma_tipp_len(s, k, q.proof_ab);
    let ap = enc_pair(p.com_ab) + enc_pair(p.com_c) + p.ip_ab + p.agg_c;
    let aq = enc_pair(q.com_ab) + enc_pair(q.com_c) + q.ip_ab + q.agg_c;
    lemma_mipp_len(s, k, p.proof_c);
    lemma_mipp_len(s, k, q.proof_c);
    lemma_split(ap + enc_tipp(p.proof_ab), enc_mipp(p.proof_c), aq + enc_tipp(q.proof_ab), enc_mipp(q.proof_c));
    lemma_split(ap, enc_tipp(p.proof_ab), aq, enc_tipp(q.proof_ab));
    lemma_split(enc_pair(p.com_ab) + enc_pair(p.com_c) + p.ip_ab, p.agg_c, enc_pair(q.com_ab) + enc_pair(q.com_c) + q.ip_ab, q.agg_c);
    lemma_split(enc_pair(p.com_ab) + enc_pair(p.com_c), p.ip_ab, enc_pair(q.com_ab) + enc_pair(q.com_c), q.ip_ab);
    lemma_split(enc_pair(p.com_ab), enc_pair(p.com_c), enc_pair(q.com_ab), enc_pair(q.com_c));
    lemma_pair_inj(p.com_ab, q.com_ab, s.fqk, s.fqk);
    lemma_pair_inj(p.com_c, q.com_c, s.fqk, s.fqk);
    lemma_tipp_round_trip(s, k, p.proof_ab, q.proof_ab);
    lemma_mipp_round_trip(s, k, p.proof_c, q.proof_c);
}

fn push_bytes(out: &mut Vec<u8>, e: &Vec<u8>)
    ensures
        final(out)@ == old(out)@ + e@,
{
    let ghost start = out@;
    let mut i: usize = 0;
    while i < e.len()
        invariant
            i <= e@.len(),
            out@ == start + e@.subrange(0, i as int),
        decreases e@.len() - i,
    {
        out.push(e[i]);
        i += 1;
        assert(out@ =~= start + e@.subrange(0, i as int));
    }
    assert(e@.subrange(0, e@.len() as int) =~= e@);
}

fn push_pair(out: &mut Vec<u8>, p: &(Vec<u8>, Vec<u8>))
    ensures
        final(out)@ == old(out)@ + enc_pair(p@),
{
    let ghost start = out@;
    push_bytes(out, &p.0);
    push_bytes(out, &p.1);
    assert(out@ =~= start + enc_pair(p@));
}

fn push_pairs(out: &mut Vec<u8>, z: &Vec<(Vec<u8>, Vec<u8>)>)
    ensures
        final(out)@ == old(out)@ + enc_pairs(pairs_view(z@)),
{
    let ghost start = out@;
    let mut i: usize = 0;
    assert(pairs_view(z@.subrange(0, 0)) =~= Seq::empty());
    assert(out@ =~= start + enc_pairs(pairs_view(z@.subrange(0, 0))));
    while i < z.len()
        invariant
            i <= z@.len(),
            out@ == start + enc_pairs(pairs_view(z@.subrange(0, i as int))),
        decreases z@.len() - i,
    {
        push_pair(out, &z[i]);
        let ghost done = pairs_view(z@.subrange(0, i as int));
        i += 1;
        let ghost next = pairs_view(z@.subrange(0, i as int));
        assert(next.drop_last() =~= done);
        assert(out@ =~= start + enc_pairs(next));
    }
    assert(z@.subrange(0, i as int) =~= z@);
}

fn push_comms(out: &mut Vec<u8>, c: &Vec<(Output, Output)>)
    ensures
        final(out)@ == old(out)@ + enc_comms(comms_view(c@)),
{
    let ghost start = out@;
    let mut i: usize = 0;
    assert(comms_view(c@.subrange(0, 0)) =~= Seq::empty());
    assert(out@ =~= start + enc_comms(comms_view(c@.subrange(0, 0))));
    while i < c.len()
        invariant
            i <= c@.len(),
            out@ == start + enc_comms(comms_view(c@.subrange(0, i as int))),
        decreases c@.len() - i,
    {
        push_pair(out, &c[i].0);
        push_pair(out, &c[i].1);
        let ghost done = comms_view(c@.subrange(0, i as int));
        i += 1;
        let ghost next = comms_view(c@.subrange(0, i as int));
        assert(next.drop_last() =~= done);
        assert(out@ =~= start + enc_comms(next));
    }
    assert(c@.subrange(0, i as int) =~= c@);
}

impl GipaTIPP {
    /// Appends the encoding of the transcript to `out`.
    pub fn encode_into(&self, out: &mut Vec<u8>)
        ensures
            final(out)@ == old(out)@ + enc_gipa_tipp(self@),
    {
        let ghost start = out@;
        push_comms(out, &self.comms);
        push_pairs(out, &self.z_vec);
        push_bytes(out, &self.final_a);
        push_bytes(out, &self.final_b);
        push_pair(out, &self.final_vkey);
        push_pair(out, &self.final_wkey);
        assert(out@ =~= start + enc_gipa_tipp(self@));
    }

    pub fn encode(&self) -> (r: Vec<u8>)
        ensures
            r@ == enc_gipa_tipp(self@),
    {
        let mut out: Vec<u8> = Vec::new();
        self.encode_into(&mut out);
        assert(out@ =~= enc_gipa_tipp(self@));
        out
    }
}

impl TIPPProof {
    /// Appends the encoding of the proof to `out`.
    pub fn encode_into(&self, out: &mut Vec<u8>)
        ensures
            final(out)@ == old(out)@ + enc_tipp(self@),
    {
        let ghost start = out@;
        self.gipa.encode_into(out);
        push_pair(out, &self.vkey_opening);
        push_pair(out, &self.wkey_opening);
        assert(out@ =~= start + enc_tipp(self@));
    }

    pub fn encode(&self) -> (r: Vec<u8>)
        ensures
            r@ == enc_tipp(self@),
    {
        let mut out: Vec<u8> = Vec::new();
        self.encode_into(&mut out);
        assert(out@ =~= enc_tipp(self@));
        out
    }
}

impl GipaMIPP {
    /// Appends the encoding of the transcript to `out`.
    pub fn encode_into(&self, out: &mut Vec<u8>)
        ensures
            final(out)@ == old(out)@ + enc_gipa_mipp(self@),
    {
        let ghost start = out@;
        push_comms(out, &self.comms);
        push_pairs(out, &self.z_vec);
        push_bytes(out, &self.final_c);
        push_bytes(out, &self.final_r);
        push_pair(out, &self.final_vkey);
        assert(out@ =~= start + enc_gipa_mipp(self@));
    }

    pub fn encode(&self) -> (r: Vec<u8>)
        ensures
            r@ == enc_gipa_mipp(self@),
    {
        let mut out: Vec<u8> = Vec::new();
        self.encode_into(&mut out);
        assert(out@ =~= enc_gipa_mipp(self@));
        out
    }
}

impl MIPPProof {
    /// Appends the encoding of the proof to `out`.
    pub fn encode_into(&self, out: &mut Vec<u8>)
        ensures
            final(out)@ == old(out)@ + enc_mipp(self@),
    {
        let ghost start = out@;
        self.gipa.encode_into(out);
        push_pair(out, &self.vkey_opening);
        assert(out@ =~= start + enc_mipp(self@));
    }

    pub fn encode(&self) -> (r: Vec<u8>)
        ensures
            r@ == enc_mipp(self@),
    {
        let mut out: Vec<u8> = Vec::new();
        self.encode_into(&mut out);
        assert(out@ =~= enc_mipp(self@));
        out
    }
}

impl AggregateProof {
    /// Number of GIPA rounds of the TIPP transcript.
    pub fn rounds(&self) -> (r: usize)
        ensures
            r == self@.rounds(),
    {
        self.proof_ab.gipa.comms.len()
    }

    /// Number of aggregated proofs, `2^rounds`.
    pub fn aggregated_count(&self) -> (r: u64)
        requires
            self@.rounds() <= MAX_ROUNDS,
        ensures
            r == proof_count(self@.rounds()),
            r == pow2(self@.rounds()),
    {
        let k = self.rounds();
        let mut r: u64 = 1;
        let mut i: usize = 0;
        proof {
            lemma2_to64();
        }
        while i < k
            invariant
                i <= k <= MAX_ROUNDS,
                r == pow2(i as nat),
                k == self@.rounds(),
            decreases k - i,
        {
            proof {
                lemma_pow2_unfold((i + 1) as nat);
                lemma_pow2_small((i + 1) as nat);
            }
            r = r * 2;
            i += 1;
        }
        proof {
            lemma_pow2_small(k as nat);
        }
        r
    }

    /// Encoding of the proof: the number of aggregated proofs, then the
    /// commitments, `ip_ab`, `agg_c` and the two sub-proofs.
    pub fn encode(&self) -> (r: Vec<u8>)
        requires
            self@.rounds() <= MAX_ROUNDS,
        ensures
            r@ == enc_aggregate(self@),
    {
        let n = self.aggregated_count();
        let mut out = u64_to_le_bytes(n);
        push_pair(&mut out, &self.com_ab);
        push_pair(&mut out, &self.com_c);
        push_bytes(&mut out, &self.ip_ab);
        push_bytes(&mut out, &self.agg_c);
        self.proof_ab.encode_into(&mut out);
        self.proof_c.encode_into(&mut out);
        assert(out@ =~= enc_aggregate(self@));
        out
    }
}

proof fn lemma_subrange_join(b: Seq<u8>, i: int, j: int, l: int)
    requires
        0 <= i <= j <= l <= b.len(),
    ensures
        b.subrange(i, j) + b.subrange(j, l) == b.subrange(i, l),
{
    assert(b.subrange(i, j) + b.subrange(j, l) =~= b.subrange(i, l));
}

fn take(b: &[u8], pos: usize, len: usize) -> (r: Vec<u8>)
    requires
        pos + len <= b@.len(),
    ensures
        r@ == b@.subrange(pos as int, pos + len),
{
    let mut r: Vec<u8> = Vec::new();
    let blen = b.len();
    assert(blen == b@.len());
    let end = pos + len;
    let mut i: usize = pos;
    while i < end
        invariant
            pos <= i <= end,
            end == pos + len,
            end <= b@.len(),
            r@ == b@.subrange(pos as int, i as int),
        decreases end - i,
    {
        r.push(b[i]);
        i += 1;
        assert(r@ =~= b@.subrange(pos as int, i as int));
    }
    r
}

fn take_pair(b: &[u8], pos: usize, a: usize, c: usize) -> (r: (Vec<u8>, Vec<u8>))
    requires
        pos + a + c <= b@.len(),
    ensures
        pair_sized(r@, a, c),
        enc_pair(r@) == b@.subrange(pos as int, pos + a + c),
{
    let blen = b.len();
    assert(blen == b@.len());
    let x = take(b, pos, a);
    let y = take(b, pos + a, c);
    proof {
        lemma_subrange_join(b@, pos as int, pos + a, pos + a + c);
    }
    (x, y)
}

fn take_pairs(b: &[u8], pos: usize, k: usize, a: usize, c: usize) -> (r: (
    Vec<(Vec<u8>, Vec<u8>)>,
    usize,
))
    requires
        pos + k * (a + c) <= b@.len(),
    ensures
        r.1 == pos + k * (a + c),
        pairs_view(r.0@).len() == k,
        pairs_sized(pairs_view(r.0@), a, c),
        enc_pairs(pairs_view(r.0@)) == b@.subrange(pos as int, r.1 as int),
{
    let mut v: Vec<(Vec<u8>, Vec<u8>)> = Vec::new();
    let mut p: usize = pos;
    let mut i: usize = 0;
    let blen = b.len();
    assert(enc_pairs(pairs_view(v@)) =~= b@.subrange(pos as int, p as int));
    while i < k
        invariant
            i <= k,
            pos + k * (a + c) <= b@.len(),
            p == pos + i * (a + c),
            blen == b@.len(),
            i * (a + c) <= k * (a + c),
            v@.len() == i,
            pairs_sized(pairs_view(v@), a, c),
            enc_pairs(pairs_view(v@)) == b@.subrange(pos as int, p as int),
        decreases k - i,
    {
        assert((i + 1) * (a + c) == i * (a + c) + (a + c)) by (nonlinear_arith);
        assert((i + 1) * (a + c) <= k * (a + c)) by (nonlinear_arith)
            requires
                i < k,
        ;
        assert(p + a + c <= b@.len());
        let x = take_pair(b, p, a, c);
        let ghost before = pairs_view(v@);
        v.push(x);
        proof {
            assert(pairs_view(v@).drop_last() =~= before);
            assert(pairs_view(v@).last() == x@);
            lemma_subrange_join(b@, pos as int, p as int, p + a + c);
            assert forall|j: int| 0 <= j < pairs_view(v@).len() implies #[trigger] pair_sized(
                pairs_view(v@)[j],
                a,
                c,
            ) by {
                if j < i {
                    assert(pairs_view(v@)[j] == before[j]);
                }
            }
        }
        p = p + a + c;
        i += 1;
    }
    (v, p)
}

fn take_comms(b: &[u8], pos: usize, k: usize, a: usize) -> (r: (Vec<(Output, Output)>, usize))
    requires
        pos + k * (4 * a) <= b@.len(),
    ensures
        r.1 == pos + k * (4 * a),
        comms_view(r.0@).len() == k,
        comms_sized(comms_view(r.0@), a),
        enc_comms(comms_view(r.0@)) == b@.subrange(pos as int, r.1 as int),
{
    let mut v: Vec<(Output, Output)> = Vec::new();
    let mut p: usize = pos;
    let mut i: usize = 0;
    let blen = b.len();
    assert(enc_comms(comms_view(v@)) =~= b@.subrange(pos as int, p as int));
    while i < k
        invariant
            i <= k,
            pos + k * (4 * a) <= b@.len(),
            p == pos + i * (4 * a),
            blen == b@.len(),
            i * (4 * a) <= k * (4 * a),
            v@.len() == i,
            comms_sized(comms_view(v@), a),
            enc_comms(comms_view(v@)) == b@.subrange(pos as int, p as int),
        decreases k - i,
    {
        assert((i + 1) * (4 * a) == i * (4 * a) + 4 * a) by (nonlinear_arith);
        assert((i + 1) * (4 * a) <= k * (4 * a)) by (nonlinear_arith)
            requires
                i < k,
        ;
        assert(p + 4 * a <= b@.len());
        let x = take_pair(b, p, a, a);
        let y = take_pair(b, p + 2 * a, a, a);
        let ghost before = comms_view(v@);
        v.push((x, y));
        proof {
            assert(comms_view(v@).drop_last() =~= before);
            assert(comms_view(v@).last() == (x@, y@));
            lemma_subrange_join(b@, pos as int, p as int, p + 2 * a);
            lemma_subrange_join(b@, pos as int, p + 2 * a, p + 4 * a);
            assert forall|j: int| 0 <= j < comms_view(v@).len() implies pair_sized(
                #[trigger] comms_view(v@)[j].0,
                a,
                a,
            ) && pair_sized(comms_view(v@)[j].1, a, a) by {
                if j < i {
                    assert(comms_view(v@)[j] == before[j]);
                }
            }
        }
        p = p + 4 * a;
        i += 1;
    }
    (v, p)
}

/// `o` is `v`, or `None` where `v` does not fit a `usize`.
pub open spec fn fits(o: Option<usize>, v: int) -> bool {
    match o {
        Some(n) => n == v,
        None => v > usize::MAX,
    }
}

fn prod(a: usize, b: usize, c: usize) -> (r: Option<usize>)
    ensures
        fits(r, a * b * c),
{
    if a == 0 || b == 0 || c == 0 {
        assert(a * b * c == 0) by (nonlinear_arith)
            requires
                a == 0 || b == 0 || c == 0,
        ;
        Some(0)
    } else {
        match a.checked_mul(b) {
            Some(ab) => {
                let r = ab.checked_mul(c);
                r
            },
            None => {
                assert(a * b * c >= a * b) by (nonlinear_arith)
                    requires
                        c >= 1,
                        a * b >= 0,
                ;
                None
            },
        }
    }
}

fn plus(x: Option<usize>, y: Option<usize>, Ghost(vx): Ghost<int>, Ghost(vy): Ghost<int>) -> (r:
    Option<usize>)
    requires
        fits(x, vx),
        fits(y, vy),
        vx >= 0,
        vy >= 0,
    ensures
        fits(r, vx + vy),
{
    match (x, y) {
        (Some(a), Some(b)) => a.checked_add(b),
        _ => None,
    }
}

fn gipa_tipp_size(s: ElementSizes, k: usize) -> (r: Option<usize>)
    ensures
        fits(r, gipa_tipp_len(s, k as nat)),
{
    let (q, f, ga, gb) = (s.fqk, s.fqk, s.g1_affine, s.g2_affine);
    proof {
        assert(k * 4 * q == k * (4 * q) && k * 2 * f == k * (2 * f) && k * (4 * q) >= 0 && k * (2
            * f) >= 0) by (nonlinear_arith);
    }
    let t = plus(prod(k, 4, q), prod(k, 2, f), Ghost(k * (4 * q)), Ghost(k * (2 * f)));
    let t = plus(t, Some(ga), Ghost(k * (4 * q) + k * (2 * f)), Ghost(ga as int));
    let t = plus(t, Some(gb), Ghost(k * (4 * q) + k * (2 * f) + ga), Ghost(gb as int));
    let t = plus(
        t,
        prod(1, 2, gb),
        Ghost(k * (4 * q) + k * (2 * f) + ga + gb),
        Ghost(2 * gb as int),
    );
    plus(
        t,
        prod(1, 2, ga),
        Ghost(k * (4 * q) + k * (2 * f) + ga + gb + 2 * gb),
        Ghost(2 * ga as int),
    )
}

fn tipp_size(s: ElementSizes, k: usize) -> (r: Option<usize>)
    ensures
        fits(r, tipp_len(s, k as nat)),
{
    let t = gipa_tipp_size(s, k);
    let t = plus(t, prod(1, 2, s.g2_affine), Ghost(gipa_tipp_len(s, k as nat)), Ghost(2 * s.g2_affine as int));
    plus(t, prod(1, 2, s.g1_affine), Ghost(gipa_tipp_len(s, k as nat) + 2 * s.g2_affine), Ghost(2 * s.g1_affine as int))
}

fn gipa_mipp_size(s: ElementSizes, k: usize) -> (r: Option<usize>)
    ensures
        fits(r, gipa_mipp_len(s, k as nat)),
{
    let (q, g) = (s.fqk, s.g1);
    proof {
        assert(k * 4 * q == k * (4 * q) && k * 2 * g == k * (2 * g) && k * (4 * q) >= 0 && k * (2
            * g) >= 0) by (nonlinear_arith);
    }
    let t = plus(prod(k, 4, q), prod(k, 2, g), Ghost(k * (4 * q)), Ghost(k * (2 * g)));
    let t = plus(t, Some(s.g1_affine), Ghost(k * (4 * q) + k * (2 * g)), Ghost(s.g1_affine as int));
    let t = plus(t, Some(s.fr), Ghost(k * (4 * q) + k * (2 * g) + s.g1_affine), Ghost(s.fr as int));
    plus(
        t,
        prod(1, 2, s.g2_affine),
        Ghost(k * (4 * q) + k * (2 * g) + s.g1_affine + s.fr),
        Ghost(2 * s.g2_affine as int),
    )
}

fn mipp_size(s: ElementSizes, k: usize) -> (r: Option<usize>)
    ensures
        fits(r, mipp_len(s, k as nat)),
{
    let t = gipa_mipp_size(s, k);
    plus(t, prod(1, 2, s.g2_affine), Ghost(gipa_mipp_len(s, k as nat)), Ghost(2 * s.g2_affine as int))
}

fn aggregate_size(s: ElementSizes, k: usize) -> (r: Option<usize>)
    ensures
        fits(r, aggregate_len(s, k as nat)),
{
    let q = s.fqk;
    let t = plus(Some(8), prod(1, 2, q), Ghost(8), Ghost(2 * q as int));
    let t = plus(t, prod(1, 2, q), Ghost(8 + 2 * q), Ghost(2 * q as int));
    let t = plus(t, Some(q), Ghost(8 + 2 * q + 2 * q), Ghost(q as int));
    let t = plus(t, Some(s.g1), Ghost(8 + 2 * q + 2 * q + q), Ghost(s.g1 as int));
    let t = plus(t, tipp_size(s, k), Ghost(8 + 2 * q + 2 * q + q + s.g1), Ghost(tipp_len(s, k as nat)));
    plus(
        t,
        mipp_size(s, k),
        Ghost(8 + 2 * q + 2 * q + q + s.g1 + tipp_len(s, k as nat)),
        Ghost(mipp_len(s, k as nat)),
    )
}

fn read_gipa_tipp(s: ElementSizes, k: usize, b: &[u8], pos: usize) -> (r: (GipaTIPP, usize))
    requires
        pos + gipa_tipp_len(s, k as nat) <= b@.len(),
    ensures
        r.1 == pos + gipa_tipp_len(s, k as nat),
        r.0@.wf(s, k as nat),
        enc_gipa_tipp(r.0@) == b@.subrange(pos as int, r.1 as int),
{
    let blen = b.len();
    assert(blen == b@.len());
    let (ga, gb, q) = (s.g1_affine, s.g2_affine, s.fqk);
    proof {
        assert(k * (q + q) == k * (2 * q) && k * (4 * q) >= 0 && k * (2 * q) >= 0)
            by (nonlinear_arith);
    }
    let (comms, p1) = take_comms(b, pos, k, q);
    let (z_vec, p2) = take_pairs(b, p1, k, q, q);
    let final_a = take(b, p2, ga);
    let p3 = p2 + ga;
    let final_b = take(b, p3, gb);
    let p4 = p3 + gb;
    let final_vkey = take_pair(b, p4, gb, gb);
    let p5 = p4 + gb + gb;
    let final_wkey = take_pair(b, p5, ga, ga);
    let p6 = p5 + ga + ga;
    let g = GipaTIPP { comms, z_vec, final_a, final_b, final_vkey, final_wkey };
    proof {
        let bb = b@;
        lemma_subrange_join(bb, pos as int, p1 as int, p2 as int);
        lemma_subrange_join(bb, pos as int, p2 as int, p3 as int);
        lemma_subrange_join(bb, pos as int, p3 as int, p4 as int);
        lemma_subrange_join(bb, pos as int, p4 as int, p5 as int);
        lemma_subrange_join(bb, pos as int, p5 as int, p6 as int);
    }
    (g, p6)
}

fn read_tipp(s: ElementSizes, k: usize, b: &[u8], pos: usize) -> (r: (TIPPProof, usize))
    requires
        pos + tipp_len(s, k as nat) <= b@.len(),
    ensures
        r.1 == pos + tipp_len(s, k as nat),
        r.0@.wf(s, k as nat),
        enc_tipp(r.0@) == b@.subrange(pos as int, r.1 as int),
{
    let blen = b.len();
    assert(blen == b@.len());
    let (ga, gb) = (s.g1_affine, s.g2_affine);
    let (gipa, p1) = read_gipa_tipp(s, k, b, pos);
    let vkey_opening = take_pair(b, p1, gb, gb);
    let p2 = p1 + gb + gb;
    let wkey_opening = take_pair(b, p2, ga, ga);
    let p3 = p2 + ga + ga;
    proof {
        lemma_subrange_join(b@, pos as int, p1 as int, p2 as int);
        lemma_subrange_join(b@, pos as int, p2 as int, p3 as int);
    }
    (TIPPProof { gipa, vkey_opening, wkey_opening }, p3)
}

fn read_gipa_mipp(s: ElementSizes, k: usize, b: &[u8], pos: usize) -> (r: (GipaMIPP, usize))
    requires
        pos + gipa_mipp_len(s, k as nat) <= b@.len(),
    ensures
        r.1 == pos + gipa_mipp_len(s, k as nat),
        r.0@.wf(s, k as nat),
        enc_gipa_mipp(r.0@) == b@.subrange(pos as int, r.1 as int),
{
    let blen = b.len();
    assert(blen == b@.len());
    let (ga, gb, q, g) = (s.g1_affine, s.g2_affine, s.fqk, s.g1);
    proof {
        assert(k * (g + g) == k * (2 * g) && k * (4 * q) >= 0 && k * (2 * g) >= 0)
            by (nonlinear_arith);
    }
    let (comms, p1) = take_comms(b, pos, k, q);
    let (z_vec, p2) = take_pairs(b, p1, k, g, g);
    let final_c = take(b, p2, ga);
    let p3 = p2 + ga;
    let final_r = take(b, p3, s.fr);
    let p4 = p3 + s.fr;
    let final_vkey = take_pair(b, p4, gb, gb);
    let p5 = p4 + gb + gb;
    let m = GipaMIPP { comms, z_vec, final_c, final_r, final_vkey };
    proof {
        let bb = b@;
        lemma_subrange_join(bb, pos as int, p1 as int, p2 as int);
        lemma_subrange_join(bb, pos as int, p2 as int, p3 as int);
        lemma_subrange_join(bb, pos as int, p3 as int, p4 as int);
        lemma_subrange_join(bb, pos as int, p4 as int, p5 as int);
    }
    (m, p5)
}

fn read_mipp(s: ElementSizes, k: usize, b: &[u8], pos: usize) -> (r: (MIPPProof, usize))
    requires
        pos + mipp_len(s, k as nat) <= b@.len(),
    ensures
        r.1 == pos + mipp_len(s, k as nat),
        r.0@.wf(s, k as nat),
        enc_mipp(r.0@) == b@.subrange(pos as int, r.1 as int),
{
    let blen = b.len();
    assert(blen == b@.len());
    let gb = s.g2_affine;
    let (gipa, p1) = read_gipa_mipp(s, k, b, pos);
    let vkey_opening = take_pair(b, p1, gb, gb);
    let p2 = p1 + gb + gb;
    proof {
        lemma_subrange_join(b@, pos as int, p1 as int, p2 as int);
    }
    (MIPPProof { gipa, vkey_opening }, p2)
}

impl GipaTIPP {
    /// Reads a transcript of `rounds` rounds that fills `bytes` exactly.
    pub fn decode(s: ElementSizes, rounds: usize, bytes: &[u8]) -> (r: Result<GipaTIPP, ProofError>)
        ensures
            r is Ok <==> bytes@.len() == gipa_tipp_len(s, rounds as nat),
            r matches Ok(g) ==> g@.wf(s, rounds as nat) && enc_gipa_tipp(g@) == bytes@,
            r matches Err(e) ==> e is LengthMismatch && forall|m: GipaTIPPModel|
                m.wf(s, rounds as nat) ==> enc_gipa_tipp(m) != bytes@,
    {
        let size = gipa_tipp_size(s, rounds);
        let blen = bytes.len();
        assert(blen == bytes@.len());
        if size.is_some() && size.unwrap() == blen {
            let (g, end) = read_gipa_tipp(s, rounds, bytes, 0);
            assert(bytes@.subrange(0, end as int) =~= bytes@);
            Ok(g)
        } else {
            proof {
                assert forall|m: GipaTIPPModel| m.wf(s, rounds as nat) implies enc_gipa_tipp(m)
                    != bytes@ by {
                    lemma_gipa_tipp_len(s, rounds as nat, m);
                }
            }
            Err(ProofError::LengthMismatch)
        }
    }
}

impl TIPPProof {
    /// Reads a proof of `rounds` rounds that fills `bytes` exactly.
    pub fn decode(s: ElementSizes, rounds: usize, bytes: &[u8]) -> (r: Result<TIPPProof, ProofError>)
        ensures
            r is Ok <==> bytes@.len() == tipp_len(s, rounds as nat),
            r matches Ok(p) ==> p@.wf(s, rounds as nat) && enc_tipp(p@) == bytes@,
            r matches Err(e) ==> e is LengthMismatch && forall|m: TIPPProofModel|
                m.wf(s, rounds as nat) ==> enc_tipp(m) != bytes@,
    {
        let size = tipp_size(s, rounds);
        let blen = bytes.len();
        assert(blen == bytes@.len());
        if size.is_some() && size.unwrap() == blen {
            let (p, end) = read_tipp(s, rounds, bytes, 0);
            assert(bytes@.subrange(0, end as int) =~= bytes@);
            Ok(p)
        } else {
            proof {
                assert forall|m: TIPPProofModel| m.wf(s, rounds as nat) implies enc_tipp(m)
                    != bytes@ by {
                    lemma_tipp_len(s, rounds as nat, m);
                }
            }
            Err(ProofError::LengthMismatch)
        }
    }
}

impl GipaMIPP {
    /// Reads a transcript of `rounds` rounds that fills `bytes` exactly.
    pub fn decode(s: ElementSizes, rounds: usize, bytes: &[u8]) -> (r: Result<GipaMIPP, ProofError>)
        ensures
            r is Ok <==> bytes@.len() == gipa_mipp_len(s, rounds as nat),
            r matches Ok(g) ==> g@.wf(s, rounds as nat) && enc_gipa_mipp(g@) == bytes@,
            r matches Err(e) ==> e is LengthMismatch && forall|m: GipaMIPPModel|
                m.wf(s, rounds as nat) ==> enc_gipa_mipp(m) != bytes@,
    {
        let size = gipa_mipp_size(s, rounds);
        let blen = bytes.len();
        assert(blen == bytes@.len());
        if size.is_some() && size.unwrap() == blen {
            let (g, end) = read_gipa_mipp(s, rounds, bytes, 0);
            assert(bytes@.subrange(0, end as int) =~= bytes@);
            Ok(g)
        } else {
            proof {
                assert forall|m: GipaMIPPModel| m.wf(s, rounds as nat) implies enc_gipa_mipp(m)
                    != bytes@ by {
                    lemma_gipa_mipp_len(s, rounds as nat, m);
                }
            }
            Err(ProofError::LengthMismatch)
        }
    }
}

impl MIPPProof {
    /// Reads a proof of `rounds` rounds that fills `bytes` exactly.
    pub fn decode(s: ElementSizes, rounds: usize, bytes: &[u8]) -> (r: Result<MIPPProof, ProofError>)
        ensures
            r is Ok <==> bytes@.len() == mipp_len(s, rounds as nat),
            r matches Ok(p) ==> p@.wf(s, rounds as nat) && enc_mipp(p@) == bytes@,
            r matches Err(e) ==> e is LengthMismatch && forall|m: MIPPProofModel|
                m.wf(s, rounds as nat) ==> enc_mipp(m) != bytes@,
    {
        let size = mipp_size(s, rounds);
        let blen = bytes.len();
        assert(blen == bytes@.len());
        if size.is_some() && size.unwrap() == blen {
            let (p, end) = read_mipp(s, rounds, bytes, 0);
            assert(bytes@.subrange(0, end as int) =~= bytes@);
            Ok(p)
        } else {
            proof {
                assert forall|m: MIPPProofModel| m.wf(s, rounds as nat) implies enc_mipp(m)
                    != bytes@ by {
                    lemma_mipp_len(s, rounds as nat, m);
                }
            }
            Err(ProofError::LengthMismatch)
        }
    }
}

/// The number of aggregated proofs that the first eight bytes advertise.
pub open spec fn header_count(b: Seq<u8>) -> u64 {
    spec_u64_from_le_bytes(b.subrange(0, 8))
}

/// `n` proofs make a transcript of `k` rounds.
pub open spec fn is_round_count(n: u64, k: nat) -> bool {
    k <= MAX_ROUNDS && pow2(k) == n
}

proof fn lemma_pow2_inj(a: nat, b: nat)
    requires
        pow2(a) == pow2(b),
    ensures
        a == b,
{
    if a < b {
        lemma_pow2_strictly_increases(a, b);
    } else if b < a {
        lemma_pow2_strictly_increases(b, a);
    }
}

/// The round count of an aggregate of `n` proofs: `log2(n)` where `n` is a
/// power of two not above `2^MAX_ROUNDS`.
pub fn round_count(n: u64) -> (r: Option<usize>)
    ensures
        r matches Some(k) ==> is_round_count(n, k as nat),
        r is None ==> forall|k: nat| !is_round_count(n, k),
{
    let mut p: u64 = 1;
    let mut k: usize = 0;
    proof {
        lemma2_to64();
    }
    while p < n && k < MAX_ROUNDS
        invariant
            k <= MAX_ROUNDS,
            p == pow2(k as nat),
            forall|j: nat| j < k ==> #[trigger] pow2(j) < n,
        decreases MAX_ROUNDS - k,
    {
        proof {
            lemma_pow2_unfold((k + 1) as nat);
            lemma_pow2_small((k + 1) as nat);
        }
        p = p * 2;
        k += 1;
    }
    if p == n {
        Some(k)
    } else {
        proof {
            assert forall|j: nat| !is_round_count(n, j) by {
                if j > k && j <= MAX_ROUNDS {
                    lemma_pow2_strictly_increases(k as nat, j);
                }
            }
        }
        None
    }
}

proof fn lemma_aggregate_header(s: ElementSizes, m: AggregateProofModel)
    requires
        m.wf(s),
    ensures
        enc_aggregate(m).len() >= 8,
        is_round_count(header_count(enc_aggregate(m)), m.rounds()),
        enc_aggregate(m).len() == aggregate_len(s, m.rounds()),
{
    lemma_aggregate_len(s, m);
    lemma_auto_spec_u64_to_from_le_bytes();
    lemma_pow2_small(m.rounds());
}

impl AggregateProof {
    /// Reads an aggregate proof that fills `bytes` exactly. The header must
    /// advertise `2^k` proofs and the rest must hold two transcripts of `k`
    /// rounds each.
    pub fn decode(s: ElementSizes, bytes: &[u8]) -> (r: Result<AggregateProof, ProofError>)
        ensures
            r matches Err(e) && e is Truncated <==> bytes@.len() < 8,
            r matches Err(e) && e is BadProofCount <==> bytes@.len() >= 8 && forall|k: nat|
                !is_round_count(header_count(bytes@), k),
            r matches Err(e) && e is LengthMismatch <==> bytes@.len() >= 8 && exists|k: nat|
                is_round_count(header_count(bytes@), k) && bytes@.len() != aggregate_len(s, k),
            r matches Ok(p) ==> p@.wf(s) && enc_aggregate(p@) == bytes@ && pow2(p@.rounds())
                == header_count(bytes@),
            r is Err ==> forall|m: AggregateProofModel| m.wf(s) ==> enc_aggregate(m) != bytes@,
    {
        let blen = bytes.len();
        assert(blen == bytes@.len());
        if blen < 8 {
            proof {
                assert forall|m: AggregateProofModel| m.wf(s) implies enc_aggregate(m) != bytes@ by {
                    lemma_aggregate_header(s, m);
                }
            }
            return Err(ProofError::Truncated);
        }
        let n = u64_from_le_bytes(slice_subrange(bytes, 0, 8));
        assert(n == header_count(bytes@));
        let k = match round_count(n) {
            Some(k) => k,
            None => {
                proof {
                    assert forall|m: AggregateProofModel| m.wf(s) implies enc_aggregate(m)
                        != bytes@ by {
                        lemma_aggregate_header(s, m);
                    }
                }
                return Err(ProofError::BadProofCount);
            },
        };
        proof {
            assert forall|j: nat| is_round_count(n, j) implies j == k by {
                lemma_pow2_inj(j, k as nat);
            }
        }
        let size = aggregate_size(s, k);
        if !(size.is_some() && size.unwrap() == blen) {
            proof {
                assert forall|m: AggregateProofModel| m.wf(s) implies enc_aggregate(m)
                    != bytes@ by {
                    lemma_aggregate_header(s, m);
                }
            }
            return Err(ProofError::LengthMismatch);
        }
        let q = s.fqk;
        let com_ab = take_pair(bytes, 8, q, q);
        let p1 = 8 + q + q;
        let com_c = take_pair(bytes, p1, q, q);
        let p2 = p1 + q + q;
        let ip_ab = take(bytes, p2, q);
        let p3 = p2 + q;
        let agg_c = take(bytes, p3, s.g1);
        let p4 = p3 + s.g1;
        let (proof_ab, p5) = read_tipp(s, k, bytes, p4);
        let (proof_c, p6) = read_mipp(s, k, bytes, p5);
        let p = AggregateProof { com_ab, com_c, ip_ab, agg_c, proof_ab, proof_c };
        proof {
            let bb = bytes@;
            lemma_pow2_small(k as nat);
            lemma_auto_spec_u64_to_from_le_bytes();
            assert(bb.subrange(0, 8).len() == 8);
            assert(spec_u64_to_le_bytes(proof_count(k as nat)) == bb.subrange(0, 8));
            lemma_subrange_join(bb, 0, 8, p1 as int);
            lemma_subrange_join(bb, 0, p1 as int, p2 as int);
            lemma_subrange_join(bb, 0, p2 as int, p3 as int);
            lemma_subrange_join(bb, 0, p3 as int, p4 as int);
            lemma_subrange_join(bb, 0, p4 as int, p5 as int);
            lemma_subrange_join(bb, 0, p5 as int, p6 as int);
            assert(bb.subrange(0, p6 as int) =~= bb);
            assert(p@.rounds() == k);
        }
        Ok(p)
    }
}

/// An aggregate of `n = 2^k` proofs, `n` as its encoding advertises it,
/// holds `k` rounds in each transcript: `k` commitment pairs and `k`
/// product pairs in the TIPP transcript and in the MIPP transcript.
pub proof fn lemma_transcript_length(s: ElementSizes, m: AggregateProofModel)
    requires
        m.wf(s),
    ensures
        is_round_count(header_count(enc_aggregate(m)), m.rounds()),
        m.proof_ab.gipa.comms.len() == m.rounds(),
        m.proof_ab.gipa.z_vec.len() == m.rounds(),
        m.proof_c.gipa.comms.len() == m.rounds(),
        m.proof_c.gipa.z_vec.len() == m.rounds(),
{
    lemma_aggregate_header(s, m);
}

} // verus!
