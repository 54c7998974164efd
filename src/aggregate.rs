use vstd::prelude::*;

verus! {

/// Encoding widths, in bytes, of the elements of a pairing engine: the
/// affine points of both source groups, a projective point of the first
/// group, an element of the target group and a scalar.
///
/// Every element of a proof is held as its canonical encoding, so one value
/// of this type fixes the engine for the whole proof.
#[derive(Clone, Copy, Debug, PartialEq, Eq, Structural)]
pub struct ElementSizes {
    pub g1_affine: usize,
    pub g2_affine: usize,
    pub g1: usize,
    pub fqk: usize,
    pub fr: usize,
}

impl ElementSizes {
    /// Compressed encodings of BLS12-381.
    pub fn bls12_381() -> (r: ElementSizes)
        ensures
            r.g1_affine == 48 && r.g2_affine == 96 && r.g1 == 48 && r.fqk == 576 && r.fr == 32,
    {
        ElementSizes { g1_affine: 48, g2_affine: 96, g1: 48, fqk: 576, fr: 32 }
    }
}

/// Encoding of a pair of elements.
pub type EncPair = (Seq<u8>, Seq<u8>);

/// A commitment output of the pair commitment scheme: two target-group
/// elements.
pub type Output = (Vec<u8>, Vec<u8>);

/// KZG opening of a commitment key: two elements of one group.
pub type KZGOpening = (Vec<u8>, Vec<u8>);

pub open spec fn pair_sized(p: EncPair, a: usize, b: usize) -> bool {
    p.0.len() == a && p.1.len() == b
}

pub open spec fn pairs_sized(z: Seq<EncPair>, a: usize, b: usize) -> bool {
    forall|i: int| 0 <= i < z.len() ==> #[trigger] pair_sized(z[i], a, b)
}

pub open spec fn comms_sized(c: Seq<(EncPair, EncPair)>, a: usize) -> bool {
    forall|i: int|
        0 <= i < c.len() ==> pair_sized(#[trigger] c[i].0, a, a) && pair_sized(c[i].1, a, a)
}

pub open spec fn pairs_view(z: Seq<(Vec<u8>, Vec<u8>)>) -> Seq<EncPair> {
    z.map_values(|x: (Vec<u8>, Vec<u8>)| x@)
}

pub open spec fn comms_view(c: Seq<(Output, Output)>) -> Seq<(EncPair, EncPair)> {
    c.map_values(|x: (Output, Output)| x@)
}

/// GIPA transcript of the TIPP argument: for each round the left and right
/// commitments `((T_L, U_L), (T_R, U_R))` and the left and right pairing
/// products `(Z_L, Z_R)`, then the folded `A`, `B` and commitment keys.
pub struct GipaTIPP {
    pub comms: Vec<(Output, Output)>,
    pub z_vec: Vec<(Vec<u8>, Vec<u8>)>,
    pub final_a: Vec<u8>,
    pub final_b: Vec<u8>,
    pub final_vkey: (Vec<u8>, Vec<u8>),
    pub final_wkey: (Vec<u8>, Vec<u8>),
}

pub struct GipaTIPPModel {
    pub comms: Seq<(EncPair, EncPair)>,
    pub z_vec: Seq<EncPair>,
    pub final_a: Seq<u8>,
    pub final_b: Seq<u8>,
    pub final_vkey: EncPair,
    pub final_wkey: EncPair,
}

impl View for GipaTIPP {
    type V = GipaTIPPModel;

    open spec fn view(&self) -> GipaTIPPModel {
        GipaTIPPModel {
            comms: comms_view(self.comms@),
            z_vec: pairs_view(self.z_vec@),
            final_a: self.final_a@,
            final_b: self.final_b@,
            final_vkey: self.final_vkey@,
            final_wkey: self.final_wkey@,
        }
    }
}

impl GipaTIPPModel {
    /// `k` rounds, every element of the width its group has.
    pub open spec fn wf(self, s: ElementSizes, k: nat) -> bool {
        &&& self.comms.len() == k
        &&& self.z_vec.len() == k
        &&& comms_sized(self.comms, s.fqk)
        &&& pairs_sized(self.z_vec, s.fqk, s.fqk)
        &&& self.final_a.len() == s.g1_affine
        &&& self.final_b.len() == s.g2_affine
        &&& pair_sized(self.final_vkey, s.g2_affine, s.g2_affine)
        &&& pair_sized(self.final_wkey, s.g1_affine, s.g1_affine)
    }
}

/// TIPP proof: the GIPA transcript and the KZG openings of the final `v`
/// and `w` commitment keys.
pub struct TIPPProof {
    pub gipa: GipaTIPP,
    pub vkey_opening: KZGOpening,
    pub wkey_opening: KZGOpening,
}

pub struct TIPPProofModel {
    pub gipa: GipaTIPPModel,
    pub vkey_opening: EncPair,
    pub wkey_opening: EncPair,
}

impl View for TIPPProof {
    type V = TIPPProofModel;

    open spec fn view(&self) -> TIPPProofModel {
        TIPPProofModel {
            gipa: self.gipa@,
            vkey_opening: self.vkey_opening@,
            wkey_opening: self.wkey_opening@,
        }
    }
}

impl TIPPProofModel {
    pub open spec fn wf(self, s: ElementSizes, k: nat) -> bool {
        &&& self.gipa.wf(s, k)
        &&& pair_sized(self.vkey_opening, s.g2_affine, s.g2_affine)
        &&& pair_sized(self.wkey_opening, s.g1_affine, s.g1_affine)
    }
}

/// GIPA transcript of the MIPP argument: for each round the left and right
/// commitments and the left and right multi-exponentiations `(Z_L, Z_R)`,
/// then the folded `C`, the folded scalar `r` and the final `v` key.
pub struct GipaMIPP {
    pub comms: Vec<(Output, Output)>,
    pub z_vec: Vec<(Vec<u8>, Vec<u8>)>,
    pub final_c: Vec<u8>,
    pub final_r: Vec<u8>,
    pub final_vkey: (Vec<u8>, Vec<u8>),
}

pub struct GipaMIPPModel {
    pub comms: Seq<(EncPair, EncPair)>,
    pub z_vec: Seq<EncPair>,
    pub final_c: Seq<u8>,
    pub final_r: Seq<u8>,
    pub final_vkey: EncPair,
}

impl View for GipaMIPP {
    type V = GipaMIPPModel;

    open spec fn view(&self) -> GipaMIPPModel {
        GipaMIPPModel {
            comms: comms_view(self.comms@),
            z_vec: pairs_view(self.z_vec@),
            final_c: self.final_c@,
            final_r: self.final_r@,
            final_vkey: self.final_vkey@,
        }
    }
}

impl GipaMIPPModel {
    pub open spec fn wf(self, s: ElementSizes, k: nat) -> bool {
        &&& self.comms.len() == k
        &&& self.z_vec.len() == k
        &&& comms_sized(self.comms, s.fqk)
        &&& pairs_sized(self.z_vec, s.g1, s.g1)
        &&& self.final_c.len() == s.g1_affine
        &&& self.final_r.len() == s.fr
        &&& pair_sized(self.final_vkey, s.g2_affine, s.g2_affine)
    }
}

/// MIPP proof: the GIPA transcript and the KZG opening of the final `v` key.
pub struct MIPPProof {
    pub gipa: GipaMIPP,
    pub vkey_opening: KZGOpening,
}

pub struct MIPPProofModel {
    pub gipa: GipaMIPPModel,
    pub vkey_opening: EncPair,
}

impl View for MIPPProof {
    type V = MIPPProofModel;

    open spec fn view(&self) -> MIPPProofModel {
        MIPPProofModel { gipa: self.gipa@, vkey_opening: self.vkey_opening@ }
    }
}

impl MIPPProofModel {
    pub open spec fn wf(self, s: ElementSizes, k: nat) -> bool {
        &&& self.gipa.wf(s, k)
        &&& pair_sized(self.vkey_opening, s.g2_affine, s.g2_affine)
    }
}

/// Largest number of GIPA rounds: an aggregate of `2^k` proofs must have its
/// size fit the 64-bit header.
pub const MAX_ROUNDS: usize = 63;

/// An aggregate of `n = 2^k` Groth16 proofs: commitments to the `A`, `B`
/// vectors and to the `C` vector, the aggregated pairing product `ip_ab`,
/// the aggregated `agg_c`, and the TIPP and MIPP proofs of `k` rounds each.
pub struct AggregateProof {
    pub com_ab: Output,
    pub com_c: Output,
    pub ip_ab: Vec<u8>,
    pub agg_c: Vec<u8>,
    pub proof_ab: TIPPProof,
    pub proof_c: MIPPProof,
}

pub struct AggregateProofModel {
    pub com_ab: EncPair,
    pub com_c: EncPair,
    pub ip_ab: Seq<u8>,
    pub agg_c: Seq<u8>,
    pub proof_ab: TIPPProofModel,
    pub proof_c: MIPPProofModel,
}

impl View for AggregateProof {
    type V = AggregateProofModel;

    open spec fn view(&self) -> AggregateProofModel {
        AggregateProofModel {
            com_ab: self.com_ab@,
            com_c: self.com_c@,
            ip_ab: self.ip_ab@,
            agg_c: self.agg_c@,
            proof_ab: self.proof_ab@,
            proof_c: self.proof_c@,
        }
    }
}

impl AggregateProofModel {
    /// Number of GIPA rounds, `log2` of the number of aggregated proofs.
    pub open spec fn rounds(self) -> nat {
        self.proof_ab.gipa.comms.len()
    }

    /// Both transcripts have `rounds()` rounds, at most `MAX_ROUNDS`, and
    /// every element has the width of its group.
    pub open spec fn wf(self, s: ElementSizes) -> bool {
        &&& self.rounds() <= MAX_ROUNDS
        &&& pair_sized(self.com_ab, s.fqk, s.fqk)
        &&& pair_sized(self.com_c, s.fqk, s.fqk)
        &&& self.ip_ab.len() == s.fqk
        &&& self.agg_c.len() == s.g1
        &&& self.proof_ab.wf(s, self.rounds())
        &&& self.proof_c.wf(s, self.rounds())
    }
}

} // verus!
