use aggproof::aggregate::{
    AggregateProof, ElementSizes, GipaMIPP, GipaTIPP, MIPPProof, Output, TIPPProof,
};
use aggproof::codec::round_count;
use aggproof::error::ProofError;

fn small() -> ElementSizes {
    ElementSizes { g1_affine: 2, g2_affine: 3, g1: 2, fqk: 4, fr: 1 }
}

fn elem(len: usize, seed: u8) -> Vec<u8> {
    (0..len).map(|i| seed.wrapping_mul(31).wrapping_add(i as u8)).collect()
}

fn pair(len: usize, seed: u8) -> (Vec<u8>, Vec<u8>) {
    (elem(len, seed), elem(len, seed.wrapping_add(1)))
}

fn comms(s: &ElementSizes, k: usize, seed: u8) -> Vec<(Output, Output)> {
    (0..k)
        .map(|i| {
            let t = seed.wrapping_add(4 * i as u8);
            (pair(s.fqk, t), pair(s.fqk, t.wrapping_add(2)))
        })
        .collect()
}

fn gipa_tipp(s: &ElementSizes, k: usize) -> GipaTIPP {
    GipaTIPP {
        comms: comms(s, k, 10),
        z_vec: (0..k).map(|i| pair(s.fqk, 60 + 2 * i as u8)).collect(),
        final_a: elem(s.g1_affine, 90),
        final_b: elem(s.g2_affine, 91),
        final_vkey: pair(s.g2_affine, 92),
        final_wkey: pair(s.g1_affine, 94),
    }
}

fn gipa_mipp(s: &ElementSizes, k: usize) -> GipaMIPP {
    GipaMIPP {
        comms: comms(s, k, 110),
        z_vec: (0..k).map(|i| pair(s.g1, 160 + 2 * i as u8)).collect(),
        final_c: elem(s.g1_affine, 190),
        final_r: elem(s.fr, 191),
        final_vkey: pair(s.g2_affine, 192),
    }
}

fn tipp(s: &ElementSizes, k: usize) -> TIPPProof {
    TIPPProof {
        gipa: gipa_tipp(s, k),
        vkey_opening: pair(s.g2_affine, 200),
        wkey_opening: pair(s.g1_affine, 202),
    }
}

fn mipp(s: &ElementSizes, k: usize) -> MIPPProof {
    MIPPProof { gipa: gipa_mipp(s, k), vkey_opening: pair(s.g2_affine, 210) }
}

fn aggregate(s: &ElementSizes, k: usize) -> AggregateProof {
    AggregateProof {
        com_ab: pair(s.fqk, 1),
        com_c: pair(s.fqk, 3),
        ip_ab: elem(s.fqk, 5),
        agg_c: elem(s.g1, 6),
        proof_ab: tipp(s, k),
        proof_c: mipp(s, k),
    }
}

fn same_gipa_tipp(a: &GipaTIPP, b: &GipaTIPP) {
    assert_eq!(a.comms, b.comms);
    assert_eq!(a.z_vec, b.z_vec);
    assert_eq!(a.final_a, b.final_a);
    assert_eq!(a.final_b, b.final_b);
    assert_eq!(a.final_vkey, b.final_vkey);
    assert_eq!(a.final_wkey, b.final_wkey);
}

fn same_gipa_mipp(a: &GipaMIPP, b: &GipaMIPP) {
    assert_eq!(a.comms, b.comms);
    assert_eq!(a.z_vec, b.z_vec);
    assert_eq!(a.final_c, b.final_c);
    assert_eq!(a.final_r, b.final_r);
    assert_eq!(a.final_vkey, b.final_vkey);
}

fn same_aggregate(a: &AggregateProof, b: &AggregateProof) {
    assert_eq!(a.com_ab, b.com_ab);
    assert_eq!(a.com_c, b.com_c);
    assert_eq!(a.ip_ab, b.ip_ab);
    assert_eq!(a.agg_c, b.agg_c);
    same_gipa_tipp(&a.proof_ab.gipa, &b.proof_ab.gipa);
    assert_eq!(a.proof_ab.vkey_opening, b.proof_ab.vkey_opening);
    assert_eq!(a.proof_ab.wkey_opening, b.proof_ab.wkey_opening);
    same_gipa_mipp(&a.proof_c.gipa, &b.proof_c.gipa);
    assert_eq!(a.proof_c.vkey_opening, b.proof_c.vkey_opening);
}

#[test]
fn aggregate_round_trip_for_each_size() {
    let s = small();
    for k in 0..7 {
        let p = aggregate(&s, k);
        let bytes = p.encode();
        let q = AggregateProof::decode(s, &bytes).ok().expect("decodes");
        assert_eq!(q.rounds(), k);
        assert_eq!(q.aggregated_count(), 1u64 << k);
        same_aggregate(&p, &q);
        assert_eq!(q.encode(), bytes);
    }
}

#[test]
fn aggregate_round_trip_bls12_381() {
    let s = ElementSizes::bls12_381();
    let p = aggregate(&s, 3);
    let bytes = p.encode();
    let q = AggregateProof::decode(s, &bytes).ok().expect("decodes");
    same_aggregate(&p, &q);
}

#[test]
fn bls12_381_widths() {
    let s = ElementSizes::bls12_381();
    assert_eq!((s.g1_affine, s.g2_affine, s.g1, s.fqk, s.fr), (48, 96, 48, 576, 32));
}

#[test]
fn aggregate_encoding_length_and_header() {
    let s = small();
    // 8 + 5 fqk + g1 + k (10 fqk + 2 g1) + 6 g1_affine + 9 g2_affine + fr
    let bytes = aggregate(&s, 1).encode();
    assert_eq!(bytes.len(), 114);
    assert_eq!(&bytes[0..8], &[2, 0, 0, 0, 0, 0, 0, 0]);
    let bytes = aggregate(&s, 2).encode();
    assert_eq!(bytes.len(), 114 + 44);
    assert_eq!(&bytes[0..8], &[4, 0, 0, 0, 0, 0, 0, 0]);
    // the commitments follow the header
    assert_eq!(&bytes[8..12], &pair(s.fqk, 1).0[..]);
}

#[test]
fn single_proof_has_no_rounds() {
    let s = small();
    let p = aggregate(&s, 0);
    let bytes = p.encode();
    assert_eq!(&bytes[0..8], &[1, 0, 0, 0, 0, 0, 0, 0]);
    let q = AggregateProof::decode(s, &bytes).ok().expect("decodes");
    assert_eq!(q.rounds(), 0);
    assert!(q.proof_ab.gipa.comms.is_empty());
    assert!(q.proof_ab.gipa.z_vec.is_empty());
    assert!(q.proof_c.gipa.comms.is_empty());
    assert!(q.proof_c.gipa.z_vec.is_empty());
    assert_eq!(q.proof_ab.gipa.final_a, p.proof_ab.gipa.final_a);
    assert_eq!(q.proof_ab.gipa.final_b, p.proof_ab.gipa.final_b);
}

#[test]
fn transcript_lengths_follow_the_advertised_count() {
    let s = small();
    for k in 0..7 {
        let bytes = aggregate(&s, k).encode();
        let q = AggregateProof::decode(s, &bytes).ok().expect("decodes");
        let n = u64::from_le_bytes(bytes[0..8].try_into().unwrap());
        assert_eq!(n, 1u64 << k);
        assert_eq!(q.proof_ab.gipa.comms.len(), k);
        assert_eq!(q.proof_ab.gipa.z_vec.len(), k);
        assert_eq!(q.proof_c.gipa.comms.len(), k);
        assert_eq!(q.proof_c.gipa.z_vec.len(), k);
    }
}

#[test]
fn short_input_is_truncated() {
    let s = small();
    assert!(matches!(AggregateProof::decode(s, &[]), Err(ProofError::Truncated)));
    assert!(matches!(AggregateProof::decode(s, &[1, 0, 0, 0, 0, 0, 0]), Err(ProofError::Truncated)));
}

#[test]
fn count_that_is_no_power_of_two_is_refused() {
    let s = small();
    let mut bytes = aggregate(&s, 2).encode();
    bytes[0] = 3;
    assert!(matches!(AggregateProof::decode(s, &bytes), Err(ProofError::BadProofCount)));
    bytes[0] = 0;
    assert!(matches!(AggregateProof::decode(s, &bytes), Err(ProofError::BadProofCount)));
}

#[test]
fn count_that_disagrees_with_the_rounds_is_refused() {
    let s = small();
    let mut bytes = aggregate(&s, 2).encode();
    bytes[0] = 8;
    assert!(matches!(AggregateProof::decode(s, &bytes), Err(ProofError::LengthMismatch)));
    let mut bytes = aggregate(&s, 2).encode();
    bytes.push(0);
    assert!(matches!(AggregateProof::decode(s, &bytes), Err(ProofError::LengthMismatch)));
    bytes.truncate(bytes.len() - 2);
    assert!(matches!(AggregateProof::decode(s, &bytes), Err(ProofError::LengthMismatch)));
}

#[test]
fn sub_proofs_round_trip() {
    let s = small();
    for k in 0..5 {
        let g = gipa_tipp(&s, k);
        let h = GipaTIPP::decode(s, k, &g.encode()).ok().expect("decodes");
        same_gipa_tipp(&g, &h);

        let g = gipa_mipp(&s, k);
        let h = GipaMIPP::decode(s, k, &g.encode()).ok().expect("decodes");
        same_gipa_mipp(&g, &h);

        let t = tipp(&s, k);
        let u = TIPPProof::decode(s, k, &t.encode()).ok().expect("decodes");
        same_gipa_tipp(&t.gipa, &u.gipa);
        assert_eq!(t.vkey_opening, u.vkey_opening);
        assert_eq!(t.wkey_opening, u.wkey_opening);

        let m = mipp(&s, k);
        let n = MIPPProof::decode(s, k, &m.encode()).ok().expect("decodes");
        same_gipa_mipp(&m.gipa, &n.gipa);
        assert_eq!(m.vkey_opening, n.vkey_opening);
    }
}

#[test]
fn sub_proof_with_other_round_count_is_refused() {
    let s = small();
    let bytes = tipp(&s, 2).encode();
    assert!(matches!(TIPPProof::decode(s, 1, &bytes), Err(ProofError::LengthMismatch)));
    assert!(matches!(TIPPProof::decode(s, 3, &bytes), Err(ProofError::LengthMismatch)));
    let bytes = mipp(&s, 2).encode();
    assert!(matches!(MIPPProof::decode(s, 1, &bytes), Err(ProofError::LengthMismatch)));
    let bytes = gipa_tipp(&s, 1).encode();
    assert!(matches!(GipaTIPP::decode(s, 0, &bytes), Err(ProofError::LengthMismatch)));
    let bytes = gipa_mipp(&s, 1).encode();
    assert!(matches!(GipaMIPP::decode(s, usize::MAX, &bytes), Err(ProofError::LengthMismatch)));
}

#[test]
fn sub_proof_encoding_lengths() {
    let s = small();
    // 6 k fqk + 5 g1_affine + 5 g2_affine
    assert_eq!(tipp(&s, 2).encode().len(), 48 + 10 + 15);
    // k (4 fqk + 2 g1) + g1_affine + fr + 4 g2_affine
    assert_eq!(mipp(&s, 2).encode().len(), 40 + 2 + 1 + 12);
}

#[test]
fn round_counts() {
    assert_eq!(round_count(1), Some(0));
    assert_eq!(round_count(2), Some(1));
    assert_eq!(round_count(64), Some(6));
    assert_eq!(round_count(1u64 << 63), Some(63));
    assert_eq!(round_count(0), None);
    assert_eq!(round_count(6), None);
    assert_eq!(round_count(u64::MAX), None);
}
