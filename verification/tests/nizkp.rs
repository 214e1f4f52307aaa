use ferveo::bls12_381::fr::Scalar;
use ferveo::bls12_381::g1::G1Point;
use ferveo::curve25519::{MontgomeryPoint, Scalar25519};
use ferveo::syncvss::nizkp::{SchnorrPoK, NIZKP, NIZKP_Pallas};
use rand::rngs::StdRng;
use rand::{RngCore, SeedableRng};
use x25519_dalek::{PublicKey, StaticSecret};

fn x25519_basepoint() -> MontgomeryPoint {
    MontgomeryPoint(curve25519_dalek::constants::X25519_BASEPOINT.to_bytes())
}

// A Diffie-Hellman statement: (alice's public key, bob's public key, their
// shared secret, alice's secret scalar).
fn dh_statement(
    rng: &mut StdRng,
) -> (MontgomeryPoint, MontgomeryPoint, MontgomeryPoint, Scalar25519) {
    let alice_secret = StaticSecret::new(&mut *rng);
    let alice_public = PublicKey::from(&alice_secret);
    let bob_secret = StaticSecret::new(&mut *rng);
    let bob_public = PublicKey::from(&bob_secret);
    let alice_shared_secret = alice_secret.diffie_hellman(&bob_public);
    (
        MontgomeryPoint(alice_public.to_bytes()),
        MontgomeryPoint(bob_public.to_bytes()),
        MontgomeryPoint(alice_shared_secret.to_bytes()),
        Scalar25519::from_bytes_mod_order(alice_secret.to_bytes()),
    )
}

#[test]
fn test_nizkp() {
    let mut rng = StdRng::from_entropy();

    for _ in 0..1000 {
        let alice_secret = StaticSecret::new(&mut rng);
        let alice_public = PublicKey::from(&alice_secret);
        let bob_secret = StaticSecret::new(&mut rng);
        let bob_public = PublicKey::from(&bob_secret);
        let alice_shared_secret = alice_secret.diffie_hellman(&bob_public);

        let pi = NIZKP::dleq(
            &x25519_basepoint(),
            &MontgomeryPoint(alice_public.to_bytes()),
            &MontgomeryPoint(bob_public.to_bytes()),
            &MontgomeryPoint(alice_shared_secret.to_bytes()),
            &Scalar25519::from_bytes_mod_order(alice_secret.to_bytes()),
            &mut rng,
        );
        assert!(pi.dleq_verify(
            &x25519_basepoint(),
            &MontgomeryPoint(alice_public.to_bytes()),
            &MontgomeryPoint(bob_public.to_bytes()),
            &MontgomeryPoint(alice_shared_secret.to_bytes()),
        ));
    }
}

#[test]
fn test_nizkp_pallas() {
    let mut rng = StdRng::from_seed([
        1, 0, 0, 0, 23, 0, 0, 0, 200, 1, 0, 0, 210, 30, 0, 0, 0, 0, 0, 0, 0, 0, 0, 0, 0, 0, 0, 0,
        0, 0, 0, 0,
    ]);
    for _ in 0..1000 {
        let secret = Scalar::random(&mut rng);
        let g_base = G1Point::generator();
        let g = g_base.mul(&secret);
        let h_base = g_base.add(&g_base);
        let h = h_base.mul(&secret);

        let pi = NIZKP_Pallas::dleq(&g_base, &g, &h_base, &h, &secret, &mut rng);
        assert!(pi.dleq_verify(&g_base, &g, &h_base, &h));
    }
}

#[test]
fn dleq_with_a_flipped_challenge_byte_is_rejected() {
    let mut rng = StdRng::seed_from_u64(1);
    for round in 0..32 {
        let (alice, bob, shared, alpha) = dh_statement(&mut rng);
        let pi = NIZKP::dleq(&x25519_basepoint(), &alice, &bob, &shared, &alpha, &mut rng);
        let mut c = pi.c;
        c[round] ^= 1 << (round % 8);
        let forged = NIZKP { c, r: pi.r };
        assert!(!forged.dleq_verify(&x25519_basepoint(), &alice, &bob, &shared));
    }
}

#[test]
fn dleq_with_a_flipped_response_byte_is_rejected() {
    let mut rng = StdRng::seed_from_u64(2);
    for round in 0..31 {
        let (alice, bob, shared, alpha) = dh_statement(&mut rng);
        let pi = NIZKP::dleq(&x25519_basepoint(), &alice, &bob, &shared, &alpha, &mut rng);
        let mut r = pi.r.to_bytes();
        r[round] ^= 1 << (round % 8);
        let forged = NIZKP { c: pi.c, r: Scalar25519::from_bytes_mod_order(r) };
        assert!(!forged.dleq_verify(&x25519_basepoint(), &alice, &bob, &shared));
    }
}

#[test]
fn dleq_over_unrelated_points_is_rejected() {
    let mut rng = StdRng::seed_from_u64(3);
    for _ in 0..32 {
        let (alice, bob, _, alpha) = dh_statement(&mut rng);
        // The shared secret of another pair has another discrete logarithm.
        let (_, _, unrelated, _) = dh_statement(&mut rng);
        let pi = NIZKP::dleq(&x25519_basepoint(), &alice, &bob, &unrelated, &alpha, &mut rng);
        assert!(!pi.dleq_verify(&x25519_basepoint(), &alice, &bob, &unrelated));
    }
}

#[test]
fn dleq_verifies_for_keys_from_another_generator() {
    let mut keys = rand_chacha::ChaCha8Rng::from_seed([0u8; 32]);
    let mut rng = StdRng::seed_from_u64(12);
    for _ in 0..16 {
        let alice_secret = StaticSecret::new(&mut keys);
        let bob_public = PublicKey::from(&StaticSecret::new(&mut keys));
        let pi = NIZKP::dleq(
            &x25519_basepoint(),
            &MontgomeryPoint(PublicKey::from(&alice_secret).to_bytes()),
            &MontgomeryPoint(bob_public.to_bytes()),
            &MontgomeryPoint(alice_secret.diffie_hellman(&bob_public).to_bytes()),
            &Scalar25519::from_bytes_mod_order(alice_secret.to_bytes()),
            &mut rng,
        );
        assert!(pi.dleq_verify(
            &x25519_basepoint(),
            &MontgomeryPoint(PublicKey::from(&alice_secret).to_bytes()),
            &MontgomeryPoint(bob_public.to_bytes()),
            &MontgomeryPoint(alice_secret.diffie_hellman(&bob_public).to_bytes()),
        ));
    }
}

#[test]
fn dleq_on_a_twist_point_is_rejected_without_panic() {
    let mut rng = StdRng::seed_from_u64(4);
    let (alice, bob, shared, alpha) = dh_statement(&mut rng);
    let pi = NIZKP::dleq(&x25519_basepoint(), &alice, &bob, &shared, &alpha, &mut rng);
    // u = 2 is the u-coordinate of a point on the twist.
    let mut two = [0u8; 32];
    two[0] = 2;
    let twist = MontgomeryPoint(two);
    assert!(twist.to_edwards(0).is_none());
    assert!(!pi.dleq_verify(&twist, &alice, &bob, &shared));
    assert!(!pi.dleq_verify(&x25519_basepoint(), &twist, &bob, &shared));
    assert!(!pi.dleq_verify(&x25519_basepoint(), &alice, &twist, &shared));
    assert!(!pi.dleq_verify(&x25519_basepoint(), &alice, &bob, &twist));
}

#[test]
fn dleq_with_nonce_is_deterministic_and_matches_dalek() {
    let mut rng = StdRng::seed_from_u64(5);
    let (alice, bob, shared, alpha) = dh_statement(&mut rng);
    let mut wide = [0u8; 32];
    rng.fill_bytes(&mut wide);
    let w = Scalar25519::from_bytes_mod_order(wide);
    let pi = NIZKP::dleq_with_nonce(&x25519_basepoint(), &alice, &bob, &shared, &alpha, &w);
    let again = NIZKP::dleq_with_nonce(&x25519_basepoint(), &alice, &bob, &shared, &alpha, &w);
    assert_eq!(pi.c, again.c);
    assert_eq!(pi.r.to_bytes(), again.r.to_bytes());

    // The same proof, computed with the outside crates directly.
    let w_d = curve25519_dalek::scalar::Scalar::from_bytes_mod_order(wide);
    let t_1 = curve25519_dalek::constants::X25519_BASEPOINT * w_d;
    let t_2 = curve25519_dalek::montgomery::MontgomeryPoint(bob.0) * w_d;
    let mut params = blake2b_simd::Params::new();
    params.hash_length(32);
    let mut hasher = params.to_state();
    hasher.update(&x25519_basepoint().0);
    hasher.update(&alice.0);
    hasher.update(&bob.0);
    hasher.update(&shared.0);
    hasher.update(t_1.as_bytes());
    hasher.update(t_2.as_bytes());
    let mut c = [0u8; 32];
    c.copy_from_slice(hasher.finalize().as_bytes());
    let alpha_d = curve25519_dalek::scalar::Scalar::from_bytes_mod_order(alpha.to_bytes());
    let r = w_d - alpha_d * curve25519_dalek::scalar::Scalar::from_bytes_mod_order(c);
    assert_eq!(pi.c, c);
    assert_eq!(pi.r.to_bytes(), r.to_bytes());
    assert!(pi.dleq_verify(&x25519_basepoint(), &alice, &bob, &shared));
}

#[test]
fn pallas_dleq_with_a_tampered_field_is_rejected() {
    let mut rng = StdRng::seed_from_u64(6);
    let secret = Scalar::random(&mut rng);
    let g_base = G1Point::generator();
    let g = g_base.mul(&secret);
    let h_base = g_base.add(&g_base);
    let h = h_base.mul(&secret);
    let pi = NIZKP_Pallas::dleq(&g_base, &g, &h_base, &h, &secret, &mut rng);
    assert!(pi.dleq_verify(&g_base, &g, &h_base, &h));

    let tampered_c = NIZKP_Pallas { c: pi.c.add(&Scalar::one()), r: pi.r };
    assert!(!tampered_c.dleq_verify(&g_base, &g, &h_base, &h));
    let tampered_r = NIZKP_Pallas { c: pi.c, r: pi.r.add(&Scalar::one()) };
    assert!(!tampered_r.dleq_verify(&g_base, &g, &h_base, &h));
}

#[test]
fn pallas_dleq_over_unrelated_points_is_rejected() {
    let mut rng = StdRng::seed_from_u64(7);
    for _ in 0..16 {
        let secret = Scalar::random(&mut rng);
        let other = Scalar::random(&mut rng);
        let g_base = G1Point::generator();
        let g = g_base.mul(&secret);
        let h_base = g_base.add(&g_base);
        let h = h_base.mul(&other);
        let pi = NIZKP_Pallas::dleq(&g_base, &g, &h_base, &h, &secret, &mut rng);
        assert!(!pi.dleq_verify(&g_base, &g, &h_base, &h));
    }
}

#[test]
fn schnorr_proof_of_knowledge_verifies() {
    let mut rng = StdRng::seed_from_u64(8);
    for _ in 0..64 {
        let g = G1Point::generator().mul(&Scalar::random(&mut rng));
        let x = Scalar::random(&mut rng);
        let g_x = g.mul(&x);
        let pi = SchnorrPoK::new(g, x, g_x, &mut rng);
        assert!(pi.verify(g, g_x));
    }
}

#[test]
fn schnorr_with_tampered_response_or_challenge_is_rejected() {
    let mut rng = StdRng::seed_from_u64(9);
    let g = G1Point::generator();
    let x = Scalar::random(&mut rng);
    let g_x = g.mul(&x);
    let pi = SchnorrPoK::new(g, x, g_x, &mut rng);
    assert!(pi.verify(g, g_x));

    let tampered_s = SchnorrPoK { s: pi.s.add(&Scalar::one()), e: pi.e };
    assert!(!tampered_s.verify(g, g_x));
    let tampered_e = SchnorrPoK { s: pi.s, e: pi.e.add(&Scalar::one()) };
    assert!(!tampered_e.verify(g, g_x));
    // A proof for another image does not transfer.
    let other = g.mul(&x.add(&Scalar::one()));
    assert!(!pi.verify(g, other));
}

#[test]
fn schnorr_with_nonce_is_the_stated_proof() {
    let mut rng = StdRng::seed_from_u64(10);
    let g = G1Point::generator();
    let x = Scalar::random(&mut rng);
    let g_x = g.mul(&x);
    let k = Scalar::random(&mut rng);
    let pi = SchnorrPoK::new_with_nonce(g, x, g_x, &k);
    let again = SchnorrPoK::new_with_nonce(g, x, g_x, &k);
    assert!(pi.s == again.s && pi.e == again.e);
    // s = k - x * e, so s + x * e = k.
    assert!(pi.s.add(&x.mul(&pi.e)) == k);
    assert!(pi.verify(g, g_x));
}
