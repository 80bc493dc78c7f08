//! Random numbers and hashes.
use nusadb_sql::rng::{fnv1a, hash64, Generator, UNIT};

/// Seed a generator with a number between -1 and 1.
fn set_seed(g: &mut Generator, seed: f64) {
    let unit = (seed.clamp(-1.0, 1.0) + 1.0) / 2.0;
    g.set_seed((unit * u64::MAX as f64) as u64);
}

fn next_f64(g: &mut Generator) -> f64 {
    g.next_fraction(0) as f64 / UNIT as f64
}

#[test]
fn random_is_in_unit_interval() {
    let mut g = Generator::new();
    set_seed(&mut g, 0.25);
    for _ in 0..1000 {
        let v = next_f64(&mut g);
        assert!((0.0..1.0).contains(&v), "RANDOM() out of [0,1): {v}");
    }
}

#[test]
fn setseed_makes_the_sequence_reproducible() {
    let mut g = Generator::new();
    set_seed(&mut g, 0.5);
    let first: Vec<f64> = (0..5).map(|_| next_f64(&mut g)).collect();
    set_seed(&mut g, 0.5);
    let second: Vec<f64> = (0..5).map(|_| next_f64(&mut g)).collect();
    assert_eq!(first, second);
    set_seed(&mut g, -0.5);
    let third: Vec<f64> = (0..5).map(|_| next_f64(&mut g)).collect();
    assert_ne!(first, third);
}

#[test]
fn a_fresh_generator_is_seeded_by_the_time() {
    let mut a = Generator::new();
    let mut b = Generator::new();
    b.set_seed(1234);
    // An even time is made odd, as a seed is.
    assert_eq!(a.next_u64(-1234), b.next_u64(0));
    assert_eq!(a.next_u64(77), b.next_u64(99));
}

#[test]
fn splitmix_has_its_known_first_number() {
    // From state 0 the first number is a known constant; the seed 1 is one step of 1 further on.
    let mut g = Generator::new();
    g.set_seed(1);
    assert_eq!(g.next_u64(0), 0x910a_2dec_8902_5cc1);
}

#[test]
fn fnv_has_its_known_hashes() {
    assert_eq!(fnv1a(b""), 0xcbf2_9ce4_8422_2325);
    assert_eq!(fnv1a(b"a"), 0xaf63_dc4c_8601_ec8c);
    assert_eq!(fnv1a(b"foobar"), 0x8594_4171_f739_67e8);
    assert_ne!(hash64(b"a"), fnv1a(b"a"));
}
