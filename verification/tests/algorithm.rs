use poker_core::algorithm::Algorithm;
use poker_core::rng::Rng;
use std::str::FromStr;

#[test]
fn algorithm_names_roundtrip() {
    for a in [Algorithm::FictitiousPlay, Algorithm::Cfr, Algorithm::Cfr3Max] {
        assert_eq!(Algorithm::parse(a.as_str()), Ok(a));
        assert_eq!(Algorithm::from_str(a.as_str()), Ok(a));
    }
    assert_eq!(Algorithm::FictitiousPlay.as_str(), "fp");
    assert_eq!(Algorithm::Cfr3Max.as_str(), "cfr-3max");
    assert_eq!(
        Algorithm::parse("dcfr"),
        Err("unknown algorithm: dcfr (expected fp, cfr, or cfr-3max)".to_string())
    );
}

#[test]
fn generator_steps_are_the_lcg() {
    let mut rng = Rng::new(1);
    let a = rng.next_u64();
    assert_eq!(a, 6364136223846793005_u64.wrapping_add(1442695040888963407));
    let b = rng.next_u64();
    assert_eq!(
        b,
        a.wrapping_mul(6364136223846793005).wrapping_add(1442695040888963407)
    );
    let mut other = Rng::new(7);
    assert_eq!(other.gen_range(0), 0);
    let v = other.gen_range(10);
    assert!(v < 10);
}
