use std::collections::HashMap;
use zesplot::colour::{colour, colour_from_map};
use zesplot::frac::Frac;
use zesplot::hierarchy::Specific;
use zesplot::range::NetworkRange;
use zesplot::weight::{growth_weight, SizeParams};

fn node(prefix: u8) -> Specific {
    Specific {
        network: NetworkRange { base: 0x2001_0db8 << 96, prefix },
        asn: "64496".to_string(),
        datapoints: Vec::new(),
        specifics: Vec::new(),
    }
}

#[test]
fn colour_zero_is_grey() {
    assert_eq!(colour(0, 100), 0xeeeeee);
    assert_eq!(colour(0, 0), 0xeeeeee);
}

#[test]
fn colour_linear_scale() {
    // maximum value lands at the red end of the ramp
    assert_eq!(colour(100, 100), 0xff0000);
    // small values sit near the blue end
    assert_eq!(colour(1, 100), 0x000aff);
    // the middle of the ramp is green
    assert_eq!(colour(50, 100), 0x00ff00);
}

#[test]
fn colour_log_scale() {
    // wide ranges switch to a base-two logarithmic ramp
    assert_eq!(colour(2048, 2048), 0xff0000);
    assert_eq!(colour(1, 2048), 0x0001ff);
    assert_eq!(colour(45, 2048), 0x00ff2e);
}

#[test]
fn colour_map_clusters() {
    let mut mapping: HashMap<u32, String> = HashMap::new();
    mapping.insert(10, "cluster2".to_string());
    mapping.insert(11, "bogus".to_string());
    assert_eq!(colour_from_map(10, &mapping), 0x00ff00);
    assert_eq!(colour_from_map(11, &mapping), 0xeeeeee);
    assert_eq!(colour_from_map(12, &mapping), 0xeeeeee);
}

#[test]
fn growth_weight_exact_powers() {
    assert_eq!(growth_weight(2, 1, 0), 1);
    assert_eq!(growth_weight(2, 1, 10), 1024);
    assert_eq!(growth_weight(12, 10, 0), 1);
    assert_eq!(growth_weight(12, 10, 1), 1);
    // 1.2^4 = 2.0736, truncated
    assert_eq!(growth_weight(12, 10, 4), 2);
}

#[test]
fn size_of_prefixes() {
    // a full /128 weighs one; unsized mode weighs everything one
    assert_eq!(node(128).size(false), 1);
    assert_eq!(node(128).__size(), 1);
    assert_eq!(node(124).__size(), 2);
    assert_eq!(node(8).size(true), 1);
    // shorter prefixes weigh strictly more
    assert!(node(32).__size() > node(48).__size());
}

#[test]
fn size_params_clamp() {
    let p = SizeParams { base_num: 2, base_den: 1, min_prefix: 120, max_prefix: 126 };
    // clamped to 126: 2^2
    assert_eq!(p.weight_for(128), 4);
    // clamped to 120: 2^8
    assert_eq!(p.weight_for(8), 256);
    // inside the band: 2^4
    assert_eq!(p.weight_for(124), 16);
}

#[test]
fn frac_arithmetic_is_exact() {
    let half = Frac { num: 1, den: 2 };
    let third = Frac { num: 2, den: 6 };
    let sum = half.add(&third).unwrap();
    assert!(sum.eq_value(&Frac { num: 5, den: 6 }));
    let prod = half.mul(&third).unwrap();
    assert!(prod.eq_value(&Frac { num: 1, den: 6 }));
    let quot = half.div(&third).unwrap();
    assert!(quot.eq_value(&Frac { num: 3, den: 2 }));
    let diff = half.sub(&third).unwrap();
    assert!(diff.eq_value(&Frac { num: 1, den: 6 }));
    assert!(third.le(&half));
    assert!(!half.le(&third));
    assert!(half.sub(&Frac { num: 2, den: 2 }).is_none());
}

#[test]
fn range_containment() {
    let a = NetworkRange { base: 0x2001_0db8 << 96, prefix: 32 };
    let b = NetworkRange { base: 0x2001_0db8_0001 << 80, prefix: 48 };
    let c = NetworkRange { base: 0x2001_0dc0 << 96, prefix: 32 };
    assert!(a.contains(b.base));
    assert!(!a.contains(c.base));
    assert!(a.contains_range(&b));
    assert!(!b.contains_range(&a));
    assert!(!a.contains_range(&c));
    let all = NetworkRange { base: 0, prefix: 0 };
    assert!(all.contains(u128::MAX));
    assert!(all.contains_range(&a));
}
