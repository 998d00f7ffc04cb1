use zesplot::frac::Frac;
use zesplot::hierarchy::Specific;
use zesplot::pack::Area;
use zesplot::range::NetworkRange;

fn frac(n: u64, d: u64) -> Frac {
    Frac { num: n, den: d }
}

fn feq2(f: &Frac, n: u64, d: u64) -> bool {
    (f.num as u128) * (d as u128) == (n as u128) * (f.den as u128)
}

fn node(base: u128, prefix: u8, asn: &str) -> Specific {
    Specific {
        network: NetworkRange { base, prefix },
        asn: asn.to_string(),
        datapoints: Vec::new(),
        specifics: Vec::new(),
    }
}

fn area_4_by_6() -> Area {
    Area {
        x: frac(0, 1),
        y: frac(0, 1),
        w: frac(4, 1),
        h: frac(6, 1),
        surface: frac(24, 1),
        item: 0,
    }
}

#[test]
fn leaf_gives_only_its_own_rect() {
    let a = node(0x2001_0db8 << 96, 32, "A");
    let rects = a.all_rects(&area_4_by_6(), 0).unwrap();
    assert_eq!(rects.len(), 1);
    let r = &rects[0];
    assert_eq!(r.depth, 0);
    assert_eq!(r.asn, "A");
    assert!(feq2(&r.x, 0, 1) && feq2(&r.y, 0, 1) && feq2(&r.w, 4, 1) && feq2(&r.h, 6, 1));
}

#[test]
fn single_child_band_is_full_width_half_height() {
    // one more-specific: its band spans the parent's width at half the
    // height, anchored at the parent's top-left corner
    let mut a = node(0x2001_0db8 << 96, 32, "A");
    a.specifics.push(node(0x2001_0db8_0001 << 80, 48, "B"));
    let rects = a.all_rects(&area_4_by_6(), 0).unwrap();
    assert_eq!(rects.len(), 2);
    let band = &rects[1];
    assert_eq!(band.depth, 1);
    assert_eq!(band.asn, "B");
    assert!(feq2(&band.x, 0, 1));
    assert!(feq2(&band.y, 0, 1));
    assert!(feq2(&band.w, 4, 1));
    assert!(feq2(&band.h, 3, 1));
}

#[test]
fn grandchild_band_quarters_the_height() {
    let mut b = node(0x2001_0db8_0001 << 80, 48, "B");
    b.specifics.push(node(0x2001_0db8_0001_0002 << 64, 64, "D"));
    let mut a = node(0x2001_0db8 << 96, 32, "A");
    a.specifics.push(b);
    let rects = a.all_rects(&area_4_by_6(), 0).unwrap();
    assert_eq!(rects.len(), 3);
    assert_eq!(rects[2].depth, 2);
    assert_eq!(rects[2].asn, "D");
    assert!(feq2(&rects[2].x, 0, 1));
    assert!(feq2(&rects[2].y, 0, 1));
    assert!(feq2(&rects[2].w, 4, 1));
    assert!(feq2(&rects[2].h, 3, 2));
}

#[test]
fn sibling_bands_split_width_equally() {
    let mut a = node(0x2001_0db8 << 96, 32, "A");
    a.specifics.push(node(0x2001_0db8_0001 << 80, 48, "B1"));
    a.specifics.push(node(0x2001_0db8_0002 << 80, 48, "B2"));
    let rects = a.all_rects(&area_4_by_6(), 0).unwrap();
    assert_eq!(rects.len(), 3);
    let b1 = &rects[1];
    let b2 = &rects[2];
    assert_eq!(b1.asn, "B1");
    assert_eq!(b2.asn, "B2");
    assert!(feq2(&b1.x, 0, 1) && feq2(&b1.w, 2, 1) && feq2(&b1.h, 3, 1));
    assert!(feq2(&b2.x, 2, 1) && feq2(&b2.w, 2, 1) && feq2(&b2.h, 3, 1));
    // same depth, disjoint: the first band ends where the second begins
    assert_eq!(b1.depth, b2.depth);
}

#[test]
fn emission_order_is_preorder() {
    let mut b1 = node(0x2001_0db8_0001 << 80, 48, "B1");
    b1.specifics.push(node(0x2001_0db8_0001_0002 << 64, 64, "D"));
    let mut a = node(0x2001_0db8 << 96, 32, "A");
    a.specifics.push(b1);
    a.specifics.push(node(0x2001_0db8_0002 << 80, 48, "B2"));
    let rects = a.all_rects(&area_4_by_6(), 0).unwrap();
    let names: Vec<&str> = rects.iter().map(|r| r.asn.as_str()).collect();
    assert_eq!(names, vec!["A", "B1", "D", "B2"]);
    // every nested rectangle stays inside the top rectangle
    for r in &rects[1..] {
        assert!(feq2(&r.y, 0, 1));
        // x >= 0 and x + w <= 4, h <= 6 with exact arithmetic
        let endx_n = (r.x.num as u128) * (r.w.den as u128) + (r.w.num as u128) * (r.x.den as u128);
        let endx_d = (r.x.den as u128) * (r.w.den as u128);
        assert!(endx_n <= 4 * endx_d);
        assert!((r.h.num as u128) <= 6 * (r.h.den as u128));
    }
}
