use zesplot::frac::Frac;
use zesplot::pack::{pack, LayoutError, Row};

// value equality of a fraction against n/d, by cross multiplication
fn feq(f: &Frac, n: u64, d: u64) -> bool {
    (f.num as u128) * (d as u128) == (n as u128) * (f.den as u128)
}

// exact rational accumulation for area sums
fn gcd(a: u128, b: u128) -> u128 {
    if b == 0 {
        a
    } else {
        gcd(b, a % b)
    }
}

fn add_frac(acc: (u128, u128), num: u128, den: u128) -> (u128, u128) {
    let n = acc.0 * den + num * acc.1;
    let d = acc.1 * den;
    let g = gcd(d, n).max(1);
    (n / g, d / g)
}

fn total_area(rows: &[Row]) -> (u128, u128) {
    let mut acc: (u128, u128) = (0, 1);
    for row in rows {
        for a in &row.areas {
            let num = (a.w.num as u128) * (a.h.num as u128);
            let den = (a.w.den as u128) * (a.h.den as u128);
            acc = add_frac(acc, num, den);
        }
    }
    acc
}

#[test]
fn pack_empty_gives_no_rows() {
    let rows = pack(&Vec::new(), 10, 10).unwrap();
    assert!(rows.is_empty());
}

#[test]
fn pack_single_item_fills_canvas() {
    let rows = pack(&vec![7], 10, 10).unwrap();
    assert_eq!(rows.len(), 1);
    assert_eq!(rows[0].areas.len(), 1);
    let a = &rows[0].areas[0];
    assert_eq!(a.item, 0);
    assert!(feq(&a.x, 0, 1));
    assert!(feq(&a.y, 0, 1));
    assert!(feq(&a.w, 10, 1));
    assert!(feq(&a.h, 10, 1));
}

#[test]
fn pack_rejects_zero_weight() {
    match pack(&vec![5, 0], 10, 10) {
        Err(e) => assert_eq!(e, LayoutError::ZeroWeight),
        Ok(_) => panic!("a zero weight must be rejected"),
    }
}

#[test]
fn pack_three_items_partitions_canvas() {
    // weights [50, 30, 20] on a 10 x 10 canvas: areas exactly 50, 30, 20
    let rows = pack(&vec![50, 30, 20], 10, 10).unwrap();
    assert_eq!(rows.len(), 3);
    for row in &rows {
        assert_eq!(row.areas.len(), 1);
    }
    let a0 = &rows[0].areas[0];
    let a1 = &rows[1].areas[0];
    let a2 = &rows[2].areas[0];
    assert_eq!(a0.item, 0);
    assert_eq!(a1.item, 1);
    assert_eq!(a2.item, 2);
    // item 0: 5 x 10 at (0, 0)
    assert!(feq(&a0.x, 0, 1) && feq(&a0.y, 0, 1) && feq(&a0.w, 5, 1) && feq(&a0.h, 10, 1));
    // item 1: 5 x 6 at (5, 0)
    assert!(feq(&a1.x, 5, 1) && feq(&a1.y, 0, 1) && feq(&a1.w, 5, 1) && feq(&a1.h, 6, 1));
    // item 2: 5 x 4 at (5, 6)
    assert!(feq(&a2.x, 5, 1) && feq(&a2.y, 6, 1) && feq(&a2.w, 5, 1) && feq(&a2.h, 4, 1));
    // exact conservation: the three areas sum to the whole canvas
    assert_eq!(total_area(&rows), (100, 1));
}

#[test]
fn pack_equal_pair_shares_one_row() {
    // two equal weights keep the worst ratio unchanged, so both stay in
    // the first (vertical) row as two 10 x 5 slabs
    let rows = pack(&vec![50, 50], 10, 10).unwrap();
    assert_eq!(rows.len(), 1);
    assert_eq!(rows[0].areas.len(), 2);
    let a0 = &rows[0].areas[0];
    let a1 = &rows[0].areas[1];
    assert!(feq(&a0.x, 0, 1) && feq(&a0.y, 0, 1) && feq(&a0.w, 10, 1) && feq(&a0.h, 5, 1));
    assert!(feq(&a1.x, 0, 1) && feq(&a1.y, 5, 1) && feq(&a1.w, 10, 1) && feq(&a1.h, 5, 1));
}

#[test]
fn pack_two_equal_weights_two_rects() {
    // weights [40, 40] on a 10 x 8 canvas: two rectangles of area 40 each
    let rows = pack(&vec![40, 40], 10, 8).unwrap();
    let mut areas: Vec<(u128, u128)> = Vec::new();
    for row in &rows {
        for a in &row.areas {
            let num = (a.w.num as u128) * (a.h.num as u128);
            let den = (a.w.den as u128) * (a.h.den as u128);
            areas.push((num, den));
        }
    }
    assert_eq!(areas.len(), 2);
    for (num, den) in areas {
        assert_eq!(num, 40 * den);
    }
}

#[test]
fn pack_conserves_area_exactly() {
    // awkward weights and canvas: the placed surfaces still sum exactly
    let rows = pack(&vec![3, 5, 9, 2], 7, 9).unwrap();
    assert_eq!(total_area(&rows), (63, 1));
    let mut items: Vec<usize> = Vec::new();
    for row in &rows {
        for a in &row.areas {
            items.push(a.item);
        }
    }
    assert_eq!(items, vec![0, 1, 2, 3]);
}

#[test]
fn pack_no_overlap_within_rows() {
    let rows = pack(&vec![10, 9, 8, 7, 6, 5, 4, 3, 2, 1], 16, 10).unwrap();
    let mut seen = 0usize;
    for row in &rows {
        for k in 1..row.areas.len() {
            let prev = &row.areas[k - 1];
            let cur = &row.areas[k];
            if row.vertical {
                // previous ends where the next begins
                let end_n = (prev.y.num as u128) * (prev.h.den as u128)
                    + (prev.h.num as u128) * (prev.y.den as u128);
                let end_d = (prev.y.den as u128) * (prev.h.den as u128);
                assert_eq!(end_n * (cur.y.den as u128), (cur.y.num as u128) * end_d);
            } else {
                let end_n = (prev.x.num as u128) * (prev.w.den as u128)
                    + (prev.w.num as u128) * (prev.x.den as u128);
                let end_d = (prev.x.den as u128) * (prev.w.den as u128);
                assert_eq!(end_n * (cur.x.den as u128), (cur.x.num as u128) * end_d);
            }
        }
        seen += row.areas.len();
    }
    assert_eq!(seen, 10);
    assert_eq!(total_area(&rows), (160, 1));
}
