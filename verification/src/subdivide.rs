//! The intra-cell subdivider.
//!
//! Once the packer has given a top-level forest entry its rectangle, the
//! entry's more-specific ranges are projected inside it as nested bands:
//! the children share the rectangle's width in equal parts, at half its
//! height, anchored at its top edge; grandchildren repeat the division
//! inside their band at a quarter of the height, and so on. An equal share
//! per more-specific is a deliberate policy: bands are not weighted by the
//! children's own sizes.

use vstd::prelude::*;
use crate::frac::{Frac, add_spec, div_spec, mul_spec, rq_add, rq_div, rq_eq, rq_le, rq_mul, rq_wf,
    lemma_rq_add_eq, lemma_rq_div_eq, lemma_rq_eq_sym, lemma_rq_eq_trans, lemma_rq_le_eq,
    lemma_rq_le_trans, lemma_rq_mul_eq, lemma_rq_mul_int_succ, lemma_rq_mul_le_mono};
use crate::hierarchy::Specific;
use crate::pack::{Area, LayoutError, area_wf};
use crate::range::NetworkRange;

verus! {

/// A drawing cursor: the rectangle currently subdivided.
#[derive(Clone, Copy, Debug)]
pub struct Turtle {
    pub x: Frac,
    pub y: Frac,
    pub w: Frac,
    pub h: Frac,
}

pub open spec fn turtle_wf(t: Turtle) -> bool {
    t.x.wf() && t.y.wf() && t.w.wf() && t.h.wf()
}

/// A rectangle ready for rendering: its geometry, its nesting depth (zero
/// for a top-level range), and the identity of the range it shows.
#[derive(Debug)]
pub struct PlacedRect {
    pub x: Frac,
    pub y: Frac,
    pub w: Frac,
    pub h: Frac,
    pub depth: u32,
    pub network: NetworkRange,
    pub asn: String,
}

pub open spec fn rect_wf(r: PlacedRect) -> bool {
    r.x.wf() && r.y.wf() && r.w.wf() && r.h.wf()
}

/// The identity a rectangle shows.
pub open spec fn rect_id(r: PlacedRect) -> (NetworkRange, Seq<char>) {
    (r.network, r.asn@)
}

pub open spec fn rect_ids(rs: Seq<PlacedRect>) -> Seq<(NetworkRange, Seq<char>)> {
    rs.map_values(|r: PlacedRect| rect_id(r))
}

pub open spec fn id_of(s: Specific) -> (NetworkRange, Seq<char>) {
    (s.network, s.asn@)
}

/// The identities of a forest in preorder: each root before its
/// descendants, siblings left to right.
pub open spec fn idorder(f: Seq<Specific>) -> Seq<(NetworkRange, Seq<char>)>
    decreases f,
{
    if f.len() == 0 {
        Seq::empty()
    } else {
        seq![id_of(f[0])] + idorder(f[0].specifics@) + idorder(f.drop_first())
    }
}

proof fn lemma_idorder_push(a: Seq<Specific>, x: Specific)
    ensures
        idorder(a.push(x)) == idorder(a) + seq![id_of(x)] + idorder(x.specifics@),
    decreases a.len(),
{
    reveal_with_fuel(idorder, 3);
    if a.len() == 0 {
        assert(a.push(x)[0] == x);
        assert(a.push(x).drop_first() =~= Seq::<Specific>::empty());
        assert(idorder(a.push(x)) =~~= idorder(a) + seq![id_of(x)] + idorder(x.specifics@));
    } else {
        assert(a.push(x)[0] == a[0]);
        assert(a.push(x).drop_first() =~= a.drop_first().push(x));
        lemma_idorder_push(a.drop_first(), x);
        assert(idorder(a.push(x)) =~~= idorder(a) + seq![id_of(x)] + idorder(x.specifics@));
    }
}

/// The geometry one emitted rectangle is owed: its position and sides as
/// rational values, and its exact nesting depth.
pub ghost struct GeoRect {
    pub x: (int, int),
    pub w: (int, int),
    pub h: (int, int),
    pub depth: int,
}

/// The geometry owed to a sibling list whose bands start at `x` in a cell
/// of sides `w` and `h`: sibling `i` gets the band `i` band widths right of
/// `x`, of width `w * bf` (one equal share each) and height `h * hf`, and
/// its own more-specifics nest inside that band with the share split
/// equally among them and the height factor halved, one depth further.
pub open spec fn geo_bands(
    f: Seq<Specific>,
    x: (int, int),
    w: (int, int),
    h: (int, int),
    bf: (int, int),
    hf: (int, int),
    depth: int,
) -> Seq<GeoRect>
    decreases f,
{
    if f.len() == 0 {
        Seq::empty()
    } else {
        let bw = rq_mul(w, bf);
        let own = GeoRect { x, w: bw, h: rq_mul(h, hf), depth };
        let sub = geo_bands(
            f[0].specifics@,
            x,
            w,
            h,
            rq_div(bf, (f[0].specifics@.len() as int, 1int)),
            rq_mul(hf, (1int, 2int)),
            depth + 1,
        );
        seq![own] + sub + geo_bands(f.drop_first(), rq_add(x, bw), w, h, bf, hf, depth)
    }
}

/// The geometry owed below one node: its more-specific ranges split the
/// width share `wf` of the cell `w` by `h` at `x` into bands of equal
/// width, at height share `hf`, in preorder.
pub open spec fn geo_specifics(
    f: Seq<Specific>,
    x: (int, int),
    w: (int, int),
    h: (int, int),
    wf: (int, int),
    hf: (int, int),
    depth: int,
) -> Seq<GeoRect> {
    geo_bands(f, x, w, h, rq_div(wf, (f.len() as int, 1int)), hf, depth)
}

/// The cursor position after the bands of a sibling list: one band width
/// further per sibling.
pub open spec fn geo_after(f: Seq<Specific>, x: (int, int), bw: (int, int)) -> (int, int)
    decreases f.len(),
{
    if f.len() == 0 {
        x
    } else {
        geo_after(f.drop_first(), rq_add(x, bw), bw)
    }
}

/// Whether subdividing a sibling list completes: each sibling's own
/// subtree must complete, and each cursor step along the bands must stay
/// within the machine range. The band factor `bf`, the band width `bw` and
/// the halved height factor `hf2` are the exact representations the
/// subdivision computes once per level.
pub open spec fn sibs_ok(
    f: Seq<Specific>,
    x: (int, int),
    w: (int, int),
    h: (int, int),
    bf: (int, int),
    bw: (int, int),
    hf2: (int, int),
    depth: int,
) -> bool
    decreases f, 0int,
{
    if f.len() == 0 {
        true
    } else {
        &&& subdiv_ok(f[0].specifics@, x, w, h, bf, hf2, depth + 1)
        &&& match add_spec(x, bw) {
            None => false,
            Some(x2) => sibs_ok(f.drop_first(), x2, w, h, bf, bw, hf2, depth),
        }
    }
}

/// Whether subdividing the more-specifics of one node completes: nothing
/// to do for a leaf; otherwise the nesting depth must not exhaust its
/// machine range, the equal share, the band width, the band height and the
/// halved height factor must all stay within the machine range, and every
/// band must complete in turn.
pub open spec fn subdiv_ok(
    f: Seq<Specific>,
    x: (int, int),
    w: (int, int),
    h: (int, int),
    wf: (int, int),
    hf: (int, int),
    depth: int,
) -> bool
    decreases f, 1int,
{
    if f.len() == 0 {
        true
    } else if depth == u32::MAX as int {
        false
    } else {
        match div_spec(wf, (f.len() as int, 1int)) {
            None => false,
            Some(bf) => match mul_spec(w, bf) {
                None => false,
                Some(bw) => match mul_spec(h, hf) {
                    None => false,
                    Some(_) => match mul_spec(hf, (1int, 2int)) {
                        None => false,
                        Some(hf2) => sibs_ok(f, x, w, h, bf, bw, hf2, depth),
                    },
                },
            },
        }
    }
}

/// Every side and position in an owed geometry is a well-formed rational.
proof fn lemma_geo_wf(
    f: Seq<Specific>,
    x: (int, int),
    w: (int, int),
    h: (int, int),
    bf: (int, int),
    hf: (int, int),
    depth: int,
)
    requires
        rq_wf(x),
        rq_wf(w),
        rq_wf(h),
        rq_wf(bf),
        rq_wf(hf),
    ensures
        forall|k: int|
            0 <= k < geo_bands(f, x, w, h, bf, hf, depth).len() ==> rq_wf(
                (#[trigger] geo_bands(f, x, w, h, bf, hf, depth)[k]).x,
            ) && rq_wf(geo_bands(f, x, w, h, bf, hf, depth)[k].w) && rq_wf(
                geo_bands(f, x, w, h, bf, hf, depth)[k].h,
            ),
    decreases f,
{
    if f.len() > 0 {
        let bw = rq_mul(w, bf);
        let hh = rq_mul(h, hf);
        let n2 = f[0].specifics@.len() as int;
        let bf2 = rq_div(bf, (n2, 1int));
        let hf2 = rq_mul(hf, (1int, 2int));
        let sub = geo_bands(f[0].specifics@, x, w, h, bf2, hf2, depth + 1);
        let tail = geo_bands(f.drop_first(), rq_add(x, bw), w, h, bf, hf, depth);
        assert(rq_wf(bw) && rq_wf(hh) && rq_wf(hf2) && rq_wf(rq_add(x, bw))) by (nonlinear_arith)
            requires
                rq_wf(x),
                rq_wf(w),
                rq_wf(h),
                rq_wf(bf),
                rq_wf(hf),
                bw == rq_mul(w, bf),
                hh == rq_mul(h, hf),
                hf2 == rq_mul(hf, (1int, 2int)),
        ;
        if n2 >= 1 {
            assert(rq_wf(bf2)) by (nonlinear_arith)
                requires
                    rq_wf(bf),
                    n2 >= 1,
                    bf2 == rq_div(bf, (n2, 1int)),
            ;
            lemma_geo_wf(f[0].specifics@, x, w, h, bf2, hf2, depth + 1);
        }
        lemma_geo_wf(f.drop_first(), rq_add(x, bw), w, h, bf, hf, depth);
        assert forall|k: int|
            0 <= k < geo_bands(f, x, w, h, bf, hf, depth).len() implies rq_wf(
            (#[trigger] geo_bands(f, x, w, h, bf, hf, depth)[k]).x,
        ) && rq_wf(geo_bands(f, x, w, h, bf, hf, depth)[k].w) && rq_wf(
            geo_bands(f, x, w, h, bf, hf, depth)[k].h,
        ) by {
            let g = geo_bands(f, x, w, h, bf, hf, depth);
            if k == 0 {
            } else if k < 1 + sub.len() {
                assert(g[k] == sub[k - 1]);
            } else {
                assert(g[k] == tail[k - 1 - sub.len()]);
            }
        }
    }
}

/// The owed geometry depends on the parameters only through their values:
/// equal-valued cursors and factors owe pointwise equal-valued bands.
proof fn lemma_geo_congr(
    f: Seq<Specific>,
    x1: (int, int),
    bf1: (int, int),
    hf1: (int, int),
    x2: (int, int),
    bf2: (int, int),
    hf2: (int, int),
    w: (int, int),
    h: (int, int),
    depth: int,
)
    requires
        rq_wf(x1),
        rq_wf(bf1),
        rq_wf(hf1),
        rq_wf(x2),
        rq_wf(bf2),
        rq_wf(hf2),
        rq_wf(w),
        rq_wf(h),
        rq_eq(x1, x2),
        rq_eq(bf1, bf2),
        rq_eq(hf1, hf2),
    ensures
        ({
            let g1 = geo_bands(f, x1, w, h, bf1, hf1, depth);
            let g2 = geo_bands(f, x2, w, h, bf2, hf2, depth);
            g1.len() == g2.len() && forall|k: int|
                0 <= k < g1.len() ==> rq_eq((#[trigger] g1[k]).x, g2[k].x) && rq_eq(
                    g1[k].w,
                    g2[k].w,
                ) && rq_eq(g1[k].h, g2[k].h) && g1[k].depth == g2[k].depth
        }),
    decreases f,
{
    if f.len() > 0 {
        let bw1 = rq_mul(w, bf1);
        let bw2 = rq_mul(w, bf2);
        let n2 = f[0].specifics@.len() as int;
        lemma_rq_mul_eq(w, bf1, w, bf2);
        lemma_rq_mul_eq(h, hf1, h, hf2);
        lemma_rq_mul_eq(hf1, (1int, 2int), hf2, (1int, 2int));
        lemma_rq_add_eq(x1, bw1, x2, bw2);
        assert(rq_wf(rq_add(x1, bw1)) && rq_wf(rq_add(x2, bw2))) by (nonlinear_arith)
            requires
                rq_wf(x1),
                rq_wf(x2),
                rq_wf(bw1),
                rq_wf(bw2),
        ;
        let sub1 = geo_bands(
            f[0].specifics@,
            x1,
            w,
            h,
            rq_div(bf1, (n2, 1int)),
            rq_mul(hf1, (1int, 2int)),
            depth + 1,
        );
        let sub2 = geo_bands(
            f[0].specifics@,
            x2,
            w,
            h,
            rq_div(bf2, (n2, 1int)),
            rq_mul(hf2, (1int, 2int)),
            depth + 1,
        );
        if n2 >= 1 {
            lemma_rq_div_eq(bf1, (n2, 1int), bf2, (n2, 1int));
            assert(rq_wf(rq_div(bf1, (n2, 1int))) && rq_wf(rq_div(bf2, (n2, 1int))))
                by (nonlinear_arith)
                requires
                    rq_wf(bf1),
                    rq_wf(bf2),
                    n2 >= 1,
            ;
            lemma_geo_congr(
                f[0].specifics@,
                x1,
                rq_div(bf1, (n2, 1int)),
                rq_mul(hf1, (1int, 2int)),
                x2,
                rq_div(bf2, (n2, 1int)),
                rq_mul(hf2, (1int, 2int)),
                w,
                h,
                depth + 1,
            );
        }
        lemma_geo_congr(
            f.drop_first(),
            rq_add(x1, bw1),
            bf1,
            hf1,
            rq_add(x2, bw2),
            bf2,
            hf2,
            w,
            h,
            depth,
        );
        let g1 = geo_bands(f, x1, w, h, bf1, hf1, depth);
        let g2 = geo_bands(f, x2, w, h, bf2, hf2, depth);
        let tail1 = geo_bands(f.drop_first(), rq_add(x1, bw1), w, h, bf1, hf1, depth);
        let tail2 = geo_bands(f.drop_first(), rq_add(x2, bw2), w, h, bf2, hf2, depth);
        assert forall|k: int|
            0 <= k < g1.len() implies rq_eq((#[trigger] g1[k]).x, g2[k].x) && rq_eq(
            g1[k].w,
            g2[k].w,
        ) && rq_eq(g1[k].h, g2[k].h) && g1[k].depth == g2[k].depth by {
            if k == 0 {
            } else if k < 1 + sub1.len() {
                assert(g1[k] == sub1[k - 1]);
                assert(g2[k] == sub2[k - 1]);
            } else {
                assert(g1[k] == tail1[k - 1 - sub1.len()]);
                assert(g2[k] == tail2[k - 1 - sub1.len()]);
            }
        }
    }
}

/// Appending a sibling appends its own band, at the cursor past the
/// earlier bands, and its subtree's bands inside it.
proof fn lemma_geo_push(
    f: Seq<Specific>,
    s: Specific,
    x: (int, int),
    w: (int, int),
    h: (int, int),
    bf: (int, int),
    hf: (int, int),
    depth: int,
)
    ensures
        ({
            let bw = rq_mul(w, bf);
            let gx = geo_after(f, x, bw);
            geo_bands(f.push(s), x, w, h, bf, hf, depth) == geo_bands(f, x, w, h, bf, hf, depth)
                + seq![GeoRect { x: gx, w: bw, h: rq_mul(h, hf), depth }] + geo_bands(
                s.specifics@,
                gx,
                w,
                h,
                rq_div(bf, (s.specifics@.len() as int, 1int)),
                rq_mul(hf, (1int, 2int)),
                depth + 1,
            )
        }),
    decreases f.len(),
{
    reveal_with_fuel(geo_bands, 3);
    let bw = rq_mul(w, bf);
    if f.len() == 0 {
        assert(f.push(s)[0] == s);
        assert(f.push(s).drop_first() =~= Seq::<Specific>::empty());
        assert(geo_bands(f.push(s), x, w, h, bf, hf, depth) =~~= geo_bands(f, x, w, h, bf, hf, depth)
            + seq![GeoRect { x, w: bw, h: rq_mul(h, hf), depth }] + geo_bands(
            s.specifics@,
            x,
            w,
            h,
            rq_div(bf, (s.specifics@.len() as int, 1int)),
            rq_mul(hf, (1int, 2int)),
            depth + 1,
        ));
    } else {
        assert(f.push(s)[0] == f[0]);
        assert(f.push(s).drop_first() =~= f.drop_first().push(s));
        lemma_geo_push(f.drop_first(), s, rq_add(x, bw), w, h, bf, hf, depth);
        let gx = geo_after(f.drop_first(), rq_add(x, bw), bw);
        assert(geo_after(f, x, bw) == gx);
        let n0 = f[0].specifics@.len() as int;
        let own0 = GeoRect { x, w: bw, h: rq_mul(h, hf), depth };
        let sub0 = geo_bands(
            f[0].specifics@,
            x,
            w,
            h,
            rq_div(bf, (n0, 1int)),
            rq_mul(hf, (1int, 2int)),
            depth + 1,
        );
        assert(geo_bands(f.push(s), x, w, h, bf, hf, depth) == seq![own0] + sub0 + geo_bands(
            f.drop_first().push(s),
            rq_add(x, bw),
            w,
            h,
            bf,
            hf,
            depth,
        ));
        assert(geo_bands(f, x, w, h, bf, hf, depth) == seq![own0] + sub0 + geo_bands(
            f.drop_first(),
            rq_add(x, bw),
            w,
            h,
            bf,
            hf,
            depth,
        ));
        assert(geo_bands(f.push(s), x, w, h, bf, hf, depth) =~~= geo_bands(f, x, w, h, bf, hf, depth)
            + seq![GeoRect { x: gx, w: bw, h: rq_mul(h, hf), depth }] + geo_bands(
            s.specifics@,
            gx,
            w,
            h,
            rq_div(bf, (s.specifics@.len() as int, 1int)),
            rq_mul(hf, (1int, 2int)),
            depth + 1,
        ));
    }
}

/// Appending a sibling moves the cursor past the bands one band further.
proof fn lemma_geo_after_push(f: Seq<Specific>, s: Specific, x: (int, int), bw: (int, int))
    ensures
        geo_after(f.push(s), x, bw) == rq_add(geo_after(f, x, bw), bw),
    decreases f.len(),
{
    reveal_with_fuel(geo_after, 3);
    if f.len() == 0 {
        assert(f.push(s).drop_first() =~= Seq::<Specific>::empty());
    } else {
        assert(f.push(s).drop_first() =~= f.drop_first().push(s));
        lemma_geo_after_push(f.drop_first(), s, rq_add(x, bw), bw);
        assert(geo_after(f.push(s), x, bw) == geo_after(
            f.drop_first().push(s),
            rq_add(x, bw),
            bw,
        ));
        assert(geo_after(f, x, bw) == geo_after(f.drop_first(), rq_add(x, bw), bw));
    }
}

/// The cursor past a list of bands is a well-formed rational.
proof fn lemma_geo_after_wf(f: Seq<Specific>, x: (int, int), bw: (int, int))
    requires
        rq_wf(x),
        rq_wf(bw),
    ensures
        rq_wf(geo_after(f, x, bw)),
    decreases f.len(),
{
    if f.len() > 0 {
        assert(rq_wf(rq_add(x, bw))) by (nonlinear_arith)
            requires
                rq_wf(x),
                rq_wf(bw),
        ;
        lemma_geo_after_wf(f.drop_first(), rq_add(x, bw), bw);
    }
}

impl Specific {
    /// The rectangle of this range inside the cursor's cell: the cell's
    /// origin, its width and height scaled by the given factors.
    pub fn to_rect(&self, t: Turtle, w_factor: Frac, h_factor: Frac, depth: u32) -> (r: Result<
        PlacedRect,
        LayoutError,
    >)
        requires
            turtle_wf(t),
            w_factor.wf(),
            h_factor.wf(),
        ensures
            match r {
                Ok(rect) => rect_wf(rect) && rect.x == t.x && rect.y == t.y && rq_eq(
                    rect.w@,
                    rq_mul(t.w@, w_factor@),
                ) && rq_eq(rect.h@, rq_mul(t.h@, h_factor@)) && rect.depth == depth && rect_id(
                    rect,
                ) == id_of(*self) && mul_spec(t.w@, w_factor@) == Some(rect.w@) && mul_spec(
                    t.h@,
                    h_factor@,
                ) == Some(rect.h@),
                Err(e) => e == LayoutError::Numeric && (mul_spec(t.w@, w_factor@) is None
                    || mul_spec(t.h@, h_factor@) is None),
            },
    {
        let w = match t.w.mul(&w_factor) {
            Some(v) => v,
            None => return Err(LayoutError::Numeric),
        };
        let h = match t.h.mul(&h_factor) {
            Some(v) => v,
            None => return Err(LayoutError::Numeric),
        };
        Ok(PlacedRect {
            x: t.x,
            y: t.y,
            w,
            h,
            depth,
            network: self.network,
            asn: self.asn.clone(),
        })
    }

    /// The rectangles of all more-specific ranges below this one, nested
    /// bands inside the cursor's cell: the children split the cell's width
    /// (scaled by `w_factor`) into equal bands at height scaled by
    /// `h_factor`, anchored at the cell's top edge; each child's own
    /// subtree is projected inside its band at half that height. Each
    /// emitted rectangle has exactly the position, sides and depth that
    /// `geo_specifics` owes it; in particular all rectangles stay inside
    /// the cell's band, and two rectangles of the same depth never
    /// overlap. The call succeeds if and only if every value of the
    /// subdivision stays within the machine range (`subdiv_ok`).
    pub fn rects_in_specifics(&self, t: Turtle, w_factor: Frac, h_factor: Frac, depth: u32) -> (r:
        Result<Vec<PlacedRect>, LayoutError>)
        requires
            turtle_wf(t),
            w_factor.wf(),
            h_factor.wf(),
        ensures
            match r {
                Ok(rs) => {
                    &&& rect_ids(rs@) == idorder(self.specifics@)
                    &&& forall|k: int| 0 <= k < rs@.len() ==> rect_wf(#[trigger] rs@[k])
                    &&& forall|k: int|
                        0 <= k < rs@.len() ==> rq_le(t.x@, (#[trigger] rs@[k]).x@) && rq_le(
                            rq_add(rs@[k].x@, rs@[k].w@),
                            rq_add(t.x@, rq_mul(t.w@, w_factor@)),
                        )
                    &&& forall|k: int| 0 <= k < rs@.len() ==> (#[trigger] rs@[k]).y == t.y
                    &&& forall|k: int|
                        0 <= k < rs@.len() ==> rq_le(
                            (#[trigger] rs@[k]).h@,
                            rq_mul(t.h@, h_factor@),
                        )
                    &&& forall|k: int| 0 <= k < rs@.len() ==> (#[trigger] rs@[k]).depth >= depth
                    &&& forall|k1: int, k2: int|
                        0 <= k1 < k2 < rs@.len() && (#[trigger] rs@[k1]).depth == (
                        #[trigger] rs@[k2]).depth ==> rq_le(
                            rq_add(rs@[k1].x@, rs@[k1].w@),
                            rs@[k2].x@,
                        )
                    &&& ({
                        let geo = geo_specifics(
                            self.specifics@,
                            t.x@,
                            t.w@,
                            t.h@,
                            w_factor@,
                            h_factor@,
                            depth as int,
                        );
                        rs@.len() == geo.len() && forall|k: int|
                            0 <= k < rs@.len() ==> rq_eq((#[trigger] rs@[k]).x@, geo[k].x)
                                && rq_eq(rs@[k].w@, geo[k].w) && rq_eq(rs@[k].h@, geo[k].h)
                                && rs@[k].depth == geo[k].depth
                    })
                },
                Err(e) => e == LayoutError::Numeric,
            },
            (r is Ok) == subdiv_ok(
                self.specifics@,
                t.x@,
                t.w@,
                t.h@,
                w_factor@,
                h_factor@,
                depth as int,
            ),
        decreases *self,
    {
        let ghost whole = self.specifics@;
        let ghost spec_ok = subdiv_ok(
            self.specifics@,
            t.x@,
            t.w@,
            t.h@,
            w_factor@,
            h_factor@,
            depth as int,
        );
        let mut results: Vec<PlacedRect> = Vec::new();
        let n = self.specifics.len();
        if n == 0 {
            proof {
                assert(rect_ids(results@) =~= idorder(self.specifics@));
                assert(spec_ok);
            }
            return Ok(results);
        }
        let nf = Frac::from_u64(n as u64);
        proof {
            assert(nf@ == (n as int, 1int));
        }
        let bf = match w_factor.div(&nf) {
            Some(v) => v,
            None => {
                proof {
                    assert(!spec_ok);
                }
                return Err(LayoutError::Numeric);
            },
        };
        let band_w = match t.w.mul(&bf) {
            Some(v) => v,
            None => {
                proof {
                    assert(!spec_ok);
                }
                return Err(LayoutError::Numeric);
            },
        };
        let half = Frac { num: 1, den: 2 };
        let hf_next = match h_factor.mul(&half) {
            Some(v) => v,
            None => {
                proof {
                    assert(!spec_ok);
                }
                return Err(LayoutError::Numeric);
            },
        };
        let next_depth = match depth.checked_add(1) {
            Some(d) => d,
            None => {
                proof {
                    assert(!spec_ok);
                }
                return Err(LayoutError::Numeric);
            },
        };
        let mut cur_x = t.x;
        let ghost full_w = rq_mul(t.w@, w_factor@);
        let ghost bw = rq_mul(t.w@, bf@);
        let ghost bf_g = rq_div(w_factor@, (n as int, 1int));
        let ghost bw_g = rq_mul(t.w@, bf_g);
        let ghost mut gx = t.x@;
        proof {
            assert(rq_wf(bw)) by (nonlinear_arith)
                requires
                    rq_wf(t.w@),
                    rq_wf(bf@),
                    bw == rq_mul(t.w@, bf@),
            ;
            assert(rq_eq(rq_add(t.x@, rq_mul((0int, 1int), bw)), t.x@)) by (nonlinear_arith)
                requires
                    rq_wf(t.x@),
                    rq_wf(bw),
            ;
            assert(rq_wf(bf_g) && rq_wf(bw_g)) by (nonlinear_arith)
                requires
                    rq_wf(w_factor@),
                    rq_wf(t.w@),
                    n >= 1,
                    bf_g == rq_div(w_factor@, (n as int, 1int)),
                    bw_g == rq_mul(t.w@, bf_g),
            ;
            lemma_rq_mul_eq(t.w@, bf@, t.w@, bf_g);
            lemma_rq_eq_trans(band_w@, bw, bw_g);
            assert(self.specifics@.subrange(0, 0int) =~= Seq::<Specific>::empty());
            assert(self.specifics@.skip(0) =~= self.specifics@);
            assert(gx == geo_after(self.specifics@.subrange(0, 0int), t.x@, bw_g));
            assert(geo_bands(
                self.specifics@.subrange(0, 0int),
                t.x@,
                t.w@,
                t.h@,
                bf_g,
                h_factor@,
                depth as int,
            ) == Seq::<GeoRect>::empty());
        }
        let mut i: usize = 0;
        while i < n
            invariant
                i <= n,
                n >= 1,
                n == self.specifics@.len(),
                turtle_wf(t),
                w_factor.wf(),
                h_factor.wf(),
                nf@ == (n as int, 1int),
                bf.wf(),
                rq_eq(bf@, rq_div(w_factor@, (n as int, 1int))),
                band_w.wf(),
                rq_eq(band_w@, bw),
                bw == rq_mul(t.w@, bf@),
                rq_wf(bw),
                full_w == rq_mul(t.w@, w_factor@),
                half.wf(),
                half@ == (1int, 2int),
                hf_next.wf(),
                rq_eq(hf_next@, rq_mul(h_factor@, (1int, 2int))),
                next_depth == depth + 1,
                cur_x.wf(),
                rq_eq(cur_x@, rq_add(t.x@, rq_mul((i as int, 1int), bw))),
                rq_le(t.x@, cur_x@),
                rect_ids(results@) == idorder(self.specifics@.subrange(0, i as int)),
                forall|k: int| 0 <= k < results@.len() ==> rect_wf(#[trigger] results@[k]),
                forall|k: int|
                    0 <= k < results@.len() ==> rq_le(t.x@, (#[trigger] results@[k]).x@) && rq_le(
                        rq_add(results@[k].x@, results@[k].w@),
                        cur_x@,
                    ),
                forall|k: int| 0 <= k < results@.len() ==> (#[trigger] results@[k]).y == t.y,
                forall|k: int|
                    0 <= k < results@.len() ==> rq_le(
                        (#[trigger] results@[k]).h@,
                        rq_mul(t.h@, h_factor@),
                    ),
                forall|k: int| 0 <= k < results@.len() ==> (#[trigger] results@[k]).depth >= depth,
                forall|k1: int, k2: int|
                    0 <= k1 < k2 < results@.len() && (#[trigger] results@[k1]).depth == (
                    #[trigger] results@[k2]).depth ==> rq_le(
                        rq_add(results@[k1].x@, results@[k1].w@),
                        results@[k2].x@,
                    ),
                whole == self.specifics@,
                spec_ok == subdiv_ok(whole, t.x@, t.w@, t.h@, w_factor@, h_factor@, depth as int),
                div_spec(w_factor@, (n as int, 1int)) == Some(bf@),
                mul_spec(t.w@, bf@) == Some(band_w@),
                mul_spec(h_factor@, (1int, 2int)) == Some(hf_next@),
                i >= 1 ==> mul_spec(t.h@, h_factor@) is Some,
                bf_g == rq_div(w_factor@, (n as int, 1int)),
                bw_g == rq_mul(t.w@, bf_g),
                rq_wf(bf_g),
                rq_wf(bw_g),
                rq_eq(band_w@, bw_g),
                rq_eq(bf@, bf_g),
                gx == geo_after(whole.subrange(0, i as int), t.x@, bw_g),
                rq_wf(gx),
                rq_eq(cur_x@, gx),
                ({
                    let geo = geo_bands(
                        whole.subrange(0, i as int),
                        t.x@,
                        t.w@,
                        t.h@,
                        bf_g,
                        h_factor@,
                        depth as int,
                    );
                    results@.len() == geo.len() && forall|k: int|
                        0 <= k < results@.len() ==> rq_eq((#[trigger] results@[k]).x@, geo[k].x)
                            && rq_eq(results@[k].w@, geo[k].w) && rq_eq(results@[k].h@, geo[k].h)
                            && results@[k].depth == geo[k].depth
                }),
                sibs_ok(whole, t.x@, t.w@, t.h@, bf@, band_w@, hf_next@, depth as int) == sibs_ok(
                    whole.skip(i as int),
                    cur_x@,
                    t.w@,
                    t.h@,
                    bf@,
                    band_w@,
                    hf_next@,
                    depth as int,
                ),
            decreases n - i,
        {
            let child = &self.specifics[i];
            let ct = Turtle { x: cur_x, y: t.y, w: t.w, h: t.h };
            let rect = match child.to_rect(ct, bf, h_factor, depth) {
                Ok(v) => v,
                Err(e) => {
                    proof {
                        assert(mul_spec(t.h@, h_factor@) is None);
                        assert(!spec_ok);
                    }
                    return Err(e);
                },
            };
            let mut sub = match child.rects_in_specifics(ct, bf, hf_next, next_depth) {
                Ok(v) => v,
                Err(e) => {
                    proof {
                        assert(whole.skip(i as int)[0] == whole[i as int]);
                        assert(!subdiv_ok(
                            whole[i as int].specifics@,
                            cur_x@,
                            t.w@,
                            t.h@,
                            bf@,
                            hf_next@,
                            depth as int + 1,
                        ));
                        assert(!sibs_ok(
                            whole.skip(i as int),
                            cur_x@,
                            t.w@,
                            t.h@,
                            bf@,
                            band_w@,
                            hf_next@,
                            depth as int,
                        ));
                        assert(mul_spec(t.h@, h_factor@) is Some);
                        assert(!spec_ok);
                    }
                    return Err(e);
                },
            };
            let new_x = match cur_x.add(&band_w) {
                Some(v) => v,
                None => {
                    proof {
                        assert(whole.skip(i as int)[0] == whole[i as int]);
                        assert(add_spec(cur_x@, band_w@) is None);
                        assert(!sibs_ok(
                            whole.skip(i as int),
                            cur_x@,
                            t.w@,
                            t.h@,
                            bf@,
                            band_w@,
                            hf_next@,
                            depth as int,
                        ));
                        assert(mul_spec(t.h@, h_factor@) is Some);
                        assert(!spec_ok);
                    }
                    return Err(LayoutError::Numeric);
                },
            };
            let ghost resv = results@;
            let ghost subv = sub@;
            let ghost cx = cur_x@;
            let ghost nx = new_x@;
            results.push(rect);
            results.append(&mut sub);
            proof {
                // identity bookkeeping
                assert(self.specifics@.subrange(0, i + 1) =~= self.specifics@.subrange(
                    0,
                    i as int,
                ).push(self.specifics@[i as int]));
                lemma_idorder_push(
                    self.specifics@.subrange(0, i as int),
                    self.specifics@[i as int],
                );
                assert(rect_ids(results@) =~= rect_ids(resv) + seq![rect_id(rect)] + rect_ids(
                    subv,
                ));
                assert(rect_ids(results@) =~= idorder(self.specifics@.subrange(0, i + 1)));
                // the band's end is the new cursor, one band further
                lemma_rq_add_eq_local(cx, band_w@, cx, bw);
                lemma_rq_eq_trans(nx, rq_add(cx, band_w@), rq_add(cx, bw));
                assert(rq_wf(nx) && rq_eq(nx, rq_add(cx, bw)));
                lemma_chain_eq(
                    nx,
                    rq_add(cx, bw),
                    rq_add(t.x@, rq_mul((i + 1, 1int), bw)),
                    cx,
                    t.x@,
                    bw,
                    i as int,
                );
                assert(rq_eq(nx, rq_add(t.x@, rq_mul((i + 1, 1int), bw))));
                // geometry of the new segment
                lemma_segment_bounds(rect, subv, ct, bf, hf_next, h_factor, t, cx, nx, bw, depth);
                // cursor monotone
                assert(rq_le(t.x@, nx)) by {
                    lemma_cursor_le(t.x@, cx, nx, bw);
                }
                assert(rq_le(cx, nx)) by {
                    let s = rq_add(cx, bw);
                    assert(rq_wf(s) && rq_le(cx, s)) by (nonlinear_arith)
                        requires
                            rq_wf(cx),
                            rq_wf(bw),
                            s == rq_add(cx, bw),
                    ;
                    lemma_rq_eq_sym(nx, s);
                    lemma_rq_le_eq(cx, s, cx, nx);
                }
                let m = resv.len() as int;
                assert(results@ == resv.push(rect) + subv);
                assert(results@.len() == m + 1 + subv.len());
                assert(forall|k: int| 0 <= k < m ==> #[trigger] results@[k] == resv[k]);
                assert(results@[m] == rect);
                assert(forall|k: int|
                    m + 1 <= k < results@.len() ==> #[trigger] results@[k] == subv[k - m - 1]);
                assert forall|k: int|
                    0 <= k < results@.len() implies rq_le(t.x@, (#[trigger] results@[k]).x@)
                    && rq_le(rq_add(results@[k].x@, results@[k].w@), nx) by {
                    let e = rq_add(results@[k].x@, results@[k].w@);
                    assert(rq_wf(e)) by (nonlinear_arith)
                        requires
                            rq_wf(results@[k].x@),
                            rq_wf(results@[k].w@),
                            e == rq_add(results@[k].x@, results@[k].w@),
                    ;
                    if k < m {
                        lemma_rq_le_trans(e, cx, nx);
                    } else {
                        assert(rq_le(cx, results@[k].x@));
                        lemma_rq_le_trans(t.x@, cx, results@[k].x@);
                    }
                }
                assert forall|k1: int, k2: int|
                    0 <= k1 < k2 < results@.len() && (#[trigger] results@[k1]).depth == (
                    #[trigger] results@[k2]).depth implies rq_le(
                    rq_add(results@[k1].x@, results@[k1].w@),
                    results@[k2].x@,
                ) by {
                    let e = rq_add(results@[k1].x@, results@[k1].w@);
                    assert(rq_wf(e)) by (nonlinear_arith)
                        requires
                            rq_wf(results@[k1].x@),
                            rq_wf(results@[k1].w@),
                            e == rq_add(results@[k1].x@, results@[k1].w@),
                    ;
                    if k1 < m && k2 < m {
                    } else if k1 < m {
                        // the earlier segment ends at the old cursor; the
                        // new segment starts there
                        lemma_rq_le_trans(e, cx, results@[k2].x@);
                    } else if k1 == m {
                        // the child's rectangle is strictly shallower than
                        // anything in its own subtree
                        assert(results@[k2] == subv[k2 - m - 1]);
                        assert(results@[k2].depth >= depth + 1);
                        assert(false);
                    } else {
                        assert(results@[k1] == subv[k1 - m - 1]);
                        assert(results@[k2] == subv[k2 - m - 1]);
                    }
                }
            }
            proof {
                let pre = whole.subrange(0, i as int);
                let chv = whole[i as int];
                let n2 = chv.specifics@.len() as int;
                // exact band geometry: this child's own band and its subtree
                lemma_geo_push(pre, chv, t.x@, t.w@, t.h@, bf_g, h_factor@, depth as int);
                lemma_geo_after_push(pre, chv, t.x@, bw_g);
                let geo_i = geo_bands(pre, t.x@, t.w@, t.h@, bf_g, h_factor@, depth as int);
                let own_g = GeoRect {
                    x: gx,
                    w: bw_g,
                    h: rq_mul(t.h@, h_factor@),
                    depth: depth as int,
                };
                let sub_g = geo_bands(
                    chv.specifics@,
                    gx,
                    t.w@,
                    t.h@,
                    rq_div(bf_g, (n2, 1int)),
                    rq_mul(h_factor@, (1int, 2int)),
                    depth as int + 1,
                );
                let geo_i1 = geo_bands(
                    whole.subrange(0, i + 1),
                    t.x@,
                    t.w@,
                    t.h@,
                    bf_g,
                    h_factor@,
                    depth as int,
                );
                assert(geo_i1 == geo_i + seq![own_g] + sub_g);
                assert(rq_eq(rect.w@, bw_g)) by {
                    lemma_rq_mul_eq(ct.w@, bf@, t.w@, bf_g);
                    lemma_rq_eq_trans(rect.w@, rq_mul(ct.w@, bf@), bw_g);
                }
                let geo_c = geo_specifics(
                    chv.specifics@,
                    ct.x@,
                    ct.w@,
                    ct.h@,
                    bf@,
                    hf_next@,
                    next_depth as int,
                );
                assert(subv.len() == geo_c.len());
                if n2 >= 1 {
                    assert(rq_wf(rq_div(bf@, (n2, 1int))) && rq_wf(rq_div(bf_g, (n2, 1int)))
                        && rq_wf(rq_mul(h_factor@, (1int, 2int)))) by (nonlinear_arith)
                        requires
                            rq_wf(bf@),
                            rq_wf(bf_g),
                            rq_wf(h_factor@),
                            n2 >= 1,
                    ;
                    lemma_rq_div_eq(bf@, (n2, 1int), bf_g, (n2, 1int));
                    lemma_geo_congr(
                        chv.specifics@,
                        cx,
                        rq_div(bf@, (n2, 1int)),
                        hf_next@,
                        gx,
                        rq_div(bf_g, (n2, 1int)),
                        rq_mul(h_factor@, (1int, 2int)),
                        t.w@,
                        t.h@,
                        depth as int + 1,
                    );
                    lemma_geo_wf(
                        chv.specifics@,
                        cx,
                        t.w@,
                        t.h@,
                        rq_div(bf@, (n2, 1int)),
                        hf_next@,
                        depth as int + 1,
                    );
                    lemma_geo_wf(
                        chv.specifics@,
                        gx,
                        t.w@,
                        t.h@,
                        rq_div(bf_g, (n2, 1int)),
                        rq_mul(h_factor@, (1int, 2int)),
                        depth as int + 1,
                    );
                } else {
                    assert(sub_g =~= Seq::<GeoRect>::empty());
                    assert(geo_c =~= Seq::<GeoRect>::empty());
                }
                assert forall|j: int|
                    0 <= j < subv.len() implies rq_eq((#[trigger] subv[j]).x@, sub_g[j].x)
                    && rq_eq(subv[j].w@, sub_g[j].w) && rq_eq(subv[j].h@, sub_g[j].h)
                    && subv[j].depth == sub_g[j].depth by {
                    lemma_rq_eq_trans(subv[j].x@, geo_c[j].x, sub_g[j].x);
                    lemma_rq_eq_trans(subv[j].w@, geo_c[j].w, sub_g[j].w);
                    lemma_rq_eq_trans(subv[j].h@, geo_c[j].h, sub_g[j].h);
                }
                let m = resv.len() as int;
                assert(geo_i.len() == m);
                assert forall|k: int|
                    0 <= k < results@.len() implies rq_eq((#[trigger] results@[k]).x@, geo_i1[k].x)
                    && rq_eq(results@[k].w@, geo_i1[k].w) && rq_eq(results@[k].h@, geo_i1[k].h)
                    && results@[k].depth == geo_i1[k].depth by {
                    if k < m {
                        assert(results@[k] == resv[k]);
                        assert(geo_i1[k] == geo_i[k]);
                    } else if k == m {
                        assert(results@[k] == rect);
                        assert(geo_i1[k] == own_g);
                        assert(rq_eq(rect.x@, gx));
                    } else {
                        assert(results@[k] == subv[k - m - 1]);
                        assert(geo_i1[k] == sub_g[k - m - 1]);
                    }
                }
                assert(results@.len() == geo_i1.len());
                // cursor-past-bands bookkeeping
                let gx1 = rq_add(gx, bw_g);
                lemma_rq_add_eq(cx, band_w@, gx, bw_g);
                assert(rq_wf(rq_add(cx, band_w@)) && rq_wf(gx1)) by (nonlinear_arith)
                    requires
                        rq_wf(cx),
                        rq_wf(band_w@),
                        rq_wf(gx),
                        rq_wf(bw_g),
                        gx1 == rq_add(gx, bw_g),
                ;
                lemma_rq_eq_trans(nx, rq_add(cx, band_w@), gx1);
                gx = gx1;
                assert(gx == geo_after(whole.subrange(0, i + 1), t.x@, bw_g));
                // the machine-range fold steps to the next sibling
                assert(whole.skip(i as int)[0] == whole[i as int]);
                assert(whole.skip(i as int).drop_first() =~= whole.skip(i + 1));
                assert(subdiv_ok(
                    chv.specifics@,
                    cx,
                    t.w@,
                    t.h@,
                    bf@,
                    hf_next@,
                    depth as int + 1,
                ));
                assert(add_spec(cx, band_w@) == Some(nx));
                assert(sibs_ok(
                    whole.skip(i as int),
                    cx,
                    t.w@,
                    t.h@,
                    bf@,
                    band_w@,
                    hf_next@,
                    depth as int,
                ) == sibs_ok(
                    whole.skip(i + 1),
                    nx,
                    t.w@,
                    t.h@,
                    bf@,
                    band_w@,
                    hf_next@,
                    depth as int,
                ));
            }
            cur_x = new_x;
            i = i + 1;
        }
        proof {
            assert(self.specifics@.subrange(0, n as int) =~= self.specifics@);
            assert(whole.skip(n as int) =~= Seq::<Specific>::empty());
            assert(sibs_ok(
                whole.skip(n as int),
                cur_x@,
                t.w@,
                t.h@,
                bf@,
                band_w@,
                hf_next@,
                depth as int,
            ));
            assert(mul_spec(t.h@, h_factor@) is Some);
            assert(spec_ok);
            assert(geo_specifics(whole, t.x@, t.w@, t.h@, w_factor@, h_factor@, depth as int)
                == geo_bands(whole, t.x@, t.w@, t.h@, bf_g, h_factor@, depth as int));
            assert(rq_wf(full_w)) by (nonlinear_arith)
                requires
                    rq_wf(t.w@),
                    rq_wf(w_factor@),
                    full_w == rq_mul(t.w@, w_factor@),
            ;
            // the final cursor is exactly the cell band's right edge
            assert(rq_eq(cur_x@, rq_add(t.x@, full_w))) by {
                lemma_full_band(t.x@, cur_x@, t.w@, w_factor@, bf@, bw, n as int);
            }
            assert forall|k: int|
                0 <= k < results@.len() implies rq_le(t.x@, (#[trigger] results@[k]).x@) && rq_le(
                rq_add(results@[k].x@, results@[k].w@),
                rq_add(t.x@, full_w),
            ) by {
                let e = rq_add(results@[k].x@, results@[k].w@);
                assert(rq_wf(e) && rq_wf(rq_add(t.x@, full_w)) && rq_wf(cur_x@)) by (nonlinear_arith)
                    requires
                        rq_wf(results@[k].x@),
                        rq_wf(results@[k].w@),
                        rq_wf(t.x@),
                        rq_wf(full_w),
                        rq_wf(cur_x@),
                        e == rq_add(results@[k].x@, results@[k].w@),
                ;
                lemma_rq_le_eq(e, cur_x@, e, rq_add(t.x@, full_w));
            }
        }
        Ok(results)
    }

    /// The full set of rectangles for this range inside its packed area:
    /// the area's own rectangle at depth `depth_base`, then, nested inside
    /// it, the bands of every more-specific range, in preorder: the
    /// more-specifics split the full cell width into equal bands at half
    /// the cell height, each exactly as `geo_specifics` owes it. The call
    /// succeeds if and only if the depth and every value of the
    /// subdivision stay within the machine range.
    pub fn all_rects(&self, area: &Area, depth_base: u32) -> (r: Result<Vec<PlacedRect>, LayoutError>)
        requires
            area_wf(*area),
        ensures
            match r {
                Ok(rs) => {
                    &&& rs@.len() >= 1
                    &&& rect_ids(rs@) == seq![id_of(*self)] + idorder(self.specifics@)
                    &&& rs@[0].x == area.x && rs@[0].y == area.y && rs@[0].w == area.w && rs@[0].h
                        == area.h && rs@[0].depth == depth_base
                    &&& forall|k: int| 0 <= k < rs@.len() ==> rect_wf(#[trigger] rs@[k])
                    &&& forall|k: int|
                        1 <= k < rs@.len() ==> rq_le(area.x@, (#[trigger] rs@[k]).x@) && rq_le(
                            rq_add(rs@[k].x@, rs@[k].w@),
                            rq_add(area.x@, area.w@),
                        ) && rs@[k].y == area.y && rq_le(rs@[k].h@, area.h@) && rs@[k].depth
                            > depth_base
                    &&& forall|k1: int, k2: int|
                        1 <= k1 < k2 < rs@.len() && (#[trigger] rs@[k1]).depth == (
                        #[trigger] rs@[k2]).depth ==> rq_le(
                            rq_add(rs@[k1].x@, rs@[k1].w@),
                            rs@[k2].x@,
                        )
                    &&& ({
                        let geo = geo_specifics(
                            self.specifics@,
                            area.x@,
                            area.w@,
                            area.h@,
                            (1int, 1int),
                            (1int, 2int),
                            depth_base as int + 1,
                        );
                        rs@.len() == 1 + geo.len() && forall|k: int|
                            1 <= k < rs@.len() ==> rq_eq((#[trigger] rs@[k]).x@, geo[k - 1].x)
                                && rq_eq(rs@[k].w@, geo[k - 1].w) && rq_eq(rs@[k].h@, geo[k - 1].h)
                                && rs@[k].depth == geo[k - 1].depth
                    })
                },
                Err(e) => e == LayoutError::Numeric,
            },
            (r is Ok) == (depth_base < u32::MAX && subdiv_ok(
                self.specifics@,
                area.x@,
                area.w@,
                area.h@,
                (1int, 1int),
                (1int, 2int),
                depth_base as int + 1,
            )),
    {
        let t = Turtle { x: area.x, y: area.y, w: area.w, h: area.h };
        let own = PlacedRect {
            x: area.x,
            y: area.y,
            w: area.w,
            h: area.h,
            depth: depth_base,
            network: self.network,
            asn: self.asn.clone(),
        };
        let one = Frac::from_u64(1);
        let half = Frac { num: 1, den: 2 };
        let next_depth = match depth_base.checked_add(1) {
            Some(d) => d,
            None => return Err(LayoutError::Numeric),
        };
        let mut sub = match self.rects_in_specifics(t, one, half, next_depth) {
            Ok(v) => v,
            Err(e) => return Err(e),
        };
        let ghost subv = sub@;
        let mut results: Vec<PlacedRect> = Vec::new();
        results.push(own);
        results.append(&mut sub);
        proof {
            assert(rect_ids(results@) =~= seq![id_of(*self)] + idorder(self.specifics@));
            assert(rq_mul(t.w@, one@) == t.w@) by {
                assert(t.w@.0 * 1 == t.w@.0 && t.w@.1 * 1 == t.w@.1) by (nonlinear_arith);
            }
            assert forall|k: int|
                1 <= k < results@.len() implies rq_le(area.x@, (#[trigger] results@[k]).x@)
                && rq_le(rq_add(results@[k].x@, results@[k].w@), rq_add(area.x@, area.w@))
                && results@[k].y == area.y && rq_le(results@[k].h@, area.h@) && results@[k].depth
                > depth_base by {
                assert(results@[k] == subv[k - 1]);
                assert(rq_le(subv[k - 1].h@, rq_mul(t.h@, half@)));
                assert(rq_le(rq_mul(t.h@, half@), t.h@) && rq_wf(rq_mul(t.h@, half@)))
                    by (nonlinear_arith)
                    requires
                        rq_wf(t.h@),
                        half@ == (1int, 2int),
                        rq_mul(t.h@, half@) == (t.h@.0 * 1, t.h@.1 * 2),
                ;
                lemma_rq_le_trans(subv[k - 1].h@, rq_mul(t.h@, half@), t.h@);
            }
            assert forall|k1: int, k2: int|
                1 <= k1 < k2 < results@.len() && (#[trigger] results@[k1]).depth == (
                #[trigger] results@[k2]).depth implies rq_le(
                rq_add(results@[k1].x@, results@[k1].w@),
                results@[k2].x@,
            ) by {
                assert(results@[k1] == subv[k1 - 1]);
                assert(results@[k2] == subv[k2 - 1]);
            }
            let geo = geo_specifics(
                self.specifics@,
                area.x@,
                area.w@,
                area.h@,
                (1int, 1int),
                (1int, 2int),
                depth_base as int + 1,
            );
            assert(results@.len() == 1 + geo.len());
            assert forall|k: int|
                1 <= k < results@.len() implies rq_eq((#[trigger] results@[k]).x@, geo[k - 1].x)
                && rq_eq(results@[k].w@, geo[k - 1].w) && rq_eq(results@[k].h@, geo[k - 1].h)
                && results@[k].depth == geo[k - 1].depth by {
                assert(results@[k] == subv[k - 1]);
            }
        }
        Ok(results)
    }
}

/// Equal operands give equal sums (local restatement binding pairs).
proof fn lemma_rq_add_eq_local(a: (int, int), b: (int, int), x: (int, int), y: (int, int))
    requires
        rq_wf(a),
        rq_wf(b),
        rq_wf(x),
        rq_wf(y),
        rq_eq(a, x),
        rq_eq(b, y),
    ensures
        rq_wf(rq_add(a, b)),
        rq_wf(rq_add(x, y)),
        rq_eq(rq_add(a, b), rq_add(x, y)),
{
    crate::frac::lemma_rq_add_eq(a, b, x, y);
    assert(rq_wf(rq_add(a, b)) && rq_wf(rq_add(x, y))) by (nonlinear_arith)
        requires
            rq_wf(a),
            rq_wf(b),
            rq_wf(x),
            rq_wf(y),
            rq_add(a, b) == (a.0 * b.1 + b.0 * a.1, a.1 * b.1),
            rq_add(x, y) == (x.0 * y.1 + y.0 * x.1, x.1 * y.1),
    ;
}

/// Chain: the new cursor equals the origin plus one more band.
proof fn lemma_chain_eq(
    nx: (int, int),
    mid: (int, int),
    goal: (int, int),
    cx: (int, int),
    ox: (int, int),
    bw: (int, int),
    i: int,
)
    requires
        i >= 0,
        rq_wf(nx),
        rq_wf(cx),
        rq_wf(ox),
        rq_wf(bw),
        mid == rq_add(cx, bw),
        goal == rq_add(ox, rq_mul((i + 1, 1int), bw)),
        rq_eq(nx, mid),
        rq_eq(cx, rq_add(ox, rq_mul((i, 1int), bw))),
    ensures
        rq_eq(nx, goal),
{
    let step = rq_add(ox, rq_mul((i, 1int), bw));
    assert(rq_wf(rq_mul((i, 1int), bw)) && rq_wf(rq_mul((i + 1, 1int), bw))) by (nonlinear_arith)
        requires
            i >= 0,
            rq_wf(bw),
            rq_mul((i, 1int), bw) == (i * bw.0, 1 * bw.1),
            rq_mul((i + 1, 1int), bw) == ((i + 1) * bw.0, 1 * bw.1),
    ;
    assert(rq_wf(step) && rq_wf(goal)) by (nonlinear_arith)
        requires
            rq_wf(ox),
            rq_wf(rq_mul((i, 1int), bw)),
            rq_wf(rq_mul((i + 1, 1int), bw)),
            step == rq_add(ox, rq_mul((i, 1int), bw)),
            goal == rq_add(ox, rq_mul((i + 1, 1int), bw)),
    ;
    lemma_rq_add_eq_local(cx, bw, step, bw);
    lemma_rq_eq_trans(nx, rq_add(cx, bw), rq_add(step, bw));
    lemma_rq_mul_int_succ(i, bw);
    // add(step, bw) == add(ox, i*bw) + bw ~ add(ox, (i+1)*bw): reassociate
    assert(rq_eq(rq_add(step, bw), goal)) by (nonlinear_arith)
        requires
            rq_wf(ox),
            rq_wf(bw),
            i >= 0,
            step == rq_add(ox, rq_mul((i, 1int), bw)),
            goal == rq_add(ox, rq_mul((i + 1, 1int), bw)),
            rq_add(step, bw) == (step.0 * bw.1 + bw.0 * step.1, step.1 * bw.1),
            step.0 == ox.0 * (1 * bw.1) + (i * bw.0) * ox.1,
            step.1 == ox.1 * (1 * bw.1),
            goal.0 == ox.0 * (1 * bw.1) + ((i + 1) * bw.0) * ox.1,
            goal.1 == ox.1 * (1 * bw.1),
    ;
    lemma_rq_eq_trans(nx, rq_add(step, bw), goal);
}

/// The cursor never moves left of the origin.
proof fn lemma_cursor_le(ox: (int, int), cx: (int, int), nx: (int, int), bw: (int, int))
    requires
        rq_wf(ox),
        rq_wf(cx),
        rq_wf(nx),
        rq_wf(bw),
        rq_le(ox, cx),
        rq_eq(nx, rq_add(cx, bw)),
    ensures
        rq_le(ox, nx),
{
    let s = rq_add(cx, bw);
    assert(rq_wf(s) && rq_le(cx, s)) by (nonlinear_arith)
        requires
            rq_wf(cx),
            rq_wf(bw),
            s == rq_add(cx, bw),
    ;
    lemma_rq_le_trans(ox, cx, s);
    lemma_rq_eq_sym(nx, s);
    lemma_rq_le_eq(ox, s, ox, nx);
}

/// Bounds of one emitted segment: the child's rectangle and its subtree
/// stay within the child's band, anchored at the cell's top.
#[verifier::spinoff_prover]
proof fn lemma_segment_bounds(
    rect: PlacedRect,
    subv: Seq<PlacedRect>,
    ct: Turtle,
    bf: Frac,
    hf_next: Frac,
    h_factor: Frac,
    t: Turtle,
    cx: (int, int),
    nx: (int, int),
    bw: (int, int),
    depth: u32,
)
    requires
        turtle_wf(ct),
        turtle_wf(t),
        bf.wf(),
        hf_next.wf(),
        h_factor.wf(),
        rq_wf(cx),
        rq_wf(nx),
        rq_wf(bw),
        ct.x@ == cx,
        ct.y == t.y,
        ct.w == t.w,
        ct.h == t.h,
        bw == rq_mul(t.w@, bf@),
        rq_eq(nx, rq_add(cx, bw)),
        rq_eq(hf_next@, rq_mul(h_factor@, (1int, 2int))),
        // the child's own rectangle
        rect_wf(rect),
        rect.x == ct.x,
        rect.y == ct.y,
        rq_eq(rect.w@, rq_mul(ct.w@, bf@)),
        rq_eq(rect.h@, rq_mul(ct.h@, h_factor@)),
        rect.depth == depth,
        // the subtree's rectangles
        forall|k: int| 0 <= k < subv.len() ==> rect_wf(#[trigger] subv[k]),
        forall|k: int|
            0 <= k < subv.len() ==> rq_le(ct.x@, (#[trigger] subv[k]).x@) && rq_le(
                rq_add(subv[k].x@, subv[k].w@),
                rq_add(ct.x@, rq_mul(ct.w@, bf@)),
            ),
        forall|k: int| 0 <= k < subv.len() ==> (#[trigger] subv[k]).y == ct.y,
        forall|k: int|
            0 <= k < subv.len() ==> rq_le((#[trigger] subv[k]).h@, rq_mul(ct.h@, hf_next@)),
        forall|k: int| 0 <= k < subv.len() ==> (#[trigger] subv[k]).depth >= depth + 1,
    ensures
        // every rectangle of the segment lies in [cx, nx], at the top,
        // no taller than the level's band height
        rq_le(cx, rect.x@),
        rq_le(rq_add(rect.x@, rect.w@), nx),
        forall|k: int|
            0 <= k < subv.len() ==> rq_le(cx, (#[trigger] subv[k]).x@) && rq_le(
                rq_add(subv[k].x@, subv[k].w@),
                nx,
            ),
        forall|k: int|
            0 <= k < subv.len() ==> rq_le((#[trigger] subv[k]).h@, rq_mul(t.h@, h_factor@)),
{
    let band_end = rq_add(cx, bw);
    lemma_rq_eq_sym(nx, band_end);
    // the child's own rectangle ends at the band end
    let re = rq_add(rect.x@, rect.w@);
    assert(rq_wf(re) && rq_wf(band_end)) by (nonlinear_arith)
        requires
            rq_wf(rect.x@),
            rq_wf(rect.w@),
            rq_wf(cx),
            rq_wf(bw),
            re == rq_add(rect.x@, rect.w@),
            band_end == rq_add(cx, bw),
    ;
    assert(rq_eq(re, band_end)) by {
        lemma_rq_add_eq_local(rect.x@, rect.w@, cx, bw);
    }
    lemma_rq_eq_trans(re, band_end, nx);
    assert(rq_le(rq_add(rect.x@, rect.w@), nx));
    assert(rq_le(cx, rect.x@));
    // subtree: transfer band-end bound through the value equality
    assert forall|k: int|
        0 <= k < subv.len() implies rq_le(cx, (#[trigger] subv[k]).x@) && rq_le(
        rq_add(subv[k].x@, subv[k].w@),
        nx,
    ) by {
        let se = rq_add(subv[k].x@, subv[k].w@);
        assert(rq_wf(se)) by (nonlinear_arith)
            requires
                rq_wf(subv[k].x@),
                rq_wf(subv[k].w@),
                se == rq_add(subv[k].x@, subv[k].w@),
        ;
        lemma_rq_le_eq(se, band_end, se, nx);
    }
    // subtree heights: half the level's band height is at most the band height
    assert forall|k: int|
        0 <= k < subv.len() implies rq_le((#[trigger] subv[k]).h@, rq_mul(t.h@, h_factor@)) by {
        let hh = rq_mul(ct.h@, hf_next@);
        let hb = rq_mul(t.h@, h_factor@);
        assert(rq_wf(hh) && rq_wf(hb)) by (nonlinear_arith)
            requires
                rq_wf(ct.h@),
                rq_wf(hf_next@),
                rq_wf(h_factor@),
                hh == rq_mul(ct.h@, hf_next@),
                hb == rq_mul(t.h@, h_factor@),
                ct.h == t.h,
        ;
        assert(rq_le(hf_next@, h_factor@)) by (nonlinear_arith)
            requires
                rq_wf(hf_next@),
                rq_wf(h_factor@),
                rq_eq(hf_next@, rq_mul(h_factor@, (1int, 2int))),
        ;
        lemma_rq_mul_le_mono(ct.h@, hf_next@, h_factor@);
        lemma_rq_le_trans(subv[k].h@, hh, hb);
    }
}

/// The whole cell band: `n` bands of width `w * (wf / n)` together span
/// exactly `w * wf`.
proof fn lemma_full_band(
    ox: (int, int),
    cx: (int, int),
    w: (int, int),
    wf: (int, int),
    bfv: (int, int),
    bw: (int, int),
    n: int,
)
    requires
        n >= 1,
        rq_wf(ox),
        rq_wf(cx),
        rq_wf(w),
        rq_wf(wf),
        rq_wf(bfv),
        rq_wf(bw),
        rq_eq(bfv, rq_div(wf, (n, 1int))),
        bw == rq_mul(w, bfv),
        rq_eq(cx, rq_add(ox, rq_mul((n, 1int), bw))),
    ensures
        rq_eq(cx, rq_add(ox, rq_mul(w, wf))),
{
    // n * (w * bf) has the value of w * wf
    assert(bfv.0 * wf.1 * n == wf.0 * bfv.1) by (nonlinear_arith)
        requires
            bfv.0 * (wf.1 * n) == (wf.0 * 1) * bfv.1,
    ;
    assert((n * (w.0 * bfv.0)) * (w.1 * wf.1) == (w.0 * wf.0) * (1 * (w.1 * bfv.1)))
        by (nonlinear_arith)
        requires
            bfv.0 * wf.1 * n == wf.0 * bfv.1,
    ;
    assert(rq_eq(rq_mul((n, 1int), bw), rq_mul(w, wf)));
    assert(rq_wf(rq_mul((n, 1int), bw)) && rq_wf(rq_mul(w, wf))) by (nonlinear_arith)
        requires
            n >= 1,
            rq_wf(bw),
            rq_wf(w),
            rq_wf(wf),
            rq_mul((n, 1int), bw) == (n * bw.0, 1 * bw.1),
            rq_mul(w, wf) == (w.0 * wf.0, w.1 * wf.1),
    ;
    lemma_rq_add_eq_local(ox, rq_mul((n, 1int), bw), ox, rq_mul(w, wf));
    lemma_rq_eq_trans(cx, rq_add(ox, rq_mul((n, 1int), bw)), rq_add(ox, rq_mul(w, wf)));
}

} // verus!
