//! The squarified treemap packer.
//!
//! Weighted items are laid into rows of exactly-sized rectangles: a row is
//! grown while the squareness of its worst rectangle does not degrade, and
//! closed otherwise. All geometry is exact rational arithmetic; an
//! arithmetic value that leaves the machine range surfaces as an explicit
//! error, never as a wrong rectangle.

use vstd::prelude::*;
use vstd::pervasive::VecAdditionalExecFns;
use crate::frac::{Frac, add_spec, div_spec, rq_add, rq_div, rq_eq, rq_le, rq_mul, rq_sub, rq_sum,
    rq_wf, rq_all_wf, rq_num_sum, sub_spec, lemma_rq_add_eq, lemma_rq_div_eq, lemma_rq_eq_pos,
    lemma_rq_eq_sym, lemma_rq_eq_trans, lemma_rq_div_exact, lemma_rq_le_antisym, lemma_rq_le_eq,
    lemma_rq_le_total, lemma_rq_le_trans, lemma_rq_sum_common_den, lemma_rq_sum_eq,
    lemma_rq_sum_pos, lemma_rq_sum_wf};

verus! {

/// Why a layout could not be produced.
#[derive(Clone, Copy, Debug, PartialEq, Eq, Structural)]
pub enum LayoutError {
    /// An item of weight zero (or an empty total) admits no proportional
    /// rectangle.
    ZeroWeight,
    /// An exact coordinate left the machine range.
    Numeric,
}

/// A rectangle in the making: its geometry, its exact target surface, and
/// the index of the forest item it stands for.
#[derive(Clone, Copy, Debug)]
pub struct Area {
    pub x: Frac,
    pub y: Frac,
    pub w: Frac,
    pub h: Frac,
    pub surface: Frac,
    pub item: usize,
}

/// What the packer must preserve of an area: its surface and its item.
pub open spec fn area_key(a: Area) -> ((int, int), usize) {
    (a.surface@, a.item)
}

pub open spec fn area_keys(f: Seq<Area>) -> Seq<((int, int), usize)> {
    f.map_values(|a: Area| area_key(a))
}

pub open spec fn surfaces(f: Seq<Area>) -> Seq<(int, int)> {
    f.map_values(|a: Area| a.surface@)
}

/// Sound machine representation: all fractions well formed, the target
/// surface positive.
pub open spec fn area_wf(a: Area) -> bool {
    a.x.wf() && a.y.wf() && a.w.wf() && a.h.wf() && a.surface.wf() && a.surface@.0 >= 1
}

/// The rectangle's sides multiply exactly to its target surface.
pub open spec fn area_exact(a: Area) -> bool {
    rq_eq(rq_mul(a.w@, a.h@), a.surface@)
}

/// A positive surface forces both sides positive.
pub proof fn lemma_area_dims_pos(a: Area)
    requires
        area_wf(a),
        area_exact(a),
    ensures
        a.w@.0 >= 1,
        a.h@.0 >= 1,
{
    assert(a.w@.0 >= 1 && a.h@.0 >= 1) by (nonlinear_arith)
        requires
            (a.w@.0 * a.h@.0) * a.surface@.1 == a.surface@.0 * (a.w@.1 * a.h@.1),
            a.surface@.0 >= 1,
            a.surface@.1 >= 1,
            a.w@.1 >= 1,
            a.h@.1 >= 1,
            a.w@.0 >= 0,
            a.h@.0 >= 0,
    ;
}

/// The squareness of a rectangle with the two given sides: short side
/// over long side, a value in (0, 1], one for a square.
pub open spec fn side_ratio(x: (int, int), y: (int, int)) -> (int, int) {
    if rq_le(x, y) {
        rq_div(x, y)
    } else {
        rq_div(y, x)
    }
}

/// The squareness a member of target surface `s` gets in a row of
/// thickness `t`: its sides are `t` and `s / t`.
pub open spec fn member_ratio(s: (int, int), t: (int, int)) -> (int, int) {
    side_ratio(t, rq_div(s, t))
}

/// The worst squareness of a row of thickness `t` holding members with
/// the given target surfaces; an empty row scores a perfect one.
pub open spec fn worst_from(ss: Seq<(int, int)>, t: (int, int)) -> (int, int)
    decreases ss.len(),
{
    if ss.len() == 0 {
        (1int, 1int)
    } else {
        let m = worst_from(ss.drop_last(), t);
        let r = member_ratio(ss.last(), t);
        if rq_le(m, r) {
            m
        } else {
            r
        }
    }
}

/// The thickness a row of the given full extent takes from the given
/// member surfaces.
pub open spec fn row_thickness(ss: Seq<(int, int)>, ext: (int, int)) -> (int, int) {
    rq_div(rq_sum(ss), ext)
}

/// What computing an area's squareness produces: the exact score, or
/// nothing exactly when its reduced form leaves the machine range.
pub open spec fn ratio_result(a: Area) -> Option<(int, int)> {
    if rq_le(a.w@, a.h@) {
        div_spec(a.w@, a.h@)
    } else {
        div_spec(a.h@, a.w@)
    }
}

/// Folding the exact machine sum over surface representations from `acc`,
/// position `i` on; nothing exactly when a step leaves the machine range.
pub open spec fn sum_fold(ss: Seq<(int, int)>, i: int, acc: (int, int)) -> Option<(int, int)>
    decreases ss.len() - i,
{
    if i >= ss.len() || i < 0 {
        Some(acc)
    } else {
        match add_spec(acc, ss[i]) {
            None => None,
            Some(n) => sum_fold(ss, i + 1, n),
        }
    }
}

/// The exact machine sum of the given surface representations.
pub open spec fn sum_result(ss: Seq<(int, int)>) -> Option<(int, int)> {
    sum_fold(ss, 0, (0int, 1int))
}

/// Folding the worst squareness over a row's areas from `acc`, position
/// `i` on; nothing exactly when some score leaves the machine range.
pub open spec fn worst_fold(f: Seq<Area>, i: int, acc: (int, int)) -> Option<(int, int)>
    decreases f.len() - i,
{
    if i >= f.len() || i < 0 {
        Some(acc)
    } else {
        match ratio_result(f[i]) {
            None => None,
            Some(r) => worst_fold(
                f,
                i + 1,
                if rq_le(acc, r) {
                    acc
                } else {
                    r
                },
            ),
        }
    }
}

/// What computing a row's worst squareness produces.
pub open spec fn worst_result(f: Seq<Area>) -> Option<(int, int)> {
    worst_fold(f, 0, (1int, 1int))
}

/// What opening a row produces: the pair of its primary extent (the
/// remaining canvas) and its thickness (the seed surface over that
/// extent); nothing exactly when the origin lies at or past the canvas
/// edge or a value leaves the machine range.
pub open spec fn row_new_result(
    surface: (int, int),
    x: (int, int),
    y: (int, int),
    vertical: bool,
    canvas_w: u64,
    canvas_h: u64,
) -> Option<((int, int), (int, int))> {
    let full = if vertical {
        (canvas_h as int, 1int)
    } else {
        (canvas_w as int, 1int)
    };
    let origin = if vertical {
        y
    } else {
        x
    };
    match sub_spec(full, origin) {
        None => None,
        Some(ext) => if ext.0 == 0 {
            None
        } else {
            match div_spec(surface, ext) {
                None => None,
                Some(th) => Some((ext, th)),
            }
        },
    }
}

impl Area {
    /// A fresh area of the given target surface for the given item; its
    /// geometry is assigned by the packer.
    pub fn new(surface: Frac, item: usize) -> (r: Area)
        requires
            surface.wf(),
            surface@.0 >= 1,
        ensures
            area_wf(r),
            r.surface == surface,
            r.item == item,
    {
        Area { x: Frac::zero(), y: Frac::zero(), w: Frac::zero(), h: Frac::zero(), surface, item }
    }

    /// The squareness of this rectangle: short side over long side, a value
    /// in (0, 1], one for a perfect square.
    pub open spec fn ratio_spec(self) -> (int, int) {
        side_ratio(self.w@, self.h@)
    }

    /// Compute the squareness of this rectangle; fails exactly when the
    /// score's reduced form leaves the machine range.
    pub fn get_ratio(&self) -> (r: Option<Frac>)
        requires
            area_wf(*self),
            area_exact(*self),
        ensures
            match r {
                Some(t) => t.wf() && rq_eq(t@, self.ratio_spec()) && ratio_result(*self) == Some(
                    t@,
                ),
                None => ratio_result(*self) is None,
            },
    {
        proof {
            lemma_area_dims_pos(*self);
        }
        if self.w.le(&self.h) {
            self.w.div(&self.h)
        } else {
            self.h.div(&self.w)
        }
    }
}

/// A row of the layout: a strip starting at `(x, y)`, vertical strips
/// running down the remaining canvas height, horizontal ones across the
/// remaining width, filled by consecutive areas along the primary axis.
#[derive(Debug)]
pub struct Row {
    pub x: Frac,
    pub y: Frac,
    pub w: Frac,
    pub h: Frac,
    pub vertical: bool,
    pub areas: Vec<Area>,
}

/// Folding the exact re-laying of member surfaces at thickness `th` from
/// running position `pos`: each member's extent and the next position
/// must stay within the machine range.
pub open spec fn lay_fold(ss: Seq<(int, int)>, i: int, th: (int, int), pos: (int, int)) -> bool
    decreases ss.len() - i,
{
    if i >= ss.len() || i < 0 {
        true
    } else {
        match div_spec(ss[i], th) {
            None => false,
            Some(b) => match add_spec(pos, b) {
                None => false,
                Some(p2) => lay_fold(ss, i + 1, th, p2),
            },
        }
    }
}

/// What re-laying a row of the given member surfaces, primary extent and
/// origin produces: the new thickness, or nothing exactly when a value of
/// the computation leaves the machine range.
pub open spec fn reflow_result(ss: Seq<(int, int)>, ext: (int, int), origin: (int, int)) -> Option<
    (int, int),
> {
    match sum_result(ss) {
        None => None,
        Some(tot) => match div_spec(tot, ext) {
            None => None,
            Some(th) => if lay_fold(ss, 0, th, origin) {
                Some(th)
            } else {
                None
            },
        },
    }
}

/// Sound machine representation of a row; its thickness divisor (the full
/// extent along the primary axis) is positive.
pub open spec fn row_wf(r: Row) -> bool {
    r.x.wf() && r.y.wf() && r.w.wf() && r.h.wf() && (forall|i: int|
        0 <= i < r.areas@.len() ==> area_wf(#[trigger] r.areas@[i])) && (if r.vertical {
        r.h@.0 >= 1
    } else {
        r.w@.0 >= 1
    })
}

/// The row's areas are laid out exactly: every rectangle has its target
/// surface, spans the row's thickness, and the rectangles run contiguously
/// along the primary axis from the row's origin.
pub open spec fn row_placed(r: Row) -> bool {
    let f = r.areas@;
    (forall|i: int| 0 <= i < f.len() ==> area_exact(#[trigger] f[i])) && (if r.vertical {
        (forall|i: int|
            0 <= i < f.len() ==> (#[trigger] f[i]).x == r.x && f[i].w == r.w) && (f.len() > 0
            ==> f[0].y == r.y) && (forall|i: int|
            1 <= i < f.len() ==> rq_eq((#[trigger] f[i]).y@, rq_add(f[i - 1].y@, f[i - 1].h@)))
    } else {
        (forall|i: int|
            0 <= i < f.len() ==> (#[trigger] f[i]).y == r.y && f[i].h == r.h) && (f.len() > 0
            ==> f[0].x == r.x) && (forall|i: int|
            1 <= i < f.len() ==> rq_eq((#[trigger] f[i]).x@, rq_add(f[i - 1].x@, f[i - 1].w@)))
    })
}

impl Row {
    /// Open a row at `(x, y)` seeded with one area. A vertical row spans
    /// the remaining canvas height, a horizontal one the remaining width;
    /// the seed's other side is sized so its surface is exact.
    pub fn new(x: Frac, y: Frac, vertical: bool, area: Area, canvas_w: u64, canvas_h: u64) -> (r:
        Result<Row, LayoutError>)
        requires
            x.wf(),
            y.wf(),
            area_wf(area),
            canvas_w >= 1,
            canvas_h >= 1,
        ensures
            match r {
                Ok(row) => row_wf(row) && row_placed(row) && row.x == x && row.y == y
                    && row.vertical == vertical && area_keys(row.areas@) == seq![area_key(area)]
                    && (vertical ==> rq_eq(row.h@, rq_sub((canvas_h as int, 1int), y@))) && (
                !vertical ==> rq_eq(row.w@, rq_sub((canvas_w as int, 1int), x@)))
                    && row.areas@.len() == 1 && row.areas@[0].x == x && row.areas@[0].y == y
                    && row.areas@[0].w == row.w && row.areas@[0].h == row.h && row.areas@[0].surface
                    == area.surface && row.areas@[0].item == area.item && (row_new_result(
                    area.surface@,
                    x@,
                    y@,
                    vertical,
                    canvas_w,
                    canvas_h,
                ) matches Some(p) && (vertical ==> row.h@ == p.0 && row.w@ == p.1) && (!vertical
                    ==> row.w@ == p.0 && row.h@ == p.1)) && (vertical ==> rq_eq(
                    row.w@,
                    row_thickness(surfaces(row.areas@), row.h@),
                )) && (!vertical ==> rq_eq(row.h@, row_thickness(surfaces(row.areas@), row.w@))),
                Err(e) => e == LayoutError::Numeric && row_new_result(
                    area.surface@,
                    x@,
                    y@,
                    vertical,
                    canvas_w,
                    canvas_h,
                ) is None,
            },
    {
        if vertical {
            let full = Frac::from_u64(canvas_h);
            let hr = match full.sub(&y) {
                Some(v) => v,
                None => return Err(LayoutError::Numeric),
            };
            if hr.is_zero() {
                return Err(LayoutError::Numeric);
            }
            let wr = match area.surface.div(&hr) {
                Some(v) => v,
                None => return Err(LayoutError::Numeric),
            };
            proof {
                lemma_rq_div_exact(area.surface@, hr@, wr@);
                assert(rq_mul(wr@, hr@) == rq_mul(hr@, wr@)) by (nonlinear_arith);
            }
            let seeded = Area { x, y, w: wr, h: hr, surface: area.surface, item: area.item };
            let mut areas: Vec<Area> = Vec::new();
            areas.push(seeded);
            let row = Row { x, y, w: wr, h: hr, vertical: true, areas };
            proof {
                assert(area_keys(row.areas@) =~= seq![area_key(area)]);
                assert(area_exact(seeded));
                assert(row_placed(row));
                assert(surfaces(row.areas@) =~= seq![area.surface@]);
                assert(seq![area.surface@].drop_last() =~= Seq::<(int, int)>::empty());
                reveal_with_fuel(rq_sum, 3);
                assert(seq![area.surface@].last() == area.surface@);
                assert(rq_sum(seq![area.surface@]) == rq_add(
                    rq_sum(seq![area.surface@].drop_last()),
                    area.surface@,
                ));
                assert(rq_sum(seq![area.surface@].drop_last()) == (0int, 1int));
                assert(rq_add((0int, 1int), area.surface@) == area.surface@) by {
                    let s = area.surface@;
                    assert(0 * s.1 + s.0 * 1 == s.0) by (nonlinear_arith);
                    assert(1 * s.1 == s.1) by (nonlinear_arith);
                }
                assert(rq_sum(seq![area.surface@]) == area.surface@);
            }
            Ok(row)
        } else {
            let full = Frac::from_u64(canvas_w);
            let wr = match full.sub(&x) {
                Some(v) => v,
                None => return Err(LayoutError::Numeric),
            };
            if wr.is_zero() {
                return Err(LayoutError::Numeric);
            }
            let hr = match area.surface.div(&wr) {
                Some(v) => v,
                None => return Err(LayoutError::Numeric),
            };
            proof {
                lemma_rq_div_exact(area.surface@, wr@, hr@);
            }
            let seeded = Area { x, y, w: wr, h: hr, surface: area.surface, item: area.item };
            let mut areas: Vec<Area> = Vec::new();
            areas.push(seeded);
            let row = Row { x, y, w: wr, h: hr, vertical: false, areas };
            proof {
                assert(area_keys(row.areas@) =~= seq![area_key(area)]);
                assert(area_exact(seeded));
                assert(row_placed(row));
                assert(surfaces(row.areas@) =~= seq![area.surface@]);
                assert(seq![area.surface@].drop_last() =~= Seq::<(int, int)>::empty());
                reveal_with_fuel(rq_sum, 3);
                assert(seq![area.surface@].last() == area.surface@);
                assert(rq_sum(seq![area.surface@]) == rq_add(
                    rq_sum(seq![area.surface@].drop_last()),
                    area.surface@,
                ));
                assert(rq_sum(seq![area.surface@].drop_last()) == (0int, 1int));
                assert(rq_add((0int, 1int), area.surface@) == area.surface@) by {
                    let s = area.surface@;
                    assert(0 * s.1 + s.0 * 1 == s.0) by (nonlinear_arith);
                    assert(1 * s.1 == s.1) by (nonlinear_arith);
                }
                assert(rq_sum(seq![area.surface@]) == area.surface@);
            }
            Ok(row)
        }
    }

    /// The exact sum of the target surfaces of the row's areas; fails
    /// exactly when a partial sum leaves the machine range.
    pub fn area(&self) -> (r: Option<Frac>)
        requires
            forall|i: int| 0 <= i < self.areas@.len() ==> area_wf(#[trigger] self.areas@[i]),
        ensures
            match r {
                Some(t) => t.wf() && rq_eq(t@, rq_sum(surfaces(self.areas@))) && sum_result(
                    surfaces(self.areas@),
                ) == Some(t@),
                None => sum_result(surfaces(self.areas@)) is None,
            },
    {
        let ghost ss = surfaces(self.areas@);
        let mut acc = Frac::zero();
        let mut i: usize = 0;
        let n = self.areas.len();
        while i < n
            invariant
                i <= n,
                n == self.areas@.len(),
                ss == surfaces(self.areas@),
                forall|t: int| 0 <= t < n ==> area_wf(#[trigger] self.areas@[t]),
                acc.wf(),
                rq_eq(acc@, rq_sum(ss.subrange(0, i as int))),
                sum_result(ss) == sum_fold(ss, i as int, acc@),
            decreases n - i,
        {
            proof {
                assert(ss[i as int] == self.areas@[i as int].surface@);
                assert(ss.subrange(0, i + 1).drop_last() =~= ss.subrange(0, i as int));
                assert(ss.subrange(0, i + 1).last() == ss[i as int]);
                assert(rq_all_wf(ss.subrange(0, i as int))) by {
                    assert(forall|t: int|
                        0 <= t < i ==> #[trigger] ss.subrange(0, i as int)[t] == self.areas@[t]
                            .surface@);
                }
                lemma_rq_sum_wf(ss.subrange(0, i as int));
                lemma_rq_add_eq(
                    acc@,
                    self.areas@[i as int].surface@,
                    rq_sum(ss.subrange(0, i as int)),
                    ss[i as int],
                );
            }
            let prev = acc;
            acc = match acc.add(&self.areas[i].surface) {
                Some(v) => v,
                None => return None,
            };
            proof {
                lemma_rq_sum_wf(ss.subrange(0, i + 1));
                assert(rq_wf(rq_add(prev@, self.areas@[i as int].surface@))) by (nonlinear_arith)
                    requires
                        rq_wf(prev@),
                        rq_wf(self.areas@[i as int].surface@),
                ;
                lemma_rq_eq_trans(
                    acc@,
                    rq_add(prev@, self.areas@[i as int].surface@),
                    rq_sum(ss.subrange(0, i + 1)),
                );
            }
            i = i + 1;
        }
        proof {
            assert(ss.subrange(0, n as int) =~= ss);
        }
        Some(acc)
    }

    /// Recompute the row's thickness from its current surface total and
    /// re-lay its areas contiguously, each at its exact surface.
    pub fn reflow(&mut self) -> (ok: bool)
        requires
            row_wf(*old(self)),
        ensures
            ok ==> row_wf(*final(self)),
            ok ==> row_placed(*final(self)),
            ok ==> final(self).x == old(self).x && final(self).y == old(self).y,
            ok ==> final(self).vertical == old(self).vertical,
            ok && old(self).vertical ==> final(self).h == old(self).h,
            ok && !old(self).vertical ==> final(self).w == old(self).w,
            ok ==> area_keys(final(self).areas@) == area_keys(old(self).areas@),
            ok && old(self).vertical ==> rq_eq(
                final(self).w@,
                row_thickness(surfaces(old(self).areas@), old(self).h@),
            ),
            ok && !old(self).vertical ==> rq_eq(
                final(self).h@,
                row_thickness(surfaces(old(self).areas@), old(self).w@),
            ),
            ok == (reflow_result(
                surfaces(old(self).areas@),
                if old(self).vertical {
                    old(self).h@
                } else {
                    old(self).w@
                },
                if old(self).vertical {
                    old(self).y@
                } else {
                    old(self).x@
                },
            ) is Some),
            ok && old(self).vertical ==> reflow_result(
                surfaces(old(self).areas@),
                old(self).h@,
                old(self).y@,
            ) == Some(final(self).w@),
            ok && !old(self).vertical ==> reflow_result(
                surfaces(old(self).areas@),
                old(self).w@,
                old(self).x@,
            ) == Some(final(self).h@),
            ok ==> forall|i: int|
                0 <= i < final(self).areas@.len() ==> ((old(self).vertical ==> div_spec(
                    surfaces(old(self).areas@)[i],
                    final(self).w@,
                ) == Some((#[trigger] final(self).areas@[i]).h@)) && (!old(self).vertical
                    ==> div_spec(surfaces(old(self).areas@)[i], final(self).h@) == Some(
                    final(self).areas@[i].w@,
                ))),
    {
        let ghost oldv = old(self).areas@;
        let ghost ssv = surfaces(old(self).areas@);
        let total = match self.area() {
            Some(t) => t,
            None => return false,
        };
        let n = self.areas.len();
        if self.vertical {
            let new_w = match total.div(&self.h) {
                Some(v) => v,
                None => return false,
            };
            proof {
                if n > 0 {
                    assert(rq_all_wf(surfaces(oldv)) && forall|t: int|
                        0 <= t < oldv.len() ==> (#[trigger] surfaces(oldv)[t]).0 >= 1) by {
                        assert(forall|t: int|
                            0 <= t < oldv.len() ==> #[trigger] surfaces(oldv)[t] == oldv[t]
                                .surface@);
                    }
                    lemma_rq_sum_pos(surfaces(oldv));
                    lemma_rq_eq_sym(total@, rq_sum(surfaces(oldv)));
                    lemma_rq_eq_pos(rq_sum(surfaces(oldv)), total@);
                    assert(rq_wf(rq_div(total@, self.h@)) && rq_div(total@, self.h@).0 >= 1)
                        by (nonlinear_arith)
                        requires
                            total@.0 >= 1,
                            total@.1 >= 1,
                            self.h@.0 >= 1,
                            self.h@.1 >= 1,
                            rq_div(total@, self.h@) == (
                                total@.0 * self.h@.1,
                                total@.1 * self.h@.0,
                            ),
                    ;
                    lemma_rq_eq_sym(new_w@, rq_div(total@, self.h@));
                    lemma_rq_eq_pos(rq_div(total@, self.h@), new_w@);
                }
                assert(rq_all_wf(surfaces(oldv))) by {
                    assert(forall|t: int|
                        0 <= t < oldv.len() ==> #[trigger] surfaces(oldv)[t] == oldv[t].surface@);
                }
                lemma_rq_sum_wf(surfaces(oldv));
                let sum = rq_sum(surfaces(oldv));
                assert(rq_wf(rq_div(total@, self.h@)) && rq_wf(rq_div(sum, self.h@)))
                    by (nonlinear_arith)
                    requires
                        rq_wf(total@),
                        rq_wf(sum),
                        self.h@.0 >= 1,
                        self.h@.1 >= 1,
                        rq_div(total@, self.h@) == (total@.0 * self.h@.1, total@.1 * self.h@.0),
                        rq_div(sum, self.h@) == (sum.0 * self.h@.1, sum.1 * self.h@.0),
                ;
                lemma_rq_div_eq(total@, self.h@, sum, self.h@);
                lemma_rq_eq_trans(new_w@, rq_div(total@, self.h@), row_thickness(surfaces(oldv), self.h@));
            }
            self.w = new_w;
            let mut cur_y = self.y;
            let ghost x0 = self.x;
            let ghost y0 = self.y;
            let ghost h0 = self.h;
            let ghost w1 = self.w;
            let mut i: usize = 0;
            while i < n
                invariant
                    i <= n,
                    n == self.areas@.len(),
                    self.vertical,
                    self.x == x0,
                    self.y == y0,
                    self.h == h0,
                    self.w == w1,
                    x0.wf(),
                    y0.wf(),
                    w1.wf(),
                    h0.wf(),
                    h0@.0 >= 1,
                    n >= 1 ==> w1@.0 >= 1,
                    cur_y.wf(),
                    oldv.len() == n,
                    oldv == old(self).areas@,
                    old(self).vertical,
                    h0 == old(self).h,
                    y0 == old(self).y,
                    ssv == surfaces(oldv),
                    ssv.len() == n,
                    sum_result(ssv) == Some(total@),
                    div_spec(total@, h0@) == Some(w1@),
                    lay_fold(ssv, 0, w1@, y0@) == lay_fold(ssv, i as int, w1@, cur_y@),
                    forall|t: int|
                        0 <= t < i ==> div_spec(ssv[t], w1@) == Some(
                            (#[trigger] self.areas@[t]).h@,
                        ),
                    forall|t: int|
                        0 <= t < n ==> (#[trigger] self.areas@[t]).surface == oldv[t].surface
                            && self.areas@[t].item == oldv[t].item,
                    forall|t: int| 0 <= t < n ==> area_wf(#[trigger] self.areas@[t]),
                    forall|t: int|
                        0 <= t < i ==> (#[trigger] self.areas@[t]).x == x0 && self.areas@[t].w
                            == w1 && area_exact(self.areas@[t]),
                    i == 0 ==> cur_y == y0,
                    i >= 1 ==> rq_eq(
                        cur_y@,
                        rq_add(self.areas@[i - 1].y@, self.areas@[i - 1].h@),
                    ),
                    i >= 1 ==> self.areas@[0].y == y0,
                    forall|t: int|
                        1 <= t < i ==> rq_eq(
                            (#[trigger] self.areas@[t]).y@,
                            rq_add(self.areas@[t - 1].y@, self.areas@[t - 1].h@),
                        ),
                decreases n - i,
            {
                let a = self.areas[i];
                proof {
                    assert(ssv[i as int] == oldv[i as int].surface@);
                    assert(a.surface@ == ssv[i as int]);
                }
                let new_h = match a.surface.div(&self.w) {
                    Some(v) => v,
                    None => {
                        proof {
                            assert(!lay_fold(ssv, i as int, w1@, cur_y@));
                        }
                        return false;
                    },
                };
                proof {
                    lemma_rq_div_exact(a.surface@, self.w@, new_h@);
                }
                let na = Area {
                    x: self.x,
                    y: cur_y,
                    w: self.w,
                    h: new_h,
                    surface: a.surface,
                    item: a.item,
                };
                self.areas.set(i, na);
                let ghost prev_y = cur_y@;
                cur_y = match cur_y.add(&new_h) {
                    Some(v) => v,
                    None => {
                        proof {
                            assert(!lay_fold(ssv, i as int, w1@, prev_y));
                        }
                        return false;
                    },
                };
                proof {
                    assert(lay_fold(ssv, i as int, w1@, prev_y) == lay_fold(
                        ssv,
                        i + 1,
                        w1@,
                        cur_y@,
                    ));
                }
                i = i + 1;
            }
            proof {
                assert(area_keys(self.areas@) =~= area_keys(oldv));
                assert(lay_fold(ssv, n as int, w1@, cur_y@));
                assert(reflow_result(ssv, h0@, y0@) == Some(w1@));
            }
            true
        } else {
            let new_h = match total.div(&self.w) {
                Some(v) => v,
                None => return false,
            };
            proof {
                if n > 0 {
                    assert(rq_all_wf(surfaces(oldv)) && forall|t: int|
                        0 <= t < oldv.len() ==> (#[trigger] surfaces(oldv)[t]).0 >= 1) by {
                        assert(forall|t: int|
                            0 <= t < oldv.len() ==> #[trigger] surfaces(oldv)[t] == oldv[t]
                                .surface@);
                    }
                    lemma_rq_sum_pos(surfaces(oldv));
                    lemma_rq_eq_sym(total@, rq_sum(surfaces(oldv)));
                    lemma_rq_eq_pos(rq_sum(surfaces(oldv)), total@);
                    assert(rq_wf(rq_div(total@, self.w@)) && rq_div(total@, self.w@).0 >= 1)
                        by (nonlinear_arith)
                        requires
                            total@.0 >= 1,
                            total@.1 >= 1,
                            self.w@.0 >= 1,
                            self.w@.1 >= 1,
                            rq_div(total@, self.w@) == (
                                total@.0 * self.w@.1,
                                total@.1 * self.w@.0,
                            ),
                    ;
                    lemma_rq_eq_sym(new_h@, rq_div(total@, self.w@));
                    lemma_rq_eq_pos(rq_div(total@, self.w@), new_h@);
                }
                assert(rq_all_wf(surfaces(oldv))) by {
                    assert(forall|t: int|
                        0 <= t < oldv.len() ==> #[trigger] surfaces(oldv)[t] == oldv[t].surface@);
                }
                lemma_rq_sum_wf(surfaces(oldv));
                let sum = rq_sum(surfaces(oldv));
                assert(rq_wf(rq_div(total@, self.w@)) && rq_wf(rq_div(sum, self.w@)))
                    by (nonlinear_arith)
                    requires
                        rq_wf(total@),
                        rq_wf(sum),
                        self.w@.0 >= 1,
                        self.w@.1 >= 1,
                        rq_div(total@, self.w@) == (total@.0 * self.w@.1, total@.1 * self.w@.0),
                        rq_div(sum, self.w@) == (sum.0 * self.w@.1, sum.1 * self.w@.0),
                ;
                lemma_rq_div_eq(total@, self.w@, sum, self.w@);
                lemma_rq_eq_trans(new_h@, rq_div(total@, self.w@), row_thickness(surfaces(oldv), self.w@));
            }
            self.h = new_h;
            let mut cur_x = self.x;
            let ghost x0 = self.x;
            let ghost y0 = self.y;
            let ghost w0 = self.w;
            let ghost h1 = self.h;
            let mut i: usize = 0;
            while i < n
                invariant
                    i <= n,
                    n == self.areas@.len(),
                    !self.vertical,
                    self.x == x0,
                    self.y == y0,
                    self.w == w0,
                    self.h == h1,
                    x0.wf(),
                    y0.wf(),
                    w0.wf(),
                    h1.wf(),
                    w0@.0 >= 1,
                    n >= 1 ==> h1@.0 >= 1,
                    cur_x.wf(),
                    oldv.len() == n,
                    oldv == old(self).areas@,
                    !old(self).vertical,
                    w0 == old(self).w,
                    x0 == old(self).x,
                    ssv == surfaces(oldv),
                    ssv.len() == n,
                    sum_result(ssv) == Some(total@),
                    div_spec(total@, w0@) == Some(h1@),
                    lay_fold(ssv, 0, h1@, x0@) == lay_fold(ssv, i as int, h1@, cur_x@),
                    forall|t: int|
                        0 <= t < i ==> div_spec(ssv[t], h1@) == Some(
                            (#[trigger] self.areas@[t]).w@,
                        ),
                    forall|t: int|
                        0 <= t < n ==> (#[trigger] self.areas@[t]).surface == oldv[t].surface
                            && self.areas@[t].item == oldv[t].item,
                    forall|t: int| 0 <= t < n ==> area_wf(#[trigger] self.areas@[t]),
                    forall|t: int|
                        0 <= t < i ==> (#[trigger] self.areas@[t]).y == y0 && self.areas@[t].h
                            == h1 && area_exact(self.areas@[t]),
                    i == 0 ==> cur_x == x0,
                    i >= 1 ==> rq_eq(
                        cur_x@,
                        rq_add(self.areas@[i - 1].x@, self.areas@[i - 1].w@),
                    ),
                    i >= 1 ==> self.areas@[0].x == x0,
                    forall|t: int|
                        1 <= t < i ==> rq_eq(
                            (#[trigger] self.areas@[t]).x@,
                            rq_add(self.areas@[t - 1].x@, self.areas@[t - 1].w@),
                        ),
                decreases n - i,
            {
                let a = self.areas[i];
                proof {
                    assert(ssv[i as int] == oldv[i as int].surface@);
                    assert(a.surface@ == ssv[i as int]);
                }
                let new_w = match a.surface.div(&self.h) {
                    Some(v) => v,
                    None => {
                        proof {
                            assert(!lay_fold(ssv, i as int, h1@, cur_x@));
                        }
                        return false;
                    },
                };
                proof {
                    lemma_rq_div_exact(a.surface@, self.h@, new_w@);
                }
                proof {
                    assert(rq_mul(new_w@, self.h@) == rq_mul(self.h@, new_w@)) by (nonlinear_arith);
                }
                let na = Area {
                    x: cur_x,
                    y: self.y,
                    w: new_w,
                    h: self.h,
                    surface: a.surface,
                    item: a.item,
                };
                self.areas.set(i, na);
                let ghost prev_x = cur_x@;
                cur_x = match cur_x.add(&new_w) {
                    Some(v) => v,
                    None => {
                        proof {
                            assert(!lay_fold(ssv, i as int, h1@, prev_x));
                        }
                        return false;
                    },
                };
                proof {
                    assert(lay_fold(ssv, i as int, h1@, prev_x) == lay_fold(
                        ssv,
                        i + 1,
                        h1@,
                        cur_x@,
                    ));
                }
                i = i + 1;
            }
            proof {
                assert(area_keys(self.areas@) =~= area_keys(oldv));
                assert(lay_fold(ssv, n as int, h1@, cur_x@));
                assert(reflow_result(ssv, w0@, x0@) == Some(h1@));
            }
            true
        }
    }

    /// The squareness of the row's worst rectangle: the minimum of the
    /// areas' squareness scores, starting from one (an empty row scores a
    /// perfect one).
    pub fn calc_worst(&self) -> (r: Option<Frac>)
        requires
            forall|i: int| 0 <= i < self.areas@.len() ==> area_wf(#[trigger] self.areas@[i]),
            forall|i: int| 0 <= i < self.areas@.len() ==> area_exact(#[trigger] self.areas@[i]),
        ensures
            match r {
                Some(m) => m.wf() && (forall|i: int|
                    0 <= i < self.areas@.len() ==> rq_le(m@, (#[trigger] self.areas@[i])
                        .ratio_spec())) && (rq_eq(m@, (1int, 1int)) || exists|i: int|
                    0 <= i < self.areas@.len() && rq_eq(m@, (#[trigger] self.areas@[i])
                        .ratio_spec())) && worst_result(self.areas@) == Some(m@),
                None => worst_result(self.areas@) is None,
            },
    {
        let mut worst = Frac::from_u64(1);
        let mut i: usize = 0;
        let n = self.areas.len();
        while i < n
            invariant
                i <= n,
                n == self.areas@.len(),
                forall|t: int| 0 <= t < n ==> area_wf(#[trigger] self.areas@[t]),
                forall|t: int| 0 <= t < n ==> area_exact(#[trigger] self.areas@[t]),
                worst.wf(),
                forall|t: int|
                    0 <= t < i ==> rq_le(worst@, (#[trigger] self.areas@[t]).ratio_spec()),
                rq_eq(worst@, (1int, 1int)) || exists|t: int|
                    0 <= t < i && rq_eq(worst@, (#[trigger] self.areas@[t]).ratio_spec()),
                worst_result(self.areas@) == worst_fold(self.areas@, i as int, worst@),
            decreases n - i,
        {
            let r = match self.areas[i].get_ratio() {
                Some(v) => v,
                None => return None,
            };
            if !worst.le(&r) {
                proof {
                    lemma_ratio_wf(self.areas@[i as int]);
                    assert forall|t: int|
                        0 <= t < i implies rq_le(r@, (#[trigger] self.areas@[t]).ratio_spec()) by {
                        lemma_ratio_wf(self.areas@[t]);
                        proof_ratio_le(r, worst, self.areas@[t].ratio_spec());
                    }
                    lemma_rq_le_eq(r@, r@, r@, self.areas@[i as int].ratio_spec());
                    assert(0 <= i < n && rq_eq(r@, self.areas@[i as int].ratio_spec()));
                }
                worst = r;
            } else {
                proof {
                    lemma_ratio_wf(self.areas@[i as int]);
                    lemma_rq_le_eq(worst@, r@, worst@, self.areas@[i as int].ratio_spec());
                }
            }
            i = i + 1;
        }
        Some(worst)
    }
}

/// The squareness of a rectangle with the two given sides, as computed:
/// nothing exactly when the score's reduced form leaves the machine range.
pub open spec fn ratio_pair(w: (int, int), h: (int, int)) -> Option<(int, int)> {
    if rq_le(w, h) {
        div_spec(w, h)
    } else {
        div_spec(h, w)
    }
}

/// The squareness a member of surface `s` gets when re-laid at thickness
/// `th` in a row of the given orientation.
pub open spec fn relaid_ratio(s: (int, int), th: (int, int), vertical: bool) -> Option<(int, int)> {
    match div_spec(s, th) {
        None => None,
        Some(b) => if vertical {
            ratio_pair(th, b)
        } else {
            ratio_pair(b, th)
        },
    }
}

/// Folding the worst squareness of a re-laid row from `acc`, position `i`
/// on.
pub open spec fn relaid_worst_fold(
    ss: Seq<(int, int)>,
    i: int,
    th: (int, int),
    vertical: bool,
    acc: (int, int),
) -> Option<(int, int)>
    decreases ss.len() - i,
{
    if i >= ss.len() || i < 0 {
        Some(acc)
    } else {
        match relaid_ratio(ss[i], th, vertical) {
            None => None,
            Some(r) => relaid_worst_fold(
                ss,
                i + 1,
                th,
                vertical,
                if rq_le(acc, r) {
                    acc
                } else {
                    r
                },
            ),
        }
    }
}

/// What scoring a re-laid row of the given surfaces and thickness
/// produces.
pub open spec fn relaid_worst(ss: Seq<(int, int)>, th: (int, int), vertical: bool) -> Option<
    (int, int),
> {
    relaid_worst_fold(ss, 0, th, vertical, (1int, 1int))
}

/// Scoring a row whose geometry is the re-laid form of the given surfaces
/// at the given thickness gives the re-laid score.
proof fn lemma_worst_relaid(
    f: Seq<Area>,
    ss: Seq<(int, int)>,
    th: (int, int),
    vertical: bool,
    i: int,
    acc: (int, int),
)
    requires
        ss.len() == f.len(),
        0 <= i <= f.len(),
        forall|t: int|
            0 <= t < f.len() ==> ((vertical ==> (#[trigger] f[t]).w@ == th && div_spec(ss[t], th)
                == Some(f[t].h@)) && (!vertical ==> f[t].h@ == th && div_spec(ss[t], th) == Some(
                f[t].w@,
            ))),
    ensures
        worst_fold(f, i, acc) == relaid_worst_fold(ss, i, th, vertical, acc),
    decreases f.len() - i,
{
    if 0 <= i < f.len() {
        assert(ratio_result(f[i]) == relaid_ratio(ss[i], th, vertical));
        match relaid_ratio(ss[i], th, vertical) {
            None => {},
            Some(r) => {
                lemma_worst_relaid(
                    f,
                    ss,
                    th,
                    vertical,
                    i + 1,
                    if rq_le(acc, r) {
                        acc
                    } else {
                        r
                    },
                );
            },
        }
    }
}

/// The squarified accept rule: the tentative row's worst squareness is no
/// worse than the row's worst before.
pub open spec fn accepts(row: Row, area: Area) -> bool {
    let ss_old = surfaces(row.areas@);
    let ss_new = ss_old.push(area.surface@);
    let ext = if row.vertical {
        row.h@
    } else {
        row.w@
    };
    let t_old = if row.vertical {
        row.w@
    } else {
        row.h@
    };
    rq_le(worst_from(ss_old, t_old), worst_from(ss_new, row_thickness(ss_new, ext)))
}

/// Whether tentatively pushing `area` onto `row` completes: scoring the
/// row, re-laying it with the area, re-scoring it, and, on rejection,
/// restoring it must all stay within the machine range.
#[verifier::opaque]
pub open spec fn try_push_ok(row: Row, area: Area) -> bool {
    let ext = if row.vertical {
        row.h@
    } else {
        row.w@
    };
    let origin = if row.vertical {
        row.y@
    } else {
        row.x@
    };
    let ss_old = surfaces(row.areas@);
    let ss_mid = ss_old.push(area.surface@);
    &&& worst_result(row.areas@) is Some
    &&& match reflow_result(ss_mid, ext, origin) {
        None => false,
        Some(th) => {
            &&& relaid_worst(ss_mid, th, row.vertical) is Some
            &&& (accepts(row, area) || reflow_result(ss_old, ext, origin) is Some)
        },
    }
}

impl Row {
    /// Tentatively add an area to the row: append it, re-lay the row, and
    /// compare the worst squareness with the one before. If the row got no
    /// worse the area stays (`Ok(None)`); otherwise the row is restored and
    /// the area handed back (`Ok(Some(..))`) to seed the next row. The
    /// decision is exactly the squarified rule: the area stays if and only
    /// if the worst score of the re-laid row is at least the worst score
    /// the row had before.
    pub fn try_push(&mut self, area: Area) -> (r: Result<Option<Area>, LayoutError>)
        requires
            row_wf(*old(self)),
            row_placed(*old(self)),
            area_wf(area),
        ensures
            match r {
                Ok(kept) => ({
                    &&& row_wf(*final(self))
                    &&& row_placed(*final(self))
                    &&& final(self).x == old(self).x
                    &&& final(self).y == old(self).y
                    &&& final(self).vertical == old(self).vertical
                    &&& (old(self).vertical ==> final(self).h == old(self).h)
                    &&& (!old(self).vertical ==> final(self).w == old(self).w)
                    &&& ({
                        let ss_old = surfaces(old(self).areas@);
                        let ss_new = ss_old.push(area.surface@);
                        let ext = if old(self).vertical {
                            old(self).h@
                        } else {
                            old(self).w@
                        };
                        let t_old = if old(self).vertical {
                            old(self).w@
                        } else {
                            old(self).h@
                        };
                        let accept = rq_le(
                            worst_from(ss_old, t_old),
                            worst_from(ss_new, row_thickness(ss_new, ext)),
                        );
                        match kept {
                            None => accept,
                            Some(_) => !accept,
                        }
                    })
                    &&& accepts(*old(self), area) == rq_le(
                        worst_from(
                            surfaces(old(self).areas@),
                            if old(self).vertical {
                                old(self).w@
                            } else {
                                old(self).h@
                            },
                        ),
                        worst_from(
                            surfaces(old(self).areas@).push(area.surface@),
                            row_thickness(
                                surfaces(old(self).areas@).push(area.surface@),
                                if old(self).vertical {
                                    old(self).h@
                                } else {
                                    old(self).w@
                                },
                            ),
                        ),
                    )
                    &&& (old(self).vertical ==> rq_eq(
                        final(self).w@,
                        row_thickness(surfaces(final(self).areas@), final(self).h@),
                    ))
                    &&& (!old(self).vertical ==> rq_eq(
                        final(self).h@,
                        row_thickness(surfaces(final(self).areas@), final(self).w@),
                    ))
                    &&& match kept {
                        None => area_keys(final(self).areas@) == area_keys(
                            old(self).areas@,
                        ).push(area_key(area)),
                        Some(ret) => area_key(ret) == area_key(area) && area_wf(ret)
                            && area_keys(final(self).areas@) == area_keys(old(self).areas@),
                    }
                }),
                Err(e) => e == LayoutError::Numeric,
            },
            (r is Ok) == try_push_ok(*old(self), area),
    {
        let ghost k0 = area_keys(old(self).areas@);
        let ghost ss_old = surfaces(old(self).areas@);
        let ghost t_old = if old(self).vertical {
            old(self).w@
        } else {
            old(self).h@
        };
        let ghost ext = if old(self).vertical {
            old(self).h@
        } else {
            old(self).w@
        };
        let ghost ss_new = ss_old.push(area.surface@);
        let ghost t_new = row_thickness(ss_new, ext);
        let ghost w_old_model = worst_from(ss_old, t_old);
        let ghost w_new_model = worst_from(ss_new, t_new);
        let cur_worst = match self.calc_worst() {
            Some(v) => v,
            None => {
                proof {
                    reveal(try_push_ok);
                    assert(!try_push_ok(*old(self), area));
                }
                return Err(LayoutError::Numeric);
            },
        };
        proof {
            lemma_row_worst(*self, cur_worst);
            if old(self).areas@.len() > 0 {
                lemma_area_dims_pos(old(self).areas@[0]);
                assert(rq_all_wf(ss_old) && forall|i: int|
                    0 <= i < ss_old.len() ==> (#[trigger] ss_old[i]).0 >= 1) by {
                    assert(forall|i: int|
                        0 <= i < ss_old.len() ==> #[trigger] ss_old[i] == old(self).areas@[i]
                            .surface@);
                }
                lemma_worst_char(ss_old, t_old);
            }
        }
        self.areas.push(area);
        let ghost mid = self.areas@;
        proof {
            assert(area_keys(self.areas@) =~= k0.push(area_key(area)));
            assert(forall|t: int| 0 <= t < self.areas@.len() ==> area_wf(#[trigger] self.areas@[t]));
            assert forall|i: int| 0 <= i < mid.len() implies surfaces(mid)[i] == ss_new[i] by {
                assert(surfaces(mid)[i] == mid[i].surface@);
                if i < old(self).areas@.len() {
                    assert(mid[i] == old(self).areas@[i]);
                    assert(ss_old[i] == old(self).areas@[i].surface@);
                }
            }
            assert(surfaces(mid) =~= ss_new);
        }
        if !self.reflow() {
            proof {
                assert(reflow_result(ss_new, ext, if old(self).vertical {
                    old(self).y@
                } else {
                    old(self).x@
                }) is None);
                reveal(try_push_ok);
                    assert(!try_push_ok(*old(self), area));
            }
            return Err(LayoutError::Numeric);
        }
        let ghost th_rep = if old(self).vertical {
            self.w@
        } else {
            self.h@
        };
        proof {
            assert forall|i: int|
                0 <= i < self.areas@.len() implies surfaces(self.areas@)[i] == ss_new[i] by {
                assert(surfaces(self.areas@)[i] == self.areas@[i].surface@);
                assert(area_keys(self.areas@)[i] == area_key(self.areas@[i]));
                assert(area_keys(mid)[i] == area_key(mid[i]));
                assert(surfaces(mid)[i] == mid[i].surface@);
            }
            assert(surfaces(self.areas@) =~= ss_new);
            assert(reflow_result(ss_new, ext, if old(self).vertical {
                old(self).y@
            } else {
                old(self).x@
            }) == Some(th_rep));
            assert forall|t: int|
                0 <= t < self.areas@.len() implies ((old(self).vertical ==> (
                #[trigger] self.areas@[t]).w@ == th_rep && div_spec(ss_new[t], th_rep) == Some(
                    self.areas@[t].h@,
                )) && (!old(self).vertical ==> self.areas@[t].h@ == th_rep && div_spec(
                    ss_new[t],
                    th_rep,
                ) == Some(self.areas@[t].w@))) by {
                assert(surfaces(mid)[t] == ss_new[t]);
                if old(self).vertical {
                    assert(self.areas@[t].w == self.w);
                } else {
                    assert(self.areas@[t].h == self.h);
                }
            }
            lemma_worst_relaid(self.areas@, ss_new, th_rep, old(self).vertical, 0, (1int, 1int));
        }
        let new_worst = match self.calc_worst() {
            Some(v) => v,
            None => {
                proof {
                    assert(relaid_worst(ss_new, th_rep, old(self).vertical) is None);
                    reveal(try_push_ok);
                    assert(!try_push_ok(*old(self), area));
                }
                return Err(LayoutError::Numeric);
            },
        };
        proof {
            assert(relaid_worst(ss_new, th_rep, old(self).vertical) == Some(new_worst@));
            lemma_row_worst(*self, new_worst);
            let t_after = if old(self).vertical {
                self.w@
            } else {
                self.h@
            };
            assert(rq_eq(t_after, t_new));
            assert(self.areas@.len() >= 1);
            lemma_area_dims_pos(self.areas@[0]);
            assert(t_after.0 >= 1);
            assert(rq_all_wf(ss_new) && forall|i: int|
                0 <= i < ss_new.len() ==> (#[trigger] ss_new[i]).0 >= 1) by {
                assert(forall|i: int|
                    0 <= i < self.areas@.len() ==> #[trigger] ss_new[i] == self.areas@[i]
                        .surface@);
            }
            lemma_rq_sum_pos(ss_new);
            assert(rq_wf(t_new) && t_new.0 >= 1) by (nonlinear_arith)
                requires
                    rq_wf(rq_sum(ss_new)),
                    rq_sum(ss_new).0 >= 1,
                    ext.0 >= 1,
                    ext.1 >= 1,
                    t_new == (rq_sum(ss_new).0 * ext.1, rq_sum(ss_new).1 * ext.0),
            ;
            lemma_worst_congr(ss_new, t_after, t_new);
            lemma_worst_char(ss_new, t_after);
            lemma_worst_char(ss_new, t_new);
            lemma_rq_eq_trans(new_worst@, worst_from(ss_new, t_after), w_new_model);
        }
        if cur_worst.le(&new_worst) {
            proof {
                lemma_rq_le_eq(cur_worst@, new_worst@, w_old_model, w_new_model);
                assert(accepts(*old(self), area));
                reveal(try_push_ok);
                assert(try_push_ok(*old(self), area));
            }
            Ok(None)
        } else {
            proof {
                if rq_le(w_old_model, w_new_model) {
                    lemma_rq_eq_sym(cur_worst@, w_old_model);
                    lemma_rq_eq_sym(new_worst@, w_new_model);
                    lemma_rq_le_eq(w_old_model, w_new_model, cur_worst@, new_worst@);
                    assert(false);
                }
                assert(!accepts(*old(self), area));
            }
            let ghost kmid = area_keys(self.areas@);
            let ghost prepop = self.areas@;
            let popped = match self.areas.pop() {
                Some(a) => a,
                None => {
                    proof {
                        assert(kmid.len() == k0.len() + 1);
                        assert(false);
                    }
                    return Err(LayoutError::Numeric);
                },
            };
            proof {
                assert(kmid.len() == k0.len() + 1);
                assert(kmid[k0.len() as int] == area_key(popped));
                assert(kmid == k0.push(area_key(area)));
                assert(area_key(popped) == area_key(area));
                assert(self.areas@ =~= prepop.drop_last());
                assert forall|t: int| 0 <= t < self.areas@.len() implies area_keys(self.areas@)[t]
                    == k0[t] by {
                    assert(area_keys(self.areas@)[t] == area_key(self.areas@[t]));
                    assert(self.areas@[t] == prepop[t]);
                    assert(kmid[t] == area_key(prepop[t]));
                    assert(k0[t] == kmid[t]);
                }
                assert(area_keys(self.areas@) =~= k0);
                assert(forall|t: int|
                    0 <= t < self.areas@.len() ==> area_wf(#[trigger] self.areas@[t]));
                assert forall|t: int|
                    0 <= t < self.areas@.len() implies surfaces(self.areas@)[t] == ss_old[t] by {
                    assert(surfaces(self.areas@)[t] == self.areas@[t].surface@);
                    assert(area_keys(self.areas@)[t] == area_key(self.areas@[t]));
                    assert(k0[t] == area_key(old(self).areas@[t]));
                    assert(ss_old[t] == old(self).areas@[t].surface@);
                }
                assert(surfaces(self.areas@) =~= ss_old);
            }
            if !self.reflow() {
                proof {
                    assert(reflow_result(ss_old, ext, if old(self).vertical {
                        old(self).y@
                    } else {
                        old(self).x@
                    }) is None);
                    reveal(try_push_ok);
                    assert(!try_push_ok(*old(self), area));
                }
                return Err(LayoutError::Numeric);
            }
            proof {
                assert(reflow_result(ss_old, ext, if old(self).vertical {
                    old(self).y@
                } else {
                    old(self).x@
                }) is Some);
                reveal(try_push_ok);
                assert(try_push_ok(*old(self), area));
                assert forall|t: int|
                    0 <= t < self.areas@.len() implies surfaces(self.areas@)[t] == ss_old[t] by {
                    assert(surfaces(self.areas@)[t] == self.areas@[t].surface@);
                    assert(area_keys(self.areas@)[t] == area_key(self.areas@[t]));
                    assert(k0[t] == area_key(old(self).areas@[t]));
                    assert(ss_old[t] == old(self).areas@[t].surface@);
                }
                assert(surfaces(self.areas@) =~= ss_old);
            }
            Ok(Some(popped))
        }
    }
}

/// The areas of a sequence of rows, flattened in order.
pub open spec fn rows_areas(rs: Seq<Row>) -> Seq<Area>
    decreases rs.len(),
{
    if rs.len() == 0 {
        Seq::empty()
    } else {
        rows_areas(rs.drop_last()) + rs.last().areas@
    }
}

/// Every row is well formed and exactly laid out.
pub open spec fn rows_sound(rs: Seq<Row>) -> bool {
    forall|i: int| 0 <= i < rs.len() ==> row_wf(#[trigger] rs[i]) && row_placed(rs[i])
}

pub open spec fn all_areas_wf(f: Seq<Area>) -> bool {
    forall|i: int| 0 <= i < f.len() ==> area_wf(#[trigger] f[i])
}

proof fn lemma_rows_areas_push(rs: Seq<Row>, r: Row)
    ensures
        rows_areas(rs.push(r)) == rows_areas(rs) + r.areas@,
{
    assert(rs.push(r).drop_last() =~= rs);
    assert(rs.push(r).last() == r);
}

/// Flattened areas of sound rows are well formed and exactly sized.
pub proof fn lemma_rows_areas_sound(rs: Seq<Row>)
    requires
        rows_sound(rs),
    ensures
        forall|i: int|
            0 <= i < rows_areas(rs).len() ==> area_wf(#[trigger] rows_areas(rs)[i]) && area_exact(
                rows_areas(rs)[i],
            ),
    decreases rs.len(),
{
    if rs.len() > 0 {
        assert(rows_sound(rs.drop_last()));
        lemma_rows_areas_sound(rs.drop_last());
        let head = rows_areas(rs.drop_last());
        let tail = rs.last().areas@;
        assert(row_wf(rs.last()) && row_placed(rs.last()));
        assert forall|i: int|
            0 <= i < rows_areas(rs).len() implies area_wf(#[trigger] rows_areas(rs)[i])
            && area_exact(rows_areas(rs)[i]) by {
            if i < head.len() {
                assert(rows_areas(rs)[i] == head[i]);
            } else {
                assert(rows_areas(rs)[i] == tail[i - head.len()]);
            }
        }
    }
}

/// Consecutive rows alternate orientation and abut: each row begins where
/// the previous row's strip ends, so the rows partition the canvas into
/// disjoint axis-aligned strips.
pub open spec fn rows_chained(rs: Seq<Row>) -> bool {
    forall|k: int|
        0 <= k < rs.len() - 1 ==> {
            &&& rs[k + 1].vertical == !(#[trigger] rs[k]).vertical
            &&& (rs[k].vertical ==> rq_eq(rs[k + 1].x@, rq_add(rs[k].x@, rs[k].w@)) && rs[k
                + 1].y == rs[k].y)
            &&& (!rs[k].vertical ==> rq_eq(rs[k + 1].y@, rq_add(rs[k].y@, rs[k].h@)) && rs[k
                + 1].x == rs[k].x)
        }
}

/// Every vertical row spans the remaining canvas height below its origin,
/// every horizontal row the remaining canvas width beside its origin.
pub open spec fn rows_span(rs: Seq<Row>, canvas_w: u64, canvas_h: u64) -> bool {
    forall|k: int|
        0 <= k < rs.len() ==> {
            &&& ((#[trigger] rs[k]).vertical ==> rq_eq(
                rs[k].h@,
                rq_sub((canvas_h as int, 1int), rs[k].y@),
            ))
            &&& (!rs[k].vertical ==> rq_eq(rs[k].w@, rq_sub((canvas_w as int, 1int), rs[k].x@)))
        }
}

/// Every row is full: it holds at least one area and its thickness is
/// exactly its surface total over its primary extent, so the row's areas
/// tile its whole strip.
pub open spec fn rows_filled(rs: Seq<Row>) -> bool {
    forall|k: int|
        0 <= k < rs.len() ==> {
            &&& (#[trigger] rs[k]).areas@.len() >= 1
            &&& (rs[k].vertical ==> rq_eq(
                rs[k].w@,
                row_thickness(surfaces(rs[k].areas@), rs[k].h@),
            ))
            &&& (!rs[k].vertical ==> rq_eq(
                rs[k].h@,
                row_thickness(surfaces(rs[k].areas@), rs[k].w@),
            ))
        }
}

/// Lay a list of areas into rows: the first seeds a vertical row at the
/// origin; each next area stays in the current row while that row's worst
/// squareness does not degrade, and otherwise seeds a new row of the other
/// orientation past the closed row. Every area ends up placed exactly
/// once, in input order.
#[verifier::rlimit(100)]
pub fn areas_to_rows(areas: Vec<Area>, canvas_w: u64, canvas_h: u64) -> (r: Result<
    Vec<Row>,
    LayoutError,
>)
    requires
        canvas_w >= 1,
        canvas_h >= 1,
        all_areas_wf(areas@),
    ensures
        match r {
            Ok(rows) => {
                &&& rows_sound(rows@)
                &&& area_keys(rows_areas(rows@)) == area_keys(areas@)
                &&& (areas@.len() == 0 ==> rows@.len() == 0)
                &&& rows_chained(rows@)
                &&& rows_span(rows@, canvas_w, canvas_h)
                &&& rows_filled(rows@)
                &&& (rows@.len() > 0 ==> rows@[0].x@ == (0int, 1int) && rows@[0].y@ == (
                0int,
                1int,
                ) && rows@[0].vertical)
            },
            Err(e) => e == LayoutError::Numeric,
        },
        areas@.len() == 0 ==> r is Ok,
        areas@.len() == 1 ==> ((r is Ok) == (row_new_result(
            areas@[0].surface@,
            (0int, 1int),
            (0int, 1int),
            true,
            canvas_w,
            canvas_h,
        ) is Some)),
{
    let ghost input = areas@;
    let mut rest = areas;
    let mut rows: Vec<Row> = Vec::new();
    if rest.len() == 0 {
        proof {
            assert(area_keys(rows_areas(rows@)) =~= area_keys(input));
        }
        return Ok(rows);
    }
    let first = rest.remove(0);
    proof {
        assert(rest@ =~= input.drop_first());
    }
    let mut cur = match Row::new(Frac::zero(), Frac::zero(), true, first, canvas_w, canvas_h) {
        Ok(v) => v,
        Err(e) => return Err(e),
    };
    let mut next_x = Frac::zero();
    let mut next_y = Frac::zero();
    proof {
        assert(area_keys(rows_areas(rows@)) + area_keys(cur.areas@) + area_keys(rest@) =~= area_keys(
            input,
        ));
    }
    while rest.len() > 0
        invariant
            canvas_w >= 1,
            canvas_h >= 1,
            all_areas_wf(rest@),
            row_wf(cur),
            row_placed(cur),
            next_x.wf(),
            next_y.wf(),
            next_x == cur.x,
            next_y == cur.y,
            input == areas@,
            rest@.len() > 0 ==> input.len() >= 2,
            rows_sound(rows@),
            rows_chained(rows@.push(cur)),
            rows_span(rows@.push(cur), canvas_w, canvas_h),
            rows_filled(rows@.push(cur)),
            rows@.push(cur)[0].x@ == (0int, 1int),
            rows@.push(cur)[0].y@ == (0int, 1int),
            rows@.push(cur)[0].vertical,
            area_keys(rows_areas(rows@)) + area_keys(cur.areas@) + area_keys(rest@) == area_keys(
                input,
            ),
        decreases rest@.len(),
    {
        let ghost restv = rest@;
        let ghost cur0 = cur;
        let ghost rows0 = rows@;
        let a = rest.remove(0);
        proof {
            assert(restv == seq![restv[0]] + rest@);
            assert(area_keys(restv) =~= seq![area_key(a)] + area_keys(rest@));
        }
        match cur.try_push(a) {
            Err(e) => return Err(e),
            Ok(None) => {
                proof {
                    assert(area_keys(rows_areas(rows@)) + area_keys(cur.areas@) + area_keys(rest@)
                        =~= area_keys(input));
                    assert forall|k: int|
                        0 <= k < rows@.push(cur).len() - 1 implies {
                        &&& rows@.push(cur)[k + 1].vertical == !(#[trigger] rows@.push(
                            cur,
                        )[k]).vertical
                        &&& (rows@.push(cur)[k].vertical ==> rq_eq(
                            rows@.push(cur)[k + 1].x@,
                            rq_add(rows@.push(cur)[k].x@, rows@.push(cur)[k].w@),
                        ) && rows@.push(cur)[k + 1].y == rows@.push(cur)[k].y)
                        &&& (!rows@.push(cur)[k].vertical ==> rq_eq(
                            rows@.push(cur)[k + 1].y@,
                            rq_add(rows@.push(cur)[k].y@, rows@.push(cur)[k].h@),
                        ) && rows@.push(cur)[k + 1].x == rows@.push(cur)[k].x)
                    } by {
                        let rs = rows@.push(cur);
                        let rs0 = rows0.push(cur0);
                        assert(rs0[k] == rs[k] || (k == rows@.len() && rs0[k] == cur0 && rs[k]
                            == cur));
                        assert(rs0[k + 1] == rs[k + 1] || (k + 1 == rows@.len() && rs0[k + 1]
                            == cur0 && rs[k + 1] == cur));
                    }
                    assert(rows_chained(rows@.push(cur)));
                    assert forall|k: int| 0 <= k < rows@.push(cur).len() implies {
                        &&& ((#[trigger] rows@.push(cur)[k]).vertical ==> rq_eq(
                            rows@.push(cur)[k].h@,
                            rq_sub((canvas_h as int, 1int), rows@.push(cur)[k].y@),
                        ))
                        &&& (!rows@.push(cur)[k].vertical ==> rq_eq(
                            rows@.push(cur)[k].w@,
                            rq_sub((canvas_w as int, 1int), rows@.push(cur)[k].x@),
                        ))
                    } by {
                        assert(rows0.push(cur0)[k] == rows@.push(cur)[k] || (k == rows@.len()
                            && rows0.push(cur0)[k] == cur0 && rows@.push(cur)[k] == cur));
                    }
                    assert(rows_span(rows@.push(cur), canvas_w, canvas_h));
                    assert forall|k: int| 0 <= k < rows@.push(cur).len() implies {
                        &&& (#[trigger] rows@.push(cur)[k]).areas@.len() >= 1
                        &&& (rows@.push(cur)[k].vertical ==> rq_eq(
                            rows@.push(cur)[k].w@,
                            row_thickness(
                                surfaces(rows@.push(cur)[k].areas@),
                                rows@.push(cur)[k].h@,
                            ),
                        ))
                        &&& (!rows@.push(cur)[k].vertical ==> rq_eq(
                            rows@.push(cur)[k].h@,
                            row_thickness(
                                surfaces(rows@.push(cur)[k].areas@),
                                rows@.push(cur)[k].w@,
                            ),
                        ))
                    } by {
                        assert(rows0.push(cur0)[k] == rows@.push(cur)[k] || (k == rows@.len()
                            && rows0.push(cur0)[k] == cur0 && rows@.push(cur)[k] == cur));
                        if k == rows@.len() {
                            assert(area_keys(cur.areas@).len() == cur.areas@.len());
                            assert(area_keys(cur0.areas@).len() == cur0.areas@.len());
                        }
                    }
                    assert(rows_filled(rows@.push(cur)));
                    assert(rows@.push(cur)[0].x@ == (0int, 1int) && rows@.push(cur)[0].y@ == (
                    0int,
                    1int,
                    ) && rows@.push(cur)[0].vertical) by {
                        if rows@.len() == 0 {
                            assert(rows0.push(cur0)[0] == cur0);
                            assert(rows@.push(cur)[0] == cur);
                        } else {
                            assert(rows@.push(cur)[0] == rows@[0]);
                            assert(rows0.push(cur0)[0] == rows@[0]);
                        }
                    }
                }
            },
            Ok(Some(rej)) => {
                let vertical = cur.vertical;
                if vertical {
                    next_x = match next_x.add(&cur.w) {
                        Some(v) => v,
                        None => return Err(LayoutError::Numeric),
                    };
                } else {
                    next_y = match next_y.add(&cur.h) {
                        Some(v) => v,
                        None => return Err(LayoutError::Numeric),
                    };
                }
                let nrow = match Row::new(next_x, next_y, !vertical, rej, canvas_w, canvas_h) {
                    Ok(v) => v,
                    Err(e) => return Err(e),
                };
                let ghost rowsv = rows@;
                let ghost curv = cur;
                rows.push(cur);
                cur = nrow;
                proof {
                    lemma_rows_areas_push(rowsv, curv);
                    assert(area_keys(rows_areas(rows@)) =~= area_keys(rows_areas(rowsv))
                        + area_keys(curv.areas@));
                    assert(area_keys(rows_areas(rows@)) + area_keys(cur.areas@) + area_keys(rest@)
                        =~= area_keys(input));
                    assert forall|k: int|
                        0 <= k < rows@.push(cur).len() - 1 implies {
                        &&& rows@.push(cur)[k + 1].vertical == !(#[trigger] rows@.push(
                            cur,
                        )[k]).vertical
                        &&& (rows@.push(cur)[k].vertical ==> rq_eq(
                            rows@.push(cur)[k + 1].x@,
                            rq_add(rows@.push(cur)[k].x@, rows@.push(cur)[k].w@),
                        ) && rows@.push(cur)[k + 1].y == rows@.push(cur)[k].y)
                        &&& (!rows@.push(cur)[k].vertical ==> rq_eq(
                            rows@.push(cur)[k + 1].y@,
                            rq_add(rows@.push(cur)[k].y@, rows@.push(cur)[k].h@),
                        ) && rows@.push(cur)[k + 1].x == rows@.push(cur)[k].x)
                    } by {
                        let rs = rows@.push(cur);
                        let rs0 = rows0.push(cur0);
                        if k < rows0.len() as int - 1 {
                            assert(rs[k] == rs0[k]);
                            assert(rs[k + 1] == rs0[k + 1]);
                        } else if k == rows0.len() as int - 1 {
                            // the pair of the last closed row and the row
                            // just closed: its fields carried through the
                            // tentative push unchanged
                            assert(rs[k] == rs0[k]);
                            assert(rs[k + 1] == curv);
                            assert(rs0[k + 1] == cur0);
                        } else {
                            // the pair of the just closed row and the new
                            // row: the new origin lies one strip further
                            assert(rs[k] == curv);
                            assert(rs[k + 1] == cur);
                        }
                    }
                    assert(rows_chained(rows@.push(cur)));
                    assert forall|k: int| 0 <= k < rows@.push(cur).len() implies {
                        &&& ((#[trigger] rows@.push(cur)[k]).vertical ==> rq_eq(
                            rows@.push(cur)[k].h@,
                            rq_sub((canvas_h as int, 1int), rows@.push(cur)[k].y@),
                        ))
                        &&& (!rows@.push(cur)[k].vertical ==> rq_eq(
                            rows@.push(cur)[k].w@,
                            rq_sub((canvas_w as int, 1int), rows@.push(cur)[k].x@),
                        ))
                    } by {
                        if k < rows0.len() as int {
                            assert(rows@.push(cur)[k] == rows0[k]);
                            assert(rows0.push(cur0)[k] == rows0[k]);
                        } else if k == rows0.len() as int {
                            assert(rows@.push(cur)[k] == curv);
                            assert(rows0.push(cur0)[k] == cur0);
                        } else {
                            assert(rows@.push(cur)[k] == cur);
                        }
                    }
                    assert(rows_span(rows@.push(cur), canvas_w, canvas_h));
                    assert forall|k: int| 0 <= k < rows@.push(cur).len() implies {
                        &&& (#[trigger] rows@.push(cur)[k]).areas@.len() >= 1
                        &&& (rows@.push(cur)[k].vertical ==> rq_eq(
                            rows@.push(cur)[k].w@,
                            row_thickness(
                                surfaces(rows@.push(cur)[k].areas@),
                                rows@.push(cur)[k].h@,
                            ),
                        ))
                        &&& (!rows@.push(cur)[k].vertical ==> rq_eq(
                            rows@.push(cur)[k].h@,
                            row_thickness(
                                surfaces(rows@.push(cur)[k].areas@),
                                rows@.push(cur)[k].w@,
                            ),
                        ))
                    } by {
                        if k < rows0.len() as int {
                            assert(rows@.push(cur)[k] == rows0[k]);
                            assert(rows0.push(cur0)[k] == rows0[k]);
                        } else if k == rows0.len() as int {
                            assert(rows@.push(cur)[k] == curv);
                            assert(rows0.push(cur0)[k] == cur0);
                            assert(area_keys(curv.areas@).len() == curv.areas@.len());
                            assert(area_keys(cur0.areas@).len() == cur0.areas@.len());
                        } else {
                            assert(rows@.push(cur)[k] == cur);
                        }
                    }
                    assert(rows_filled(rows@.push(cur)));
                    assert(rows@.push(cur)[0].x@ == (0int, 1int) && rows@.push(cur)[0].y@ == (
                    0int,
                    1int,
                    ) && rows@.push(cur)[0].vertical) by {
                        if rows0.len() == 0 {
                            assert(rows0.push(cur0)[0] == cur0);
                            assert(rows@.push(cur)[0] == curv);
                        } else {
                            assert(rows@.push(cur)[0] == rows0[0]);
                            assert(rows0.push(cur0)[0] == rows0[0]);
                        }
                    }
                }
            },
        }
    }
    let ghost rowsv = rows@;
    let ghost curv = cur;
    rows.push(cur);
    proof {
        lemma_rows_areas_push(rowsv, curv);
        assert(area_keys(rows_areas(rows@)) =~= area_keys(rows_areas(rowsv)) + area_keys(
            curv.areas@,
        ));
        assert(area_keys(rows_areas(rows@)) =~= area_keys(input));
    }
    Ok(rows)
}

/// Sum of a sequence of weights, as an unbounded integer.
pub open spec fn weight_sum(ws: Seq<u64>) -> int
    decreases ws.len(),
{
    if ws.len() == 0 {
        0
    } else {
        weight_sum(ws.drop_last()) + ws.last()
    }
}

pub open spec fn has_zero(ws: Seq<u64>) -> bool {
    exists|i: int| 0 <= i < ws.len() && ws[i] == 0
}

/// The exact surfaces of the placed rectangles.
pub open spec fn placed_pairs(f: Seq<Area>) -> Seq<(int, int)> {
    f.map_values(|a: Area| rq_mul(a.w@, a.h@))
}

proof fn lemma_target_num_sum(ws: Seq<u64>, a: int, d: int)
    ensures
        rq_num_sum(ws.map_values(|w: u64| (w as int * a, d))) == weight_sum(ws) * a,
    decreases ws.len(),
{
    let tgt = ws.map_values(|w: u64| (w as int * a, d));
    if ws.len() == 0 {
        assert(weight_sum(ws) * a == 0) by (nonlinear_arith)
            requires
                weight_sum(ws) == 0,
        ;
    } else {
        assert(tgt.drop_last() =~= ws.drop_last().map_values(|w: u64| (w as int * a, d)));
        lemma_target_num_sum(ws.drop_last(), a, d);
        assert(tgt.last() == (ws.last() as int * a, d));
        assert((weight_sum(ws.drop_last()) + ws.last()) * a == weight_sum(ws.drop_last()) * a
            + ws.last() as int * a) by (nonlinear_arith);
    }
}

/// Pack weighted items into rows over the canvas.
///
/// Item `i` of weight `w_i` receives, after normalisation, the exact target
/// surface `w_i * canvas_area / total_weight`; the flattened rows place the
/// items in input order, each as a rectangle of exactly its target surface,
/// and the placed surfaces together make up exactly the canvas area. A
/// weight of zero is rejected; an exact coordinate that leaves the machine
/// range surfaces as a numeric error.
pub fn pack(weights: &Vec<u64>, canvas_w: u64, canvas_h: u64) -> (r: Result<Vec<Row>, LayoutError>)
    requires
        canvas_w >= 1,
        canvas_h >= 1,
    ensures
        weights@.len() == 0 ==> (r matches Ok(rows) && rows@.len() == 0),
        weights@.len() == 1 && weights@[0] >= 1 ==> ((r is Ok) == (canvas_w as int
            * canvas_h as int <= u64::MAX as int && weights@[0] as int * (canvas_w as int
            * canvas_h as int) <= u64::MAX as int && row_new_result(
            (weights@[0] as int * (canvas_w as int * canvas_h as int), weights@[0] as int),
            (0int, 1int),
            (0int, 1int),
            true,
            canvas_w,
            canvas_h,
        ) is Some)),
        r == Result::<Vec<Row>, LayoutError>::Err(LayoutError::ZeroWeight) <==> has_zero(weights@),
        match r {
            Ok(rows) => {
                &&& rows_sound(rows@)
                &&& rows_chained(rows@)
                &&& rows_span(rows@, canvas_w, canvas_h)
                &&& rows_filled(rows@)
                &&& (rows@.len() > 0 ==> rows@[0].x@ == (0int, 1int) && rows@[0].y@ == (
                0int,
                1int,
                ) && rows@[0].vertical)
                &&& rows_areas(rows@).len() == weights@.len()
                &&& forall|i: int|
                    0 <= i < weights@.len() ==> (#[trigger] rows_areas(rows@)[i]).item == i
                        && rows_areas(rows@)[i].surface@ == (
                        weights@[i] as int * (canvas_w as int * canvas_h as int),
                        weight_sum(weights@),
                    )
                &&& weights@.len() > 0 ==> rq_eq(
                    rq_sum(placed_pairs(rows_areas(rows@))),
                    (canvas_w as int * canvas_h as int, 1int),
                )
            },
            Err(e) => e == LayoutError::ZeroWeight || e == LayoutError::Numeric,
        },
{
    let n = weights.len();
    let mut i: usize = 0;
    while i < n
        invariant
            i <= n,
            n == weights@.len(),
            forall|t: int| 0 <= t < i ==> (#[trigger] weights@[t]) >= 1,
        decreases n - i,
    {
        if weights[i] == 0 {
            return Err(LayoutError::ZeroWeight);
        }
        i = i + 1;
    }
    if n == 0 {
        let rows: Vec<Row> = Vec::new();
        return Ok(rows);
    }
    proof {
        assert(canvas_w as int * canvas_h as int <= u128::MAX as int && canvas_w as int
            * canvas_h as int >= 1) by (nonlinear_arith)
            requires
                1 <= canvas_w as int <= u64::MAX as int,
                1 <= canvas_h as int <= u64::MAX as int,
        ;
    }
    let a128: u128 = (canvas_w as u128) * (canvas_h as u128);
    if a128 > u64::MAX as u128 {
        return Err(LayoutError::Numeric);
    }
    let a = a128 as u64;
    let ghost a_int = a as int;
    let mut total: u64 = 0;
    let mut i: usize = 0;
    while i < n
        invariant
            i <= n,
            n == weights@.len(),
            forall|t: int| 0 <= t < n ==> (#[trigger] weights@[t]) >= 1,
            total as int == weight_sum(weights@.subrange(0, i as int)),
            i >= 1 ==> total >= 1,
        decreases n - i,
    {
        proof {
            assert(weights@.subrange(0, i + 1).drop_last() =~= weights@.subrange(0, i as int));
            assert(weights@.subrange(0, i + 1).last() == weights@[i as int]);
        }
        total = match total.checked_add(weights[i]) {
            Some(v) => v,
            None => {
                proof {
                    if weights@.len() == 1 {
                        reveal_with_fuel(weight_sum, 2);
                        assert(i == 0);
                        assert(weights@.subrange(0, 0int) =~= Seq::<u64>::empty());
                        assert(weight_sum(weights@.subrange(0, i as int)) == 0);
                        assert(false);
                    }
                }
                return Err(LayoutError::Numeric);
            },
        };
        i = i + 1;
    }
    proof {
        assert(weights@.subrange(0, n as int) =~= weights@);
    }
    let ghost w_int = total as int;
    let mut areas: Vec<Area> = Vec::new();
    let mut i: usize = 0;
    while i < n
        invariant
            i <= n,
            n == weights@.len(),
            total >= 1,
            a >= 1,
            forall|t: int| 0 <= t < n ==> (#[trigger] weights@[t]) >= 1,
            w_int == total as int,
            a_int == a as int,
            a_int == canvas_w as int * canvas_h as int,
            areas@.len() == i,
            forall|t: int|
                0 <= t < i ==> area_wf(#[trigger] areas@[t]) && areas@[t].item == t && areas@[t]
                    .surface@ == (weights@[t] as int * a_int, w_int),
        decreases n - i,
    {
        proof {
            assert(weights@[i as int] as int * a_int <= u128::MAX as int && weights@[i as int]
                as int * a_int >= 1) by (nonlinear_arith)
                requires
                    1 <= weights@[i as int] as int <= u64::MAX as int,
                    1 <= a_int <= u64::MAX as int,
            ;
        }
        let num128: u128 = (weights[i] as u128) * (a as u128);
        if num128 > u64::MAX as u128 {
            return Err(LayoutError::Numeric);
        }
        let surf = Frac { num: num128 as u64, den: total };
        let na = Area::new(surf, i);
        areas.push(na);
        i = i + 1;
    }
    let ghost areasv = areas@;
    let rows = match areas_to_rows(areas, canvas_w, canvas_h) {
        Ok(v) => v,
        Err(e) => {
            proof {
                assert(!has_zero(weights@));
                if weights@.len() == 1 {
                    reveal_with_fuel(weight_sum, 2);
                    assert(weights@.drop_last() =~= Seq::<u64>::empty());
                    assert(weights@.last() == weights@[0]);
                    assert(weight_sum(weights@) == weights@[0]);
                    assert(areasv[0].surface@ == (weights@[0] as int * a_int, w_int));
                }
            }
            return Err(e);
        },
    };
    proof {
        let flat = rows_areas(rows@);
        assert(area_keys(flat) == area_keys(areasv));
        assert(area_keys(flat).len() == flat.len());
        assert(area_keys(areasv).len() == areasv.len());
        assert(areasv.len() == n);
        assert(flat.len() == n);
        assert forall|t: int| 0 <= t < n implies (#[trigger] flat[t]).item == t && flat[t].surface@
            == (weights@[t] as int * a_int, w_int) by {
            assert(area_keys(flat)[t] == area_key(flat[t]));
            assert(area_keys(areasv)[t] == area_key(areasv[t]));
        }
        lemma_rows_areas_sound(rows@);
        let pp = placed_pairs(flat);
        let ss = surfaces(flat);
        let tgt = weights@.map_values(|w: u64| (w as int * a_int, w_int));
        assert(ss =~= tgt);
        assert(rq_all_wf(ss) && forall|t: int| 0 <= t < ss.len() ==> (#[trigger] ss[t]).0 >= 1)
            by {
            assert forall|t: int| 0 <= t < ss.len() implies rq_wf(#[trigger] ss[t]) && ss[t].0 >= 1
                by {
                assert(ss[t] == flat[t].surface@);
                assert(area_wf(flat[t]));
            }
        }
        assert(rq_all_wf(pp)) by {
            assert forall|t: int| 0 <= t < pp.len() implies rq_wf(#[trigger] pp[t]) by {
                assert(pp[t] == rq_mul(flat[t].w@, flat[t].h@));
                assert(area_wf(flat[t]));
                assert(rq_wf(rq_mul(flat[t].w@, flat[t].h@))) by (nonlinear_arith)
                    requires
                        rq_wf(flat[t].w@),
                        rq_wf(flat[t].h@),
                ;
            }
        }
        assert(forall|t: int| 0 <= t < pp.len() ==> rq_eq(#[trigger] pp[t], ss[t])) by {
            assert forall|t: int| 0 <= t < pp.len() implies rq_eq(#[trigger] pp[t], ss[t]) by {
                assert(area_exact(flat[t]));
                assert(pp[t] == rq_mul(flat[t].w@, flat[t].h@));
                assert(ss[t] == flat[t].surface@);
            }
        }
        lemma_rq_sum_eq(pp, ss);
        lemma_rq_sum_common_den(ss, w_int);
        lemma_target_num_sum(weights@, a_int, w_int);
        assert(rq_num_sum(ss) == weight_sum(weights@) * a_int) by {
            assert(ss =~= tgt);
        }
        assert(rq_eq((weight_sum(weights@) * a_int, w_int), (a_int, 1int))) by (nonlinear_arith)
            requires
                weight_sum(weights@) == w_int,
        ;
        lemma_rq_sum_wf(pp);
        lemma_rq_sum_wf(ss);
        assert(rq_wf((weight_sum(weights@) * a_int, w_int))) by (nonlinear_arith)
            requires
                weight_sum(weights@) == w_int,
                w_int >= 1,
                a_int >= 1,
        ;
        lemma_rq_eq_trans(rq_sum(pp), rq_sum(ss), (weight_sum(weights@) * a_int, w_int));
        lemma_rq_eq_trans(rq_sum(pp), (weight_sum(weights@) * a_int, w_int), (a_int, 1int));
        assert(!has_zero(weights@));
        assert(a_int == canvas_w as int * canvas_h as int);
        if weights@.len() == 1 {
            reveal_with_fuel(weight_sum, 2);
            assert(weights@.drop_last() =~= Seq::<u64>::empty());
            assert(weights@.last() == weights@[0]);
            assert(weight_sum(weights@) == weights@[0]);
            assert(areasv[0].surface@ == (weights@[0] as int * a_int, w_int));
        }
    }
    Ok(rows)
}

/// No-overlap within a row: of two areas in the same row, the earlier one
/// ends, along the row's primary axis, no later than where the later one
/// begins, so the rectangles' interiors are pairwise disjoint.
pub proof fn lemma_row_no_overlap(r: Row, i: int, j: int)
    requires
        row_wf(r),
        row_placed(r),
        0 <= i < j < r.areas@.len(),
    ensures
        r.vertical ==> rq_le(rq_add(r.areas@[i].y@, r.areas@[i].h@), r.areas@[j].y@),
        !r.vertical ==> rq_le(rq_add(r.areas@[i].x@, r.areas@[i].w@), r.areas@[j].x@),
    decreases j - i,
{
    let f = r.areas@;
    if r.vertical {
        let e_i = rq_add(f[i].y@, f[i].h@);
        assert(rq_wf(e_i)) by (nonlinear_arith)
            requires
                rq_wf(f[i].y@),
                rq_wf(f[i].h@),
                e_i == rq_add(f[i].y@, f[i].h@),
        ;
        if j == i + 1 {
            assert(rq_eq(f[j].y@, e_i));
        } else {
            lemma_row_no_overlap(r, i, j - 1);
            let e_p = rq_add(f[j - 1].y@, f[j - 1].h@);
            assert(rq_wf(e_p) && rq_le(f[j - 1].y@, e_p)) by (nonlinear_arith)
                requires
                    rq_wf(f[j - 1].y@),
                    rq_wf(f[j - 1].h@),
                    e_p == rq_add(f[j - 1].y@, f[j - 1].h@),
            ;
            lemma_rq_le_trans(e_i, f[j - 1].y@, e_p);
            assert(rq_eq(f[j].y@, e_p));
            lemma_rq_eq_sym(f[j].y@, e_p);
            lemma_rq_le_eq(e_i, e_p, e_i, f[j].y@);
        }
    } else {
        let e_i = rq_add(f[i].x@, f[i].w@);
        assert(rq_wf(e_i)) by (nonlinear_arith)
            requires
                rq_wf(f[i].x@),
                rq_wf(f[i].w@),
                e_i == rq_add(f[i].x@, f[i].w@),
        ;
        if j == i + 1 {
            assert(rq_eq(f[j].x@, e_i));
        } else {
            lemma_row_no_overlap(r, i, j - 1);
            let e_p = rq_add(f[j - 1].x@, f[j - 1].w@);
            assert(rq_wf(e_p) && rq_le(f[j - 1].x@, e_p)) by (nonlinear_arith)
                requires
                    rq_wf(f[j - 1].x@),
                    rq_wf(f[j - 1].w@),
                    e_p == rq_add(f[j - 1].x@, f[j - 1].w@),
            ;
            lemma_rq_le_trans(e_i, f[j - 1].x@, e_p);
            assert(rq_eq(f[j].x@, e_p));
            lemma_rq_eq_sym(f[j].x@, e_p);
            lemma_rq_le_eq(e_i, e_p, e_i, f[j].x@);
        }
    }
}

/// A score of positive sides is well formed, positive, and at most one.
proof fn lemma_side_ratio_bounds(x: (int, int), y: (int, int))
    requires
        rq_wf(x),
        rq_wf(y),
        x.0 >= 1,
        y.0 >= 1,
    ensures
        rq_wf(side_ratio(x, y)),
        side_ratio(x, y).0 >= 1,
        rq_le(side_ratio(x, y), (1int, 1int)),
{
    if rq_le(x, y) {
        assert(rq_wf(rq_div(x, y)) && rq_div(x, y).0 >= 1 && rq_le(rq_div(x, y), (1int, 1int)))
            by (nonlinear_arith)
            requires
                rq_wf(x),
                rq_wf(y),
                x.0 >= 1,
                y.0 >= 1,
                x.0 * y.1 <= y.0 * x.1,
                rq_div(x, y) == (x.0 * y.1, x.1 * y.0),
        ;
    } else {
        lemma_rq_le_total(x, y);
        assert(rq_wf(rq_div(y, x)) && rq_div(y, x).0 >= 1 && rq_le(rq_div(y, x), (1int, 1int)))
            by (nonlinear_arith)
            requires
                rq_wf(x),
                rq_wf(y),
                x.0 >= 1,
                y.0 >= 1,
                y.0 * x.1 <= x.0 * y.1,
                rq_div(y, x) == (y.0 * x.1, y.1 * x.0),
        ;
    }
}

/// Squareness is the same with the sides in either order.
proof fn lemma_side_ratio_sym(x: (int, int), y: (int, int))
    requires
        rq_wf(x),
        rq_wf(y),
    ensures
        rq_eq(side_ratio(x, y), side_ratio(y, x)),
{
    if rq_le(x, y) && rq_le(y, x) {
        assert(rq_eq(rq_div(x, y), rq_div(y, x))) by (nonlinear_arith)
            requires
                x.0 * y.1 == y.0 * x.1,
                rq_div(x, y) == (x.0 * y.1, x.1 * y.0),
                rq_div(y, x) == (y.0 * x.1, y.1 * x.0),
        ;
    }
}

/// Equal-valued sides give equal-valued squareness.
proof fn lemma_side_ratio_congr(x: (int, int), y: (int, int), x2: (int, int), y2: (int, int))
    requires
        rq_wf(x),
        rq_wf(y),
        rq_wf(x2),
        rq_wf(y2),
        rq_eq(x, x2),
        rq_eq(y, y2),
    ensures
        rq_eq(side_ratio(x, y), side_ratio(x2, y2)),
{
    if rq_le(x, y) {
        lemma_rq_le_eq(x, y, x2, y2);
        lemma_rq_div_eq(x, y, x2, y2);
    } else {
        if rq_le(x2, y2) {
            lemma_rq_eq_sym(x, x2);
            lemma_rq_eq_sym(y, y2);
            lemma_rq_le_eq(x2, y2, x, y);
            assert(false);
        }
        lemma_rq_div_eq(y, x, y2, x2);
    }
}

/// From an exact surface, one side determines the other as a quotient.
proof fn lemma_exact_side(w: (int, int), h: (int, int), s: (int, int))
    requires
        rq_wf(w),
        rq_wf(h),
        rq_wf(s),
        w.0 >= 1,
        rq_eq(rq_mul(w, h), s),
    ensures
        rq_eq(h, rq_div(s, w)),
{
    assert(h.0 * (s.1 * w.0) == (s.0 * w.1) * h.1) by (nonlinear_arith)
        requires
            (w.0 * h.0) * s.1 == s.0 * (w.1 * h.1),
    ;
}

/// A placed member's squareness is the model squareness of its target
/// surface at the row's thickness.
proof fn lemma_member_model(a: Area, t: (int, int), vertical: bool)
    requires
        area_wf(a),
        area_exact(a),
        rq_wf(t),
        t.0 >= 1,
        vertical ==> a.w@ == t,
        !vertical ==> a.h@ == t,
    ensures
        rq_eq(a.ratio_spec(), member_ratio(a.surface@, t)),
{
    lemma_area_dims_pos(a);
    let e = rq_div(a.surface@, t);
    assert(rq_wf(e) && e.0 >= 1) by (nonlinear_arith)
        requires
            rq_wf(a.surface@),
            rq_wf(t),
            a.surface@.0 >= 1,
            t.0 >= 1,
            e == (a.surface@.0 * t.1, a.surface@.1 * t.0),
    ;
    if vertical {
        lemma_exact_side(a.w@, a.h@, a.surface@);
        lemma_side_ratio_congr(t, a.h@, t, e);
    } else {
        assert(rq_mul(a.h@, a.w@) == rq_mul(a.w@, a.h@)) by (nonlinear_arith);
        lemma_exact_side(a.h@, a.w@, a.surface@);
        lemma_side_ratio_congr(a.w@, t, e, t);
        lemma_side_ratio_sym(e, t);
        lemma_side_ratio_bounds(a.w@, a.h@);
        lemma_side_ratio_bounds(e, t);
        lemma_side_ratio_bounds(t, e);
        lemma_rq_eq_trans(a.ratio_spec(), side_ratio(e, t), side_ratio(t, e));
    }
}

/// A member's model squareness is well formed, positive, at most one.
proof fn lemma_member_wf(s: (int, int), t: (int, int))
    requires
        rq_wf(s),
        rq_wf(t),
        s.0 >= 1,
        t.0 >= 1,
    ensures
        rq_wf(member_ratio(s, t)),
        member_ratio(s, t).0 >= 1,
        rq_le(member_ratio(s, t), (1int, 1int)),
{
    let e = rq_div(s, t);
    assert(rq_wf(e) && e.0 >= 1) by (nonlinear_arith)
        requires
            rq_wf(s),
            rq_wf(t),
            s.0 >= 1,
            t.0 >= 1,
            e == (s.0 * t.1, s.1 * t.0),
    ;
    lemma_side_ratio_bounds(t, e);
}

/// The model's worst score: well formed, at most one, a lower bound on
/// every member's score, and attained unless the row is empty.
proof fn lemma_worst_char(ss: Seq<(int, int)>, t: (int, int))
    requires
        rq_wf(t),
        t.0 >= 1,
        rq_all_wf(ss),
        forall|i: int| 0 <= i < ss.len() ==> (#[trigger] ss[i]).0 >= 1,
    ensures
        rq_wf(worst_from(ss, t)),
        worst_from(ss, t).0 >= 1,
        rq_le(worst_from(ss, t), (1int, 1int)),
        forall|i: int|
            0 <= i < ss.len() ==> rq_le(worst_from(ss, t), member_ratio(#[trigger] ss[i], t)),
        rq_eq(worst_from(ss, t), (1int, 1int)) || exists|i: int|
            0 <= i < ss.len() && rq_eq(worst_from(ss, t), member_ratio(#[trigger] ss[i], t)),
    decreases ss.len(),
{
    if ss.len() > 0 {
        let sub = ss.drop_last();
        assert(rq_all_wf(sub) && forall|i: int| 0 <= i < sub.len() ==> (#[trigger] sub[i]).0 >= 1);
        lemma_worst_char(sub, t);
        let m = worst_from(sub, t);
        let last = ss.last();
        let e = rq_div(last, t);
        assert(rq_wf(e) && e.0 >= 1) by (nonlinear_arith)
            requires
                rq_wf(last),
                rq_wf(t),
                last.0 >= 1,
                t.0 >= 1,
                e == (last.0 * t.1, last.1 * t.0),
        ;
        lemma_side_ratio_bounds(t, e);
        let r = member_ratio(last, t);
        assert(forall|i: int| 0 <= i < sub.len() ==> #[trigger] ss[i] == sub[i]);
        if rq_le(m, r) {
            assert(worst_from(ss, t) == m);
            if !rq_eq(m, (1int, 1int)) {
                let j = choose|j: int| 0 <= j < sub.len() && rq_eq(m, member_ratio(sub[j], t));
                assert(rq_eq(worst_from(ss, t), member_ratio(ss[j], t)));
            }
        } else {
            lemma_rq_le_total(m, r);
            assert(worst_from(ss, t) == r);
            assert forall|i: int|
                0 <= i < ss.len() implies rq_le(worst_from(ss, t), member_ratio(
                #[trigger] ss[i],
                t,
            )) by {
                if i < ss.len() - 1 {
                    let e2 = rq_div(ss[i], t);
                    assert(rq_wf(e2) && e2.0 >= 1) by (nonlinear_arith)
                        requires
                            rq_wf(ss[i]),
                            rq_wf(t),
                            ss[i].0 >= 1,
                            t.0 >= 1,
                            e2 == (ss[i].0 * t.1, ss[i].1 * t.0),
                    ;
                    lemma_side_ratio_bounds(t, e2);
                    lemma_rq_le_trans(r, m, member_ratio(ss[i], t));
                }
            }
            assert(rq_eq(worst_from(ss, t), member_ratio(ss[ss.len() - 1], t)));
        }
    }
}

/// Equal-valued thicknesses give the same worst score.
proof fn lemma_worst_congr(ss: Seq<(int, int)>, t: (int, int), t2: (int, int))
    requires
        rq_wf(t),
        rq_wf(t2),
        t.0 >= 1,
        t2.0 >= 1,
        rq_eq(t, t2),
        rq_all_wf(ss),
        forall|i: int| 0 <= i < ss.len() ==> (#[trigger] ss[i]).0 >= 1,
    ensures
        rq_eq(worst_from(ss, t), worst_from(ss, t2)),
    decreases ss.len(),
{
    if ss.len() > 0 {
        let sub = ss.drop_last();
        assert(rq_all_wf(sub) && forall|i: int| 0 <= i < sub.len() ==> (#[trigger] sub[i]).0 >= 1);
        lemma_worst_congr(sub, t, t2);
        lemma_worst_char(sub, t);
        lemma_worst_char(sub, t2);
        let last = ss.last();
        let e = rq_div(last, t);
        let e2 = rq_div(last, t2);
        assert(rq_wf(e) && e.0 >= 1 && rq_wf(e2) && e2.0 >= 1) by (nonlinear_arith)
            requires
                rq_wf(last),
                rq_wf(t),
                rq_wf(t2),
                last.0 >= 1,
                t.0 >= 1,
                t2.0 >= 1,
                e == (last.0 * t.1, last.1 * t.0),
                e2 == (last.0 * t2.1, last.1 * t2.0),
        ;
        lemma_rq_div_eq(last, t, last, t2);
        lemma_side_ratio_congr(t, e, t2, e2);
        lemma_side_ratio_bounds(t, e);
        lemma_side_ratio_bounds(t2, e2);
        let m = worst_from(sub, t);
        let m2 = worst_from(sub, t2);
        let r = member_ratio(last, t);
        let r2 = member_ratio(last, t2);
        if rq_le(m, r) {
            if !rq_le(m2, r2) {
                lemma_rq_eq_sym(m, m2);
                lemma_rq_eq_sym(r, r2);
                lemma_rq_le_eq(m, r, m2, r2);
                assert(false);
            }
        } else {
            if rq_le(m2, r2) {
                lemma_rq_le_eq(m2, r2, m, r);
                assert(false);
            }
        }
    }
}

/// What `calc_worst` reports for an exactly laid row is the model's worst
/// score of its surfaces at its thickness.
proof fn lemma_row_worst(r: Row, m: Frac)
    requires
        row_wf(r),
        row_placed(r),
        m.wf(),
        forall|i: int|
            0 <= i < r.areas@.len() ==> rq_le(m@, (#[trigger] r.areas@[i]).ratio_spec()),
        rq_eq(m@, (1int, 1int)) || exists|i: int|
            0 <= i < r.areas@.len() && rq_eq(m@, (#[trigger] r.areas@[i]).ratio_spec()),
    ensures
        rq_eq(
            m@,
            worst_from(
                surfaces(r.areas@),
                if r.vertical {
                    r.w@
                } else {
                    r.h@
                },
            ),
        ),
{
    let f = r.areas@;
    let ss = surfaces(f);
    let t = if r.vertical {
        r.w@
    } else {
        r.h@
    };
    if f.len() == 0 {
        assert(rq_eq(m@, (1int, 1int)));
    } else {
        lemma_area_dims_pos(f[0]);
        assert(t.0 >= 1);
        assert(rq_all_wf(ss) && forall|i: int| 0 <= i < ss.len() ==> (#[trigger] ss[i]).0 >= 1)
            by {
            assert(forall|i: int| 0 <= i < ss.len() ==> #[trigger] ss[i] == f[i].surface@);
        }
        assert forall|i: int|
            0 <= i < f.len() implies rq_eq((#[trigger] f[i]).ratio_spec(), member_ratio(ss[i], t))
            && rq_wf(f[i].ratio_spec()) by {
            lemma_member_model(f[i], t, r.vertical);
            lemma_ratio_wf(f[i]);
        }
        lemma_worst_char(ss, t);
        let w = worst_from(ss, t);
        // the reported score bounds the model's attained member
        assert(rq_le(m@, w)) by {
            if rq_eq(w, (1int, 1int)) {
                // every member score is one, so the attained (or one) report
                // is bounded by one, which is the model's value
                if rq_eq(m@, (1int, 1int)) {
                    lemma_rq_eq_sym(w, (1int, 1int));
                    lemma_rq_eq_trans(m@, (1int, 1int), w);
                } else {
                    let i = choose|i: int|
                        0 <= i < f.len() && rq_eq(m@, (#[trigger] f[i]).ratio_spec());
                    lemma_member_wf(ss[i], t);
                    lemma_rq_eq_trans(m@, f[i].ratio_spec(), member_ratio(ss[i], t));
                    // w <= member_i <= 1 and w ~ 1 force member_i ~ 1
                    lemma_rq_eq_sym(w, (1int, 1int));
                    lemma_rq_le_eq(w, member_ratio(ss[i], t), (1int, 1int), member_ratio(ss[i], t));
                    lemma_rq_le_antisym((1int, 1int), member_ratio(ss[i], t));
                    lemma_rq_eq_sym((1int, 1int), member_ratio(ss[i], t));
                    lemma_rq_eq_trans(m@, member_ratio(ss[i], t), (1int, 1int));
                    lemma_rq_eq_trans(m@, (1int, 1int), w);
                }
            } else {
                let j = choose|j: int| 0 <= j < ss.len() && rq_eq(w, member_ratio(#[trigger] ss[j], t));
                lemma_member_wf(ss[j], t);
                lemma_rq_eq_sym(w, member_ratio(ss[j], t));
                lemma_rq_eq_trans(f[j].ratio_spec(), member_ratio(ss[j], t), w);
                lemma_rq_le_eq(m@, f[j].ratio_spec(), m@, w);
            }
        }
        // the model's score bounds the reported attained member (or one)
        assert(rq_le(w, m@)) by {
            if rq_eq(m@, (1int, 1int)) {
                lemma_rq_eq_sym(m@, (1int, 1int));
                lemma_rq_le_eq(w, (1int, 1int), w, m@);
            } else {
                let i = choose|i: int|
                    0 <= i < f.len() && rq_eq(m@, (#[trigger] f[i]).ratio_spec());
                lemma_member_wf(ss[i], t);
                lemma_rq_eq_trans(m@, f[i].ratio_spec(), member_ratio(ss[i], t));
                lemma_rq_eq_sym(m@, member_ratio(ss[i], t));
                lemma_rq_le_eq(w, member_ratio(ss[i], t), w, m@);
            }
        }
        lemma_rq_le_antisym(m@, w);
    }
}

/// Squareness scores are well-formed rationals.
proof fn lemma_ratio_wf(a: Area)
    requires
        area_wf(a),
        area_exact(a),
    ensures
        rq_wf(a.ratio_spec()),
{
    lemma_area_dims_pos(a);
    assert(rq_wf(a.ratio_spec())) by (nonlinear_arith)
        requires
            a.w@.0 >= 1,
            a.h@.0 >= 1,
            a.w@.1 >= 1,
            a.h@.1 >= 1,
            a.ratio_spec() == (if rq_le(a.w@, a.h@) {
                rq_div(a.w@, a.h@)
            } else {
                rq_div(a.h@, a.w@)
            }),
    ;
}

/// Strictly smaller new worst stays below previously checked scores.
proof fn proof_ratio_le(r: Frac, worst: Frac, bound: (int, int))
    requires
        r.wf(),
        worst.wf(),
        rq_wf(bound),
        !rq_le(worst@, r@),
        rq_le(worst@, bound),
    ensures
        rq_le(r@, bound),
{
    assert(rq_le(r@, worst@)) by (nonlinear_arith)
        requires
            !(worst@.0 * r@.1 <= r@.0 * worst@.1),
            r@.1 >= 1,
            worst@.1 >= 1,
    ;
    lemma_rq_le_trans(r@, worst@, bound);
}

} // verus!
