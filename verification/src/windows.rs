//! Windows and hint placement.
//!
//! A [`DesktopWindow`] is one window reported by the window manager; a
//! [`RenderWindow`] pairs it with the rectangle its hint is drawn in.
//! Placement walks the windows in row/column order, and nudges each new
//! hint rectangle to the right until it overlaps no rectangle placed
//! before it.

use crate::config::{HorizontalAlign, Offset, VerticalAlign};
use crate::geometry::{intersects, overlapping, Rect};
use vstd::prelude::*;
use vstd::relations::sorted_by;

verus! {

/// One window known to the window manager.
#[derive(Debug, Clone, Copy)]
pub struct DesktopWindow {
    /// The window manager's own identifier for the window.
    pub id: i64,
    /// The native window-system identifier, where the manager reports one.
    pub x_window_id: Option<i32>,
    /// Top-left corner, in screen coordinates.
    pub pos: (i32, i32),
    /// Width and height.
    pub size: (i32, i32),
    /// Whether the window currently has the focus.
    pub is_focused: bool,
}

/// A window paired with the on-screen rectangle its hint is drawn in.
#[derive(Debug, Clone, Copy)]
pub struct RenderWindow {
    pub desktop_window: DesktopWindow,
    pub rect: Rect,
}

/// A plain copy of XCB's visual-type record, as the drawing layer reads it.
#[allow(non_camel_case_types)]
#[derive(Debug, Clone, Copy)]
pub struct xcb_visualtype_t {
    pub visual_id: u32,
    pub class: u8,
    pub bits_per_rgb_value: u8,
    pub colormap_entries: u16,
    pub red_mask: u32,
    pub green_mask: u32,
    pub blue_mask: u32,
    pub pad0: [u8; 4],
}

/// Windows ordered by row first, column second.
pub open spec fn window_le(a: DesktopWindow, b: DesktopWindow) -> bool {
    a.pos.1 < b.pos.1 || (a.pos.1 == b.pos.1 && a.pos.0 <= b.pos.0)
}

/// Strictly before in the row/column order.
pub open spec fn window_lt(a: DesktopWindow, b: DesktopWindow) -> bool {
    a.pos.1 < b.pos.1 || (a.pos.1 == b.pos.1 && a.pos.0 < b.pos.0)
}

/// The row/column order as a binary relation value.
pub open spec fn window_order() -> spec_fn(DesktopWindow, DesktopWindow) -> bool {
    |a: DesktopWindow, b: DesktopWindow| window_le(a, b)
}

fn window_lt_exec(a: &DesktopWindow, b: &DesktopWindow) -> (r: bool)
    ensures
        r == window_lt(*a, *b),
{
    a.pos.1 < b.pos.1 || (a.pos.1 == b.pos.1 && a.pos.0 < b.pos.0)
}

/// A window inserted into an already ordered list, after every window not
/// strictly behind it, so that windows with the same position keep their
/// earlier order.
pub open spec fn insert_in_order(out: Seq<DesktopWindow>, x: DesktopWindow) -> Seq<DesktopWindow>
    decreases out.len(),
{
    if out.len() == 0 {
        seq![x]
    } else if window_lt(x, out[0]) {
        seq![x] + out
    } else {
        seq![out[0]] + insert_in_order(out.drop_first(), x)
    }
}

/// The windows in row/column order, inserted one by one in the order they
/// were handed in: a stable sort.
pub open spec fn windows_in_order(dws: Seq<DesktopWindow>) -> Seq<DesktopWindow>
    decreases dws.len(),
{
    if dws.len() == 0 {
        Seq::empty()
    } else {
        insert_in_order(windows_in_order(dws.drop_last()), dws.last())
    }
}

proof fn lemma_insert_in_order_at(out: Seq<DesktopWindow>, x: DesktopWindow, idx: int)
    requires
        0 <= idx <= out.len(),
        forall|j: int| 0 <= j < idx ==> !window_lt(x, #[trigger] out[j]),
        idx < out.len() ==> window_lt(x, out[idx]),
    ensures
        insert_in_order(out, x) =~= out.insert(idx, x),
    decreases idx,
{
    out.insert_ensures(idx, x);
    if out.len() == 0 {
        assert(out.insert(0, x) =~= seq![x]);
    } else if idx == 0 {
        assert(out.insert(0, x) =~= seq![x] + out);
    } else {
        assert forall|j: int| 0 <= j < idx - 1 implies !window_lt(
            x,
            #[trigger] out.drop_first()[j],
        ) by {
            assert(out.drop_first()[j] == out[j + 1]);
        }
        lemma_insert_in_order_at(out.drop_first(), x, idx - 1);
        out.drop_first().insert_ensures(idx - 1, x);
        assert(insert_in_order(out, x) =~= out.insert(idx, x));
    }
}

/// Sort a list of windows by position: by column first and row second, so
/// that the result reads rows top to bottom, left to right within a row.
/// Windows at the same position keep the order they were handed in.
pub fn sort_by_pos(dws: Vec<DesktopWindow>) -> (r: Vec<DesktopWindow>)
    ensures
        r@ == windows_in_order(dws@),
        sorted_by(r@, window_order()),
        r@.to_multiset() == dws@.to_multiset(),
{
    broadcast use vstd::seq_lib::group_to_multiset_ensures;
    broadcast use vstd::multiset::group_multiset_axioms;

    let mut rest = dws;
    let ghost all = rest@;
    let mut out: Vec<DesktopWindow> = Vec::new();
    proof {
        assert(all.take(0) =~= Seq::<DesktopWindow>::empty());
        assert(all.skip(0) =~= all);
        assert(out@.to_multiset().add(rest@.to_multiset()) =~= all.to_multiset());
    }
    let ghost mut k: int = 0;
    while rest.len() > 0
        invariant
            0 <= k <= all.len(),
            rest@ =~= all.skip(k),
            out@ == windows_in_order(all.take(k)),
            sorted_by(out@, window_order()),
            out@.to_multiset().add(rest@.to_multiset()) == all.to_multiset(),
        decreases rest@.len(),
    {
        let ghost oldrest = rest@;
        let x = rest.remove(0);
        let n = out.len();
        let mut idx: usize = 0;
        while idx < n && !window_lt_exec(&x, &out[idx])
            invariant
                n == out@.len(),
                idx <= n,
                forall|j: int| 0 <= j < idx ==> !window_lt(x, out@[j]),
            decreases n - idx,
        {
            idx = idx + 1;
        }
        let ghost oldout = out@;
        out.insert(idx, x);
        proof {
            broadcast use vstd::seq_lib::group_to_multiset_ensures;
            broadcast use vstd::multiset::group_multiset_axioms;

            assert(x == all[k]);
            lemma_insert_in_order_at(oldout, x, idx as int);
            assert(all.take(k + 1).drop_last() =~= all.take(k));
            assert(all.take(k + 1).last() == all[k]);
            assert(out@ =~= windows_in_order(all.take(k + 1)));
            assert(rest@ =~= all.skip(k + 1));
            k = k + 1;

            oldout.insert_ensures(idx as int, x);
            vstd::seq_lib::to_multiset_insert(oldout, idx as int, x);
            assert(oldrest.remove(0).to_multiset() =~= oldrest.to_multiset().remove(oldrest[0]));
            assert(oldrest.contains(x));
            assert(oldrest.to_multiset().count(x) > 0);
            assert(out@.to_multiset() =~= oldout.to_multiset().insert(x));
            assert(rest@.to_multiset() =~= oldrest.to_multiset().remove(x));
            assert(out@.to_multiset().add(rest@.to_multiset()) =~= all.to_multiset());
            let r = window_order();
            let nv = out@;
            assert forall|p: int, q: int| 0 <= p < q < nv.len() implies #[trigger] r(
                nv[p],
                nv[q],
            ) by {
                if q < idx {
                    assert(r(oldout[p], oldout[q]));
                } else if p == idx {
                    assert(nv[q] == oldout[q - 1]);
                    assert(window_lt(x, oldout[idx as int]));
                    if q - 1 > idx {
                        assert(r(oldout[idx as int], oldout[q - 1]));
                    }
                } else if q == idx {
                    assert(nv[p] == oldout[p]);
                    assert(!window_lt(x, oldout[p]));
                } else if p < idx && q > idx {
                    assert(nv[p] == oldout[p]);
                    assert(nv[q] == oldout[q - 1]);
                    if p < q - 1 {
                        assert(r(oldout[p], oldout[q - 1]));
                    }
                } else {
                    assert(r(oldout[p - 1], oldout[q - 1]));
                }
            }
        }
    }
    proof {
        assert(k == all.len());
        assert(all.take(k) =~= all);
        assert(out@.to_multiset().add(rest@.to_multiset()) =~= out@.to_multiset());
    }
    out
}

/// The horizontal position of a hint box of width `width` inside `dw`.
pub open spec fn hint_x_spec(dw: DesktopWindow, width: u16, halign: HorizontalAlign, offset: Offset) -> int {
    match halign {
        HorizontalAlign::Left => dw.pos.0 + offset.x,
        HorizontalAlign::Center => dw.pos.0 + dw.size.0 / 2 - width / 2,
        HorizontalAlign::Right => dw.pos.0 + dw.size.0 - width - offset.x,
    }
}

/// The vertical position of a hint box of height `height` inside `dw`.
pub open spec fn hint_y_spec(dw: DesktopWindow, height: u16, valign: VerticalAlign, offset: Offset) -> int {
    match valign {
        VerticalAlign::Top => dw.pos.1 + offset.y,
        VerticalAlign::Center => dw.pos.1 + dw.size.1 / 2 - height / 2,
        VerticalAlign::Bottom => dw.pos.1 + dw.size.1 - height - offset.y,
    }
}

/// The top-left corner of a hint box of the given size inside `dw`, for the
/// configured alignment and offset.  The window system takes 16-bit
/// coordinates, so the result must fit in them.
pub fn hint_position(
    dw: &DesktopWindow,
    width: u16,
    height: u16,
    horizontal_align: HorizontalAlign,
    vertical_align: VerticalAlign,
    offset: &Offset,
) -> (pos: (i32, i32))
    requires
        dw.size.0 >= 0,
        dw.size.1 >= 0,
        i16::MIN <= hint_x_spec(*dw, width, horizontal_align, *offset) <= i16::MAX,
        i16::MIN <= hint_y_spec(*dw, height, vertical_align, *offset) <= i16::MAX,
    ensures
        pos.0 == hint_x_spec(*dw, width, horizontal_align, *offset),
        pos.1 == hint_y_spec(*dw, height, vertical_align, *offset),
{
    let x64: i64 = match horizontal_align {
        HorizontalAlign::Left => dw.pos.0 as i64 + offset.x as i64,
        HorizontalAlign::Center => dw.pos.0 as i64 + ((dw.size.0 as u32) / 2) as i64 - (width
            / 2) as i64,
        HorizontalAlign::Right => dw.pos.0 as i64 + dw.size.0 as i64 - width as i64
            - offset.x as i64,
    };
    let y64: i64 = match vertical_align {
        VerticalAlign::Top => dw.pos.1 as i64 + offset.y as i64,
        VerticalAlign::Center => dw.pos.1 as i64 + ((dw.size.1 as u32) / 2) as i64 - (height
            / 2) as i64,
        VerticalAlign::Bottom => dw.pos.1 as i64 + dw.size.1 as i64 - height as i64
            - offset.y as i64,
    };
    (x64 as i32, y64 as i32)
}

/// The rectangles of the already placed windows, in order.
pub open spec fn rects_of(v: Seq<&RenderWindow>) -> Seq<Rect> {
    Seq::new(v.len(), |i: int| v[i].rect)
}

/// As `rects_of`, for owned values.
pub open spec fn rects_vals(v: Seq<RenderWindow>) -> Seq<Rect> {
    Seq::new(v.len(), |i: int| v[i].rect)
}

/// Every placed rectangle that overlaps `rect`, in placement order.
pub open spec fn overlaps_of(rects: Seq<Rect>, rect: Rect) -> Seq<Rect>
    decreases rects.len(),
{
    if rects.len() == 0 {
        Seq::empty()
    } else {
        let rest = overlaps_of(rects.drop_last(), rect);
        if overlapping(rects.last(), rect) {
            rest.push(rects.last())
        } else {
            rest
        }
    }
}

/// Finds all overlaps of already-placed hint rectangles with `rect`.
pub fn find_overlaps(rws: Vec<&RenderWindow>, rect: Rect) -> (r: Vec<Rect>)
    ensures
        r@ == overlaps_of(rects_of(rws@), rect),
{
    let mut overlaps: Vec<Rect> = Vec::new();
    let n = rws.len();
    let mut i: usize = 0;
    proof {
        assert(rects_of(rws@).take(0) =~= Seq::<Rect>::empty());
    }
    while i < n
        invariant
            n == rws@.len(),
            i <= n,
            overlaps@ == overlaps_of(rects_of(rws@).take(i as int), rect),
        decreases n - i,
    {
        proof {
            assert(rects_of(rws@).take(i + 1).drop_last() =~= rects_of(rws@).take(i as int));
            assert(rects_of(rws@).take(i + 1).last() == rects_of(rws@)[i as int]);
        }
        if intersects(rws[i].rect, rect) {
            overlaps.push(rws[i].rect);
        }
        i = i + 1;
    }
    proof {
        assert(rects_of(rws@).take(n as int) =~= rects_of(rws@));
    }
    overlaps
}

/// Every placed rectangle is at least one pixel wide.
pub open spec fn pos_widths(rects: Seq<Rect>) -> bool {
    forall|i: int| 0 <= i < rects.len() ==> (#[trigger] rects[i]).2 >= 1
}

/// The rightmost right edge among the placed rectangles, at least 0.
pub open spec fn max_right(rects: Seq<Rect>) -> int
    decreases rects.len(),
{
    if rects.len() == 0 {
        0
    } else {
        let m = max_right(rects.drop_last());
        let v = rects.last().0 + rects.last().2;
        if v > m {
            v
        } else {
            m
        }
    }
}

/// The widest placed rectangle, at least 0.
pub open spec fn max_width(rects: Seq<Rect>) -> int
    decreases rects.len(),
{
    if rects.len() == 0 {
        0
    } else {
        let m = max_width(rects.drop_last());
        let v = rects.last().2 as int;
        if v > m {
            v
        } else {
            m
        }
    }
}

proof fn lemma_max_right_member(rects: Seq<Rect>, k: int)
    requires
        0 <= k < rects.len(),
    ensures
        rects[k].0 + rects[k].2 <= max_right(rects),
        rects[k].2 <= max_width(rects),
    decreases rects.len(),
{
    if k < rects.len() - 1 {
        lemma_max_right_member(rects.drop_last(), k);
    }
}

/// How far the nudge can still move: the distance left to the rightmost
/// right edge.
pub open spec fn nudge_measure(rects: Seq<Rect>, x: int) -> int {
    if max_right(rects) >= x {
        max_right(rects) - x
    } else {
        0
    }
}

/// Overlap of a placed rectangle with the candidate moved to column `x`.
pub open spec fn overlapping_at(r: Rect, x: int, rect: Rect) -> bool {
    &&& r.0 < x + rect.2
    &&& r.0 + r.2 > x
    &&& r.1 < rect.1 + rect.3
    &&& r.1 + r.3 > rect.1
}

/// Every placed rectangle that overlaps the candidate moved to column `x`,
/// in placement order.
pub open spec fn overlaps_at(rects: Seq<Rect>, x: int, rect: Rect) -> Seq<Rect>
    decreases rects.len(),
{
    if rects.len() == 0 {
        Seq::empty()
    } else {
        let rest = overlaps_at(rects.drop_last(), x, rect);
        if overlapping_at(rects.last(), x, rect) {
            rest.push(rects.last())
        } else {
            rest
        }
    }
}

proof fn lemma_overlaps_at_members(rects: Seq<Rect>, x: int, rect: Rect)
    ensures
        forall|k: int|
            0 <= k < overlaps_at(rects, x, rect).len() ==> rects.contains(
                #[trigger] overlaps_at(rects, x, rect)[k],
            ) && overlapping_at(overlaps_at(rects, x, rect)[k], x, rect),
    decreases rects.len(),
{
    if rects.len() > 0 {
        let rest = overlaps_at(rects.drop_last(), x, rect);
        lemma_overlaps_at_members(rects.drop_last(), x, rect);
        assert forall|k: int| 0 <= k < overlaps_at(rects, x, rect).len() implies rects.contains(
            overlaps_at(rects, x, rect)[k],
        ) && overlapping_at(overlaps_at(rects, x, rect)[k], x, rect) by {
            if k < rest.len() {
                assert(rects.drop_last().contains(rest[k]));
                let j = choose|j: int|
                    0 <= j < rects.drop_last().len() && rects.drop_last()[j] == rest[k];
                assert(rects[j] == rest[k]);
            } else {
                assert(overlaps_at(rects, x, rect)[k] == rects.last());
            }
        }
    }
}

/// The column where the nudge loop leaves a candidate rectangle that
/// started at column `x`: while any placed rectangle overlaps it, the
/// candidate moves right by the width of the last-listed overlapping
/// rectangle.
pub open spec fn nudged_x(rects: Seq<Rect>, x: int, rect: Rect) -> int
    decreases nudge_measure(rects, x),
    when pos_widths(rects)
    via nudged_x_decreases
{
    let ovl = overlaps_at(rects, x, rect);
    if ovl.len() == 0 {
        x
    } else {
        nudged_x(rects, x + ovl.last().2, rect)
    }
}

#[via_fn]
proof fn nudged_x_decreases(rects: Seq<Rect>, x: int, rect: Rect) {
    let ovl = overlaps_at(rects, x, rect);
    if ovl.len() != 0 {
        lemma_overlaps_at_members(rects, x, rect);
        let r = ovl.last();
        assert(rects.contains(r) && overlapping_at(r, x, rect));
        let j = choose|j: int| 0 <= j < rects.len() && rects[j] == r;
        lemma_max_right_member(rects, j);
        assert(x < r.0 + r.2 <= max_right(rects));
        assert(r.2 >= 1);
    }
}

/// Whether the placed rectangles admit a nudge: all of them at least one
/// pixel wide, and far enough from the right edge of the coordinate space
/// that the nudge arithmetic cannot overflow.
pub fn can_nudge(rws: &Vec<RenderWindow>) -> (r: bool)
    ensures
        r == (pos_widths(rects_vals(rws@)) && max_right(rects_vals(rws@)) + max_width(
            rects_vals(rws@),
        ) <= i32::MAX),
{
    let ghost rects = rects_vals(rws@);
    let n = rws.len();
    let mut mr: i64 = 0;
    let mut mw: i64 = 0;
    let mut i: usize = 0;
    proof {
        assert(rects.take(0) =~= Seq::<Rect>::empty());
    }
    while i < n
        invariant
            rects == rects_vals(rws@),
            n == rws@.len(),
            i <= n,
            pos_widths(rects.take(i as int)),
            mr == max_right(rects.take(i as int)),
            mw == max_width(rects.take(i as int)),
            0 <= mr < 0x200000000,
            0 <= mw < 0x200000000,
        decreases n - i,
    {
        proof {
            assert(rects.take(i + 1).drop_last() =~= rects.take(i as int));
            assert(rects.take(i + 1).last() == rects[i as int]);
        }
        let rect = rws[i].rect;
        if rect.2 < 1 {
            proof {
                assert(rects[i as int].2 < 1);
            }
            return false;
        }
        let v = rect.0 as i64 + rect.2 as i64;
        if v > mr {
            mr = v;
        }
        if rect.2 as i64 > mw {
            mw = rect.2 as i64;
        }
        proof {
            assert forall|k: int| 0 <= k < i + 1 implies (#[trigger] rects.take(i + 1)[k]).2
                >= 1 by {
                if k < i {
                    assert(rects.take(i as int)[k].2 >= 1);
                }
            }
        }
        i = i + 1;
    }
    proof {
        assert(rects.take(n as int) =~= rects);
    }
    mr + mw <= i32::MAX as i64
}

/// Whether a hint box of the given size sits at 16-bit coordinates inside
/// `dw`, as the window system requires.
pub fn hint_fits(
    dw: &DesktopWindow,
    width: u16,
    height: u16,
    horizontal_align: HorizontalAlign,
    vertical_align: VerticalAlign,
    offset: &Offset,
) -> (r: bool)
    ensures
        r == (dw.size.0 >= 0 && dw.size.1 >= 0 && i16::MIN <= hint_x_spec(
            *dw,
            width,
            horizontal_align,
            *offset,
        ) <= i16::MAX && i16::MIN <= hint_y_spec(*dw, height, vertical_align, *offset)
            <= i16::MAX),
{
    if dw.size.0 < 0 || dw.size.1 < 0 {
        return false;
    }
    let x64: i64 = match horizontal_align {
        HorizontalAlign::Left => dw.pos.0 as i64 + offset.x as i64,
        HorizontalAlign::Center => dw.pos.0 as i64 + ((dw.size.0 as u32) / 2) as i64 - (width
            / 2) as i64,
        HorizontalAlign::Right => dw.pos.0 as i64 + dw.size.0 as i64 - width as i64
            - offset.x as i64,
    };
    let y64: i64 = match vertical_align {
        VerticalAlign::Top => dw.pos.1 as i64 + offset.y as i64,
        VerticalAlign::Center => dw.pos.1 as i64 + ((dw.size.1 as u32) / 2) as i64 - (height
            / 2) as i64,
        VerticalAlign::Bottom => dw.pos.1 as i64 + dw.size.1 as i64 - height as i64
            - offset.y as i64,
    };
    -32768 <= x64 && x64 <= 32767 && -32768 <= y64 && y64 <= 32767
}

/// Nudge `rect` to the right until it overlaps none of the already placed
/// hint rectangles.
pub fn nudge_rect(rws: &Vec<RenderWindow>, rect: Rect) -> (r: Rect)
    requires
        pos_widths(rects_vals(rws@)),
        max_right(rects_vals(rws@)) + max_width(rects_vals(rws@)) <= i32::MAX,
    ensures
        r.0 == nudged_x(rects_vals(rws@), rect.0 as int, rect),
        r.1 == rect.1 && r.2 == rect.2 && r.3 == rect.3,
{
    let ghost rects = rects_vals(rws@);
    let mut x = rect.0;
    loop
        invariant_except_break
            rects == rects_vals(rws@),
            pos_widths(rects),
            max_right(rects) + max_width(rects) <= i32::MAX,
            nudged_x(rects, x as int, rect) == nudged_x(rects, rect.0 as int, rect),
        ensures
            overlaps_at(rects, x as int, rect).len() == 0,
            nudged_x(rects, x as int, rect) == nudged_x(rects, rect.0 as int, rect),
        decreases nudge_measure(rects, x as int),
    {
        let n = rws.len();
        let mut i: usize = 0;
        let mut found: bool = false;
        let mut w: i32 = 0;
        proof {
            assert(rects.take(0) =~= Seq::<Rect>::empty());
        }
        while i < n
            invariant
                rects == rects_vals(rws@),
                n == rws@.len(),
                i <= n,
                found == (overlaps_at(rects.take(i as int), x as int, rect).len() > 0),
                found ==> w == overlaps_at(rects.take(i as int), x as int, rect).last().2,
            decreases n - i,
        {
            proof {
                assert(rects.take(i + 1).drop_last() =~= rects.take(i as int));
                assert(rects.take(i + 1).last() == rects[i as int]);
            }
            if intersects(rws[i].rect, (x, rect.1, rect.2, rect.3)) {
                found = true;
                w = rws[i].rect.2;
            }
            i = i + 1;
        }
        proof {
            assert(rects.take(n as int) =~= rects);
        }
        if !found {
            break;
        }
        proof {
            let ovl = overlaps_at(rects, x as int, rect);
            lemma_overlaps_at_members(rects, x as int, rect);
            let r0 = ovl.last();
            assert(rects.contains(r0) && overlapping_at(r0, x as int, rect));
            let j = choose|j: int| 0 <= j < rects.len() && rects[j] == r0;
            lemma_max_right_member(rects, j);
            assert(x < r0.0 + r0.2 <= max_right(rects));
            assert(w == r0.2 <= max_width(rects));
            assert(r0.2 >= 1);
        }
        x = x + w;
    }
    (x, rect.1, rect.2, rect.3)
}

} // verus!
