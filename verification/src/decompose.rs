//! The sweep itself: what it leaves of a base rectangle under a list of
//! obstructions, and the proof that the rectangles it returns are exactly
//! the reported free cells.

use crate::rect::{lemma_intersects_iff_shared_cell, Rect};
use crate::sweep::{
    all_wf, are_sweep_coordinates, covers, free, gaps_at, gaps_descend_in, in_gaps, is_gap_list,
    is_sweep_coordinate, prepared, rects_of, relevant_obstructions, reported, spans,
    sweep_coordinates, Gap,
};
use crate::tracker::{
    advance, advanced, close_sections, closed_all, continues, fits_some, has_interval,
    is_blocked_rect, is_step, opened, sorted_by_start, ActiveSection,
};
use vstd::prelude::*;

verus! {

/// What the sweep returns for `base` under `obstructions`: well-formed
/// rectangles within `base` that intersect no obstruction and together have
/// exactly the reported free cells; and `base` itself where nothing obstructs
/// a base of more than one row.
pub open spec fn is_decomposition(base: Rect, obstructions: Seq<Rect>, out: Seq<Rect>) -> bool {
    &&& all_wf(out)
    &&& forall|i: int| 0 <= i < out.len() ==> (#[trigger] out[i]).within(&base)
    &&& forall|i: int, j: int|
        0 <= i < out.len() && 0 <= j < obstructions.len() ==> !(#[trigger] out[i]).spec_intersects(
            #[trigger] &obstructions[j],
        )
    &&& forall|px: int, py: int| #[trigger]
        covers(out, px, py) <==> reported(base, obstructions, px, py)
    &&& obstructions.len() == 0 && base.height > 1 ==> out == seq![base]
}

/// Whether `sorted` holds the obstructions of `all` that intersect `base`, in
/// an order that the sweep accepts.
pub open spec fn relevant(base: Rect, all: Seq<Rect>, sorted: Seq<Rect>) -> bool {
    &&& prepared(base, sorted)
    &&& forall|i: int| 0 <= i < sorted.len() ==> all.contains(#[trigger] sorted[i])
    &&& forall|j: int|
        0 <= j < all.len() && (#[trigger] all[j]).spec_intersects(&base) ==> sorted.contains(all[j])
}

/// Whether the sweep stands at `active` and `out` after the steps at the
/// first `i` coordinates: it starts with nothing, and each step goes by the
/// gaps of its column.
pub open spec fn sweep_reaches(
    base: Rect,
    sorted: Seq<Rect>,
    points: Seq<i64>,
    i: nat,
    active: Seq<ActiveSection>,
    out: Seq<Rect>,
) -> bool
    decreases i,
{
    if i == 0 {
        active.len() == 0 && out.len() == 0
    } else {
        exists|earlier: Seq<ActiveSection>, before: Seq<Rect>, gaps: Seq<Gap>|
            #![trigger is_step(sorted_by_start(earlier, earlier.len() as int), gaps, points[i - 1], before, out, active)]
            sweep_reaches(base, sorted, points, (i - 1) as nat, earlier, before) && is_gap_list(
                base,
                sorted,
                points[i - 1] as int,
                gaps,
            ) && is_step(
                sorted_by_start(earlier, earlier.len() as int),
                gaps,
                points[i - 1],
                before,
                out,
                active,
            )
    }
}

/// A step from a state that the sweep reaches leads to one that it reaches.
pub proof fn lemma_sweep_reaches_next(
    base: Rect,
    sorted: Seq<Rect>,
    points: Seq<i64>,
    i: nat,
    earlier: Seq<ActiveSection>,
    before: Seq<Rect>,
    gaps: Seq<Gap>,
    active: Seq<ActiveSection>,
    out: Seq<Rect>,
)
    requires
        0 < i <= points.len(),
        sweep_reaches(base, sorted, points, (i - 1) as nat, earlier, before),
        is_gap_list(base, sorted, points[i - 1] as int, gaps),
        is_step(
            sorted_by_start(earlier, earlier.len() as int),
            gaps,
            points[i - 1],
            before,
            out,
            active,
        ),
    ensures
        sweep_reaches(base, sorted, points, i, active, out),
{
}

/// Whether `out` is what the sweep over the columns of `base` leaves: the
/// rectangles closed on the way, then the sections still active at the right
/// edge, each closed there.
pub open spec fn is_sweep_result(base: Rect, all: Seq<Rect>, out: Seq<Rect>) -> bool {
    exists|sorted: Seq<Rect>, points: Seq<i64>, active: Seq<ActiveSection>, before: Seq<Rect>|
        #![trigger sweep_reaches(base, sorted, points, points.len(), active, before)]
        relevant(base, all, sorted) && are_sweep_coordinates(base, sorted, points)
            && sweep_reaches(base, sorted, points, points.len(), active, before) && out == before
            + closed_all(active, base.spec_right() + 1)
}

/// The column up to which the sweep has looked once it has handled the first
/// `i` coordinates: the next coordinate, or the column after `base`.
pub open spec fn horizon(base: Rect, points: Seq<i64>, i: int) -> int {
    if 0 <= i < points.len() {
        points[i] as int
    } else {
        base.spec_right() + 1
    }
}

/// The section lies in `base`, started before column `h`, and all its cells
/// in the columns before `h` are reported free cells.
pub open spec fn section_free(base: Rect, sorted: Seq<Rect>, s: ActiveSection, h: int) -> bool {
    &&& s.within(base)
    &&& s.start_x < h
    &&& forall|px: int, py: int|
        s.start_x <= px < h && s.bottom <= py <= s.top ==> #[trigger] reported(
            base,
            sorted,
            px,
            py,
        )
}

/// The rectangle is well formed, lies in `base`, and all its cells are
/// reported free cells.
pub open spec fn rect_reported(base: Rect, sorted: Seq<Rect>, r: Rect) -> bool {
    &&& r.wf()
    &&& r.within(&base)
    &&& forall|px: int, py: int| #[trigger]
        r.contains(px, py) ==> reported(base, sorted, px, py)
}

/// Whether a section that started at or before column `px` has row `py`.
pub open spec fn in_sections(active: Seq<ActiveSection>, px: int, py: int) -> bool {
    exists|i: int|
        0 <= i < active.len() && (#[trigger] active[i]).start_x <= px && active[i].bottom <= py
            <= active[i].top
}

/// The state of the sweep when it has looked at the columns before `h`:
/// sections and finished rectangles hold reported free cells only, and every
/// reported free cell before `h` is in one of them.
pub open spec fn sweep_state(
    base: Rect,
    sorted: Seq<Rect>,
    h: int,
    active: Seq<ActiveSection>,
    out: Seq<Rect>,
) -> bool {
    &&& forall|i: int| 0 <= i < active.len() ==> section_free(base, sorted, #[trigger] active[i], h)
    &&& forall|i: int| 0 <= i < out.len() ==> rect_reported(base, sorted, #[trigger] out[i])
    &&& forall|px: int, py: int|
        base.spec_left() <= px < h && #[trigger] reported(base, sorted, px, py) ==> covers(
            out,
            px,
            py,
        ) || in_sections(active, px, py)
}

/// Between one sweep coordinate and the next, an obstruction spans either
/// every column or none.
pub proof fn lemma_spans_constant(
    base: Rect,
    sorted: Seq<Rect>,
    points: Seq<i64>,
    i: int,
    px: int,
    k: int,
)
    requires
        base.wf(),
        prepared(base, sorted),
        are_sweep_coordinates(base, sorted, points),
        0 <= i < points.len(),
        points[i] <= px < horizon(base, points, i + 1),
        0 <= k < sorted.len(),
    ensures
        spans(sorted[k], px) <==> spans(sorted[k], points[i] as int),
{
    let x = points[i];
    let r = sorted[k];
    assert(r.wf());
    assert(points.contains(x));
    assert(is_sweep_coordinate(base, sorted, x as int));
    if i + 1 < points.len() {
        let n = points[i + 1];
        assert(points.contains(n));
        assert(is_sweep_coordinate(base, sorted, n as int));
    }
    assert(px <= base.spec_right());
    if x < r.spec_left() <= px {
        let v: i64 = r.x;
        assert(is_sweep_coordinate(base, sorted, v as int));
        assert(points.contains(v));
        let m = choose|m: int| 0 <= m < points.len() && points[m] == v;
        if m < i {
            assert(points[m] < points[i]);
        } else if m > i + 1 {
            assert(points[i + 1] < points[m]);
        }
        assert(false);
    }
    if x <= r.spec_right() < px {
        let v: i64 = (r.spec_right() + 1) as i64;
        assert(is_sweep_coordinate(base, sorted, v as int));
        assert(points.contains(v));
        let m = choose|m: int| 0 <= m < points.len() && points[m] == v;
        if m < i {
            assert(points[m] < points[i]);
        } else if m > i + 1 {
            assert(points[i + 1] < points[m]);
        }
        assert(false);
    }
}

/// Between one sweep coordinate and the next, every column has the free
/// cells of the first.
pub proof fn lemma_profile_constant(
    base: Rect,
    sorted: Seq<Rect>,
    points: Seq<i64>,
    i: int,
    px: int,
    py: int,
)
    requires
        base.wf(),
        prepared(base, sorted),
        are_sweep_coordinates(base, sorted, points),
        0 <= i < points.len(),
        points[i] <= px < horizon(base, points, i + 1),
    ensures
        free(base, sorted, px, py) <==> free(base, sorted, points[i] as int, py),
{
    let x = points[i] as int;
    assert(points.contains(points[i]));
    assert(is_sweep_coordinate(base, sorted, x));
    if i + 1 < points.len() {
        assert(points.contains(points[i + 1]));
        assert(is_sweep_coordinate(base, sorted, points[i + 1] as int));
    }
    assert(base.contains(px, py) <==> base.contains(x, py));
    if covers(sorted, px, py) {
        let k = choose|k: int| 0 <= k < sorted.len() && #[trigger] sorted[k].contains(px, py);
        lemma_spans_constant(base, sorted, points, i, px, k);
        assert(sorted[k].contains(x, py));
    }
    if covers(sorted, x, py) {
        let k = choose|k: int| 0 <= k < sorted.len() && #[trigger] sorted[k].contains(x, py);
        lemma_spans_constant(base, sorted, points, i, px, k);
        assert(sorted[k].contains(px, py));
    }
}

/// One step of the sweep keeps its state: after the step at a coordinate the
/// state holds up to the next.
pub proof fn lemma_step_keeps_state(
    base: Rect,
    sorted: Seq<Rect>,
    points: Seq<i64>,
    i: int,
    active: Seq<ActiveSection>,
    gaps: Seq<Gap>,
    before: Seq<Rect>,
    after: Seq<Rect>,
    next: Seq<ActiveSection>,
)
    requires
        base.wf(),
        prepared(base, sorted),
        are_sweep_coordinates(base, sorted, points),
        0 <= i < points.len(),
        sweep_state(base, sorted, points[i] as int, active, before),
        gaps_descend_in(base, gaps),
        forall|py: int| in_gaps(gaps, py) <==> reported(base, sorted, points[i] as int, py),
        advanced(active, gaps, points[i] as int, before, after, next),
    ensures
        sweep_state(base, sorted, horizon(base, points, i + 1), next, after),
{
    let x = points[i] as int;
    let h = horizon(base, points, i + 1);
    assert(points.contains(points[i]));
    assert(is_sweep_coordinate(base, sorted, x));
    if i + 1 < points.len() {
        assert(points[i] < points[i + 1]);
    }
    assert(x < h);
    assert forall|px: int, py: int| x <= px < h implies (reported(base, sorted, px, py)
        <==> in_gaps(gaps, py)) by {
        lemma_profile_constant(base, sorted, points, i, px, py);
        lemma_profile_constant(base, sorted, points, i, px, py + 1);
    }
    assert forall|n: int| 0 <= n < next.len() implies section_free(
        base,
        sorted,
        #[trigger] next[n],
        h,
    ) by {
        let t = next[n];
        assert(continues(active, gaps, x, t));
        let g = choose|g: int| 0 <= g < gaps.len() && t.fits(#[trigger] gaps[g]);
        if active.contains(t) {
            let j = choose|j: int| 0 <= j < active.len() && active[j] == t;
            assert(section_free(base, sorted, active[j], x));
        }
        assert forall|px: int, py: int|
            t.start_x <= px < h && t.bottom <= py <= t.top implies #[trigger] reported(
            base,
            sorted,
            px,
            py,
        ) by {
            if px >= x {
                assert(gaps[g].holds(py));
                assert(in_gaps(gaps, py));
            }
        }
    }
    assert forall|n: int| 0 <= n < after.len() implies rect_reported(
        base,
        sorted,
        #[trigger] after[n],
    ) by {
        if n < before.len() {
            assert(after.take(before.len() as int)[n] == after[n]);
            assert(rect_reported(base, sorted, before[n]));
        } else {
            assert(is_blocked_rect(active, gaps, x, after[n]));
            let j = choose|j: int|
                0 <= j < active.len() && !fits_some(#[trigger] active[j], gaps) && after[n]
                    == active[j].closed(x);
            assert(section_free(base, sorted, active[j], x));
        }
    }
    assert forall|px: int, py: int|
        base.spec_left() <= px < h && #[trigger] reported(base, sorted, px, py) implies covers(
        after,
        px,
        py,
    ) || in_sections(next, px, py) by {
        if px < x {
            if covers(before, px, py) {
                let n = choose|n: int| 0 <= n < before.len() && #[trigger] before[n].contains(px, py);
                assert(after.take(before.len() as int)[n] == after[n]);
                assert(after[n].contains(px, py));
            } else {
                assert(in_sections(active, px, py));
                let j = choose|j: int|
                    0 <= j < active.len() && (#[trigger] active[j]).start_x <= px
                        && active[j].bottom <= py <= active[j].top;
                assert(section_free(base, sorted, active[j], x));
                if fits_some(active[j], gaps) {
                    assert(next.contains(active[j]));
                    let n = choose|n: int| 0 <= n < next.len() && next[n] == active[j];
                    assert(next[n].start_x <= px);
                } else {
                    let r = active[j].closed(x);
                    assert(after.contains(r));
                    let n = choose|n: int| 0 <= n < after.len() && after[n] == r;
                    assert(after[n].contains(px, py));
                }
            }
        } else {
            assert(in_gaps(gaps, py));
            let g = choose|g: int| 0 <= g < gaps.len() && #[trigger] gaps[g].holds(py);
            assert(has_interval(next, gaps[g].top, gaps[g].bottom));
            let n = choose|n: int|
                0 <= n < next.len() && (#[trigger] next[n]).top == gaps[g].top && next[n].bottom
                    == gaps[g].bottom;
            assert(continues(active, gaps, x, next[n]));
            if active.contains(next[n]) {
                let j = choose|j: int| 0 <= j < active.len() && active[j] == next[n];
                assert(section_free(base, sorted, active[j], x));
            }
            assert(next[n].start_x <= px);
        }
    }
}

/// For the cells of `base`, the obstructions that intersect it obstruct what
/// the whole list does.
pub proof fn lemma_relevant_suffice(base: Rect, all: Seq<Rect>, sorted: Seq<Rect>)
    requires
        forall|i: int| 0 <= i < sorted.len() ==> all.contains(#[trigger] sorted[i]),
        forall|j: int|
            0 <= j < all.len() && (#[trigger] all[j]).spec_intersects(&base) ==> sorted.contains(
                all[j],
            ),
    ensures
        forall|px: int, py: int| free(base, all, px, py) <==> free(base, sorted, px, py),
        forall|px: int, py: int| reported(base, all, px, py) <==> reported(base, sorted, px, py),
{
    assert forall|px: int, py: int| free(base, all, px, py) <==> free(base, sorted, px, py) by {
        if base.contains(px, py) {
            if covers(all, px, py) {
                let j = choose|j: int| 0 <= j < all.len() && #[trigger] all[j].contains(px, py);
                assert(all[j].spec_intersects(&base));
                let i = choose|i: int| 0 <= i < sorted.len() && sorted[i] == all[j];
                assert(sorted[i].contains(px, py));
            }
            if covers(sorted, px, py) {
                let i = choose|i: int| 0 <= i < sorted.len() && #[trigger] sorted[i].contains(px, py);
                let j = choose|j: int| 0 <= j < all.len() && all[j] == sorted[i];
                assert(all[j].contains(px, py));
            }
        }
    }
}

/// Once the sweep has passed the last column and its sections are closed,
/// the finished rectangles are a decomposition but for its last clause.
pub proof fn lemma_closed_is_decomposition(
    base: Rect,
    all: Seq<Rect>,
    sorted: Seq<Rect>,
    active: Seq<ActiveSection>,
    before: Seq<Rect>,
    out: Seq<Rect>,
)
    requires
        base.wf(),
        all_wf(all),
        forall|i: int| 0 <= i < sorted.len() ==> all.contains(#[trigger] sorted[i]),
        forall|j: int|
            0 <= j < all.len() && (#[trigger] all[j]).spec_intersects(&base) ==> sorted.contains(
                all[j],
            ),
        sweep_state(base, sorted, base.spec_right() + 1, active, before),
        out == before + closed_all(active, base.spec_right() + 1),
    ensures
        all_wf(out),
        forall|i: int| 0 <= i < out.len() ==> (#[trigger] out[i]).within(&base),
        forall|i: int, j: int|
            0 <= i < out.len() && 0 <= j < all.len() ==> !(#[trigger] out[i]).spec_intersects(
                #[trigger] &all[j],
            ),
        forall|px: int, py: int| #[trigger] covers(out, px, py) <==> reported(base, all, px, py),
{
    let h = base.spec_right() + 1;
    lemma_relevant_suffice(base, all, sorted);
    assert forall|n: int| 0 <= n < out.len() implies rect_reported(base, sorted, #[trigger] out[n]) by {
        if n < before.len() {
            assert(out[n] == before[n]);
        } else {
            let j = n - before.len();
            assert(out[n] == active[j].closed(h));
            assert(section_free(base, sorted, active[j], h));
        }
    }
    assert forall|px: int, py: int| #[trigger]
        covers(out, px, py) <==> reported(base, all, px, py) by {
        if covers(out, px, py) {
            let n = choose|n: int| 0 <= n < out.len() && #[trigger] out[n].contains(px, py);
            assert(rect_reported(base, sorted, out[n]));
        }
        if reported(base, sorted, px, py) {
            if covers(before, px, py) {
                let n = choose|n: int| 0 <= n < before.len() && #[trigger] before[n].contains(px, py);
                assert(out[n].contains(px, py));
            } else {
                assert(in_sections(active, px, py));
                let j = choose|j: int|
                    0 <= j < active.len() && (#[trigger] active[j]).start_x <= px
                        && active[j].bottom <= py <= active[j].top;
                assert(section_free(base, sorted, active[j], h));
                assert(out[before.len() + j] == active[j].closed(h));
                assert(out[before.len() + j].contains(px, py));
            }
        }
    }
    assert forall|i: int, j: int| 0 <= i < out.len() && 0 <= j < all.len() implies !(
    #[trigger] out[i]).spec_intersects(#[trigger] &all[j]) by {
        assert(rect_reported(base, sorted, out[i]));
        assert(all[j].wf());
        lemma_intersects_iff_shared_cell(out[i], all[j]);
        if out[i].spec_intersects(&all[j]) {
            let (px, py) = choose|px: int, py: int| #[trigger]
                out[i].contains(px, py) && all[j].contains(px, py);
            assert(reported(base, sorted, px, py));
            assert(all[j].contains(px, py));
            assert(covers(all, px, py));
        }
    }
    assert forall|i: int| 0 <= i < out.len() implies (#[trigger] out[i]).wf() && out[i].within(
        &base,
    ) by {
        assert(rect_reported(base, sorted, out[i]));
    }
}

impl Rect {
    /// The part of this rectangle that no obstruction covers, as rectangles.
    ///
    /// The result has exactly the reported free cells: every cell of `self`
    /// that no obstruction has, except a free cell of the bottom row whose
    /// upper neighbour is obstructed or outside `self`. The rectangles may
    /// share cells with one another.
    pub fn unobstructed_rects(&self, other_rect: &[&Rect]) -> (out: Vec<Rect>)
        requires
            self.wf(),
            all_wf(rects_of(other_rect@)),
        ensures
            is_decomposition(*self, rects_of(other_rect@), out@),
            is_sweep_result(*self, rects_of(other_rect@), out@),
    {
        let ghost all = rects_of(other_rect@);
        let sorted: Vec<Rect> = relevant_obstructions(self, other_rect);
        let points: Vec<i64> = sweep_coordinates(self, &sorted);
        let ghost alone = all.len() == 0 && self.height > 1;
        let ghost whole = ActiveSection {
            start_x: self.x,
            top: self.spec_top() as i64,
            bottom: self.y,
        };
        proof {
            if all.len() == 0 {
                if sorted.len() > 0 {
                    assert(all.contains(sorted[0]));
                }
                if points.len() > 1 {
                    assert(points@.contains(points[1]));
                    assert(points[0] < points[1]);
                }
            }
        }
        let mut active: Vec<ActiveSection> = Vec::new();
        let mut out: Vec<Rect> = Vec::new();
        let mut i: usize = 0;
        while i < points.len()
            invariant
                0 <= i <= points.len(),
                self.wf(),
                prepared(*self, sorted@),
                are_sweep_coordinates(*self, sorted@, points@),
                sweep_state(*self, sorted@, horizon(*self, points@, i as int), active@, out@),
                sweep_reaches(*self, sorted@, points@, i as nat, active@, out@),
                alone == (all.len() == 0 && self.height > 1),
                all.len() == 0 ==> sorted.len() == 0 && points.len() == 1,
                whole == (ActiveSection {
                    start_x: self.x,
                    top: self.spec_top() as i64,
                    bottom: self.y,
                }),
                alone ==> out.len() == 0,
                alone && i == 0 ==> active.len() == 0,
                alone && i == 1 ==> active@ == seq![whole],
            decreases points.len() - i,
        {
            let x: i64 = points[i];
            proof {
                assert(points@.contains(x));
                assert(is_sweep_coordinate(*self, sorted@, x as int));
                assert forall|n: int| 0 <= n < active.len() implies (#[trigger] active[n]).within(
                    *self,
                ) && active[n].start_x < x by {
                    assert(section_free(*self, sorted@, active[n], x as int));
                }
            }
            let gaps: Vec<Gap> = gaps_at(self, &sorted, x);
            let ghost before = out@;
            let next: Vec<ActiveSection> = advance(self, &active, &gaps, x, &mut out);
            proof {
                assert(is_gap_list(*self, sorted@, points[i as int] as int, gaps@));
                if alone {
                    reveal_with_fuel(opened, 2);
                    let none = Seq::<ActiveSection>::empty();
                    assert(none + none =~= none);
                    assert(out@ =~= before);
                    assert(next@ =~= seq![whole]);
                }
                lemma_sweep_reaches_next(
                    *self,
                    sorted@,
                    points@,
                    (i + 1) as nat,
                    active@,
                    before,
                    gaps@,
                    next@,
                    out@,
                );
                lemma_step_keeps_state(
                    *self,
                    sorted@,
                    points@,
                    i as int,
                    active@,
                    gaps@,
                    before,
                    out@,
                    next@,
                );
            }
            active = next;
            i += 1;
        }
        let ghost before = out@;
        proof {
            assert forall|n: int| 0 <= n < active.len() implies (#[trigger] active[n]).within(
                *self,
            ) by {
                assert(section_free(*self, sorted@, active[n], self.spec_right() + 1));
            }
        }
        close_sections(self, &active, &mut out);
        proof {
            lemma_closed_is_decomposition(*self, all, sorted@, active@, before, out@);
            assert(relevant(*self, all, sorted@));
            assert(sweep_reaches(*self, sorted@, points@, points@.len(), active@, before));
            assert(is_sweep_result(*self, all, out@));
            if alone {
                assert(out@ =~= seq![*self]);
            }
        }
        out
    }
}

} // verus!
