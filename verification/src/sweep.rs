//! The pieces of the column sweep: the cells an obstruction list leaves free,
//! the obstructions that matter for a base rectangle, the columns at which
//! the free profile can change, and the free intervals of one column.

use crate::rect::Rect;
use vstd::prelude::*;

verus! {

/// A maximal vertical interval of one column, `bottom..=top`, that the sweep
/// found free.
#[derive(Debug, Clone, Copy, PartialEq, Eq, Structural)]
pub struct Gap {
    pub top: i64,
    pub bottom: i64,
}

impl Gap {
    /// Whether row `py` lies in the interval.
    pub open spec fn holds(&self, py: int) -> bool {
        self.bottom <= py <= self.top
    }
}

/// The rectangles behind a sequence of references.
pub open spec fn rects_of(refs: Seq<&Rect>) -> Seq<Rect> {
    Seq::new(refs.len(), |i: int| *refs[i])
}

/// Whether some rectangle of `rects` has the cell `(px, py)`.
pub open spec fn covers(rects: Seq<Rect>, px: int, py: int) -> bool {
    exists|i: int| 0 <= i < rects.len() && #[trigger] rects[i].contains(px, py)
}

/// Whether `(px, py)` is a cell of `base` that no obstruction has.
pub open spec fn free(base: Rect, obstructions: Seq<Rect>, px: int, py: int) -> bool {
    base.contains(px, py) && !covers(obstructions, px, py)
}

/// The free cells that the sweep reports: every free cell above the bottom
/// row of `base`, and a free cell of the bottom row when the cell above it
/// is free too. A free interval of a column that consists of the bottom row
/// alone is not reported.
pub open spec fn reported(base: Rect, obstructions: Seq<Rect>, px: int, py: int) -> bool {
    free(base, obstructions, px, py) && (py > base.spec_bottom() || free(
        base,
        obstructions,
        px,
        py + 1,
    ))
}

/// Whether some gap of `gaps` holds row `py`.
pub open spec fn in_gaps(gaps: Seq<Gap>, py: int) -> bool {
    exists|g: int| 0 <= g < gaps.len() && #[trigger] gaps[g].holds(py)
}

/// Every rectangle is well formed.
pub open spec fn all_wf(rects: Seq<Rect>) -> bool {
    forall|i: int| 0 <= i < rects.len() ==> (#[trigger] rects[i]).wf()
}

/// No rectangle has a higher top than one before it.
pub open spec fn descending_by_top(rects: Seq<Rect>) -> bool {
    forall|i: int, j: int|
        0 <= i < j < rects.len() ==> (#[trigger] rects[i]).spec_top() >= (
        #[trigger] rects[j]).spec_top()
}

/// What the sweep asks of its obstruction list: well-formed rectangles that
/// intersect `base`, ordered by descending top.
pub open spec fn prepared(base: Rect, sorted: Seq<Rect>) -> bool {
    &&& all_wf(sorted)
    &&& descending_by_top(sorted)
    &&& forall|i: int| 0 <= i < sorted.len() ==> (#[trigger] sorted[i]).spec_intersects(&base)
}

/// Inserting into a sequence keeps what stood before the position, puts the
/// new item at it, and moves the rest up by one.
pub proof fn lemma_insert_indices<A>(s: Seq<A>, p: int, a: A)
    requires
        0 <= p <= s.len(),
    ensures
        s.insert(p, a).len() == s.len() + 1,
        s.insert(p, a)[p] == a,
        forall|i: int| 0 <= i < p ==> #[trigger] s.insert(p, a)[i] == s[i],
        forall|i: int| p < i <= s.len() ==> #[trigger] s.insert(p, a)[i] == s[i - 1],
        forall|i: int| 0 <= i < p ==> #[trigger] s[i] == s.insert(p, a)[i],
        forall|i: int| p <= i < s.len() ==> #[trigger] s[i] == s.insert(p, a)[i + 1],
{
}

/// Of the first `k` rectangles, those that intersect `base`, in their order.
pub open spec fn intersecting(all: Seq<Rect>, k: int, base: Rect) -> Seq<Rect>
    decreases k,
{
    if k <= 0 {
        Seq::empty()
    } else if all[k - 1].spec_intersects(&base) {
        intersecting(all, k - 1, base).push(all[k - 1])
    } else {
        intersecting(all, k - 1, base)
    }
}

/// Keeps the obstructions that intersect `base`, each as often as it is
/// given, ordered by descending top.
pub fn relevant_obstructions(base: &Rect, obstructions: &[&Rect]) -> (sorted: Vec<Rect>)
    requires
        base.wf(),
        all_wf(rects_of(obstructions@)),
    ensures
        prepared(*base, sorted@),
        sorted@.to_multiset() == intersecting(
            rects_of(obstructions@),
            obstructions.len() as int,
            *base,
        ).to_multiset(),
        forall|i: int| 0 <= i < sorted.len() ==> rects_of(obstructions@).contains(#[trigger] sorted[i]),
        forall|j: int|
            0 <= j < obstructions.len() && (#[trigger] rects_of(obstructions@)[j]).spec_intersects(base)
                ==> sorted@.contains(rects_of(obstructions@)[j]),
{
    let ghost obs = rects_of(obstructions@);
    let mut sorted: Vec<Rect> = Vec::new();
    let mut k: usize = 0;
    while k < obstructions.len()
        invariant
            0 <= k <= obstructions.len(),
            obs == rects_of(obstructions@),
            base.wf(),
            all_wf(obs),
            prepared(*base, sorted@),
            sorted@.to_multiset() == intersecting(obs, k as int, *base).to_multiset(),
            forall|i: int| 0 <= i < sorted.len() ==> obs.contains(#[trigger] sorted[i]),
            forall|j: int|
                0 <= j < k && (#[trigger] obs[j]).spec_intersects(base) ==> sorted@.contains(obs[j]),
        decreases obstructions.len() - k,
    {
        let r: Rect = *obstructions[k];
        assert(r == obs[k as int]);
        assert(r.wf());
        if r.intersects(base) {
            let mut p: usize = 0;
            while p < sorted.len() && sorted[p].top() >= r.top()
                invariant
                    0 <= p <= sorted.len(),
                    r.wf(),
                    all_wf(sorted@),
                    forall|i: int| 0 <= i < p ==> (#[trigger] sorted[i]).spec_top() >= r.spec_top(),
                decreases sorted.len() - p,
            {
                p += 1;
            }
            let ghost before = sorted@;
            sorted.insert(p, r);
            proof {
                lemma_insert_indices(before, p as int, r);
                vstd::seq_lib::to_multiset_insert(before, p as int, r);
                vstd::seq_lib::to_multiset_build(intersecting(obs, k as int, *base), r);
                assert forall|i: int| 0 <= i < sorted.len() implies obs.contains(
                    #[trigger] sorted[i],
                ) by {
                    if i < p {
                        assert(sorted[i] == before[i]);
                    } else if i > p {
                        assert(sorted[i] == before[i - 1]);
                    }
                }
                assert forall|j: int| 0 <= j < k + 1 && (#[trigger] obs[j]).spec_intersects(
                    base,
                ) implies sorted@.contains(obs[j]) by {
                    if j < k {
                        let i = choose|i: int| 0 <= i < before.len() && before[i] == obs[j];
                        if i < p {
                            assert(sorted[i] == obs[j]);
                        } else {
                            assert(sorted[i + 1] == obs[j]);
                        }
                    } else {
                        assert(sorted[p as int] == obs[j]);
                    }
                }
            }
        }
        k += 1;
    }
    sorted
}

/// Each coordinate is smaller than the next.
pub open spec fn strictly_ascending(points: Seq<i64>) -> bool {
    forall|a: int, b: int| 0 <= a < b < points.len() ==> points[a] < points[b]
}

/// Whether the free profile of `base` can change at column `v`: `v` is a
/// column of `base`, and it is the left edge of `base`, the left edge of an
/// obstruction, or the column after the right edge of one.
pub open spec fn is_sweep_coordinate(base: Rect, sorted: Seq<Rect>, v: int) -> bool {
    &&& base.spec_left() <= v <= base.spec_right()
    &&& (v == base.spec_left() || exists|i: int|
        0 <= i < sorted.len() && ((#[trigger] sorted[i]).spec_left() == v || sorted[i].spec_right()
            + 1 == v))
}

/// Puts `v` into an ascending list in its place, unless it is there already.
pub fn insert_coordinate(points: &mut Vec<i64>, v: i64)
    requires
        strictly_ascending(old(points)@),
    ensures
        strictly_ascending(final(points)@),
        forall|w: i64| final(points)@.contains(w) <==> (old(points)@.contains(w) || w == v),
{
    let mut p: usize = 0;
    while p < points.len() && points[p] < v
        invariant
            0 <= p <= points.len(),
            forall|i: int| 0 <= i < p ==> #[trigger] points[i] < v,
        decreases points.len() - p,
    {
        p += 1;
    }
    if p < points.len() && points[p] == v {
        assert(points@.contains(v));
        return ;
    }
    let ghost before = points@;
    points.insert(p, v);
    proof {
        lemma_insert_indices(before, p as int, v);
        assert forall|w: i64| points@.contains(w) <==> (before.contains(w) || w == v) by {
            if points@.contains(w) {
                let i = choose|i: int| 0 <= i < points.len() && points[i] == w;
                if i < p {
                    assert(before[i] == w);
                } else if i > p {
                    assert(before[i - 1] == w);
                }
            }
            if before.contains(w) {
                let i = choose|i: int| 0 <= i < before.len() && before[i] == w;
                if i < p {
                    assert(points[i] == w);
                } else {
                    assert(points[i + 1] == w);
                }
            }
            if w == v {
                assert(points[p as int] == w);
            }
        }
        assert forall|a: int, b: int| 0 <= a < b < points.len() implies points[a] < points[b] by {
            let a0 = if a < p { a } else { a - 1 };
            let b0 = if b < p { b } else { b - 1 };
            if a != p && b != p {
                assert(before[a0] < before[b0]);
            }
        }
    }
}

/// Whether `points` are the sweep coordinates of `base`, in ascending order
/// and each once; the left edge of `base` is the first.
pub open spec fn are_sweep_coordinates(base: Rect, sorted: Seq<Rect>, points: Seq<i64>) -> bool {
    &&& strictly_ascending(points)
    &&& points.len() > 0
    &&& points[0] == base.spec_left()
    &&& forall|v: i64| points.contains(v) <==> is_sweep_coordinate(base, sorted, v as int)
}

/// The columns of `base`, in ascending order and each once, at which the
/// free profile can change.
pub fn sweep_coordinates(base: &Rect, sorted: &Vec<Rect>) -> (points: Vec<i64>)
    requires
        base.wf(),
        prepared(*base, sorted@),
    ensures
        are_sweep_coordinates(*base, sorted@, points@),
{
    let mut points: Vec<i64> = Vec::new();
    points.push(base.left());
    assert(points@.contains(base.x)) by {
        assert(points[0] == base.x);
    }
    let mut k: usize = 0;
    while k < sorted.len()
        invariant
            0 <= k <= sorted.len(),
            base.wf(),
            prepared(*base, sorted@),
            strictly_ascending(points@),
            forall|v: i64|
                points@.contains(v) <==> is_sweep_coordinate(*base, sorted@.take(k as int), v as int),
        decreases sorted.len() - k,
    {
        let r: Rect = sorted[k];
        assert(r.wf() && r.spec_intersects(base));
        let ghost before = points@;
        let ghost seen = sorted@.take(k as int);
        let ghost next = sorted@.take(k + 1);
        let left_in: bool = base.left() <= r.left();
        if left_in {
            insert_coordinate(&mut points, r.left());
        }
        let right_in: bool = r.right() < base.right();
        if right_in {
            insert_coordinate(&mut points, r.right() + 1);
        }
        proof {
            assert(next[k as int] == r);
            assert forall|v: i64| points@.contains(v) <==> is_sweep_coordinate(
                *base,
                next,
                v as int,
            ) by {
                if is_sweep_coordinate(*base, seen, v as int) && v != base.x {
                    let i = choose|i: int|
                        0 <= i < seen.len() && ((#[trigger] seen[i]).spec_left() == v
                            || seen[i].spec_right() + 1 == v);
                    assert(next[i] == seen[i]);
                }
                if is_sweep_coordinate(*base, next, v as int) && v != base.x {
                    let i = choose|i: int|
                        0 <= i < next.len() && ((#[trigger] next[i]).spec_left() == v
                            || next[i].spec_right() + 1 == v);
                    if i < k {
                        assert(seen[i] == next[i]);
                    }
                }
            }
        }
        k += 1;
    }
    assert(sorted@.take(k as int) == sorted@);
    proof {
        assert(is_sweep_coordinate(*base, sorted@, base.x as int));
        assert(points@.contains(base.x));
        let i = choose|i: int| 0 <= i < points.len() && points[i] == base.x;
        let v0 = points[0];
        assert(points@.contains(v0));
        if i > 0 {
            assert(points[0] < points[i]);
        }
    }
    points
}

/// Whether column `x` crosses the rectangle.
pub open spec fn spans(r: Rect, x: int) -> bool {
    r.spec_left() <= x <= r.spec_right()
}

/// Whether one of the first `k` rectangles has the cell `(px, py)`.
pub open spec fn covers_upto(rects: Seq<Rect>, k: int, px: int, py: int) -> bool {
    exists|i: int| 0 <= i < k && i < rects.len() && #[trigger] rects[i].contains(px, py)
}

/// The gaps lie in the rows of `base`, one below the other from the top down,
/// with at least one row between each two.
pub open spec fn gaps_descend_in(base: Rect, gaps: Seq<Gap>) -> bool {
    &&& forall|g: int|
        0 <= g < gaps.len() ==> base.spec_bottom() <= (#[trigger] gaps[g]).bottom <= gaps[g].top
            <= base.spec_top()
    &&& forall|g: int, h: int|
        0 <= g < h < gaps.len() ==> (#[trigger] gaps[g]).bottom > (#[trigger] gaps[h]).top + 1
}

/// Whether `gaps` are the reported free intervals of column `x`, from the top
/// down.
pub open spec fn is_gap_list(base: Rect, sorted: Seq<Rect>, x: int, gaps: Seq<Gap>) -> bool {
    &&& gaps_descend_in(base, gaps)
    &&& forall|py: int| in_gaps(gaps, py) <==> reported(base, sorted, x, py)
}

/// The free intervals of column `x` that the sweep reports, from the top down.
pub fn gaps_at(base: &Rect, sorted: &Vec<Rect>, x: i64) -> (gaps: Vec<Gap>)
    requires
        base.wf(),
        prepared(*base, sorted@),
        base.spec_left() <= x <= base.spec_right(),
    ensures
        is_gap_list(*base, sorted@, x as int, gaps@),
        sorted.len() == 0 && base.height > 1 ==> gaps@ == seq![
            (Gap { top: base.spec_top() as i64, bottom: base.y }),
        ],
{
    let mut gaps: Vec<Gap> = Vec::new();
    let top: i64 = base.top();
    let bottom: i64 = base.bottom();
    let mut last_pos: i128 = top as i128;
    let mut k: usize = 0;
    while k < sorted.len()
        invariant
            0 <= k <= sorted.len(),
            base.wf(),
            prepared(*base, sorted@),
            base.spec_left() <= x <= base.spec_right(),
            top == base.spec_top(),
            bottom == base.spec_bottom(),
            i64::MIN - 1 <= last_pos <= top,
            sorted.len() == 0 ==> gaps.len() == 0 && last_pos == top,
            forall|i: int|
                0 <= i < k && spans(#[trigger] sorted[i], x as int) ==> sorted[i].spec_bottom()
                    > last_pos,
            last_pos == top || exists|i: int|
                0 <= i < k && spans(#[trigger] sorted[i], x as int) && sorted[i].spec_bottom() - 1
                    == last_pos,
            forall|g: int|
                0 <= g < gaps.len() ==> bottom < (#[trigger] gaps[g]).bottom <= gaps[g].top <= top
                    && gaps[g].bottom > last_pos + 1,
            forall|g: int, h: int|
                0 <= g < h < gaps.len() ==> (#[trigger] gaps[g]).bottom > (#[trigger] gaps[h]).top
                    + 1,
            forall|g: int, i: int|
                0 <= g < gaps.len() && k <= i < sorted.len() ==> (#[trigger] gaps[g]).bottom > (
                #[trigger] sorted[i]).spec_top(),
            forall|g: int, i: int|
                0 <= g < gaps.len() && 0 <= i < k && spans(#[trigger] sorted[i], x as int) ==> (
                #[trigger] gaps[g]).bottom > sorted[i].spec_top() || gaps[g].top
                    < sorted[i].spec_bottom(),
            forall|py: int|
                last_pos < py <= top ==> in_gaps(gaps@, py) || covers_upto(
                    sorted@,
                    k as int,
                    x as int,
                    py,
                ),
        decreases sorted.len() - k,
    {
        let r: Rect = sorted[k];
        assert(r.wf() && r.spec_intersects(base));
        if r.left() <= x && x <= r.right() {
            let ghost old_gaps = gaps@;
            let ghost old_pos = last_pos;
            if (r.top() as i128) < last_pos {
                gaps.push(Gap { top: last_pos as i64, bottom: r.top() + 1 });
            }
            let below: i128 = r.bottom() as i128 - 1;
            if below < last_pos {
                last_pos = below;
            }
            proof {
                assert(spans(sorted[k as int], x as int));
                assert forall|py: int| last_pos < py <= top implies in_gaps(gaps@, py)
                    || covers_upto(sorted@, k + 1, x as int, py) by {
                    if py > old_pos {
                        if in_gaps(old_gaps, py) {
                            let g = choose|g: int|
                                0 <= g < old_gaps.len() && #[trigger] old_gaps[g].holds(py);
                            assert(gaps[g].holds(py));
                        } else {
                            assert(covers_upto(sorted@, k as int, x as int, py));
                            let i = choose|i: int|
                                0 <= i < k && i < sorted.len() && #[trigger] sorted[i].contains(
                                    x as int,
                                    py,
                                );
                            assert(sorted[i].contains(x as int, py));
                        }
                    } else if py <= r.spec_top() {
                        assert(sorted[k as int].contains(x as int, py));
                    } else {
                        assert(gaps[gaps.len() - 1].holds(py));
                    }
                }
            }
        } else {
            proof {
                assert forall|py: int| last_pos < py <= top implies in_gaps(gaps@, py)
                    || covers_upto(sorted@, k + 1, x as int, py) by {
                    if !in_gaps(gaps@, py) {
                        let i = choose|i: int|
                            0 <= i < k && i < sorted.len() && #[trigger] sorted[i].contains(
                                x as int,
                                py,
                            );
                        assert(sorted[i].contains(x as int, py));
                    }
                }
            }
        }
        k += 1;
    }
    let ghost swept = gaps@;
    if last_pos > bottom as i128 {
        gaps.push(Gap { top: last_pos as i64, bottom });
    }
    proof {
        assert forall|py: int| in_gaps(gaps@, py) implies reported(
            *base,
            sorted@,
            x as int,
            py,
        ) by {
            let g = choose|g: int| 0 <= g < gaps.len() && #[trigger] gaps[g].holds(py);
            assert forall|i: int| 0 <= i < sorted.len() implies !(#[trigger] sorted[i]).contains(
                x as int,
                py,
            ) by {
                if spans(sorted[i], x as int) {
                    if g < swept.len() {
                        assert(gaps[g] == swept[g]);
                    }
                }
            }
            if py == bottom {
                assert(g == swept.len());
                assert forall|i: int| 0 <= i < sorted.len() implies !(
                #[trigger] sorted[i]).contains(x as int, py + 1) by {}
            }
        }
        assert forall|py: int| reported(*base, sorted@, x as int, py) implies in_gaps(
            gaps@,
            py,
        ) by {
            if py > last_pos {
                if in_gaps(swept, py) {
                    let g = choose|g: int| 0 <= g < swept.len() && #[trigger] swept[g].holds(py);
                    assert(gaps[g].holds(py));
                } else {
                    let i = choose|i: int|
                        0 <= i < k && i < sorted.len() && #[trigger] sorted[i].contains(
                            x as int,
                            py,
                        );
                    assert(sorted[i].contains(x as int, py));
                    assert(false);
                }
            } else if last_pos > bottom {
                assert(gaps[gaps.len() - 1].holds(py));
            } else {
                assert(py == bottom && last_pos == bottom);
                assert(base.contains(x as int, py + 1));
                let i = choose|i: int|
                    0 <= i < k && spans(#[trigger] sorted[i], x as int) && sorted[i].spec_bottom()
                        - 1 == last_pos;
                assert(sorted[i].contains(x as int, py + 1));
                assert(false);
            }
        }
        if sorted.len() == 0 && base.height > 1 {
            assert(gaps@ =~= seq![(Gap { top: base.spec_top() as i64, bottom: base.y })]);
        }
    }
    gaps
}

} // verus!
