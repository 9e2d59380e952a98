//! Laws of the decomposition, each proved from what `unobstructed_rects`
//! promises of its result.

use crate::decompose::{
    is_decomposition, is_sweep_result, lemma_relevant_suffice, relevant, sweep_reaches,
};
use crate::rect::Rect;
use crate::sweep::{
    are_sweep_coordinates, covers, free, gaps_descend_in, in_gaps, is_gap_list,
    is_sweep_coordinate, lemma_insert_indices, reported, strictly_ascending, Gap,
};
use crate::tracker::{closed_all, is_step, sorted_by_start, ActiveSection};
use vstd::prelude::*;

verus! {

/// Where every free cell of the bottom row of `base` has a free cell above
/// it, the rectangles of a decomposition together have exactly the cells of
/// `base` that no obstruction has.
pub proof fn law_coverage(base: Rect, obstructions: Seq<Rect>, out: Seq<Rect>)
    requires
        is_decomposition(base, obstructions, out),
        forall|px: int| #[trigger]
            free(base, obstructions, px, base.spec_bottom()) ==> free(
                base,
                obstructions,
                px,
                base.spec_bottom() + 1,
            ),
    ensures
        forall|px: int, py: int| covers(out, px, py) <==> free(base, obstructions, px, py),
{
    assert forall|px: int, py: int| covers(out, px, py) <==> free(base, obstructions, px, py) by {
        assert(covers(out, px, py) <==> reported(base, obstructions, px, py));
        if free(base, obstructions, px, py) && py == base.spec_bottom() {
            assert(free(base, obstructions, px, base.spec_bottom()));
        }
    }
}

/// A free cell of the bottom row of `base` whose upper neighbour is
/// obstructed, or outside `base`, is in no rectangle of a decomposition.
pub proof fn law_lone_bottom_cell_is_left_out(
    base: Rect,
    obstructions: Seq<Rect>,
    out: Seq<Rect>,
    px: int,
)
    requires
        is_decomposition(base, obstructions, out),
        !free(base, obstructions, px, base.spec_bottom() + 1),
    ensures
        !covers(out, px, base.spec_bottom()),
{
    assert(covers(out, px, base.spec_bottom()) <==> reported(
        base,
        obstructions,
        px,
        base.spec_bottom(),
    ));
}

/// Every rectangle of a decomposition has a cell, lies within `base`, and
/// shares no cell with an obstruction.
pub proof fn law_containment(base: Rect, obstructions: Seq<Rect>, out: Seq<Rect>, i: int)
    requires
        is_decomposition(base, obstructions, out),
        0 <= i < out.len(),
    ensures
        out[i].width > 0,
        out[i].height > 0,
        out[i].within(&base),
        forall|px: int, py: int| out[i].contains(px, py) ==> !covers(obstructions, px, py),
        forall|j: int| 0 <= j < obstructions.len() ==> !out[i].spec_intersects(&obstructions[j]),
{
    assert(out[i].wf());
    assert forall|px: int, py: int| out[i].contains(px, py) implies !covers(
        obstructions,
        px,
        py,
    ) by {
        assert(covers(out, px, py));
        assert(reported(base, obstructions, px, py));
    }
}

/// A base of a single row that nothing obstructs has the empty decomposition.
pub proof fn law_single_row_alone_is_empty(base: Rect, out: Seq<Rect>)
    requires
        base.height == 1,
        is_decomposition(base, Seq::<Rect>::empty(), out),
    ensures
        out.len() == 0,
{
    if out.len() > 0 {
        let r = out[0];
        assert(r.wf());
        assert(r.contains(r.spec_left(), r.spec_bottom()));
        assert(covers(out, r.spec_left(), r.spec_bottom()));
        assert(reported(base, Seq::<Rect>::empty(), r.spec_left(), r.spec_bottom()));
        assert(r.within(&base));
    }
}

/// Where one obstruction is the base itself, the decomposition is empty.
pub proof fn law_full_cover_is_empty(base: Rect, out: Seq<Rect>)
    requires
        base.wf(),
        is_decomposition(base, seq![base], out),
    ensures
        out.len() == 0,
{
    if out.len() > 0 {
        let r = out[0];
        let obstructions = seq![base];
        assert(r.wf());
        assert(r.within(&base));
        assert(obstructions[0] == base);
        assert(!out[0].spec_intersects(&obstructions[0]));
    }
}

/// An obstruction that does not intersect `base` changes nothing: a
/// decomposition under the other obstructions is one under the list with it,
/// wherever in the list it stands, and any decomposition under that list has
/// the same cells.
pub proof fn law_outside_obstruction_has_no_effect(
    base: Rect,
    obstructions: Seq<Rect>,
    outside: Rect,
    k: int,
    out: Seq<Rect>,
    other: Seq<Rect>,
)
    requires
        !outside.spec_intersects(&base),
        0 <= k <= obstructions.len(),
        is_decomposition(base, obstructions, out),
        is_decomposition(base, obstructions.insert(k, outside), other),
    ensures
        is_decomposition(base, obstructions.insert(k, outside), out),
        forall|px: int, py: int| covers(out, px, py) <==> covers(other, px, py),
{
    let with = obstructions.insert(k, outside);
    lemma_insert_indices(obstructions, k, outside);
    assert forall|px: int, py: int| free(base, with, px, py) <==> free(
        base,
        obstructions,
        px,
        py,
    ) by {
        if base.contains(px, py) {
            if covers(with, px, py) {
                let j = choose|j: int| 0 <= j < with.len() && #[trigger] with[j].contains(px, py);
                if j < k {
                    assert(obstructions[j].contains(px, py));
                } else if j > k {
                    assert(obstructions[j - 1].contains(px, py));
                }
            }
            if covers(obstructions, px, py) {
                let j = choose|j: int|
                    0 <= j < obstructions.len() && #[trigger] obstructions[j].contains(px, py);
                if j < k {
                    assert(with[j].contains(px, py));
                } else {
                    assert(with[j + 1].contains(px, py));
                }
            }
        }
    }
    assert forall|px: int, py: int| #[trigger]
        covers(out, px, py) <==> reported(base, with, px, py) by {
        assert(covers(out, px, py) <==> reported(base, obstructions, px, py));
    }
    assert forall|i: int, j: int| 0 <= i < out.len() && 0 <= j < with.len() implies !(
    #[trigger] out[i]).spec_intersects(#[trigger] &with[j]) by {
        assert(out[i].within(&base));
        if j < k {
            assert(with[j] == obstructions[j]);
        } else if j > k {
            assert(with[j] == obstructions[j - 1]);
        }
    }
    assert forall|px: int, py: int| covers(out, px, py) <==> covers(other, px, py) by {
        assert(covers(out, px, py) <==> reported(base, with, px, py));
        assert(covers(other, px, py) <==> reported(base, with, px, py));
    }
}

/// With an obstruction that does not intersect `base`, wherever in the list
/// it stands, the sweep leaves what it leaves without it.
pub proof fn law_outside_obstruction_leaves_the_sweep(
    base: Rect,
    obstructions: Seq<Rect>,
    outside: Rect,
    k: int,
    out: Seq<Rect>,
)
    requires
        !outside.spec_intersects(&base),
        0 <= k <= obstructions.len(),
    ensures
        is_sweep_result(base, obstructions.insert(k, outside), out) <==> is_sweep_result(
            base,
            obstructions,
            out,
        ),
{
    let with = obstructions.insert(k, outside);
    lemma_insert_indices(obstructions, k, outside);
    assert forall|sorted: Seq<Rect>| relevant(base, with, sorted) <==> relevant(
        base,
        obstructions,
        sorted,
    ) by {
        if relevant(base, with, sorted) {
            assert forall|i: int| 0 <= i < sorted.len() implies obstructions.contains(
                #[trigger] sorted[i],
            ) by {
                let j = choose|j: int| 0 <= j < with.len() && with[j] == sorted[i];
                assert(sorted[i].spec_intersects(&base));
                if j < k {
                    assert(obstructions[j] == sorted[i]);
                } else {
                    assert(obstructions[j - 1] == sorted[i]);
                }
            }
            assert forall|j: int|
                0 <= j < obstructions.len() && (#[trigger] obstructions[j]).spec_intersects(
                    &base,
                ) implies sorted.contains(obstructions[j]) by {
                if j < k {
                    assert(with[j] == obstructions[j]);
                } else {
                    assert(with[j + 1] == obstructions[j]);
                }
            }
        }
        if relevant(base, obstructions, sorted) {
            assert forall|i: int| 0 <= i < sorted.len() implies with.contains(
                #[trigger] sorted[i],
            ) by {
                let j = choose|j: int| 0 <= j < obstructions.len() && obstructions[j] == sorted[i];
                if j < k {
                    assert(with[j] == sorted[i]);
                } else {
                    assert(with[j + 1] == sorted[i]);
                }
            }
            assert forall|j: int|
                0 <= j < with.len() && (#[trigger] with[j]).spec_intersects(
                    &base,
                ) implies sorted.contains(with[j]) by {
                if j < k {
                    assert(with[j] == obstructions[j]);
                } else if j > k {
                    assert(with[j] == obstructions[j - 1]);
                }
            }
        }
    }
    if is_sweep_result(base, with, out) {
        let (sorted, points, active, before) = choose|
            sorted: Seq<Rect>,
            points: Seq<i64>,
            active: Seq<ActiveSection>,
            before: Seq<Rect>,
        |
            #![trigger sweep_reaches(base, sorted, points, points.len(), active, before)]
            relevant(base, with, sorted) && are_sweep_coordinates(base, sorted, points)
                && sweep_reaches(base, sorted, points, points.len(), active, before) && out
                == before + closed_all(active, base.spec_right() + 1);
        assert(relevant(base, obstructions, sorted));
        assert(sweep_reaches(base, sorted, points, points.len(), active, before));
    }
    if is_sweep_result(base, obstructions, out) {
        let (sorted, points, active, before) = choose|
            sorted: Seq<Rect>,
            points: Seq<i64>,
            active: Seq<ActiveSection>,
            before: Seq<Rect>,
        |
            #![trigger sweep_reaches(base, sorted, points, points.len(), active, before)]
            relevant(base, obstructions, sorted) && are_sweep_coordinates(base, sorted, points)
                && sweep_reaches(base, sorted, points, points.len(), active, before) && out
                == before + closed_all(active, base.spec_right() + 1);
        assert(relevant(base, with, sorted));
        assert(sweep_reaches(base, sorted, points, points.len(), active, before));
    }
}

/// Two decompositions of one base under one obstruction list have the same
/// cells, whatever the order of their rectangles.
pub proof fn law_rerun_has_same_cells(
    base: Rect,
    obstructions: Seq<Rect>,
    first: Seq<Rect>,
    second: Seq<Rect>,
)
    requires
        is_decomposition(base, obstructions, first),
        is_decomposition(base, obstructions, second),
    ensures
        forall|px: int, py: int| covers(first, px, py) <==> covers(second, px, py),
{
    assert forall|px: int, py: int| covers(first, px, py) <==> covers(second, px, py) by {
        assert(covers(first, px, py) <==> reported(base, obstructions, px, py));
        assert(covers(second, px, py) <==> reported(base, obstructions, px, py));
    }
}

/// Two descending lists of separated gaps that hold the same rows have the
/// same gap at each position of the first.
pub proof fn lemma_gaps_agree(base: Rect, a: Seq<Gap>, b: Seq<Gap>, m: int)
    requires
        gaps_descend_in(base, a),
        gaps_descend_in(base, b),
        forall|py: int| in_gaps(a, py) <==> in_gaps(b, py),
        0 <= m < a.len(),
    ensures
        m < b.len(),
        a[m] == b[m],
    decreases m,
{
    let r = a[m].top as int;
    assert(a[m].holds(r));
    assert(in_gaps(a, r));
    assert(in_gaps(b, r));
    let h = choose|h: int| 0 <= h < b.len() && #[trigger] b[h].holds(r);
    if h < m {
        lemma_gaps_agree(base, a, b, h);
        assert(a[h].bottom > a[m].top + 1);
        assert(false);
    }
    if h > m {
        assert(b[m].bottom > b[h].top + 1);
    }
    let r2 = b[m].top as int;
    assert(b[m].holds(r2));
    assert(in_gaps(b, r2));
    assert(in_gaps(a, r2));
    let h2 = choose|h2: int| 0 <= h2 < a.len() && #[trigger] a[h2].holds(r2);
    if h2 < m {
        lemma_gaps_agree(base, a, b, h2);
        assert(b[h2].bottom > b[m].top + 1);
        assert(false);
    }
    if h2 > m {
        assert(a[m].bottom > a[h2].top + 1);
    }
    assert(a[m].top == b[m].top);
    if b[m].bottom > a[m].bottom {
        let q = b[m].bottom - 1;
        assert(a[m].holds(q));
        assert(in_gaps(a, q));
        assert(in_gaps(b, q));
        let h3 = choose|h3: int| 0 <= h3 < b.len() && #[trigger] b[h3].holds(q);
        if h3 < m {
            assert(b[h3].bottom > b[m].top + 1);
        } else if h3 > m {
            assert(b[m].bottom > b[h3].top + 1);
        }
        assert(false);
    }
    if a[m].bottom > b[m].bottom {
        let q = a[m].bottom - 1;
        assert(b[m].holds(q));
        assert(in_gaps(b, q));
        assert(in_gaps(a, q));
        let h3 = choose|h3: int| 0 <= h3 < a.len() && #[trigger] a[h3].holds(q);
        if h3 < m {
            assert(a[h3].bottom > a[m].top + 1);
        } else if h3 > m {
            assert(a[m].bottom > a[h3].top + 1);
        }
        assert(false);
    }
}

/// A column has one list of reported gaps.
pub proof fn lemma_gap_list_unique(base: Rect, a: Seq<Gap>, b: Seq<Gap>)
    requires
        gaps_descend_in(base, a),
        gaps_descend_in(base, b),
        forall|py: int| in_gaps(a, py) <==> in_gaps(b, py),
    ensures
        a == b,
{
    if a.len() > 0 {
        lemma_gaps_agree(base, a, b, a.len() - 1);
    }
    if b.len() > 0 {
        lemma_gaps_agree(base, b, a, b.len() - 1);
    }
    assert forall|m: int| 0 <= m < a.len() implies a[m] == b[m] by {
        lemma_gaps_agree(base, a, b, m);
    }
    assert(a =~= b);
}

/// Two strictly ascending lists with the same members have the same member
/// at each position of the first.
pub proof fn lemma_points_agree(a: Seq<i64>, b: Seq<i64>, m: int)
    requires
        strictly_ascending(a),
        strictly_ascending(b),
        forall|v: i64| a.contains(v) <==> b.contains(v),
        0 <= m < a.len(),
    ensures
        m < b.len(),
        a[m] == b[m],
    decreases m,
{
    assert(a.contains(a[m]));
    let h = choose|h: int| 0 <= h < b.len() && b[h] == a[m];
    if h < m {
        lemma_points_agree(a, b, h);
        assert(a[h] < a[m]);
        assert(false);
    }
    if h > m {
        assert(b[m] < b[h]);
    }
    assert(b.contains(b[m]));
    let h2 = choose|h2: int| 0 <= h2 < a.len() && a[h2] == b[m];
    if h2 < m {
        lemma_points_agree(a, b, h2);
        assert(b[h2] < b[m]);
        assert(false);
    }
    if h2 > m {
        assert(a[m] < a[h2]);
    }
}

/// Over two obstruction lists that leave the same cells reported, the sweep
/// stands at one state after the steps at the first `i` coordinates.
pub proof fn lemma_sweep_state_unique(
    base: Rect,
    first: Seq<Rect>,
    second: Seq<Rect>,
    points: Seq<i64>,
    i: nat,
    active1: Seq<ActiveSection>,
    out1: Seq<Rect>,
    active2: Seq<ActiveSection>,
    out2: Seq<Rect>,
)
    requires
        forall|px: int, py: int|
            reported(base, first, px, py) <==> reported(base, second, px, py),
        i <= points.len(),
        sweep_reaches(base, first, points, i, active1, out1),
        sweep_reaches(base, second, points, i, active2, out2),
    ensures
        active1 == active2,
        out1 == out2,
    decreases i,
{
    if i == 0 {
        assert(active1 =~= active2);
        assert(out1 =~= out2);
    } else {
        let (e1, b1, g1) = choose|e1: Seq<ActiveSection>, b1: Seq<Rect>, g1: Seq<Gap>|
            #![trigger is_step(sorted_by_start(e1, e1.len() as int), g1, points[i - 1], b1, out1, active1)]
            sweep_reaches(base, first, points, (i - 1) as nat, e1, b1) && is_gap_list(
                base,
                first,
                points[i - 1] as int,
                g1,
            ) && is_step(
                sorted_by_start(e1, e1.len() as int),
                g1,
                points[i - 1],
                b1,
                out1,
                active1,
            );
        let (e2, b2, g2) = choose|e2: Seq<ActiveSection>, b2: Seq<Rect>, g2: Seq<Gap>|
            #![trigger is_step(sorted_by_start(e2, e2.len() as int), g2, points[i - 1], b2, out2, active2)]
            sweep_reaches(base, second, points, (i - 1) as nat, e2, b2) && is_gap_list(
                base,
                second,
                points[i - 1] as int,
                g2,
            ) && is_step(
                sorted_by_start(e2, e2.len() as int),
                g2,
                points[i - 1],
                b2,
                out2,
                active2,
            );
        lemma_sweep_state_unique(base, first, second, points, (i - 1) as nat, e1, b1, e2, b2);
        assert forall|py: int| in_gaps(g1, py) <==> in_gaps(g2, py) by {
            assert(in_gaps(g1, py) <==> reported(base, first, points[i - 1] as int, py));
            assert(in_gaps(g2, py) <==> reported(base, second, points[i - 1] as int, py));
        }
        lemma_gap_list_unique(base, g1, g2);
    }
}

/// The sweep leaves one result: two runs on one base and one obstruction
/// list return the same rectangles in the same order.
pub proof fn law_rerun_returns_the_same(
    base: Rect,
    obstructions: Seq<Rect>,
    first: Seq<Rect>,
    second: Seq<Rect>,
)
    requires
        is_sweep_result(base, obstructions, first),
        is_sweep_result(base, obstructions, second),
    ensures
        first == second,
{
    let (s1, p1, a1, b1) = choose|
        s1: Seq<Rect>,
        p1: Seq<i64>,
        a1: Seq<ActiveSection>,
        b1: Seq<Rect>,
    |
        #![trigger sweep_reaches(base, s1, p1, p1.len(), a1, b1)]
        relevant(base, obstructions, s1) && are_sweep_coordinates(base, s1, p1) && sweep_reaches(
            base,
            s1,
            p1,
            p1.len(),
            a1,
            b1,
        ) && first == b1 + closed_all(a1, base.spec_right() + 1);
    let (s2, p2, a2, b2) = choose|
        s2: Seq<Rect>,
        p2: Seq<i64>,
        a2: Seq<ActiveSection>,
        b2: Seq<Rect>,
    |
        #![trigger sweep_reaches(base, s2, p2, p2.len(), a2, b2)]
        relevant(base, obstructions, s2) && are_sweep_coordinates(base, s2, p2) && sweep_reaches(
            base,
            s2,
            p2,
            p2.len(),
            a2,
            b2,
        ) && second == b2 + closed_all(a2, base.spec_right() + 1);
    lemma_relevant_suffice(base, obstructions, s1);
    lemma_relevant_suffice(base, obstructions, s2);
    assert forall|v: int| is_sweep_coordinate(base, s1, v) <==> is_sweep_coordinate(
        base,
        s2,
        v,
    ) by {
        if is_sweep_coordinate(base, s1, v) {
            lemma_same_coordinates(base, obstructions, s1, s2, v);
        }
        if is_sweep_coordinate(base, s2, v) {
            lemma_same_coordinates(base, obstructions, s2, s1, v);
        }
    }
    assert forall|v: i64| p1.contains(v) <==> p2.contains(v) by {
        assert(p1.contains(v) <==> is_sweep_coordinate(base, s1, v as int));
        assert(p2.contains(v) <==> is_sweep_coordinate(base, s2, v as int));
    }
    lemma_points_agree(p1, p2, p1.len() - 1);
    lemma_points_agree(p2, p1, p2.len() - 1);
    assert forall|m: int| 0 <= m < p1.len() implies p1[m] == p2[m] by {
        lemma_points_agree(p1, p2, m);
    }
    assert(p1 =~= p2);
    lemma_sweep_state_unique(base, s1, s2, p1, p1.len(), a1, b1, a2, b2);
}

/// A sweep coordinate under one list of the relevant obstructions is one
/// under another.
pub proof fn lemma_same_coordinates(
    base: Rect,
    all: Seq<Rect>,
    first: Seq<Rect>,
    second: Seq<Rect>,
    v: int,
)
    requires
        relevant(base, all, first),
        relevant(base, all, second),
        is_sweep_coordinate(base, first, v),
    ensures
        is_sweep_coordinate(base, second, v),
{
    if v != base.spec_left() {
        let i = choose|i: int|
            0 <= i < first.len() && ((#[trigger] first[i]).spec_left() == v
                || first[i].spec_right() + 1 == v);
        assert(all.contains(first[i]));
        let j = choose|j: int| 0 <= j < all.len() && all[j] == first[i];
        assert(all[j].spec_intersects(&base));
        assert(second.contains(all[j]));
        let n = choose|n: int| 0 <= n < second.len() && second[n] == all[j];
        assert(second[n].spec_left() == v || second[n].spec_right() + 1 == v);
    }
}

} // verus!
