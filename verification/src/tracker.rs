//! The sections that the sweep is growing, and the step that reconciles them
//! with the gaps of the next sweep column.

use crate::rect::Rect;
use crate::sweep::{gaps_descend_in, lemma_insert_indices, Gap};
use vstd::prelude::*;
use vstd::seq_lib::{to_multiset_build, to_multiset_contains, to_multiset_insert};

verus! {

/// A rectangle that is still growing to the right: the rows `bottom..=top`
/// have been free in every column from `start_x` up to the sweep column.
#[derive(Debug, Clone, Copy, PartialEq, Eq, Structural)]
pub struct ActiveSection {
    pub start_x: i64,
    pub top: i64,
    pub bottom: i64,
}

impl ActiveSection {
    /// The section starts at a column of `base` and spans rows of `base`.
    pub open spec fn within(&self, base: Rect) -> bool {
        &&& base.spec_left() <= self.start_x <= base.spec_right()
        &&& base.spec_bottom() <= self.bottom <= self.top <= base.spec_top()
    }

    /// Whether the rows of the section all lie in `gap`.
    pub open spec fn fits(&self, gap: Gap) -> bool {
        gap.top >= self.top && self.bottom >= gap.bottom
    }

    /// Whether the section and `gap` share a row.
    pub open spec fn overlaps(&self, gap: Gap) -> bool {
        gap.top >= self.bottom && gap.bottom <= self.top
    }

    /// The section of the rows that `self` and `gap` share, starting at
    /// column `x`.
    pub open spec fn shared(&self, gap: Gap, x: i64) -> ActiveSection {
        ActiveSection {
            start_x: x,
            top: if gap.top < self.top { gap.top } else { self.top },
            bottom: if gap.bottom > self.bottom { gap.bottom } else { self.bottom },
        }
    }

    /// The rectangle of the section's rows over the columns from `start_x`
    /// up to, and without, `end_x`.
    pub open spec fn closed(&self, end_x: int) -> Rect {
        Rect {
            x: self.start_x,
            y: self.bottom,
            width: (end_x - self.start_x) as i64,
            height: (self.top - self.bottom + 1) as i64,
        }
    }
}

impl Gap {
    /// The section of the gap's rows that starts at column `x`.
    pub open spec fn section_at(&self, x: i64) -> ActiveSection {
        ActiveSection { start_x: x, top: self.top, bottom: self.bottom }
    }
}

/// Whether the rows of `s` all lie in one of the gaps.
pub open spec fn fits_some(s: ActiveSection, gaps: Seq<Gap>) -> bool {
    exists|g: int| 0 <= g < gaps.len() && s.fits(#[trigger] gaps[g])
}

/// Whether some section spans exactly the rows `bottom..=top`.
pub open spec fn has_interval(sections: Seq<ActiveSection>, top: i64, bottom: i64) -> bool {
    exists|i: int|
        0 <= i < sections.len() && (#[trigger] sections[i]).top == top && sections[i].bottom
            == bottom
}

/// No section starts later than one before it.
pub open spec fn descending_by_start(sections: Seq<ActiveSection>) -> bool {
    forall|i: int, j: int|
        0 <= i < j < sections.len() ==> (#[trigger] sections[i]).start_x >= (
        #[trigger] sections[j]).start_x
}

/// Whether `r` is what a section that fits no gap leaves behind at column `x`.
pub open spec fn is_blocked_rect(
    active: Seq<ActiveSection>,
    gaps: Seq<Gap>,
    x: int,
    r: Rect,
) -> bool {
    exists|j: int|
        0 <= j < active.len() && !fits_some(#[trigger] active[j], gaps) && r == active[j].closed(x)
}

/// Sequences with the same items, counted, have the same members.
pub proof fn lemma_same_members<A>(a: Seq<A>, b: Seq<A>)
    requires
        a.to_multiset() == b.to_multiset(),
    ensures
        forall|t: A| a.contains(t) <==> b.contains(t),
{
    assert forall|t: A| a.contains(t) <==> b.contains(t) by {
        to_multiset_contains(a, t);
        to_multiset_contains(b, t);
    }
}

/// The members of a sequence after a push are the old ones and the new item.
pub proof fn lemma_push_members<A>(s: Seq<A>, a: A)
    ensures
        forall|t: A| s.push(a).contains(t) <==> (s.contains(t) || t == a),
{
    assert forall|t: A| s.push(a).contains(t) <==> (s.contains(t) || t == a) by {
        if s.contains(t) {
            let i = choose|i: int| 0 <= i < s.len() && s[i] == t;
            assert(s.push(a)[i] == t);
        }
        if t == a {
            assert(s.push(a)[s.len() as int] == t);
        }
    }
}

/// Whether the rows of `s` all lie in one of the gaps.
pub fn fits_some_gap(s: &ActiveSection, gaps: &Vec<Gap>) -> (b: bool)
    ensures
        b == fits_some(*s, gaps@),
{
    let mut g: usize = 0;
    while g < gaps.len()
        invariant
            0 <= g <= gaps.len(),
            forall|h: int| 0 <= h < g ==> !s.fits(#[trigger] gaps[h]),
        decreases gaps.len() - g,
    {
        if gaps[g].top >= s.top && s.bottom >= gaps[g].bottom {
            return true;
        }
        g += 1;
    }
    false
}

/// Whether some section spans exactly the rows `bottom..=top`.
pub fn interval_taken(sections: &Vec<ActiveSection>, top: i64, bottom: i64) -> (b: bool)
    ensures
        b == has_interval(sections@, top, bottom),
{
    let mut i: usize = 0;
    while i < sections.len()
        invariant
            0 <= i <= sections.len(),
            forall|j: int|
                0 <= j < i ==> !((#[trigger] sections[j]).top == top && sections[j].bottom
                    == bottom),
        decreases sections.len() - i,
    {
        if sections[i].top == top && sections[i].bottom == bottom {
            return true;
        }
        i += 1;
    }
    false
}

/// The first position from `p` on at which `sorted` has a section that
/// starts before `start`, or its length.
pub open spec fn place(sorted: Seq<ActiveSection>, start: i64, p: int) -> int
    decreases sorted.len() - p,
{
    if 0 <= p < sorted.len() && sorted[p].start_x >= start {
        place(sorted, start, p + 1)
    } else {
        p
    }
}

/// The first `k` sections, the most recently started first; sections that
/// started at the same column keep their order.
pub open spec fn sorted_by_start(active: Seq<ActiveSection>, k: int) -> Seq<ActiveSection>
    decreases k,
{
    if k <= 0 {
        Seq::empty()
    } else {
        let rest = sorted_by_start(active, k - 1);
        rest.insert(place(rest, active[k - 1].start_x, 0), active[k - 1])
    }
}

/// The same sections, the most recently started first; sections that started
/// at the same column keep their order.
pub fn sort_by_start_descending(active: &Vec<ActiveSection>) -> (sorted: Vec<ActiveSection>)
    ensures
        sorted@ == sorted_by_start(active@, active.len() as int),
        sorted@.to_multiset() == active@.to_multiset(),
        descending_by_start(sorted@),
{
    let mut sorted: Vec<ActiveSection> = Vec::new();
    let mut k: usize = 0;
    assert(active@.take(0) =~= sorted@);
    while k < active.len()
        invariant
            0 <= k <= active.len(),
            sorted@ == sorted_by_start(active@, k as int),
            sorted@.to_multiset() == active@.take(k as int).to_multiset(),
            descending_by_start(sorted@),
        decreases active.len() - k,
    {
        let s: ActiveSection = active[k];
        let mut p: usize = 0;
        while p < sorted.len() && sorted[p].start_x >= s.start_x
            invariant
                0 <= p <= sorted.len(),
                forall|i: int| 0 <= i < p ==> (#[trigger] sorted[i]).start_x >= s.start_x,
                place(sorted@, s.start_x, 0) == place(sorted@, s.start_x, p as int),
            decreases sorted.len() - p,
        {
            p += 1;
        }
        let ghost before = sorted@;
        sorted.insert(p, s);
        proof {
            lemma_insert_indices(before, p as int, s);
            to_multiset_insert(before, p as int, s);
            to_multiset_build(active@.take(k as int), s);
            assert(active@.take(k + 1) =~= active@.take(k as int).push(s));
            assert forall|i: int, j: int| 0 <= i < j < sorted.len() implies (
            #[trigger] sorted[i]).start_x >= (#[trigger] sorted[j]).start_x by {
                let i0 = if i < p { i } else { i - 1 };
                let j0 = if j < p { j } else { j - 1 };
                if i != p && j != p {
                    assert(before[i0].start_x >= before[j0].start_x);
                }
            }
        }
        k += 1;
    }
    assert(active@.take(k as int) =~= active@);
    sorted
}

/// Of the first `k` sections, those that fit a gap, in their order.
pub open spec fn kept(sorted: Seq<ActiveSection>, k: int, gaps: Seq<Gap>) -> Seq<ActiveSection>
    decreases k,
{
    if k <= 0 {
        Seq::empty()
    } else if fits_some(sorted[k - 1], gaps) {
        kept(sorted, k - 1, gaps).push(sorted[k - 1])
    } else {
        kept(sorted, k - 1, gaps)
    }
}

/// For those of the first `k` sections that fit no gap, in their order, the
/// rectangle that each leaves over the columns before `x`.
pub open spec fn closed_blocked(sorted: Seq<ActiveSection>, k: int, gaps: Seq<Gap>, x: int) -> Seq<
    Rect,
>
    decreases k,
{
    if k <= 0 {
        Seq::empty()
    } else if fits_some(sorted[k - 1], gaps) {
        closed_blocked(sorted, k - 1, gaps, x)
    } else {
        closed_blocked(sorted, k - 1, gaps, x).push(sorted[k - 1].closed(x))
    }
}

/// The sections started so far, `fresh`, and after them those that the
/// blocked section `s` starts at `x` with the first `g` gaps: one for each
/// gap it overlaps, of the shared rows, unless a staying or started section
/// has those rows.
pub open spec fn split(
    s: ActiveSection,
    gaps: Seq<Gap>,
    g: int,
    x: i64,
    staying: Seq<ActiveSection>,
    fresh: Seq<ActiveSection>,
) -> Seq<ActiveSection>
    decreases g,
{
    if g <= 0 {
        fresh
    } else {
        let so_far = split(s, gaps, g - 1, x, staying, fresh);
        let t = s.shared(gaps[g - 1], x);
        if s.overlaps(gaps[g - 1]) && !has_interval(staying, t.top, t.bottom) && !has_interval(
            so_far,
            t.top,
            t.bottom,
        ) {
            so_far.push(t)
        } else {
            so_far
        }
    }
}

/// The sections that those of the first `k` sections that fit no gap start
/// at `x`, beside the `staying` ones.
pub open spec fn started(
    sorted: Seq<ActiveSection>,
    k: int,
    gaps: Seq<Gap>,
    x: i64,
    staying: Seq<ActiveSection>,
) -> Seq<ActiveSection>
    decreases k,
{
    if k <= 0 {
        Seq::empty()
    } else if fits_some(sorted[k - 1], gaps) {
        started(sorted, k - 1, gaps, x, staying)
    } else {
        split(
            sorted[k - 1],
            gaps,
            gaps.len() as int,
            x,
            staying,
            started(sorted, k - 1, gaps, x, staying),
        )
    }
}

/// `sections`, and after them a section at `x` for each of the first `g`
/// gaps whose rows no section before it has.
pub open spec fn opened(gaps: Seq<Gap>, g: int, x: i64, sections: Seq<ActiveSection>) -> Seq<
    ActiveSection,
>
    decreases g,
{
    if g <= 0 {
        sections
    } else {
        let so_far = opened(gaps, g - 1, x, sections);
        if has_interval(so_far, gaps[g - 1].top, gaps[g - 1].bottom) {
            so_far
        } else {
            so_far.push(gaps[g - 1].section_at(x))
        }
    }
}

/// Whether `after` and `next` are what the step at column `x` makes of the
/// finished rectangles `before` and the active sections, which it takes in
/// the order `sorted`, by descending start.
pub open spec fn is_step(
    sorted: Seq<ActiveSection>,
    gaps: Seq<Gap>,
    x: i64,
    before: Seq<Rect>,
    after: Seq<Rect>,
    next: Seq<ActiveSection>,
) -> bool {
    let staying = kept(sorted, sorted.len() as int, gaps);
    &&& after == before + closed_blocked(sorted, sorted.len() as int, gaps, x as int)
    &&& next == opened(
        gaps,
        gaps.len() as int,
        x,
        staying + started(sorted, sorted.len() as int, gaps, x, staying),
    )
}

/// Every section lies within `base` and started before column `x`.
pub open spec fn started_before(base: Rect, sections: Seq<ActiveSection>, x: int) -> bool {
    forall|i: int|
        0 <= i < sections.len() ==> (#[trigger] sections[i]).within(base) && sections[i].start_x
            < x
}

/// Whether `t` may be active after the step at column `x`: its rows lie in
/// one gap, and it either was active before or starts at `x`.
pub open spec fn continues(active: Seq<ActiveSection>, gaps: Seq<Gap>, x: int, t: ActiveSection) -> bool {
    &&& t.bottom <= t.top
    &&& fits_some(t, gaps)
    &&& active.contains(t) || t.start_x == x
}

/// What a step at column `x` does, whatever the order in which it takes
/// sections of equal start: the finished rectangles `before` stay and those
/// of the sections that fit no gap follow; the sections that fit a gap go on;
/// every section in `next` lies in one gap; and each gap has a section of
/// exactly its rows.
pub open spec fn advanced(
    active: Seq<ActiveSection>,
    gaps: Seq<Gap>,
    x: int,
    before: Seq<Rect>,
    after: Seq<Rect>,
    next: Seq<ActiveSection>,
) -> bool {
    &&& after.len() >= before.len()
    &&& after.take(before.len() as int) == before
    &&& forall|i: int|
        before.len() <= i < after.len() ==> is_blocked_rect(active, gaps, x, #[trigger] after[i])
    &&& forall|j: int|
        0 <= j < active.len() && !fits_some(#[trigger] active[j], gaps) ==> after.contains(
            active[j].closed(x),
        )
    &&& forall|j: int|
        0 <= j < active.len() && fits_some(#[trigger] active[j], gaps) ==> next.contains(active[j])
    &&& forall|i: int| 0 <= i < next.len() ==> continues(active, gaps, x, #[trigger] next[i])
    &&& forall|g: int|
        0 <= g < gaps.len() ==> has_interval(next, (#[trigger] gaps[g]).top, gaps[g].bottom)
}

/// Closes the sections that fit no gap of column `x`, and returns the sections
/// that are active from `x` on.
///
/// A section whose rows lie in one gap stays. Each other one, taken by
/// descending start, leaves its rectangle over the columns before `x` in
/// `out`, and for each gap it overlaps a section of the shared rows starts at
/// `x`, unless a section with those rows stays or has started. Then each
/// gap whose rows no section has starts one at `x`.
pub fn advance(
    base: &Rect,
    active: &Vec<ActiveSection>,
    gaps: &Vec<Gap>,
    x: i64,
    out: &mut Vec<Rect>,
) -> (next: Vec<ActiveSection>)
    requires
        base.wf(),
        base.spec_left() <= x <= base.spec_right(),
        gaps_descend_in(*base, gaps@),
        started_before(*base, active@, x as int),
    ensures
        is_step(
            sorted_by_start(active@, active.len() as int),
            gaps@,
            x,
            old(out)@,
            final(out)@,
            next@,
        ),
        advanced(active@, gaps@, x as int, old(out)@, final(out)@, next@),
{
    let sorted: Vec<ActiveSection> = sort_by_start_descending(active);
    proof {
        lemma_same_members(sorted@, active@);
        vstd::seq_lib::to_multiset_len(sorted@);
        vstd::seq_lib::to_multiset_len(active@);
    }
    let mut next: Vec<ActiveSection> = Vec::new();
    let mut k: usize = 0;
    while k < sorted.len()
        invariant
            0 <= k <= sorted.len(),
            forall|t: ActiveSection| sorted@.contains(t) <==> active@.contains(t),
            started_before(*base, active@, x as int),
            forall|i: int| 0 <= i < next.len() ==> continues(active@, gaps@, x as int, #[trigger] next[i]),
            forall|j: int|
                0 <= j < k && fits_some(#[trigger] sorted[j], gaps@) ==> next@.contains(sorted[j]),
            next@ == kept(sorted@, k as int, gaps@),
        decreases sorted.len() - k,
    {
        let s: ActiveSection = sorted[k];
        assert(sorted@.contains(s));
        assert(active@.contains(s));
        if fits_some_gap(&s, gaps) {
            let ghost before = next@;
            let ghost j0 = choose|j: int| 0 <= j < active.len() && active[j] == s;
            assert(active[j0].within(*base));
            next.push(s);
            proof {
                assert forall|j: int|
                    0 <= j < k + 1 && fits_some(#[trigger] sorted[j], gaps@) implies next@.contains(
                    sorted[j],
                ) by {
                    if j < k {
                        assert(before.contains(sorted[j]));
                        let n = choose|n: int| 0 <= n < before.len() && before[n] == sorted[j];
                        assert(next[n] == sorted[j]);
                    } else {
                        assert(next[next.len() - 1] == sorted[j]);
                    }
                }
            }
        }
        k += 1;
    }
    let ghost survivors = next@;
    let mut fresh: Vec<ActiveSection> = Vec::new();
    k = 0;
    while k < sorted.len()
        invariant
            0 <= k <= sorted.len(),
            base.wf(),
            base.spec_left() <= x <= base.spec_right(),
            forall|t: ActiveSection| sorted@.contains(t) <==> active@.contains(t),
            started_before(*base, active@, x as int),
            out.len() >= old(out).len(),
            out@.take(old(out).len() as int) == old(out)@,
            gaps_descend_in(*base, gaps@),
            sorted.len() == active.len(),
            next@ == survivors,
            out@ == old(out)@ + closed_blocked(sorted@, k as int, gaps@, x as int),
            fresh@ == started(sorted@, k as int, gaps@, x, survivors),
            forall|i: int|
                old(out).len() <= i < out.len() ==> is_blocked_rect(
                    active@,
                    gaps@,
                    x as int,
                    #[trigger] out[i],
                ),
            forall|j: int|
                0 <= j < k && !fits_some(#[trigger] sorted[j], gaps@) ==> out@.contains(
                    sorted[j].closed(x as int),
                ),
            forall|i: int|
                0 <= i < fresh.len() ==> continues(active@, gaps@, x as int, #[trigger] fresh[i]),
        decreases sorted.len() - k,
    {
        let s: ActiveSection = sorted[k];
        assert(sorted@.contains(s));
        assert(active@.contains(s));
        if !fits_some_gap(&s, gaps) {
            let ghost j0 = choose|j: int| 0 <= j < active.len() && active[j] == s;
            assert(active[j0].within(*base) && active[j0].start_x < x);
            let ghost before = out@;
            out.push(Rect::new(s.start_x, s.bottom, x - s.start_x, s.top - s.bottom + 1));
            proof {
                lemma_push_members(before, s.closed(x as int));
                assert(out[out.len() - 1] == active[j0].closed(x as int));
                assert(out@.take(old(out).len() as int) =~= before.take(old(out).len() as int));
                assert(out@ =~= old(out)@ + closed_blocked(sorted@, k + 1, gaps@, x as int));
                assert forall|i: int| old(out).len() <= i < out.len() implies is_blocked_rect(
                    active@,
                    gaps@,
                    x as int,
                    #[trigger] out[i],
                ) by {
                    if i < before.len() {
                        assert(out[i] == before[i]);
                    }
                }
            }
            let ghost earlier_sections = fresh@;
            let mut g: usize = 0;
            while g < gaps.len()
                invariant
                    0 <= g <= gaps.len(),
                    s.bottom <= s.top,
                    gaps_descend_in(*base, gaps@),
                    next@ == survivors,
                    fresh@ == split(s, gaps@, g as int, x, survivors, earlier_sections),
                    forall|i: int|
                        0 <= i < fresh.len() ==> continues(
                            active@,
                            gaps@,
                            x as int,
                            #[trigger] fresh[i],
                        ),
                decreases gaps.len() - g,
            {
                let gap: Gap = gaps[g];
                if gap.top >= s.bottom && gap.bottom <= s.top {
                    let top: i64 = if gap.top < s.top { gap.top } else { s.top };
                    let bottom: i64 = if gap.bottom > s.bottom { gap.bottom } else { s.bottom };
                    if !interval_taken(&next, top, bottom) && !interval_taken(&fresh, top, bottom) {
                        let t = ActiveSection { start_x: x, top, bottom };
                        let ghost earlier = fresh@;
                        fresh.push(t);
                        proof {
                            assert(t.fits(gaps[g as int]));
                            assert(gaps[g as int].bottom <= gaps[g as int].top);
                            assert forall|i: int| 0 <= i < fresh.len() implies continues(
                                active@,
                                gaps@,
                                x as int,
                                #[trigger] fresh[i],
                            ) by {
                                if i < earlier.len() {
                                    assert(fresh[i] == earlier[i]);
                                }
                            }
                        }
                    }
                }
                g += 1;
            }
        }
        k += 1;
    }
    let ghost started = fresh@;
    next.append(&mut fresh);
    proof {
        assert forall|i: int| 0 <= i < next.len() implies continues(
            active@,
            gaps@,
            x as int,
            #[trigger] next[i],
        ) by {
            if i < survivors.len() {
                assert(next[i] == survivors[i]);
            } else {
                assert(next[i] == started[i - survivors.len()]);
            }
        }
        assert forall|j: int|
            0 <= j < active.len() && fits_some(#[trigger] active[j], gaps@) implies next@.contains(
            active[j],
        ) by {
            assert(active@.contains(active[j]));
            let i = choose|i: int| 0 <= i < sorted.len() && sorted[i] == active[j];
            assert(survivors.contains(sorted[i]));
            let n = choose|n: int| 0 <= n < survivors.len() && survivors[n] == active[j];
            assert(next[n] == active[j]);
        }
        assert forall|j: int|
            0 <= j < active.len() && !fits_some(#[trigger] active[j], gaps@) implies out@.contains(
            active[j].closed(x as int),
        ) by {
            assert(active@.contains(active[j]));
            let i = choose|i: int| 0 <= i < sorted.len() && sorted[i] == active[j];
            assert(out@.contains(sorted[i].closed(x as int)));
        }
    }
    let mut g: usize = 0;
    while g < gaps.len()
        invariant
            0 <= g <= gaps.len(),
            forall|i: int| 0 <= i < next.len() ==> continues(active@, gaps@, x as int, #[trigger] next[i]),
            forall|j: int|
                0 <= j < active.len() && fits_some(#[trigger] active[j], gaps@) ==> next@.contains(
                    active[j],
                ),
            forall|h: int|
                0 <= h < g ==> has_interval(next@, (#[trigger] gaps[h]).top, gaps[h].bottom),
            gaps_descend_in(*base, gaps@),
            next@ == opened(gaps@, g as int, x, survivors + started),
        decreases gaps.len() - g,
    {
        let gap: Gap = gaps[g];
        let ghost before = next@;
        if !interval_taken(&next, gap.top, gap.bottom) {
            let t = ActiveSection { start_x: x, top: gap.top, bottom: gap.bottom };
            assert(t.fits(gaps[g as int]));
            next.push(t);
            proof {
                lemma_push_members(before, t);
                assert(next[next.len() - 1].top == gap.top);
            }
        }
        proof {
            assert forall|h: int| 0 <= h < g + 1 implies has_interval(
                next@,
                (#[trigger] gaps[h]).top,
                gaps[h].bottom,
            ) by {
                if h < g {
                    let i = choose|i: int|
                        0 <= i < before.len() && (#[trigger] before[i]).top == gaps[h].top
                            && before[i].bottom == gaps[h].bottom;
                    assert(next[i] == before[i]);
                } else if has_interval(before, gap.top, gap.bottom) {
                    assert(next@ == before);
                }
            }
        }
        g += 1;
    }
    assert(is_step(sorted@, gaps@, x, old(out)@, out@, next@));
    next
}

/// For each section, in order, its rectangle over the columns before `end_x`.
pub open spec fn closed_all(active: Seq<ActiveSection>, end_x: int) -> Seq<Rect> {
    Seq::new(active.len(), |i: int| active[i].closed(end_x))
}

/// Closes every section at the right edge of `base`.
pub fn close_sections(base: &Rect, active: &Vec<ActiveSection>, out: &mut Vec<Rect>)
    requires
        base.wf(),
        forall|i: int| 0 <= i < active.len() ==> (#[trigger] active[i]).within(*base),
    ensures
        final(out)@ == old(out)@ + closed_all(active@, base.spec_right() + 1),
{
    let right: i64 = base.right();
    let ghost closed = closed_all(active@, base.spec_right() + 1);
    let mut k: usize = 0;
    while k < active.len()
        invariant
            0 <= k <= active.len(),
            base.wf(),
            right == base.spec_right(),
            forall|i: int| 0 <= i < active.len() ==> (#[trigger] active[i]).within(*base),
            closed == closed_all(active@, base.spec_right() + 1),
            out@ == old(out)@ + closed.take(k as int),
        decreases active.len() - k,
    {
        let s: ActiveSection = active[k];
        assert(s.within(*base));
        out.push(Rect::new(s.start_x, s.bottom, (right - s.start_x) + 1, (s.top - s.bottom) + 1));
        assert(out@ =~= old(out)@ + closed.take(k + 1));
        k += 1;
    }
    assert(closed.take(k as int) =~= closed);
}

} // verus!
