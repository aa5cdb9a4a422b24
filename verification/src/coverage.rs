//! The coverage stepper: a midpoint walk along one eighth of a circle at
//! sixteen sub-steps to the pixel, which yields for every pixel on the arc how
//! much of it lies inside, in 256ths, and which pixels lie wholly outside.
//!
//! Offsets are local to one corner: `x` and `y` count pixels from the centre
//! of the circle towards the two edges that meet in the corner.

use crate::error::RoundError;
use vstd::prelude::*;

verus! {

/// One thing the walk asks of the corner, over mathematical integers.
pub ghost enum Mark {
    /// Scale the opacity of the pixel at `(x, y)` by `coverage - 1` in 255.
    Blend { x: int, y: int, coverage: int },
    /// Make transparent, in column `lane` and in row `lane`, the pixels from
    /// offset `from` up to the edge.
    ClearBeyond { lane: int, from: int },
    /// Make transparent the square of pixels from `(from, from)` up to the
    /// corner itself.
    ClearCorner { from: int },
}

/// One thing the walk asks of the corner, as the stepper hands it out.
#[derive(Clone, Copy, Debug, PartialEq, Eq, Structural)]
pub enum Stroke {
    Blend { x: u32, y: u32, coverage: u16 },
    ClearBeyond { lane: u32, from: u32 },
    ClearCorner { from: u32 },
}

impl View for Stroke {
    type V = Mark;

    open spec fn view(&self) -> Mark {
        match *self {
            Stroke::Blend { x, y, coverage } => Mark::Blend {
                x: x as int,
                y: y as int,
                coverage: coverage as int,
            },
            Stroke::ClearBeyond { lane, from } => Mark::ClearBeyond {
                lane: lane as int,
                from: from as int,
            },
            Stroke::ClearCorner { from } => Mark::ClearCorner { from: from as int },
        }
    }
}

/// The marks that a list of strokes stands for.
pub open spec fn marks_of(strokes: Seq<Stroke>) -> Seq<Mark> {
    strokes.map_values(|stroke: Stroke| stroke@)
}

/// Where the walk stands: the sub-pixel position `(x, y)`, the decision
/// variable `p` of the midpoint rule, and what has been gathered of the
/// coverage of the pixel that the arc is crossing.
pub ghost struct ArcState {
    pub x: int,
    pub y: int,
    pub p: int,
    pub acc: int,
}

/// The walk begins on the axis, one sub-step inside the radius.
pub open spec fn arc_start(r: int) -> ArcState {
    ArcState { x: 0, y: 16 * r - 1, p: 2 - 16 * r, acc: 0 }
}

/// What is due when the walk enters a pixel column: the pixels beyond the arc
/// in that column are cleared, and what was gathered in the column before it
/// goes to that column's last pixel on the arc.
pub open spec fn opening_marks(s: ArcState) -> Seq<Mark> {
    if s.x % 16 != 0 {
        Seq::empty()
    } else if s.acc == 0 {
        seq![Mark::ClearBeyond { lane: s.x / 16, from: s.y / 16 + 1 }]
    } else {
        seq![
            Mark::ClearBeyond { lane: s.x / 16, from: s.y / 16 + 1 },
            Mark::Blend { x: s.x / 16 - 1, y: s.y / 16, coverage: s.acc },
            Mark::Blend { x: s.y / 16, y: s.x / 16 - 1, coverage: s.acc },
        ]
    }
}

/// The state once a new pixel column is entered: nothing is gathered yet.
pub open spec fn opened(s: ArcState) -> ArcState {
    if s.x % 16 == 0 {
        ArcState { acc: 0, ..s }
    } else {
        s
    }
}

/// Whether the next sub-step leaves the pixel row.
pub open spec fn crossing(s: ArcState) -> bool {
    s.p >= 0 && s.y % 16 == 0
}

/// What is due when the sub-step leaves a pixel row: the pixel that the arc
/// leaves gets what was gathered for it, and so does its mirror image.
pub open spec fn crossing_marks(s: ArcState) -> Seq<Mark> {
    if crossing(s) {
        seq![
            Mark::Blend { x: s.x / 16, y: s.y / 16, coverage: s.acc + 1 },
            Mark::Blend { x: s.y / 16, y: s.x / 16, coverage: s.acc + 1 },
        ]
    } else {
        Seq::empty()
    }
}

/// One sub-step of the midpoint rule. The sub-column adds its height inside
/// the pixel row to what is gathered; where the row is left, the gathering
/// starts again with the full sub-columns already passed in the new row.
pub open spec fn advance(s: ArcState) -> ArcState {
    let gathered = s.acc + s.y % 16 + 1;
    if s.p < 0 {
        ArcState { x: s.x + 1, y: s.y, p: s.p + 2 * s.x + 4, acc: gathered }
    } else {
        ArcState {
            x: s.x + 1,
            y: s.y - 1,
            p: s.p - 2 * (s.y - s.x),
            acc: if s.y % 16 == 0 {
                ((s.x + 1) % 16) * 16
            } else {
                gathered
            },
        }
    }
}

/// The coverage of the pixel on the diagonal: what was gathered on one side
/// of the diagonal counts twice, less the square that both sides share.
pub open spec fn diagonal_coverage(s: ArcState) -> int {
    2 * s.acc - (s.y % 16 + 1) * (s.y % 16 + 1)
}

/// What is due when the walk has reached the diagonal: the pixel on the
/// diagonal, if the arc ends inside one, and the square beyond it.
pub open spec fn closing_marks(s: ArcState) -> Seq<Mark> {
    if s.x / 16 == s.y / 16 {
        seq![
            Mark::Blend { x: s.x / 16, y: s.y / 16, coverage: diagonal_coverage(s) },
            Mark::ClearCorner { from: s.y / 16 + 1 },
        ]
    } else {
        seq![Mark::ClearCorner { from: s.y / 16 + 1 }]
    }
}

/// Everything that is due from state `s` on, in the order in which it comes.
/// The walk ends where `x` has caught up with `y`.
pub open spec fn marks_from(s: ArcState) -> Seq<Mark>
    decreases s.y - s.x + 1,
{
    if s.x >= s.y {
        closing_marks(s)
    } else {
        opening_marks(s) + crossing_marks(opened(s)) + marks_from(advance(opened(s)))
    }
}

/// The marks of a corner of radius `r`. A radius of zero asks for nothing.
pub open spec fn arc_marks(r: int) -> Seq<Mark> {
    if r <= 0 {
        Seq::empty()
    } else {
        marks_from(arc_start(r))
    }
}

/// Whether a mark stays inside the corner box of side `r`.
pub open spec fn mark_within(m: Mark, r: int) -> bool {
    match m {
        Mark::Blend { x, y, coverage } => 0 <= x < r && 0 <= y < r,
        Mark::ClearBeyond { lane, from } => 0 <= lane < r && 0 <= from <= r,
        Mark::ClearCorner { from } => 0 <= from <= r,
    }
}

/// Whether a mark's coverage, if it has one, is a value between 1 and 256.
pub open spec fn coverage_ok(m: Mark) -> bool {
    match m {
        Mark::Blend { x, y, coverage } => 1 <= coverage <= 256,
        _ => true,
    }
}

/// Whether the walk for radius `r` yields only coverage values in `1..=256`.
pub open spec fn arc_sound(r: int) -> bool {
    forall|i: int| 0 <= i < arc_marks(r).len() ==> coverage_ok(#[trigger] arc_marks(r)[i])
}

/// What holds of every state that the walk for radius `r` passes through.
pub open spec fn state_ok(s: ArcState, r: int) -> bool {
    &&& r >= 1
    &&& 0 <= s.x <= s.y + 1
    &&& 0 <= s.y <= 16 * r - 1
    &&& -32 * r <= s.p <= 32 * r + 4
    &&& 0 <= s.acc <= 256
    &&& s.x % 16 != 0 ==> s.acc <= 16 * (s.x % 16)
    &&& s.x == 0 ==> s.acc == 0
}

/// The walk starts in a good state.
pub proof fn lemma_start_ok(r: int)
    requires
        r >= 1,
    ensures
        state_ok(arc_start(r), r),
{
}

/// A sub-step keeps the state good: the decision variable stays within twice
/// the radius in sub-steps, and what is gathered never exceeds sixteen per
/// sub-column.
pub proof fn lemma_advance_ok(s: ArcState, r: int)
    requires
        state_ok(s, r),
        s.x < s.y,
    ensures
        state_ok(advance(opened(s)), r),
{
}

/// The marks due at one state are inside the corner box, and their coverage
/// is in range.
pub proof fn lemma_step_marks_fit(s: ArcState, r: int)
    requires
        state_ok(s, r),
        s.x < s.y,
    ensures
        forall|i: int|
            0 <= i < opening_marks(s).len() ==> mark_within(#[trigger] opening_marks(s)[i], r)
                && coverage_ok(opening_marks(s)[i]),
        forall|i: int|
            0 <= i < crossing_marks(opened(s)).len() ==> mark_within(
                #[trigger] crossing_marks(opened(s))[i],
                r,
            ) && coverage_ok(crossing_marks(opened(s))[i]),
{
}

/// Adding a stroke to a list adds its mark to the list's marks.
pub proof fn lemma_marks_push(strokes: Seq<Stroke>, stroke: Stroke)
    ensures
        marks_of(strokes.push(stroke)) == marks_of(strokes).push(stroke@),
{
    assert(marks_of(strokes.push(stroke)) =~= marks_of(strokes).push(stroke@));
}

/// Walks the arc of a corner of radius `r` and lists, in order, what it asks
/// of the corner. Fails where the walk yields a coverage value that is no
/// 256th of a pixel, which can only be the one for the pixel on the diagonal.
pub fn trace_arc(r: u32) -> (traced: Result<Vec<Stroke>, RoundError>)
    ensures
        traced matches Ok(strokes) ==> {
            &&& arc_sound(r as int)
            &&& marks_of(strokes@) == arc_marks(r as int)
            &&& forall|i: int|
                0 <= i < strokes.len() ==> mark_within(#[trigger] strokes[i]@, r as int)
                    && coverage_ok(strokes[i]@)
        },
        traced matches Err(e) ==> e == RoundError::CoverageOutOfRange && !arc_sound(r as int),
{
    let mut strokes: Vec<Stroke> = Vec::new();
    if r == 0 {
        assert(marks_of(strokes@) =~= arc_marks(0));
        return Ok(strokes);
    }
    let scaled: u64 = 16 * (r as u64);
    let mut x: u64 = 0;
    let mut y: u64 = scaled - 1;
    let mut p: i64 = 2 - (scaled as i64);
    let mut acc: u16 = 0;
    proof {
        lemma_start_ok(r as int);
        assert(marks_of(strokes@) + marks_from(arc_start(r as int)) =~= arc_marks(r as int));
    }
    while x < y
        invariant
            r >= 1,
            state_ok(ArcState { x: x as int, y: y as int, p: p as int, acc: acc as int }, r as int),
            marks_of(strokes@) + marks_from(
                ArcState { x: x as int, y: y as int, p: p as int, acc: acc as int },
            ) == arc_marks(r as int),
            forall|i: int|
                0 <= i < strokes.len() ==> mark_within(#[trigger] strokes[i]@, r as int)
                    && coverage_ok(strokes[i]@),
        decreases y + 1 - x,
    {
        let ghost s = ArcState { x: x as int, y: y as int, p: p as int, acc: acc as int };
        let ghost before = strokes@;
        proof {
            lemma_advance_ok(s, r as int);
            lemma_step_marks_fit(s, r as int);
        }
        if x % 16 == 0 {
            let lane: u32 = (x / 16) as u32;
            let row: u32 = (y / 16) as u32;
            proof {
                lemma_marks_push(strokes@, Stroke::ClearBeyond { lane, from: (row + 1) as u32 });
            }
            strokes.push(Stroke::ClearBeyond { lane, from: row + 1 });
            if acc != 0 {
                proof {
                    lemma_marks_push(strokes@, Stroke::Blend { x: (lane - 1) as u32, y: row, coverage: acc });
                }
                strokes.push(Stroke::Blend { x: lane - 1, y: row, coverage: acc });
                proof {
                    lemma_marks_push(strokes@, Stroke::Blend { x: row, y: (lane - 1) as u32, coverage: acc });
                }
                strokes.push(Stroke::Blend { x: row, y: lane - 1, coverage: acc });
                acc = 0;
            }
        }
        assert(marks_of(strokes@) =~= marks_of(before) + opening_marks(s));
        let ghost entered = strokes@;
        if p >= 0 && y % 16 == 0 {
            let lane: u32 = (x / 16) as u32;
            let row: u32 = (y / 16) as u32;
            proof {
                lemma_marks_push(strokes@, Stroke::Blend { x: lane, y: row, coverage: (acc + 1) as u16 });
            }
            strokes.push(Stroke::Blend { x: lane, y: row, coverage: acc + 1 });
            proof {
                lemma_marks_push(strokes@, Stroke::Blend { x: row, y: lane, coverage: (acc + 1) as u16 });
            }
            strokes.push(Stroke::Blend { x: row, y: lane, coverage: acc + 1 });
        }
        assert(marks_of(strokes@) =~= marks_of(entered) + crossing_marks(opened(s)));
        acc = acc + (y % 16) as u16 + 1;
        if p < 0 {
            p = p + 2 * (x as i64) + 4;
            x = x + 1;
        } else {
            p = p - 2 * ((y - x) as i64);
            if y % 16 == 0 {
                acc = (((x + 1) % 16) * 16) as u16;
            }
            x = x + 1;
            y = y - 1;
        }
        proof {
            let next = advance(opened(s));
            assert(next == ArcState { x: x as int, y: y as int, p: p as int, acc: acc as int });
            assert(marks_of(strokes@) + marks_from(next) =~= marks_of(before) + marks_from(s));
        }
    }
    let ghost end = ArcState { x: x as int, y: y as int, p: p as int, acc: acc as int };
    let ghost looped = strokes@;
    if x / 16 == y / 16 {
        let side: i64 = (y % 16) as i64 + 1;
        assert(1 <= side * side <= 256) by (nonlinear_arith)
            requires
                1 <= side <= 16,
        ;
        let coverage: i64 = 2 * (acc as i64) - side * side;
        if coverage < 1 || coverage > 256 {
            proof {
                let at = marks_of(looped).len() as int;
                assert(arc_marks(r as int)[at] == closing_marks(end)[0]);
                assert(!coverage_ok(arc_marks(r as int)[at]));
            }
            return Err(RoundError::CoverageOutOfRange);
        }
        let lane: u32 = (x / 16) as u32;
        proof {
            lemma_marks_push(strokes@, Stroke::Blend { x: lane, y: lane, coverage: coverage as u16 });
        }
        strokes.push(Stroke::Blend { x: lane, y: lane, coverage: coverage as u16 });
    }
    let from: u32 = (y / 16 + 1) as u32;
    proof {
        lemma_marks_push(strokes@, Stroke::ClearCorner { from });
    }
    strokes.push(Stroke::ClearCorner { from });
    proof {
        assert(marks_of(strokes@) =~= marks_of(looped) + closing_marks(end));
        assert forall|i: int| 0 <= i < arc_marks(r as int).len() implies coverage_ok(
            #[trigger] arc_marks(r as int)[i],
        ) by {
            assert(arc_marks(r as int)[i] == strokes[i]@);
        }
    }
    Ok(strokes)
}

/// Whether a mark is for the pixel at offset `(i, j)`, whatever the size of
/// the corner box.
pub open spec fn touches(m: Mark, i: int, j: int) -> bool {
    match m {
        Mark::Blend { x, y, coverage } => i == x && j == y,
        Mark::ClearBeyond { lane, from } => (i == lane && from <= j) || (j == lane && from <= i),
        Mark::ClearCorner { from } => from <= i && from <= j,
    }
}

/// Whether no two blends of the list are for the same pixel.
pub open spec fn blends_distinct(marks: Seq<Mark>) -> bool {
    forall|i: int, j: int|
        0 <= i < j < marks.len() && (#[trigger] marks[i]) is Blend && (#[trigger] marks[j]) is Blend ==> !(
        marks[i]->x == marks[j]->x && marks[i]->y == marks[j]->y)
}

/// Whether the pixel of every blend of the list is touched by no other mark
/// of the list.
pub open spec fn blends_alone(marks: Seq<Mark>) -> bool {
    forall|k: int, other: int|
        0 <= k < marks.len() && 0 <= other < marks.len() && k != other && (#[trigger] marks[k]) is Blend
            ==> !touches(#[trigger] marks[other], marks[k]->x, marks[k]->y)
}

/// Whether the walk has left a mark behind. A blend is off the diagonal, and
/// its pixel lies in a column that the walk has entered and either finished
/// or left the pixel's row of (for a mirrored blend with column and row
/// exchanged). A cleared lane has been entered, and the walk is inside of
/// where the clearing begins.
pub open spec fn left_behind(m: Mark, s: ArcState) -> bool {
    match m {
        Mark::Blend { x, y, coverage } => {
            &&& x != y
            &&& x < y ==> 16 * x < s.x && (16 * x + 17 <= s.x || s.y < 16 * y)
            &&& y < x ==> 16 * y < s.x && (16 * y + 17 <= s.x || s.y < 16 * x)
        },
        Mark::ClearBeyond { lane, from } => lane < from && s.y < 16 * from,
        Mark::ClearCorner { from } => false,
    }
}

/// Whether the walk has left every mark of the list behind.
pub open spec fn all_behind(marks: Seq<Mark>, s: ArcState) -> bool {
    forall|k: int| 0 <= k < marks.len() ==> left_behind(#[trigger] marks[k], s)
}

/// Whether a mark and the marks of a list keep off each other's blends.
pub open spec fn keeps_off(m: Mark, marks: Seq<Mark>) -> bool {
    &&& m is Blend ==> forall|k: int| 0 <= k < marks.len() ==> !touches(#[trigger] marks[k], m->x, m->y)
    &&& forall|k: int|
        0 <= k < marks.len() && (#[trigger] marks[k]) is Blend ==> !touches(m, marks[k]->x, marks[k]->y)
}

/// A mark that keeps off the blends of a list, and they off its own, can
/// join the list.
proof fn lemma_push_alone(marks: Seq<Mark>, m: Mark)
    requires
        blends_alone(marks),
        keeps_off(m, marks),
    ensures
        blends_alone(marks.push(m)),
{
    let longer = marks.push(m);
    assert forall|k: int, other: int|
        0 <= k < longer.len() && 0 <= other < longer.len() && k != other && (#[trigger] longer[k]) is Blend implies !touches(
        #[trigger] longer[other],
        longer[k]->x,
        longer[k]->y,
    ) by {
        if k < marks.len() {
            assert(longer[k] == marks[k]);
        }
        if other < marks.len() {
            assert(longer[other] == marks[other]);
        }
    }
}

/// From any state that the walk passes through, with marks behind it that
/// keep off each other's blends, the walk goes on without touching the pixel
/// of any blend a second time.
proof fn lemma_walk_alone(before: Seq<Mark>, s: ArcState, r: int)
    requires
        state_ok(s, r),
        blends_alone(before),
        all_behind(before, s),
    ensures
        blends_alone(before + marks_from(s)),
    decreases s.y - s.x + 1,
{
    if s.x >= s.y {
        let corner = Mark::ClearCorner { from: s.y / 16 + 1 };
        let mut so_far = before;
        if s.x / 16 == s.y / 16 {
            let diagonal = Mark::Blend { x: s.x / 16, y: s.y / 16, coverage: diagonal_coverage(s) };
            assert(keeps_off(diagonal, so_far)) by {
                assert forall|k: int| 0 <= k < so_far.len() implies !touches(
                    #[trigger] so_far[k],
                    diagonal->x,
                    diagonal->y,
                ) && (so_far[k] is Blend ==> !touches(diagonal, so_far[k]->x, so_far[k]->y)) by {
                    assert(left_behind(before[k], s));
                }
            }
            lemma_push_alone(so_far, diagonal);
            so_far = so_far.push(diagonal);
        }
        assert(keeps_off(corner, so_far)) by {
            assert forall|k: int| 0 <= k < so_far.len() && (#[trigger] so_far[k]) is Blend implies !touches(
                corner,
                so_far[k]->x,
                so_far[k]->y,
            ) by {
                if k < before.len() {
                    assert(so_far[k] == before[k]);
                    assert(left_behind(before[k], s));
                }
            }
        }
        lemma_push_alone(so_far, corner);
        assert(before + marks_from(s) =~= so_far.push(corner));
    } else {
        let entered = opened(s);
        let next = advance(entered);
        lemma_advance_ok(s, r);
        let mut so_far = before;
        if s.x % 16 == 0 {
            let beyond = Mark::ClearBeyond { lane: s.x / 16, from: s.y / 16 + 1 };
            assert(keeps_off(beyond, so_far)) by {
                assert forall|k: int| 0 <= k < so_far.len() && (#[trigger] so_far[k]) is Blend implies !touches(
                    beyond,
                    so_far[k]->x,
                    so_far[k]->y,
                ) by {
                    assert(left_behind(before[k], s));
                }
            }
            lemma_push_alone(so_far, beyond);
            so_far = so_far.push(beyond);
            if s.acc != 0 {
                let last = Mark::Blend { x: s.x / 16 - 1, y: s.y / 16, coverage: s.acc };
                let mirrored = Mark::Blend { x: s.y / 16, y: s.x / 16 - 1, coverage: s.acc };
                assert(keeps_off(last, so_far)) by {
                    assert forall|k: int| 0 <= k < so_far.len() implies !touches(
                        #[trigger] so_far[k],
                        last->x,
                        last->y,
                    ) && (so_far[k] is Blend ==> !touches(last, so_far[k]->x, so_far[k]->y)) by {
                        if k < before.len() {
                            assert(so_far[k] == before[k]);
                            assert(left_behind(before[k], s));
                        }
                    }
                }
                lemma_push_alone(so_far, last);
                so_far = so_far.push(last);
                assert(keeps_off(mirrored, so_far)) by {
                    assert forall|k: int| 0 <= k < so_far.len() implies !touches(
                        #[trigger] so_far[k],
                        mirrored->x,
                        mirrored->y,
                    ) && (so_far[k] is Blend ==> !touches(mirrored, so_far[k]->x, so_far[k]->y)) by {
                        if k < before.len() {
                            assert(so_far[k] == before[k]);
                            assert(left_behind(before[k], s));
                        }
                    }
                }
                lemma_push_alone(so_far, mirrored);
                so_far = so_far.push(mirrored);
            }
        }
        assert(so_far =~= before + opening_marks(s));
        let entered_marks = so_far;
        if crossing(entered) {
            let left = Mark::Blend { x: s.x / 16, y: s.y / 16, coverage: entered.acc + 1 };
            let mirrored = Mark::Blend { x: s.y / 16, y: s.x / 16, coverage: entered.acc + 1 };
            assert(keeps_off(left, so_far)) by {
                assert forall|k: int| 0 <= k < so_far.len() implies !touches(
                    #[trigger] so_far[k],
                    left->x,
                    left->y,
                ) && (so_far[k] is Blend ==> !touches(left, so_far[k]->x, so_far[k]->y)) by {
                    if k < before.len() {
                        assert(so_far[k] == before[k]);
                        assert(left_behind(before[k], s));
                    } else {
                        assert(so_far[k] == opening_marks(s)[k - before.len()]);
                    }
                }
            }
            lemma_push_alone(so_far, left);
            so_far = so_far.push(left);
            assert(keeps_off(mirrored, so_far)) by {
                assert forall|k: int| 0 <= k < so_far.len() implies !touches(
                    #[trigger] so_far[k],
                    mirrored->x,
                    mirrored->y,
                ) && (so_far[k] is Blend ==> !touches(mirrored, so_far[k]->x, so_far[k]->y)) by {
                    if k < before.len() {
                        assert(so_far[k] == before[k]);
                        assert(left_behind(before[k], s));
                    } else if k < entered_marks.len() {
                        assert(so_far[k] == opening_marks(s)[k - before.len()]);
                    }
                }
            }
            lemma_push_alone(so_far, mirrored);
            so_far = so_far.push(mirrored);
        }
        assert(so_far =~= entered_marks + crossing_marks(entered));
        assert(all_behind(so_far, next)) by {
            assert forall|k: int| 0 <= k < so_far.len() implies left_behind(#[trigger] so_far[k], next) by {
                if k < before.len() {
                    assert(so_far[k] == before[k]);
                    assert(left_behind(before[k], s));
                } else if k < entered_marks.len() {
                    assert(so_far[k] == opening_marks(s)[k - before.len()]);
                } else {
                    assert(so_far[k] == crossing_marks(entered)[k - entered_marks.len()]);
                }
            }
        }
        lemma_walk_alone(so_far, next, r);
        assert(before + marks_from(s) =~= so_far + marks_from(next));
    }
}

/// Within the walk of one corner, the pixel of a blend is touched by no
/// other mark: it is neither blended a second time nor cleared.
pub proof fn lemma_blends_alone(r: int)
    ensures
        blends_alone(arc_marks(r)),
{
    if r >= 1 {
        lemma_start_ok(r);
        let nothing = Seq::<Mark>::empty();
        lemma_walk_alone(nothing, arc_start(r), r);
        assert(nothing + marks_from(arc_start(r)) =~= arc_marks(r));
    }
}

/// Within the walk of one corner no pixel is blended twice, whatever the
/// radius.
pub proof fn lemma_blends_distinct(r: int)
    ensures
        blends_distinct(arc_marks(r)),
{
    lemma_blends_alone(r);
    let marks = arc_marks(r);
    assert forall|i: int, j: int|
        0 <= i < j < marks.len() && (#[trigger] marks[i]) is Blend && (#[trigger] marks[j]) is Blend implies !(
    marks[i]->x == marks[j]->x && marks[i]->y == marks[j]->y) by {
        assert(!touches(marks[j], marks[i]->x, marks[i]->y));
    }
}

/// Whether a mark stays inside the corner box of side `r` and, unless it is
/// the blend for a pixel on the diagonal, has a coverage in `1..=256`.
pub open spec fn mark_fits(m: Mark, r: int) -> bool {
    mark_within(m, r) && (coverage_ok(m) || (m is Blend && m->x == m->y))
}

/// Whether every mark of the list fits the corner box of side `r`.
pub open spec fn all_fit(marks: Seq<Mark>, r: int) -> bool {
    forall|k: int| 0 <= k < marks.len() ==> mark_fits(#[trigger] marks[k], r)
}

/// From any state that the walk passes through, with marks behind it that
/// fit, the walk goes on with marks that fit.
proof fn lemma_walk_fits(before: Seq<Mark>, s: ArcState, r: int)
    requires
        state_ok(s, r),
        all_fit(before, r),
    ensures
        all_fit(before + marks_from(s), r),
    decreases s.y - s.x + 1,
{
    if s.x < s.y {
        let now = before + opening_marks(s) + crossing_marks(opened(s));
        lemma_advance_ok(s, r);
        lemma_step_marks_fit(s, r);
        assert forall|k: int| 0 <= k < now.len() implies mark_fits(#[trigger] now[k], r) by {
            if k < before.len() {
                assert(now[k] == before[k]);
            } else if k < before.len() + opening_marks(s).len() {
                assert(now[k] == opening_marks(s)[k - before.len()]);
            } else {
                assert(now[k] == crossing_marks(opened(s))[k - before.len() - opening_marks(s).len()]);
            }
        }
        lemma_walk_fits(now, advance(opened(s)), r);
        assert(before + marks_from(s) =~= now + marks_from(advance(opened(s))));
    } else {
        let all = before + marks_from(s);
        assert forall|k: int| 0 <= k < all.len() implies mark_fits(#[trigger] all[k], r) by {
            if k < before.len() {
                assert(all[k] == before[k]);
            } else {
                assert(all[k] == closing_marks(s)[k - before.len()]);
            }
        }
    }
}

/// Every mark of the walk of a corner stays inside the corner's box, and
/// every coverage value is between 1 and 256 but, at most, the one for the
/// pixel on the diagonal.
pub proof fn lemma_marks_fit(r: int)
    ensures
        all_fit(arc_marks(r), r),
{
    if r >= 1 {
        lemma_start_ok(r);
        let nothing = Seq::<Mark>::empty();
        lemma_walk_fits(nothing, arc_start(r), r);
        assert(nothing + marks_from(arc_start(r)) =~= arc_marks(r));
    }
}

/// Whether no pixel is touched by two clearing marks of the list.
pub open spec fn clears_apart(marks: Seq<Mark>) -> bool {
    forall|k: int, other: int, i: int, j: int|
        0 <= k < other < marks.len() && !(marks[k] is Blend) && !(marks[other] is Blend) ==> !(
        #[trigger] touches(marks[k], i, j) && #[trigger] touches(marks[other], i, j))
}

/// Whether no pixel is touched by two marks of the list.
pub open spec fn marks_apart(marks: Seq<Mark>) -> bool {
    forall|k: int, other: int, i: int, j: int|
        0 <= k < marks.len() && 0 <= other < marks.len() && k != other ==> !(#[trigger] touches(
            marks[k],
            i,
            j,
        ) && #[trigger] touches(marks[other], i, j))
}

/// Whether the walk has passed the lane of a clearing mark. The corner
/// square is cleared last, so the walk never has it behind it.
pub open spec fn lane_passed(m: Mark, s: ArcState) -> bool {
    match m {
        Mark::Blend { x, y, coverage } => true,
        Mark::ClearBeyond { lane, from } => lane < from && 16 * lane < s.x,
        Mark::ClearCorner { from } => false,
    }
}

/// Whether the walk has passed the lanes of all clearing marks of the list.
pub open spec fn lanes_passed(marks: Seq<Mark>, s: ArcState) -> bool {
    forall|k: int| 0 <= k < marks.len() ==> lane_passed(#[trigger] marks[k], s)
}

/// A mark that clears no pixel which the clearing marks of a list touch can
/// join the list.
proof fn lemma_push_clear(marks: Seq<Mark>, m: Mark)
    requires
        clears_apart(marks),
        m is Blend || forall|k: int, i: int, j: int|
            0 <= k < marks.len() && !(marks[k] is Blend) ==> !(#[trigger] touches(marks[k], i, j) && touches(
                m,
                i,
                j,
            )),
    ensures
        clears_apart(marks.push(m)),
{
    let longer = marks.push(m);
    assert forall|k: int, other: int, i: int, j: int|
        0 <= k < other < longer.len() && !(longer[k] is Blend) && !(longer[other] is Blend) implies !(
    #[trigger] touches(longer[k], i, j) && #[trigger] touches(longer[other], i, j)) by {
        assert(longer[k] == marks[k]);
        if other < marks.len() {
            assert(longer[other] == marks[other]);
        } else {
            if touches(marks[k], i, j) {
                assert(!touches(m, i, j));
            }
        }
    }
}

/// From any state that the walk passes through, with clearing marks behind
/// it that share no pixel, the walk goes on without clearing a pixel twice.
proof fn lemma_walk_clears(before: Seq<Mark>, s: ArcState, r: int)
    requires
        state_ok(s, r),
        clears_apart(before),
        lanes_passed(before, s),
    ensures
        clears_apart(before + marks_from(s)),
    decreases s.y - s.x + 1,
{
    if s.x >= s.y {
        let corner = Mark::ClearCorner { from: s.y / 16 + 1 };
        let mut so_far = before;
        if s.x / 16 == s.y / 16 {
            let diagonal = Mark::Blend { x: s.x / 16, y: s.y / 16, coverage: diagonal_coverage(s) };
            lemma_push_clear(so_far, diagonal);
            so_far = so_far.push(diagonal);
        }
        assert forall|k: int, i: int, j: int| 0 <= k < so_far.len() && !(so_far[k] is Blend) implies !(
        #[trigger] touches(so_far[k], i, j) && touches(corner, i, j)) by {
            if k < before.len() {
                assert(so_far[k] == before[k]);
                assert(lane_passed(before[k], s));
            }
        }
        lemma_push_clear(so_far, corner);
        assert(before + marks_from(s) =~= so_far.push(corner));
    } else {
        let entered = opened(s);
        let next = advance(entered);
        lemma_advance_ok(s, r);
        let mut so_far = before;
        if s.x % 16 == 0 {
            let beyond = Mark::ClearBeyond { lane: s.x / 16, from: s.y / 16 + 1 };
            assert forall|k: int, i: int, j: int| 0 <= k < so_far.len() && !(so_far[k] is Blend) implies !(
            #[trigger] touches(so_far[k], i, j) && touches(beyond, i, j)) by {
                assert(lane_passed(before[k], s));
            }
            lemma_push_clear(so_far, beyond);
            so_far = so_far.push(beyond);
            if s.acc != 0 {
                let last = Mark::Blend { x: s.x / 16 - 1, y: s.y / 16, coverage: s.acc };
                let mirrored = Mark::Blend { x: s.y / 16, y: s.x / 16 - 1, coverage: s.acc };
                lemma_push_clear(so_far, last);
                so_far = so_far.push(last);
                lemma_push_clear(so_far, mirrored);
                so_far = so_far.push(mirrored);
            }
        }
        assert(so_far =~= before + opening_marks(s));
        let entered_marks = so_far;
        if crossing(entered) {
            let left = Mark::Blend { x: s.x / 16, y: s.y / 16, coverage: entered.acc + 1 };
            let mirrored = Mark::Blend { x: s.y / 16, y: s.x / 16, coverage: entered.acc + 1 };
            lemma_push_clear(so_far, left);
            so_far = so_far.push(left);
            lemma_push_clear(so_far, mirrored);
            so_far = so_far.push(mirrored);
        }
        assert(so_far =~= entered_marks + crossing_marks(entered));
        assert(lanes_passed(so_far, next)) by {
            assert forall|k: int| 0 <= k < so_far.len() implies lane_passed(#[trigger] so_far[k], next) by {
                if k < before.len() {
                    assert(so_far[k] == before[k]);
                    assert(lane_passed(before[k], s));
                } else if k < entered_marks.len() {
                    assert(so_far[k] == opening_marks(s)[k - before.len()]);
                } else {
                    assert(so_far[k] == crossing_marks(entered)[k - entered_marks.len()]);
                }
            }
        }
        lemma_walk_clears(so_far, next, r);
        assert(before + marks_from(s) =~= so_far + marks_from(next));
    }
}

/// Within the walk of one corner no pixel is touched by two marks: each pixel
/// of the corner is blended once, or cleared once, or left alone. The pixels
/// that end transparent can so be counted from the marks.
pub proof fn lemma_marks_apart(r: int)
    ensures
        marks_apart(arc_marks(r)),
{
    let marks = arc_marks(r);
    lemma_blends_alone(r);
    if r >= 1 {
        lemma_start_ok(r);
        let nothing = Seq::<Mark>::empty();
        lemma_walk_clears(nothing, arc_start(r), r);
        assert(nothing + marks_from(arc_start(r)) =~= marks);
    }
    assert forall|k: int, other: int, i: int, j: int|
        0 <= k < marks.len() && 0 <= other < marks.len() && k != other implies !(#[trigger] touches(
        marks[k],
        i,
        j,
    ) && #[trigger] touches(marks[other], i, j)) by {
        if marks[k] is Blend {
            assert(!touches(marks[other], marks[k]->x, marks[k]->y));
        } else if marks[other] is Blend {
            assert(!touches(marks[k], marks[other]->x, marks[other]->y));
        } else if k < other {
            assert(!(touches(marks[k], i, j) && touches(marks[other], i, j)));
        } else {
            assert(!(touches(marks[other], i, j) && touches(marks[k], i, j)));
        }
    }
}

/// The state of the walk for radius `r` after `n` sub-steps.
pub open spec fn arc_state(r: int, n: nat) -> ArcState
    decreases n,
{
    if n == 0 {
        arc_start(r)
    } else {
        advance(opened(arc_state(r, (n - 1) as nat)))
    }
}

/// The walk follows a circle. After any number of sub-steps `x` is that
/// number, and four times the decision variable is the squared distance of
/// `(2x + 3, 2y + 5)` from the centre, plus 6, less the square of `32r + 4`:
/// the variable is negative while the point lies inside that circle.
pub proof fn lemma_walk_follows_circle(r: int, n: nat)
    ensures
        arc_state(r, n).x == n,
        4 * arc_state(r, n).p == (2 * arc_state(r, n).x + 3) * (2 * arc_state(r, n).x + 3) + (2
            * arc_state(r, n).y + 5) * (2 * arc_state(r, n).y + 5) + 6 - (32 * r + 4) * (32 * r + 4),
    decreases n,
{
    if n == 0 {
        let s = arc_start(r);
        assert(4 * s.p == (2 * s.x + 3) * (2 * s.x + 3) + (2 * s.y + 5) * (2 * s.y + 5) + 6 - (32 * r + 4)
            * (32 * r + 4)) by (nonlinear_arith)
            requires
                s.x == 0,
                s.y == 16 * r - 1,
                s.p == 2 - 16 * r,
        ;
    } else {
        lemma_walk_follows_circle(r, (n - 1) as nat);
        let s = arc_state(r, (n - 1) as nat);
        let t = arc_state(r, n);
        assert(4 * t.p == (2 * t.x + 3) * (2 * t.x + 3) + (2 * t.y + 5) * (2 * t.y + 5) + 6 - (32 * r + 4)
            * (32 * r + 4)) by (nonlinear_arith)
            requires
                4 * s.p == (2 * s.x + 3) * (2 * s.x + 3) + (2 * s.y + 5) * (2 * s.y + 5) + 6 - (32 * r
                    + 4) * (32 * r + 4),
                t.x == s.x + 1,
                (t.y == s.y && t.p == s.p + 2 * s.x + 4) || (t.y == s.y - 1 && t.p == s.p - 2 * (s.y
                    - s.x)),
        ;
    }
}

/// Whether the decision variable of a state is what the circle gives it for
/// the state's position.
pub open spec fn on_circle(s: ArcState, r: int) -> bool {
    4 * s.p == (2 * s.x + 3) * (2 * s.x + 3) + (2 * s.y + 5) * (2 * s.y + 5) + 6 - (32 * r + 4) * (32
        * r + 4)
}

/// Whether a mark lies where the circle of radius `r` says. A blend is for
/// a pixel that the ring between the circles of radius `r - 1` and `r + 1`
/// passes through: its far corner lies outside the smaller circle and its
/// near corner inside the larger one. What a clearing mark touches begins
/// outside the circle of radius `r - 1`.
pub open spec fn near_circle(m: Mark, r: int) -> bool {
    match m {
        Mark::Blend { x, y, coverage } => {
            &&& x >= 0 && y >= 0
            &&& (r - 1) * (r - 1) < (x + 1) * (x + 1) + (y + 1) * (y + 1)
            &&& x * x + y * y < (r + 1) * (r + 1)
        },
        Mark::ClearBeyond { lane, from } => {
            &&& lane >= 0 && from >= 0
            &&& (r - 1) * (r - 1) < lane * lane + from * from
        },
        Mark::ClearCorner { from } => {
            &&& from >= 0
            &&& (r - 1) * (r - 1) < from * from + from * from
        },
    }
}

/// Whether every mark of the list lies where the circle says.
pub open spec fn all_near(marks: Seq<Mark>, r: int) -> bool {
    forall|k: int| 0 <= k < marks.len() ==> near_circle(#[trigger] marks[k], r)
}

/// The walk starts on the circle.
pub proof fn lemma_start_on_circle(r: int)
    ensures
        on_circle(arc_start(r), r),
{
    let s = arc_start(r);
    assert(on_circle(s, r)) by (nonlinear_arith)
        requires
            s.x == 0,
            s.y == 16 * r - 1,
            s.p == 2 - 16 * r,
    ;
}

/// A sub-step keeps the walk on the circle.
pub proof fn lemma_advance_on_circle(s: ArcState, r: int)
    requires
        on_circle(s, r),
    ensures
        on_circle(advance(opened(s)), r),
{
    let t = advance(opened(s));
    assert(on_circle(t, r)) by (nonlinear_arith)
        requires
            on_circle(s, r),
            t.x == s.x + 1,
            (t.y == s.y && t.p == s.p + 2 * s.x + 4) || (t.y == s.y - 1 && t.p == s.p - 2 * (s.y - s.x)),
    ;
}

/// A state of the walk lies within a pixel of the circle: in sub-steps, its
/// position is inside the circle of radius `16r + 16`, and one row further
/// out it is outside the circle of radius `16r - 16`.
pub proof fn lemma_state_near_circle(s: ArcState, r: int)
    requires
        state_ok(s, r),
        on_circle(s, r),
    ensures
        s.x * s.x + s.y * s.y < (16 * r + 16) * (16 * r + 16),
        s.x * s.x + (s.y + 1) * (s.y + 1) > (16 * r - 16) * (16 * r - 16),
{
    assert(s.x * s.x + s.y * s.y < (16 * r + 16) * (16 * r + 16)) by (nonlinear_arith)
        requires
            on_circle(s, r),
            0 <= s.x,
            0 <= s.y,
            s.p <= 32 * r + 4,
            r >= 1,
    ;
    assert(s.x * s.x + (s.y + 1) * (s.y + 1) > (16 * r - 16) * (16 * r - 16)) by (nonlinear_arith)
        requires
            on_circle(s, r),
            0 <= s.x <= s.y + 1,
            0 <= s.y <= 16 * r - 1,
            -32 * r <= s.p,
            r >= 1,
    ;
}

/// A pixel whose near corner `(16i, 16j)` is no further out than a position
/// inside the circle of radius `16r + 16` has that corner inside the circle
/// of radius `r + 1`, in pixels.
proof fn lemma_inside_outer(i: int, j: int, x: int, y: int, r: int)
    requires
        0 <= 16 * i <= x,
        0 <= 16 * j <= y,
        x * x + y * y < (16 * r + 16) * (16 * r + 16),
    ensures
        i * i + j * j < (r + 1) * (r + 1),
{
    assert((16 * i) * (16 * i) <= x * x) by (nonlinear_arith)
        requires
            0 <= 16 * i <= x,
    ;
    assert((16 * j) * (16 * j) <= y * y) by (nonlinear_arith)
        requires
            0 <= 16 * j <= y,
    ;
    assert((16 * i) * (16 * i) == 256 * (i * i)) by (nonlinear_arith);
    assert((16 * j) * (16 * j) == 256 * (j * j)) by (nonlinear_arith);
    assert((16 * r + 16) * (16 * r + 16) == 256 * ((r + 1) * (r + 1))) by (nonlinear_arith);
}

/// A point `(16a, 16b)` that is no further in than a position outside the
/// circle of radius `16r - 16` lies outside the circle of radius `r - 1`, in
/// pixels.
proof fn lemma_outside_inner(a: int, b: int, u: int, v: int, r: int)
    requires
        0 <= u <= 16 * a,
        0 <= v <= 16 * b,
        u * u + v * v > (16 * r - 16) * (16 * r - 16),
    ensures
        (r - 1) * (r - 1) < a * a + b * b,
{
    assert(u * u <= (16 * a) * (16 * a)) by (nonlinear_arith)
        requires
            0 <= u <= 16 * a,
    ;
    assert(v * v <= (16 * b) * (16 * b)) by (nonlinear_arith)
        requires
            0 <= v <= 16 * b,
    ;
    assert((16 * a) * (16 * a) == 256 * (a * a)) by (nonlinear_arith);
    assert((16 * b) * (16 * b) == 256 * (b * b)) by (nonlinear_arith);
    assert((16 * r - 16) * (16 * r - 16) == 256 * ((r - 1) * (r - 1))) by (nonlinear_arith);
}

/// The marks due at one state of the walk lie where the circle says.
proof fn lemma_step_near(s: ArcState, r: int)
    requires
        state_ok(s, r),
        on_circle(s, r),
        s.x < s.y,
    ensures
        all_near(opening_marks(s), r),
        all_near(crossing_marks(opened(s)), r),
{
    lemma_state_near_circle(s, r);
    let i = s.x / 16;
    let j = s.y / 16;
    if s.x % 16 == 0 {
        lemma_outside_inner(i, j + 1, s.x, s.y + 1, r);
        lemma_outside_inner(j + 1, i, s.y + 1, s.x, r);
        if s.acc != 0 {
            lemma_inside_outer(i - 1, j, s.x, s.y, r);
            lemma_inside_outer(j, i - 1, s.y, s.x, r);
        }
    }
    if crossing(opened(s)) {
        lemma_inside_outer(i, j, s.x, s.y, r);
        lemma_inside_outer(j, i, s.y, s.x, r);
        lemma_outside_inner(i + 1, j + 1, s.x, s.y + 1, r);
        lemma_outside_inner(j + 1, i + 1, s.y + 1, s.x, r);
    }
    assert forall|k: int| 0 <= k < opening_marks(s).len() implies near_circle(
        #[trigger] opening_marks(s)[k],
        r,
    ) by {}
    assert forall|k: int| 0 <= k < crossing_marks(opened(s)).len() implies near_circle(
        #[trigger] crossing_marks(opened(s))[k],
        r,
    ) by {}
}

/// The marks due at the end of the walk lie where the circle says.
proof fn lemma_close_near(s: ArcState, r: int)
    requires
        state_ok(s, r),
        on_circle(s, r),
        s.x >= s.y,
    ensures
        all_near(closing_marks(s), r),
{
    lemma_state_near_circle(s, r);
    let i = s.x / 16;
    let j = s.y / 16;
    lemma_outside_inner(j + 1, j + 1, s.x, s.y + 1, r);
    if i == j {
        lemma_inside_outer(i, j, s.x, s.y, r);
    }
    assert forall|k: int| 0 <= k < closing_marks(s).len() implies near_circle(
        #[trigger] closing_marks(s)[k],
        r,
    ) by {}
}

/// From any state of the walk on the circle, with marks behind it that lie
/// where the circle says, the walk goes on with such marks.
proof fn lemma_walk_near(before: Seq<Mark>, s: ArcState, r: int)
    requires
        state_ok(s, r),
        on_circle(s, r),
        all_near(before, r),
    ensures
        all_near(before + marks_from(s), r),
    decreases s.y - s.x + 1,
{
    if s.x < s.y {
        let now = before + opening_marks(s) + crossing_marks(opened(s));
        lemma_advance_ok(s, r);
        lemma_advance_on_circle(s, r);
        lemma_step_near(s, r);
        assert forall|k: int| 0 <= k < now.len() implies near_circle(#[trigger] now[k], r) by {
            if k < before.len() {
                assert(now[k] == before[k]);
            } else if k < before.len() + opening_marks(s).len() {
                assert(now[k] == opening_marks(s)[k - before.len()]);
            } else {
                assert(now[k] == crossing_marks(opened(s))[k - before.len() - opening_marks(s).len()]);
            }
        }
        lemma_walk_near(now, advance(opened(s)), r);
        assert(before + marks_from(s) =~= now + marks_from(advance(opened(s))));
    } else {
        lemma_close_near(s, r);
        let all = before + marks_from(s);
        assert forall|k: int| 0 <= k < all.len() implies near_circle(#[trigger] all[k], r) by {
            if k < before.len() {
                assert(all[k] == before[k]);
            } else {
                assert(all[k] == closing_marks(s)[k - before.len()]);
            }
        }
    }
}

/// The marks of a corner follow the circle, whatever the radius. Every pixel
/// that is blended lies in the ring between the circles of radius `r - 1`
/// and `r + 1`, and what is cleared begins outside the circle of radius
/// `r - 1`.
pub proof fn lemma_marks_near_circle(r: int)
    ensures
        all_near(arc_marks(r), r),
{
    if r >= 1 {
        lemma_start_ok(r);
        lemma_start_on_circle(r);
        let nothing = Seq::<Mark>::empty();
        lemma_walk_near(nothing, arc_start(r), r);
        assert(nothing + marks_from(arc_start(r)) =~= arc_marks(r));
    }
}

/// A pixel that a clearing mark of a corner touches lies outside the circle
/// of radius `r - 1` around the centre: the square of its distance, counted
/// in pixels from the centre to its near corner, is more than that of
/// `r - 1`.
pub proof fn lemma_cleared_lies_outside(r: int, k: int, i: int, j: int)
    requires
        0 <= k < arc_marks(r).len(),
        !(arc_marks(r)[k] is Blend),
        touches(arc_marks(r)[k], i, j),
    ensures
        (r - 1) * (r - 1) < i * i + j * j,
{
    lemma_marks_near_circle(r);
    let m = arc_marks(r)[k];
    assert(near_circle(m, r));
    match m {
        Mark::ClearBeyond { lane, from } => {
            if i == lane && from <= j {
                assert(from * from <= j * j) by (nonlinear_arith)
                    requires
                        0 <= from <= j,
                ;
            } else {
                assert(from * from <= i * i) by (nonlinear_arith)
                    requires
                        0 <= from <= i,
                ;
            }
        },
        Mark::ClearCorner { from } => {
            assert(from * from <= i * i) by (nonlinear_arith)
                requires
                    0 <= from <= i,
            ;
            assert(from * from <= j * j) by (nonlinear_arith)
                requires
                    0 <= from <= j,
            ;
        },
        _ => {},
    }
}

} // verus!
