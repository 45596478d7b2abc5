//! Decoding the detector's output grid into an ordered list of candidates.
//!
//! The grid is scanned row-major (y outer, x inner). A cell qualifies when
//! its bit in the threshold mask is set; the mask is supplied by the caller,
//! who owns the floating-point reading of the scores, and is expected to hold
//! exactly the cells whose score clears the confidence threshold. For each
//! qualifying cell one [`Candidate`] is emitted, carrying the cell
//! coordinates, the pixel-space offsets (the network's output stride is 4),
//! the cell's raw score and its five raw geometry channels. Turning a
//! candidate into a rotated rectangle is a fixed trigonometric formula on
//! those values and is the caller's concern.

use vstd::prelude::*;

use crate::grid::GeoGrid;
use crate::grid::ScoreGrid;
use crate::grid::cell_index;
use crate::grid::lemma_cell_index_bounds;

verus! {

/// One qualifying grid cell, with everything the downstream rectangle
/// formula needs: cell coordinates, pixel-space offsets (stride 4), and the
/// cell's raw score and geometry channel patterns.
#[derive(Clone, Copy, Debug, PartialEq, Eq, Structural)]
pub struct Candidate {
    pub x: usize,
    pub y: usize,
    pub offset_x: usize,
    pub offset_y: usize,
    pub score: u32,
    pub dist_top: u32,
    pub dist_right: u32,
    pub dist_bottom: u32,
    pub dist_left: u32,
    pub angle: u32,
}

/// The candidate that cell (y, x) produces: its coordinates, offsets at
/// stride 4, its score, and its five geometry channels in tensor order.
pub open spec fn candidate_at(scores: ScoreGrid, geometry: GeoGrid, y: int, x: int) -> Candidate {
    Candidate {
        x: x as usize,
        y: y as usize,
        offset_x: (4 * x) as usize,
        offset_y: (4 * y) as usize,
        score: scores.score_at(y, x),
        dist_top: geometry.geo_at(0, y, x),
        dist_right: geometry.geo_at(1, y, x),
        dist_bottom: geometry.geo_at(2, y, x),
        dist_left: geometry.geo_at(3, y, x),
        angle: geometry.geo_at(4, y, x),
    }
}

/// The candidates of row y for cells 0 .. x, in scan order.
pub open spec fn row_candidates(
    scores: ScoreGrid,
    geometry: GeoGrid,
    mask: Seq<bool>,
    y: int,
    x: int,
) -> Seq<Candidate>
    decreases x,
{
    if x <= 0 {
        Seq::empty()
    } else {
        let prev = row_candidates(scores, geometry, mask, y, x - 1);
        if mask[cell_index(scores.width as int, y, x - 1)] {
            prev.push(candidate_at(scores, geometry, y, x - 1))
        } else {
            prev
        }
    }
}

/// The candidates of the full rows 0 .. y, in scan order.
pub open spec fn grid_candidates_upto(
    scores: ScoreGrid,
    geometry: GeoGrid,
    mask: Seq<bool>,
    y: int,
) -> Seq<Candidate>
    decreases y,
{
    if y <= 0 {
        Seq::empty()
    } else {
        grid_candidates_upto(scores, geometry, mask, y - 1) + row_candidates(
            scores,
            geometry,
            mask,
            y - 1,
            scores.width as int,
        )
    }
}

/// Everything the decoder emits, in row-major scan order.
pub open spec fn decoded(scores: ScoreGrid, geometry: GeoGrid, mask: Seq<bool>) -> Seq<Candidate> {
    grid_candidates_upto(scores, geometry, mask, scores.height as int)
}

/// Decode the score/geometry grids against a threshold mask.
///
/// The mask is row-major over the same grid; bit (y, x) says that the cell's
/// score clears the confidence threshold. The result holds one candidate per
/// set mask bit, in row-major scan order, each carrying its own cell's score
/// and geometry. The output is a pure function of the inputs: decoding the
/// same grids and mask twice gives identical results.
#[verifier::loop_isolation(false)]
pub fn decode(scores: &ScoreGrid, geometry: &GeoGrid, mask: &Vec<bool>) -> (out: Vec<Candidate>)
    requires
        scores.wf(),
        geometry.wf(),
        geometry.height == scores.height,
        geometry.width == scores.width,
        mask@.len() == scores.height * scores.width,
        4 * scores.width <= usize::MAX,
        4 * scores.height <= usize::MAX,
    ensures
        out@ == decoded(*scores, *geometry, mask@),
{
    let mut out: Vec<Candidate> = Vec::new();
    let _n: usize = mask.len();
    let height = scores.height;
    let width = scores.width;
    let mut y: usize = 0;
    assert(out@ =~= grid_candidates_upto(*scores, *geometry, mask@, 0));
    while y < height
        invariant
            y <= height,
            out@ == grid_candidates_upto(*scores, *geometry, mask@, y as int),
        decreases height - y,
    {
        let mut x: usize = 0;
        assert(row_candidates(*scores, *geometry, mask@, y as int, 0) =~= Seq::<
            Candidate,
        >::empty());
        assert(out@ =~= grid_candidates_upto(*scores, *geometry, mask@, y as int)
            + row_candidates(*scores, *geometry, mask@, y as int, 0));
        while x < width
            invariant
                x <= width,
                y < height,
                out@ == grid_candidates_upto(*scores, *geometry, mask@, y as int)
                    + row_candidates(*scores, *geometry, mask@, y as int, x as int),
            decreases width - x,
        {
            proof {
                lemma_cell_index_bounds(height as int, width as int, y as int, x as int);
            }
            if mask[y * width + x] {
                let cand = Candidate {
                    x,
                    y,
                    offset_x: 4 * x,
                    offset_y: 4 * y,
                    score: scores.at(y, x),
                    dist_top: geometry.at(0, y, x),
                    dist_right: geometry.at(1, y, x),
                    dist_bottom: geometry.at(2, y, x),
                    dist_left: geometry.at(3, y, x),
                    angle: geometry.at(4, y, x),
                };
                proof {
                    assert(cand == candidate_at(*scores, *geometry, y as int, x as int));
                }
                out.push(cand);
                proof {
                    assert(out@ =~= grid_candidates_upto(*scores, *geometry, mask@, y as int)
                        + row_candidates(*scores, *geometry, mask@, y as int, x as int + 1));
                }
            } else {
                proof {
                    assert(row_candidates(*scores, *geometry, mask@, y as int, x as int + 1)
                        =~= row_candidates(*scores, *geometry, mask@, y as int, x as int));
                }
            }
            x = x + 1;
        }
        proof {
            assert(grid_candidates_upto(*scores, *geometry, mask@, y as int + 1)
                == grid_candidates_upto(*scores, *geometry, mask@, y as int) + row_candidates(
                *scores,
                *geometry,
                mask@,
                y as int,
                width as int,
            ));
        }
        y = y + 1;
    }
    out
}

/// What it means for a candidate to be the honest record of a grid cell:
/// its coordinates are in range, the cell's mask bit is set, and every field
/// is exactly what [`candidate_at`] gives for that cell — in particular the
/// score and geometry are the cell's own.
pub open spec fn is_cell_candidate(
    scores: ScoreGrid,
    geometry: GeoGrid,
    mask: Seq<bool>,
    c: Candidate,
) -> bool {
    &&& c.y < scores.height
    &&& c.x < scores.width
    &&& mask[cell_index(scores.width as int, c.y as int, c.x as int)]
    &&& c == candidate_at(scores, geometry, c.y as int, c.x as int)
}

proof fn lemma_row_elements(
    scores: ScoreGrid,
    geometry: GeoGrid,
    mask: Seq<bool>,
    y: int,
    x: int,
)
    requires
        0 <= y < scores.height,
        x <= scores.width,
    ensures
        forall|i: int|
            0 <= i < row_candidates(scores, geometry, mask, y, x).len() ==> {
                is_cell_candidate(
                    scores,
                    geometry,
                    mask,
                    #[trigger] row_candidates(scores, geometry, mask, y, x)[i],
                ) && row_candidates(scores, geometry, mask, y, x)[i].y == y && row_candidates(
                    scores,
                    geometry,
                    mask,
                    y,
                    x,
                )[i].x < x
            },
    decreases x,
{
    let w = scores.width as int;
    if x <= 0 {
    } else {
        lemma_row_elements(scores, geometry, mask, y, x - 1);
        let prev = row_candidates(scores, geometry, mask, y, x - 1);
        let cur = row_candidates(scores, geometry, mask, y, x);
        if mask[cell_index(w, y, x - 1)] {
            assert(cur == prev.push(candidate_at(scores, geometry, y, x - 1)));
            assert forall|i: int| 0 <= i < cur.len() implies is_cell_candidate(
                scores,
                geometry,
                mask,
                cur[i],
            ) && cur[i].y == y && cur[i].x < x by {
                if i < prev.len() {
                    assert(cur[i] == prev[i]);
                } else {
                    assert(cur[i] == candidate_at(scores, geometry, y, x - 1));
                }
            }
        } else {
            assert(cur == prev);
        }
    }
}

proof fn lemma_grid_elements(scores: ScoreGrid, geometry: GeoGrid, mask: Seq<bool>, y: int)
    requires
        y <= scores.height,
    ensures
        forall|i: int|
            0 <= i < grid_candidates_upto(scores, geometry, mask, y).len() ==> {
                is_cell_candidate(
                    scores,
                    geometry,
                    mask,
                    #[trigger] grid_candidates_upto(scores, geometry, mask, y)[i],
                ) && grid_candidates_upto(scores, geometry, mask, y)[i].y < y
            },
    decreases y,
{
    if y <= 0 {
    } else {
        lemma_grid_elements(scores, geometry, mask, y - 1);
        lemma_row_elements(scores, geometry, mask, y - 1, scores.width as int);
        let a = grid_candidates_upto(scores, geometry, mask, y - 1);
        let b = row_candidates(scores, geometry, mask, y - 1, scores.width as int);
        let cur = grid_candidates_upto(scores, geometry, mask, y);
        assert(cur == a + b);
        assert forall|i: int| 0 <= i < cur.len() implies is_cell_candidate(
            scores,
            geometry,
            mask,
            cur[i],
        ) && cur[i].y < y by {
            if i < a.len() {
                assert(cur[i] == a[i]);
            } else {
                assert(cur[i] == b[i - a.len()]);
            }
        }
    }
}

/// Soundness of the decoder's output: every decoded candidate is the record
/// of an in-range grid cell whose mask bit is set, carrying that cell's own
/// score and geometry. Together with [`lemma_cardinality`] this pins the
/// pairing of confidences and geometry to the emitting cell.
pub proof fn lemma_decoded_elements(scores: ScoreGrid, geometry: GeoGrid, mask: Seq<bool>)
    ensures
        forall|i: int|
            0 <= i < decoded(scores, geometry, mask).len() ==> is_cell_candidate(
                scores,
                geometry,
                mask,
                #[trigger] decoded(scores, geometry, mask)[i],
            ),
{
    lemma_grid_elements(scores, geometry, mask, scores.height as int);
}

proof fn lemma_row_contains(
    scores: ScoreGrid,
    geometry: GeoGrid,
    mask: Seq<bool>,
    y: int,
    x: int,
    xlim: int,
)
    requires
        0 <= x < xlim,
        mask[cell_index(scores.width as int, y, x)],
    ensures
        row_candidates(scores, geometry, mask, y, xlim).contains(
            candidate_at(scores, geometry, y, x),
        ),
    decreases xlim,
{
    let e = candidate_at(scores, geometry, y, x);
    let cur = row_candidates(scores, geometry, mask, y, xlim);
    let prev = row_candidates(scores, geometry, mask, y, xlim - 1);
    if x == xlim - 1 {
        assert(cur == prev.push(e));
        assert(cur[cur.len() - 1] == e);
    } else {
        lemma_row_contains(scores, geometry, mask, y, x, xlim - 1);
        let i = choose|i: int| 0 <= i < prev.len() && prev[i] == e;
        assert(cur[i] == e);
    }
    assert(cur.contains(e));
}

proof fn lemma_grid_contains(
    scores: ScoreGrid,
    geometry: GeoGrid,
    mask: Seq<bool>,
    y: int,
    x: int,
    ylim: int,
)
    requires
        0 <= y < ylim,
        0 <= x < scores.width,
        mask[cell_index(scores.width as int, y, x)],
    ensures
        grid_candidates_upto(scores, geometry, mask, ylim).contains(
            candidate_at(scores, geometry, y, x),
        ),
    decreases ylim,
{
    let e = candidate_at(scores, geometry, y, x);
    let cur = grid_candidates_upto(scores, geometry, mask, ylim);
    let a = grid_candidates_upto(scores, geometry, mask, ylim - 1);
    let b = row_candidates(scores, geometry, mask, ylim - 1, scores.width as int);
    assert(cur == a + b);
    if y == ylim - 1 {
        lemma_row_contains(scores, geometry, mask, y, x, scores.width as int);
        let i = choose|i: int| 0 <= i < b.len() && b[i] == e;
        assert(cur[a.len() + i] == e);
    } else {
        lemma_grid_contains(scores, geometry, mask, y, x, ylim - 1);
        let i = choose|i: int| 0 <= i < a.len() && a[i] == e;
        assert(cur[i] == e);
    }
    assert(cur.contains(e));
}

/// Threshold gating: the candidate of cell (y, x) appears in the decoded
/// output if and only if that cell's mask bit is set — that is, exactly the
/// cells whose score clears the threshold are included, boundary included.
pub proof fn lemma_threshold_gating(
    scores: ScoreGrid,
    geometry: GeoGrid,
    mask: Seq<bool>,
    y: int,
    x: int,
)
    requires
        0 <= y < scores.height,
        0 <= x < scores.width,
    ensures
        decoded(scores, geometry, mask).contains(candidate_at(scores, geometry, y, x))
            <==> mask[cell_index(scores.width as int, y, x)],
{
    let e = candidate_at(scores, geometry, y, x);
    let out = decoded(scores, geometry, mask);
    if mask[cell_index(scores.width as int, y, x)] {
        lemma_grid_contains(scores, geometry, mask, y, x, scores.height as int);
    }
    if out.contains(e) {
        lemma_decoded_elements(scores, geometry, mask);
        let i = choose|i: int| 0 <= i < out.len() && out[i] == e;
        assert(is_cell_candidate(scores, geometry, mask, out[i]));
        assert(e.y as int == y && e.x as int == x);
    }
}

/// Number of set bits among the first n entries of the mask.
pub open spec fn mask_count(mask: Seq<bool>, n: int) -> int
    decreases n,
{
    if n <= 0 {
        0
    } else {
        mask_count(mask, n - 1) + if mask[n - 1] {
            1int
        } else {
            0int
        }
    }
}

proof fn lemma_row_count(scores: ScoreGrid, geometry: GeoGrid, mask: Seq<bool>, y: int, x: int)
    requires
        0 <= y,
        0 <= x,
    ensures
        row_candidates(scores, geometry, mask, y, x).len() + mask_count(
            mask,
            y * scores.width as int,
        ) == mask_count(mask, y * scores.width as int + x),
    decreases x,
{
    if x <= 0 {
    } else {
        lemma_row_count(scores, geometry, mask, y, x - 1);
    }
}

proof fn lemma_grid_count(scores: ScoreGrid, geometry: GeoGrid, mask: Seq<bool>, y: int)
    requires
        0 <= y,
    ensures
        grid_candidates_upto(scores, geometry, mask, y).len() == mask_count(
            mask,
            y * scores.width as int,
        ),
    decreases y,
{
    let w = scores.width as int;
    if y <= 0 {
        assert(y == 0);
        assert(y * w == 0);
    } else {
        lemma_grid_count(scores, geometry, mask, y - 1);
        lemma_row_count(scores, geometry, mask, y - 1, w);
        assert(grid_candidates_upto(scores, geometry, mask, y - 1).len() == mask_count(
            mask,
            (y - 1) * w,
        ));
        assert(row_candidates(scores, geometry, mask, y - 1, w).len() + mask_count(
            mask,
            (y - 1) * w,
        ) == mask_count(mask, (y - 1) * w + w));
        assert(grid_candidates_upto(scores, geometry, mask, y) == grid_candidates_upto(
            scores,
            geometry,
            mask,
            y - 1,
        ) + row_candidates(scores, geometry, mask, y - 1, w));
        assert((y - 1) * w + w == y * w) by (nonlinear_arith);
        assert(mask_count(mask, (y - 1) * w + w) == mask_count(mask, y * w));
    }
}

/// Cardinality: the decoder emits exactly one candidate per set mask bit, so
/// the number of (geometry, confidence) records equals the number of cells
/// whose score clears the threshold.
pub proof fn lemma_cardinality(scores: ScoreGrid, geometry: GeoGrid, mask: Seq<bool>)
    ensures
        decoded(scores, geometry, mask).len() == mask_count(
            mask,
            scores.height as int * scores.width as int,
        ),
{
    lemma_grid_count(scores, geometry, mask, scores.height as int);
}

proof fn lemma_mask_count_zero(mask: Seq<bool>, n: int)
    requires
        n <= mask.len(),
        forall|i: int| 0 <= i < mask.len() ==> !mask[i],
    ensures
        mask_count(mask, n) == 0,
    decreases n,
{
    if n <= 0 {
    } else {
        lemma_mask_count_zero(mask, n - 1);
    }
}

/// Empty output: a mask with no set bit — every score strictly below the
/// threshold — decodes to no candidates at all.
pub proof fn lemma_empty_when_none_pass(scores: ScoreGrid, geometry: GeoGrid, mask: Seq<bool>)
    requires
        mask.len() == scores.height * scores.width,
        forall|i: int| 0 <= i < mask.len() ==> !mask[i],
    ensures
        decoded(scores, geometry, mask) == Seq::<Candidate>::empty(),
{
    lemma_cardinality(scores, geometry, mask);
    lemma_mask_count_zero(mask, scores.height as int * scores.width as int);
    assert(decoded(scores, geometry, mask) =~= Seq::<Candidate>::empty());
}

/// Candidate a comes strictly before candidate b in row-major scan order.
pub open spec fn scan_before(a: Candidate, b: Candidate) -> bool {
    a.y < b.y || (a.y == b.y && a.x < b.x)
}

proof fn lemma_row_order(scores: ScoreGrid, geometry: GeoGrid, mask: Seq<bool>, y: int, x: int)
    requires
        0 <= y < scores.height,
        x <= scores.width,
    ensures
        forall|i: int, j: int|
            0 <= i < j < row_candidates(scores, geometry, mask, y, x).len()
                ==> #[trigger] row_candidates(scores, geometry, mask, y, x)[i].x
                < #[trigger] row_candidates(scores, geometry, mask, y, x)[j].x,
    decreases x,
{
    let w = scores.width as int;
    if x <= 0 {
    } else {
        lemma_row_order(scores, geometry, mask, y, x - 1);
        lemma_row_elements(scores, geometry, mask, y, x - 1);
        let prev = row_candidates(scores, geometry, mask, y, x - 1);
        let cur = row_candidates(scores, geometry, mask, y, x);
        if mask[cell_index(w, y, x - 1)] {
            assert(cur == prev.push(candidate_at(scores, geometry, y, x - 1)));
            assert forall|i: int, j: int| 0 <= i < j < cur.len() implies cur[i].x < cur[j].x by {
                if j < prev.len() {
                    assert(cur[i] == prev[i] && cur[j] == prev[j]);
                } else {
                    assert(cur[i] == prev[i]);
                    assert(cur[j] == candidate_at(scores, geometry, y, x - 1));
                }
            }
        } else {
            assert(cur == prev);
        }
    }
}

proof fn lemma_grid_order(scores: ScoreGrid, geometry: GeoGrid, mask: Seq<bool>, y: int)
    requires
        y <= scores.height,
    ensures
        forall|i: int, j: int|
            0 <= i < j < grid_candidates_upto(scores, geometry, mask, y).len() ==> scan_before(
                #[trigger] grid_candidates_upto(scores, geometry, mask, y)[i],
                #[trigger] grid_candidates_upto(scores, geometry, mask, y)[j],
            ),
    decreases y,
{
    if y <= 0 {
    } else {
        lemma_grid_order(scores, geometry, mask, y - 1);
        lemma_grid_elements(scores, geometry, mask, y - 1);
        lemma_row_order(scores, geometry, mask, y - 1, scores.width as int);
        lemma_row_elements(scores, geometry, mask, y - 1, scores.width as int);
        let a = grid_candidates_upto(scores, geometry, mask, y - 1);
        let b = row_candidates(scores, geometry, mask, y - 1, scores.width as int);
        let cur = grid_candidates_upto(scores, geometry, mask, y);
        assert(cur == a + b);
        assert forall|i: int, j: int| 0 <= i < j < cur.len() implies scan_before(
            cur[i],
            cur[j],
        ) by {
            if j < a.len() {
                assert(cur[i] == a[i] && cur[j] == a[j]);
            } else if i < a.len() {
                assert(cur[i] == a[i] && cur[j] == b[j - a.len()]);
            } else {
                assert(cur[i] == b[i - a.len()] && cur[j] == b[j - a.len()]);
            }
        }
    }
}

/// Scan order: the decoded candidates are strictly ordered row-major — any
/// earlier candidate's cell comes before any later candidate's cell, first
/// by row, then by column.
pub proof fn lemma_scan_order(scores: ScoreGrid, geometry: GeoGrid, mask: Seq<bool>)
    ensures
        forall|i: int, j: int|
            0 <= i < j < decoded(scores, geometry, mask).len() ==> scan_before(
                #[trigger] decoded(scores, geometry, mask)[i],
                #[trigger] decoded(scores, geometry, mask)[j],
            ),
{
    lemma_grid_order(scores, geometry, mask, scores.height as int);
}

/// Determinism: the decoded output is a function of the score grid, the
/// geometry grid and the mask alone, so two decodes of the same inputs give
/// identical results.
pub proof fn lemma_deterministic(
    scores: ScoreGrid,
    geometry: GeoGrid,
    mask: Seq<bool>,
    first: Seq<Candidate>,
    second: Seq<Candidate>,
)
    requires
        first == decoded(scores, geometry, mask),
        second == decoded(scores, geometry, mask),
    ensures
        first == second,
{
}

} // verus!
