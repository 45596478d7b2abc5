use east_decode::GeoGrid;
use east_decode::ScoreGrid;
use east_decode::decode;

/// Mask as the callers build it: one bit per cell, set when the cell's
/// score clears the threshold (boundary included).
fn threshold_mask(scores: &[f32], threshold: f32) -> Vec<bool> {
    scores.iter().map(|s| *s >= threshold).collect()
}

fn score_grid(height: usize, width: usize, scores: &[f32]) -> ScoreGrid {
    assert_eq!(scores.len(), height * width);
    ScoreGrid { height, width, cells: scores.iter().map(|s| s.to_bits()).collect() }
}

fn geo_grid(height: usize, width: usize, channels: &[f32]) -> GeoGrid {
    assert_eq!(channels.len(), 5 * height * width);
    GeoGrid { height, width, cells: channels.iter().map(|v| v.to_bits()).collect() }
}

/// Geometry block whose channel c at cell (y, x) holds c*100 + y*10 + x,
/// to make the plane layout visible in the decoded output.
fn patterned_geometry(height: usize, width: usize) -> GeoGrid {
    let mut vals: Vec<f32> = Vec::new();
    for c in 0..5 {
        for y in 0..height {
            for x in 0..width {
                vals.push((c * 100 + y * 10 + x) as f32);
            }
        }
    }
    geo_grid(height, width, &vals)
}

#[test]
fn threshold_gating_includes_exactly_the_passing_cells() {
    let scores = [0.9f32, 0.5, 0.3, 0.7, 0.1, 0.6];
    let grid = score_grid(2, 3, &scores);
    let geometry = patterned_geometry(2, 3);
    let mask = threshold_mask(&scores, 0.5);
    let out = decode(&grid, &geometry, &mask);
    let cells: Vec<(usize, usize)> = out.iter().map(|c| (c.y, c.x)).collect();
    assert_eq!(cells, vec![(0, 0), (0, 1), (1, 0), (1, 2)]);
}

#[test]
fn score_equal_to_threshold_is_included() {
    let scores = [0.5f32];
    let grid = score_grid(1, 1, &scores);
    let geometry = patterned_geometry(1, 1);
    let mask = threshold_mask(&scores, 0.5);
    assert_eq!(mask, vec![true]);
    let out = decode(&grid, &geometry, &mask);
    assert_eq!(out.len(), 1);
}

#[test]
fn score_strictly_below_threshold_is_excluded() {
    let scores = [0.49999f32];
    let grid = score_grid(1, 1, &scores);
    let geometry = patterned_geometry(1, 1);
    let mask = threshold_mask(&scores, 0.5);
    assert_eq!(mask, vec![false]);
    let out = decode(&grid, &geometry, &mask);
    assert_eq!(out.len(), 0);
}

#[test]
fn cardinality_matches_passing_cells_and_scores_stay_paired() {
    let scores = [0.9f32, 0.5, 0.3, 0.7, 0.1, 0.6, 0.55, 0.2];
    let grid = score_grid(2, 4, &scores);
    let geometry = patterned_geometry(2, 4);
    let mask = threshold_mask(&scores, 0.5);
    let out = decode(&grid, &geometry, &mask);
    let passing = mask.iter().filter(|b| **b).count();
    assert_eq!(out.len(), passing);
    for cand in &out {
        let flat = cand.y * 4 + cand.x;
        assert_eq!(cand.score, scores[flat].to_bits());
    }
}

#[test]
fn candidates_come_in_row_major_scan_order() {
    let scores = [0.9f32, 0.6, 0.8, 0.7, 0.9, 0.6, 0.8, 0.7, 0.5];
    let grid = score_grid(3, 3, &scores);
    let geometry = patterned_geometry(3, 3);
    let mask = threshold_mask(&scores, 0.5);
    let out = decode(&grid, &geometry, &mask);
    assert_eq!(out.len(), 9);
    for pair in out.windows(2) {
        let earlier = (pair[0].y, pair[0].x);
        let later = (pair[1].y, pair[1].x);
        assert!(earlier < later);
    }
}

#[test]
fn offsets_follow_the_stride_of_four() {
    let scores = [0.9f32, 0.9, 0.9, 0.9, 0.9, 0.9];
    let grid = score_grid(2, 3, &scores);
    let geometry = patterned_geometry(2, 3);
    let mask = threshold_mask(&scores, 0.5);
    let out = decode(&grid, &geometry, &mask);
    for cand in &out {
        assert_eq!(cand.offset_x, 4 * cand.x);
        assert_eq!(cand.offset_y, 4 * cand.y);
    }
}

#[test]
fn geometry_channels_are_read_from_their_planes() {
    let scores = [0.3f32, 0.9, 0.3, 0.3, 0.3, 0.95];
    let grid = score_grid(2, 3, &scores);
    let geometry = patterned_geometry(2, 3);
    let mask = threshold_mask(&scores, 0.5);
    let out = decode(&grid, &geometry, &mask);
    assert_eq!(out.len(), 2);
    // cell (0, 1): channel c holds c*100 + 1
    assert_eq!(out[0].dist_top, 1.0f32.to_bits());
    assert_eq!(out[0].dist_right, 101.0f32.to_bits());
    assert_eq!(out[0].dist_bottom, 201.0f32.to_bits());
    assert_eq!(out[0].dist_left, 301.0f32.to_bits());
    assert_eq!(out[0].angle, 401.0f32.to_bits());
    // cell (1, 2): channel c holds c*100 + 12
    assert_eq!(out[1].dist_top, 12.0f32.to_bits());
    assert_eq!(out[1].dist_right, 112.0f32.to_bits());
    assert_eq!(out[1].dist_bottom, 212.0f32.to_bits());
    assert_eq!(out[1].dist_left, 312.0f32.to_bits());
    assert_eq!(out[1].angle, 412.0f32.to_bits());
}

#[test]
fn angle_zero_cell_decodes_to_the_expected_box() {
    // One cell at (0, 0): top = bottom = 5, left = right = 3, angle = 0,
    // confidence 0.9 against a threshold of 0.5.
    let scores = [0.9f32];
    let grid = score_grid(1, 1, &scores);
    let geometry = geo_grid(1, 1, &[5.0, 3.0, 5.0, 3.0, 0.0]);
    let mask = threshold_mask(&scores, 0.5);
    let out = decode(&grid, &geometry, &mask);
    assert_eq!(out.len(), 1);
    let cand = out[0];
    assert_eq!(cand.x, 0);
    assert_eq!(cand.y, 0);
    assert_eq!(cand.offset_x, 0);
    assert_eq!(cand.offset_y, 0);
    assert_eq!(cand.score, 0.9f32.to_bits());

    // Apply the fixed trigonometric formula to the decoded raw values.
    let d0 = f32::from_bits(cand.dist_top);
    let d1 = f32::from_bits(cand.dist_right);
    let d2 = f32::from_bits(cand.dist_bottom);
    let d3 = f32::from_bits(cand.dist_left);
    let angle = f32::from_bits(cand.angle);
    let (cos_a, sin_a) = (angle.cos(), angle.sin());
    assert_eq!(cos_a, 1.0);
    assert_eq!(sin_a, 0.0);
    let h = d0 + d2;
    let w = d1 + d3;
    assert_eq!(w, 6.0);
    assert_eq!(h, 10.0);
    let ox = cand.offset_x as f32 + cos_a * d1 + sin_a * d2;
    let oy = cand.offset_y as f32 - sin_a * d1 + cos_a * d2;
    assert_eq!(ox, 3.0);
    assert_eq!(oy, 5.0);
    let p1 = (-sin_a * h + ox, -cos_a * h + oy);
    let p3 = (-cos_a * w + ox, sin_a * w + oy);
    let center = ((p1.0 + p3.0) * 0.5, (p1.1 + p3.1) * 0.5);
    assert_eq!(center, (0.0, 0.0));
    let degrees = -angle * 180.0 / std::f32::consts::PI;
    assert_eq!(degrees, 0.0);
}

#[test]
fn all_below_threshold_yields_no_candidates() {
    let scores = [0.2f32, 0.3, 0.49, 0.1, 0.0, 0.25];
    let grid = score_grid(2, 3, &scores);
    let geometry = patterned_geometry(2, 3);
    let mask = threshold_mask(&scores, 0.5);
    let out = decode(&grid, &geometry, &mask);
    assert_eq!(out.len(), 0);
}

#[test]
fn decoding_twice_gives_identical_output() {
    let scores = [0.9f32, 0.5, 0.3, 0.7, 0.1, 0.6];
    let grid = score_grid(2, 3, &scores);
    let geometry = patterned_geometry(2, 3);
    let mask = threshold_mask(&scores, 0.5);
    let first = decode(&grid, &geometry, &mask);
    let second = decode(&grid, &geometry, &mask);
    assert_eq!(first, second);
}

#[test]
fn empty_grid_decodes_to_nothing() {
    let grid = ScoreGrid { height: 0, width: 0, cells: Vec::new() };
    let geometry = GeoGrid { height: 0, width: 0, cells: Vec::new() };
    let mask: Vec<bool> = Vec::new();
    let out = decode(&grid, &geometry, &mask);
    assert_eq!(out.len(), 0);
}

#[test]
fn score_accessor_reads_row_major() {
    let scores = [0.1f32, 0.2, 0.3, 0.4, 0.5, 0.6];
    let grid = score_grid(2, 3, &scores);
    assert_eq!(grid.at(0, 0), 0.1f32.to_bits());
    assert_eq!(grid.at(0, 2), 0.3f32.to_bits());
    assert_eq!(grid.at(1, 0), 0.4f32.to_bits());
    assert_eq!(grid.at(1, 2), 0.6f32.to_bits());
}

#[test]
fn geometry_accessor_reads_channel_planes() {
    let geometry = patterned_geometry(2, 3);
    assert_eq!(geometry.at(0, 0, 0), 0.0f32.to_bits());
    assert_eq!(geometry.at(2, 1, 0), 210.0f32.to_bits());
    assert_eq!(geometry.at(4, 1, 2), 412.0f32.to_bits());
}
