//! Row-major views of the two network output tensors.
//!
//! The score tensor has shape [1, 1, H, W] and the geometry tensor has shape
//! [1, 5, H, W]; both are stored flat, row-major, as raw 32-bit patterns of
//! the network's single-precision values. This module gives each tensor a
//! type with its well-formedness invariant and verified cell accessors.

use vstd::prelude::*;

verus! {

/// Flat index of cell (y, x) in a row-major plane of the given width.
pub open spec fn cell_index(width: int, y: int, x: int) -> int {
    y * width + x
}

/// Flat index of (channel, y, x) in a row-major [5, H, W] block: the five
/// geometry channels are stored as five consecutive H x W planes.
pub open spec fn geo_index(height: int, width: int, channel: int, y: int, x: int) -> int {
    (channel * height + y) * width + x
}

pub proof fn lemma_cell_index_bounds(height: int, width: int, y: int, x: int)
    requires
        0 <= y < height,
        0 <= x < width,
    ensures
        0 <= cell_index(width, y, x) < height * width,
        y * width <= cell_index(width, y, x),
{
    assert(0 <= y * width && y * width + x < height * width) by (nonlinear_arith)
        requires
            0 <= y < height,
            0 <= x < width,
    ;
}

pub proof fn lemma_geo_index_bounds(height: int, width: int, channel: int, y: int, x: int)
    requires
        0 <= channel < 5,
        0 <= y < height,
        0 <= x < width,
    ensures
        0 <= geo_index(height, width, channel, y, x) < 5 * height * width,
        0 <= channel * height,
        channel * height + y <= (channel * height + y) * width,
        (channel * height + y) * width <= geo_index(height, width, channel, y, x),
{
    assert(0 <= (channel * height + y) * width + x < 5 * height * width && 0 <= channel * height
        && channel * height + y <= (channel * height + y) * width) by (nonlinear_arith)
        requires
            0 <= channel < 5,
            0 <= y < height,
            0 <= x < width,
    ;
}

/// The per-cell confidence plane of the detector: one raw 32-bit score
/// pattern per grid cell, row-major.
pub struct ScoreGrid {
    pub height: usize,
    pub width: usize,
    pub cells: Vec<u32>,
}

impl ScoreGrid {
    pub open spec fn wf(self) -> bool {
        self.cells@.len() == self.height * self.width
    }

    /// Raw score pattern of cell (y, x).
    pub open spec fn score_at(self, y: int, x: int) -> u32 {
        self.cells@[cell_index(self.width as int, y, x)]
    }

    pub fn at(&self, y: usize, x: usize) -> (v: u32)
        requires
            self.wf(),
            y < self.height,
            x < self.width,
        ensures
            v == self.score_at(y as int, x as int),
    {
        let _n: usize = self.cells.len();
        proof {
            lemma_cell_index_bounds(self.height as int, self.width as int, y as int, x as int);
        }
        self.cells[y * self.width + x]
    }
}

/// The per-cell geometry block of the detector: five raw 32-bit channels per
/// grid cell, stored as five consecutive row-major planes, in the order
/// top distance, right distance, bottom distance, left distance, angle.
pub struct GeoGrid {
    pub height: usize,
    pub width: usize,
    pub cells: Vec<u32>,
}

impl GeoGrid {
    pub open spec fn wf(self) -> bool {
        self.cells@.len() == 5 * self.height * self.width
    }

    /// Raw pattern of the given channel at cell (y, x).
    pub open spec fn geo_at(self, channel: int, y: int, x: int) -> u32 {
        self.cells@[geo_index(self.height as int, self.width as int, channel, y, x)]
    }

    pub fn at(&self, channel: usize, y: usize, x: usize) -> (v: u32)
        requires
            self.wf(),
            channel < 5,
            y < self.height,
            x < self.width,
        ensures
            v == self.geo_at(channel as int, y as int, x as int),
    {
        let _n: usize = self.cells.len();
        proof {
            lemma_geo_index_bounds(
                self.height as int,
                self.width as int,
                channel as int,
                y as int,
                x as int,
            );
        }
        self.cells[(channel * self.height + y) * self.width + x]
    }
}

} // verus!
