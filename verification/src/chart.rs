//! The inverse screen-to-data coordinate mapping of a rendered chart.
//!
//! A chart render establishes an affine map from a rectangular plot area in
//! device pixels to the data ranges it displays. `Chart` captures the minimal
//! transform parameters and evaluates the inverse as a pure function: device
//! pixel in, data coordinates out, or nothing when the pixel lies outside
//! the plot area. Data x is in whole microseconds, data y in counts.

use vstd::prelude::*;
use vstd::arithmetic::mul::{lemma_mul_inequality, lemma_mul_upper_bound};
use vstd::arithmetic::div_mod::{lemma_div_is_ordered, lemma_div_multiples_vanish};

verus! {

/// Result of a screen-to-data conversion.
pub struct Point {
    pub x: u64,
    pub y: u64,
}

/// The captured transform of the last-drawn chart: the plot area's pixel
/// rectangle and the data ranges it displayed.
pub struct Chart {
    pub x0: i32,
    pub y0: i32,
    pub x1: i32,
    pub y1: i32,
    pub data_x_min: u64,
    pub data_x_max: u64,
    pub data_y_max: u64,
}

impl Chart {
    /// The captured parameters describe a non-degenerate plot area.
    pub open spec fn wf(self) -> bool {
        self.x0 < self.x1 && self.y0 < self.y1 && self.data_x_min <= self.data_x_max
    }

    /// Captures a chart transform.
    pub fn new(x0: i32, y0: i32, x1: i32, y1: i32, data_x_min: u64, data_x_max: u64, data_y_max: u64) -> (c: Chart)
        ensures
            c == (Chart { x0, y0, x1, y1, data_x_min, data_x_max, data_y_max }),
    {
        Chart { x0, y0, x1, y1, data_x_min, data_x_max, data_y_max }
    }

    /// Converts device pixel coordinates back to the data coordinates of the
    /// render this chart was captured from: a linear interpolation over the
    /// plot area, with device y growing downwards. Pixels outside the plot
    /// area (or a degenerate capture) map to nothing.
    pub fn coord(&self, x: i32, y: i32) -> (r: Option<Point>)
        ensures
            r.is_some() <==> (self.wf() && self.x0 <= x <= self.x1 && self.y0 <= y <= self.y1),
            r.is_some() ==> r.unwrap().x == self.data_x_min + (x - self.x0) * (self.data_x_max
                - self.data_x_min) / (self.x1 - self.x0),
            r.is_some() ==> r.unwrap().y == (self.y1 - y) * self.data_y_max / (self.y1 - self.y0),
    {
        if !(self.x0 < self.x1 && self.y0 < self.y1 && self.data_x_min <= self.data_x_max
            && self.x0 <= x && x <= self.x1 && self.y0 <= y && y <= self.y1) {
            return None;
        }
        let dx = (x as i64 - self.x0 as i64) as u128;
        let wx = (self.x1 as i64 - self.x0 as i64) as u128;
        let span = (self.data_x_max - self.data_x_min) as u128;
        proof {
            lemma_mul_upper_bound(dx as int, 0x100000000, span as int, 0xffffffffffffffff);
            lemma_mul_inequality(dx as int, wx as int, span as int);
            lemma_div_is_ordered((dx as int) * (span as int), (wx as int) * (span as int), wx as int);
            lemma_div_multiples_vanish(span as int, wx as int);
        }
        let px = self.data_x_min + (dx * span / wx) as u64;
        let dy = (self.y1 as i64 - y as i64) as u128;
        let wy = (self.y1 as i64 - self.y0 as i64) as u128;
        let ymax = self.data_y_max as u128;
        proof {
            lemma_mul_upper_bound(dy as int, 0x100000000, ymax as int, 0xffffffffffffffff);
            lemma_mul_inequality(dy as int, wy as int, ymax as int);
            lemma_div_is_ordered((dy as int) * (ymax as int), (wy as int) * (ymax as int), wy as int);
            lemma_div_multiples_vanish(ymax as int, wy as int);
        }
        let py = (dy * ymax / wy) as u64;
        Some(Point { x: px, y: py })
    }
}

} // verus!
