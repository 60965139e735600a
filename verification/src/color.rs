//! The presentation rule that consumes the age statistic.
//!
//! A cell's display color starts from one of two bases — an "active" base
//! while the cell's age is at most ten, a "stable" base after — and each
//! channel is darkened by five percent per live neighbor, to at most a
//! twenty percent deduction.
use vstd::prelude::*;
use vstd::arithmetic::div_mod::lemma_div_is_ordered;

verus! {

/// Age at or below which a cell still counts as newly active.
pub const MAX_ACTIVE_AGE: usize = 10;

/// A display color as red/green/blue bytes.
#[derive(Clone, Copy, Debug, PartialEq, Eq, Structural)]
pub struct CellColor {
    pub red: u8,
    pub green: u8,
    pub blue: u8,
}

/// The base channels for a cell of the given age.
pub open spec fn spec_base_rgb(age: int) -> (int, int, int) {
    if age <= 10 {
        (236, 68, 155)
    } else {
        (153, 244, 67)
    }
}

/// Brightness left after darkening: five percent per live neighbor,
/// deducting at most twenty percent.
pub open spec fn spec_brightness_percent(neighbors: int) -> int {
    100 - (if 5 * neighbors < 20 {
        5 * neighbors
    } else {
        20
    })
}

/// One channel scaled to the given percentage, rounded down.
pub open spec fn spec_scaled(channel: int, percent: int) -> int {
    channel * percent / 100
}

/// The base color by age: the active base through `MAX_ACTIVE_AGE`, the
/// stable base after.
pub fn base_color(age: usize) -> (c: CellColor)
    ensures
        (c.red as int, c.green as int, c.blue as int) == spec_base_rgb(age as int),
{
    if age <= MAX_ACTIVE_AGE {
        CellColor { red: 236, green: 68, blue: 155 }
    } else {
        CellColor { red: 153, green: 244, blue: 67 }
    }
}

/// The percentage of brightness a cell keeps, by its live-neighbor count.
pub fn brightness_percent(neighbors: usize) -> (p: u8)
    requires
        neighbors <= 8,
    ensures
        p as int == spec_brightness_percent(neighbors as int),
        80 <= p <= 100,
{
    let deduction: usize = if 5 * neighbors < 20 {
        5 * neighbors
    } else {
        20
    };
    100u8 - (deduction as u8)
}

/// One channel scaled to the given percentage.
fn scale_channel(channel: u8, percent: u8) -> (r: u8)
    requires
        percent <= 100,
    ensures
        r as int == spec_scaled(channel as int, percent as int),
{
    proof {
        assert(channel as int * percent as int <= 255 * 100) by (nonlinear_arith)
            requires
                channel <= 255,
                percent <= 100,
        ;
    }
    let product: u32 = channel as u32 * percent as u32;
    let quotient: u32 = product / 100;
    proof {
        lemma_div_is_ordered(product as int, 25500, 100);
    }
    quotient as u8
}

/// The display color for a cell: the base for its age, each channel
/// scaled down by the neighbor rule.
pub fn calculate_color(age: usize, neighbors: usize) -> (c: CellColor)
    requires
        neighbors <= 8,
    ensures
        ({
            let base = spec_base_rgb(age as int);
            let percent = spec_brightness_percent(neighbors as int);
            &&& c.red as int == spec_scaled(base.0, percent)
            &&& c.green as int == spec_scaled(base.1, percent)
            &&& c.blue as int == spec_scaled(base.2, percent)
        }),
{
    let base = base_color(age);
    let percent = brightness_percent(neighbors);
    CellColor {
        red: scale_channel(base.red, percent),
        green: scale_channel(base.green, percent),
        blue: scale_channel(base.blue, percent),
    }
}

} // verus!
