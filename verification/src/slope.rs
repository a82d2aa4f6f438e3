//! Slopes of lines through a reference zone, and the keys that group them.
//!
//! A slope is kept as the exact fraction `rise / run` of two magnitudes, so
//! a line and its mirror image through the reference zone share one slope.
//! The key of a slope is the fraction scaled by `SLOPE_SCALE` and cut off
//! below the decimal point. Two zones of one column have no slope; the line
//! through them has the reserved key `VERTICAL_KEY`, which no slope has.

use vstd::prelude::*;
use crate::error::ZoneError;
use crate::zone::Zone;

verus! {

/// The number of steps into which one unit of slope is divided.
pub const SLOPE_SCALE: u64 = 100_000;

/// The key of the line through two zones of one column: one more than the
/// largest key of a slope.
pub const VERTICAL_KEY: u64 = 0x1_0000_0000;

pub open spec fn abs_diff(a: int, b: int) -> nat {
    if a >= b {
        (a - b) as nat
    } else {
        (b - a) as nat
    }
}

/// The key of the slope `rise / run`: the whole part of the slope times
/// `SLOPE_SCALE`, held at `u32::MAX` where it would exceed it.
pub open spec fn quantized(rise: nat, run: nat) -> u32
    recommends
        run > 0,
{
    let scaled = (rise * SLOPE_SCALE) / (run as int);
    if scaled > u32::MAX {
        u32::MAX
    } else {
        scaled as u32
    }
}

/// A slope: a rise over a run that is not zero.
#[derive(Clone, Copy, Debug)]
pub struct Slope {
    rise: u32,
    run: u32,
}

impl Slope {
    #[verifier::type_invariant]
    spec fn run_is_positive(self) -> bool {
        self.run > 0
    }

    pub closed spec fn spec_rise(self) -> nat {
        self.rise as nat
    }

    pub closed spec fn spec_run(self) -> nat {
        self.run as nat
    }

    /// The slope `rise / run`. A zero run is a `DivisionUndefined`.
    pub fn new(rise: u32, run: u32) -> (r: Result<Slope, ZoneError>)
        ensures
            run == 0 ==> r == Err::<Slope, ZoneError>(ZoneError::DivisionUndefined),
            run != 0 ==> r is Ok && r->Ok_0.spec_rise() == rise && r->Ok_0.spec_run() == run,
    {
        if run == 0 {
            Err(ZoneError::DivisionUndefined)
        } else {
            Ok(Slope { rise, run })
        }
    }

    pub fn rise(&self) -> (rise: u32)
        ensures
            rise == self.spec_rise(),
    {
        self.rise
    }

    pub fn run(&self) -> (run: u32)
        ensures
            run == self.spec_run(),
            run > 0,
    {
        proof {
            use_type_invariant(self);
        }
        self.run
    }
}

/// The key under which a slope is grouped.
pub fn get_hash_key_from_slope(slope: &Slope) -> (key: u32)
    ensures
        key == quantized(slope.spec_rise(), slope.spec_run()),
{
    let run: u64 = slope.run() as u64;
    let scaled: u64 = (slope.rise() as u64 * SLOPE_SCALE) / run;
    if scaled > u32::MAX as u64 {
        u32::MAX
    } else {
        scaled as u32
    }
}

/// The magnitude of the difference of two coordinates.
pub fn magnitude(a: i32, b: i32) -> (m: u32)
    ensures
        m == abs_diff(a as int, b as int),
{
    let d: i64 = a as i64 - b as i64;
    if d < 0 {
        (0 - d) as u32
    } else {
        d as u32
    }
}

impl Zone {
    pub open spec fn rise_to(self, other: Zone) -> nat {
        abs_diff(other.y as int, self.y as int)
    }

    pub open spec fn run_to(self, other: Zone) -> nat {
        abs_diff(other.x as int, self.x as int)
    }

    /// The key of the line through `self` and `other`.
    pub open spec fn line_key(self, other: Zone) -> u64 {
        if other.x == self.x {
            VERTICAL_KEY
        } else {
            quantized(self.rise_to(other), self.run_to(other)) as u64
        }
    }

    /// The slope of the line through `self` and `other`, as magnitudes.
    ///
    /// Two zones of one column, and so two zones at one position, have no
    /// slope: that is a `DivisionUndefined`.
    pub fn get_slope_value(&self, other: &Zone) -> (r: Result<Slope, ZoneError>)
        ensures
            other.x == self.x ==> r == Err::<Slope, ZoneError>(ZoneError::DivisionUndefined),
            other.x != self.x ==> r is Ok && r->Ok_0.spec_rise() == self.rise_to(*other)
                && r->Ok_0.spec_run() == self.run_to(*other),
    {
        Slope::new(magnitude(other.y, self.y), magnitude(other.x, self.x))
    }

    /// The key of the line through `self` and `other`: that of its slope, or
    /// `VERTICAL_KEY` where it has none.
    pub fn get_line_key(&self, other: &Zone) -> (key: u64)
        ensures
            key == self.line_key(*other),
    {
        match self.get_slope_value(other) {
            Ok(slope) => get_hash_key_from_slope(&slope) as u64,
            Err(_) => VERTICAL_KEY,
        }
    }
}

} // verus!
