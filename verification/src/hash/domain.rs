//! Domain separators: one per independent decision, so that two decisions on
//! the same coordinates never share a hash.
use vstd::prelude::*;

verus! {

pub const SITE_X: u8 = 10;
pub const SITE_Y: u8 = 11;
pub const SITE_ZONE: u8 = 12;
pub const DIAGONAL: u8 = 13;

pub const HEIGHT: u8 = 20;
pub const PALETTE: u8 = 21;
pub const DENSITY: u8 = 22;
pub const INTERIOR: u8 = 23;
pub const LANDMARK: u8 = 24;
pub const SPECIAL: u8 = 25;

pub const STREET_DROP: u8 = 30;
pub const GREENWAY: u8 = 31;
pub const ORIENTATION: u8 = 32;
pub const BLOCK_NOISE: u8 = 33;
pub const PLAZA: u8 = 34;

pub const LOT_SPLIT: u8 = 40;
pub const LOT_HEIGHT: u8 = 41;

pub const INTERIOR_SIZE_W: u8 = 50;
pub const INTERIOR_SIZE_H: u8 = 51;
pub const INTERIOR_PALETTE: u8 = 52;
pub const INTERIOR_FOG: u8 = 53;

pub const LAYOUT_FLOOR: u8 = 60;
pub const LAYOUT_CORE: u8 = 61;
pub const LAYOUT_ROOM: u8 = 62;
pub const LAYOUT_DOOR: u8 = 63;
pub const LAYOUT_WET: u8 = 64;
pub const LAYOUT_FURNITURE: u8 = 65;

} // verus!
