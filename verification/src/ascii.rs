//! The ASCII characters that the tracker's formats are written with.

use vstd::prelude::*;

verus! {

pub const LF: u8 = 0x0a;

pub const CR: u8 = 0x0d;

pub const SPACE: u8 = 0x20;

pub const PERCENT: u8 = 0x25;

pub const AMPERSAND: u8 = 0x26;

pub const PLUS: u8 = 0x2b;

pub const MINUS: u8 = 0x2d;

pub const DOT: u8 = 0x2e;

pub const DIGIT_0: u8 = 0x30;

pub const DIGIT_9: u8 = 0x39;

pub const COLON: u8 = 0x3a;

pub const EQUALS: u8 = 0x3d;

pub const QUESTION: u8 = 0x3f;

pub const UPPER_A: u8 = 0x41;

pub const UPPER_F: u8 = 0x46;

pub const LOWER_A: u8 = 0x61;

pub const LOWER_D: u8 = 0x64;

pub const LOWER_E: u8 = 0x65;

pub const LOWER_F: u8 = 0x66;

pub const LOWER_I: u8 = 0x69;

} // verus!
