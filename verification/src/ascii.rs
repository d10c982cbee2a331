use vstd::prelude::*;

verus! {

// ASCII code points used by the encoded hash format.

pub const DOLLAR: u8 = 36;

pub const PLUS: u8 = 43;

pub const COMMA: u8 = 44;

pub const SLASH: u8 = 47;

pub const D0: u8 = 48;

pub const D2: u8 = 50;

pub const D9: u8 = 57;

pub const EQUALS: u8 = 61;

pub const UC_A: u8 = 65;

pub const UC_Z: u8 = 90;

pub const LC_A: u8 = 97;

pub const LC_D: u8 = 100;

pub const LC_G: u8 = 103;

pub const LC_I: u8 = 105;

pub const LC_M: u8 = 109;

pub const LC_N: u8 = 110;

pub const LC_O: u8 = 111;

pub const LC_P: u8 = 112;

pub const LC_R: u8 = 114;

pub const LC_T: u8 = 116;

pub const LC_V: u8 = 118;

pub const LC_Z: u8 = 122;

} // verus!
