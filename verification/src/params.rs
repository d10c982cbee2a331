use vstd::prelude::*;

use crate::ascii::{D2, LC_A, LC_D, LC_G, LC_I, LC_N, LC_O, LC_R};

verus! {

/// Algorithm family member: data-dependent, data-independent, or hybrid
/// memory addressing.
#[derive(Clone, Copy, PartialEq, Eq, Structural, Debug)]
pub enum Variant {
    Argon2d,
    Argon2i,
    Argon2id,
}

impl Variant {
    /// Numeric algorithm identifier mixed into the initial hash.
    pub open spec fn id(self) -> int {
        match self {
            Variant::Argon2d => 0,
            Variant::Argon2i => 1,
            Variant::Argon2id => 2,
        }
    }

    /// The textual tag that opens an encoded hash string.
    pub open spec fn tag(self) -> Seq<u8> {
        match self {
            Variant::Argon2d => seq![LC_A, LC_R, LC_G, LC_O, LC_N, D2, LC_D],
            Variant::Argon2i => seq![LC_A, LC_R, LC_G, LC_O, LC_N, D2, LC_I],
            Variant::Argon2id => seq![LC_A, LC_R, LC_G, LC_O, LC_N, D2, LC_I, LC_D],
        }
    }
}

/// Version of the algorithm; only 0x10 (16) and 0x13 (19) exist.
#[derive(Clone, Copy, PartialEq, Eq, Structural, Debug)]
pub enum Version {
    V0x10,
    V0x13,
}

impl Version {
    /// The number written after `v=` in an encoded hash string.
    pub open spec fn num(self) -> u32 {
        match self {
            Version::V0x10 => 16,
            Version::V0x13 => 19,
        }
    }
}

/// Cost parameters for the memory-hard key derivation.
#[derive(Clone, Copy, PartialEq, Eq, Structural, Debug)]
pub struct Params {
    /// Total working memory, in kibibytes.
    pub memory_cost_kib: u32,
    /// Number of passes over the working memory.
    pub time_cost: u32,
    /// Number of independent lanes.
    pub parallelism: u32,
}

impl Params {
    /// The legal range: at least one pass, between one and 2^24 - 1 lanes,
    /// and at least eight kibibytes of memory per lane.
    pub open spec fn valid(self) -> bool {
        &&& self.time_cost >= 1
        &&& self.parallelism >= 1
        &&& self.parallelism <= 0xFFFFFF
        &&& self.memory_cost_kib >= 8 * self.parallelism
    }

    /// Whether the cost settings are in the legal range.
    pub fn is_valid(&self) -> (r: bool)
        ensures
            r == self.valid(),
    {
        proof {
            assert(self.memory_cost_kib / 8 >= self.parallelism
                <==> self.memory_cost_kib >= 8 * self.parallelism) by (nonlinear_arith);
        }
        self.time_cost >= 1 && self.parallelism >= 1 && self.parallelism <= 0xFFFFFF
            && self.memory_cost_kib / 8 >= self.parallelism
    }

    /// The documented baseline: 19 MiB of memory, two passes, one lane.
    pub open spec fn spec_default() -> Params {
        Params { memory_cost_kib: 19456, time_cost: 2, parallelism: 1 }
    }
}

impl Default for Params {
    fn default() -> (r: Params)
        ensures
            r == Params::spec_default(),
            r.valid(),
    {
        Params { memory_cost_kib: 19456, time_cost: 2, parallelism: 1 }
    }
}

} // verus!
