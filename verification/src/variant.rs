//! The two flavours of the format.

use vstd::prelude::*;

use crate::bytes::{str_eq, swap_u32};
#[allow(unused_imports)]
use crate::bytes::swapped32;

verus! {

/// Which console a filesystem belongs to.
///
/// The original Xbox stores every multi-byte field little-endian, the Xbox 360
/// stores them big-endian, and the two disagree on how timestamps are packed.
#[derive(Debug, Clone, Copy, PartialEq, Eq, Structural)]
pub enum Variant {
    /// Whichever flavour the signature turns out to be.
    Auto,
    /// The original Xbox.
    Xbox,
    /// The Xbox 360.
    X360,
}

impl Variant {
    pub open spec fn spec_needs_swap(self) -> bool {
        self is X360
    }

    /// Whether multi-byte fields have to be swapped on their way to and from
    /// the disk.
    pub fn needs_swap(&self) -> (swap: bool)
        ensures
            swap == self.spec_needs_swap(),
    {
        matches!(*self, Variant::X360)
    }

    pub open spec fn spec_epoch(self) -> u16 {
        if self is X360 {
            1980
        } else {
            2000
        }
    }

    /// The year that timestamps count from.
    pub fn epoch(&self) -> (year: u16)
        ensures
            year == self.spec_epoch(),
    {
        match *self {
            Variant::X360 => 1980,
            _ => 2000,
        }
    }

    pub open spec fn spec_from_raw_signature(raw: u32, signature: u32) -> Option<Variant> {
        if raw == signature {
            Some(Variant::Xbox)
        } else if raw == swapped32(signature) {
            Some(Variant::X360)
        } else {
            None
        }
    }

    /// Tell the flavour from a signature read as little-endian.
    ///
    /// The signature is written in the byte order of the disk, so it reads
    /// back either as itself or with its bytes reversed.
    pub fn from_raw_signature(raw: u32, signature: u32) -> (variant: Option<Variant>)
        ensures
            variant == Self::spec_from_raw_signature(raw, signature),
    {
        if raw == signature {
            Some(Variant::Xbox)
        } else if raw == swap_u32(signature) {
            Some(Variant::X360)
        } else {
            None
        }
    }

    pub open spec fn spec_parse(text: Seq<char>) -> Option<Variant> {
        if text == "auto"@ {
            Some(Variant::Auto)
        } else if text == "xbox"@ {
            Some(Variant::Xbox)
        } else if text == "x360"@ {
            Some(Variant::X360)
        } else {
            None
        }
    }

    /// The flavour a command line argument names: auto, xbox or x360.
    pub fn parse(text: &str) -> (variant: Option<Variant>)
        ensures
            variant == Self::spec_parse(text@),
    {
        if str_eq(text, "auto") {
            Some(Variant::Auto)
        } else if str_eq(text, "xbox") {
            Some(Variant::Xbox)
        } else if str_eq(text, "x360") {
            Some(Variant::X360)
        } else {
            None
        }
    }
}

/// The names of the flavours are told apart, and nothing else names one.
pub proof fn law_each_flavour_has_its_name(text: Seq<char>)
    ensures
        Variant::spec_parse(text) matches Some(Variant::Auto) <==> text == "auto"@,
        Variant::spec_parse(text) matches Some(Variant::Xbox) <==> text == "xbox"@,
        Variant::spec_parse(text) matches Some(Variant::X360) <==> text == "x360"@,
        Variant::X360.spec_needs_swap(),
        !Variant::Xbox.spec_needs_swap(),
        Variant::X360.spec_epoch() + 20 == Variant::Xbox.spec_epoch(),
        Variant::Xbox.spec_epoch() == 2000,
{
    reveal_strlit("auto");
    reveal_strlit("xbox");
    reveal_strlit("x360");
    assert("auto"@[0] == 'a' && "xbox"@[0] == 'x' && "x360"@[0] == 'x' && "xbox"@[1] == 'b'
        && "x360"@[1] == '3');
}

} // verus!
