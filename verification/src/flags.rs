//! The flag word of a node, which selects the node's class and so its layout.

use vstd::prelude::*;

verus! {

/// A set of node flags. Bits without a name are kept as they are.
#[derive(Clone, Copy, Debug, PartialEq, Eq, Structural)]
pub struct NodeFlags {
    pub bits: u16,
}

impl NodeFlags {
    pub const FOLDER: u16 = 0x0001;

    pub const PHYSICAL: u16 = 0x0002;

    pub const ARCHIVE: u16 = 0x0004;

    pub const MOUNT_ROOT: u16 = 0x0008;

    pub const COMPRESSED: u16 = 0x0010;

    pub const REPLICATED: u16 = 0x0020;

    pub const INLINED: u16 = 0x0040;

    pub const SUB_FAT: u16 = 0x0080;

    pub const SOFT_LINK: u16 = 0x0100;

    pub const HARD_LINK: u16 = 0x0200;

    pub const MOUNT_HELPER: u16 = 0x0400;

    pub const ERASED: u16 = 0x0800;

    pub const EXTERNAL_SUB_FAT: u16 = 0x1000;

    pub const UNIVERSAL_FILE: u16 = 0x2000;

    pub const MARKED_TO_UNLINK: u16 = 0x4000;

    /// Every flag of `mask` is set.
    pub open spec fn spec_contains(self, mask: u16) -> bool {
        self.bits & mask == mask
    }

    /// Whether every flag of `mask` is set.
    #[verifier::when_used_as_spec(spec_contains)]
    pub fn contains(self, mask: u16) -> (b: bool)
        ensures
            b == self.spec_contains(mask),
    {
        self.bits & mask == mask
    }

    /// The flag word with these bits, named or not.
    pub open spec fn spec_from_bits_retain(bits: u16) -> NodeFlags {
        NodeFlags { bits }
    }

    /// The flag word with these bits, named or not.
    #[verifier::when_used_as_spec(spec_from_bits_retain)]
    pub fn from_bits_retain(bits: u16) -> (r: NodeFlags)
        ensures
            r == NodeFlags::spec_from_bits_retain(bits),
    {
        NodeFlags { bits }
    }

    /// The flag word as a number.
    pub fn bits(self) -> (bits: u16)
        ensures
            bits == self.bits,
    {
        self.bits
    }
}

/// A flag word keeps every bit that it is made of, named or not, and contains a mask if
/// and only if it has all of the mask's bits.
pub proof fn law_flag_words(bits: u16, mask: u16)
    ensures
        NodeFlags::from_bits_retain(bits).bits == bits,
        NodeFlags::from_bits_retain(bits).contains(mask) <==> bits & mask == mask,
{
}

} // verus!
