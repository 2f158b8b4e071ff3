//! Flags of the `open` system call, and what opening a file by name does
//! once it is known whether the root directory holds that name.
use vstd::prelude::*;

verus! {

/// Flags of the `open` system call, as a bit set.
#[derive(Copy, Clone, Debug, PartialEq, Eq, Structural)]
pub struct OpenFlags {
    pub bits: u32,
}

/// Every bit that names a known flag.
pub open spec fn open_flags_all() -> u32 {
    1u32 | 2u32 | 0x200u32 | 0x400u32
}

impl OpenFlags {
    /// Read only (no bit set).
    pub const RDONY: u32 = 0;

    /// Write only.
    pub const WRONY: u32 = 1;

    /// Read and write.
    pub const RDRW: u32 = 2;

    /// Create the file if it does not exist.
    pub const CREATE: u32 = 0x200;

    /// Truncate the file to length zero.
    pub const TRUNC: u32 = 0x400;

    /// The flags with exactly the bits of `bits`, or `None` if `bits` holds a
    /// bit that names no flag.
    pub fn from_bits(bits: u32) -> (f: Option<Self>)
        ensures
            f == (if bits & !open_flags_all() == 0 { Some(OpenFlags { bits }) } else { None }),
    {
        if bits & !(1u32 | 2u32 | 0x200u32 | 0x400u32) == 0 {
            Some(OpenFlags { bits })
        } else {
            None
        }
    }

    /// Whether no flag is set.
    pub fn is_empty(&self) -> (r: bool)
        ensures
            r == (self.bits == 0),
    {
        self.bits == 0
    }

    /// Whether every bit of `other` is set.
    pub fn contains(&self, other: u32) -> (r: bool)
        ensures
            r == (self.bits & other == other),
    {
        self.bits & other == other
    }

    /// Whether the opened file may be read and whether it may be written:
    /// no flag means read only, the write-only bit means write only, and
    /// anything else means both.
    pub fn read_write(&self) -> (rw: (bool, bool))
        ensures
            rw == (if self.bits == 0 {
                (true, false)
            } else if self.bits & 1 == 1 {
                (false, true)
            } else {
                (true, true)
            }),
            rw == open_rw_spec(self.bits),
    {
        if self.is_empty() {
            (true, false)
        } else if self.contains(Self::WRONY) {
            (false, true)
        } else {
            (true, true)
        }
    }

    /// What the method form of opening does with these flags, given whether
    /// the name was found: with the create flag, an existing file is cleared
    /// and opened, and a missing one is looked up again, so the open fails;
    /// without it, an existing file is opened (cleared first under the
    /// truncate flag) and a missing one fails.
    pub fn open_file_action(&self, found: bool) -> (a: OpenAction)
        ensures
            a == (if !found {
                OpenAction::Fail
            } else {
                let rw = open_rw_spec(self.bits);
                OpenAction::Open {
                    clear: self.bits & Self::CREATE == Self::CREATE || self.bits & Self::TRUNC == Self::TRUNC,
                    readable: rw.0,
                    writable: rw.1,
                }
            }),
    {
        let (readable, writable) = self.read_write();
        if !found {
            return OpenAction::Fail;
        }
        let clear = self.contains(Self::CREATE) || self.contains(Self::TRUNC);
        OpenAction::Open { clear, readable, writable }
    }
}

/// Whether a file opened with flag bits `bits` may be read and written.
pub open spec fn open_rw_spec(bits: u32) -> (bool, bool) {
    if bits == 0 {
        (true, false)
    } else if bits & 1 == 1 {
        (false, true)
    } else {
        (true, true)
    }
}

/// Law: what an opened file allows follows the access flags alone. The
/// write-only bit makes it writable and not readable whatever other flags
/// (create, truncate) come with it; no flag at all makes it read-only; any
/// other flags make it readable and writable. So it is writable exactly
/// when some flag is set, and always readable or writable.
pub proof fn lemma_open_access_follows_flags(bits: u32)
    ensures
        bits & OpenFlags::WRONY == OpenFlags::WRONY ==> open_rw_spec(bits) == (false, true),
        bits == OpenFlags::RDONY ==> open_rw_spec(bits) == (true, false),
        bits != OpenFlags::RDONY && bits & OpenFlags::WRONY != OpenFlags::WRONY ==> open_rw_spec(bits) == (true, true),
        open_rw_spec(bits).1 == (bits != OpenFlags::RDONY),
        open_rw_spec(bits).0 || open_rw_spec(bits).1,
{
    vstd::bits::lemma_low_bits_mask_values();
    vstd::arithmetic::power2::lemma2_to64();
    vstd::bits::lemma_u32_low_bits_mask_is_mod(bits, 1);
    assert(bits & 1u32 == bits % 2);
}

/// What opening a file by name does.
#[derive(Copy, Clone, Debug, PartialEq, Eq, Structural)]
pub enum OpenAction {
    /// Open the file found, after clearing its contents if `clear`.
    Open { clear: bool, readable: bool, writable: bool },
    /// Create the file in the root directory and open it.
    Create { readable: bool, writable: bool },
    /// The open fails.
    Fail,
}

/// What opening a file by name does with `flags`, given whether the root
/// directory holds the name: with the create flag, an existing file is
/// cleared and opened and a missing one is created; without it, an existing
/// file is opened (cleared first under the truncate flag) and a missing one
/// fails.
pub fn open_file_action(flags: &OpenFlags, found: bool) -> (a: OpenAction)
    ensures
        ({
            let rw = open_rw_spec(flags.bits);
            let create = flags.bits & OpenFlags::CREATE == OpenFlags::CREATE;
            a == if found {
                OpenAction::Open {
                    clear: create || flags.bits & OpenFlags::TRUNC == OpenFlags::TRUNC,
                    readable: rw.0,
                    writable: rw.1,
                }
            } else if create {
                OpenAction::Create { readable: rw.0, writable: rw.1 }
            } else {
                OpenAction::Fail
            }
        }),
{
    let (readable, writable) = flags.read_write();
    if flags.contains(OpenFlags::CREATE) {
        if found {
            OpenAction::Open { clear: true, readable, writable }
        } else {
            OpenAction::Create { readable, writable }
        }
    } else if found {
        OpenAction::Open { clear: flags.contains(OpenFlags::TRUNC), readable, writable }
    } else {
        OpenAction::Fail
    }
}

} // verus!
