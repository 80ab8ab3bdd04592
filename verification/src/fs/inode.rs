//! Flags with which a file is opened, and the path of the file to open.

use vstd::prelude::*;

use crate::process::command::{pieces, split_on, views};

verus! {

/// The flags of an `open` call.
#[derive(Clone, Copy, PartialEq, Eq, Structural)]
pub struct OpenFlags {
    pub bits: u32,
}

#[allow(non_snake_case)]
impl OpenFlags {
    /// Read only (no bit).
    pub fn RDONLY() -> (r: Self)
        ensures
            r.bits == 0,
    {
        OpenFlags { bits: 0 }
    }

    /// Write only.
    pub fn WRONLY() -> (r: Self)
        ensures
            r.bits == 1,
    {
        OpenFlags { bits: 1 }
    }

    /// Read and write.
    pub fn RDWR() -> (r: Self)
        ensures
            r.bits == 2,
    {
        OpenFlags { bits: 2 }
    }

    /// Create the file if it is missing.
    pub fn CREATE() -> (r: Self)
        ensures
            r.bits == 512,
    {
        OpenFlags { bits: 512 }
    }

    /// Truncate the file.
    pub fn TRUNC() -> (r: Self)
        ensures
            r.bits == 1024,
    {
        OpenFlags { bits: 1024 }
    }

    /// The flags with the given bits, or `None` when a bit names no flag.
    pub fn from_bits(bits: u32) -> (r: Option<Self>)
        ensures
            r == if bits & !0x603u32 == 0 {
                Some(OpenFlags { bits })
            } else {
                None
            },
    {
        if bits & !0x603u32 == 0 {
            Some(OpenFlags { bits })
        } else {
            None
        }
    }

    /// Whether no flag is set.
    pub fn is_empty(&self) -> (r: bool)
        ensures
            r == (self.bits == 0),
    {
        self.bits == 0
    }

    /// Whether every flag of `other` is set.
    pub fn contains(&self, other: Self) -> (r: bool)
        ensures
            r == (self.bits & other.bits == other.bits),
    {
        self.bits & other.bits == other.bits
    }

    /// Whether the file may be read and whether it may be written: no flag
    /// means read only, `WRONLY` means write only, anything else both.
    pub fn read_write(&self) -> (r: (bool, bool))
        ensures
            r == if self.bits == 0 {
                (true, false)
            } else if self.bits & 1 == 1 {
                (false, true)
            } else {
                (true, true)
            },
    {
        if self.is_empty() {
            (true, false)
        } else if self.contains(Self::WRONLY()) {
            (false, true)
        } else {
            (true, true)
        }
    }
}

/// The byte that separates the names of a path.
pub const SLASH: u8 = 47;

/// Where `path` leads: the directories to walk through, from the root, and
/// the name of the file to open in the last of them; the names are the
/// non-empty runs between slashes.  `None` when the path names nothing.
pub fn split_path(path: &[u8]) -> (r: Option<(Vec<Vec<u8>>, Vec<u8>)>)
    ensures
        r.is_none() == (pieces(path@, SLASH).len() == 0),
        r matches Some(p) ==> views(p.0@) == pieces(path@, SLASH).drop_last() && p.1@ == pieces(path@, SLASH).last(),
{
    let mut names = split_on(path, SLASH);
    let n = names.len();
    if n == 0 {
        return None;
    }
    let file = names.remove(n - 1);
    proof {
        assert(views(names@) =~= pieces(path@, SLASH).drop_last());
    }
    Some((names, file))
}

} // verus!
