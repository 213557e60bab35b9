use vstd::prelude::*;

verus! {

// The bit positions of an event mask, as the Linux kernel defines them.

/// File was accessed.
pub const IN_ACCESS: u32 = 0x0000_0001;

/// File was modified.
pub const IN_MODIFY: u32 = 0x0000_0002;

/// Metadata changed.
pub const IN_ATTRIB: u32 = 0x0000_0004;

/// A file opened for writing was closed.
pub const IN_CLOSE_WRITE: u32 = 0x0000_0008;

/// A file not opened for writing was closed.
pub const IN_CLOSE_NOWRITE: u32 = 0x0000_0010;

/// File was opened.
pub const IN_OPEN: u32 = 0x0000_0020;

/// File was moved out of the watched directory.
pub const IN_MOVED_FROM: u32 = 0x0000_0040;

/// File was moved into the watched directory.
pub const IN_MOVED_TO: u32 = 0x0000_0080;

/// File was created in the watched directory.
pub const IN_CREATE: u32 = 0x0000_0100;

/// File was deleted from the watched directory.
pub const IN_DELETE: u32 = 0x0000_0200;

/// The watched file or directory itself was deleted.
pub const IN_DELETE_SELF: u32 = 0x0000_0400;

/// The watched file or directory itself was moved.
pub const IN_MOVE_SELF: u32 = 0x0000_0800;

/// The file system holding the watched object was unmounted.
pub const IN_UNMOUNT: u32 = 0x0000_2000;

/// The kernel's event queue overflowed.
pub const IN_Q_OVERFLOW: u32 = 0x0000_4000;

/// The watch was removed.
pub const IN_IGNORED: u32 = 0x0000_8000;

/// The subject of the event is a directory.
pub const IN_ISDIR: u32 = 0x4000_0000;

/// Either kind of close.
pub const IN_CLOSE: u32 = IN_CLOSE_WRITE | IN_CLOSE_NOWRITE;

/// Either direction of a move.
pub const IN_MOVE: u32 = IN_MOVED_FROM | IN_MOVED_TO;

/// Every event class a watch can ask for.
pub const IN_ALL_EVENTS: u32 = IN_ACCESS | IN_MODIFY | IN_ATTRIB | IN_CLOSE_WRITE
    | IN_CLOSE_NOWRITE | IN_OPEN | IN_MOVED_FROM | IN_MOVED_TO | IN_CREATE | IN_DELETE
    | IN_DELETE_SELF | IN_MOVE_SELF;

/// Whether `mask` has at least one of the bits of `flag`.
pub open spec fn has_flag(mask: u32, flag: u32) -> bool {
    mask & flag != 0
}

/// Whether `mask` has at least one of the bits of `flag`.
pub fn mask_has(mask: u32, flag: u32) -> (r: bool)
    ensures
        r == has_flag(mask, flag),
{
    mask & flag != 0
}

/// A flag test reads only the flag's own bits: setting or clearing bits
/// outside `flag` never changes it, setting `flag` makes it true and
/// clearing `flag` makes it false.
pub proof fn lemma_flag_independent(mask: u32, flag: u32, other: u32)
    requires
        flag & other == 0,
    ensures
        has_flag(mask | other, flag) == has_flag(mask, flag),
        has_flag(mask & !other, flag) == has_flag(mask, flag),
        flag != 0 ==> has_flag(mask | flag, flag),
        !has_flag(mask & !flag, flag),
{
    assert((mask | other) & flag == mask & flag) by (bit_vector)
        requires
            flag & other == 0,
    ;
    assert((mask & !other) & flag == mask & flag) by (bit_vector)
        requires
            flag & other == 0,
    ;
    assert(flag != 0 ==> (mask | flag) & flag != 0) by (bit_vector);
    assert((mask & !flag) & flag == 0) by (bit_vector);
}

} // verus!
