use vstd::prelude::*;

use crate::mask::{
    IN_ACCESS,
    IN_MODIFY,
    IN_ATTRIB,
    IN_CLOSE_WRITE,
    IN_CLOSE_NOWRITE,
    IN_OPEN,
    IN_MOVED_FROM,
    IN_MOVED_TO,
    IN_CREATE,
    IN_DELETE,
    IN_DELETE_SELF,
    IN_MOVE_SELF,
    IN_MOVE,
    IN_CLOSE,
    IN_ISDIR,
    IN_UNMOUNT,
    IN_Q_OVERFLOW,
    IN_IGNORED,
    has_flag, mask_has,
};

verus! {

/// One notification record, decoded.
#[derive(Clone, Debug, PartialEq, Eq)]
pub struct Event {
    /// The watch the record belongs to.
    pub wd: i32,
    /// The event classes that occurred.
    pub mask: u32,
    /// Links the two halves of a rename; zero when unused.
    pub cookie: u32,
    /// The affected entry, relative to the watched path; possibly empty.
    pub name: String,
}

impl Event {
    /// Whether a file was accessed.
    pub fn is_access(&self) -> (r: bool)
        ensures
            r == has_flag(self.mask, IN_ACCESS),
    {
        mask_has(self.mask, IN_ACCESS)
    }

    /// Whether a file was modified.
    pub fn is_modify(&self) -> (r: bool)
        ensures
            r == has_flag(self.mask, IN_MODIFY),
    {
        mask_has(self.mask, IN_MODIFY)
    }

    /// Whether metadata changed.
    pub fn is_attrib(&self) -> (r: bool)
        ensures
            r == has_flag(self.mask, IN_ATTRIB),
    {
        mask_has(self.mask, IN_ATTRIB)
    }

    /// Whether a file opened for writing was closed.
    pub fn is_close_write(&self) -> (r: bool)
        ensures
            r == has_flag(self.mask, IN_CLOSE_WRITE),
    {
        mask_has(self.mask, IN_CLOSE_WRITE)
    }

    /// Whether a file not opened for writing was closed.
    pub fn is_close_nowrite(&self) -> (r: bool)
        ensures
            r == has_flag(self.mask, IN_CLOSE_NOWRITE),
    {
        mask_has(self.mask, IN_CLOSE_NOWRITE)
    }

    /// Whether a file was opened.
    pub fn is_open(&self) -> (r: bool)
        ensures
            r == has_flag(self.mask, IN_OPEN),
    {
        mask_has(self.mask, IN_OPEN)
    }

    /// Whether a file was moved out.
    pub fn is_moved_from(&self) -> (r: bool)
        ensures
            r == has_flag(self.mask, IN_MOVED_FROM),
    {
        mask_has(self.mask, IN_MOVED_FROM)
    }

    /// Whether a file was moved in.
    pub fn is_moved_to(&self) -> (r: bool)
        ensures
            r == has_flag(self.mask, IN_MOVED_TO),
    {
        mask_has(self.mask, IN_MOVED_TO)
    }

    /// Whether a file was created.
    pub fn is_create(&self) -> (r: bool)
        ensures
            r == has_flag(self.mask, IN_CREATE),
    {
        mask_has(self.mask, IN_CREATE)
    }

    /// Whether a file was deleted.
    pub fn is_delete(&self) -> (r: bool)
        ensures
            r == has_flag(self.mask, IN_DELETE),
    {
        mask_has(self.mask, IN_DELETE)
    }

    /// Whether the watched object was deleted.
    pub fn is_delete_self(&self) -> (r: bool)
        ensures
            r == has_flag(self.mask, IN_DELETE_SELF),
    {
        mask_has(self.mask, IN_DELETE_SELF)
    }

    /// Whether the watched object was moved.
    pub fn is_move_self(&self) -> (r: bool)
        ensures
            r == has_flag(self.mask, IN_MOVE_SELF),
    {
        mask_has(self.mask, IN_MOVE_SELF)
    }

    /// Whether a file was moved in either direction.
    pub fn is_move(&self) -> (r: bool)
        ensures
            r == has_flag(self.mask, IN_MOVE),
    {
        mask_has(self.mask, IN_MOVE)
    }

    /// Whether a file was closed, either way.
    pub fn is_close(&self) -> (r: bool)
        ensures
            r == has_flag(self.mask, IN_CLOSE),
    {
        mask_has(self.mask, IN_CLOSE)
    }

    /// Whether the subject is a directory.
    pub fn is_dir(&self) -> (r: bool)
        ensures
            r == has_flag(self.mask, IN_ISDIR),
    {
        mask_has(self.mask, IN_ISDIR)
    }

    /// Whether the file system was unmounted.
    pub fn is_unmount(&self) -> (r: bool)
        ensures
            r == has_flag(self.mask, IN_UNMOUNT),
    {
        mask_has(self.mask, IN_UNMOUNT)
    }

    /// Whether the kernel's queue overflowed.
    pub fn is_queue_overflow(&self) -> (r: bool)
        ensures
            r == has_flag(self.mask, IN_Q_OVERFLOW),
    {
        mask_has(self.mask, IN_Q_OVERFLOW)
    }

    /// Whether the watch was removed.
    pub fn is_ignored(&self) -> (r: bool)
        ensures
            r == has_flag(self.mask, IN_IGNORED),
    {
        mask_has(self.mask, IN_IGNORED)
    }
}

} // verus!
