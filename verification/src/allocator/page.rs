//! Per-frame metadata records.
//!
//! One [`Page`] describes one physical page frame. The records live in a
//! dense table indexed by frame number; a frame refers to another frame by
//! its index in that table.

use vstd::prelude::*;

verus! {

/// Flag bit: the frame is reserved and never handed out.
pub const PG_RESERVED: u32 = 0x1;

/// Flag bit: the frame is the head of a free run and `property` is valid.
pub const PG_PROPERTY: u32 = 0x2;

/// Metadata of one physical page frame.
#[derive(Clone, Copy, Debug)]
pub struct Page {
    /// Bit field of `PG_*` flags.
    pub flags: u32,
    /// Length in frames of the free run that starts here. Meaningful only
    /// while the run-head flag is set.
    pub property: usize,
    /// Number of live references to the frame; zero while the frame is free.
    pub ref_count: u32,
    /// Index of the next run head in the free list. Only run heads are linked.
    pub link: Option<usize>,
}

impl Page {
    /// Whether the run-head flag is set.
    pub open spec fn head(&self) -> bool {
        self.flags & PG_PROPERTY != 0
    }

    /// Whether the reserved flag is set.
    pub open spec fn reserved(&self) -> bool {
        self.flags & PG_RESERVED != 0
    }

    /// A record with everything cleared: no flags, no references, unlinked.
    pub open spec fn blank() -> Page {
        Page { flags: 0, property: 0, ref_count: 0, link: None }
    }

    /// Returns a cleared record.
    pub fn new() -> (page: Page)
        ensures
            page == Page::blank(),
            !page.head(),
            !page.reserved(),
    {
        assert(0u32 & 0x2u32 == 0 && 0u32 & 0x1u32 == 0) by (bit_vector);
        Page { flags: 0, property: 0, ref_count: 0, link: None }
    }

    /// Sets the reference count to `n`.
    pub fn set_ref(&mut self, n: u32)
        ensures
            *final(self) == (Page { ref_count: n, ..*old(self) }),
    {
        self.ref_count = n;
    }

    /// Clears every flag, the run-head flag included.
    pub fn clear_flags(&mut self)
        ensures
            *final(self) == (Page { flags: 0, ..*old(self) }),
            !final(self).head(),
            !final(self).reserved(),
    {
        assert(0u32 & 0x2u32 == 0 && 0u32 & 0x1u32 == 0) by (bit_vector);
        self.flags = 0;
    }

    /// Sets the run-head flag and leaves the other flags alone.
    pub fn mark_head(&mut self)
        ensures
            *final(self) == (Page { flags: old(self).flags | PG_PROPERTY, ..*old(self) }),
            final(self).head(),
            final(self).reserved() == old(self).reserved(),
            old(self).flags == 0 ==> final(self).flags == PG_PROPERTY,
    {
        let f: u32 = self.flags;
        assert((f | 0x2u32) & 0x2u32 != 0 && (f | 0x2u32) & 0x1u32 == f & 0x1u32 && (f == 0
            ==> f | 0x2u32 == 0x2u32)) by (bit_vector);
        self.flags = f | PG_PROPERTY;
    }

    /// Clears the run-head flag and leaves the other flags alone.
    pub fn unmark_head(&mut self)
        ensures
            *final(self) == (Page { flags: old(self).flags & !PG_PROPERTY, ..*old(self) }),
            !final(self).head(),
            final(self).reserved() == old(self).reserved(),
            old(self).flags == PG_PROPERTY ==> final(self).flags == 0,
    {
        let f: u32 = self.flags;
        assert((f & !0x2u32) & 0x2u32 == 0 && (f & !0x2u32) & 0x1u32 == f & 0x1u32 && (f
            == 0x2u32 ==> f & !0x2u32 == 0)) by (bit_vector);
        self.flags = f & !PG_PROPERTY;
    }

    /// Whether the frame is the head of a free run.
    pub fn is_head(&self) -> (b: bool)
        ensures
            b == self.head(),
    {
        self.flags & PG_PROPERTY != 0
    }

    /// Whether the frame is reserved.
    pub fn is_reserved(&self) -> (b: bool)
        ensures
            b == self.reserved(),
    {
        self.flags & PG_RESERVED != 0
    }

    /// Length of the free run that starts at this frame.
    pub fn run_length(&self) -> (n: usize)
        requires
            self.head(),
        ensures
            n == self.property,
    {
        self.property
    }

    /// Records `n` as the length of the free run that starts at this frame.
    pub fn set_run_length(&mut self, n: usize)
        requires
            old(self).head(),
        ensures
            *final(self) == (Page { property: n, ..*old(self) }),
    {
        self.property = n;
    }
}

} // verus!
