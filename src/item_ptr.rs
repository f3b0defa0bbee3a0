use vstd::prelude::*;

verus! {

/// The page number that stands for "no page".
pub const SENTINEL: i32 = -1;

/// The address of an item: a page and a byte offset within that page.
///
/// A pointer whose page number is `SENTINEL` is null, whatever its offset.
#[derive(Clone, Copy, Debug, PartialEq, Eq, Structural)]
pub struct ItemPtr {
    pub page_no: i32,
    pub offset: usize,
}

impl ItemPtr {
    /// A pointer to `offset` within page `page_no`; any value is accepted,
    /// the sentinel included.
    pub fn new(page_no: i32, offset: usize) -> (r: ItemPtr)
        ensures
            r.page_no == page_no,
            r.offset == offset,
    {
        ItemPtr { page_no, offset }
    }

    pub open spec fn spec_is_null(&self) -> bool {
        self.page_no == SENTINEL
    }

    /// Whether the pointer refers to no page.
    pub fn is_null(&self) -> (r: bool)
        ensures
            r == self.spec_is_null(),
    {
        self.page_no == SENTINEL
    }
}

impl Default for ItemPtr {
    /// The null pointer: the sentinel page at offset zero.
    fn default() -> (r: ItemPtr)
        ensures
            r.page_no == SENTINEL,
            r.offset == 0,
            r.spec_is_null(),
    {
        ItemPtr { page_no: SENTINEL, offset: 0 }
    }
}

} // verus!
