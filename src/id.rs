use vstd::prelude::*;

verus! {

/// Identifies a page: the segment file it lives in and its number there.
#[derive(Debug, Clone, Copy, PartialEq, Eq, Structural, Hash)]
pub struct PageId {
    pub segment_num: u32,
    pub page_num: u16,
}

impl PageId {
    pub fn new(segment_num: u32, page_num: u16) -> (r: PageId)
        ensures
            r.segment_num == segment_num,
            r.page_num == page_num,
    {
        PageId { segment_num, page_num }
    }
}

/// Identifies an item slot within a page.
#[derive(Debug, Clone, Copy, PartialEq, Eq, Structural, Hash)]
pub struct ItemId {
    pub segment_num: u32,
    pub page_num: u16,
    pub index: u16,
}

impl ItemId {
    pub fn new(page_id: PageId, index: u16) -> (r: ItemId)
        ensures
            r.segment_num == page_id.segment_num,
            r.page_num == page_id.page_num,
            r.index == index,
    {
        ItemId { segment_num: page_id.segment_num, page_num: page_id.page_num, index }
    }

    pub fn page_id(self) -> (r: PageId)
        ensures
            r.segment_num == self.segment_num,
            r.page_num == self.page_num,
    {
        PageId::new(self.segment_num, self.page_num)
    }
}

} // verus!
