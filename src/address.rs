use vstd::prelude::*;

verus! {

/// Identifies a document within the fixed segment list of one searcher.
///
/// `segment_ord` is a position in that searcher's segment list, not a
/// persistent segment id; `doc` is the document id local to the segment.
#[derive(Clone, Copy, Debug, PartialEq, Eq, Hash, Structural)]
pub struct DocAddress {
    pub segment_ord: u32,
    pub doc: u32,
}

impl DocAddress {
    pub fn new(segment_ord: u32, doc: u32) -> (r: DocAddress)
        ensures
            r.segment_ord == segment_ord,
            r.doc == doc,
    {
        DocAddress { segment_ord, doc }
    }

    /// Ordinal of the segment hosting the document, meaningful only for the
    /// searcher that produced the address.
    pub fn segment_ord(&self) -> (r: u32)
        ensures
            r == self.segment_ord,
    {
        self.segment_ord
    }

    /// The segment-local document id.
    pub fn doc(&self) -> (r: u32)
        ensures
            r == self.doc,
    {
        self.doc
    }
}

} // verus!
