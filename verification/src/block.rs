//! The block builder: accumulates framed entries into one contiguous,
//! size-bounded byte run. Data blocks and the index block use the same
//! builder and the same framing.

use vstd::prelude::*;

use crate::codec::{clone_bytes, entries_bytes, entry_bytes, entry_wf, put_entry};
use crate::keys::{Entry, EntryView};

verus! {

/// Accumulates entries into the byte image of one block.
pub struct BlockBuilder {
    buf: Vec<u8>,
    entries: Ghost<Seq<EntryView>>,
}

impl View for BlockBuilder {
    type V = Seq<EntryView>;

    closed spec fn view(&self) -> Seq<EntryView> {
        self.entries@
    }
}

impl BlockBuilder {
    /// The builder's bytes are exactly the encoding of the entries added
    /// so far, all of them within the frame size limits.
    pub closed spec fn wf(&self) -> bool {
        &&& self.buf@ == entries_bytes(self@)
        &&& forall|i: int| 0 <= i < self@.len() ==> entry_wf(#[trigger] self@[i])
    }

    /// Every entry a well-formed builder holds is within the frame size
    /// limits.
    pub proof fn entries_wf(&self)
        requires
            self.wf(),
        ensures
            forall|i: int| 0 <= i < self@.len() ==> entry_wf(#[trigger] self@[i]),
    {
    }

    pub fn new() -> (r: BlockBuilder)
        ensures
            r.wf(),
            r@ == Seq::<EntryView>::empty(),
    {
        BlockBuilder { buf: Vec::new(), entries: Ghost(Seq::empty()) }
    }

    /// Appends one entry's frame to the block.
    pub fn add(&mut self, e: &Entry)
        requires
            old(self).wf(),
            entry_wf(e@),
        ensures
            final(self).wf(),
            final(self)@ == old(self)@.push(e@),
    {
        let ghost prior = self@;
        put_entry(&mut self.buf, e);
        self.entries = Ghost(prior.push(e@));
        proof {
            crate::codec::lemma_entries_bytes_push(prior, e@);
        }
    }

    /// The encoded size of the block as built so far.
    pub fn encoded_size(&self) -> (r: usize)
        requires
            self.wf(),
        ensures
            r == entries_bytes(self@).len(),
    {
        self.buf.len()
    }

    /// Whether no entry has been added since the last reset.
    pub fn is_empty(&self) -> (r: bool)
        requires
            self.wf(),
        ensures
            r == (self@.len() == 0),
    {
        proof {
            crate::codec::lemma_entries_bytes_len(self@);
        }
        self.buf.len() == 0
    }

    /// Finishes the block: hands out its bytes and resets the builder.
    pub fn finish(&mut self) -> (r: Vec<u8>)
        requires
            old(self).wf(),
        ensures
            final(self).wf(),
            final(self)@ == Seq::<EntryView>::empty(),
            r@ == entries_bytes(old(self)@),
    {
        let out = clone_bytes(&self.buf);
        self.buf.clear();
        self.entries = Ghost(Seq::empty());
        out
    }
}

} // verus!
