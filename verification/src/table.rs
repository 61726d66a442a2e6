//! The table format: data blocks, an index block mapping each data
//! block's last key to its location, and a fixed-size footer pointing at
//! the index block, written in that order.
//!
//! ```text
//! [data block 0][data block 1]...[data block N-1][index block][footer]
//! ```
//!
//! `parse_table` is the specification of the whole layout; the builder is
//! proved to emit bytes that parse back to exactly the entries added, and
//! the reader is proved to return exactly what `parse_table` says.

use vstd::prelude::*;

use crate::block::BlockBuilder;
use crate::codec::{
    append_bytes, clone_bytes, copy_range, entries_bytes, entry_bytes, entry_wf, get_u64,
    key_bytes, opt_view, parse_entries, put_key, put_timestamp, u64_bytes, u64_from_bytes,
    value_bytes, MAX_KEY_SIZE, MAX_VALUE_SIZE,
};
use crate::error::Error;
use crate::keys::{
    compare_keys, key_lt, strictly_sorted, Entry, EntryView, Key, KeyOrder, KeyView, Timestamp,
};

verus! {

/// The fixed length of the footer: index offset, index length, magic.
pub const FOOTER_SIZE: usize = 24;

/// The marker closing every finished table file.
pub const TABLE_MAGIC: u64 = 8242241374149074252;

/// A pointer into a table file.
#[derive(Clone, Copy, PartialEq, Eq, Structural, Debug)]
pub struct BlockHandle {
    pub offset: u64,
    pub length: u64,
}

/// A handle as stored: two fixed-width integers.
pub open spec fn handle_bytes(offset: u64, length: u64) -> Seq<u8> {
    u64_bytes(offset) + u64_bytes(length)
}

/// The handle read back from an index entry's value, if well formed.
pub open spec fn handle_of(v: Option<Seq<u8>>) -> Option<BlockHandle> {
    match v {
        Some(h) => if h.len() == 16 {
            Some(
                BlockHandle {
                    offset: u64_from_bytes(h.subrange(0, 8)),
                    length: u64_from_bytes(h.subrange(8, 16)),
                },
            )
        } else {
            None
        },
        None => None,
    }
}

/// The footer read back from the end of a file: the index block's
/// offset and length, checked against the magic marker and the file
/// size. The index block must lie before the footer.
pub open spec fn parse_footer(b: Seq<u8>) -> Option<(int, int)> {
    if b.len() < FOOTER_SIZE {
        None
    } else {
        let f = b.skip(b.len() - FOOTER_SIZE);
        if u64_from_bytes(f.subrange(16, 24)) != TABLE_MAGIC {
            None
        } else {
            let off = u64_from_bytes(f.subrange(0, 8)) as int;
            let len = u64_from_bytes(f.subrange(8, 16)) as int;
            if off + len > b.len() - FOOTER_SIZE {
                None
            } else {
                Some((off, len))
            }
        }
    }
}

/// The data blocks located by an index, each parsed from its handle's
/// range. Every handle must stay within the data region (`limit`), and
/// every block must be a nonempty, well-formed tiling of entries.
pub open spec fn parse_blocks(data: Seq<u8>, idx: Seq<EntryView>, limit: int) -> Option<
    Seq<Seq<EntryView>>,
>
    decreases idx.len(),
{
    if idx.len() == 0 {
        Some(Seq::empty())
    } else {
        match handle_of(idx.first().value) {
            None => None,
            Some(h) => {
                if h.offset + h.length > limit {
                    None
                } else {
                    match parse_entries(data.subrange(h.offset as int, h.offset + h.length)) {
                        None => None,
                        Some(es) => {
                            if es.len() == 0 {
                                None
                            } else {
                                match parse_blocks(data, idx.drop_first(), limit) {
                                    None => None,
                                    Some(rest) => Some(seq![es] + rest),
                                }
                            }
                        },
                    }
                }
            },
        }
    }
}

/// All entries of a table: its blocks, concatenated in index order.
pub open spec fn concat_blocks(bs: Seq<Seq<EntryView>>) -> Seq<EntryView>
    decreases bs.len(),
{
    if bs.len() == 0 {
        Seq::empty()
    } else {
        bs.first() + concat_blocks(bs.drop_first())
    }
}

pub proof fn lemma_concat_blocks_push(bs: Seq<Seq<EntryView>>, b: Seq<EntryView>)
    ensures
        concat_blocks(bs.push(b)) == concat_blocks(bs) + b,
    decreases bs.len(),
{
    if bs.len() == 0 {
        reveal_with_fuel(concat_blocks, 2);
        assert(bs.push(b).first() == b);
        assert(bs.push(b).drop_first() =~= Seq::<Seq<EntryView>>::empty());
        assert(concat_blocks(bs.push(b)) =~= b);
        assert(concat_blocks(bs) + b =~= b);
    } else {
        assert(bs.push(b).first() == bs.first());
        assert(bs.push(b).drop_first() =~= bs.drop_first().push(b));
        lemma_concat_blocks_push(bs.drop_first(), b);
        assert(concat_blocks(bs.push(b)) =~= concat_blocks(bs) + b);
    }
}

/// The structure of a parseable table: its index entries and its blocks.
pub closed spec fn parse_table_parts(b: Seq<u8>) -> Option<(Seq<EntryView>, Seq<Seq<EntryView>>)> {
    match parse_footer(b) {
        None => None,
        Some((off, len)) => match parse_entries(b.subrange(off, off + len)) {
            None => None,
            Some(idx) => {
                if idx.len() == 0 {
                    None
                } else {
                    match parse_blocks(b, idx, off) {
                        None => None,
                        Some(blocks) => Some((idx, blocks)),
                    }
                }
            },
        },
    }
}

/// The entries read back from a whole table file, in file order.
pub closed spec fn parse_table(b: Seq<u8>) -> Option<Seq<EntryView>> {
    match parse_table_parts(b) {
        None => None,
        Some((idx, blocks)) => Some(concat_blocks(blocks)),
    }
}

/// A well-formed table file: it parses, its index describes its blocks
/// exactly (one nonempty block per index entry, the entry's key being the
/// block's last key), and its entries are strictly sorted.
pub closed spec fn table_wf(b: Seq<u8>) -> bool {
    match parse_table_parts(b) {
        None => false,
        Some((idx, blocks)) => {
            &&& idx.len() == blocks.len()
            &&& forall|i: int| 0 <= i < blocks.len() ==> (#[trigger] blocks[i]).len() > 0
            &&& forall|i: int|
                0 <= i < blocks.len() ==> (#[trigger] idx[i]).key == blocks[i].last().key
            &&& strictly_sorted(concat_blocks(blocks))
            &&& all_entries_wf(concat_blocks(blocks))
        },
    }
}

/// Every entry of the sequence is within the frame size limits. Kept
/// abstract so that reasoning about it goes through the two lemmas below
/// rather than through quantifier instantiation.
pub closed spec fn all_entries_wf(s: Seq<EntryView>) -> bool {
    forall|i: int| 0 <= i < s.len() ==> entry_wf(#[trigger] s[i])
}

pub proof fn lemma_all_entries_wf_intro(s: Seq<EntryView>)
    requires
        forall|i: int| 0 <= i < s.len() ==> entry_wf(#[trigger] s[i]),
    ensures
        all_entries_wf(s),
{
}

pub proof fn lemma_all_entries_wf_elim(s: Seq<EntryView>, i: int)
    requires
        all_entries_wf(s),
        0 <= i < s.len(),
    ensures
        entry_wf(s[i]),
{
}

/// A well-formed table holds at least one entry.
pub proof fn lemma_table_wf_nonempty(b: Seq<u8>)
    requires
        table_wf(b),
    ensures
        parse_table(b) matches Some(s) && s.len() > 0,
{
    let parts = parse_table_parts(b)->Some_0;
    lemma_concat_blocks_first_nonempty(parts.1);
}

/// What a well-formed table parses to: a nonempty, strictly sorted
/// sequence of entries within the frame size limits.
pub proof fn lemma_good_parses(b: Seq<u8>)
    requires
        table_wf(b),
    ensures
        parse_table(b) matches Some(s) && s.len() > 0 && strictly_sorted(s) && all_entries_wf(s),
{
    lemma_table_wf_nonempty(b);
}

/// A finished table file as the builder promises it: well formed, it
/// parses back to the entries that were added, and its descriptor holds
/// the file's exact size and the first and last keys.
pub closed spec fn built_table(b: Seq<u8>, s: Seq<EntryView>, d: TableDescView) -> bool {
    &&& table_wf(b)
    &&& parse_table(b) == Some(s)
    &&& strictly_sorted(s)
    &&& d.table_size == b.len()
    &&& s.len() > 0 && d.lower_bound == key_bytes(s[0].key) && d.upper_bound == key_bytes(
        s.last().key,
    )
}

/// The structural half of `built_table`.
pub proof fn lemma_built_table_parts(b: Seq<u8>, s: Seq<EntryView>, d: TableDescView)
    requires
        built_table(b, s, d),
    ensures
        table_wf(b),
        parse_table(b) == Some(s),
        s.len() > 0,
        d.table_size == b.len(),
{
}

/// The descriptor half of `built_table`.
pub proof fn lemma_built_table_bounds(b: Seq<u8>, s: Seq<EntryView>, d: TableDescView)
    requires
        built_table(b, s, d),
    ensures
        d.lower_bound == key_bytes(s[0].key),
        d.upper_bound == key_bytes(s.last().key),
{
}

/// A reader's contents are whatever its bytes parse to.
pub proof fn lemma_contents_from_parse(r: TableReader, s: Seq<EntryView>)
    requires
        parse_table(r.data_bytes()) == Some(s),
    ensures
        r.contents() == s,
{
}

/// Metadata describing one finished table.
#[derive(Debug)]
pub struct TableDesc {
    /// The exact byte length of the written file.
    pub table_size: u64,
    /// The encoded form of the first key added, empty for an empty table.
    pub lower_bound: Vec<u8>,
    /// The encoded form of the last key added, empty for an empty table.
    pub upper_bound: Vec<u8>,
}

pub struct TableDescView {
    pub table_size: u64,
    pub lower_bound: Seq<u8>,
    pub upper_bound: Seq<u8>,
}

impl View for TableDesc {
    type V = TableDescView;

    open spec fn view(&self) -> TableDescView {
        TableDescView {
            table_size: self.table_size,
            lower_bound: self.lower_bound@,
            upper_bound: self.upper_bound@,
        }
    }
}

impl TableDesc {
    pub fn clone_desc(&self) -> (r: TableDesc)
        ensures
            r@ == self@,
    {
        TableDesc {
            table_size: self.table_size,
            lower_bound: clone_bytes(&self.lower_bound),
            upper_bound: clone_bytes(&self.upper_bound),
        }
    }
}

/// Options for building a table.
#[derive(Clone, Copy, Debug)]
pub struct TableBuilderOptions {
    /// A data block is flushed once its encoded size reaches this bound.
    pub block_size: usize,
}

impl Default for TableBuilderOptions {
    fn default() -> (r: Self)
        ensures
            r.block_size == 8192,
    {
        TableBuilderOptions { block_size: 8192 }
    }
}

/// The ghost record of what the builder has flushed so far.
pub struct BuilderGhost {
    /// The entries of each flushed data block, in flush order.
    pub blocks: Seq<Seq<EntryView>>,
    /// The file range each flushed block was written to.
    pub handles: Seq<(u64, u64)>,
}

/// Streams strictly increasing entries into data blocks, accumulating
/// the index block and the table's key bounds; `finish` closes the file
/// image with the index block and the footer.
pub struct TableBuilder {
    options: TableBuilderOptions,
    est: usize,
    file: Vec<u8>,
    lower_bound: Vec<u8>,
    upper_bound: Vec<u8>,
    last_key: Option<Key>,
    data_block: BlockBuilder,
    index_block: BlockBuilder,
    g: Ghost<BuilderGhost>,
}

impl TableBuilder {
    /// All entries accepted so far, in order.
    pub closed spec fn entries(&self) -> Seq<EntryView> {
        concat_blocks(self.g@.blocks) + self.data_block@
    }

    /// The configured data block size bound.
    pub closed spec fn block_size(&self) -> int {
        self.options.block_size as int
    }

    /// The flushed data blocks so far, in flush order.
    pub closed spec fn flushed_blocks(&self) -> Seq<Seq<EntryView>> {
        self.g@.blocks
    }

    /// The entries of the data block still being filled.
    pub closed spec fn pending_block(&self) -> Seq<EntryView> {
        self.data_block@
    }

    /// The index entries recorded so far, one per flushed block.
    pub closed spec fn index_entries(&self) -> Seq<EntryView> {
        self.index_block@
    }

    /// The frame the pending block's eventual index entry occupies: a
    /// length-prefixed key (the block's last key) and a length-prefixed
    /// 16-byte handle.
    pub open spec fn pending_index_frame(p: Seq<EntryView>) -> int {
        if p.len() > 0 {
            42 + p.last().key.user_key.len() as int
        } else {
            0
        }
    }

    /// The exact length of the file `finish` would emit from the current
    /// state (counting the footer even for the empty table, whose finish
    /// emits nothing at all).
    pub closed spec fn final_size_now(&self) -> int {
        self.file@.len() + entries_bytes(self.data_block@).len() + Self::pending_index_frame(
            self.data_block@,
        ) + entries_bytes(self.index_block@).len() + FOOTER_SIZE
    }

    /// The current size estimate: an upper bound on the finished file.
    pub closed spec fn size_upper(&self) -> int {
        self.est as int
    }

    /// The builder's internal invariant.
    pub closed spec fn wf(&self) -> bool {
        let g = self.g@;
        &&& self.data_block.wf()
        &&& self.index_block.wf()
        &&& self.index_block@.len() == g.blocks.len()
        &&& g.handles.len() == g.blocks.len()
        &&& forall|i: int|
            0 <= i < g.blocks.len() ==> (#[trigger] self.index_block@[i]) == (EntryView {
                key: g.blocks[i].last().key,
                value: Some(handle_bytes(g.handles[i].0, g.handles[i].1)),
            })
        &&& forall|i: int|
            0 <= i < g.blocks.len() ==> (#[trigger] g.handles[i]).0 + g.handles[i].1
                <= self.file@.len()
        &&& forall|i: int|
            0 <= i < g.blocks.len() ==> self.file@.subrange(
                (#[trigger] g.handles[i]).0 as int,
                g.handles[i].0 + g.handles[i].1,
            ) == entries_bytes(g.blocks[i])
        &&& forall|i: int| 0 <= i < g.blocks.len() ==> (#[trigger] g.blocks[i]).len() > 0
        &&& forall|i: int, j: int|
            0 <= i < g.blocks.len() && 0 <= j < g.blocks[i].len() ==> entry_wf(
                #[trigger] g.blocks[i][j],
            )
        &&& strictly_sorted(self.entries())
        &&& g.blocks.len() == 0 ==> self.file@.len() == 0
        &&& match self.last_key {
            Some(ref k) => self.entries().len() > 0 && k@ == self.entries().last().key,
            None => self.entries().len() == 0,
        }
        &&& self.entries().len() > 0 ==> self.lower_bound@ == key_bytes(self.entries()[0].key)
            && self.upper_bound@ == key_bytes(self.entries().last().key)
        &&& self.entries().len() == 0 ==> self.lower_bound@.len() == 0 && self.upper_bound@.len()
            == 0
        &&& (self.est as int >= self.final_size_now() || self.est == usize::MAX)
    }

    pub fn new(options: TableBuilderOptions) -> (r: TableBuilder)
        ensures
            r.wf(),
            r.entries() == Seq::<EntryView>::empty(),
    {
        let r = TableBuilder {
            options,
            est: FOOTER_SIZE,
            file: Vec::new(),
            lower_bound: Vec::new(),
            upper_bound: Vec::new(),
            last_key: None,
            data_block: BlockBuilder::new(),
            index_block: BlockBuilder::new(),
            g: Ghost(BuilderGhost { blocks: Seq::empty(), handles: Seq::empty() }),
        };
        proof {
            assert(r.entries() =~= Seq::<EntryView>::empty());
            crate::codec::lemma_entries_bytes_len(r.data_block@);
            crate::codec::lemma_entries_bytes_len(r.index_block@);
        }
        r
    }

    /// Whether an entry is acceptable as the next addition: within the
    /// frame size limits and strictly after everything already added.
    pub open spec fn can_add(prior: Seq<EntryView>, e: EntryView) -> bool {
        &&& entry_wf(e)
        &&& (prior.len() == 0 || key_lt(prior.last().key, e.key))
    }

    /// Accepts the next entry. Entries must arrive in strictly
    /// increasing key order; a key out of order, or a key or value over
    /// the frame size limits, is rejected as `InvalidArgument` and
    /// leaves the table unchanged.
    pub fn add(&mut self, key: Key, value: Option<Vec<u8>>) -> (r: Result<(), Error>)
        requires
            old(self).wf(),
        ensures
            final(self).wf(),
            r is Ok <==> Self::can_add(
                old(self).entries(),
                EntryView { key: key@, value: opt_view(value) },
            ),
            r is Ok ==> final(self).entries() == old(self).entries().push(
                EntryView { key: key@, value: opt_view(value) },
            ),
            r matches Err(e) ==> e is InvalidArgument && final(self).entries() == old(
                self,
            ).entries(),
            final(self).size_upper() >= old(self).size_upper(),
            r is Ok ==> ({
                let p = old(self).pending_block().push(
                    EntryView { key: key@, value: opt_view(value) },
                );
                &&& (entries_bytes(p).len() >= old(self).block_size() ==> {
                    &&& final(self).flushed_blocks() == old(self).flushed_blocks().push(p)
                    &&& final(self).pending_block() == Seq::<EntryView>::empty()
                    &&& final(self).index_entries().len() == old(self).index_entries().len() + 1
                    &&& forall|i: int|
                        0 <= i < old(self).index_entries().len() ==> final(self).index_entries()[i]
                            == old(self).index_entries()[i]
                    &&& final(self).index_entries().last().key == key@
                    &&& handle_of(final(self).index_entries().last().value) is Some
                })
                &&& (entries_bytes(p).len() < old(self).block_size() ==> {
                    &&& final(self).flushed_blocks() == old(self).flushed_blocks()
                    &&& final(self).pending_block() == p
                    &&& final(self).index_entries() == old(self).index_entries()
                })
            }),
    {
        if key.user_key.len() as u64 > MAX_KEY_SIZE {
            return Err(Error::InvalidArgument("user key is too large".to_owned()));
        }
        match value {
            Some(ref v) => {
                if v.len() as u64 > MAX_VALUE_SIZE {
                    return Err(Error::InvalidArgument("value is too large".to_owned()));
                }
            },
            None => {},
        }
        match self.last_key {
            Some(ref lk) => {
                match compare_keys(lk, &key) {
                    KeyOrder::Less => {},
                    _ => {
                        return Err(
                            Error::InvalidArgument("keys must be strictly increasing".to_owned()),
                        );
                    },
                }
            },
            None => {},
        }
        let e = Entry { key, value };
        let ghost prior = self.entries();
        if self.last_key.is_none() {
            let mut lb: Vec<u8> = Vec::new();
            put_key(&mut lb, &e.key);
            self.lower_bound = lb;
        }
        let mut ub: Vec<u8> = Vec::new();
        put_key(&mut ub, &e.key);
        self.upper_bound = ub;
        self.last_key = Some(clone_key(&e.key));
        self.data_block.add(&e);
        proof {
            lemma_concat_push_entry(self.g@.blocks, old(self).data_block@, e@);
            assert(self.entries() =~= prior.push(e@));
            assert forall|i: int, j: int|
                0 <= i < j < self.entries().len() implies key_lt(
                #[trigger] self.entries()[i].key,
                #[trigger] self.entries()[j].key,
            ) by {
                if j < prior.len() {
                    assert(self.entries()[i] == prior[i]);
                    assert(self.entries()[j] == prior[j]);
                } else {
                    assert(self.entries()[j] == e@);
                    if i < prior.len() as int - 1 {
                        assert(key_lt(prior[i].key, prior.last().key));
                        crate::keys::lemma_key_lt_trans(prior[i].key, prior.last().key, e@.key);
                    }
                }
            }
        }
        let uk_len = e.key.user_key.len();
        let a = self.file.len();
        let b = self.data_block.encoded_size();
        let c = self.index_block.encoded_size();
        let pf = 42 + uk_len;
        let cand: usize = match a.checked_add(b) {
            Some(x) => match x.checked_add(pf) {
                Some(y) => match y.checked_add(c) {
                    Some(z) => match z.checked_add(FOOTER_SIZE) {
                        Some(w) => w,
                        None => usize::MAX,
                    },
                    None => usize::MAX,
                },
                None => usize::MAX,
            },
            None => usize::MAX,
        };
        if cand > self.est {
            self.est = cand;
        }
        proof {
            assert(self.data_block@.last() == e@);
            assert(Self::pending_index_frame(self.data_block@) == 42 + uk_len);
            assert(self.est as int >= self.final_size_now() || self.est == usize::MAX);
        }
        if self.data_block.encoded_size() >= self.options.block_size {
            self.flush_data_block();
        }
        Ok(())
    }

    /// A monotonically non-decreasing upper bound on the final file
    /// size: `add` never lowers it, and the file `finish` emits is never
    /// longer than the last estimate, so flush-size decisions upstream
    /// can trigger on it safely.
    pub fn estimated_size(&self) -> (r: usize)
        requires
            self.wf(),
        ensures
            r as int == self.size_upper(),
    {
        self.est
    }

    /// Closes the table: flushes the residual data block, writes the
    /// index block, writes the footer pointing at it, and returns the
    /// finished file image with its descriptor. The descriptor's size is
    /// the exact byte length of the file, and its bounds are the first
    /// and last keys added. The file parses back to exactly the entries
    /// added, in order.
    #[verifier::rlimit(100)]
    pub fn finish(self) -> (r: (TableDesc, Vec<u8>))
        requires
            self.wf(),
        ensures
            r.1@.len() <= self.size_upper(),
            self.entries().len() == 0 ==> r.1@.len() == 0 && r.0@.table_size == 0
                && r.0@.lower_bound.len() == 0 && r.0@.upper_bound.len() == 0,
            self.entries().len() > 0 ==> {
                &&& table_wf(r.1@)
                &&& parse_table(r.1@) == Some(self.entries())
                &&& strictly_sorted(self.entries())
                &&& r.0@.table_size == r.1@.len()
                &&& r.0@.lower_bound == key_bytes(self.entries()[0].key)
                &&& r.0@.upper_bound == key_bytes(self.entries().last().key)
            },
    {
        let mut this = self;
        this.flush_data_block();
        let ghost fsn0 = this.final_size_now();
        proof {
            if this.g@.blocks.len() > 0 {
                lemma_concat_blocks_first_nonempty(this.g@.blocks);
            }
            assert(this.entries() =~= concat_blocks(this.g@.blocks));
            crate::codec::lemma_entries_bytes_len(this.data_block@);
            assert(fsn0 == this.file@.len() + entries_bytes(this.index_block@).len()
                + FOOTER_SIZE);
            assert(this.est as int >= fsn0 || this.est == usize::MAX);
        }
        if this.index_block.is_empty() {
            proof {
                assert(self.entries().len() == 0);
            }
            return (
                TableDesc { table_size: 0, lower_bound: Vec::new(), upper_bound: Vec::new() },
                Vec::new(),
            );
        }
        let ghost idx_entries = this.index_block@;
        let ghost blocks = this.g@.blocks;
        let ghost handles = this.g@.handles;
        let ghost data_bytes = this.file@;
        proof {
            this.index_block.entries_wf();
        }
        let index_bytes = this.index_block.finish();
        let ioff = this.file.len() as u64;
        let ilen = index_bytes.len() as u64;
        append_bytes(&mut this.file, index_bytes.as_slice());
        put_timestamp(&mut this.file, ioff);
        put_timestamp(&mut this.file, ilen);
        put_timestamp(&mut this.file, TABLE_MAGIC);
        let size = this.file.len() as u64;
        let desc = TableDesc {
            table_size: size,
            lower_bound: this.lower_bound,
            upper_bound: this.upper_bound,
        };
        proof {
            let b = this.file@;
            let entries = self.entries();
            assert(entries == concat_blocks(blocks));
            // The footer parses back to the index handle.
            assert(b =~= data_bytes + entries_bytes(idx_entries) + u64_bytes(ioff) + u64_bytes(
                ilen,
            ) + u64_bytes(TABLE_MAGIC));
            let f = b.skip(b.len() - FOOTER_SIZE);
            assert(f.subrange(0, 8) =~= u64_bytes(ioff));
            assert(f.subrange(8, 16) =~= u64_bytes(ilen));
            assert(f.subrange(16, 24) =~= u64_bytes(TABLE_MAGIC));
            crate::codec::lemma_u64_round_trip(ioff);
            crate::codec::lemma_u64_round_trip(ilen);
            crate::codec::lemma_u64_round_trip(TABLE_MAGIC);
            assert(parse_footer(b) == Some((ioff as int, ilen as int)));
            // The index region parses back to the index entries.
            assert(b.subrange(ioff as int, ioff as int + ilen as int) =~= entries_bytes(
                idx_entries,
            ));
            crate::codec::lemma_parse_entries_round_trip(idx_entries);
            // Each block's region still holds its encoding.
            assert forall|i: int| 0 <= i < blocks.len() implies b.subrange(
                (#[trigger] handles[i]).0 as int,
                handles[i].0 + handles[i].1,
            ) == entries_bytes(blocks[i]) by {
                assert(b.subrange(handles[i].0 as int, handles[i].0 + handles[i].1)
                    =~= data_bytes.subrange(handles[i].0 as int, handles[i].0 + handles[i].1));
            }
            lemma_parse_blocks_from_handles(b, idx_entries, blocks, handles, ioff as int);
            assert(parse_table_parts(b) == Some((idx_entries, blocks)));
            assert(parse_table(b) == Some(entries));
            assert forall|q: int| 0 <= q < entries.len() implies entry_wf(#[trigger] entries[q]) by {
                lemma_concat_index_inverse(blocks, q);
                let (bi, bj): (int, int) = choose|bi: int, bj: int|
                    {
                        &&& 0 <= bi < blocks.len()
                        &&& 0 <= bj < blocks[bi].len()
                        &&& blocks_prefix_len(blocks, bi) + bj == q
                        &&& concat_blocks(blocks)[q] == blocks[bi][bj]
                    };
                assert(entry_wf(blocks[bi][bj]));
            }
            lemma_all_entries_wf_intro(entries);
            assert(table_wf(b));
            // The emitted file is exactly as long as the estimate
            // projected after the last flush, so it stays within the
            // advertised upper bound.
            assert(this.file@.len() == data_bytes.len() + entries_bytes(idx_entries).len()
                + FOOTER_SIZE);
            assert(this.file@.len() == fsn0);
            if this.est == usize::MAX {
                assert(this.file@.len() <= usize::MAX as int);
            }
            assert(this.file@.len() <= self.size_upper());
        }
        (desc, this.file)
    }

    /// `finish`, stated through the one predicate a caller needs: the
    /// returned bytes and descriptor form a finished table of exactly
    /// the entries added.
    pub fn finish_table(self) -> (r: (TableDesc, Vec<u8>))
        requires
            self.wf(),
            self.entries().len() > 0,
        ensures
            built_table(r.1@, self.entries(), r.0@),
            r.1@.len() <= self.size_upper(),
    {
        self.finish()
    }

    /// Flushes the pending data block, if any: writes its bytes at the
    /// end of the file and records an index entry mapping the block's
    /// last key to its handle.
    fn flush_data_block(&mut self)
        requires
            old(self).wf(),
        ensures
            final(self).wf(),
            final(self).entries() == old(self).entries(),
            final(self).data_block@.len() == 0,
            old(self).data_block@.len() > 0 ==> {
                &&& final(self).g@.blocks == old(self).g@.blocks.push(old(self).data_block@)
                &&& final(self).index_block@.len() == old(self).index_block@.len() + 1
                &&& forall|i: int|
                    0 <= i < old(self).index_block@.len() ==> final(self).index_block@[i] == old(
                        self,
                    ).index_block@[i]
                &&& final(self).index_block@.last().key == old(self).data_block@.last().key
                &&& handle_of(final(self).index_block@.last().value) is Some
            },
            old(self).data_block@.len() == 0 ==> *final(self) == *old(self),
            final(self).g@.blocks.len() >= old(self).g@.blocks.len(),
            final(self).lower_bound@ == old(self).lower_bound@,
            final(self).upper_bound@ == old(self).upper_bound@,
            final(self).options == old(self).options,
            final(self).last_key == old(self).last_key,
            final(self).est == old(self).est,
            final(self).final_size_now() == old(self).final_size_now(),
    {
        proof {
            crate::codec::lemma_entries_bytes_len(self.data_block@);
        }
        if self.data_block.is_empty() {
            return ;
        }
        let ghost pending = self.data_block@;
        let ghost old_file = self.file@;
        let block = self.data_block.finish();
        let off = self.file.len() as u64;
        let blen = block.len() as u64;
        append_bytes(&mut self.file, block.as_slice());
        let mut hb: Vec<u8> = Vec::new();
        put_timestamp(&mut hb, off);
        put_timestamp(&mut hb, blen);
        let ghost hbv = hb@;
        let upper = match self.last_key {
            Some(ref k) => clone_key(k),
            None => {
                proof {
                    assert(false);
                }
                Key { user_key: Vec::new(), timestamp: 0, value_type: crate::keys::ValueType::Put }
            },
        };
        let ie = Entry { key: upper, value: Some(hb) };
        proof {
            let prior = old(self).entries();
            old(self).data_block.entries_wf();
            assert(pending.len() > 0);
            assert(prior.last() == pending.last());
            assert(entry_wf(pending[pending.len() - 1]));
            assert(hbv =~= handle_bytes(off, blen));
            assert(ie@.key == pending.last().key);
            assert(entry_wf(ie@));
        }
        self.index_block.add(&ie);
        let ghost gb_old = self.g@.blocks;
        let ghost gh_old = self.g@.handles;
        self.g = Ghost(
            BuilderGhost { blocks: gb_old.push(pending), handles: gh_old.push((off, blen)) },
        );
        proof {
            let g = self.g@;
            let gb = gb_old;
            lemma_concat_blocks_push(gb, pending);
            assert(self.entries() =~= old(self).entries());
            assert(self.file@.subrange(off as int, off as int + blen as int) =~= entries_bytes(
                pending,
            ));
            assert forall|i: int| 0 <= i < gb.len() implies self.file@.subrange(
                (#[trigger] g.handles[i]).0 as int,
                g.handles[i].0 + g.handles[i].1,
            ) == entries_bytes(g.blocks[i]) by {
                assert(g.handles[i] == gh_old[i]);
                assert(g.blocks[i] == gb[i]);
                assert(self.file@.subrange(g.handles[i].0 as int, g.handles[i].0 + g.handles[i].1)
                    =~= old_file.subrange(g.handles[i].0 as int, g.handles[i].0 + g.handles[i].1));
            }
            assert forall|i: int, j: int|
                0 <= i < g.blocks.len() && 0 <= j < g.blocks[i].len() implies entry_wf(
                #[trigger] g.blocks[i][j],
            ) by {
                if i < gb.len() {
                    assert(g.blocks[i] == gb[i]);
                } else {
                    assert(g.blocks[i] == pending);
                }
            }
            assert(pending.last() == old(self).entries().last());
            // The pending block's bytes moved into the file, its future
            // index frame became a real index entry of the same length,
            // so the projected final size is unchanged.
            assert(hbv.len() == 16);
            assert(handle_of(Some(hbv)) is Some);
            assert(key_bytes(ie@.key).len() == ie@.key.user_key.len() + 9);
            assert(value_bytes(ie@.value).len() == 17);
            assert(entry_bytes(ie@).len() == 42 + pending.last().key.user_key.len());
            crate::codec::lemma_entries_bytes_push(old(self).index_block@, ie@);
            crate::codec::lemma_entries_bytes_len(self.data_block@);
            assert(Self::pending_index_frame(self.data_block@) == 0);
            assert(Self::pending_index_frame(pending) == 42 + pending.last().key.user_key.len());
            assert(self.file@.len() == old(self).file@.len() + entries_bytes(pending).len());
            assert(entries_bytes(self.index_block@).len() == entries_bytes(old(self).index_block@).len()
                + entry_bytes(ie@).len());
            assert(self.final_size_now() == old(self).final_size_now());
        }
    }
}

/// Opens a finished table: parses the footer from the end of the file
/// and loads the index block it points to. Point lookups and range
/// iteration then load one data block at a time.
pub struct TableReader {
    data: Vec<u8>,
    index: Vec<Entry>,
    index_off: usize,
}

impl TableReader {
    /// The raw bytes of the table file this reader was opened over.
    pub closed spec fn data_bytes(&self) -> Seq<u8> {
        self.data@
    }

    /// The reader's structural invariant, established by `open`: the
    /// footer and the index block parse, the loaded index is the parsed
    /// one, and every handle in it stays within the data region.
    pub closed spec fn wf(&self) -> bool {
        match parse_footer(self.data@) {
            None => false,
            Some((ioff, ilen)) => {
                &&& ioff == self.index_off as int
                &&& parse_entries(self.data@.subrange(ioff, ioff + ilen)) == Some(
                    crate::codec::entries_view(self.index@),
                )
                &&& self.index@.len() > 0
                &&& forall|i: int|
                    0 <= i < self.index@.len() ==> ((#[trigger] handle_of(
                        crate::codec::entries_view(self.index@)[i].value,
                    )) matches Some(h) && h.offset + h.length <= ioff)
            },
        }
    }

    /// Whether the table file behind this reader is well formed in full:
    /// blocks parse, the index describes them, entries strictly sorted.
    pub open spec fn good(&self) -> bool {
        table_wf(self.data_bytes())
    }

    /// The entries of the table, in file order.
    pub open spec fn contents(&self) -> Seq<EntryView> {
        match parse_table(self.data_bytes()) {
            Some(s) => s,
            None => Seq::empty(),
        }
    }

    /// Parses the footer and the index block of a table file. Fails with
    /// `Corrupted` only on a malformed file; on any file that parses in
    /// full it succeeds.
    #[verifier::rlimit(100)]
    pub fn open(data: Vec<u8>) -> (r: Result<TableReader, Error>)
        ensures
            match r {
                Ok(t) => t.data_bytes() == data@ && t.wf(),
                Err(e) => parse_table(data@) == None::<Seq<EntryView>> && e is Corrupted,
            },
    {
        let len = data.len();
        if len < FOOTER_SIZE {
            return Err(Error::Corrupted("file is shorter than the footer".to_owned()));
        }
        let fbase = len - FOOTER_SIZE;
        let ghost f = data@.skip(fbase as int);
        proof {
            assert(f.subrange(0, 8) =~= data@.subrange(fbase as int, fbase as int + 8));
            assert(f.subrange(8, 16) =~= data@.subrange(fbase as int + 8, fbase as int + 16));
            assert(f.subrange(16, 24) =~= data@.subrange(fbase as int + 16, fbase as int + 24));
        }
        let magic = get_u64(&data, fbase + 16);
        if magic != TABLE_MAGIC {
            return Err(Error::Corrupted("footer magic mismatch".to_owned()));
        }
        let ioff_u = get_u64(&data, fbase);
        let ilen_u = get_u64(&data, fbase + 8);
        if ioff_u > fbase as u64 || ilen_u > fbase as u64 - ioff_u {
            return Err(Error::Corrupted("index handle is out of range".to_owned()));
        }
        let ioff = ioff_u as usize;
        let ilen = ilen_u as usize;
        let index_bytes = copy_range(&data, ioff, ilen);
        let index = match crate::codec::decode_entries(&index_bytes) {
            Ok(v) => v,
            Err(e) => {
                return Err(e);
            },
        };
        if index.len() == 0 {
            return Err(Error::Corrupted("table has an empty index".to_owned()));
        }
        let ghost idx = crate::codec::entries_view(index@);
        proof {
            lemma_parse_blocks_facts(data@, idx, ioff as int);
        }
        let mut i: usize = 0;
        let n = index.len();
        while i < n
            invariant
                0 <= i <= n == index@.len(),
                idx == crate::codec::entries_view(index@),
                idx.len() == n > 0,
                ioff as int == ioff_u as int,
                ilen as int == ilen_u as int,
                ioff + ilen <= data@.len(),
                parse_footer(data@) == Some((ioff as int, ilen as int)),
                parse_entries(data@.subrange(ioff as int, ioff as int + ilen as int)) == Some(idx),
                forall|j: int|
                    0 <= j < i ==> ((#[trigger] handle_of(idx[j].value)) matches Some(h)
                        && h.offset + h.length <= ioff as int),
                parse_blocks(data@, idx, ioff as int) is Some ==> forall|j: int|
                    0 <= j < idx.len() ==> ((#[trigger] handle_of(idx[j].value)) matches Some(h)
                        && h.offset + h.length <= ioff as int),
            decreases n - i,
        {
            proof {
                assert(idx[i as int] == index@[i as int]@);
            }
            match &index[i].value {
                Some(hb) => {
                    proof {
                        assert(idx[i as int].value == Some(hb@));
                    }
                    if hb.len() != 16 {
                        return Err(Error::Corrupted("block handle is malformed".to_owned()));
                    }
                    let off = get_u64(hb, 0);
                    let l = get_u64(hb, 8);
                    proof {
                        assert(handle_of(idx[i as int].value) == Some(
                            BlockHandle { offset: off, length: l },
                        ));
                    }
                    if off > ioff_u || l > ioff_u - off {
                        return Err(Error::Corrupted("block handle is out of range".to_owned()));
                    }
                    proof {
                        assert(off + l <= ioff_u);
                        assert(hb@.len() == 16);
                        assert(off == u64_from_bytes(hb@.subrange(0, 8)));
                        assert(l == u64_from_bytes(hb@.subrange(8, 16)));
                        assert(idx[i as int].value == Some(hb@));
                        assert(handle_of(Some(hb@)) == Some(BlockHandle { offset: off, length: l }));
                        assert((handle_of(idx[i as int].value) matches Some(h) && h.offset
                            + h.length <= ioff as int));
                    }
                },
                None => {
                    proof {
                        assert(idx[i as int].value is None);
                    }
                    return Err(Error::Corrupted("index entry lacks a handle".to_owned()));
                },
            }
            i = i + 1;
        }
        Ok(TableReader { data, index, index_off: ioff })
    }

    /// The count of data blocks the index records.
    pub fn num_blocks(&self) -> (r: usize)
        requires
            self.wf(),
        ensures
            r == self.index_view().len(),
            r > 0,
    {
        self.index.len()
    }

    /// The parsed index entries.
    pub closed spec fn index_view(&self) -> Seq<EntryView> {
        crate::codec::entries_view(self.index@)
    }

    /// Loads and parses the data block at an index position. Fails with
    /// `Corrupted` exactly when that block's bytes are malformed or empty.
    pub fn read_block(&self, i: usize) -> (r: Result<Vec<Entry>, Error>)
        requires
            self.wf(),
            i < self.index_view().len(),
        ensures
            ({
                let h = handle_of(self.index_view()[i as int].value)->Some_0;
                let region = self.data_bytes().subrange(h.offset as int, h.offset + h.length);
                match r {
                    Ok(v) => parse_entries(region) == Some(crate::codec::entries_view(v@))
                        && v@.len() > 0,
                    Err(e) => (parse_entries(region) == None::<Seq<EntryView>> || parse_entries(
                        region,
                    ) == Some(Seq::<EntryView>::empty())) && e is Corrupted,
                }
            }),
    {
        let hb = match &self.index[i].value {
            Some(hb) => hb,
            None => {
                proof {
                    assert(false);
                }
                return Err(Error::Corrupted("missing handle".to_owned()));
            },
        };
        proof {
            assert(self.index_view()[i as int].value == Some(hb@));
        }
        let off = get_u64(hb, 0) as usize;
        let l = get_u64(hb, 8) as usize;
        let region = copy_range(&self.data, off, l);
        let v = match crate::codec::decode_entries(&region) {
            Ok(v) => v,
            Err(e) => {
                return Err(e);
            },
        };
        if v.len() == 0 {
            return Err(Error::Corrupted("table block is empty".to_owned()));
        }
        Ok(v)
    }

    /// Reads the whole table back, block by block in index order. On a
    /// file whose blocks all parse this returns exactly the table's
    /// entries; a malformed block fails the read with `Corrupted`.
    pub fn read_all(&self) -> (r: Result<Vec<Entry>, Error>)
        requires
            self.wf(),
        ensures
            match r {
                Ok(v) => parse_table(self.data_bytes()) == Some(crate::codec::entries_view(v@))
                    && self.contents() == crate::codec::entries_view(v@),
                Err(e) => parse_table(self.data_bytes()) == None::<Seq<EntryView>>
                    && e is Corrupted,
            },
    {
        let ghost idx = self.index_view();
        let ghost limit = self.index_off as int;
        let n = self.index.len();
        let mut out: Vec<Entry> = Vec::new();
        let ghost done: Seq<Seq<EntryView>> = Seq::empty();
        let mut i: usize = 0;
        proof {
            assert(idx.skip(0) =~= idx);
            assert(crate::codec::entries_view(out@) =~= Seq::<EntryView>::empty());
            assert forall|rest: Seq<Seq<EntryView>>| concat_blocks(done + rest) =~= concat_blocks(
                rest,
            ) by {
                assert(done + rest =~= rest);
            }
        }
        while i < n
            invariant
                0 <= i <= n == self.index@.len(),
                self.wf(),
                idx == self.index_view(),
                limit == self.index_off as int,
                done.len() == i,
                crate::codec::entries_view(out@) == concat_blocks(done),
                parse_blocks(self.data_bytes(), idx, limit) == match parse_blocks(
                    self.data_bytes(),
                    idx.skip(i as int),
                    limit,
                ) {
                    None => None::<Seq<Seq<EntryView>>>,
                    Some(rest) => Some(done + rest),
                },
            decreases n - i,
        {
            let ghost suffix = idx.skip(i as int);
            proof {
                assert(suffix.len() > 0);
                assert(suffix.first() == idx[i as int]);
                assert(suffix.drop_first() =~= idx.skip(i as int + 1));
            }
            match self.read_block(i) {
                Ok(v) => {
                    let ghost bv = crate::codec::entries_view(v@);
                    let mut v2 = v;
                    let ghost out_old = out@;
                    append_entries(&mut out, &mut v2);
                    proof {
                        lemma_concat_blocks_push(done, bv);
                        assert(crate::codec::entries_view(out@) =~= crate::codec::entries_view(
                            out_old,
                        ) + bv);
                        assert forall|rest2: Seq<Seq<EntryView>>|
                            done.push(bv) + rest2 =~= done + (seq![bv] + rest2) by {}
                        done = done.push(bv);
                    }
                    i = i + 1;
                },
                Err(e) => {
                    return Err(Error::Corrupted("table block is malformed".to_owned()));
                },
            }
        }
        proof {
            assert(idx.skip(n as int) =~= Seq::<EntryView>::empty());
            assert(parse_blocks(self.data_bytes(), idx.skip(n as int), limit) == Some(
                Seq::<Seq<EntryView>>::empty(),
            ));
            assert(done + Seq::<Seq<EntryView>>::empty() =~= done);
        }
        Ok(out)
    }
}

impl TableReader {
    /// Packages the ordering facts of a well-formed table in terms of
    /// this reader's index and contents.
    proof fn structure_facts(&self)
        requires
            self.wf(),
            self.good(),
        ensures
            ({
                let parts = parse_table_parts(self.data_bytes())->Some_0;
                let idx = parts.0;
                let blocks = parts.1;
                &&& idx == self.index_view()
                &&& self.contents() == concat_blocks(blocks)
                &&& blocks.len() == idx.len()
                &&& strictly_sorted(self.contents())
                &&& forall|i: int| 0 <= i < blocks.len() ==> (#[trigger] blocks[i]).len() > 0
                &&& forall|i: int|
                    0 <= i < blocks.len() ==> (#[trigger] idx[i]).key == blocks[i].last().key
                &&& forall|i: int, j: int|
                    0 <= i < blocks.len() && 0 <= j < blocks[i].len() ==> crate::keys::key_le(
                        (#[trigger] blocks[i][j]).key,
                        idx[i].key,
                    )
                &&& forall|i: int, i2: int|
                    0 <= i < i2 < idx.len() ==> key_lt(
                        (#[trigger] idx[i]).key,
                        (#[trigger] idx[i2]).key,
                    )
                &&& forall|i: int, j: int, j2: int|
                    0 <= i < blocks.len() && 0 <= j < j2 < blocks[i].len() ==> key_lt(
                        (#[trigger] blocks[i][j]).key,
                        (#[trigger] blocks[i][j2]).key,
                    )
            }),
    {
        let parts = parse_table_parts(self.data_bytes())->Some_0;
        lemma_table_structure(parts.0, parts.1);
    }

    /// Point lookup: among the entries with the requested user key and a
    /// timestamp at most `ts`, returns the one with the largest
    /// timestamp, or nothing if no such entry exists. Binary-searches
    /// the index for the one block that can hold the entry and scans it.
    #[verifier::rlimit(100)]
    #[verifier::loop_isolation(false)]
    pub fn get(&self, user_key: &Vec<u8>, ts: Timestamp) -> (r: Result<Option<Entry>, Error>)
        requires
            self.wf(),
        ensures
            self.good() ==> match r {
                Ok(opt) => match opt {
                    Some(e) => {
                        &&& (exists|i: int|
                            0 <= i < self.contents().len() && self.contents()[i] == e@)
                        &&& crate::keys::entry_matches(e@, user_key@, ts)
                        &&& forall|j: int|
                            0 <= j < self.contents().len() && crate::keys::entry_matches(
                                #[trigger] self.contents()[j],
                                user_key@,
                                ts,
                            ) ==> self.contents()[j].key.timestamp <= e@.key.timestamp
                    },
                    None => forall|j: int|
                        0 <= j < self.contents().len() ==> !crate::keys::entry_matches(
                            #[trigger] self.contents()[j],
                            user_key@,
                            ts,
                        ),
                },
                Err(_) => false,
            },
            r matches Err(e) ==> e is Corrupted && !self.good(),
    {
        let ghost tgt = crate::keys::lookup_target(user_key@, ts);
        let ghost idx = self.index_view();
        let ghost s = self.contents();
        let target = Key {
            user_key: clone_bytes(user_key),
            timestamp: ts,
            value_type: crate::keys::ValueType::Put,
        };
        proof {
            if self.good() {
                self.structure_facts();
            }
        }
        let n = self.index.len();
        let mut lo: usize = 0;
        let mut hi: usize = n;
        while lo < hi
            invariant
                0 <= lo <= hi <= n == self.index@.len(),
                self.wf(),
                idx == self.index_view(),
                target@ == tgt,
                self.good() ==> forall|j: int| 0 <= j < lo ==> key_lt((#[trigger] idx[j]).key, tgt),
                self.good() ==> forall|j: int|
                    hi <= j < n ==> crate::keys::key_le(tgt, (#[trigger] idx[j]).key),
            decreases hi - lo,
        {
            let mid = lo + (hi - lo) / 2;
            proof {
                assert(idx[mid as int] == self.index@[mid as int]@);
                if self.good() {
                    self.structure_facts();
                }
            }
            match compare_keys(&self.index[mid].key, &target) {
                KeyOrder::Less => {
                    proof {
                        if self.good() {
                            assert forall|j: int| 0 <= j < mid + 1 implies key_lt(
                                (#[trigger] idx[j]).key,
                                tgt,
                            ) by {
                                if j < mid {
                                    crate::keys::lemma_key_lt_trans(
                                        idx[j].key,
                                        idx[mid as int].key,
                                        tgt,
                                    );
                                }
                            }
                        }
                    }
                    lo = mid + 1;
                },
                _ => {
                    proof {
                        if self.good() {
                            assert forall|j: int|
                                mid <= j < n implies crate::keys::key_le(
                                tgt,
                                (#[trigger] idx[j]).key,
                            ) by {
                                if j > mid {
                                    crate::keys::lemma_key_le_lt_trans(
                                        tgt,
                                        idx[mid as int].key,
                                        idx[j].key,
                                    );
                                }
                            }
                        }
                    }
                    hi = mid;
                },
            }
        }
        if lo == n {
            proof {
                if self.good() {
                    self.structure_facts();
                    let blocks = parse_table_parts(self.data_bytes())->Some_0.1;
                    assert forall|j: int|
                        0 <= j < s.len() implies !crate::keys::entry_matches(
                        #[trigger] s[j],
                        user_key@,
                        ts,
                    ) by {
                        lemma_concat_index_inverse(blocks, j);
                        let (bi, bj): (int, int) = choose|bi: int, bj: int|
                            {
                                &&& 0 <= bi < blocks.len()
                                &&& 0 <= bj < blocks[bi].len()
                                &&& blocks_prefix_len(blocks, bi) + bj == j
                                &&& concat_blocks(blocks)[j] == blocks[bi][bj]
                            };
                        crate::keys::lemma_key_le_lt_trans(s[j].key, idx[bi].key, tgt);
                        if crate::keys::entry_matches(s[j], user_key@, ts) {
                            crate::keys::lemma_match_after_target(user_key@, ts, s[j]);
                            crate::keys::lemma_key_trichotomy(tgt, s[j].key);
                        }
                    }
                }
            }
            return Ok(None);
        }
        let bv = match self.read_block(lo) {
            Ok(v) => v,
            Err(e) => {
                proof {
                    if self.good() {
                        self.structure_facts();
                        let blocks = parse_table_parts(self.data_bytes())->Some_0.1;
                        lemma_parse_blocks_facts(
                            self.data_bytes(),
                            idx,
                            parse_footer(self.data_bytes())->Some_0.0,
                        );
                        assert(false);
                    }
                }
                return Err(e);
            },
        };
        let ghost bvv = crate::codec::entries_view(bv@);
        let ghost blocks = parse_table_parts(self.data_bytes())->Some_0.1;
        proof {
            if self.good() {
                self.structure_facts();
                lemma_parse_blocks_facts(
                    self.data_bytes(),
                    idx,
                    parse_footer(self.data_bytes())->Some_0.0,
                );
                assert(bvv == blocks[lo as int]);
            }
        }
        let m = bv.len();
        let mut p: usize = 0;
        while p < m
            invariant
                0 <= p <= m == bv@.len(),
                bvv == crate::codec::entries_view(bv@),
                target@ == tgt,
                self.good() ==> forall|q: int| 0 <= q < p ==> key_lt((#[trigger] bvv[q]).key, tgt),
            decreases m - p,
        {
            proof {
                assert(bvv[p as int] == bv@[p as int]@);
            }
            match compare_keys(&target, &bv[p].key) {
                KeyOrder::Greater => {
                    p = p + 1;
                },
                _ => {
                    // The first entry at or after the target, in the one
                    // block that can contain it.
                    let ghost gk = blocks_prefix_len(blocks, lo as int) + p;
                    proof {
                        if self.good() {
                            self.structure_facts();
                            lemma_concat_index(blocks, lo as int, p as int);
                            assert(s[gk] == bvv[p as int]);
                            assert(crate::keys::key_le(tgt, s[gk].key));
                            assert forall|k: int| 0 <= k < gk implies key_lt(
                                (#[trigger] s[k]).key,
                                tgt,
                            ) by {
                                lemma_concat_index_inverse(blocks, k);
                                let (bi, bj): (int, int) = choose|bi: int, bj: int|
                                    {
                                        &&& 0 <= bi < blocks.len()
                                        &&& 0 <= bj < blocks[bi].len()
                                        &&& blocks_prefix_len(blocks, bi) + bj == k
                                        &&& concat_blocks(blocks)[k] == blocks[bi][bj]
                                    };
                                if bi > lo as int {
                                    lemma_prefix_mono(blocks, lo as int, bi, p as int);
                                    assert(false);
                                } else if bi == lo as int {
                                    assert(key_lt(bvv[bj].key, tgt));
                                } else {
                                    crate::keys::lemma_key_le_lt_trans(
                                        s[k].key,
                                        idx[bi].key,
                                        tgt,
                                    );
                                }
                            }
                        }
                    }
                    let same = match crate::keys::compare_bytes(&bv[p].key.user_key, user_key) {
                        KeyOrder::Equal => true,
                        _ => false,
                    };
                    if same {
                        let e = clone_entry(&bv[p]);
                        proof {
                            if self.good() {
                                assert(e@ == s[gk]);
                                crate::keys::lemma_le_same_user_key(tgt, e@.key);
                                assert(crate::keys::entry_matches(e@, user_key@, ts));
                                assert forall|j: int|
                                    0 <= j < s.len() && crate::keys::entry_matches(
                                        #[trigger] s[j],
                                        user_key@,
                                        ts,
                                    ) implies s[j].key.timestamp <= e@.key.timestamp by {
                                    crate::keys::lemma_match_after_target(user_key@, ts, s[j]);
                                    if j < gk {
                                        crate::keys::lemma_key_trichotomy(tgt, s[j].key);
                                    } else if j > gk {
                                        assert(key_lt(s[gk].key, s[j].key));
                                        crate::keys::lemma_le_same_user_key(e@.key, s[j].key);
                                    }
                                }
                            }
                        }
                        return Ok(Some(e));
                    } else {
                        proof {
                            if self.good() {
                                assert forall|j: int|
                                    0 <= j < s.len() implies !crate::keys::entry_matches(
                                    #[trigger] s[j],
                                    user_key@,
                                    ts,
                                ) by {
                                    if crate::keys::entry_matches(s[j], user_key@, ts) {
                                        crate::keys::lemma_match_after_target(user_key@, ts, s[j]);
                                        if j < gk {
                                            crate::keys::lemma_key_trichotomy(tgt, s[j].key);
                                        } else {
                                            if j > gk {
                                                assert(key_lt(s[gk].key, s[j].key));
                                            }
                                            crate::keys::lemma_user_key_sandwich(
                                                tgt,
                                                s[gk].key,
                                                s[j].key,
                                            );
                                            crate::keys::lemma_bytes_trichotomy(
                                                s[gk].key.user_key,
                                                user_key@,
                                            );
                                        }
                                    }
                                }
                            }
                        }
                        return Ok(None);
                    }
                },
            }
        }
        proof {
            if self.good() {
                self.structure_facts();
                assert(bvv.len() > 0);
                assert(idx[lo as int].key == bvv[bvv.len() - 1].key);
                assert(crate::keys::key_le(tgt, idx[lo as int].key));
                assert(key_lt(bvv[bvv.len() - 1].key, tgt));
                crate::keys::lemma_key_le_lt_trans(tgt, idx[lo as int].key, tgt);
                crate::keys::lemma_key_trichotomy(tgt, tgt);
            }
        }
        Ok(None)
    }
}

/// Cloning an entry preserves its model.
pub fn clone_entry(e: &Entry) -> (r: Entry)
    ensures
        r@ == e@,
{
    Entry {
        key: clone_key(&e.key),
        value: match &e.value {
            Some(v) => Some(clone_bytes(v)),
            None => None,
        },
    }
}

/// A lazy, restartable cursor over a table's entries in key order.
pub struct TableIter {
    entries: Vec<Entry>,
    pos: usize,
}

impl TableIter {
    /// The entries the cursor walks.
    pub closed spec fn entries_view(&self) -> Seq<EntryView> {
        crate::codec::entries_view(self.entries@)
    }

    /// How many entries have been handed out.
    pub closed spec fn position(&self) -> int {
        self.pos as int
    }

    pub closed spec fn wf(&self) -> bool {
        self.pos <= self.entries@.len()
    }

    /// The next entry in key order, or nothing once exhausted.
    pub fn next(&mut self) -> (r: Option<Entry>)
        requires
            old(self).wf(),
        ensures
            final(self).wf(),
            final(self).entries_view() == old(self).entries_view(),
            old(self).position() < old(self).entries_view().len() ==> {
                &&& r matches Some(e) && e@ == old(self).entries_view()[old(self).position()]
                &&& final(self).position() == old(self).position() + 1
            },
            old(self).position() >= old(self).entries_view().len() ==> r is None
                && final(self).position() == old(self).position(),
    {
        if self.pos < self.entries.len() {
            let e = clone_entry(&self.entries[self.pos]);
            self.pos = self.pos + 1;
            proof {
                assert(old(self).entries_view()[old(self).position()] == self.entries@[old(
                    self,
                ).position()]@);
            }
            Some(e)
        } else {
            None
        }
    }

    /// Restarts the cursor at the first entry.
    pub fn restart(&mut self)
        ensures
            final(self).wf(),
            final(self).entries_view() == old(self).entries_view(),
            final(self).position() == 0,
    {
        self.pos = 0;
    }
}

impl TableReader {
    /// Begins ordered iteration over the whole table. Fails with
    /// `Corrupted` exactly when some block of the file is malformed.
    pub fn iter(&self) -> (r: Result<TableIter, Error>)
        requires
            self.wf(),
        ensures
            match r {
                Ok(it) => {
                    &&& parse_table(self.data_bytes()) == Some(it.entries_view())
                    &&& it.entries_view() == self.contents()
                    &&& it.wf()
                    &&& it.position() == 0
                },
                Err(e) => parse_table(self.data_bytes()) == None::<Seq<EntryView>>
                    && e is Corrupted,
            },
    {
        let entries = self.read_all()?;
        Ok(TableIter { entries, pos: 0 })
    }
}

/// Re-reading a finished, unmodified table is deterministic: two readers
/// over the same bytes expose the same contents, however many times the
/// file is opened and read.
pub proof fn lemma_reopen_identical(a: TableReader, b: TableReader)
    requires
        a.data_bytes() == b.data_bytes(),
    ensures
        a.contents() == b.contents(),
        a.good() == b.good(),
{
}

/// Moves all entries of the second vector to the end of the first.
fn append_entries(out: &mut Vec<Entry>, v: &mut Vec<Entry>)
    ensures
        crate::codec::entries_view(final(out)@) == crate::codec::entries_view(old(out)@)
            + crate::codec::entries_view(old(v)@),
{
    out.append(v);
    proof {
        assert(crate::codec::entries_view(out@) =~= crate::codec::entries_view(old(out)@)
            + crate::codec::entries_view(old(v)@));
    }
}

/// A concatenation led by a nonempty block is nonempty.
proof fn lemma_concat_blocks_first_nonempty(bs: Seq<Seq<EntryView>>)
    requires
        bs.len() > 0,
        bs[0].len() > 0,
    ensures
        concat_blocks(bs).len() > 0,
{
    assert(concat_blocks(bs) == bs.first() + concat_blocks(bs.drop_first()));
}

/// An index whose entries carry the handles of encoded, nonempty,
/// well-formed blocks parses back to exactly those blocks.
proof fn lemma_parse_blocks_from_handles(
    data: Seq<u8>,
    idx: Seq<EntryView>,
    blocks: Seq<Seq<EntryView>>,
    handles: Seq<(u64, u64)>,
    limit: int,
)
    requires
        idx.len() == blocks.len(),
        handles.len() == blocks.len(),
        limit <= data.len(),
        forall|i: int|
            0 <= i < idx.len() ==> (#[trigger] idx[i]).value == Some(
                handle_bytes(handles[i].0, handles[i].1),
            ),
        forall|i: int| 0 <= i < idx.len() ==> (#[trigger] handles[i]).0 + handles[i].1 <= limit,
        forall|i: int|
            0 <= i < idx.len() ==> data.subrange(
                (#[trigger] handles[i]).0 as int,
                handles[i].0 + handles[i].1,
            ) == entries_bytes(blocks[i]),
        forall|i: int| 0 <= i < idx.len() ==> (#[trigger] blocks[i]).len() > 0,
        forall|i: int, j: int|
            0 <= i < idx.len() && 0 <= j < blocks[i].len() ==> entry_wf(#[trigger] blocks[i][j]),
    ensures
        parse_blocks(data, idx, limit) == Some(blocks),
    decreases idx.len(),
{
    if idx.len() == 0 {
        assert(blocks =~= Seq::<Seq<EntryView>>::empty());
    } else {
        let h0 = handles[0];
        let hb = handle_bytes(h0.0, h0.1);
        assert(idx.first().value == Some(hb));
        assert(hb.len() == 16);
        assert(hb.subrange(0, 8) =~= u64_bytes(h0.0));
        assert(hb.subrange(8, 16) =~= u64_bytes(h0.1));
        crate::codec::lemma_u64_round_trip(h0.0);
        crate::codec::lemma_u64_round_trip(h0.1);
        assert(handle_of(idx.first().value) == Some(
            BlockHandle { offset: h0.0, length: h0.1 },
        ));
        assert forall|j: int| 0 <= j < blocks[0].len() implies entry_wf(#[trigger] blocks[0][j]) by {
        }
        crate::codec::lemma_parse_entries_round_trip(blocks[0]);
        assert(parse_entries(data.subrange(h0.0 as int, h0.0 + h0.1)) == Some(blocks[0]));
        let idx2 = idx.drop_first();
        let blocks2 = blocks.drop_first();
        let handles2 = handles.drop_first();
        assert forall|i: int|
            0 <= i < idx2.len() implies (#[trigger] idx2[i]).value == Some(
            handle_bytes(handles2[i].0, handles2[i].1),
        ) by {
            assert(idx2[i] == idx[i + 1]);
            assert(handles2[i] == handles[i + 1]);
        }
        assert forall|i: int|
            0 <= i < idx2.len() implies (#[trigger] handles2[i]).0 + handles2[i].1 <= limit by {
            assert(handles2[i] == handles[i + 1]);
        }
        assert forall|i: int|
            0 <= i < idx2.len() implies data.subrange(
            (#[trigger] handles2[i]).0 as int,
            handles2[i].0 + handles2[i].1,
        ) == entries_bytes(blocks2[i]) by {
            assert(handles2[i] == handles[i + 1]);
            assert(blocks2[i] == blocks[i + 1]);
        }
        assert forall|i: int| 0 <= i < idx2.len() implies (#[trigger] blocks2[i]).len() > 0 by {
            assert(blocks2[i] == blocks[i + 1]);
        }
        assert forall|i: int, j: int|
            0 <= i < idx2.len() && 0 <= j < blocks2[i].len() implies entry_wf(
            #[trigger] blocks2[i][j],
        ) by {
            assert(blocks2[i] == blocks[i + 1]);
        }
        lemma_parse_blocks_from_handles(data, idx2, blocks2, handles2, limit);
        assert(seq![blocks[0]] + blocks2 =~= blocks);
    }
}

/// Whatever a parsed index locates is a nonempty block within the data
/// region, one per index entry.
pub proof fn lemma_parse_blocks_facts(data: Seq<u8>, idx: Seq<EntryView>, limit: int)
    ensures
        parse_blocks(data, idx, limit) matches Some(bs) ==> {
            &&& bs.len() == idx.len()
            &&& forall|i: int|
                0 <= i < idx.len() ==> ((#[trigger] handle_of(idx[i].value)) matches Some(h)
                    && h.offset + h.length <= limit && parse_entries(
                    data.subrange(h.offset as int, h.offset + h.length),
                ) == Some(bs[i]) && bs[i].len() > 0)
        },
    decreases idx.len(),
{
    if idx.len() > 0 {
        lemma_parse_blocks_facts(data, idx.drop_first(), limit);
        match parse_blocks(data, idx, limit) {
            Some(bs) => {
                let rest = parse_blocks(data, idx.drop_first(), limit);
                assert forall|i: int|
                    0 <= i < idx.len() implies ((#[trigger] handle_of(idx[i].value)) matches Some(
                        h,
                    ) && h.offset + h.length <= limit && parse_entries(
                        data.subrange(h.offset as int, h.offset + h.length),
                    ) == Some(bs[i]) && bs[i].len() > 0) by {
                    if i > 0 {
                        assert(idx[i] == idx.drop_first()[i - 1]);
                        assert(bs[i] == rest.unwrap()[i - 1]);
                    }
                }
            },
            None => {},
        }
    }
}

/// The length of the first `i` blocks, i.e. the position in the
/// concatenation where block `i` starts.
pub open spec fn blocks_prefix_len(bs: Seq<Seq<EntryView>>, i: int) -> int
    decreases i,
{
    if i <= 0 {
        0
    } else {
        blocks_prefix_len(bs, i - 1) + bs[i - 1].len()
    }
}

proof fn lemma_prefix_drop(bs: Seq<Seq<EntryView>>, i: int)
    requires
        bs.len() > 0,
        1 <= i <= bs.len(),
    ensures
        blocks_prefix_len(bs, i) == bs[0].len() + blocks_prefix_len(bs.drop_first(), i - 1),
    decreases i,
{
    reveal_with_fuel(blocks_prefix_len, 2);
    if i == 1 {
    } else {
        lemma_prefix_drop(bs, i - 1);
        assert(bs.drop_first()[i - 2] == bs[i - 1]);
    }
}

/// Block-local positions map into the concatenation.
proof fn lemma_concat_index(bs: Seq<Seq<EntryView>>, i: int, j: int)
    requires
        0 <= i < bs.len(),
        0 <= j < bs[i].len(),
    ensures
        0 <= blocks_prefix_len(bs, i) + j < concat_blocks(bs).len(),
        concat_blocks(bs)[blocks_prefix_len(bs, i) + j] == bs[i][j],
        blocks_prefix_len(bs, i) >= 0,
    decreases i,
{
    assert(concat_blocks(bs) == bs.first() + concat_blocks(bs.drop_first()));
    if i == 0 {
        lemma_concat_len_lower(bs, j);
    } else {
        lemma_concat_index(bs.drop_first(), i - 1, j);
        lemma_prefix_drop(bs, i);
        assert(bs.drop_first()[i - 1] == bs[i]);
    }
}

/// A helper bound: the concatenation is at least as long as any position
/// inside its first block.
proof fn lemma_concat_len_lower(bs: Seq<Seq<EntryView>>, j: int)
    requires
        bs.len() > 0,
        0 <= j < bs[0].len(),
    ensures
        concat_blocks(bs).len() >= bs[0].len(),
        concat_blocks(bs)[j] == bs[0][j],
{
    assert(concat_blocks(bs) == bs.first() + concat_blocks(bs.drop_first()));
}

/// Every position of the concatenation lies in exactly one block.
proof fn lemma_concat_index_inverse(bs: Seq<Seq<EntryView>>, k: int)
    requires
        0 <= k < concat_blocks(bs).len(),
    ensures
        exists|i: int, j: int|
            {
                &&& 0 <= i < bs.len()
                &&& 0 <= j < bs[i].len()
                &&& blocks_prefix_len(bs, i) + j == k
                &&& concat_blocks(bs)[k] == bs[i][j]
            },
    decreases bs.len(),
{
    assert(bs.len() > 0);
    assert(concat_blocks(bs) == bs.first() + concat_blocks(bs.drop_first()));
    if k < bs[0].len() {
        assert(concat_blocks(bs)[k] == bs[0][k]);
        assert({
            let i = 0;
            let j = k;
            &&& 0 <= i < bs.len()
            &&& 0 <= j < bs[i].len()
            &&& blocks_prefix_len(bs, i) + j == k
            &&& concat_blocks(bs)[k] == bs[i][j]
        });
    } else {
        lemma_concat_index_inverse(bs.drop_first(), k - bs[0].len());
        let (i2, j2): (int, int) = choose|i2: int, j2: int|
            {
                &&& 0 <= i2 < bs.drop_first().len()
                &&& 0 <= j2 < bs.drop_first()[i2].len()
                &&& blocks_prefix_len(bs.drop_first(), i2) + j2 == k - bs[0].len()
                &&& concat_blocks(bs.drop_first())[k - bs[0].len()] == bs.drop_first()[i2][j2]
            };
        lemma_prefix_drop(bs, i2 + 1);
        assert(bs.drop_first()[i2] == bs[i2 + 1]);
        assert({
            let i = i2 + 1;
            let j = j2;
            &&& 0 <= i < bs.len()
            &&& 0 <= j < bs[i].len()
            &&& blocks_prefix_len(bs, i) + j == k
            &&& concat_blocks(bs)[k] == bs[i][j]
        });
    }
}

/// The ordering structure of a well-formed table: within a block keys
/// are strictly sorted and bounded by the block's index key, and blocks
/// follow one another in strict index-key order.
pub proof fn lemma_table_structure(idx: Seq<EntryView>, blocks: Seq<Seq<EntryView>>)
    requires
        idx.len() == blocks.len(),
        forall|i: int| 0 <= i < blocks.len() ==> (#[trigger] blocks[i]).len() > 0,
        forall|i: int| 0 <= i < blocks.len() ==> (#[trigger] idx[i]).key == blocks[i].last().key,
        strictly_sorted(concat_blocks(blocks)),
    ensures
        forall|i: int, j: int|
            0 <= i < blocks.len() && 0 <= j < blocks[i].len() ==> crate::keys::key_le(
                (#[trigger] blocks[i][j]).key,
                idx[i].key,
            ),
        forall|i: int, i2: int|
            0 <= i < i2 < idx.len() ==> key_lt((#[trigger] idx[i]).key, (#[trigger] idx[i2]).key),
        forall|i: int, j: int, i2: int, j2: int|
            0 <= i < i2 < blocks.len() && 0 <= j < blocks[i].len() && 0 <= j2 < blocks[i2].len()
                ==> key_lt((#[trigger] blocks[i][j]).key, (#[trigger] blocks[i2][j2]).key),
        forall|i: int, j: int, j2: int|
            0 <= i < blocks.len() && 0 <= j < j2 < blocks[i].len() ==> key_lt(
                (#[trigger] blocks[i][j]).key,
                (#[trigger] blocks[i][j2]).key,
            ),
{
    let s = concat_blocks(blocks);
    assert forall|i: int, j: int, i2: int, j2: int|
        0 <= i < blocks.len() && 0 <= j < blocks[i].len() && 0 <= i2 < blocks.len() && 0 <= j2
            < blocks[i2].len() && (i < i2 || (i == i2 && j < j2)) implies key_lt(
        blocks[i][j].key,
        blocks[i2][j2].key,
    ) by {
        lemma_concat_index(blocks, i, j);
        lemma_concat_index(blocks, i2, j2);
        if i < i2 {
            lemma_prefix_mono(blocks, i, i2, j);
        }
        assert(key_lt(s[blocks_prefix_len(blocks, i) + j].key, s[blocks_prefix_len(blocks, i2)
            + j2].key));
    }
    assert forall|i: int, j: int|
        0 <= i < blocks.len() && 0 <= j < blocks[i].len() implies crate::keys::key_le(
        (#[trigger] blocks[i][j]).key,
        idx[i].key,
    ) by {
        if j < blocks[i].len() - 1 {
            assert(key_lt(blocks[i][j].key, blocks[i][blocks[i].len() - 1].key));
        }
    }
    assert forall|i: int, i2: int|
        0 <= i < i2 < idx.len() implies key_lt(
        (#[trigger] idx[i]).key,
        (#[trigger] idx[i2]).key,
    ) by {
        assert(key_lt(
            blocks[i][blocks[i].len() - 1].key,
            blocks[i2][blocks[i2].len() - 1].key,
        ));
    }
}

/// Starting positions of blocks grow with the block number, by at least
/// the size of each block passed over.
proof fn lemma_prefix_mono(bs: Seq<Seq<EntryView>>, i: int, i2: int, j: int)
    requires
        0 <= i < i2 <= bs.len(),
        0 <= j < bs[i].len(),
        forall|m: int| 0 <= m < bs.len() ==> (#[trigger] bs[m]).len() > 0,
    ensures
        blocks_prefix_len(bs, i) + j < blocks_prefix_len(bs, i2),
    decreases i2 - i,
{
    if i2 == i + 1 {
    } else {
        lemma_prefix_mono(bs, i, i2 - 1, j);
        assert(bs[i2 - 1].len() > 0);
    }
}

/// Cloning a key preserves its model.
pub fn clone_key(k: &Key) -> (r: Key)
    ensures
        r@ == k@,
{
    Key {
        user_key: clone_bytes(&k.user_key),
        timestamp: k.timestamp,
        value_type: k.value_type,
    }
}

/// Appending an entry to the pending block appends it to the whole
/// entry sequence.
proof fn lemma_concat_push_entry(bs: Seq<Seq<EntryView>>, pending: Seq<EntryView>, e: EntryView)
    ensures
        concat_blocks(bs) + pending.push(e) == (concat_blocks(bs) + pending).push(e),
{
    assert(concat_blocks(bs) + pending.push(e) =~= (concat_blocks(bs) + pending).push(e));
}

} // verus!
