//! The bucket iterator: a k-way merge of the tables live in one version,
//! yielding one stream ordered by the key ordering across all of them.
//! The merge guarantees ordering, not deduplication: nothing is
//! discarded, and on equal keys the most recently flushed table's entry
//! comes first.

use vstd::prelude::*;

use crate::codec::entries_view;
use crate::error::Error;
use crate::keys::{
    compare_keys, key_le, key_lt, lemma_key_le_trans, lemma_key_trichotomy, sorted_le, Entry,
    EntryView, KeyOrder,
};
use crate::table::clone_entry;
use crate::versions::{tables_good, tables_wf, Version};
use vstd::multiset::Multiset;
use vstd::pervasive::VecAdditionalExecFns;

verus! {

/// The combined contents of a stack of entry lists, as a multiset.
pub open spec fn lists_multiset(vs: Seq<Seq<EntryView>>) -> Multiset<EntryView>
    decreases vs.len(),
{
    if vs.len() == 0 {
        Multiset::empty()
    } else {
        vs.first().to_multiset().add(lists_multiset(vs.drop_first()))
    }
}

/// The multiset of what is left of every input once the first `ps[i]`
/// entries of input `i` are consumed.
pub open spec fn remaining_multiset(vs: Seq<Seq<EntryView>>, ps: Seq<usize>) -> Multiset<EntryView>
    decreases vs.len(),
{
    if vs.len() == 0 {
        Multiset::empty()
    } else {
        vs.first().skip(ps.first() as int).to_multiset().add(
            remaining_multiset(vs.drop_first(), ps.drop_first()),
        )
    }
}

/// Merges sorted entry lists into one sorted list holding exactly the
/// same entries (as a multiset). On ties the earliest input wins, so
/// with inputs ordered most recent first the newest entry surfaces
/// first.
#[verifier::loop_isolation(false)]
#[verifier::rlimit(100)]
pub fn merge_entry_lists(inputs: &Vec<Vec<Entry>>) -> (r: Vec<Entry>)
    requires
        forall|i: int| 0 <= i < inputs@.len() ==> sorted_le(entries_view((#[trigger] inputs@[i])@)),
    ensures
        sorted_le(entries_view(r@)),
        entries_view(r@).to_multiset() == lists_multiset(views_of(inputs@)),
{
    let k = inputs.len();
    let ghost vs = views_of(inputs@);
    let mut positions: Vec<usize> = Vec::new();
    let mut i: usize = 0;
    while i < k
        invariant
            0 <= i <= k,
            positions@.len() == i,
            forall|j: int| 0 <= j < i ==> positions@[j] == 0,
        decreases k - i,
    {
        positions.push(0);
        i = i + 1;
    }
    let mut out: Vec<Entry> = Vec::new();
    proof {
        lemma_remaining_all_zero(vs, positions@);
        assert(entries_view(out@) =~= Seq::<EntryView>::empty());
        lemma_to_multiset_empty(entries_view(out@));
    }
    loop
        invariant
            positions@.len() == k == inputs@.len(),
            vs == views_of(inputs@),
            forall|j: int| 0 <= j < k ==> positions@[j] <= vs[j].len(),
            sorted_le(entries_view(out@)),
            entries_view(out@).to_multiset().add(remaining_multiset(vs, positions@))
                =~= lists_multiset(vs),
            forall|j: int, q: int|
                0 <= j < k && positions@[j] <= q < vs[j].len() && entries_view(out@).len() > 0
                    ==> key_le(
                    entries_view(out@).last().key,
                    #[trigger] vs[j][q].key,
                ),
        decreases total_remaining(vs, positions@),
    {
        // Find the first input whose head is minimal.
        let mut best: usize = k;
        let mut j: usize = 0;
        while j < k
            invariant
                0 <= j <= k,
                best <= k,
                best < k ==> positions@[best as int] < vs[best as int].len(),
                best == k ==> forall|m: int| 0 <= m < j ==> positions@[m] == vs[m].len(),
                best < k ==> forall|m: int|
                    0 <= m < j && positions@[m] < vs[m].len() ==> key_le(
                        vs[best as int][positions@[best as int] as int].key,
                        #[trigger] vs[m][positions@[m] as int].key,
                    ),
            decreases k - j,
        {
            if positions[j] < inputs[j].len() {
                proof {
                    assert(vs[j as int][positions@[j as int] as int] == inputs@[j as int]@[positions@[j as int] as int]@);
                }
                if best == k {
                    best = j;
                } else {
                    let c = compare_keys(
                        &inputs[j][positions[j]].key,
                        &inputs[best][positions[best]].key,
                    );
                    proof {
                        assert(vs[best as int][positions@[best as int] as int]
                            == inputs@[best as int]@[positions@[best as int] as int]@);
                        lemma_key_trichotomy(
                            vs[j as int][positions@[j as int] as int].key,
                            vs[best as int][positions@[best as int] as int].key,
                        );
                    }
                    if matches!(c, KeyOrder::Less) {
                        proof {
                            let old_best = best as int;
                            assert forall|m: int|
                                0 <= m < j + 1 && positions@[m] < vs[m].len() implies key_le(
                                vs[j as int][positions@[j as int] as int].key,
                                #[trigger] vs[m][positions@[m] as int].key,
                            ) by {
                                if m < j {
                                    lemma_key_le_trans(
                                        vs[j as int][positions@[j as int] as int].key,
                                        vs[old_best][positions@[old_best] as int].key,
                                        vs[m][positions@[m] as int].key,
                                    );
                                }
                            }
                        }
                        best = j;
                    }
                }
            }
            j = j + 1;
        }
        if best == k {
            proof {
                lemma_remaining_exhausted(vs, positions@);
            }
            break ;
        }
        let b = best;
        let p = positions[b];
        let blen = inputs[b].len();
        proof {
            assert(p < blen);
        }
        let np = p + 1;
        let e = clone_entry(&inputs[b][p]);
        let ghost ev = vs[b as int][p as int];
        proof {
            assert(e@ == ev);
        }
        let ghost out_old = out@;
        let ghost ps_old = positions@;
        out.push(e);
        positions.set(b, np);
        proof {
            broadcast use vstd::seq_lib::group_to_multiset_ensures;

            assert(entries_view(out@) =~= entries_view(out_old).push(ev));
            lemma_remaining_advance(vs, ps_old, b as int, np);
            assert(positions@ =~= ps_old.update(b as int, np));
            assert(entries_view(out@).to_multiset().add(remaining_multiset(vs, positions@))
                =~= lists_multiset(vs)) by {
                assert(entries_view(out@).to_multiset() =~= entries_view(out_old)
                    .to_multiset().insert(ev));
                assert(remaining_multiset(vs, ps_old).count(ev) > 0);
                assert(remaining_multiset(vs, ps_old.update(b as int, np))
                    =~= remaining_multiset(vs, ps_old).remove(ev));
            }
            assert forall|jj: int, q: int|
                0 <= jj < k && positions@[jj] <= q < vs[jj].len() && entries_view(out@).len() > 0
                    implies key_le(
                entries_view(out@).last().key,
                #[trigger] vs[jj][q].key,
            ) by {
                assert(entries_view(out@).last() == ev);
                assert(ps_old[jj] <= q);
                assert(key_le(ev.key, vs[jj][ps_old[jj] as int].key));
                assert(key_le(vs[jj][ps_old[jj] as int].key, vs[jj][q].key));
                lemma_key_le_trans(ev.key, vs[jj][ps_old[jj] as int].key, vs[jj][q].key);
            }
            assert forall|a: int, b2: int|
                0 <= a < b2 < entries_view(out@).len() implies key_le(
                (#[trigger] entries_view(out@)[a]).key,
                (#[trigger] entries_view(out@)[b2]).key,
            ) by {
                let so = entries_view(out_old);
                if b2 < so.len() {
                    assert(entries_view(out@)[a] == so[a]);
                    assert(entries_view(out@)[b2] == so[b2]);
                } else {
                    assert(entries_view(out@)[b2] == ev);
                    assert(entries_view(out@)[a] == so[a]);
                    assert(key_le(so.last().key, ev.key));
                    if a < so.len() - 1 {
                        lemma_key_le_trans(so[a].key, so.last().key, ev.key);
                    }
                }
            }
            assert(sorted_le(entries_view(out@)));
            lemma_total_remaining_decreases(vs, ps_old, b as int, np);
        }
    }
    out
}

/// The views of a stack of entry vectors.
pub open spec fn views_of(inputs: Seq<Vec<Entry>>) -> Seq<Seq<EntryView>> {
    Seq::new(inputs.len(), |i: int| entries_view(inputs[i]@))
}

/// How many entries are left to merge.
pub open spec fn total_remaining(vs: Seq<Seq<EntryView>>, ps: Seq<usize>) -> int
    decreases vs.len(),
{
    if vs.len() == 0 {
        0
    } else {
        (vs.first().len() - ps.first()) + total_remaining(vs.drop_first(), ps.drop_first())
    }
}

/// An empty sequence of entries carries the empty multiset.
proof fn lemma_to_multiset_empty(s: Seq<EntryView>)
    requires
        s.len() == 0,
    ensures
        s.to_multiset() =~= Multiset::<EntryView>::empty(),
{
    broadcast use vstd::seq_lib::group_to_multiset_ensures;

    assert forall|x: EntryView| s.to_multiset().count(x) == 0 by {
        assert(!s.contains(x));
    }
}

/// With nothing consumed, everything remains.
proof fn lemma_remaining_all_zero(vs: Seq<Seq<EntryView>>, ps: Seq<usize>)
    requires
        ps.len() == vs.len(),
        forall|j: int| 0 <= j < ps.len() ==> ps[j] == 0,
    ensures
        remaining_multiset(vs, ps) == lists_multiset(vs),
    decreases vs.len(),
{
    if vs.len() > 0 {
        assert(vs.first().skip(0) =~= vs.first());
        assert forall|j: int| 0 <= j < ps.drop_first().len() implies ps.drop_first()[j] == 0 by {
            assert(ps.drop_first()[j] == ps[j + 1]);
        }
        lemma_remaining_all_zero(vs.drop_first(), ps.drop_first());
    }
}

/// With every input consumed, nothing remains.
proof fn lemma_remaining_exhausted(vs: Seq<Seq<EntryView>>, ps: Seq<usize>)
    requires
        ps.len() == vs.len(),
        forall|j: int| 0 <= j < ps.len() ==> ps[j] == vs[j].len(),
    ensures
        remaining_multiset(vs, ps) =~= Multiset::<EntryView>::empty(),
    decreases vs.len(),
{
    broadcast use vstd::seq_lib::group_to_multiset_ensures;

    if vs.len() > 0 {
        assert(vs.first().skip(ps.first() as int).len() == 0);
        lemma_to_multiset_empty(vs.first().skip(ps.first() as int));
        assert forall|j: int|
            0 <= j < ps.drop_first().len() implies ps.drop_first()[j] == vs.drop_first()[j].len() by {
            assert(ps.drop_first()[j] == ps[j + 1]);
            assert(vs.drop_first()[j] == vs[j + 1]);
        }
        lemma_remaining_exhausted(vs.drop_first(), ps.drop_first());
        assert(remaining_multiset(vs, ps) =~= Multiset::<EntryView>::empty());
    }
}

/// Consuming the head of input `b` removes exactly that entry from the
/// remaining multiset.
proof fn lemma_remaining_advance(vs: Seq<Seq<EntryView>>, ps: Seq<usize>, b: int, np: usize)
    requires
        ps.len() == vs.len(),
        0 <= b < vs.len(),
        ps[b] < vs[b].len(),
        np == ps[b] + 1,
        forall|j: int| 0 <= j < vs.len() ==> ps[j] <= vs[j].len(),
    ensures
        remaining_multiset(vs, ps).count(vs[b][ps[b] as int]) > 0,
        remaining_multiset(vs, ps.update(b, np)) =~= remaining_multiset(vs, ps).remove(
            vs[b][ps[b] as int],
        ),
    decreases vs.len(),
{
    broadcast use vstd::seq_lib::group_to_multiset_ensures;

    let e = vs[b][ps[b] as int];
    let ps2 = ps.update(b, np);
    if b == 0 {
        let s = vs.first().skip(ps.first() as int);
        assert(s[0] == e);
        assert(s.contains(e));
        assert(s.remove(0) =~= vs.first().skip(np as int));
        assert(s.remove(0).to_multiset() =~= s.to_multiset().remove(e));
        assert(ps2.drop_first() =~= ps.drop_first());
        assert(ps2.first() == np);
        assert(remaining_multiset(vs, ps2) =~= remaining_multiset(vs, ps).remove(e));
    } else {
        assert(ps2.first() == ps.first());
        assert(ps2.drop_first() =~= ps.drop_first().update(b - 1, np));
        assert(vs.drop_first()[b - 1] == vs[b]);
        assert(ps.drop_first()[b - 1] == ps[b]);
        lemma_remaining_advance(vs.drop_first(), ps.drop_first(), b - 1, np);
        assert(remaining_multiset(vs, ps2) =~= remaining_multiset(vs, ps).remove(e));
    }
}

/// Consuming one entry shrinks the count of what is left.
proof fn lemma_total_remaining_decreases(vs: Seq<Seq<EntryView>>, ps: Seq<usize>, b: int, np: usize)
    requires
        ps.len() == vs.len(),
        0 <= b < vs.len(),
        ps[b] < vs[b].len(),
        np == ps[b] + 1,
        forall|j: int| 0 <= j < vs.len() ==> ps[j] <= vs[j].len(),
    ensures
        total_remaining(vs, ps.update(b, np)) == total_remaining(vs, ps) - 1,
        total_remaining(vs, ps) >= 1,
    decreases vs.len(),
{
    let ps2 = ps.update(b, np);
    if b == 0 {
        assert(ps2.drop_first() =~= ps.drop_first());
        assert(ps2.first() == np);
        lemma_total_remaining_nonneg(vs.drop_first(), ps.drop_first());
    } else {
        assert(ps2.first() == ps.first());
        assert(ps2.drop_first() =~= ps.drop_first().update(b - 1, np));
        assert(vs.drop_first()[b - 1] == vs[b]);
        assert(ps.drop_first()[b - 1] == ps[b]);
        lemma_total_remaining_decreases(vs.drop_first(), ps.drop_first(), b - 1, np);
    }
}

proof fn lemma_total_remaining_nonneg(vs: Seq<Seq<EntryView>>, ps: Seq<usize>)
    requires
        ps.len() == vs.len(),
        forall|j: int| 0 <= j < vs.len() ==> ps[j] <= vs[j].len(),
    ensures
        total_remaining(vs, ps) >= 0,
    decreases vs.len(),
{
    if vs.len() > 0 {
        assert forall|j: int|
            0 <= j < vs.drop_first().len() implies ps.drop_first()[j] <= vs.drop_first()[j].len() by {
            assert(ps.drop_first()[j] == ps[j + 1]);
            assert(vs.drop_first()[j] == vs[j + 1]);
        }
        lemma_total_remaining_nonneg(vs.drop_first(), ps.drop_first());
    }
}

/// The merged contents of a version's tables, most recent table first.
pub open spec fn version_lists(tables: Seq<crate::versions::TableFile>) -> Seq<Seq<EntryView>> {
    Seq::new(tables.len(), |i: int| tables[tables.len() - 1 - i].contents())
}

/// Merges the tables of one version into a single globally key-ordered,
/// version-stamped stream. The iterator owns its snapshot: versions
/// installed after it was created never change what it yields.
pub struct BucketIter {
    entries: Vec<Entry>,
    pos: usize,
}

impl BucketIter {
    /// The merged entries the iterator walks, in key order.
    pub closed spec fn entries_seq(&self) -> Seq<EntryView> {
        entries_view(self.entries@)
    }

    pub closed spec fn position(&self) -> int {
        self.pos as int
    }

    pub closed spec fn wf(&self) -> bool {
        self.pos <= self.entries@.len()
    }

    /// Builds the merged stream over the tables of a version, reading
    /// each table once, most recently flushed first. Fails with
    /// `Corrupted` exactly when some live table has a malformed block.
    pub fn new(version: &Version) -> (r: Result<BucketIter, Error>)
        requires
            tables_wf(version.tables@),
        ensures
            match r {
                Ok(it) => {
                    &&& it.wf()
                    &&& it.position() == 0
                    &&& sorted_le(it.entries_seq())
                    &&& tables_good(version.tables@) ==> it.entries_seq().to_multiset()
                        == lists_multiset(version_lists(version.tables@))
                },
                Err(e) => e is Corrupted && !tables_good(version.tables@),
            },
    {
        let n = version.tables.len();
        let mut inputs: Vec<Vec<Entry>> = Vec::new();
        let mut i: usize = 0;
        while i < n
            invariant
                0 <= i <= n == version.tables@.len(),
                tables_wf(version.tables@),
                inputs@.len() == i,
                forall|j: int|
                    0 <= j < i ==> entries_view((#[trigger] inputs@[j])@) == version.tables@[n - 1
                        - j].contents(),
                forall|j: int|
                    0 <= j < i ==> sorted_le(entries_view((#[trigger] inputs@[j])@)),
            decreases n - i,
        {
            let t = &version.tables[n - 1 - i];
            match t.reader.read_all() {
                Ok(v) => {
                    if !check_sorted(&v) {
                        proof {
                            if t.reader.good() {
                                crate::table::lemma_good_parses(t.reader.data_bytes());
                                crate::keys::lemma_strictly_sorted_le(entries_view(v@));
                            }
                            assert(!t.reader.good());
                        }
                        return Err(Error::Corrupted("table entries are out of order".to_owned()));
                    }
                    inputs.push(v);
                },
                Err(e) => {
                    proof {
                        if t.reader.good() {
                            crate::table::lemma_good_parses(t.reader.data_bytes());
                        }
                        assert(!t.reader.good());
                    }
                    return Err(Error::Corrupted("table block is malformed".to_owned()));
                },
            }
            i = i + 1;
        }
        let merged = merge_entry_lists(&inputs);
        proof {
            if tables_good(version.tables@) {
                assert(views_of(inputs@) =~= version_lists(version.tables@));
            }
        }
        Ok(BucketIter { entries: merged, pos: 0 })
    }

    /// The next entry of the merged stream, or nothing once exhausted.
    pub fn next(&mut self) -> (r: Option<Entry>)
        requires
            old(self).wf(),
        ensures
            final(self).wf(),
            final(self).entries_seq() == old(self).entries_seq(),
            old(self).position() < old(self).entries_seq().len() ==> {
                &&& r matches Some(e) && e@ == old(self).entries_seq()[old(self).position()]
                &&& final(self).position() == old(self).position() + 1
            },
            old(self).position() >= old(self).entries_seq().len() ==> r is None
                && final(self).position() == old(self).position(),
    {
        if self.pos < self.entries.len() {
            let e = clone_entry(&self.entries[self.pos]);
            self.pos = self.pos + 1;
            proof {
                assert(old(self).entries_seq()[old(self).position()] == self.entries@[old(
                    self,
                ).position()]@);
            }
            Some(e)
        } else {
            None
        }
    }

    /// All remaining entries, in order.
    pub fn collect_remaining(&mut self) -> (r: Vec<Entry>)
        requires
            old(self).wf(),
        ensures
            final(self).wf(),
            final(self).entries_seq() == old(self).entries_seq(),
            entries_view(r@) == old(self).entries_seq().skip(old(self).position()),
            final(self).position() == final(self).entries_seq().len(),
    {
        let mut out: Vec<Entry> = Vec::new();
        while self.pos < self.entries.len()
            invariant
                self.wf(),
                self.entries@ == old(self).entries@,
                old(self).position() <= self.position() <= self.entries@.len(),
                entries_view(out@) == old(self).entries_seq().subrange(
                    old(self).position(),
                    self.position(),
                ),
            decreases self.entries@.len() - self.pos,
        {
            let ghost prev = out@;
            let ghost pp = self.position();
            let e = clone_entry(&self.entries[self.pos]);
            out.push(e);
            self.pos = self.pos + 1;
            proof {
                assert(entries_view(out@) =~= entries_view(prev).push(e@));
                assert(e@ == old(self).entries_seq()[pp]);
                assert(entries_view(out@) =~= old(self).entries_seq().subrange(
                    old(self).position(),
                    self.position(),
                ));
            }
        }
        proof {
            assert(old(self).entries_seq().subrange(
                old(self).position(),
                self.entries@.len() as int,
            ) =~= old(self).entries_seq().skip(old(self).position()));
        }
        out
    }
}

/// Whether a list of entries is in non-decreasing key order.
pub fn check_sorted(v: &Vec<Entry>) -> (r: bool)
    ensures
        r == sorted_le(entries_view(v@)),
{
    let n = v.len();
    if n == 0 {
        proof {
            assert(sorted_le(entries_view(v@)));
        }
        return true;
    }
    let mut i: usize = 0;
    while i < n - 1
        invariant
            0 <= i <= n - 1,
            n == v@.len() >= 1,
            forall|a: int, b: int|
                0 <= a < b <= i ==> key_le(
                    (#[trigger] entries_view(v@)[a]).key,
                    (#[trigger] entries_view(v@)[b]).key,
                ),
        decreases n - 1 - i,
    {
        proof {
            assert(entries_view(v@)[i as int] == v@[i as int]@);
            assert(entries_view(v@)[i as int + 1] == v@[i as int + 1]@);
        }
        match compare_keys(&v[i].key, &v[i + 1].key) {
            KeyOrder::Greater => {
                proof {
                    lemma_key_trichotomy(v@[i as int]@.key, v@[i as int + 1]@.key);
                    assert(!sorted_le(entries_view(v@)));
                }
                return false;
            },
            _ => {
                proof {
                    lemma_key_trichotomy(v@[i as int]@.key, v@[i as int + 1]@.key);
                    assert forall|a: int, b: int|
                        0 <= a < b <= i + 1 implies key_le(
                        (#[trigger] entries_view(v@)[a]).key,
                        (#[trigger] entries_view(v@)[b]).key,
                    ) by {
                        if b == i + 1 && a < i {
                            lemma_key_le_trans(
                                entries_view(v@)[a].key,
                                entries_view(v@)[i as int].key,
                                entries_view(v@)[b].key,
                            );
                        }
                    }
                }
            },
        }
        i = i + 1;
    }
    proof {
        assert(sorted_le(entries_view(v@)));
    }
    true
}

} // verus!
