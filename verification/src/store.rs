//! The bucket level of the hierarchy: a bucket owns one versions object
//! over which it offers point lookup, ordered scans and flush; rewrites
//! of the live table set go through the same atomic install.

use vstd::prelude::*;

use crate::bucket_iter::{lists_multiset, version_lists, BucketIter};
use crate::codec::{entries_view, entry_wf, key_bytes};
use crate::error::Error;
use crate::keys::{entry_matches, key_lt, Entry, EntryView, Timestamp};
use crate::table::{
    clone_entry, parse_table, table_wf, TableBuilder, TableBuilderOptions, TableDesc, TableReader,
};
use crate::versions::{install_spec, keep_tables, tables_good, tables_wf, TableFile, Versions};

verus! {

/// A batch a bucket accepts for flushing: nonempty, within the frame
/// size limits, in strictly increasing key order.
pub open spec fn flushable(s: Seq<EntryView>) -> bool {
    &&& s.len() > 0
    &&& forall|i: int| 0 <= i < s.len() ==> entry_wf(#[trigger] s[i])
    &&& forall|i: int| 0 <= i < s.len() - 1 ==> key_lt((#[trigger] s[i]).key, s[i + 1].key)
}

/// A table holds an entry visible at `ts` under `uk`.
pub open spec fn table_has_match(t: TableFile, uk: Seq<u8>, ts: Timestamp) -> bool {
    exists|j: int| 0 <= j < t.contents().len() && entry_matches(#[trigger] t.contents()[j], uk, ts)
}

/// `e` is the newest entry visible at `ts` under `uk` within one table.
pub open spec fn newest_in_table(t: TableFile, uk: Seq<u8>, ts: Timestamp, e: EntryView) -> bool {
    &&& t.contents().contains(e)
    &&& entry_matches(e, uk, ts)
    &&& forall|j: int|
        0 <= j < t.contents().len() && entry_matches(#[trigger] t.contents()[j], uk, ts)
            ==> t.contents()[j].key.timestamp <= e.key.timestamp
}

/// Builds one table file from a sorted batch. Succeeds exactly on
/// flushable batches; the file then parses back to the batch.
/// Feeds a batch into a builder. Succeeds exactly when the batch is
/// within the frame size limits and strictly increasing.
#[verifier::rlimit(100)]
fn fill_builder(builder: &mut TableBuilder, input: &Vec<Entry>) -> (r: Result<(), Error>)
    requires
        old(builder).wf(),
        old(builder).entries() == Seq::<EntryView>::empty(),
    ensures
        final(builder).wf(),
        r is Ok <==> ((forall|i: int|
            0 <= i < entries_view(input@).len() ==> entry_wf(#[trigger] entries_view(input@)[i]))
            && (forall|i: int|
            0 <= i < entries_view(input@).len() - 1 ==> key_lt(
                (#[trigger] entries_view(input@)[i]).key,
                entries_view(input@)[i + 1].key,
            ))),
        r is Ok ==> final(builder).entries() == entries_view(input@),
        r matches Err(e) ==> e is InvalidArgument,
{
    let ghost s = entries_view(input@);
    let n = input.len();
    let mut i: usize = 0;
    while i < n
        invariant
            0 <= i <= n == input@.len(),
            s == entries_view(input@),
            builder.wf(),
            builder.entries() == s.take(i as int),
            forall|j: int| 0 <= j < i ==> entry_wf(#[trigger] s[j]),
            forall|j: int| 0 <= j < i - 1 ==> key_lt((#[trigger] s[j]).key, s[j + 1].key),
        decreases n - i,
    {
        let e = clone_entry(&input[i]);
        let (key, value) = (e.key, e.value);
        proof {
            assert(s[i as int] == input@[i as int]@);
        }
        match builder.add(key, value) {
            Ok(()) => {
                proof {
                    assert(builder.entries() =~= s.take(i as int + 1));
                    if i > 0 {
                        assert(s.take(i as int).last() == s[i as int - 1]);
                    }
                }
            },
            Err(_) => {
                proof {
                    if i > 0 {
                        assert(s.take(i as int).last() == s[i as int - 1]);
                    }
                }
                return Err(
                    Error::InvalidArgument(
                        "batch must be strictly increasing and within size limits".to_owned(),
                    ),
                );
            },
        }
        i = i + 1;
    }
    proof {
        assert(s.take(n as int) =~= s);
    }
    Ok(())
}

/// Builds a table builder filled with a sorted batch. Succeeds exactly
/// on flushable batches.
#[verifier::rlimit(100)]
fn build_table_from(options: TableBuilderOptions, input: &Vec<Entry>) -> (r: Result<
    TableBuilder,
    Error,
>)
    ensures
        r is Ok <==> flushable(entries_view(input@)),
        r matches Err(e) ==> e is InvalidArgument,
        r matches Ok(b) ==> b.wf() && b.entries() == entries_view(input@) && b.entries().len() > 0,
{
    let ghost s = entries_view(input@);
    if input.len() == 0 {
        return Err(Error::InvalidArgument("cannot build an empty table".to_owned()));
    }
    let mut builder = TableBuilder::new(options);
    match fill_builder(&mut builder, input) {
        Ok(()) => {
            proof {
                assert(flushable(s));
            }
        },
        Err(e) => {
            proof {
                assert(!flushable(s));
            }
            return Err(e);
        },
    }
    Ok(builder)
}

/// A named, independently versioned collection of tables. The bucket
/// owns its manifest; every table it installs was produced by its own
/// builder and is therefore fully well formed.
pub struct Bucket {
    versions: Versions,
    next_id: u64,
    options: TableBuilderOptions,
}

impl Bucket {
    /// The live tables of the bucket's current version, oldest first.
    pub closed spec fn tables(&self) -> Seq<TableFile> {
        self.versions.current_tables()
    }

    /// Every live table is structurally sound and fully well formed.
    pub open spec fn wf(&self) -> bool {
        &&& tables_wf(self.tables())
        &&& tables_good(self.tables())
    }

    /// A fresh bucket starts from the empty version.
    pub fn new(options: TableBuilderOptions) -> (r: Bucket)
        ensures
            r.wf(),
            r.tables() == Seq::<TableFile>::empty(),
    {
        Bucket { versions: Versions::new(), next_id: 0, options }
    }

    /// Builds one table from a sorted batch and installs it. The batch
    /// must be nonempty and strictly increasing; anything else is
    /// rejected as `InvalidArgument` and leaves the bucket unchanged.
    #[verifier::rlimit(100)]
    pub fn flush(&mut self, entries: Vec<Entry>) -> (r: Result<TableDesc, Error>)
        requires
            old(self).wf(),
        ensures
            final(self).wf(),
            r is Ok <==> flushable(entries_view(entries@)),
            r matches Err(e) ==> e is InvalidArgument && final(self).tables() == old(
                self,
            ).tables(),
            r is Ok ==> {
                &&& final(self).tables().len() == old(self).tables().len() + 1
                &&& forall|i: int|
                    0 <= i < old(self).tables().len() ==> final(self).tables()[i] == old(
                        self,
                    ).tables()[i]
                &&& final(self).tables().last().contents() == entries_view(entries@)
                &&& final(self).tables().last().reader.good()
            },
            r matches Ok(d) ==> {
                &&& d@.lower_bound == key_bytes(entries_view(entries@)[0].key)
                &&& d@.upper_bound == key_bytes(entries_view(entries@).last().key)
            },
    {
        let ghost s = entries_view(entries@);
        let builder = match build_table_from(self.options, &entries) {
            Ok(b) => b,
            Err(e) => {
                return Err(e);
            },
        };
        let (desc, data) = builder.finish_table();
        proof {
            crate::table::lemma_built_table_parts(data@, s, desc@);
            crate::table::lemma_built_table_bounds(data@, s, desc@);
        }
        let out = desc.clone_desc();
        match self.install_built(desc, data, Ghost(s)) {
            Ok(()) => Ok(out),
            Err(e) => Err(e),
        }
    }

    /// Opens a reader over a freshly built table file and installs it as
    /// the newest table, retiring nothing.
    fn install_built(&mut self, desc: TableDesc, data: Vec<u8>, expected: Ghost<Seq<EntryView>>) -> (r:
        Result<(), Error>)
        requires
            old(self).wf(),
            table_wf(data@),
            parse_table(data@) == Some(expected@),
        ensures
            r is Ok,
            final(self).wf(),
            final(self).tables().len() == old(self).tables().len() + 1,
            forall|i: int|
                0 <= i < old(self).tables().len() ==> final(self).tables()[i] == old(
                    self,
                ).tables()[i],
            final(self).tables().last().contents() == expected@,
            final(self).tables().last().reader.good(),
            final(self).tables().last().desc@ == desc@,
    {
        let reader = match TableReader::open(data) {
            Ok(t) => t,
            Err(e) => {
                proof {
                    assert(false);
                }
                return Err(e);
            },
        };
        proof {
            crate::table::lemma_contents_from_parse(reader, expected@);
        }
        let id = self.next_id;
        self.next_id = if self.next_id < u64::MAX {
            self.next_id + 1
        } else {
            u64::MAX
        };
        let table = TableFile { id, desc, reader };
        let ghost cur = self.tables();
        let ghost tv = table;
        let mut added: Vec<TableFile> = Vec::new();
        added.push(table);
        let none_obsolete: Vec<u64> = Vec::new();
        proof {
            assert(added@ =~= seq![tv]);
        }
        self.versions.install(added, &none_obsolete);
        proof {
            lemma_keep_tables_none(cur, none_obsolete@);
            assert(self.tables() =~= cur.push(tv));
            assert forall|i: int| 0 <= i < self.tables().len() implies (#[trigger] self.tables()[i]).reader.wf()
                && self.tables()[i].reader.good() by {
                if i < cur.len() {
                    assert(self.tables()[i] == cur[i]);
                }
            }
        }
        Ok(())
    }

    /// Point lookup across the live tables, most recently flushed table
    /// first, short-circuiting on the first table that holds a visible
    /// entry.
    pub fn get(&self, user_key: &Vec<u8>, ts: Timestamp) -> (r: Result<Option<Entry>, Error>)
        requires
            self.wf(),
        ensures
            match r {
                Ok(opt) => match opt {
                    Some(e) => exists|i: int|
                        {
                            &&& 0 <= i < self.tables().len()
                            &&& newest_in_table(#[trigger] self.tables()[i], user_key@, ts, e@)
                            &&& forall|i2: int|
                                i < i2 < self.tables().len() ==> !table_has_match(
                                    #[trigger] self.tables()[i2],
                                    user_key@,
                                    ts,
                                )
                        },
                    None => forall|i: int|
                        0 <= i < self.tables().len() ==> !table_has_match(
                            #[trigger] self.tables()[i],
                            user_key@,
                            ts,
                        ),
                },
                Err(_) => false,
            },
    {
        let v = self.versions.current();
        let n = v.tables.len();
        let mut back: usize = 0;
        while back < n
            invariant
                0 <= back <= n == self.tables().len(),
                v.tables@ == self.tables(),
                self.wf(),
                forall|i2: int|
                    n - back <= i2 < n ==> !table_has_match(
                        #[trigger] self.tables()[i2],
                        user_key@,
                        ts,
                    ),
            decreases n - back,
        {
            let i = n - 1 - back;
            let t = &v.tables[i];
            proof {
                assert(self.tables()[i as int].reader.wf());
                assert(self.tables()[i as int].reader.good());
            }
            match t.reader.get(user_key, ts) {
                Ok(Some(e)) => {
                    proof {
                        let c = self.tables()[i as int].contents();
                        let w = choose|w: int| 0 <= w < c.len() && c[w] == e@;
                        assert(c.contains(e@));
                    }
                    return Ok(Some(e));
                },
                Ok(None) => {},
                Err(err) => {
                    proof {
                        assert(false);
                    }
                    return Err(err);
                },
            }
            back = back + 1;
        }
        Ok(None)
    }

    /// An ordered, snapshot-isolated scan over the current version. The
    /// iterator owns its snapshot: a later flush or compaction never
    /// changes what an existing scan yields.
    pub fn scan(&self) -> (r: Result<BucketIter, Error>)
        requires
            self.wf(),
        ensures
            r matches Ok(it) && it.wf() && it.position() == 0,
            r matches Ok(it) ==> crate::keys::sorted_le(it.entries_seq())
                && it.entries_seq().to_multiset() == lists_multiset(version_lists(self.tables())),
    {
        match BucketIter::new(self.versions.current()) {
            Ok(it) => Ok(it),
            Err(e) => {
                proof {
                    assert(false);
                }
                Err(e)
            },
        }
    }

}

/// Retiring nothing keeps every table.
pub proof fn lemma_keep_tables_none(cur: Seq<TableFile>, obsolete: Seq<u64>)
    requires
        obsolete.len() == 0,
    ensures
        keep_tables(cur, obsolete) == cur,
    decreases cur.len(),
{
    if cur.len() > 0 {
        lemma_keep_tables_none(cur.drop_first(), obsolete);
        assert(keep_tables(cur, obsolete) =~= cur);
    }
}

} // verus!
