//! The versioned manifest: the authoritative, atomically-replaceable set
//! of live tables of a bucket. A version is immutable once installed;
//! `install` replaces the whole set in one step, so no reader ever sees
//! a version holding only part of an update.

use vstd::prelude::*;

use crate::keys::EntryView;
use crate::table::{TableDesc, TableReader};

verus! {

/// One live table of a version: its identity, its descriptor and a
/// reader over its (immutable, write-once) file.
pub struct TableFile {
    pub id: u64,
    pub desc: TableDesc,
    pub reader: TableReader,
}

impl TableFile {
    /// The entries of the table, in key order.
    pub open spec fn contents(&self) -> Seq<EntryView> {
        self.reader.contents()
    }
}

/// An immutable snapshot of the live table set, oldest table first.
pub struct Version {
    pub tables: Vec<TableFile>,
}

/// Every table of the set has a structurally sound reader.
pub open spec fn tables_wf(ts: Seq<TableFile>) -> bool {
    forall|i: int| 0 <= i < ts.len() ==> (#[trigger] ts[i]).reader.wf()
}

/// Every table of the set is a fully well-formed, sorted table file.
pub open spec fn tables_good(ts: Seq<TableFile>) -> bool {
    forall|i: int| 0 <= i < ts.len() ==> (#[trigger] ts[i]).reader.good()
}

/// The old tables that survive an install: those whose id is not retired.
pub open spec fn keep_tables(cur: Seq<TableFile>, obsolete: Seq<u64>) -> Seq<TableFile>
    decreases cur.len(),
{
    if cur.len() == 0 {
        Seq::empty()
    } else {
        let rest = keep_tables(cur.drop_first(), obsolete);
        if obsolete.contains(cur.first().id) {
            rest
        } else {
            seq![cur.first()] + rest
        }
    }
}

/// The table set after an install: the survivors, then the added tables.
pub open spec fn install_spec(
    cur: Seq<TableFile>,
    added: Seq<TableFile>,
    obsolete: Seq<u64>,
) -> Seq<TableFile> {
    keep_tables(cur, obsolete) + added
}

/// Installation is all-or-nothing: the new set holds every added table,
/// holds every old table that was not retired, and holds nothing else —
/// never a version with only part of the update.
pub proof fn lemma_install_atomic(cur: Seq<TableFile>, added: Seq<TableFile>, obsolete: Seq<u64>)
    ensures
        forall|i: int|
            0 <= i < added.len() ==> install_spec(cur, added, obsolete).contains(
                #[trigger] added[i],
            ),
        forall|i: int|
            0 <= i < cur.len() && !obsolete.contains((#[trigger] cur[i]).id) ==> install_spec(
                cur,
                added,
                obsolete,
            ).contains(cur[i]),
        forall|i: int|
            0 <= i < install_spec(cur, added, obsolete).len() ==> (added.contains(
                #[trigger] install_spec(cur, added, obsolete)[i],
            ) || (cur.contains(install_spec(cur, added, obsolete)[i]) && !obsolete.contains(
                install_spec(cur, added, obsolete)[i].id,
            ))),
{
    lemma_keep_tables_facts(cur, obsolete);
    let post = install_spec(cur, added, obsolete);
    let kept = keep_tables(cur, obsolete);
    assert forall|i: int| 0 <= i < added.len() implies post.contains(#[trigger] added[i]) by {
        assert(post[kept.len() + i] == added[i]);
    }
    assert forall|i: int|
        0 <= i < cur.len() && !obsolete.contains((#[trigger] cur[i]).id) implies post.contains(
        cur[i],
    ) by {
        assert(kept.contains(cur[i]));
        let j = choose|j: int| 0 <= j < kept.len() && kept[j] == cur[i];
        assert(post[j] == cur[i]);
    }
    assert forall|i: int|
        0 <= i < post.len() implies (added.contains(#[trigger] post[i]) || (cur.contains(post[i])
        && !obsolete.contains(post[i].id))) by {
        if i < kept.len() {
            assert(kept.contains(kept[i]));
        } else {
            assert(post[i] == added[i - kept.len()]);
        }
    }
}

/// What survives an install: exactly the old tables whose id was not
/// retired, in their old order.
proof fn lemma_keep_tables_facts(cur: Seq<TableFile>, obsolete: Seq<u64>)
    ensures
        forall|i: int|
            0 <= i < cur.len() && !obsolete.contains((#[trigger] cur[i]).id) ==> keep_tables(
                cur,
                obsolete,
            ).contains(cur[i]),
        forall|j: int|
            0 <= j < keep_tables(cur, obsolete).len() ==> (cur.contains(
                #[trigger] keep_tables(cur, obsolete)[j],
            ) && !obsolete.contains(keep_tables(cur, obsolete)[j].id)),
    decreases cur.len(),
{
    if cur.len() > 0 {
        lemma_keep_tables_facts(cur.drop_first(), obsolete);
        let kept = keep_tables(cur, obsolete);
        let rest = keep_tables(cur.drop_first(), obsolete);
        let d = if obsolete.contains(cur.first().id) {
            0int
        } else {
            1int
        };
        assert forall|i: int|
            0 <= i < cur.len() && !obsolete.contains((#[trigger] cur[i]).id) implies kept.contains(
            cur[i],
        ) by {
            if i == 0 {
                assert(kept[0] == cur[0]);
            } else {
                assert(cur.drop_first()[i - 1] == cur[i]);
                assert(rest.contains(cur[i]));
                let j = choose|j: int| 0 <= j < rest.len() && rest[j] == cur[i];
                assert(kept[j + d] == cur[i]);
            }
        }
        assert forall|j: int|
            0 <= j < kept.len() implies (cur.contains(#[trigger] kept[j]) && !obsolete.contains(
            kept[j].id,
        )) by {
            if j < d {
                assert(kept[j] == cur[0]);
                assert(cur.contains(cur[0]));
            } else {
                assert(rest[j - d] == kept[j]);
                let m = choose|m: int|
                    0 <= m < cur.drop_first().len() && cur.drop_first()[m] == rest[j - d];
                assert(cur[m + 1] == kept[j]);
            }
        }
    }
}

/// Holds the current version and serializes its replacement. Readers
/// take the current snapshot; `install` swaps in a fully-formed new one.
pub struct Versions {
    current: Version,
}

impl Versions {
    /// The tables of the current version.
    pub closed spec fn current_tables(&self) -> Seq<TableFile> {
        self.current.tables@
    }

    /// A new manifest starts from the empty version: no live tables.
    pub fn new() -> (r: Versions)
        ensures
            r.current_tables() == Seq::<TableFile>::empty(),
    {
        Versions { current: Version { tables: Vec::new() } }
    }

    /// The current snapshot. It reflects exactly the last completed
    /// install; an install in progress is never visible in part.
    pub fn current(&self) -> (r: &Version)
        ensures
            r.tables@ == self.current_tables(),
    {
        &self.current
    }

    /// Atomically replaces the current version: the new set is the old
    /// one minus the retired ids, plus the added tables, in one step.
    pub fn install(&mut self, added: Vec<TableFile>, obsolete: &Vec<u64>)
        ensures
            final(self).current_tables() == install_spec(
                old(self).current_tables(),
                added@,
                obsolete@,
            ),
    {
        let ghost cur = self.current.tables@;
        let mut old_tables = Vec::new();
        core::mem::swap(&mut old_tables, &mut self.current.tables);
        let mut kept: Vec<TableFile> = Vec::new();
        while old_tables.len() > 0
            invariant
                keep_tables(cur, obsolete@) == kept@ + keep_tables(old_tables@, obsolete@),
            decreases old_tables@.len(),
        {
            let ghost rem = old_tables@;
            let t = old_tables.remove(0);
            proof {
                assert(old_tables@ =~= rem.drop_first());
                assert(rem.first() == t);
            }
            if !contains_id(obsolete, t.id) {
                let ghost kept_old = kept@;
                kept.push(t);
                proof {
                    assert(kept@ + keep_tables(old_tables@, obsolete@) =~= kept_old + (seq![
                        rem.first(),
                    ] + keep_tables(rem.drop_first(), obsolete@)));
                }
            }
        }
        proof {
            assert(old_tables@.len() == 0);
            assert(keep_tables(old_tables@, obsolete@) =~= Seq::<TableFile>::empty());
            assert(kept@ =~= keep_tables(cur, obsolete@));
        }
        let mut new_tables = kept;
        let mut added_mut = added;
        new_tables.append(&mut added_mut);
        self.current = Version { tables: new_tables };
    }
}

/// Whether an id is in the retired list.
fn contains_id(v: &Vec<u64>, id: u64) -> (r: bool)
    ensures
        r == v@.contains(id),
{
    let n = v.len();
    let mut i: usize = 0;
    while i < n
        invariant
            0 <= i <= n == v@.len(),
            forall|j: int| 0 <= j < i ==> v@[j] != id,
        decreases n - i,
    {
        if v[i] == id {
            return true;
        }
        i = i + 1;
    }
    false
}

} // verus!
