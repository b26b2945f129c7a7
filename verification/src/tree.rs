//! Trees and their entries, with the always-sorted data-model invariant.

use vstd::prelude::*;

use crate::oid::{copy_bytes, ObjectId};
use crate::order::{
    cmp_bytes, cmp_entry_with_name, lemma_cmp_bytes_antisym, lemma_cmp_bytes_eq,
    lemma_cmp_bytes_range, lemma_cmp_bytes_refl, lemma_cmp_bytes_trans, lemma_okey_injective, okey, valid_name,
};

verus! {

/// The kind of object a tree entry points at. Only `Tree` is treated
/// specially by the editor.
#[derive(Clone, Copy, PartialEq, Eq, Structural, Debug)]
pub enum EntryKind {
    Tree,
    Blob,
    BlobExecutable,
    Link,
    Commit,
}

impl EntryKind {
    pub fn is_tree(&self) -> (r: bool)
        ensures
            r == (*self is Tree),
    {
        matches!(*self, EntryKind::Tree)
    }
}

/// One record of a tree: a filename, the kind of the referenced object and
/// its identifier. The filename is non-empty and holds no `/`.
pub struct Entry {
    pub filename: Vec<u8>,
    pub mode: EntryKind,
    pub oid: ObjectId,
}

/// The key the entry is ordered by under the trailing-`/` rule.
pub open spec fn entry_key(e: Entry) -> Seq<u8> {
    okey(e.filename@, e.mode is Tree)
}

impl Entry {
    pub open spec fn wf(self) -> bool {
        valid_name(self.filename@) && self.oid.wf()
    }

    pub fn duplicate(&self) -> (r: Entry)
        ensures
            r.filename@ == self.filename@,
            r.mode == self.mode,
            r.oid.bytes@ == self.oid.bytes@,
    {
        Entry { filename: copy_bytes(&self.filename), mode: self.mode, oid: self.oid.duplicate() }
    }
}

/// Entries strictly ascending under the ordering rule.
pub open spec fn entries_sorted(s: Seq<Entry>) -> bool {
    forall|i: int, j: int|
        0 <= i < j < s.len() ==> cmp_bytes(
            entry_key(#[trigger] s[i]),
            entry_key(#[trigger] s[j]),
        ) == -1
}

pub open spec fn entries_wf(s: Seq<Entry>) -> bool {
    forall|i: int| 0 <= i < s.len() ==> (#[trigger] s[i]).wf()
}

/// No two entries share a filename, whatever their kinds.
pub open spec fn names_unique(s: Seq<Entry>) -> bool {
    forall|i: int, j: int|
        0 <= i < j < s.len() ==> (#[trigger] s[i]).filename@ != (#[trigger] s[j]).filename@
}

/// The data-model invariant of a tree's entry list.
pub open spec fn tree_wf(s: Seq<Entry>) -> bool {
    entries_sorted(s) && entries_wf(s) && names_unique(s)
}

/// Some entry carries exactly this name, kind and identifier.
pub open spec fn has_entry(s: Seq<Entry>, name: Seq<u8>, kind: EntryKind, oidb: Seq<u8>) -> bool {
    exists|i: int|
        0 <= i < s.len() && (#[trigger] s[i]).filename@ == name && s[i].mode == kind
            && s[i].oid.bytes@ == oidb
}

/// The entry named `name` exists, and every entry of that name (there is at
/// most one) carries this kind and identifier.
pub open spec fn entry_for(s: Seq<Entry>, name: Seq<u8>, kind: EntryKind, oidb: Seq<u8>) -> bool {
    has_entry(s, name, kind, oidb) && forall|i: int|
        0 <= i < s.len() && (#[trigger] s[i]).filename@ == name ==> s[i].mode == kind
            && s[i].oid.bytes@ == oidb
}

/// The mathematical content of an entry: what the wire encoding and the
/// writer's identifier depend on.
pub ghost struct EntryModel {
    pub name: Seq<u8>,
    pub mode: EntryKind,
    pub oid: Seq<u8>,
}

pub open spec fn emodel(e: Entry) -> EntryModel {
    EntryModel { name: e.filename@, mode: e.mode, oid: e.oid.bytes@ }
}

pub open spec fn emodels(s: Seq<Entry>) -> Seq<EntryModel> {
    Seq::new(s.len(), |i: int| emodel(s[i]))
}

/// The purge, over entry models.
pub open spec fn purge_m_pre(s: Seq<EntryModel>, i: int) -> Seq<EntryModel>
    decreases i,
{
    if i <= 0 {
        Seq::empty()
    } else if crate::oid::oid_null(s[i - 1].oid) {
        purge_m_pre(s, i - 1)
    } else {
        purge_m_pre(s, i - 1).push(s[i - 1])
    }
}

pub open spec fn purge_m(s: Seq<EntryModel>) -> Seq<EntryModel> {
    purge_m_pre(s, s.len() as int)
}

/// The purge of the models is the model of the purge.
pub proof fn lemma_purge_models(s: Seq<Entry>)
    ensures
        emodels(purge_spec(s)) =~= purge_m(emodels(s)),
{
    lemma_purge_models_pre(s, s.len() as int);
}

proof fn lemma_purge_models_pre(s: Seq<Entry>, i: int)
    requires
        0 <= i <= s.len(),
    ensures
        emodels(purge_pre(s, i)) =~= purge_m_pre(emodels(s), i),
    decreases i,
{
    if i > 0 {
        lemma_purge_models_pre(s, i - 1);
        if !crate::oid::oid_null(s[i - 1].oid.bytes@) {
            assert(emodels(purge_pre(s, i - 1).push(s[i - 1])) =~= emodels(
                purge_pre(s, i - 1),
            ).push(emodel(s[i - 1])));
        }
    }
}

/// The same names, kinds and identifiers, entry for entry.
pub open spec fn entries_alike(a: Seq<Entry>, b: Seq<Entry>) -> bool {
    a.len() == b.len() && forall|i: int|
        0 <= i < a.len() ==> (#[trigger] a[i]).filename@ == b[i].filename@ && a[i].mode
            == b[i].mode && a[i].oid.bytes@ == b[i].oid.bytes@
}

/// An ordered sequence of entries.
pub struct Tree {
    pub entries: Vec<Entry>,
}

impl Tree {
    pub fn new() -> (r: Tree)
        ensures
            r.entries@.len() == 0,
            tree_wf(r.entries@),
    {
        Tree { entries: Vec::new() }
    }

    /// An owned copy whose entries hold the same names, kinds and
    /// identifiers.
    pub fn duplicate(&self) -> (r: Tree)
        ensures
            r.entries@.len() == self.entries@.len(),
            forall|i: int|
                0 <= i < self.entries@.len() ==> (#[trigger] r.entries@[i]).filename@
                    == self.entries@[i].filename@ && r.entries@[i].mode == self.entries@[i].mode
                    && r.entries@[i].oid.bytes@ == self.entries@[i].oid.bytes@,
    {
        let mut out: Vec<Entry> = Vec::new();
        let mut i: usize = 0;
        while i < self.entries.len()
            invariant
                i <= self.entries@.len(),
                out@.len() == i,
                forall|j: int|
                    0 <= j < i ==> (#[trigger] out@[j]).filename@ == self.entries@[j].filename@
                        && out@[j].mode == self.entries@[j].mode && out@[j].oid.bytes@
                        == self.entries@[j].oid.bytes@,
            decreases self.entries@.len() - i,
        {
            out.push(self.entries[i].duplicate());
            i += 1;
        }
        Tree { entries: out }
    }
}

/// The entries with the first `i` positions of `s` inspected and the
/// null-identifier ones among them dropped.
pub open spec fn purge_pre(s: Seq<Entry>, i: int) -> Seq<Entry>
    decreases i,
{
    if i <= 0 {
        Seq::empty()
    } else if crate::oid::oid_null(s[i - 1].oid.bytes@) {
        purge_pre(s, i - 1)
    } else {
        purge_pre(s, i - 1).push(s[i - 1])
    }
}

/// `s` with every null-identifier entry dropped.
pub open spec fn purge_spec(s: Seq<Entry>) -> Seq<Entry> {
    purge_pre(s, s.len() as int)
}

/// No entry carries the null identifier.
pub open spec fn no_null(s: Seq<Entry>) -> bool {
    forall|i: int| 0 <= i < s.len() ==> !crate::oid::oid_null((#[trigger] s[i]).oid.bytes@)
}

/// The positions of `s` below `i` whose entries survive the purge, in order.
spec fn keep_idxs(s: Seq<Entry>, i: int) -> Seq<int>
    decreases i,
{
    if i <= 0 {
        Seq::empty()
    } else if crate::oid::oid_null(s[i - 1].oid.bytes@) {
        keep_idxs(s, i - 1)
    } else {
        keep_idxs(s, i - 1).push(i - 1)
    }
}

/// The purged prefix is `s` read at the kept positions, which ascend; hence
/// every pairwise property of `s` survives the purge.
proof fn lemma_purge_pre_map(s: Seq<Entry>, i: int)
    requires
        0 <= i <= s.len(),
    ensures
        keep_idxs(s, i).len() == purge_pre(s, i).len(),
        forall|m: int|
            0 <= m < keep_idxs(s, i).len() ==> 0 <= #[trigger] keep_idxs(s, i)[m] < i
                && purge_pre(s, i)[m] == s[keep_idxs(s, i)[m]] && !crate::oid::oid_null(
                s[keep_idxs(s, i)[m]].oid.bytes@,
            ),
        forall|m1: int, m2: int|
            0 <= m1 < m2 < keep_idxs(s, i).len() ==> #[trigger] keep_idxs(s, i)[m1]
                < #[trigger] keep_idxs(s, i)[m2],
    decreases i,
{
    if i > 0 {
        lemma_purge_pre_map(s, i - 1);
    }
}

/// The purge keeps the invariant, removes exactly the null entries, and of a
/// tree without nulls it is the identity.
pub proof fn lemma_purge_wf(s: Seq<Entry>)
    requires
        tree_wf(s),
    ensures
        tree_wf(purge_spec(s)),
        no_null(purge_spec(s)),
{
    let n = s.len() as int;
    lemma_purge_pre_map(s, n);
    let p = purge_spec(s);
    let k = keep_idxs(s, n);
    assert forall|m1: int, m2: int| 0 <= m1 < m2 < p.len() implies cmp_bytes(
        entry_key(#[trigger] p[m1]),
        entry_key(#[trigger] p[m2]),
    ) == -1 && p[m1].filename@ != p[m2].filename@ by {
        assert(p[m1] == s[k[m1]] && p[m2] == s[k[m2]]);
        assert(0 <= k[m1] < k[m2] < n);
    }
    assert forall|m: int| 0 <= m < p.len() implies (#[trigger] p[m]).wf() && !crate::oid::oid_null(
        p[m].oid.bytes@,
    ) by {
        assert(p[m] == s[k[m]]);
    }
}

/// Purging a tree that holds no null identifiers changes nothing. After a
/// flush the editor holds exactly the written root, which carries no nulls;
/// a second flush therefore hands the writer that same tree and, the
/// writer's identifier being a function of the tree's content alone, yields
/// the same root identifier.
pub proof fn lemma_purge_identity(s: Seq<Entry>)
    requires
        no_null(s),
    ensures
        purge_spec(s) == s,
{
    assert forall|i: int| 0 <= i <= s.len() implies purge_pre(s, i) =~= s.take(i) by {
        lemma_purge_take(s, i);
    }
    assert(purge_spec(s) =~= s.take(s.len() as int));
    assert(s.take(s.len() as int) =~= s);
}

proof fn lemma_purge_take(s: Seq<Entry>, i: int)
    requires
        no_null(s),
        0 <= i <= s.len(),
    ensures
        purge_pre(s, i) =~= s.take(i),
    decreases i,
{
    if i > 0 {
        lemma_purge_take(s, i - 1);
    }
}

/// Drops the entries whose identifier is null.
pub fn purge(t: Tree) -> (r: Tree)
    ensures
        r.entries@ == purge_spec(t.entries@),
{
    let ghost s = t.entries@;
    let mut es = t.entries;
    let mut out: Vec<Entry> = Vec::new();
    let ghost mut i: int = 0;
    while es.len() > 0
        invariant
            0 <= i <= s.len(),
            es@ =~= s.skip(i),
            out@ == purge_pre(s, i),
        decreases es@.len(),
    {
        let e = es.remove(0);
        proof {
            assert(e == s[i]);
            assert(es@ =~= s.skip(i + 1));
        }
        if !e.oid.is_null() {
            out.push(e);
        }
        proof {
            i = i + 1;
        }
    }
    proof {
        assert(s.skip(s.len() as int).len() == 0);
    }
    Tree { entries: out }
}

/// Locates `name` within sorted entries, probing with the given kind: either
/// the index of the entry whose key equals the probe's, or the index at which
/// such an entry would have to be inserted.
pub fn search_entries(entries: &Vec<Entry>, name: &Vec<u8>, probe_tree: bool) -> (r: Result<
    usize,
    usize,
>)
    requires
        entries_sorted(entries@),
        entries_wf(entries@),
        valid_name(name@),
    ensures
        match r {
            Ok(i) => 0 <= i < entries@.len() && entries@[i as int].filename@ == name@ && (
            entries@[i as int].mode is Tree) == probe_tree,
            Err(i) => i <= entries@.len() && (forall|j: int|
                0 <= j < i ==> cmp_bytes(entry_key(#[trigger] entries@[j]), okey(name@, probe_tree))
                    == -1) && (forall|j: int|
                i <= j < entries@.len() ==> cmp_bytes(
                    entry_key(#[trigger] entries@[j]),
                    okey(name@, probe_tree),
                ) == 1),
        },
{
    let ghost probe = okey(name@, probe_tree);
    let mut i: usize = 0;
    while i < entries.len()
        invariant
            i <= entries@.len(),
            entries_sorted(entries@),
            entries_wf(entries@),
            valid_name(name@),
            probe == okey(name@, probe_tree),
            forall|j: int|
                0 <= j < i ==> cmp_bytes(entry_key(#[trigger] entries@[j]), probe) == -1,
        decreases entries@.len() - i,
    {
        let e = &entries[i];
        let c = cmp_entry_with_name(&e.filename, e.mode.is_tree(), name, probe_tree);
        if c == 0 {
            proof {
                lemma_cmp_bytes_eq(entry_key(entries@[i as int]), probe);
                lemma_okey_injective(
                    entries@[i as int].filename@,
                    entries@[i as int].mode is Tree,
                    name@,
                    probe_tree,
                );
            }
            return Ok(i);
        }
        if c > 0 {
            proof {
                assert forall|j: int|
                    i <= j < entries@.len() implies cmp_bytes(
                    entry_key(#[trigger] entries@[j]),
                    probe,
                ) == 1 by {
                    lemma_cmp_bytes_range(entry_key(entries@[i as int]), probe);
                    if j > i {
                        lemma_cmp_bytes_antisym(entry_key(entries@[i as int]), probe);
                        lemma_cmp_bytes_trans(
                            probe,
                            entry_key(entries@[i as int]),
                            entry_key(entries@[j]),
                        );
                        lemma_cmp_bytes_antisym(probe, entry_key(entries@[j]));
                    }
                }
            }
            return Err(i);
        }
        proof {
            lemma_cmp_bytes_range(entry_key(entries@[i as int]), probe);
        }
        i += 1;
    }
    Err(i)
}

/// Inserting an entry at the position its key selects keeps the invariant.
proof fn lemma_insert_entry(s: Seq<Entry>, pos: int, e: Entry)
    requires
        tree_wf(s),
        e.wf(),
        0 <= pos <= s.len(),
        forall|j: int| 0 <= j < pos ==> cmp_bytes(entry_key(#[trigger] s[j]), entry_key(e)) == -1,
        forall|j: int|
            pos <= j < s.len() ==> cmp_bytes(entry_key(#[trigger] s[j]), entry_key(e)) == 1,
        forall|j: int| 0 <= j < s.len() ==> (#[trigger] s[j]).filename@ != e.filename@,
    ensures
        tree_wf(s.insert(pos, e)),
        entry_for(s.insert(pos, e), e.filename@, e.mode, e.oid.bytes@),
        s.insert(pos, e).len() == s.len() + 1,
        forall|j: int|
            0 <= j < s.len() ==> exists|k2: int|
                0 <= k2 < s.insert(pos, e).len() && s.insert(pos, e)[k2] == #[trigger] s[j],
        forall|k2: int|
            0 <= k2 < s.insert(pos, e).len() ==> (#[trigger] s.insert(pos, e)[k2] == e || exists|
                j: int,
            | 0 <= j < s.len() && s.insert(pos, e)[k2] == s[j]),
{
    let t = s.insert(pos, e);
    s.insert_ensures(pos, e);
    assert(forall|k: int| 0 <= k < pos ==> #[trigger] t[k] == s[k]);
    assert(forall|k: int| pos < k < t.len() ==> #[trigger] t[k] == s[k - 1]);
    assert(t[pos] == e);
    assert forall|i: int, j: int| 0 <= i < j < t.len() implies cmp_bytes(
        entry_key(#[trigger] t[i]),
        entry_key(#[trigger] t[j]),
    ) == -1 by {
        if i == pos {
            lemma_cmp_bytes_antisym(entry_key(s[j - 1]), entry_key(e));
        } else if j == pos {
        } else if i < pos && j > pos {
            assert(t[i] == s[i] && t[j] == s[j - 1]);
            if i == j - 1 {
                lemma_cmp_bytes_antisym(entry_key(s[i]), entry_key(e));
                lemma_cmp_bytes_trans(entry_key(s[i]), entry_key(e), entry_key(e));
                assert(cmp_bytes(entry_key(s[i]), entry_key(e)) == -1);
                lemma_cmp_bytes_antisym(entry_key(s[j - 1]), entry_key(e));
                lemma_cmp_bytes_trans(entry_key(s[i]), entry_key(e), entry_key(s[j - 1]));
            }
        }
    }
    assert(entries_sorted(t));
    assert(entries_wf(t));
    assert(names_unique(t));
    assert(t[pos].filename@ == e.filename@ && t[pos].mode == e.mode && t[pos].oid.bytes@
        == e.oid.bytes@);
    assert forall|j: int| 0 <= j < s.len() implies exists|k2: int|
        0 <= k2 < t.len() && t[k2] == #[trigger] s[j] by {
        let k2 = if j < pos {
            j
        } else {
            j + 1
        };
        assert(t[k2] == s[j]);
    }
    assert forall|k2: int| 0 <= k2 < t.len() implies (#[trigger] t[k2] == e || exists|j: int|
        0 <= j < s.len() && t[k2] == s[j]) by {
        if k2 != pos {
            let j = if k2 < pos {
                k2
            } else {
                k2 - 1
            };
            assert(t[k2] == s[j]);
        }
    }
}

/// Dropping an entry keeps the invariant.
pub proof fn lemma_tree_wf_remove(s: Seq<Entry>, i: int)
    requires
        tree_wf(s),
        0 <= i < s.len(),
    ensures
        tree_wf(s.remove(i)),
{
    s.remove_ensures(i);
    let t = s.remove(i);
    assert forall|a: int, b: int| 0 <= a < b < t.len() implies cmp_bytes(
        entry_key(#[trigger] t[a]),
        entry_key(#[trigger] t[b]),
    ) == -1 && t[a].filename@ != t[b].filename@ by {
        let a0 = if a < i {
            a
        } else {
            a + 1
        };
        let b0 = if b < i {
            b
        } else {
            b + 1
        };
        assert(t[a] == s[a0] && t[b] == s[b0]);
    }
    assert forall|a: int| 0 <= a < t.len() implies (#[trigger] t[a]).wf() by {
        let a0 = if a < i {
            a
        } else {
            a + 1
        };
        assert(t[a] == s[a0]);
    }
}

/// Replacing an entry by one with the same name and kind keeps the
/// invariant.
pub proof fn lemma_tree_wf_replace(s: Seq<Entry>, i: int, e: Entry)
    requires
        tree_wf(s),
        0 <= i < s.len(),
        e.filename@ == s[i].filename@,
        e.mode == s[i].mode,
        e.wf(),
    ensures
        tree_wf(s.remove(i).insert(i, e)),
{
    s.remove_ensures(i);
    let rm = s.remove(i);
    rm.insert_ensures(i, e);
    let t = rm.insert(i, e);
    assert(entry_key(e) == entry_key(s[i]));
    assert forall|k: int| 0 <= k < t.len() implies #[trigger] t[k] == if k == i {
        e
    } else {
        s[k]
    } by {
        if k < i {
            assert(t[k] == rm[k]);
        } else if k > i {
            assert(t[k] == rm[k - 1]);
        }
    }
    assert forall|a: int, b: int| 0 <= a < b < t.len() implies cmp_bytes(
        entry_key(#[trigger] t[a]),
        entry_key(#[trigger] t[b]),
    ) == -1 && t[a].filename@ != t[b].filename@ by {
        assert(entry_key(t[a]) == entry_key(s[a]) && entry_key(t[b]) == entry_key(s[b]));
        assert(t[a].filename@ == s[a].filename@ && t[b].filename@ == s[b].filename@);
    }
    assert forall|a: int| 0 <= a < t.len() implies (#[trigger] t[a]).wf() by {
        if a != i {
            assert(t[a] == s[a]);
        }
    }
}

/// Inserts or replaces the entry named `name`. An existing entry is found
/// whatever its current kind; it takes the new kind and identifier and, since
/// a change of kind changes its ordering key, is relocated to the position
/// that keeps the entries strictly ascending.
#[verifier::rlimit(100)]
pub fn put_entry(t: &mut Tree, name: &Vec<u8>, kind: EntryKind, id: &ObjectId)
    requires
        tree_wf(old(t).entries@),
        valid_name(name@),
        id.wf(),
    ensures
        tree_wf(final(t).entries@),
        entry_for(final(t).entries@, name@, kind, id.bytes@),
        final(t).entries@.len() <= old(t).entries@.len() + 1,
        forall|j: int|
            0 <= j < old(t).entries@.len() && (#[trigger] old(t).entries@[j]).filename@ != name@
                ==> exists|k2: int|
                0 <= k2 < final(t).entries@.len() && final(t).entries@[k2] == old(t).entries@[j],
        forall|k2: int|
            0 <= k2 < final(t).entries@.len() ==> ((#[trigger] final(t).entries@[k2]).filename@
                == name@ || exists|j: int|
                0 <= j < old(t).entries@.len() && final(t).entries@[k2] == old(t).entries@[j]),
{
    let new_entry = Entry {
        filename: copy_bytes(name),
        mode: kind,
        oid: id.duplicate(),
    };
    let found: Option<usize> = match search_entries(&t.entries, name, false) {
        Ok(i) => Some(i),
        Err(_) => match search_entries(&t.entries, name, true) {
            Ok(i) => Some(i),
            Err(_) => None,
        },
    };
    match found {
        Some(i) => {
            let ghost s0 = t.entries@;
            let _old = t.entries.remove(i);
            proof {
                s0.remove_ensures(i as int);
            }
            let ghost s1 = t.entries@;
            proof {
                assert forall|j: int, k: int| 0 <= j < k < s1.len() implies cmp_bytes(
                    entry_key(#[trigger] s1[j]),
                    entry_key(#[trigger] s1[k]),
                ) == -1 && s1[j].filename@ != s1[k].filename@ by {
                    let j0 = if j < i as int { j } else { j + 1 };
                    let k0 = if k < i as int { k } else { k + 1 };
                    assert(s1[j] == s0[j0] && s1[k] == s0[k0]);
                }
                assert(entries_wf(s1)) by {
                    assert forall|j: int| 0 <= j < s1.len() implies (#[trigger] s1[j]).wf() by {
                        let j0 = if j < i as int { j } else { j + 1 };
                        assert(s1[j] == s0[j0]);
                    }
                }
                // no remaining entry carries the name
                assert forall|j: int| 0 <= j < s1.len() implies (#[trigger] s1[j]).filename@
                    != name@ by {
                    let j0 = if j < i as int { j } else { j + 1 };
                    assert(s1[j] == s0[j0]);
                    assert(s0[i as int].filename@ == name@);
                }
            }
            match search_entries(&t.entries, name, kind == EntryKind::Tree) {
                Ok(_) => {
                    // impossible: an equal key would mean an equal name
                    proof {
                        assert(false);
                    }
                },
                Err(pos) => {
                    proof {
                        assert(entry_key(new_entry) == okey(name@, kind is Tree));
                        lemma_insert_entry(t.entries@, pos as int, new_entry);
                    }
                    t.entries.insert(pos, new_entry);
                    proof {
                        assert forall|j: int|
                            0 <= j < s0.len() && (#[trigger] s0[j]).filename@ != name@ implies exists|
                            k2: int,
                        | 0 <= k2 < t.entries@.len() && t.entries@[k2] == s0[j] by {
                            assert(j != i as int);
                            let j1 = if j < i as int {
                                j
                            } else {
                                j - 1
                            };
                            assert(s1[j1] == s0[j]);
                            let k2 = choose|k2: int|
                                0 <= k2 < t.entries@.len() && t.entries@[k2] == #[trigger] s1[j1];
                            assert(t.entries@[k2] == s0[j]);
                        }
                        assert forall|k2: int| 0 <= k2 < t.entries@.len() implies ((
                        #[trigger] t.entries@[k2]).filename@ == name@ || exists|j: int|
                            0 <= j < s0.len() && t.entries@[k2] == s0[j]) by {
                            if t.entries@[k2] != new_entry {
                                let j1 = choose|j1: int|
                                    0 <= j1 < s1.len() && t.entries@[k2] == #[trigger] s1[j1];
                                let j = if j1 < i as int {
                                    j1
                                } else {
                                    j1 + 1
                                };
                                assert(t.entries@[k2] == s0[j]);
                            }
                        }
                    }
                },
            }
        },
        None => {
            // no entry of this name exists under either probe
            match search_entries(&t.entries, name, kind == EntryKind::Tree) {
                Ok(i) => {
                    proof {
                        // it would have been found by the probe of its kind
                        let e = t.entries@[i as int];
                        if e.mode is Tree {
                            lemma_cmp_bytes_refl(okey(name@, true));
                        } else {
                            lemma_cmp_bytes_refl(okey(name@, false));
                        }
                        assert(false);
                    }
                },
                Err(pos) => {
                    proof {
                        assert(entry_key(new_entry) == okey(name@, kind is Tree));
                        assert forall|j: int| 0 <= j < t.entries@.len() implies (#[trigger] t.entries@[j]).filename@
                            != name@ by {
                            let e = t.entries@[j];
                            if e.filename@ == name@ {
                                if e.mode is Tree {
                                    lemma_cmp_bytes_refl(okey(name@, true));
                                    assert(cmp_bytes(entry_key(e), okey(name@, true)) == 0);
                                } else {
                                    lemma_cmp_bytes_refl(okey(name@, false));
                                    assert(cmp_bytes(entry_key(e), okey(name@, false)) == 0);
                                }
                            }
                        }
                        lemma_insert_entry(t.entries@, pos as int, new_entry);
                    }
                    t.entries.insert(pos, new_entry);
                },
            }
        },
    }
}

} // verus!
