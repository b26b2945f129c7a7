//! The tree editor: upserts along paths into a set of in-flight trees, and
//! a bottom-up flush of every changed tree through an external writer.
//!
//! The in-flight set is keyed by the tree's full path from the root (the
//! root itself sits under the empty path). Keying by the path itself rather
//! than by a fixed-width hash of it trades a little memory for freedom from
//! the documented path-hash collision hazard; the behaviour is otherwise
//! unchanged.

use vstd::prelude::*;

use crate::oid::{bytes_eq, copy_bytes, ObjectId};
use crate::order::{valid_name, SLASH};
use crate::tree::{
    emodel, emodels, entry_for, lemma_purge_models, lemma_purge_wf, lemma_tree_wf_remove,
    lemma_tree_wf_replace, no_null, purge, purge_m, purge_spec, put_entry, tree_wf, EntryKind,
    Entry, EntryModel, Tree,
};
use crate::writer::{TreeWriter, WriterError};

verus! {

/// An error of the object-store lookup backend. With the sketch-only policy
/// below the editor itself never produces one.
#[derive(Debug)]
pub enum ResolveError {
    NotFound,
    Backend,
}

/// One in-flight tree under the path that leads to it from the root.
pub type StoreSeq = Seq<(Vec<u8>, Tree)>;

pub open spec fn keys_unique(s: StoreSeq) -> bool {
    forall|i: int, j: int|
        0 <= i < j < s.len() ==> (#[trigger] s[i]).0@ != (#[trigger] s[j]).0@
}

pub open spec fn store_trees_wf(s: StoreSeq) -> bool {
    forall|i: int| 0 <= i < s.len() ==> tree_wf((#[trigger] s[i]).1.entries@)
}

pub open spec fn store_ok(s: StoreSeq) -> bool {
    keys_unique(s) && store_trees_wf(s)
}

pub open spec fn has_key(s: StoreSeq, k: Seq<u8>) -> bool {
    exists|i: int| 0 <= i < s.len() && (#[trigger] s[i]).0@ == k
}

/// The entries of the tree stored under `k`.
pub open spec fn tree_at(s: StoreSeq, k: Seq<u8>) -> Seq<crate::tree::Entry> {
    let i = choose|i: int| 0 <= i < s.len() && (#[trigger] s[i]).0@ == k;
    s[i].1.entries@
}

pub proof fn lemma_tree_at(s: StoreSeq, i: int)
    requires
        keys_unique(s),
        0 <= i < s.len(),
    ensures
        has_key(s, s[i].0@),
        tree_at(s, s[i].0@) == s[i].1.entries@,
{
    let k = s[i].0@;
    assert(has_key(s, k));
    let j = choose|j: int| 0 <= j < s.len() && (#[trigger] s[j]).0@ == k;
    if i != j {
        assert(s[i].0@ != s[j].0@);
    }
}

/// The entry for `name` exists, is a tree, and carries the null
/// placeholder identifier; no other entry carries the name.
pub open spec fn tree_placeholder(s: Seq<Entry>, name: Seq<u8>) -> bool {
    (exists|i: int|
        0 <= i < s.len() && (#[trigger] s[i]).filename@ == name && s[i].mode is Tree
            && crate::oid::oid_null(s[i].oid.bytes@)) && (forall|i: int|
        0 <= i < s.len() && (#[trigger] s[i]).filename@ == name ==> s[i].mode is Tree
            && crate::oid::oid_null(s[i].oid.bytes@))
}

/// The path of the `n`-th-component-deep tree: the first `n` components,
/// joined with `/`. The empty join is the root's path.
pub open spec fn join_path(parts: Seq<Seq<u8>>, n: int) -> Seq<u8>
    decreases n,
{
    if n <= 0 {
        Seq::empty()
    } else if n == 1 {
        parts[0]
    } else {
        join_path(parts, n - 1) + seq![SLASH] + parts[n - 1]
    }
}

/// The views of a list of byte strings.
pub open spec fn views_of(v: Seq<Vec<u8>>) -> Seq<Seq<u8>> {
    Seq::new(v.len(), |i: int| v[i]@)
}

/// Whether `k` is the path of one of the first `upto + 1` prefixes of the
/// walked components: the keys an upsert touches.
pub open spec fn on_chain(parts: Seq<Seq<u8>>, upto: int, k: Seq<u8>) -> bool {
    exists|m: int| 0 <= m <= upto && k == join_path(parts, m)
}

/// Joins of strictly more non-empty components are strictly longer.
proof fn lemma_join_mono(parts: Seq<Seq<u8>>, a: int, b: int)
    requires
        0 <= a < b,
        b <= parts.len(),
        forall|i: int| 0 <= i < parts.len() ==> valid_name(#[trigger] parts[i]),
    ensures
        join_path(parts, a).len() < join_path(parts, b).len(),
    decreases b,
{
    if b > a + 1 {
        lemma_join_mono(parts, a, b - 1);
    }
}

/// Appends a path component, separated by `/` from a non-empty base.
fn push_path_component(base: &mut Vec<u8>, comp: &Vec<u8>)
    ensures
        final(base)@ == if old(base)@.len() == 0 {
            comp@
        } else {
            old(base)@ + seq![SLASH] + comp@
        },
{
    let ghost start = base@;
    if base.len() > 0 {
        base.push(SLASH);
    }
    let mut i: usize = 0;
    while i < comp.len()
        invariant
            i <= comp@.len(),
            base@ =~= (if start.len() == 0 {
                comp@.take(i as int)
            } else {
                start + seq![SLASH] + comp@.take(i as int)
            }),
        decreases comp@.len() - i,
    {
        base.push(comp[i]);
        proof {
            assert(comp@.take(i + 1) =~= comp@.take(i as int).push(comp@[i as int]));
        }
        i += 1;
    }
    proof {
        assert(comp@.take(comp@.len() as int) =~= comp@);
    }
}

/// Finds the position of `k` among the in-flight trees.
fn find_key(trees: &Vec<(Vec<u8>, Tree)>, k: &Vec<u8>) -> (r: Option<usize>)
    ensures
        match r {
            Some(i) => 0 <= i < trees@.len() && trees@[i as int].0@ == k@,
            None => !has_key(trees@, k@),
        },
{
    let mut i: usize = 0;
    while i < trees.len()
        invariant
            i <= trees@.len(),
            forall|j: int| 0 <= j < i ==> (#[trigger] trees@[j]).0@ != k@,
        decreases trees@.len() - i,
    {
        if bytes_eq(&trees[i].0, k) {
            return Some(i);
        }
        i += 1;
    }
    None
}

/// The state needed to apply edits instantly to in-memory trees.
///
/// Each tree is held in memory from the first time it is touched until the
/// whole changed hierarchy is flushed with [`Editor::write`]. Intermediate
/// path components that do not name an in-flight tree yet are materialized
/// as fresh empty trees: the editor sketches structure rather than loading
/// existing subtrees from the object store, so [`Editor::upsert`] never
/// consults a backend and never fails.
pub struct Editor {
    pub trees: Vec<(Vec<u8>, Tree)>,
    pub path_buf: Vec<u8>,
}

impl Editor {
    pub open spec fn store(self) -> StoreSeq {
        self.trees@
    }

    /// The editor's invariant: distinct paths, every in-flight tree sorted
    /// and well-formed, and the root always present under the empty path.
    pub open spec fn wf(self) -> bool {
        store_ok(self.trees@) && has_key(self.trees@, Seq::empty())
    }

    /// Creates an editor that uses `root` as the base for all edits.
    pub fn new(root: Tree) -> (r: Editor)
        requires
            tree_wf(root.entries@),
        ensures
            r.wf(),
            r.store().len() == 1,
            r.store()[0].0@ == Seq::<u8>::empty(),
            r.store()[0].1 == root,
    {
        let mut trees: Vec<(Vec<u8>, Tree)> = Vec::new();
        trees.push((Vec::new(), root));
        proof {
            assert(trees@[0].0@ =~= Seq::<u8>::empty());
        }
        Editor { trees, path_buf: Vec::new() }
    }

    /// Resets the editor to `root`, erasing all previous edits.
    pub fn set_root(&mut self, root: Tree)
        requires
            tree_wf(root.entries@),
        ensures
            final(self).wf(),
            final(self).store().len() == 1,
            final(self).store()[0].0@ == Seq::<u8>::empty(),
            final(self).store()[0].1 == root,
    {
        let mut trees: Vec<(Vec<u8>, Tree)> = Vec::new();
        trees.push((Vec::new(), root));
        proof {
            assert(trees@[0].0@ =~= Seq::<u8>::empty());
        }
        self.trees = trees;
    }

    /// Inserts or replaces an entry at `rela_path`, a non-empty sequence of
    /// path components. The final component takes `kind` and `id` exactly;
    /// every intermediate component is forced to an in-flight tree: its
    /// entry in the parent becomes a tree placeholder (null identifier,
    /// patched on flush), and the subtree is materialized as an empty tree
    /// if it is not in flight yet. Trees whose paths the walk does not
    /// touch are left exactly as they were.
    ///
    /// `id` may be null to sketch a path without committing to content;
    /// null leaves are dropped when writing.
    #[verifier::rlimit(100)]
    #[verifier::spinoff_prover]
    #[verifier::loop_isolation(false)]
    pub fn upsert(&mut self, rela_path: &Vec<Vec<u8>>, kind: EntryKind, id: &ObjectId) -> (r:
        Result<(), ResolveError>)
        requires
            old(self).wf(),
            rela_path@.len() > 0,
            forall|i: int| 0 <= i < rela_path@.len() ==> valid_name((#[trigger] rela_path@[i])@),
            id.wf(),
        ensures
            final(self).wf(),
            r is Ok,
            ({
                let parts = views_of(rela_path@);
                let parent = join_path(parts, parts.len() - 1);
                has_key(final(self).store(), parent) && entry_for(
                    tree_at(final(self).store(), parent),
                    parts[parts.len() - 1],
                    kind,
                    id.bytes@,
                )
            }),
            forall|m: int|
                0 <= m < rela_path@.len() ==> has_key(
                    final(self).store(),
                    join_path(views_of(rela_path@), m),
                ),
            forall|m: int|
                0 <= m < rela_path@.len() - 1 ==> tree_placeholder(
                    tree_at(final(self).store(), join_path(views_of(rela_path@), m)),
                    views_of(rela_path@)[m],
                ),
            forall|k: Seq<u8>|
                !on_chain(views_of(rela_path@), rela_path@.len() - 1, k) ==> #[trigger] has_key(
                    final(self).store(),
                    k,
                ) == has_key(old(self).store(), k),
            forall|k: Seq<u8>|
                !on_chain(views_of(rela_path@), rela_path@.len() - 1, k) && has_key(
                    old(self).store(),
                    k,
                ) ==> #[trigger] tree_at(final(self).store(), k) == tree_at(old(self).store(), k),
    {
        let ghost parts = views_of(rela_path@);
        proof {
            assert forall|j: int| 0 <= j < parts.len() implies valid_name(#[trigger] parts[j]) by {
                assert(parts[j] == rela_path@[j]@);
            }
        }
        self.path_buf = Vec::new();
        let n = rela_path.len();
        let nul = ObjectId::null();
        let mut i: usize = 0;
        proof {
            assert(join_path(parts, 0) =~= Seq::<u8>::empty());
        }
        while i + 1 < n
            invariant
                n == rela_path@.len(),
                parts == views_of(rela_path@),
                0 <= i < n,
                id.wf(),
                nul.wf(),
                nul.is_null_spec(),
                self.path_buf@ == join_path(parts, i as int),
                store_ok(self.trees@),
                has_key(self.trees@, self.path_buf@),
                has_key(self.trees@, Seq::empty()),
                forall|m: int| 0 <= m <= i ==> has_key(self.trees@, join_path(parts, m)),
                forall|m: int|
                    0 <= m < i ==> tree_placeholder(
                        tree_at(self.trees@, join_path(parts, m)),
                        parts[m],
                    ),
                forall|k: Seq<u8>|
                    !on_chain(parts, i as int, k) ==> #[trigger] has_key(self.trees@, k)
                        == has_key(old(self).trees@, k),
                forall|k: Seq<u8>|
                    !on_chain(parts, i as int, k) && has_key(old(self).trees@, k)
                        ==> #[trigger] tree_at(self.trees@, k) == tree_at(old(self).trees@, k),
            decreases n - i,
        {
            let ghost st0 = self.trees@;
            // force the entry for this component to a tree placeholder;
            // the flush patches in the real identifier later
            self.put_at_current(i, rela_path, EntryKind::Tree, &nul);
            let ghost st1 = self.trees@;
            proof {
                if i > 0 {
                    lemma_join_nonempty(parts, i as int);
                }
            }
            push_path_component(&mut self.path_buf, &rela_path[i]);
            proof {
                assert(rela_path@[i as int]@ == parts[i as int]);
                assert(self.path_buf@ == join_path(parts, i + 1));
            }
            match find_key(&self.trees, &self.path_buf) {
                Some(_) => {
                    proof {
                        assert(has_key(self.trees@, self.path_buf@));
                    }
                },
                None => {
                    let kk = copy_bytes(&self.path_buf);
                    let nt = Tree::new();
                    let ghost s0p = self.trees@;
                    let ghost pair = (kk, nt);
                    self.trees.push((kk, nt));
                    proof {
                        lemma_store_append_frame(s0p, pair);
                        assert(self.trees@ == s0p.push(pair));
                        assert(has_key(self.trees@, self.path_buf@));
                    }
                },
            }
            proof {
                let st2 = self.trees@;
                let jp_i = join_path(parts, i as int);
                let jp_i1 = join_path(parts, i + 1);
                lemma_join_mono(parts, i as int, i + 1);
                assert(jp_i != jp_i1);
                // the step touched only the current and the next chain key
                assert(has_key(st2, Seq::<u8>::empty())) by {
                    if jp_i1 != Seq::<u8>::empty() {
                        assert(has_key(st2, Seq::<u8>::empty()) == has_key(
                            st1,
                            Seq::<u8>::empty(),
                        ));
                    }
                }
                assert forall|m: int| 0 <= m <= i + 1 implies has_key(
                    st2,
                    join_path(parts, m),
                ) by {
                    if m <= i {
                        lemma_join_mono(parts, m, i + 1);
                        assert(join_path(parts, m) != jp_i1);
                        if m < i {
                            lemma_join_mono(parts, m, i as int);
                            assert(join_path(parts, m) != jp_i);
                            assert(has_key(st1, join_path(parts, m)) == has_key(
                                st0,
                                join_path(parts, m),
                            ));
                        }
                        assert(has_key(st1, join_path(parts, m)));
                        assert(has_key(st2, join_path(parts, m)) == has_key(
                            st1,
                            join_path(parts, m),
                        ));
                    }
                }
                assert forall|m: int| 0 <= m < i + 1 implies tree_placeholder(
                    tree_at(st2, join_path(parts, m)),
                    parts[m],
                ) by {
                    lemma_join_mono(parts, m, i + 1);
                    assert(join_path(parts, m) != jp_i1);
                    if m == i {
                        assert(entry_for(tree_at(st1, jp_i), parts[m], EntryKind::Tree, nul.bytes@));
                        assert(tree_placeholder(tree_at(st1, jp_i), parts[m]));
                        assert(has_key(st1, jp_i));
                        assert(tree_at(st2, jp_i) == tree_at(st1, jp_i));
                    } else {
                        lemma_join_mono(parts, m, i as int);
                        assert(join_path(parts, m) != jp_i);
                        assert(has_key(st0, join_path(parts, m)));
                        assert(tree_at(st1, join_path(parts, m)) == tree_at(
                            st0,
                            join_path(parts, m),
                        ));
                        assert(has_key(st1, join_path(parts, m)) == has_key(
                            st0,
                            join_path(parts, m),
                        ));
                        assert(tree_at(st2, join_path(parts, m)) == tree_at(
                            st1,
                            join_path(parts, m),
                        ));
                    }
                }
                assert forall|k: Seq<u8>| !on_chain(parts, i + 1, k) implies #[trigger] has_key(
                    st2,
                    k,
                ) == has_key(old(self).trees@, k) by {
                    assert(k != jp_i) by {
                        if k == jp_i {
                            assert(0 <= i <= i + 1 && k == join_path(parts, i as int));
                            assert(on_chain(parts, i + 1, k));
                        }
                    }
                    assert(k != jp_i1) by {
                        if k == jp_i1 {
                            assert(on_chain(parts, i + 1, k));
                        }
                    }
                    assert(!on_chain(parts, i as int, k)) by {
                        if on_chain(parts, i as int, k) {
                            let m = choose|m: int| 0 <= m <= i && k == #[trigger] join_path(
                                parts,
                                m,
                            );
                            assert(on_chain(parts, i + 1, k));
                        }
                    }
                    assert(has_key(st1, k) == has_key(st0, k));
                    assert(has_key(st2, k) == has_key(st1, k));
                }
                assert forall|k: Seq<u8>|
                    !on_chain(parts, i + 1, k) && has_key(old(self).trees@, k) implies #[trigger] tree_at(
                    st2,
                    k,
                ) == tree_at(old(self).trees@, k) by {
                    assert(k != jp_i) by {
                        if k == jp_i {
                            assert(0 <= i <= i + 1 && k == join_path(parts, i as int));
                            assert(on_chain(parts, i + 1, k));
                        }
                    }
                    assert(k != jp_i1) by {
                        if k == jp_i1 {
                            assert(on_chain(parts, i + 1, k));
                        }
                    }
                    assert(!on_chain(parts, i as int, k)) by {
                        if on_chain(parts, i as int, k) {
                            let m = choose|m: int| 0 <= m <= i && k == #[trigger] join_path(
                                parts,
                                m,
                            );
                            assert(on_chain(parts, i + 1, k));
                        }
                    }
                    assert(has_key(st0, k) == has_key(old(self).trees@, k));
                    assert(tree_at(st0, k) == tree_at(old(self).trees@, k));
                    assert(tree_at(st1, k) == tree_at(st0, k));
                    assert(has_key(st1, k) == has_key(st0, k));
                    assert(tree_at(st2, k) == tree_at(st1, k));
                }
            }
            i += 1;
        }
        // the final component takes `kind` and `id` exactly
        let ghost stf = self.trees@;
        self.put_at_current(i, rela_path, kind, id);
        proof {
            assert(i + 1 == n);
            let jp = join_path(parts, i as int);
            assert(jp == join_path(parts, parts.len() - 1));
            assert forall|m: int| 0 <= m < n implies has_key(
                self.trees@,
                join_path(parts, m),
            ) by {
                if m < i {
                    lemma_join_mono(parts, m, i as int);
                    assert(join_path(parts, m) != jp);
                    assert(has_key(stf, join_path(parts, m)));
                    assert(has_key(self.trees@, join_path(parts, m)) == has_key(
                        stf,
                        join_path(parts, m),
                    ));
                }
            }
            assert forall|m: int| 0 <= m < n - 1 implies tree_placeholder(
                tree_at(self.trees@, join_path(parts, m)),
                parts[m],
            ) by {
                lemma_join_mono(parts, m, i as int);
                assert(join_path(parts, m) != jp);
                assert(has_key(stf, join_path(parts, m)));
                assert(tree_placeholder(tree_at(stf, join_path(parts, m)), parts[m]));
                assert(tree_at(self.trees@, join_path(parts, m)) == tree_at(
                    stf,
                    join_path(parts, m),
                ));
            }
            assert forall|k: Seq<u8>| !on_chain(parts, n - 1, k) implies #[trigger] has_key(
                self.trees@,
                k,
            ) == has_key(old(self).trees@, k) by {
                assert(k != jp) by {
                    if k == jp {
                        assert(0 <= i <= n - 1 && k == join_path(parts, i as int));
                        assert(on_chain(parts, n - 1, k));
                    }
                }
                assert(has_key(self.trees@, k) == has_key(stf, k));
            }
            assert forall|k: Seq<u8>|
                !on_chain(parts, n - 1, k) && has_key(old(self).trees@, k) implies #[trigger] tree_at(
                self.trees@,
                k,
            ) == tree_at(old(self).trees@, k) by {
                assert(k != jp) by {
                    if k == jp {
                        assert(0 <= i <= n - 1 && k == join_path(parts, i as int));
                        assert(on_chain(parts, n - 1, k));
                    }
                }
                assert(has_key(stf, k) == has_key(old(self).trees@, k));
                assert(tree_at(self.trees@, k) == tree_at(stf, k));
            }
        }
        Ok(())
    }

    /// Replaces, in the in-flight tree at the current path, the entry for
    /// component `i` with one of the given kind and identifier.
    fn put_at_current(&mut self, i: usize, rela_path: &Vec<Vec<u8>>, kind: EntryKind, id: &ObjectId)
        requires
            store_ok(old(self).trees@),
            has_key(old(self).trees@, old(self).path_buf@),
            has_key(old(self).trees@, Seq::empty()),
            i < rela_path@.len(),
            valid_name(rela_path@[i as int]@),
            id.wf(),
        ensures
            store_ok(final(self).trees@),
            has_key(final(self).trees@, final(self).path_buf@),
            has_key(final(self).trees@, Seq::empty()),
            final(self).path_buf@ == old(self).path_buf@,
            entry_for(
                tree_at(final(self).trees@, final(self).path_buf@),
                rela_path@[i as int]@,
                kind,
                id.bytes@,
            ),
            forall|k: Seq<u8>|
                k != old(self).path_buf@ ==> #[trigger] has_key(final(self).trees@, k) == has_key(
                    old(self).trees@,
                    k,
                ),
            forall|k: Seq<u8>|
                k != old(self).path_buf@ && has_key(old(self).trees@, k) ==> #[trigger] tree_at(
                    final(self).trees@,
                    k,
                ) == tree_at(old(self).trees@, k),
    {
        let idx = match find_key(&self.trees, &self.path_buf) {
            Some(idx) => idx,
            None => {
                proof {
                    assert(false);
                }
                vstd::pervasive::unreached()
            },
        };
        let ghost s0 = self.trees@;
        let (k, mut cur) = self.trees.remove(idx);
        proof {
            s0.remove_ensures(idx as int);
            assert(k@ == self.path_buf@);
            lemma_store_remove_ok(s0, idx as int);
        }
        put_entry(&mut cur, &rela_path[i], kind, id);
        let ghost pair = (k, cur);
        self.trees.push((k, cur));
        proof {
            lemma_store_replace_frame(s0, idx as int, pair);
            assert(self.trees@ == s0.remove(idx as int).push(pair));
            if k@ != Seq::<u8>::empty() {
                assert(has_key(self.trees@, Seq::<u8>::empty()) == has_key(
                    s0,
                    Seq::<u8>::empty(),
                ));
            }
        }
    }
}
/// The mathematical content of the in-flight set: each path with the
/// content of its tree.
pub type MStore = Seq<(Seq<u8>, Seq<EntryModel>)>;

pub open spec fn smodel(s: StoreSeq) -> MStore {
    Seq::new(s.len(), |i: int| (s[i].0@, emodels(s[i].1.entries@)))
}

pub open spec fn ms_has(s: MStore, k: Seq<u8>) -> bool {
    exists|i: int| 0 <= i < s.len() && (#[trigger] s[i]).0 == k
}

pub open spec fn ms_idx(s: MStore, k: Seq<u8>) -> int {
    choose|i: int| 0 <= i < s.len() && (#[trigger] s[i]).0 == k
}

pub open spec fn ms_at(s: MStore, k: Seq<u8>) -> Seq<EntryModel> {
    s[ms_idx(s, k)].1
}

pub open spec fn ms_remove(s: MStore, k: Seq<u8>) -> MStore {
    if ms_has(s, k) {
        s.remove(ms_idx(s, k))
    } else {
        s
    }
}

/// The path of a subtree: its parent's path and its name, joined by `/`.
pub open spec fn child_key(path: Seq<u8>, name: Seq<u8>) -> Seq<u8> {
    if path.len() == 0 {
        name
    } else {
        path + seq![SLASH] + name
    }
}

/// The §4.4 flush of one entry list, left to right, threading the
/// in-flight set: a tree-kind entry whose child path is in flight has that
/// child flushed first (bottom-up) and is then patched with the identifier
/// the writer assigns the child — or dropped entirely when the child came
/// out empty; every other entry is kept as it is.
pub open spec fn flush_list<W: TreeWriter>(s: MStore, path: Seq<u8>, t: Seq<EntryModel>) -> (
    Seq<EntryModel>,
    MStore,
)
    decreases s.len(), t.len(), 1int,
{
    if t.len() == 0 {
        (Seq::empty(), s)
    } else {
        let e = t[0];
        let ck = child_key(path, e.name);
        if e.mode is Tree && ms_has(s, ck) {
            let sub_pair = flush_tree_m::<W>(ms_remove(s, ck), ck, ms_at(s, ck));
            if sub_pair.1.len() >= s.len() {
                // the flush only consumes in-flight trees, so this branch
                // never runs; it bounds the recursion
                (Seq::empty(), sub_pair.1)
            } else {
                let rest_pair = flush_list::<W>(sub_pair.1, path, t.skip(1));
                if sub_pair.0.len() == 0 {
                    (rest_pair.0, rest_pair.1)
                } else {
                    (
                        seq![
                            EntryModel { name: e.name, mode: e.mode, oid: W::id_spec(sub_pair.0) },
                        ] + rest_pair.0,
                        rest_pair.1,
                    )
                }
            }
        } else {
            let rest_pair = flush_list::<W>(s, path, t.skip(1));
            (seq![e] + rest_pair.0, rest_pair.1)
        }
    }
}

/// One whole tree as the flush hands it to the writer: its entries with
/// all in-flight children written and patched in, then null-purged.
pub open spec fn flush_tree_m<W: TreeWriter>(s: MStore, path: Seq<u8>, t: Seq<EntryModel>) -> (
    Seq<EntryModel>,
    MStore,
)
    decreases s.len(), t.len(), 2int,
{
    let p = flush_list::<W>(s, path, t);
    (purge_m(p.0), p.1)
}

/// The model of the store after removing an element is the model with that
/// key removed.
proof fn lemma_smodel_remove(s: StoreSeq, i: int)
    requires
        keys_unique(s),
        0 <= i < s.len(),
    ensures
        ms_has(smodel(s), s[i].0@),
        ms_idx(smodel(s), s[i].0@) == i,
        ms_at(smodel(s), s[i].0@) == emodels(s[i].1.entries@),
        ms_remove(smodel(s), s[i].0@) =~= smodel(s.remove(i)),
{
    let m = smodel(s);
    let k = s[i].0@;
    assert(m[i].0 == k);
    assert(ms_has(m, k));
    let j = ms_idx(m, k);
    if j != i {
        assert(s[j].0@ == k);
    }
    s.remove_ensures(i);
    m.remove_ensures(i);
    assert forall|a: int| 0 <= a < m.remove(i).len() implies #[trigger] m.remove(i)[a] == smodel(
        s.remove(i),
    )[a] by {
        if a < i {
            assert(m.remove(i)[a] == m[a]);
            assert(s.remove(i)[a] == s[a]);
        } else {
            assert(m.remove(i)[a] == m[a + 1]);
            assert(s.remove(i)[a] == s[a + 1]);
        }
    }
}

/// A key is in the model exactly when it is in the store.
proof fn lemma_smodel_keys(s: StoreSeq, k: Seq<u8>)
    ensures
        ms_has(smodel(s), k) == has_key(s, k),
{
    if has_key(s, k) {
        let w = choose|w: int| 0 <= w < s.len() && (#[trigger] s[w]).0@ == k;
        assert(smodel(s)[w].0 == k);
    }
    if ms_has(smodel(s), k) {
        let w = choose|w: int| 0 <= w < smodel(s).len() && (#[trigger] smodel(s)[w]).0 == k;
        assert(s[w].0@ == k);
    }
}

/// Flushes one in-flight tree: every in-flight descendant is written
/// first, the tree's entries are patched with the identifiers the writer
/// returns (entries of subtrees that came out empty are dropped), the tree
/// is null-purged and written itself. Hands back the written tree and its
/// identifier. On a writer error the partially processed tree goes back in
/// flight under its path and the error is passed through.
#[verifier::rlimit(100)]
#[verifier::loop_isolation(false)]
fn flush_node<W: TreeWriter>(
    trees: &mut Vec<(Vec<u8>, Tree)>,
    path: &Vec<u8>,
    t: Tree,
    out: &mut W,
) -> (r: Result<(Tree, ObjectId), WriterError>)
    requires
        store_ok(old(trees)@),
        !has_key(old(trees)@, path@),
        tree_wf(t.entries@),
    ensures
        store_ok(final(trees)@),
        forall|k: Seq<u8>| has_key(final(trees)@, k) ==> has_key(old(trees)@, k) || k == path@,
        match r {
            Ok((ft, id)) => {
                &&& ({
                    let fp = flush_tree_m::<W>(smodel(old(trees)@), path@, emodels(t.entries@));
                    emodels(ft.entries@) =~= fp.0 && smodel(final(trees)@) =~= fp.1
                })
                &&& id.wf()
                &&& id.bytes@ == W::id_spec(emodels(ft.entries@))
                &&& tree_wf(ft.entries@)
                &&& no_null(ft.entries@)
                &&& final(trees)@.len() <= old(trees)@.len()
                &&& !has_key(final(trees)@, path@)
                &&& (old(trees)@.len() == 0 ==> ft.entries@ == purge_spec(t.entries@))
                &&& final(out).log().len() + final(trees)@.len() == old(out).log().len() + old(
                    trees,
                )@.len() + 1
            },
            Err(_) => has_key(final(trees)@, path@),
        },
        W::infallible() ==> r is Ok,
    decreases old(trees)@.len(),
{
    let ghost s0 = trees@;
    let ghost em0 = emodels(t.entries@);
    let ghost log0 = out.log();
    let Tree { entries } = t;
    let ghost entries0 = entries@;
    let mut rest = entries;
    let mut outv: Vec<Entry> = Vec::new();
    proof {
        assert(emodels(rest@) =~= em0);
        assert(outv@ + rest@ =~= entries0);
        assert(emodels(outv@) + flush_list::<W>(smodel(trees@), path@, emodels(rest@)).0
            =~= flush_list::<W>(smodel(s0), path@, em0).0);
    }
    while rest.len() > 0
        invariant
            store_ok(trees@),
            trees@.len() <= s0.len(),
            forall|k: Seq<u8>| has_key(trees@, k) ==> has_key(s0, k),
            !has_key(trees@, path@),
            !has_key(s0, path@),
            tree_wf(outv@ + rest@),
            flush_list::<W>(smodel(s0), path@, em0).0 == emodels(outv@) + flush_list::<W>(
                smodel(trees@),
                path@,
                emodels(rest@),
            ).0,
            flush_list::<W>(smodel(s0), path@, em0).1 == flush_list::<W>(
                smodel(trees@),
                path@,
                emodels(rest@),
            ).1,
            out.log().len() + trees@.len() == log0.len() + s0.len(),
            s0.len() == 0 ==> (trees@ =~= s0 && outv@ + rest@ =~= entries0),
        decreases rest@.len(),
    {
        let ghost rest_pre = rest@;
        let ghost outv_pre = outv@;
        let ghost st_loop = trees@;
        let e = rest.remove(0);
        let ghost eg = e;
        proof {
            rest_pre.remove_ensures(0);
            assert(eg == rest_pre[0]);
            assert(rest@ =~= rest_pre.skip(1));
            assert(emodels(rest@) =~= emodels(rest_pre).skip(1));
            assert(emodels(rest_pre)[0] == emodel(eg));
            // the current entry is well-formed: it sits in the invariant tree
            assert((outv_pre + rest_pre)[outv_pre.len() as int] == eg);
            assert(eg.wf());
        }
        let is_tree_entry = e.mode.is_tree();
        let mut found: Option<usize> = None;
        let mut cp: Vec<u8> = Vec::new();
        if is_tree_entry {
            cp = copy_bytes(path);
            push_path_component(&mut cp, &e.filename);
            proof {
                assert(cp@ == child_key(path@, eg.filename@));
                assert(cp@.len() > path@.len() || (path@.len() == 0 && cp@.len() > 0));
                assert(cp@ != path@);
            }
            found = find_key(trees, &cp);
            proof {
                if found is None {
                    lemma_smodel_keys(trees@, cp@);
                }
            }
        }
        if is_tree_entry && matches!(found, Some(_)) {
            match found {
                Some(ti) => {
                    let ghost st_pre = trees@;
                    let (ck, sub) = trees.remove(ti);
                    proof {
                        st_pre.remove_ensures(ti as int);
                        lemma_store_remove_ok(st_pre, ti as int);
                        lemma_smodel_remove(st_pre, ti as int);
                        assert(ck@ == cp@);
                        assert(tree_wf(sub.entries@));
                        assert forall|k: Seq<u8>| has_key(trees@, k) implies has_key(s0, k) by {
                            let w = choose|w: int|
                                0 <= w < trees@.len() && (#[trigger] trees@[w]).0@ == k;
                            let w0 = if w < ti as int {
                                w
                            } else {
                                w + 1
                            };
                            assert(st_pre[w0].0@ == k);
                        }
                        assert(!has_key(trees@, path@)) by {
                            if has_key(trees@, path@) {
                                let w = choose|w: int|
                                    0 <= w < trees@.len() && (#[trigger] trees@[w]).0@ == path@;
                                let w0 = if w < ti as int {
                                    w
                                } else {
                                    w + 1
                                };
                                assert(st_pre[w0].0@ == path@);
                            }
                        }
                        assert(!has_key(trees@, cp@)) by {
                            if has_key(trees@, cp@) {
                                let w = choose|w: int|
                                    0 <= w < trees@.len() && (#[trigger] trees@[w]).0@ == cp@;
                                let w0 = if w < ti as int {
                                    w
                                } else {
                                    w + 1
                                };
                                assert(st_pre[w0].0@ == cp@ && st_pre[ti as int].0@ == cp@ && w0
                                    != ti as int);
                            }
                        }
                        assert(trees@.len() < s0.len());
                    }
                    match flush_node::<W>(trees, &cp, sub, out) {
                        Ok((ft, cid)) => {
                            let ghost ftg = ft;
                            let ghost sub_pair = flush_tree_m::<W>(
                                ms_remove(smodel(st_pre), cp@),
                                cp@,
                                emodels(sub.entries@),
                            );
                            proof {
                                assert(emodels(ftg.entries@) =~= sub_pair.0);
                                assert(smodel(trees@) =~= sub_pair.1);
                                assert(sub_pair.1.len() < smodel(st_pre).len());
                                // unfold the spec at the pre-step store
                                assert(ms_has(smodel(st_pre), cp@));
                            }
                            if ft.entries.len() == 0 {
                                // the child came out empty: its entry is dropped
                                proof {
                                    assert(emodels(ftg.entries@).len() == 0);
                                    assert(sub_pair.0.len() == 0);
                                    let whole = flush_list::<W>(smodel(st_pre), path@, emodels(rest_pre));
                                    let rp = flush_list::<W>(smodel(trees@), path@, emodels(rest@));
                                    assert(whole.0 == rp.0 && whole.1 == rp.1);
                                    assert(emodels(outv@) + rp.0 =~= emodels(outv_pre)
                                        + whole.0);
                                    // dropping the entry keeps the invariant tree
                                    assert(outv_pre + rest_pre =~= (outv@ + rest@).insert(
                                        outv@.len() as int,
                                        eg,
                                    ));
                                    lemma_tree_wf_remove(outv_pre + rest_pre, outv@.len() as int);
                                    assert((outv_pre + rest_pre).remove(outv@.len() as int)
                                        =~= outv@ + rest@);
                                }
                            } else {
                                let mut e2 = e;
                                e2.oid = cid;
                                let ghost e2g = e2;
                                let ghost outv_mid = outv@;
                                outv.push(e2);
                                proof {
                                    assert(emodel(e2g) == EntryModel {
                                        name: eg.filename@,
                                        mode: eg.mode,
                                        oid: W::id_spec(sub_pair.0),
                                    });
                                    let whole = flush_list::<W>(smodel(st_pre), path@, emodels(rest_pre));
                                    let rp = flush_list::<W>(smodel(trees@), path@, emodels(rest@));
                                    assert(whole.0 =~= seq![emodel(e2g)] + rp.0);
                                    assert(emodels(outv@) =~= emodels(outv_mid).push(emodel(e2g)));
                                    assert(emodels(outv@) + rp.0 =~= emodels(outv_mid)
                                        + whole.0);
                                    // patching the identifier keeps the invariant tree
                                    assert(e2g.filename@ == eg.filename@ && e2g.mode == eg.mode);
                                    assert(e2g.wf());
                                    lemma_tree_wf_replace(
                                        outv_mid + rest_pre,
                                        outv_mid.len() as int,
                                        e2g,
                                    );
                                    assert((outv_mid + rest_pre).remove(
                                        outv_mid.len() as int,
                                    ).insert(outv_mid.len() as int, e2g) =~= outv@ + rest@);
                                }
                            }
                        },
                        Err(err) => {
                            // leave the partially processed tree in flight
                            let mut ents = outv;
                            ents.push(e);
                            proof {
                                assert(ents@ + rest@ =~= outv_pre + rest_pre);
                            }
                            while rest.len() > 0
                                invariant
                                    tree_wf(ents@ + rest@),
                                decreases rest@.len(),
                            {
                                let ghost ents_pre = ents@;
                                let ghost rest_pre2 = rest@;
                                let e3 = rest.remove(0);
                                ents.push(e3);
                                proof {
                                    rest_pre2.remove_ensures(0);
                                    assert(ents@ + rest@ =~= ents_pre + rest_pre2);
                                }
                            }
                            proof {
                                assert(ents@ + rest@ =~= ents@);
                                assert(tree_wf(ents@));
                                assert(!has_key(trees@, path@));
                            }
                            let ghost st_err = trees@;
                            let pk = copy_bytes(path);
                            let nt = Tree { entries: ents };
                            trees.push((pk, nt));
                            proof {
                                lemma_store_push_ok(st_err, (pk, nt));
                                assert(trees@[st_err.len() as int].0@ == path@);
                                assert(has_key(trees@, path@));
                                assert forall|k: Seq<u8>| has_key(trees@, k) implies has_key(
                                    s0,
                                    k,
                                ) || k == path@ by {
                                    let w = choose|w: int|
                                        0 <= w < trees@.len() && (#[trigger] trees@[w]).0@ == k;
                                    if w < st_err.len() as int {
                                        assert(st_err[w].0@ == k);
                                    }
                                }
                            }
                            return Err(err);
                        },
                    }
                },
                None => {
                    proof {
                        assert(false);
                    }
                },
            }
        } else {
            // a non-tree entry, or a subtree that is not in flight: kept
            let ghost outv_mid = outv@;
            outv.push(e);
            proof {
                if is_tree_entry {
                    assert(!ms_has(smodel(st_loop), child_key(path@, eg.filename@)));
                }
                let whole = flush_list::<W>(smodel(st_loop), path@, emodels(rest_pre));
                let rp = flush_list::<W>(smodel(st_loop), path@, emodels(rest@));
                assert(whole.0 =~= seq![emodel(eg)] + rp.0);
                assert(emodels(outv@) =~= emodels(outv_mid).push(emodel(eg)));
                assert(emodels(outv@) + rp.0 =~= emodels(outv_mid) + whole.0);
                assert(outv@ + rest@ =~= outv_mid + rest_pre);
            }
        }
    }
    // every waited-for child is written and patched in: purge and write
    proof {
        assert(outv@ + rest@ =~= outv@);
        assert(tree_wf(outv@));
        assert(emodels(rest@) =~= Seq::<EntryModel>::empty());
        assert(flush_list::<W>(smodel(trees@), path@, emodels(rest@)).0 =~= Seq::<
            EntryModel,
        >::empty());
        assert(emodels(outv@) + Seq::<EntryModel>::empty() =~= emodels(outv@));
        lemma_purge_wf(outv@);
        lemma_purge_models(outv@);
        if s0.len() == 0 {
            assert(outv@ =~= entries0);
        }
    }
    let pt = purge(Tree { entries: outv });
    match out.write_tree(&pt) {
        Ok(id) => {
            proof {
                assert(emodels(pt.entries@) =~= purge_m(flush_list::<W>(
                    smodel(s0),
                    path@,
                    em0,
                ).0));
            }
            Ok((pt, id))
        },
        Err(err) => {
            let ghost st_err = trees@;
            let pk = copy_bytes(path);
            let nt = pt;
            trees.push((pk, nt));
            proof {
                lemma_store_push_ok(st_err, (pk, nt));
                assert(trees@[st_err.len() as int].0@ == path@);
                assert(has_key(trees@, path@));
                assert forall|k: Seq<u8>| has_key(trees@, k) implies has_key(s0, k) || k
                    == path@ by {
                    let w = choose|w: int|
                        0 <= w < trees@.len() && (#[trigger] trees@[w]).0@ == k;
                    if w < st_err.len() as int {
                        assert(st_err[w].0@ == k);
                    }
                }
            }
            Err(err)
        },
    }
}

impl Editor {
    /// Writes the entire in-memory state of all changed trees (and only the
    /// changed trees) to `out`, bottom-up: every changed subtree is handed
    /// to the writer once, with its null placeholders purged, after all of
    /// its changed descendants; each write patches the entry in the parent
    /// with the identifier the writer returned, or drops that entry when
    /// the written subtree came out empty. The last write is the root; its
    /// identifier is returned, and the editor keeps the written root so
    /// that later edits continue from the just-written state. The whole
    /// result is pinned by the spec-level flush `flush_tree_m`, and the
    /// writer's call log grows by at least one (the root) and by at most
    /// one call per tree that was in flight: no subtree is written twice.
    ///
    /// On a writer error the flush stops, the un-finalized trees stay in
    /// flight, and the editor remains consistent, so a retry may succeed.
    /// A writer that never refuses makes `write` itself infallible.
    pub fn write<W: TreeWriter>(&mut self, out: &mut W) -> (r: Result<ObjectId, WriterError>)
        requires
            old(self).wf(),
        ensures
            final(self).wf(),
            match r {
                Ok(id) => {
                    &&& final(self).store().len() == 1
                    &&& final(self).store()[0].0@ == Seq::<u8>::empty()
                    &&& ({
                        let m0 = smodel(old(self).store());
                        let root = ms_at(m0, Seq::<u8>::empty());
                        emodels(final(self).store()[0].1.entries@) == flush_tree_m::<W>(
                            ms_remove(m0, Seq::<u8>::empty()),
                            Seq::<u8>::empty(),
                            root,
                        ).0
                    })
                    &&& tree_wf(final(self).store()[0].1.entries@)
                    &&& no_null(final(self).store()[0].1.entries@)
                    &&& id.wf()
                    &&& id.bytes@ == W::id_spec(emodels(final(self).store()[0].1.entries@))
                },
                Err(_) => true,
            },
            W::infallible() ==> r is Ok,
            r is Ok ==> old(out).log().len() < final(out).log().len() <= old(out).log().len()
                + old(self).store().len(),
            (old(self).store().len() == 1 && r is Ok) ==> final(self).store()[0].1.entries@
                == purge_spec(old(self).store()[0].1.entries@),
    {
        let ghost oldstore = self.trees@;
        let root_key: Vec<u8> = Vec::new();
        proof {
            assert(root_key@ =~= Seq::<u8>::empty());
        }
        let idx = match find_key(&self.trees, &root_key) {
            Some(idx) => idx,
            None => {
                proof {
                    assert(false);
                }
                vstd::pervasive::unreached()
            },
        };
        let (rk, rtree) = self.trees.remove(idx);
        proof {
            oldstore.remove_ensures(idx as int);
            lemma_store_remove_ok(oldstore, idx as int);
            lemma_smodel_remove(oldstore, idx as int);
            assert(!has_key(self.trees@, Seq::<u8>::empty())) by {
                if has_key(self.trees@, Seq::<u8>::empty()) {
                    let w = choose|w: int|
                        0 <= w < self.trees@.len() && (#[trigger] self.trees@[w]).0@
                            == Seq::<u8>::empty();
                    let w0 = if w < idx as int {
                        w
                    } else {
                        w + 1
                    };
                    assert(oldstore[w0].0@ == oldstore[idx as int].0@ && w0 != idx as int);
                }
            }
            if oldstore.len() == 1 {
                assert(self.trees@ =~= Seq::<(Vec<u8>, Tree)>::empty());
                assert(rtree == oldstore[0].1);
            }
        }
        match flush_node::<W>(&mut self.trees, &root_key, rtree, out) {
            Ok((ft, id)) => {
                let mut newtrees: Vec<(Vec<u8>, Tree)> = Vec::new();
                newtrees.push((root_key, ft));
                self.trees = newtrees;
                proof {
                    assert(self.trees@[0].0@ =~= Seq::<u8>::empty());
                    assert(has_key(self.trees@, Seq::<u8>::empty()));
                }
                Ok(id)
            },
            Err(e) => {
                proof {
                    assert(has_key(self.trees@, Seq::<u8>::empty()));
                }
                Err(e)
            },
        }
    }
}

/// Replacing the tree under one key leaves every other key and its tree
/// untouched.
proof fn lemma_store_replace_frame(s0: StoreSeq, idx: int, p: (Vec<u8>, Tree))
    requires
        store_ok(s0),
        0 <= idx < s0.len(),
        p.0@ == s0[idx].0@,
        tree_wf(p.1.entries@),
    ensures
        store_ok(s0.remove(idx).push(p)),
        has_key(s0.remove(idx).push(p), p.0@),
        tree_at(s0.remove(idx).push(p), p.0@) == p.1.entries@,
        forall|k: Seq<u8>|
            k != p.0@ ==> #[trigger] has_key(s0.remove(idx).push(p), k) == has_key(s0, k),
        forall|k: Seq<u8>|
            k != p.0@ && has_key(s0, k) ==> #[trigger] tree_at(s0.remove(idx).push(p), k)
                == tree_at(s0, k),
{
    let s1 = s0.remove(idx);
    let s2 = s1.push(p);
    s0.remove_ensures(idx);
    lemma_store_remove_ok(s0, idx);
    assert(!has_key(s1, p.0@)) by {
        if has_key(s1, p.0@) {
            let w = choose|w: int| 0 <= w < s1.len() && (#[trigger] s1[w]).0@ == p.0@;
            let w0 = if w < idx {
                w
            } else {
                w + 1
            };
            assert(s0[w0].0@ == p.0@ && s0[idx].0@ == p.0@ && w0 != idx);
        }
    }
    lemma_store_push_ok(s1, p);
    assert(s2[s1.len() as int] == p);
    lemma_tree_at(s2, s1.len() as int);
    assert forall|k: Seq<u8>| k != p.0@ implies #[trigger] has_key(s2, k) == has_key(s0, k) by {
        if has_key(s2, k) {
            let w = choose|w: int| 0 <= w < s2.len() && (#[trigger] s2[w]).0@ == k;
            if w < s1.len() {
                let w0 = if w < idx {
                    w
                } else {
                    w + 1
                };
                assert(s0[w0].0@ == k);
            } else {
                assert(s2[w] == p);
            }
        }
        if has_key(s0, k) {
            let w = choose|w: int| 0 <= w < s0.len() && (#[trigger] s0[w]).0@ == k;
            assert(w != idx);
            let w1 = if w < idx {
                w
            } else {
                w - 1
            };
            assert(s1[w1].0@ == k);
            assert(s2[w1].0@ == k);
        }
    }
    assert forall|k: Seq<u8>| k != p.0@ && has_key(s0, k) implies #[trigger] tree_at(s2, k)
        == tree_at(s0, k) by {
        let w = choose|w: int| 0 <= w < s0.len() && (#[trigger] s0[w]).0@ == k;
        assert(w != idx);
        let w1 = if w < idx {
            w
        } else {
            w - 1
        };
        assert(s2[w1] == s0[w]);
        lemma_tree_at(s0, w);
        lemma_tree_at(s2, w1);
    }
}

/// Appending a fresh key leaves every existing key and its tree untouched.
proof fn lemma_store_append_frame(s0: StoreSeq, p: (Vec<u8>, Tree))
    requires
        store_ok(s0),
        !has_key(s0, p.0@),
        tree_wf(p.1.entries@),
    ensures
        store_ok(s0.push(p)),
        has_key(s0.push(p), p.0@),
        tree_at(s0.push(p), p.0@) == p.1.entries@,
        forall|k: Seq<u8>| k != p.0@ ==> #[trigger] has_key(s0.push(p), k) == has_key(s0, k),
        forall|k: Seq<u8>|
            k != p.0@ && has_key(s0, k) ==> #[trigger] tree_at(s0.push(p), k) == tree_at(s0, k),
{
    let s2 = s0.push(p);
    lemma_store_push_ok(s0, p);
    assert(s2[s0.len() as int] == p);
    lemma_tree_at(s2, s0.len() as int);
    assert forall|k: Seq<u8>| k != p.0@ implies #[trigger] has_key(s2, k) == has_key(s0, k) by {
        if has_key(s2, k) {
            let w = choose|w: int| 0 <= w < s2.len() && (#[trigger] s2[w]).0@ == k;
            if w < s0.len() {
                assert(s0[w].0@ == k);
            } else {
                assert(s2[w] == p);
            }
        }
        if has_key(s0, k) {
            let w = choose|w: int| 0 <= w < s0.len() && (#[trigger] s0[w]).0@ == k;
            assert(s2[w].0@ == k);
        }
    }
    assert forall|k: Seq<u8>| k != p.0@ && has_key(s0, k) implies #[trigger] tree_at(s2, k)
        == tree_at(s0, k) by {
        let w = choose|w: int| 0 <= w < s0.len() && (#[trigger] s0[w]).0@ == k;
        assert(s2[w] == s0[w]);
        lemma_tree_at(s0, w);
        lemma_tree_at(s2, w);
    }
}

/// Removing a store element keeps distinct keys and well-formed trees.
proof fn lemma_store_remove_ok(s: StoreSeq, i: int)
    requires
        store_ok(s),
        0 <= i < s.len(),
    ensures
        store_ok(s.remove(i)),
{
    s.remove_ensures(i);
    let t = s.remove(i);
    assert forall|a: int, b: int| 0 <= a < b < t.len() implies (#[trigger] t[a]).0@
        != (#[trigger] t[b]).0@ by {
        let a0 = if a < i {
            a
        } else {
            a + 1
        };
        let b0 = if b < i {
            b
        } else {
            b + 1
        };
        assert(t[a] == s[a0] && t[b] == s[b0]);
    }
    assert forall|a: int| 0 <= a < t.len() implies tree_wf((#[trigger] t[a]).1.entries@) by {
        let a0 = if a < i {
            a
        } else {
            a + 1
        };
        assert(t[a] == s[a0]);
    }
}

/// Appending a fresh key keeps distinct keys and well-formed trees.
proof fn lemma_store_push_ok(s: StoreSeq, kv: (Vec<u8>, Tree))
    requires
        store_ok(s),
        !has_key(s, kv.0@),
        tree_wf(kv.1.entries@),
    ensures
        store_ok(s.push(kv)),
{
    let t = s.push(kv);
    assert forall|a: int, b: int| 0 <= a < b < t.len() implies (#[trigger] t[a]).0@
        != (#[trigger] t[b]).0@ by {
        if b == s.len() as int {
            assert(t[a] == s[a]);
            assert(t[b] == kv);
        } else {
            assert(t[a] == s[a] && t[b] == s[b]);
        }
    }
    assert forall|a: int| 0 <= a < t.len() implies tree_wf((#[trigger] t[a]).1.entries@) by {
        if a < s.len() as int {
            assert(t[a] == s[a]);
        } else {
            assert(t[a] == kv);
        }
    }
}

/// A join of at least one non-empty component is non-empty.
proof fn lemma_join_nonempty(parts: Seq<Seq<u8>>, i: int)
    requires
        1 <= i <= parts.len(),
        valid_name(parts[0]),
    ensures
        join_path(parts, i).len() > 0,
    decreases i,
{
    if i > 1 {
        lemma_join_nonempty(parts, i - 1);
    }
}

} // verus!
