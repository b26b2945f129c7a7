//! Consistency checks over an index: its entries must ascend, and its
//! extensions must be internally consistent.

use vstd::prelude::*;

use crate::ext;
use crate::oid::copy_bytes;
use crate::order::{cmp_bytes, lemma_cmp_bytes_range};

verus! {

/// One index entry: its repository-relative path and its merge stage.
pub struct IndexEntry {
    pub path: Vec<u8>,
    pub stage: u8,
}

/// The index entry order: by path bytes, then by stage.
pub open spec fn ientry_lt(a: IndexEntry, b: IndexEntry) -> bool {
    cmp_bytes(a.path@, b.path@) == -1 || (cmp_bytes(a.path@, b.path@) == 0 && a.stage < b.stage)
}

/// What the entry check refuses: an entry that does not order strictly
/// after its predecessor.
#[derive(Debug)]
pub enum EntriesError {
    OutOfOrder {
        current_index: usize,
        current_path: Vec<u8>,
        current_stage: u8,
        previous_path: Vec<u8>,
        previous_stage: u8,
    },
}

/// What the extension check refuses.
#[derive(Debug)]
pub enum ExtensionsError {
    Tree(ext::VerifyError),
}

/// The state of an index file: its entries and, when present, the
/// cache-tree extension.
pub struct State {
    pub entries: Vec<IndexEntry>,
    pub tree: Option<ext::Tree>,
}

/// Lexicographic comparison of two byte strings: -1, 0 or 1.
pub fn cmp_byte_strings(a: &Vec<u8>, b: &Vec<u8>) -> (r: i8)
    ensures
        r as int == cmp_bytes(a@, b@),
{
    let na = a.len();
    let nb = b.len();
    let common = if na < nb { na } else { nb };
    proof {
        assert(a@.skip(0) =~= a@);
        assert(b@.skip(0) =~= b@);
    }
    let mut i: usize = 0;
    while i < common
        invariant
            i <= common,
            common == if na < nb { na } else { nb },
            na == a@.len(),
            nb == b@.len(),
            cmp_bytes(a@.skip(i as int), b@.skip(i as int)) == cmp_bytes(a@, b@),
        decreases common - i,
    {
        let x = a[i];
        let y = b[i];
        if x < y {
            return -1;
        }
        if x > y {
            return 1;
        }
        proof {
            assert(a@.skip(i as int).skip(1) =~= a@.skip(i + 1));
            assert(b@.skip(i as int).skip(1) =~= b@.skip(i + 1));
        }
        i += 1;
    }
    proof {
        if na == nb {
            assert(a@.skip(common as int).len() == 0 && b@.skip(common as int).len() == 0);
        } else if na < nb {
            assert(a@.skip(common as int).len() == 0 && b@.skip(common as int).len() > 0);
        } else {
            assert(a@.skip(common as int).len() > 0 && b@.skip(common as int).len() == 0);
        }
    }
    if na == nb {
        0
    } else if na < nb {
        -1
    } else {
        1
    }
}

impl State {
    /// The cache-tree extension, when the index carries one.
    pub fn tree(&self) -> (r: Option<&ext::Tree>)
        ensures
            match r {
                Some(t) => self.tree matches Some(tt) && *t == tt,
                None => self.tree is None,
            },
    {
        match &self.tree {
            Some(t) => Some(t),
            None => None,
        }
    }

    /// Checks that the entries ascend strictly: each by path bytes, then
    /// by stage. The error names the first entry out of order and its
    /// predecessor.
    pub fn verify_entries(&self) -> (r: Result<(), EntriesError>)
        ensures
            (r is Ok) == (forall|i: int|
                0 < i < self.entries@.len() ==> ientry_lt(
                    self.entries@[i - 1],
                    #[trigger] self.entries@[i],
                )),
            r matches Err(EntriesError::OutOfOrder {
                current_index,
                current_path,
                current_stage,
                previous_path,
                previous_stage,
            }) ==> {
                &&& 0 < current_index < self.entries@.len()
                &&& !ientry_lt(
                    self.entries@[current_index - 1],
                    self.entries@[current_index as int],
                )
                &&& forall|i: int|
                    0 < i < current_index ==> ientry_lt(
                        self.entries@[i - 1],
                        #[trigger] self.entries@[i],
                    )
                &&& current_path@ == self.entries@[current_index as int].path@
                &&& current_stage == self.entries@[current_index as int].stage
                &&& previous_path@ == self.entries@[current_index - 1].path@
                &&& previous_stage == self.entries@[current_index - 1].stage
            },
    {
        let mut idx: usize = 1;
        while idx < self.entries.len()
            invariant
                1 <= idx,
                idx <= self.entries@.len() || self.entries@.len() == 0,
                forall|i: int|
                    0 < i < idx && i < self.entries@.len() ==> ientry_lt(
                        self.entries@[i - 1],
                        #[trigger] self.entries@[i],
                    ),
            decreases self.entries@.len() - idx,
        {
            let prev = &self.entries[idx - 1];
            let entry = &self.entries[idx];
            let c = cmp_byte_strings(&prev.path, &entry.path);
            proof {
                lemma_cmp_bytes_range(prev.path@, entry.path@);
            }
            let in_order = if c < 0 {
                true
            } else if c == 0 {
                prev.stage < entry.stage
            } else {
                false
            };
            if !in_order {
                return Err(EntriesError::OutOfOrder {
                    current_index: idx,
                    current_path: copy_bytes(&entry.path),
                    current_stage: entry.stage,
                    previous_path: copy_bytes(&prev.path),
                    previous_stage: prev.stage,
                });
            }
            idx += 1;
        }
        Ok(())
    }

    /// Checks the extensions: a cache tree, when present, must pass its
    /// own consistency check; an index without one passes.
    pub fn verify_extensions(&self) -> (r: Result<(), ExtensionsError>)
        ensures
            (r is Ok) == (match self.tree {
                Some(t) => t.name@.len() == 0 && ext::counts_ok(t),
                None => true,
            }),
            r matches Err(ExtensionsError::Tree(e)) ==> (match self.tree {
                Some(t) => (t.name@.len() > 0 ==> (e matches ext::VerifyError::RootWithName {
                    name,
                } && name@ == t.name@)) && (t.name@.len() == 0 ==> (e matches ext::VerifyError::EntriesCount {
                    actual,
                    expected,
                } && actual > expected)),
                None => false,
            }),
    {
        match &self.tree {
            Some(t) => match t.verify() {
                Ok(()) => Ok(()),
                Err(e) => Err(ExtensionsError::Tree(e)),
            },
            None => Ok(()),
        }
    }
}

} // verus!
