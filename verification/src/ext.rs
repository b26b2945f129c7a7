//! The cache-tree index extension: a recursive record of how many index
//! entries each directory covers, with its consistency check.

use vstd::prelude::*;

use crate::oid::{copy_bytes, ObjectId};
use vstd::slice::{slice_subrange, slice_to_vec};

verus! {

/// The index of the first occurrence of `b`.
pub open spec fn find_byte(s: Seq<u8>, b: u8) -> Option<int>
    decreases s.len(),
{
    if s.len() == 0 {
        None
    } else if s[0] == b {
        Some(0)
    } else {
        match find_byte(s.skip(1), b) {
            None => None,
            Some(i) => Some(i + 1),
        }
    }
}

proof fn lemma_find_byte_some(s: Seq<u8>, b: u8, i: int)
    requires
        0 <= i < s.len(),
        s[i] == b,
        forall|j: int| 0 <= j < i ==> s[j] != b,
    ensures
        find_byte(s, b) == Some(i),
    decreases s.len(),
{
    if i > 0 {
        assert forall|j: int| 0 <= j < i - 1 implies s.skip(1)[j] != b by {
            assert(s.skip(1)[j] == s[j + 1]);
        }
        assert(s.skip(1)[i - 1] == s[i]);
        lemma_find_byte_some(s.skip(1), b, i - 1);
    }
}

proof fn lemma_find_byte_none(s: Seq<u8>, b: u8)
    requires
        forall|j: int| 0 <= j < s.len() ==> s[j] != b,
    ensures
        find_byte(s, b) is None,
    decreases s.len(),
{
    if s.len() > 0 {
        assert forall|j: int| 0 <= j < s.skip(1).len() implies s.skip(1)[j] != b by {
            assert(s.skip(1)[j] == s[j + 1]);
        }
        lemma_find_byte_none(s.skip(1), b);
    }
}

/// Finds the first occurrence of `b`.
fn find_byte_in(data: &[u8], b: u8) -> (r: Option<usize>)
    ensures
        match r {
            Some(i) => i < data@.len() && find_byte(data@, b) == Some(i as int),
            None => find_byte(data@, b) is None,
        },
{
    let n = data.len();
    let mut i: usize = 0;
    while i < n
        invariant
            i <= n,
            n == data@.len(),
            forall|j: int| 0 <= j < i ==> data@[j] != b,
        decreases n - i,
    {
        if data[i] == b {
            proof {
                lemma_find_byte_some(data@, b, i as int);
            }
            return Some(i);
        }
        i += 1;
    }
    proof {
        lemma_find_byte_none(data@, b);
    }
    None
}

/// ASCII decimal digits only.
pub open spec fn all_digits(s: Seq<u8>) -> bool {
    forall|i: int| 0 <= i < s.len() ==> 48 <= #[trigger] s[i] <= 57
}

/// The value of a digit string, most significant first.
pub open spec fn dec_val(s: Seq<u8>) -> int
    decreases s.len(),
{
    if s.len() == 0 {
        0
    } else {
        dec_val(s.drop_last()) * 10 + (s.last() - 48)
    }
}

proof fn lemma_dec_val_nonneg(s: Seq<u8>)
    requires
        all_digits(s),
    ensures
        dec_val(s) >= 0,
    decreases s.len(),
{
    if s.len() > 0 {
        lemma_dec_val_nonneg(s.drop_last());
        assert(dec_val(s.drop_last()) * 10 >= 0) by (nonlinear_arith)
            requires dec_val(s.drop_last()) >= 0;
    }
}

proof fn lemma_dec_val_prefix(s: Seq<u8>, k: int)
    requires
        all_digits(s),
        0 <= k <= s.len(),
    ensures
        dec_val(s.take(k)) <= dec_val(s),
    decreases s.len() - k,
{
    if k < s.len() {
        lemma_dec_val_prefix(s, k + 1);
        let t = s.take(k + 1);
        assert(t.drop_last() =~= s.take(k));
        assert(t.last() == s[k]);
        lemma_dec_val_nonneg(s.take(k));
        assert(dec_val(s.take(k)) * 10 >= dec_val(s.take(k))) by (nonlinear_arith)
            requires dec_val(s.take(k)) >= 0;
    } else {
        assert(s.take(k) =~= s);
    }
}

/// Parses a digit string as a number of at most `max`.
fn parse_num(digits: &[u8], max: u64) -> (r: Option<u64>)
    ensures
        match r {
            Some(n) => all_digits(digits@) && digits@.len() > 0 && dec_val(digits@) == n && n
                <= max,
            None => !(all_digits(digits@) && digits@.len() > 0 && dec_val(digits@) <= max),
        },
{
    let n = digits.len();
    if n == 0 {
        return None;
    }
    let mut acc: u128 = 0;
    let mut i: usize = 0;
    while i < n
        invariant
            i <= n,
            n == digits@.len(),
            n > 0,
            acc == dec_val(digits@.take(i as int)),
            acc <= max,
            all_digits(digits@.take(i as int)),
        decreases n - i,
    {
        let c = digits[i];
        if c < 48 || c > 57 {
            proof {
                assert(!all_digits(digits@));
            }
            return None;
        }
        proof {
            assert(digits@.take(i + 1).drop_last() =~= digits@.take(i as int));
            assert(digits@.take(i + 1).last() == digits@[i as int]);
        }
        let d = (c - 48) as u128;
        let next = acc * 10 + d;
        if next > max as u128 {
            proof {
                let t = digits@.take(i + 1);
                assert(dec_val(t) == next);
                if all_digits(digits@) && dec_val(digits@) <= max {
                    lemma_dec_val_prefix(digits@, i + 1);
                    assert(false);
                }
            }
            return None;
        }
        acc = next;
        i += 1;
    }
    proof {
        assert(digits@.take(n as int) =~= digits@);
    }
    Some(acc as u64)
}

/// The hash algorithm identifiers are derived with.
#[derive(Clone, Copy, PartialEq, Eq, Structural, Debug)]
pub enum HashKind {
    Sha1,
}

impl HashKind {
    pub fn len_in_bytes(&self) -> (r: usize)
        ensures
            r == 20,
    {
        20
    }
}

/// One node of the cache tree: a directory name, the identifier of its
/// tree object, the number of index entries it covers, and its child
/// directories.
pub struct Tree {
    pub name: Vec<u8>,
    pub children: Vec<Tree>,
    pub id: ObjectId,
    pub num_entries: u32,
}

/// The sum of the entry counts the children declare.
pub open spec fn sum_num(cs: Seq<Tree>) -> int
    decreases cs.len(),
{
    if cs.len() == 0 {
        0
    } else {
        sum_num(cs.drop_last()) + cs.last().num_entries
    }
}

/// A node declares at least as many entries as its children together, and
/// so does every node below it. A node without children declares freely.
pub open spec fn counts_ok(t: Tree) -> bool
    decreases t,
{
    (t.children@.len() > 0 ==> sum_num(t.children@) <= t.num_entries) && (forall|i: int|
        0 <= i < t.children@.len() ==> counts_ok(#[trigger] t.children@[i]))
}

/// What the consistency check refuses: a named root, or a node whose
/// children together declare more entries than the node itself.
#[derive(Debug)]
pub enum VerifyError {
    RootWithName { name: Vec<u8> },
    EntriesCount { actual: u64, expected: u32 },
}

/// Whether every child and the running sum of their declared entry counts
/// are consistent; the sum is handed back for the parent's own check.
fn verify_recursive(children: &Vec<Tree>) -> (r: Result<Option<u64>, VerifyError>)
    ensures
        (r is Ok) == (forall|i: int| 0 <= i < children@.len() ==> counts_ok(
            #[trigger] children@[i],
        )),
        r matches Ok(Some(n)) ==> children@.len() > 0 && (n == sum_num(children@) || (n
            == u64::MAX && sum_num(children@) >= u64::MAX)),
        r matches Ok(None) ==> children@.len() == 0,
        r matches Err(VerifyError::EntriesCount { actual, expected }) ==> actual > expected,
        r is Err ==> r matches Err(VerifyError::EntriesCount { .. }),
    decreases children@,
{
    if children.len() == 0 {
        return Ok(None);
    }
    let mut entries: u64 = 0;
    let mut i: usize = 0;
    while i < children.len()
        invariant
            i <= children@.len(),
            children@.len() > 0,
            entries == sum_num(children@.take(i as int)) || (entries == u64::MAX && sum_num(
                children@.take(i as int),
            ) >= u64::MAX),
            forall|j: int| 0 <= j < i ==> counts_ok(#[trigger] children@[j]),
        decreases children@.len() - i,
    {
        let child = &children[i];
        let actual_num_entries = match verify_recursive(&child.children) {
            Ok(v) => v,
            Err(e) => {
                return Err(e);
            },
        };
        if let Some(actual) = actual_num_entries {
            if actual > child.num_entries as u64 {
                proof {
                    assert(!counts_ok(children@[i as int]));
                }
                return Err(VerifyError::EntriesCount {
                    actual,
                    expected: child.num_entries,
                });
            }
        }
        proof {
            assert(counts_ok(children@[i as int]));
            assert(children@.take(i + 1).drop_last() =~= children@.take(i as int));
            assert(children@.take(i + 1).last() == children@[i as int]);
        }
        // entry counts beyond the accumulator's width saturate; any such
        // sum already exceeds whatever a node can declare
        if child.num_entries as u64 <= u64::MAX - entries {
            entries = entries + child.num_entries as u64;
        } else {
            entries = u64::MAX;
        }
        i += 1;
    }
    proof {
        assert(children@.take(children@.len() as int) =~= children@);
    }
    Ok(Some(entries))
}

/// The mathematical shape of a cache-tree node.
pub ghost struct TreeModel {
    pub name: Seq<u8>,
    pub id: Seq<u8>,
    pub num_entries: u32,
    pub children: Seq<TreeModel>,
}

/// What a tree value stands for.
pub open spec fn model(t: Tree) -> TreeModel
    decreases t,
{
    TreeModel {
        name: t.name@,
        id: t.id.bytes@,
        num_entries: t.num_entries,
        children: Seq::new(
            t.children@.len(),
            |i: int|
                if 0 <= i < t.children@.len() {
                    model(t.children@[i])
                } else {
                    TreeModel {
                        name: Seq::empty(),
                        id: Seq::empty(),
                        num_entries: 0,
                        children: Seq::empty(),
                    }
                },
        ),
    }
}

/// Splits at the first occurrence of `b`, which is consumed.
pub open spec fn split_at_byte(data: Seq<u8>, b: u8) -> Option<(Seq<u8>, Seq<u8>)> {
    match find_byte(data, b) {
        None => None,
        Some(p) => Some((data.take(p), data.skip(p + 1))),
    }
}

/// A non-empty digit string of value at most `max`.
pub open spec fn parse_digits(s: Seq<u8>, max: int) -> Option<int> {
    if all_digits(s) && s.len() > 0 && dec_val(s) <= max {
        Some(dec_val(s))
    } else {
        None
    }
}

/// One serialized node: `<path> NUL <entry count> SP <subtree count> LF
/// <raw id bytes>`, followed by its subtrees, each in the same shape.
pub open spec fn parse_one(data: Seq<u8>, hash_len: int) -> Option<(TreeModel, Seq<u8>)>
    decreases data.len(), 0int,
{
    let a = split_at_byte(data, 0u8);
    let b = if a is None {
        None
    } else {
        split_at_byte(a.unwrap().1, 32u8)
    };
    let n1 = if b is None {
        None
    } else {
        parse_digits(b.unwrap().0, u32::MAX as int)
    };
    let c = if n1 is None {
        None
    } else {
        split_at_byte(b.unwrap().1, 10u8)
    };
    let n2 = if c is None {
        None
    } else {
        parse_digits(c.unwrap().0, usize::MAX as int)
    };
    if n2 is None {
        None
    } else if c.unwrap().1.len() < hash_len || hash_len < 0 {
        None
    } else if c.unwrap().1.skip(hash_len).len() >= data.len() {
        None
    } else {
        match parse_children(c.unwrap().1.skip(hash_len), hash_len, n2.unwrap()) {
            None => None,
            Some((cs, d5)) => Some(
                (
                    TreeModel {
                        name: a.unwrap().0,
                        id: c.unwrap().1.take(hash_len),
                        num_entries: n1.unwrap() as u32,
                        children: cs,
                    },
                    d5,
                ),
            ),
        }
    }
}

/// `count` serialized nodes in sequence.
pub open spec fn parse_children(data: Seq<u8>, hash_len: int, count: int) -> Option<
    (Seq<TreeModel>, Seq<u8>),
>
    decreases data.len(), 1int,
{
    if count <= 0 {
        Some((Seq::empty(), data))
    } else {
        match parse_one(data, hash_len) {
            None => None,
            Some((t, rest)) => if rest.len() >= data.len() {
                None
            } else {
                match parse_children(rest, hash_len, count - 1) {
                    None => None,
                    Some((cs, d)) => Some((seq![t] + cs, d)),
                }
            },
        }
    }
}

impl Tree {
    /// Checks the whole cache tree: the root must be nameless, and no node
    /// may have children that together declare more entries than the node
    /// itself.
    pub fn verify(&self) -> (r: Result<(), VerifyError>)
        ensures
            (r is Ok) == (self.name@.len() == 0 && counts_ok(*self)),
            self.name@.len() > 0 ==> (r matches Err(VerifyError::RootWithName { name }) && name@
                == self.name@),
            (self.name@.len() == 0 && !counts_ok(*self)) ==> r matches Err(
                VerifyError::EntriesCount { .. },
            ),
            r matches Err(VerifyError::EntriesCount { actual, expected }) ==> actual > expected,
    {
        if self.name.len() > 0 {
            return Err(VerifyError::RootWithName { name: copy_bytes(&self.name) });
        }
        let declared_entries = match verify_recursive(&self.children) {
            Ok(v) => v,
            Err(e) => {
                proof {
                    assert(!counts_ok(*self));
                }
                return Err(e);
            },
        };
        if let Some(actual) = declared_entries {
            if actual > self.num_entries as u64 {
                proof {
                    assert(!counts_ok(*self));
                }
                return Err(VerifyError::EntriesCount {
                    actual,
                    expected: self.num_entries,
                });
            }
        }
        proof {
            assert(counts_ok(*self));
        }
        Ok(())
    }
}

/// The models of a list of trees.
pub open spec fn models_of(ts: Seq<Tree>) -> Seq<TreeModel> {
    Seq::new(ts.len(), |i: int| model(ts[i]))
}

/// Reads one serialized node and its subtrees; hands back the tree and
/// what follows it.
pub fn one_recursive<'a>(data: &'a [u8], hash_len: usize) -> (r: Option<(Tree, &'a [u8])>)
    ensures
        match r {
            Some((t, rest)) => parse_one(data@, hash_len as int) == Some((model(t), rest@))
                && rest@.len() < data@.len(),
            None => parse_one(data@, hash_len as int) is None,
        },
    decreases data@.len(), 0int,
{
    let n = data.len();
    let p = match find_byte_in(data, 0u8) {
        Some(p) => p,
        None => {
            return None;
        },
    };
    let name = slice_subrange(data, 0, p);
    let d1 = slice_subrange(data, p + 1, n);
    proof {
        assert(name@ =~= data@.take(p as int));
        assert(d1@ =~= data@.skip(p + 1));
    }
    let q = match find_byte_in(d1, 32u8) {
        Some(q) => q,
        None => {
            return None;
        },
    };
    let count_digits = slice_subrange(d1, 0, q);
    let n1 = d1.len();
    let d2 = slice_subrange(d1, q + 1, n1);
    proof {
        assert(count_digits@ =~= d1@.take(q as int));
        assert(d2@ =~= d1@.skip(q + 1));
    }
    let num_entries = match parse_num(count_digits, 0xFFFF_FFFFu64) {
        Some(n) => n,
        None => {
            return None;
        },
    };
    let s = match find_byte_in(d2, 10u8) {
        Some(s) => s,
        None => {
            return None;
        },
    };
    let sub_digits = slice_subrange(d2, 0, s);
    let n2 = d2.len();
    let d3 = slice_subrange(d2, s + 1, n2);
    proof {
        assert(sub_digits@ =~= d2@.take(s as int));
        assert(d3@ =~= d2@.skip(s + 1));
    }
    let subtree_count = match parse_num(sub_digits, usize::MAX as u64) {
        Some(n) => n,
        None => {
            return None;
        },
    };
    if d3.len() < hash_len {
        return None;
    }
    let idb = slice_subrange(d3, 0, hash_len);
    let n3 = d3.len();
    let d4 = slice_subrange(d3, hash_len, n3);
    proof {
        assert(idb@ =~= d3@.take(hash_len as int));
        assert(d4@ =~= d3@.skip(hash_len as int));
        assert(d4@.len() < data@.len());
    }
    match parse_children_rec(d4, hash_len, subtree_count as usize) {
        Some((children, d5)) => {
            let t = Tree {
                name: slice_to_vec(name),
                children,
                id: ObjectId { bytes: slice_to_vec(idb) },
                num_entries: num_entries as u32,
            };
            proof {
                assert(model(t).children =~= models_of(t.children@));
                assert(model(t) == parse_one(data@, hash_len as int).unwrap().0);
            }
            Some((t, d5))
        },
        None => None,
    }
}

/// Reads `count` serialized nodes in sequence.
fn parse_children_rec<'a>(data: &'a [u8], hash_len: usize, count: usize) -> (r: Option<
    (Vec<Tree>, &'a [u8]),
>)
    ensures
        match r {
            Some((cs, rest)) => parse_children(data@, hash_len as int, count as int) == Some(
                (models_of(cs@), rest@),
            ) && rest@.len() <= data@.len(),
            None => parse_children(data@, hash_len as int, count as int) is None,
        },
    decreases data@.len(), 1int,
{
    let mut acc: Vec<Tree> = Vec::new();
    let mut cur: &[u8] = data;
    let mut k: usize = 0;
    proof {
        assert(models_of(acc@) =~= Seq::<TreeModel>::empty());
        assert(models_of(acc@) + parse_children(cur@, hash_len as int, count as int).unwrap().0
            =~= parse_children(cur@, hash_len as int, count as int).unwrap().0);
    }
    while k < count
        invariant
            k <= count,
            acc@.len() == k,
            cur@.len() <= data@.len(),
            k > 0 ==> cur@.len() < data@.len(),
            ({
                let whole = parse_children(data@, hash_len as int, count as int);
                let rest = parse_children(cur@, hash_len as int, count - k);
                whole == match rest {
                    None => None::<(Seq<TreeModel>, Seq<u8>)>,
                    Some((cs, d)) => Some((models_of(acc@) + cs, d)),
                }
            }),
        decreases count - k,
    {
        match one_recursive(cur, hash_len) {
            Some((t, rest)) => {
                let ghost tg = t;
                let ghost acc0 = acc@;
                acc.push(t);
                proof {
                    assert(models_of(acc@) =~= models_of(acc0) + seq![model(tg)]);
                    assert(models_of(acc0) + (seq![model(tg)] + parse_children(
                        rest@,
                        hash_len as int,
                        count - k - 1,
                    ).unwrap().0) =~= models_of(acc@) + parse_children(
                        rest@,
                        hash_len as int,
                        count - k - 1,
                    ).unwrap().0);
                }
                cur = rest;
                k += 1;
            },
            None => {
                return None;
            },
        }
    }
    proof {
        assert(parse_children(cur@, hash_len as int, 0) == Some((Seq::<TreeModel>::empty(), cur@)));
        assert(models_of(acc@) + Seq::<TreeModel>::empty() =~= models_of(acc@));
    }
    Some((acc, cur))
}

/// Reads a whole serialized cache tree. A well-formed chunk is consumed
/// exactly; input that parses but leaves trailing bytes is a caller error
/// and is excluded up front.
pub fn decode(data: &[u8], object_hash: HashKind) -> (r: Option<Tree>)
    requires
        parse_one(data@, 20) matches Some((m, rest)) ==> rest.len() == 0,
    ensures
        match r {
            Some(t) => parse_one(data@, 20) matches Some((m, rest)) && m == model(t) && rest.len()
                == 0,
            None => parse_one(data@, 20) is None,
        },
{
    let hash_len = object_hash.len_in_bytes();
    match one_recursive(data, hash_len) {
        Some((t, rest)) => {
            if rest.len() == 0 {
                Some(t)
            } else {
                None
            }
        },
        None => None,
    }
}

} // verus!
