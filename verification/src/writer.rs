//! The writer interface of the flush engine, the canonical wire encoding of
//! a tree, and an in-memory writer that derives identifiers with SHA-1.

use vstd::prelude::*;

use crate::oid::{bytes_eq, ObjectId};
use crate::tree::{emodels, entries_alike, no_null, tree_wf, Entry, EntryKind, EntryModel, Tree};

verus! {

/// The decimal digits of `n`, most significant first.
pub open spec fn dec_digits(n: nat) -> Seq<u8>
    decreases n,
{
    if n < 10 {
        seq![(48 + n) as u8]
    } else {
        dec_digits(n / 10).push((48 + n % 10) as u8)
    }
}

/// The octal mode string an entry kind is written as.
pub open spec fn mode_bytes(k: EntryKind) -> Seq<u8> {
    match k {
        EntryKind::Tree => seq![52u8, 48u8, 48u8, 48u8, 48u8],
        EntryKind::Blob => seq![49u8, 48u8, 48u8, 54u8, 52u8, 52u8],
        EntryKind::BlobExecutable => seq![49u8, 48u8, 48u8, 55u8, 53u8, 53u8],
        EntryKind::Link => seq![49u8, 50u8, 48u8, 48u8, 48u8, 48u8],
        EntryKind::Commit => seq![49u8, 54u8, 48u8, 48u8, 48u8, 48u8],
    }
}

/// One entry on the wire: `<octal mode> SP <filename> NUL <raw id bytes>`.
pub open spec fn encode_entry(e: EntryModel) -> Seq<u8> {
    mode_bytes(e.mode) + seq![32u8] + e.name + seq![0u8] + e.oid
}

pub open spec fn encode_pre(s: Seq<EntryModel>, i: int) -> Seq<u8>
    decreases i,
{
    if i <= 0 {
        Seq::empty()
    } else {
        encode_pre(s, i - 1) + encode_entry(s[i - 1])
    }
}

/// A tree body on the wire: its entries, encoded in order.
pub open spec fn encode_tree(s: Seq<EntryModel>) -> Seq<u8> {
    encode_pre(s, s.len() as int)
}

/// The loose-object frame: `"tree" SP <decimal byte length> NUL <body>`.
pub open spec fn loose_obj(body: Seq<u8>) -> Seq<u8> {
    seq![116u8, 114u8, 101u8, 101u8, 32u8] + dec_digits(body.len()) + seq![0u8] + body
}

/// The SHA-1 digest of a byte string; a function of the bytes alone.
pub uninterp spec fn sha1_of(data: Seq<u8>) -> Seq<u8>;

/// Relies on sha1_smol::Sha1: the 20-byte digest depends on the input bytes
/// alone.
#[verifier::external_body]
fn sha1_digest(data: &Vec<u8>) -> (r: Vec<u8>)
    ensures
        r@ == sha1_of(data@),
        r@.len() == 20,
{
    let mut h = sha1_smol::Sha1::new();
    h.update(data.as_slice());
    h.digest().bytes().to_vec()
}

/// Appends the bytes of `src`.
pub fn append_bytes(out: &mut Vec<u8>, src: &Vec<u8>)
    ensures
        final(out)@ == old(out)@ + src@,
{
    let ghost start = out@;
    let mut i: usize = 0;
    while i < src.len()
        invariant
            i <= src@.len(),
            out@ =~= start + src@.take(i as int),
        decreases src@.len() - i,
    {
        out.push(src[i]);
        proof {
            assert(src@.take(i + 1) =~= src@.take(i as int).push(src@[i as int]));
        }
        i += 1;
    }
    proof {
        assert(src@.take(src@.len() as int) =~= src@);
    }
}

/// Appends the decimal digits of `n`.
fn push_decimal(out: &mut Vec<u8>, n: u64)
    ensures
        final(out)@ == old(out)@ + dec_digits(n as nat),
    decreases n,
{
    if n < 10 {
        out.push(48 + (n as u8));
        proof {
            assert(old(out)@.push((48 + n) as u8) =~= old(out)@ + dec_digits(n as nat));
        }
    } else {
        push_decimal(out, n / 10);
        out.push(48 + ((n % 10) as u8));
        proof {
            assert(out@ =~= old(out)@ + dec_digits(n as nat));
        }
    }
}

/// Appends the octal mode string of `k`.
fn push_mode(out: &mut Vec<u8>, k: EntryKind)
    ensures
        final(out)@ == old(out)@ + mode_bytes(k),
{
    match k {
        EntryKind::Tree => {
            out.push(52);
            out.push(48);
            out.push(48);
            out.push(48);
            out.push(48);
        },
        EntryKind::Blob => {
            out.push(49);
            out.push(48);
            out.push(48);
            out.push(54);
            out.push(52);
            out.push(52);
        },
        EntryKind::BlobExecutable => {
            out.push(49);
            out.push(48);
            out.push(48);
            out.push(55);
            out.push(53);
            out.push(53);
        },
        EntryKind::Link => {
            out.push(49);
            out.push(50);
            out.push(48);
            out.push(48);
            out.push(48);
            out.push(48);
        },
        EntryKind::Commit => {
            out.push(49);
            out.push(54);
            out.push(48);
            out.push(48);
            out.push(48);
            out.push(48);
        },
    }
    proof {
        assert(out@ =~= old(out)@ + mode_bytes(k));
    }
}

/// The canonical body of a tree, per the wire encoding.
pub fn encode_tree_bytes(t: &Tree) -> (r: Vec<u8>)
    ensures
        r@ == encode_tree(emodels(t.entries@)),
{
    let mut out: Vec<u8> = Vec::new();
    let mut i: usize = 0;
    while i < t.entries.len()
        invariant
            i <= t.entries@.len(),
            out@ == encode_pre(emodels(t.entries@), i as int),
        decreases t.entries@.len() - i,
    {
        let ghost prev = out@;
        let e = &t.entries[i];
        push_mode(&mut out, e.mode);
        out.push(32);
        append_bytes(&mut out, &e.filename);
        out.push(0);
        append_bytes(&mut out, &e.oid.bytes);
        proof {
            assert(out@ =~= prev + encode_entry(emodels(t.entries@)[i as int]));
        }
        i += 1;
    }
    out
}

/// An error of the external writer. The editor never produces one itself;
/// it only passes the writer's refusal through.
#[derive(Debug)]
pub struct WriterError;

/// What the flush engine writes changed trees through.
///
/// An implementation assigns every tree an identifier that is a function of
/// the tree's canonical content alone: handing equal trees to the writer
/// yields equal identifiers. Nothing more is assumed of it.
pub trait TreeWriter {
    /// The identifier this writer assigns to a canonical tree content.
    spec fn id_spec(t: Seq<EntryModel>) -> Seq<u8>;

    /// Whether this writer accepts every tree: an infallible writer
    /// promises `Ok` on each call, so a flush through it cannot fail.
    spec fn infallible() -> bool;

    /// The contents of every tree successfully written so far, in call
    /// order; it counts and records the calls the flush makes.
    spec fn log(&self) -> Seq<Seq<EntryModel>>;

    /// Writes one tree and returns its identifier. The flush engine only
    /// hands over sorted trees whose null placeholders have been purged.
    fn write_tree(&mut self, tree: &Tree) -> (r: Result<ObjectId, WriterError>)
        requires
            tree_wf(tree.entries@),
            no_null(tree.entries@),
        ensures
            r matches Ok(id) ==> id.wf() && id.bytes@ == Self::id_spec(emodels(tree.entries@))
                && final(self).log() == old(self).log().push(emodels(tree.entries@)),
            r is Err ==> final(self).log() == old(self).log(),
            Self::infallible() ==> r is Ok,
    ;
}

/// A writer that keeps every written tree in memory, keyed by its
/// identifier: the SHA-1 of the loose-object framing of the tree's wire
/// encoding.
pub struct MemoryWriter {
    pub storage: Vec<(ObjectId, Tree)>,
    pub hist: Ghost<Seq<Seq<EntryModel>>>,
}

impl MemoryWriter {
    pub fn new() -> (r: MemoryWriter)
        ensures
            r.storage@.len() == 0,
            r.hist@ == Seq::<Seq<EntryModel>>::empty(),
    {
        MemoryWriter { storage: Vec::new(), hist: Ghost(Seq::empty()) }
    }

    /// How many distinct identifiers have been written.
    pub fn len(&self) -> (r: usize)
        ensures
            r == self.storage@.len(),
    {
        self.storage.len()
    }

    /// The stored tree written under `id`, if any.
    pub fn find_tree(&self, id: &ObjectId) -> (r: Option<&Tree>)
        ensures
            match r {
                Some(t) => exists|i: int|
                    0 <= i < self.storage@.len() && (#[trigger] self.storage@[i]).0.bytes@
                        == id.bytes@ && *t == self.storage@[i].1,
                None => forall|i: int|
                    0 <= i < self.storage@.len() ==> (#[trigger] self.storage@[i]).0.bytes@
                        != id.bytes@,
            },
    {
        let mut i: usize = 0;
        while i < self.storage.len()
            invariant
                i <= self.storage@.len(),
                forall|j: int|
                    0 <= j < i ==> (#[trigger] self.storage@[j]).0.bytes@ != id.bytes@,
            decreases self.storage@.len() - i,
        {
            if bytes_eq(&self.storage[i].0.bytes, &id.bytes) {
                return Some(&self.storage[i].1);
            }
            i += 1;
        }
        None
    }
}

impl TreeWriter for MemoryWriter {
    open spec fn id_spec(t: Seq<EntryModel>) -> Seq<u8> {
        sha1_of(loose_obj(encode_tree(t)))
    }

    open spec fn infallible() -> bool {
        true
    }

    open spec fn log(&self) -> Seq<Seq<EntryModel>> {
        self.hist@
    }

    #[verifier::loop_isolation(false)]
    fn write_tree(&mut self, tree: &Tree) -> (r: Result<ObjectId, WriterError>)
        ensures
            r is Ok,
            r matches Ok(id) ==> exists|i: int|
                0 <= i < final(self).storage@.len() && (#[trigger] final(self).storage@[i]).0.bytes@
                    == id.bytes@ && entries_alike(
                    final(self).storage@[i].1.entries@,
                    tree.entries@,
                ),
    {
        let body = encode_tree_bytes(tree);
        let mut obj: Vec<u8> = Vec::new();
        obj.push(116);
        obj.push(114);
        obj.push(101);
        obj.push(101);
        obj.push(32);
        proof {
            assert(obj@ =~= seq![116u8, 114u8, 101u8, 101u8, 32u8]);
        }
        push_decimal(&mut obj, body.len() as u64);
        obj.push(0);
        append_bytes(&mut obj, &body);
        proof {
            assert(obj@ =~= loose_obj(encode_tree(emodels(tree.entries@))));
        }
        let digest = sha1_digest(&obj);
        let id = ObjectId { bytes: digest };
        self.hist = Ghost(self.hist@.push(emodels(tree.entries@)));
        let ghost hist1 = self.hist@;
        // overwrite an identifier that was already written: identical
        // content yields identical identifiers, so distinct keys stay
        // distinct
        let mut i: usize = 0;
        while i < self.storage.len()
            invariant
                i <= self.storage@.len(),
                id.wf(),
                id.bytes@ == sha1_of(loose_obj(encode_tree(emodels(tree.entries@)))),
                self.hist@ == hist1,
            decreases self.storage@.len() - i,
        {
            if bytes_eq(&self.storage[i].0.bytes, &id.bytes) {
                let _ = self.storage.remove(i);
                let pid = id.duplicate();
                let ptree = tree.duplicate();
                let ghost pair = (pid, ptree);
                let ghost mid_s = self.storage@;
                self.storage.insert(i, (pid, ptree));
                proof {
                    mid_s.insert_ensures(i as int, pair);
                    assert(self.storage@[i as int] == pair);
                    assert(entries_alike(pair.1.entries@, tree.entries@));
                }
                return Ok(id);
            }
            i += 1;
        }
        let pid = id.duplicate();
        let ptree = tree.duplicate();
        let ghost pair = (pid, ptree);
        let ghost pre_s = self.storage@;
        self.storage.push((pid, ptree));
        proof {
            assert(self.storage@[pre_s.len() as int] == pair);
            assert(entries_alike(pair.1.entries@, tree.entries@));
        }
        Ok(id)
    }
}

} // verus!
