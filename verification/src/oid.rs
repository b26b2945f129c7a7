//! Fixed-width content-addressed object identifiers.

use vstd::prelude::*;

verus! {

/// The width in bytes of an identifier.
pub const OID_LEN: usize = 20;

/// A content-addressed identifier of an object: a fixed-width byte string.
/// The all-zero value is the distinguished null identifier, used as a
/// placeholder for content that is not known yet.
#[derive(PartialEq, Eq, Debug)]
pub struct ObjectId {
    pub bytes: Vec<u8>,
}

/// All bytes zero: the placeholder identifier.
pub open spec fn oid_null(b: Seq<u8>) -> bool {
    forall|i: int| 0 <= i < b.len() ==> b[i] == 0u8
}

impl ObjectId {
    /// A well-formed identifier has exactly the fixed width.
    pub open spec fn wf(self) -> bool {
        self.bytes@.len() == OID_LEN
    }

    pub open spec fn is_null_spec(self) -> bool {
        oid_null(self.bytes@)
    }

    /// The null (all-zero) identifier.
    pub fn null() -> (r: ObjectId)
        ensures
            r.wf(),
            r.is_null_spec(),
    {
        let mut bytes: Vec<u8> = Vec::new();
        let mut i: usize = 0;
        while i < OID_LEN
            invariant
                i <= OID_LEN,
                bytes@.len() == i,
                oid_null(bytes@),
            decreases OID_LEN - i,
        {
            bytes.push(0u8);
            i += 1;
        }
        ObjectId { bytes }
    }

    pub fn is_null(&self) -> (r: bool)
        ensures
            r == self.is_null_spec(),
    {
        let mut i: usize = 0;
        while i < self.bytes.len()
            invariant
                i <= self.bytes@.len(),
                forall|j: int| 0 <= j < i ==> self.bytes@[j] == 0u8,
            decreases self.bytes@.len() - i,
        {
            if self.bytes[i] != 0u8 {
                return false;
            }
            i += 1;
        }
        true
    }

    /// An owned copy with the same bytes.
    pub fn duplicate(&self) -> (r: ObjectId)
        ensures
            r.bytes@ == self.bytes@,
    {
        ObjectId { bytes: copy_bytes(&self.bytes) }
    }
}

/// An owned copy of a byte string.
pub fn copy_bytes(v: &Vec<u8>) -> (r: Vec<u8>)
    ensures
        r@ == v@,
{
    let mut r: Vec<u8> = Vec::new();
    let mut i: usize = 0;
    while i < v.len()
        invariant
            i <= v@.len(),
            r@ =~= v@.take(i as int),
        decreases v@.len() - i,
    {
        r.push(v[i]);
        i += 1;
    }
    proof {
        assert(v@.take(v@.len() as int) =~= v@);
    }
    r
}

/// Whether two byte strings hold the same bytes.
pub fn bytes_eq(a: &Vec<u8>, b: &Vec<u8>) -> (r: bool)
    ensures
        r == (a@ == b@),
{
    if a.len() != b.len() {
        proof {
            assert(a@ != b@);
        }
        return false;
    }
    let mut i: usize = 0;
    while i < a.len()
        invariant
            i <= a@.len(),
            a@.len() == b@.len(),
            forall|j: int| 0 <= j < i ==> a@[j] == b@[j],
        decreases a@.len() - i,
    {
        if a[i] != b[i] {
            proof {
                assert(a@[i as int] != b@[i as int]);
            }
            return false;
        }
        i += 1;
    }
    proof {
        assert(a@ =~= b@);
    }
    true
}

} // verus!
