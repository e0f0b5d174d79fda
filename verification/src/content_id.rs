//! Content identifiers, held as their binary encoding.

use vstd::prelude::*;

verus! {

/// A content identifier, held as its binary form (version, codec, multihash).
#[derive(Clone, Debug, PartialEq, Eq)]
pub struct Cid {
    pub bytes: Vec<u8>,
}

impl View for Cid {
    type V = Seq<u8>;

    open spec fn view(&self) -> Seq<u8> {
        self.bytes@
    }
}

impl Cid {
    /// A copy of this CID.
    pub fn copied(&self) -> (r: Cid)
        ensures
            r@ == self@,
    {
        let mut bytes: Vec<u8> = Vec::new();
        let mut i: usize = 0;
        while i < self.bytes.len()
            invariant
                i <= self@.len(),
                bytes@ == self@.take(i as int),
            decreases self@.len() - i,
        {
            bytes.push(self.bytes[i]);
            assert(self@.take(i + 1) =~= self@.take(i as int).push(self@[i as int]));
            i = i + 1;
        }
        assert(self@.take(self@.len() as int) =~= self@);
        Cid { bytes }
    }
}

/// What `cid::Cid::try_from(&[u8])` followed by `to_bytes` gives for these
/// bytes: `None` where they do not begin with a valid CID, else the binary form
/// of the CID read from their front.
pub uninterp spec fn cid_canonical_bytes(raw: Seq<u8>) -> Option<Seq<u8>>;

/// Bytes that are the canonical binary form of a CID.
pub open spec fn is_canonical_cid(bytes: Seq<u8>) -> bool {
    cid_canonical_bytes(bytes) == Some(bytes)
}

/// Reads a CID from the front of `raw` with `cid::Cid::try_from(&[u8])` and
/// writes it back with `to_bytes`. The contract names the result and claims
/// nothing more of it.
#[verifier::external_body]
pub(crate) fn read_cid(raw: &[u8]) -> (r: Option<Vec<u8>>)
    ensures
        match r {
            None => cid_canonical_bytes(raw@) is None,
            Some(b) => cid_canonical_bytes(raw@) == Some(b@),
        },
{
    match cid::Cid::try_from(raw) {
        Ok(c) => Some(c.to_bytes()),
        Err(_) => None,
    }
}

/// Whether the CID's bytes are the canonical binary form of a CID: they begin
/// with a valid CID, and writing that CID back gives exactly these bytes.
pub fn cid_is_canonical(c: &Cid) -> (r: bool)
    ensures
        r == is_canonical_cid(c@),
{
    match read_cid(c.bytes.as_slice()) {
        None => false,
        Some(bytes) => cid_eq(&Cid { bytes }, c),
    }
}

/// Whether two CIDs have the same binary form.
pub fn cid_eq(a: &Cid, b: &Cid) -> (r: bool)
    ensures
        r == (a@ == b@),
{
    let n = a.bytes.len();
    if n != b.bytes.len() {
        return false;
    }
    let mut i: usize = 0;
    while i < n
        invariant
            n == a@.len(),
            n == b@.len(),
            i <= n,
            forall|j: int| 0 <= j < i ==> a@[j] == b@[j],
        decreases n - i,
    {
        if a.bytes[i] != b.bytes[i] {
            return false;
        }
        i = i + 1;
    }
    assert(a@ =~= b@);
    true
}

/// Whether `list` holds a CID with the same binary form as `c`.
pub fn contains_cid(list: &Vec<Cid>, c: &Cid) -> (r: bool)
    ensures
        r == exists|j: int| 0 <= j < list@.len() && #[trigger] list@[j]@ == c@,
{
    let mut i: usize = 0;
    while i < list.len()
        invariant
            i <= list@.len(),
            forall|j: int| 0 <= j < i ==> #[trigger] list@[j]@ != c@,
        decreases list@.len() - i,
    {
        if cid_eq(&list[i], c) {
            return true;
        }
        i = i + 1;
    }
    false
}

} // verus!
