//! State-tree versions, state roots, and their encoding as CBOR.
//!
//! A state root is written as an array of three items: the version as an
//! unsigned integer, then the actors CID and the info CID, each a byte string
//! under tag 42 whose first byte is zero.

use vstd::prelude::*;
use crate::cbor::{parse_head, encode_head, read_head, write_head, parse_byte_string, read_byte_string, INDEFINITE_ARRAY, BREAK, lemma_parse_encode_head, lemma_encode_head_len};
use crate::content_id::{Cid, cid_canonical_bytes, read_cid, is_canonical_cid};

verus! {

/// Version of the state tree.
#[derive(PartialEq, Eq, Structural, Clone, Copy, Debug, PartialOrd, Ord, Hash)]
pub enum StateTreeVersion {
    /// Corresponds to actors < v2
    V0,
    /// Corresponds to actors = v2
    V1,
    /// Corresponds to actors = v3
    V2,
    /// Corresponds to actors = v4
    V3,
    /// Corresponds to actors = v5
    V4,
}

impl StateTreeVersion {
    /// The number that stands for this version on the wire.
    pub open spec fn number(self) -> nat {
        match self {
            StateTreeVersion::V0 => 0,
            StateTreeVersion::V1 => 1,
            StateTreeVersion::V2 => 2,
            StateTreeVersion::V3 => 3,
            StateTreeVersion::V4 => 4,
        }
    }

    /// The version that `n` stands for, if any.
    pub open spec fn from_number(n: nat) -> Option<StateTreeVersion> {
        if n == 0 {
            Some(StateTreeVersion::V0)
        } else if n == 1 {
            Some(StateTreeVersion::V1)
        } else if n == 2 {
            Some(StateTreeVersion::V2)
        } else if n == 3 {
            Some(StateTreeVersion::V3)
        } else if n == 4 {
            Some(StateTreeVersion::V4)
        } else {
            None
        }
    }

    /// The number that stands for this version on the wire.
    pub fn to_u64(&self) -> (r: u64)
        ensures
            r == self.number(),
    {
        match self {
            StateTreeVersion::V0 => 0,
            StateTreeVersion::V1 => 1,
            StateTreeVersion::V2 => 2,
            StateTreeVersion::V3 => 3,
            StateTreeVersion::V4 => 4,
        }
    }

    /// The version that `n` stands for; `None` for a number above 4.
    pub fn from_u64(n: u64) -> (r: Option<StateTreeVersion>)
        ensures
            r == StateTreeVersion::from_number(n as nat),
    {
        if n == 0 {
            Some(StateTreeVersion::V0)
        } else if n == 1 {
            Some(StateTreeVersion::V1)
        } else if n == 2 {
            Some(StateTreeVersion::V2)
        } else if n == 3 {
            Some(StateTreeVersion::V3)
        } else if n == 4 {
            Some(StateTreeVersion::V4)
        } else {
            None
        }
    }
}

/// State root information: the version of the state tree, the root of the
/// actors tree, and a link to the information about the tree.
#[derive(Clone, Debug, PartialEq, Eq)]
pub struct StateRoot {
    /// State tree version
    pub version: StateTreeVersion,
    /// Actors tree. The structure depends on the state root version.
    pub actors: Cid,
    /// Info. The structure depends on the state root version.
    pub info: Cid,
}

/// Empty state tree information, written as an empty array.
#[derive(Clone, Copy, Debug, PartialEq, Eq, Structural, Default)]
pub struct StateInfo0 {}

/// Why bytes are not an encoded state root (or state info).
#[derive(PartialEq, Eq, Structural, Clone, Copy, Debug)]
pub enum DecodeError {
    /// The bytes do not have the expected shape.
    Malformed,
    /// The version is a number above 4.
    UnknownVersion,
    /// A CID's bytes do not begin with a valid CID.
    InvalidCid,
    /// Bytes follow the encoded value.
    TrailingBytes,
}

/// The CBOR tag of a CID.
pub const CID_TAG: u64 = 42;

/// The CID written at `pos`: the bytes after its leading zero, and the position
/// right after it. `None` where the shape is wrong. The byte string may have
/// definite or indefinite length.
pub open spec fn parse_cid_item(s: Seq<u8>, pos: int) -> Option<(Seq<u8>, int)> {
    match parse_head(s, pos) {
        Some((m1, tag, p1)) => if m1 == 6 && tag == 42 {
            match parse_byte_string(s, p1) {
                Some((body, p2)) => if 1 <= body.len() && body[0] == 0 {
                    Some((body.skip(1), p2))
                } else {
                    None
                },
                None => None,
            }
        } else {
            None
        },
        None => None,
    }
}

/// A CID read at `pos` and checked: its binary form and the position after it.
pub open spec fn decode_cid_item(s: Seq<u8>, pos: int) -> Result<(Seq<u8>, int), DecodeError> {
    match parse_cid_item(s, pos) {
        None => Err(DecodeError::Malformed),
        Some((raw, p)) => match cid_canonical_bytes(raw) {
            None => Err(DecodeError::InvalidCid),
            Some(c) => Ok((c, p)),
        },
    }
}

/// Where the array of a state root opens: whether it has indefinite length,
/// and the position of its first item. `None` where the bytes do not open an
/// array of three items.
pub open spec fn parse_array_of_three(s: Seq<u8>) -> Option<(bool, int)> {
    if s.len() > 0 && s[0] == INDEFINITE_ARRAY {
        Some((true, 1))
    } else {
        match parse_head(s, 0) {
            Some((m, len, p)) => if m == 4 && len == 3 {
                Some((false, p))
            } else {
                None
            },
            None => None,
        }
    }
}

/// How an array that ends at `pos` is closed: an array of indefinite length
/// needs a break there, and nothing may follow the array.
pub open spec fn close_array(s: Seq<u8>, indefinite: bool, pos: int) -> Result<(), DecodeError> {
    if indefinite {
        if 0 <= pos < s.len() && s[pos] == BREAK {
            if pos + 1 == s.len() {
                Ok(())
            } else {
                Err(DecodeError::TrailingBytes)
            }
        } else {
            Err(DecodeError::Malformed)
        }
    } else if pos == s.len() {
        Ok(())
    } else {
        Err(DecodeError::TrailingBytes)
    }
}

/// What decoding `s` as a state root gives: the version and the binary forms
/// of the actors and info CIDs, or the first error met. The array, and the
/// byte strings of the CIDs, may have definite or indefinite length.
pub open spec fn decode_state_root_spec(s: Seq<u8>) -> Result<
    (StateTreeVersion, Seq<u8>, Seq<u8>),
    DecodeError,
> {
    match parse_array_of_three(s) {
        Some((indefinite, p0)) => match parse_head(s, p0) {
            Some((m1, v, p1)) => if m1 != 0 {
                Err(DecodeError::Malformed)
            } else {
                match StateTreeVersion::from_number(v) {
                    None => Err(DecodeError::UnknownVersion),
                    Some(version) => match decode_cid_item(s, p1) {
                        Err(e) => Err(e),
                        Ok((actors, p2)) => match decode_cid_item(s, p2) {
                            Err(e) => Err(e),
                            Ok((info, p3)) => match close_array(s, indefinite, p3) {
                                Err(e) => Err(e),
                                Ok(_) => Ok((version, actors, info)),
                            },
                        },
                    },
                }
            },
            None => Err(DecodeError::Malformed),
        },
        None => Err(DecodeError::Malformed),
    }
}

/// How a CID is written: tag 42, then a byte string of a zero byte and the
/// CID's binary form.
pub open spec fn cid_item_bytes(c: Seq<u8>) -> Seq<u8> {
    encode_head(6, 42) + encode_head(2, c.len() + 1) + seq![0u8] + c
}

/// How a state root is written.
pub open spec fn state_root_bytes(version: StateTreeVersion, actors: Seq<u8>, info: Seq<u8>) -> Seq<u8> {
    encode_head(4, 3) + encode_head(0, version.number()) + cid_item_bytes(actors) + cid_item_bytes(
        info,
    )
}

fn read_cid_item(s: &[u8], pos: usize) -> (r: Result<(Cid, usize), DecodeError>)
    ensures
        match (r, decode_cid_item(s@, pos as int)) {
            (Ok((c, p)), Ok((c2, p2))) => c@ == c2 && p as int == p2,
            (Err(e), Err(e2)) => e == e2,
            _ => false,
        },
{
    let (m1, tag, p1) = match read_head(s, pos) {
        Some(h) => h,
        None => return Err(DecodeError::Malformed),
    };
    if m1 != 6 || tag != CID_TAG {
        return Err(DecodeError::Malformed);
    }
    let (body, p2) = match read_byte_string(s, p1) {
        Some(b) => b,
        None => return Err(DecodeError::Malformed),
    };
    if body.len() < 1 || body[0] != 0 {
        return Err(DecodeError::Malformed);
    }
    let raw = slice_range(body.as_slice(), 1, body.len());
    assert(raw@ == body@.skip(1));
    match read_cid(raw) {
        None => Err(DecodeError::InvalidCid),
        Some(bytes) => Ok((Cid { bytes }, p2)),
    }
}

/// `s[start..end]`.
fn slice_range(s: &[u8], start: usize, end: usize) -> (r: &[u8])
    requires
        start <= end <= s@.len(),
    ensures
        r@ == s@.subrange(start as int, end as int),
{
    let (front, _) = s.split_at(end);
    let (_, back) = front.split_at(start);
    back
}

fn read_array_of_three(s: &[u8]) -> (r: Option<(bool, usize)>)
    ensures
        parse_array_of_three(s@) == match r {
            None => None,
            Some((b, p)) => Some((b, p as int)),
        },
{
    if s.len() > 0 && s[0] == INDEFINITE_ARRAY {
        return Some((true, 1));
    }
    match read_head(s, 0) {
        Some((m, len, p)) => if m == 4 && len == 3 {
            Some((false, p))
        } else {
            None
        },
        None => None,
    }
}

fn read_close_array(s: &[u8], indefinite: bool, pos: usize) -> (r: Result<(), DecodeError>)
    ensures
        r == close_array(s@, indefinite, pos as int),
{
    if indefinite {
        if pos < s.len() && s[pos] == BREAK {
            if pos + 1 == s.len() {
                Ok(())
            } else {
                Err(DecodeError::TrailingBytes)
            }
        } else {
            Err(DecodeError::Malformed)
        }
    } else if pos == s.len() {
        Ok(())
    } else {
        Err(DecodeError::TrailingBytes)
    }
}

/// Decodes a state root from its CBOR encoding.
pub fn decode_state_root(s: &[u8]) -> (r: Result<StateRoot, DecodeError>)
    ensures
        match (r, decode_state_root_spec(s@)) {
            (Ok(root), Ok((version, actors, info))) => root.version == version && root.actors@
                == actors && root.info@ == info,
            (Err(e), Err(e2)) => e == e2,
            _ => false,
        },
{
    let (indefinite, p0) = match read_array_of_three(s) {
        Some(a) => a,
        None => return Err(DecodeError::Malformed),
    };
    let (m1, v, p1) = match read_head(s, p0) {
        Some(h) => h,
        None => return Err(DecodeError::Malformed),
    };
    if m1 != 0 {
        return Err(DecodeError::Malformed);
    }
    let version = match StateTreeVersion::from_u64(v) {
        Some(version) => version,
        None => return Err(DecodeError::UnknownVersion),
    };
    let (actors, p2) = match read_cid_item(s, p1) {
        Ok(x) => x,
        Err(e) => return Err(e),
    };
    let (info, p3) = match read_cid_item(s, p2) {
        Ok(x) => x,
        Err(e) => return Err(e),
    };
    match read_close_array(s, indefinite, p3) {
        Err(e) => Err(e),
        Ok(_) => Ok(StateRoot { version, actors, info }),
    }
}

fn write_cid_item(out: &mut Vec<u8>, c: &Cid)
    requires
        c@.len() + 1 < 0x1_0000_0000_0000_0000,
    ensures
        final(out)@ == old(out)@ + cid_item_bytes(c@),
{
    let ghost before = out@;
    write_head(out, 6, CID_TAG);
    write_head(out, 2, (c.bytes.len() as u64) + 1);
    out.push(0u8);
    let mut i: usize = 0;
    let ghost mid = out@;
    while i < c.bytes.len()
        invariant
            i <= c@.len(),
            out@ == mid + c@.take(i as int),
        decreases c@.len() - i,
    {
        out.push(c.bytes[i]);
        assert(c@.take(i + 1) =~= c@.take(i as int).push(c@[i as int]));
        i = i + 1;
    }
    assert(c@.take(c@.len() as int) =~= c@);
    assert(out@ =~= before + cid_item_bytes(c@));
}

/// Encodes a state root as CBOR, each head in its shortest form.
pub fn encode_state_root(root: &StateRoot) -> (r: Vec<u8>)
    requires
        root.actors@.len() + 1 < 0x1_0000_0000_0000_0000,
        root.info@.len() + 1 < 0x1_0000_0000_0000_0000,
    ensures
        r@ == state_root_bytes(root.version, root.actors@, root.info@),
{
    let mut out: Vec<u8> = Vec::new();
    write_head(&mut out, 4, 3);
    write_head(&mut out, 0, root.version.to_u64());
    write_cid_item(&mut out, &root.actors);
    write_cid_item(&mut out, &root.info);
    assert(out@ =~= state_root_bytes(root.version, root.actors@, root.info@));
    out
}

/// What decoding `s` as state info gives: an empty array, of definite or
/// indefinite length, and nothing after it.
pub open spec fn decode_state_info0_spec(s: Seq<u8>) -> Result<StateInfo0, DecodeError> {
    if s.len() > 0 && s[0] == INDEFINITE_ARRAY {
        match close_array(s, true, 1) {
            Ok(_) => Ok(StateInfo0 {  }),
            Err(e) => Err(e),
        }
    } else {
        match parse_head(s, 0) {
            Some((m, n, p)) => if m == 4 && n == 0 {
                match close_array(s, false, p) {
                    Ok(_) => Ok(StateInfo0 {  }),
                    Err(e) => Err(e),
                }
            } else {
                Err(DecodeError::Malformed)
            },
            None => Err(DecodeError::Malformed),
        }
    }
}

impl StateInfo0 {
    /// Encodes state info as CBOR: an empty array.
    pub fn encode(&self) -> (r: Vec<u8>)
        ensures
            r@ == encode_head(4, 0),
    {
        let mut out: Vec<u8> = Vec::new();
        write_head(&mut out, 4, 0);
        assert(out@ =~= encode_head(4, 0));
        out
    }

    /// Decodes state info from CBOR.
    pub fn decode(s: &[u8]) -> (r: Result<StateInfo0, DecodeError>)
        ensures
            r == decode_state_info0_spec(s@),
    {
        if s.len() > 0 && s[0] == INDEFINITE_ARRAY {
            return match read_close_array(s, true, 1) {
                Ok(_) => Ok(StateInfo0 {  }),
                Err(e) => Err(e),
            };
        }
        match read_head(s, 0) {
            Some((m, n, p)) => if m == 4 && n == 0 {
                match read_close_array(s, false, p) {
                    Ok(_) => Ok(StateInfo0 {  }),
                    Err(e) => Err(e),
                }
            } else {
                Err(DecodeError::Malformed)
            },
            None => Err(DecodeError::Malformed),
        }
    }
}


proof fn lemma_middle(a: Seq<u8>, x: Seq<u8>, b: Seq<u8>)
    ensures
        (a + x + b).subrange(a.len() as int, (a.len() + x.len()) as int) == x,
{
    assert((a + x + b).subrange(a.len() as int, (a.len() + x.len()) as int) =~= x);
}

proof fn lemma_cid_item_at(s: Seq<u8>, pos: int, c: Seq<u8>)
    requires
        0 <= pos,
        c.len() + 1 < 0x1_0000_0000_0000_0000,
        pos + cid_item_bytes(c).len() <= s.len(),
        s.subrange(pos, pos + cid_item_bytes(c).len()) == cid_item_bytes(c),
    ensures
        parse_cid_item(s, pos) == Some((c, pos + cid_item_bytes(c).len())),
{
    let h1 = encode_head(6, 42);
    let h2 = encode_head(2, c.len() + 1);
    let item = cid_item_bytes(c);
    lemma_encode_head_len(6, 42);
    lemma_encode_head_len(2, c.len() + 1);
    assert(item == h1 + (h2 + (seq![0u8] + c))) by {
        assert(item =~= h1 + (h2 + (seq![0u8] + c)));
    }
    let sub = s.subrange(pos, pos + item.len());
    assert(s.subrange(pos, pos + h1.len()) =~= h1) by {
        assert forall|i: int| 0 <= i < h1.len() implies s.subrange(pos, pos + h1.len())[i] == h1[i] by {
            assert(sub[i] == item[i]);
        }
    }
    lemma_parse_encode_head(s, pos, 6, 42);
    let p1 = pos + h1.len();
    assert(s.subrange(p1, p1 + h2.len()) =~= h2) by {
        assert forall|i: int| 0 <= i < h2.len() implies s.subrange(p1, p1 + h2.len())[i] == h2[i] by {
            assert(sub[h1.len() + i] == item[h1.len() + i]);
        }
    }
    lemma_parse_encode_head(s, p1, 2, c.len() + 1);
    let p2 = p1 + h2.len();
    assert(sub[(h1.len() + h2.len()) as int] == item[(h1.len() + h2.len()) as int]);
    assert(s[p2] == 0);
    assert(s.subrange(p2 + 1, p2 + c.len() + 1) =~= c) by {
        assert forall|i: int| 0 <= i < c.len() implies s.subrange(p2 + 1, p2 + c.len() + 1)[i] == c[i] by {
            assert(sub[h1.len() + h2.len() + 1 + i] == item[h1.len() + h2.len() + 1 + i]);
        }
    }
}

/// The items of a state root, written from position `pre.len()` on, read back.
proof fn lemma_items_at(
    pre: Seq<u8>,
    post: Seq<u8>,
    version: StateTreeVersion,
    actors: Seq<u8>,
    info: Seq<u8>,
)
    requires
        is_canonical_cid(actors),
        is_canonical_cid(info),
        actors.len() + 1 < 0x1_0000_0000_0000_0000,
        info.len() + 1 < 0x1_0000_0000_0000_0000,
    ensures
        ({
            let h1 = encode_head(0, version.number());
            let ca = cid_item_bytes(actors);
            let ci = cid_item_bytes(info);
            let s = pre + (h1 + ca + ci) + post;
            let p1 = pre.len() + h1.len();
            let p2 = p1 + ca.len();
            &&& parse_head(s, pre.len() as int) == Some((0nat, version.number(), p1 as int))
            &&& decode_cid_item(s, p1 as int) == Ok::<(Seq<u8>, int), DecodeError>((actors, p2 as int))
            &&& decode_cid_item(s, p2 as int) == Ok::<(Seq<u8>, int), DecodeError>((info, (p2 + ci.len()) as int))
        }),
{
    let h1 = encode_head(0, version.number());
    let ca = cid_item_bytes(actors);
    let ci = cid_item_bytes(info);
    let s = pre + (h1 + ca + ci) + post;
    lemma_encode_head_len(0, version.number());
    let p1: int = (pre.len() + h1.len()) as int;
    let p2: int = p1 + ca.len();
    lemma_regroup(pre, h1, ca, ci, post);
    lemma_head_in(pre, 0, version.number(), ca + ci + post);
    lemma_cid_item_in(pre + h1, actors, ci + post);
    lemma_cid_item_in(pre + h1 + ca, info, post);
}

proof fn lemma_regroup(pre: Seq<u8>, a: Seq<u8>, b: Seq<u8>, c: Seq<u8>, post: Seq<u8>)
    ensures
        pre + (a + b + c) + post == pre + a + (b + c + post),
        pre + (a + b + c) + post == (pre + a) + b + (c + post),
        pre + (a + b + c) + post == (pre + a + b) + c + post,
{
    assert(pre + (a + b + c) + post =~= pre + a + (b + c + post));
    assert(pre + (a + b + c) + post =~= (pre + a) + b + (c + post));
    assert(pre + (a + b + c) + post =~= (pre + a + b) + c + post);
}

proof fn lemma_head_in(pre: Seq<u8>, major: nat, v: nat, post: Seq<u8>)
    requires
        major < 8,
        v < 0x1_0000_0000_0000_0000,
    ensures
        parse_head(pre + encode_head(major, v) + post, pre.len() as int) == Some(
            (major, v, (pre.len() + encode_head(major, v).len()) as int),
        ),
{
    lemma_middle(pre, encode_head(major, v), post);
    lemma_parse_encode_head(pre + encode_head(major, v) + post, pre.len() as int, major, v);
}

proof fn lemma_cid_item_in(pre: Seq<u8>, c: Seq<u8>, post: Seq<u8>)
    requires
        c.len() + 1 < 0x1_0000_0000_0000_0000,
    ensures
        parse_cid_item(pre + cid_item_bytes(c) + post, pre.len() as int) == Some(
            (c, (pre.len() + cid_item_bytes(c).len()) as int),
        ),
{
    lemma_middle(pre, cid_item_bytes(c), post);
    lemma_cid_item_at(pre + cid_item_bytes(c) + post, pre.len() as int, c);
}

/// The header of a definite-length array of three items, then `rest`.
proof fn lemma_array_head(rest: Seq<u8>)
    ensures
        parse_array_of_three(encode_head(4, 3) + rest) == Some((false, 1int)),
{
    let h0 = encode_head(4, 3);
    lemma_encode_head_len(4, 3);
    lemma_middle(Seq::empty(), h0, rest);
    assert(Seq::<u8>::empty() + h0 + rest =~= h0 + rest);
    lemma_parse_encode_head(h0 + rest, 0, 4, 3);
    assert((h0 + rest)[0] == h0[0]);
}

/// Decoding what `encode_state_root` writes gives back the same state root,
/// when both CIDs are in their canonical binary form.
pub proof fn law_state_root_roundtrip(version: StateTreeVersion, actors: Seq<u8>, info: Seq<u8>)
    requires
        is_canonical_cid(actors),
        is_canonical_cid(info),
        actors.len() + 1 < 0x1_0000_0000_0000_0000,
        info.len() + 1 < 0x1_0000_0000_0000_0000,
    ensures
        decode_state_root_spec(state_root_bytes(version, actors, info)) == Ok::<
            (StateTreeVersion, Seq<u8>, Seq<u8>),
            DecodeError,
        >((version, actors, info)),
{
    let h0 = encode_head(4, 3);
    let body = encode_head(0, version.number()) + cid_item_bytes(actors) + cid_item_bytes(info);
    let s = state_root_bytes(version, actors, info);
    assert(s =~= h0 + body + Seq::<u8>::empty());
    lemma_items_at(h0, Seq::empty(), version, actors, info);
    lemma_array_head(body);
    assert(h0 + body =~= s);
    lemma_encode_head_len(4, 3);
    law_version_wire_numbers();
}

/// Bytes after an encoded state root make decoding fail with `TrailingBytes`.
pub proof fn law_state_root_trailing_bytes(
    version: StateTreeVersion,
    actors: Seq<u8>,
    info: Seq<u8>,
    extra: Seq<u8>,
)
    requires
        is_canonical_cid(actors),
        is_canonical_cid(info),
        actors.len() + 1 < 0x1_0000_0000_0000_0000,
        info.len() + 1 < 0x1_0000_0000_0000_0000,
        extra.len() > 0,
    ensures
        decode_state_root_spec(state_root_bytes(version, actors, info) + extra) == Err::<
            (StateTreeVersion, Seq<u8>, Seq<u8>),
            DecodeError,
        >(DecodeError::TrailingBytes),
{
    let h0 = encode_head(4, 3);
    let body = encode_head(0, version.number()) + cid_item_bytes(actors) + cid_item_bytes(info);
    let s = state_root_bytes(version, actors, info) + extra;
    lemma_state_root_bytes_split(version, actors, info);
    lemma_assoc(h0, body, extra);
    lemma_items_at(h0, extra, version, actors, info);
    lemma_array_head(body + extra);
    lemma_encode_head_len(4, 3);
    law_version_wire_numbers();
    assert(s.len() == h0.len() + body.len() + extra.len());
}

proof fn lemma_assoc(a: Seq<u8>, b: Seq<u8>, c: Seq<u8>)
    ensures
        a + (b + c) == a + b + c,
{
    assert(a + (b + c) =~= a + b + c);
}

proof fn lemma_state_root_bytes_split(version: StateTreeVersion, actors: Seq<u8>, info: Seq<u8>)
    ensures
        state_root_bytes(version, actors, info) == encode_head(4, 3) + (encode_head(0, version.number())
            + cid_item_bytes(actors) + cid_item_bytes(info)),
{
    assert(state_root_bytes(version, actors, info) =~= encode_head(4, 3) + (encode_head(
        0,
        version.number(),
    ) + cid_item_bytes(actors) + cid_item_bytes(info)));
}

/// A state root written as an array of indefinite length (opened by `0x9f`
/// and closed by a break) decodes to the same state root.
pub proof fn law_state_root_indefinite_array(version: StateTreeVersion, actors: Seq<u8>, info: Seq<u8>)
    requires
        is_canonical_cid(actors),
        is_canonical_cid(info),
        actors.len() + 1 < 0x1_0000_0000_0000_0000,
        info.len() + 1 < 0x1_0000_0000_0000_0000,
    ensures
        decode_state_root_spec(
            seq![0x9fu8] + encode_head(0, version.number()) + cid_item_bytes(actors) + cid_item_bytes(info)
                + seq![0xffu8],
        ) == Ok::<(StateTreeVersion, Seq<u8>, Seq<u8>), DecodeError>((version, actors, info)),
{
    let body = encode_head(0, version.number()) + cid_item_bytes(actors) + cid_item_bytes(info);
    let s = seq![0x9fu8] + encode_head(0, version.number()) + cid_item_bytes(actors) + cid_item_bytes(info)
        + seq![0xffu8];
    assert(s =~= seq![0x9fu8] + body + seq![0xffu8]);
    lemma_items_at(seq![0x9fu8], seq![0xffu8], version, actors, info);
    assert(s[0] == 0x9f);
    assert(s[s.len() - 1] == 0xff);
    law_version_wire_numbers();
}

/// An array of three items whose first item is a number above 4 fails to
/// decode with `UnknownVersion`, whatever follows.
pub proof fn law_state_root_unknown_version(n: nat, rest: Seq<u8>)
    requires
        5 <= n < 0x1_0000_0000_0000_0000,
    ensures
        decode_state_root_spec(encode_head(4, 3) + encode_head(0, n) + rest) == Err::<
            (StateTreeVersion, Seq<u8>, Seq<u8>),
            DecodeError,
        >(DecodeError::UnknownVersion),
{
    let h0 = encode_head(4, 3);
    let h1 = encode_head(0, n);
    let s = h0 + h1 + rest;
    lemma_encode_head_len(4, 3);
    lemma_encode_head_len(0, n);
    lemma_array_head(h1 + rest);
    assert(h0 + (h1 + rest) =~= s);
    lemma_middle(h0, h1, rest);
    lemma_parse_encode_head(s, h0.len() as int, 0, n);
    law_version_wire_numbers();
}

/// Decoding what `StateInfo0::encode` writes gives back state info.
pub proof fn law_state_info0_roundtrip()
    ensures
        decode_state_info0_spec(encode_head(4, 0)) == Ok::<StateInfo0, DecodeError>(StateInfo0 {  }),
{
    lemma_encode_head_len(4, 0);
    assert(encode_head(4, 0).subrange(0, 1) =~= encode_head(4, 0));
    lemma_parse_encode_head(encode_head(4, 0), 0, 4, 0);
}


/// Each version is read back from its number, and no two versions share one.
pub proof fn law_version_number_roundtrip(v: StateTreeVersion, w: StateTreeVersion)
    ensures
        StateTreeVersion::from_number(v.number()) == Some(v),
        v.number() == w.number() ==> v == w,
{
}


/// A version's number on the wire is its position in the enum, V0 first: the
/// numbers are 0 to 4, every number below 5 stands for the version at that
/// position, and no other number stands for a version.
pub proof fn law_version_wire_numbers()
    ensures
        StateTreeVersion::V0.number() == 0,
        StateTreeVersion::V1.number() == 1,
        StateTreeVersion::V2.number() == 2,
        StateTreeVersion::V3.number() == 3,
        StateTreeVersion::V4.number() == 4,
        forall|n: nat| n < 5 ==> #[trigger] StateTreeVersion::from_number(n) is Some
            && StateTreeVersion::from_number(n).unwrap().number() == n,
        forall|n: nat| n >= 5 ==> #[trigger] StateTreeVersion::from_number(n) is None,
{
}

/// An encoded state root opens with the header of an array of three items,
/// followed by the version's number as a one-byte unsigned integer.
pub proof fn law_state_root_bytes_start(version: StateTreeVersion, actors: Seq<u8>, info: Seq<u8>)
    ensures
        state_root_bytes(version, actors, info)[0] == 0x83,
        state_root_bytes(version, actors, info)[1] == version.number(),
{
    let h0 = encode_head(4, 3);
    let h1 = encode_head(0, version.number());
    lemma_encode_head_len(4, 3);
    lemma_encode_head_len(0, version.number());
    let s = state_root_bytes(version, actors, info);
    assert(s == h0 + h1 + (cid_item_bytes(actors) + cid_item_bytes(info))) by {
        assert(s =~= h0 + h1 + (cid_item_bytes(actors) + cid_item_bytes(info)));
    }
    assert(s[0] == h0[0]);
    assert(s[1] == h1[0]);
}

} // verus!
