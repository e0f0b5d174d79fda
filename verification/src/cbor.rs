//! The heads of CBOR data items: a major type and an unsigned argument.
//! Readers accept every definite-length form of an argument; writers emit the
//! shortest one.

use vstd::prelude::*;
use crate::amount::be_value;

verus! {

pub open spec fn pow256(k: nat) -> nat
    decreases k,
{
    if k == 0 {
        1
    } else {
        256 * pow256((k - 1) as nat)
    }
}

/// Number of argument bytes that follow an initial byte whose low five bits are
/// `info` (for `info` up to 27).
pub open spec fn arg_len(info: nat) -> nat {
    if info < 24 {
        0
    } else if info == 24 {
        1
    } else if info == 25 {
        2
    } else if info == 26 {
        4
    } else {
        8
    }
}

/// The head that starts at `pos` in `s`: its major type, its argument and the
/// position right after it. `None` where `s` ends inside the head, or the head
/// is indefinite-length or reserved (low five bits 28 to 31).
pub open spec fn parse_head(s: Seq<u8>, pos: int) -> Option<(nat, nat, int)> {
    if pos < 0 || pos >= s.len() {
        None
    } else {
        let major = s[pos] as nat / 32;
        let info = s[pos] as nat % 32;
        if info < 24 {
            Some((major, info, pos + 1))
        } else if info <= 27 && pos + 1 + arg_len(info) <= s.len() {
            Some((major, be_value(s.subrange(pos + 1, pos + 1 + arg_len(info))), pos + 1 + arg_len(info)))
        } else {
            None
        }
    }
}

/// The `k` low bytes of `v`, most significant first.
pub open spec fn be_bytes(v: nat, k: nat) -> Seq<u8>
    decreases k,
{
    if k == 0 {
        Seq::empty()
    } else {
        be_bytes(v / 256, (k - 1) as nat).push((v % 256) as u8)
    }
}

/// The shortest head of major type `major` with argument `v`.
pub open spec fn encode_head(major: nat, v: nat) -> Seq<u8> {
    if v < 24 {
        seq![(major * 32 + v) as u8]
    } else if v < 0x100 {
        seq![(major * 32 + 24) as u8] + be_bytes(v, 1)
    } else if v < 0x1_0000 {
        seq![(major * 32 + 25) as u8] + be_bytes(v, 2)
    } else if v < 0x1_0000_0000 {
        seq![(major * 32 + 26) as u8] + be_bytes(v, 4)
    } else {
        seq![(major * 32 + 27) as u8] + be_bytes(v, 8)
    }
}

pub proof fn lemma_pow256_values()
    ensures
        pow256(0) == 1,
        pow256(1) == 0x100,
        pow256(2) == 0x1_0000,
        pow256(4) == 0x1_0000_0000,
        pow256(7) == 0x100_0000_0000_0000,
        pow256(8) == 0x1_0000_0000_0000_0000,
{
    reveal_with_fuel(pow256, 9);
}

pub proof fn lemma_pow256_mono(a: nat, b: nat)
    requires
        a <= b,
    ensures
        pow256(a) <= pow256(b),
    decreases b,
{
    if a < b {
        lemma_pow256_mono(a, (b - 1) as nat);
    }
}

pub proof fn lemma_be_bytes(v: nat, k: nat)
    requires
        v < pow256(k),
    ensures
        be_bytes(v, k).len() == k,
        be_value(be_bytes(v, k)) == v,
    decreases k,
{
    if k > 0 {
        let p = pow256((k - 1) as nat);
        assert(v / 256 < p) by (nonlinear_arith)
            requires
                v < 256 * p,
        ;
        lemma_be_bytes(v / 256, (k - 1) as nat);
        assert(be_bytes(v, k).drop_last() =~= be_bytes(v / 256, (k - 1) as nat));
    }
}

pub proof fn lemma_encode_head_len(major: nat, v: nat)
    requires
        major < 8,
        v < 0x1_0000_0000_0000_0000,
    ensures
        1 <= encode_head(major, v).len() <= 9,
        encode_head(major, v).len() == 1 + (if v < 24 {
            0nat
        } else if v < 0x100 {
            1nat
        } else if v < 0x1_0000 {
            2nat
        } else if v < 0x1_0000_0000 {
            4nat
        } else {
            8nat
        }),
{
    lemma_pow256_values();
    if v >= 24 {
        if v < 0x100 {
            lemma_be_bytes(v, 1);
        } else if v < 0x1_0000 {
            lemma_be_bytes(v, 2);
        } else if v < 0x1_0000_0000 {
            lemma_be_bytes(v, 4);
        } else {
            lemma_be_bytes(v, 8);
        }
    }
}

/// Reading a head back at the place where it was written gives its major type
/// and argument, and the position right after it.
pub proof fn lemma_parse_encode_head(s: Seq<u8>, pos: int, major: nat, v: nat)
    requires
        major < 8,
        v < 0x1_0000_0000_0000_0000,
        0 <= pos,
        pos + encode_head(major, v).len() <= s.len(),
        s.subrange(pos, pos + encode_head(major, v).len()) == encode_head(major, v),
    ensures
        parse_head(s, pos) == Some((major, v, pos + encode_head(major, v).len())),
{
    lemma_pow256_values();
    lemma_encode_head_len(major, v);
    let h = encode_head(major, v);
    assert(s[pos] == h[0]);
    if v < 24 {
        assert(s[pos] as nat == major * 32 + v);
    } else {
        let k: nat = if v < 0x100 {
            1
        } else if v < 0x1_0000 {
            2
        } else if v < 0x1_0000_0000 {
            4
        } else {
            8
        };
        let info: nat = if k == 1 {
            24
        } else if k == 2 {
            25
        } else if k == 4 {
            26
        } else {
            27
        };
        assert(h == seq![(major * 32 + info) as u8] + be_bytes(v, k));
        assert(s[pos] as nat == major * 32 + info);
        assert(arg_len(info) == k);
        lemma_be_bytes(v, k);
        assert(s.subrange(pos + 1, pos + 1 + k) =~= be_bytes(v, k)) by {
            assert forall|i: int| 0 <= i < k implies s.subrange(pos + 1, pos + 1 + k)[i] == be_bytes(
                v,
                k,
            )[i] by {
                assert(s.subrange(pos, pos + h.len())[i + 1] == h[i + 1]);
            }
        }
    }
}

/// Reads the head at `pos`.
pub fn read_head(s: &[u8], pos: usize) -> (r: Option<(u8, u64, usize)>)
    ensures
        parse_head(s@, pos as int) == match r {
            None => None,
            Some((m, v, p)) => Some((m as nat, v as nat, p as int)),
        },
{
    if pos >= s.len() {
        return None;
    }
    let b = s[pos];
    let major = b / 32;
    let info = b % 32;
    if info < 24 {
        return Some((major, info as u64, pos + 1));
    }
    if info > 27 {
        return None;
    }
    let k: usize = if info == 24 {
        1
    } else if info == 25 {
        2
    } else if info == 26 {
        4
    } else {
        8
    };
    assert(k == arg_len(info as nat));
    if s.len() - (pos + 1) < k {
        return None;
    }
    let start = pos + 1;
    let end = start + k;
    let mut j = start;
    let mut acc: u64 = 0;
    proof {
        lemma_pow256_values();
        assert(s@.subrange(start as int, start as int) =~= Seq::<u8>::empty());
    }
    while j < end
        invariant
            start == pos + 1,
            end == start + k,
            start + k <= s@.len(),
            k <= 8,
            start <= j <= start + k,
            acc as nat == be_value(s@.subrange(start as int, j as int)),
            acc < pow256((j - start) as nat),
        decreases start + k - j,
    {
        let ghost t = (j - start) as nat;
        proof {
            lemma_pow256_mono(t, 7);
            lemma_pow256_values();
            assert(s@.subrange(start as int, j + 1).drop_last() =~= s@.subrange(start as int, j as int));
            assert(pow256(t + 1) == 256 * pow256(t));
        }
        acc = acc * 256 + s[j] as u64;
        j = j + 1;
    }
    Some((major, acc, end))
}

/// Appends the `k` low bytes of `v`, most significant first.
fn push_be(out: &mut Vec<u8>, v: u64, k: usize)
    requires
        k <= 8,
    ensures
        final(out)@ == old(out)@ + be_bytes(v as nat, k as nat),
    decreases k,
{
    if k > 0 {
        push_be(out, v / 256, k - 1);
        out.push((v % 256) as u8);
        assert(be_bytes(v as nat, k as nat) == be_bytes((v / 256) as nat, (k - 1) as nat).push((v % 256) as u8));
    } else {
        assert(old(out)@ + be_bytes(v as nat, 0) =~= old(out)@);
    }
}

/// Appends the shortest head of major type `major` with argument `v`.
pub fn write_head(out: &mut Vec<u8>, major: u8, v: u64)
    requires
        major < 8,
    ensures
        final(out)@ == old(out)@ + encode_head(major as nat, v as nat),
{
    let ghost before = out@;
    let (info, k): (u8, usize) = if v < 24 {
        (v as u8, 0)
    } else if v < 0x100 {
        (24, 1)
    } else if v < 0x1_0000 {
        (25, 2)
    } else if v < 0x1_0000_0000 {
        (26, 4)
    } else {
        (27, 8)
    };
    out.push(major * 32 + info);
    push_be(out, v, k);
    if v < 24 {
        assert(be_bytes(v as nat, 0) =~= Seq::<u8>::empty());
        assert(out@ =~= before + encode_head(major as nat, v as nat));
    } else {
        assert(out@ =~= before + encode_head(major as nat, v as nat));
    }
}


/// The initial byte of a byte string of indefinite length.
pub const INDEFINITE_BYTES: u8 = 0x5f;

/// The initial byte of an array of indefinite length.
pub const INDEFINITE_ARRAY: u8 = 0x9f;

/// The byte that ends an item of indefinite length.
pub const BREAK: u8 = 0xff;

/// The chunks of an indefinite-length byte string, from `pos` up to and
/// including the break: their contents joined, and the position after the
/// break. Each chunk is a definite-length byte string.
pub open spec fn parse_chunks(s: Seq<u8>, pos: int) -> Option<(Seq<u8>, int)>
    decreases s.len() - pos,
{
    if pos < 0 || pos >= s.len() {
        None
    } else if s[pos] == BREAK {
        Some((Seq::empty(), pos + 1))
    } else {
        match parse_head(s, pos) {
            Some((m, n, p)) => if m == 2 && p + n <= s.len() {
                match parse_chunks(s, p + n) {
                    Some((rest, q)) => Some((s.subrange(p, p + n) + rest, q)),
                    None => None,
                }
            } else {
                None
            },
            None => None,
        }
    }
}

/// The byte string at `pos`, of definite or indefinite length: its contents
/// and the position after it.
pub open spec fn parse_byte_string(s: Seq<u8>, pos: int) -> Option<(Seq<u8>, int)> {
    if 0 <= pos < s.len() && s[pos] == INDEFINITE_BYTES {
        parse_chunks(s, pos + 1)
    } else {
        match parse_head(s, pos) {
            Some((m, n, p)) => if m == 2 && p + n <= s.len() {
                Some((s.subrange(p, p + n), p + n))
            } else {
                None
            },
            None => None,
        }
    }
}

/// Appends `s[start..end]`.
fn append_range(out: &mut Vec<u8>, s: &[u8], start: usize, end: usize)
    requires
        start <= end <= s@.len(),
    ensures
        final(out)@ == old(out)@ + s@.subrange(start as int, end as int),
{
    let ghost before = out@;
    let mut i = start;
    while i < end
        invariant
            start <= i <= end,
            end <= s@.len(),
            out@ == before + s@.subrange(start as int, i as int),
        decreases end - i,
    {
        out.push(s[i]);
        assert(s@.subrange(start as int, i + 1) =~= s@.subrange(start as int, i as int).push(s@[i as int]));
        i = i + 1;
    }
}

/// Reads the byte string at `pos`, of definite or indefinite length.
pub fn read_byte_string(s: &[u8], pos: usize) -> (r: Option<(Vec<u8>, usize)>)
    ensures
        parse_byte_string(s@, pos as int) == match r {
            None => None,
            Some((b, p)) => Some((b@, p as int)),
        },
{
    if pos < s.len() && s[pos] == INDEFINITE_BYTES {
        let mut out: Vec<u8> = Vec::new();
        let mut cur = pos + 1;
        assert(Seq::<u8>::empty() + Seq::<u8>::empty() =~= Seq::<u8>::empty());
        loop
            invariant
                pos < s@.len(),
                pos + 1 <= cur <= s@.len(),
                s@[pos as int] == INDEFINITE_BYTES,
                parse_byte_string(s@, pos as int) == match parse_chunks(s@, cur as int) {
                    Some((rest, q)) => Some((out@ + rest, q)),
                    None => None,
                },
            decreases s@.len() - cur,
        {
            if cur >= s.len() {
                return None;
            }
            if s[cur] == BREAK {
                assert(out@ + Seq::<u8>::empty() =~= out@);
                return Some((out, cur + 1));
            }
            let (m, n, p) = match read_head(s, cur) {
                Some(h) => h,
                None => return None,
            };
            if m != 2 || n > (s.len() - p) as u64 {
                return None;
            }
            let next = p + n as usize;
            let ghost prev = out@;
            append_range(&mut out, s, p, next);
            proof {
                let chunk = s@.subrange(p as int, next as int);
                match parse_chunks(s@, next as int) {
                    Some((rest, q)) => {
                        assert(prev + (chunk + rest) =~= out@ + rest);
                    },
                    None => {},
                }
            }
            cur = next;
        }
    } else {
        let (m, n, p) = match read_head(s, pos) {
            Some(h) => h,
            None => return None,
        };
        if m != 2 || n > (s.len() - p) as u64 {
            return None;
        }
        let end = p + n as usize;
        let mut out: Vec<u8> = Vec::new();
        append_range(&mut out, s, p, end);
        assert(out@ =~= s@.subrange(p as int, end as int));
        Some((out, end))
    }
}

} // verus!
