//! Token amounts: signed integers of any size, held as a sign and a big-endian
//! magnitude.

use vstd::prelude::*;

verus! {

/// The number that a big-endian byte string denotes.
pub open spec fn be_value(s: Seq<u8>) -> nat
    decreases s.len(),
{
    if s.len() == 0 {
        0
    } else {
        be_value(s.drop_last()) * 256 + s.last() as nat
    }
}

/// Three-way result of comparing two numbers.
#[derive(PartialEq, Eq, Structural, Clone, Copy, Debug)]
pub enum Comparison {
    Less,
    Equal,
    Greater,
}

pub open spec fn compare_spec(a: int, b: int) -> Comparison {
    if a < b {
        Comparison::Less
    } else if a == b {
        Comparison::Equal
    } else {
        Comparison::Greater
    }
}

/// `s` with `n - s.len()` zero bytes in front of it.
pub open spec fn pad_front(s: Seq<u8>, n: nat) -> Seq<u8> {
    Seq::new((n - s.len()) as nat, |i: int| 0u8) + s
}

proof fn lemma_be_value_zeros(z: Seq<u8>)
    requires
        forall|i: int| 0 <= i < z.len() ==> z[i] == 0,
    ensures
        be_value(z) == 0,
    decreases z.len(),
{
    if z.len() > 0 {
        lemma_be_value_zeros(z.drop_last());
    }
}

proof fn lemma_be_value_leading_zeros(z: Seq<u8>, s: Seq<u8>)
    requires
        forall|i: int| 0 <= i < z.len() ==> z[i] == 0,
    ensures
        be_value(z + s) == be_value(s),
    decreases s.len(),
{
    if s.len() == 0 {
        assert(z + s =~= z);
        lemma_be_value_zeros(z);
    } else {
        assert((z + s).drop_last() =~= z + s.drop_last());
        lemma_be_value_leading_zeros(z, s.drop_last());
    }
}

proof fn lemma_pad_front(s: Seq<u8>, n: nat)
    requires
        s.len() <= n,
    ensures
        pad_front(s, n).len() == n,
        be_value(pad_front(s, n)) == be_value(s),
{
    lemma_be_value_leading_zeros(Seq::new((n - s.len()) as nat, |i: int| 0u8), s);
}

/// Compares the numbers that two big-endian magnitudes denote. Leading zero
/// bytes are allowed in either.
pub fn compare_magnitudes(a: &[u8], b: &[u8]) -> (r: Comparison)
    ensures
        r == compare_spec(be_value(a@) as int, be_value(b@) as int),
{
    let la = a.len();
    let lb = b.len();
    let n = if la < lb { lb } else { la };
    let ghost pa = pad_front(a@, n as nat);
    let ghost pb = pad_front(b@, n as nat);
    proof {
        lemma_pad_front(a@, n as nat);
        lemma_pad_front(b@, n as nat);
    }
    let mut state = Comparison::Equal;
    let mut i: usize = 0;
    assert(pa.take(0) =~= Seq::<u8>::empty());
    assert(pb.take(0) =~= Seq::<u8>::empty());
    while i < n
        invariant
            la == a@.len(),
            lb == b@.len(),
            la <= n,
            lb <= n,
            n == la || n == lb,
            pa == pad_front(a@, n as nat),
            pb == pad_front(b@, n as nat),
            pa.len() == n,
            pb.len() == n,
            i <= n,
            state == compare_spec(be_value(pa.take(i as int)) as int, be_value(pb.take(i as int)) as int),
        decreases n - i,
    {
        let x: u8 = if i < n - la { 0 } else { a[i - (n - la)] };
        let y: u8 = if i < n - lb { 0 } else { b[i - (n - lb)] };
        assert(x == pa[i as int]);
        assert(y == pb[i as int]);
        let ghost va = be_value(pa.take(i as int));
        let ghost vb = be_value(pb.take(i as int));
        assert(pa.take(i + 1).drop_last() =~= pa.take(i as int));
        assert(pb.take(i + 1).drop_last() =~= pb.take(i as int));
        assert(be_value(pa.take(i + 1)) == va * 256 + x);
        assert(be_value(pb.take(i + 1)) == vb * 256 + y);
        if state == Comparison::Equal {
            if x < y {
                state = Comparison::Less;
            } else if x > y {
                state = Comparison::Greater;
            }
        }
        i = i + 1;
    }
    assert(pa.take(n as int) =~= pa);
    assert(pb.take(n as int) =~= pb);
    state
}

/// A token amount: an integer of any size, negative when `negative` is set and
/// the magnitude is not zero.
#[derive(Clone, Debug)]
pub struct TokenAmount {
    pub negative: bool,
    /// Big-endian magnitude.
    pub magnitude: Vec<u8>,
}

impl TokenAmount {
    /// The integer this amount denotes.
    pub open spec fn value(&self) -> int {
        if self.negative {
            -(be_value(self.magnitude@) as int)
        } else {
            be_value(self.magnitude@) as int
        }
    }

    /// Whether `self` is greater than `other`.
    pub fn gt(&self, other: &TokenAmount) -> (r: bool)
        ensures
            r == (self.value() > other.value()),
    {
        let c = compare_magnitudes(self.magnitude.as_slice(), other.magnitude.as_slice());
        if !self.negative && !other.negative {
            c == Comparison::Greater
        } else if self.negative && other.negative {
            c == Comparison::Less
        } else if !self.negative {
            let za = compare_magnitudes(self.magnitude.as_slice(), &[]);
            let zb = compare_magnitudes(other.magnitude.as_slice(), &[]);
            assert(be_value(Seq::<u8>::empty()) == 0);
            !(za == Comparison::Equal && zb == Comparison::Equal)
        } else {
            false
        }
    }
}


/// The three answers of a comparison mean less, equal and greater.
pub proof fn law_compare_spec(a: int, b: int)
    ensures
        (compare_spec(a, b) == Comparison::Less) <==> a < b,
        (compare_spec(a, b) == Comparison::Equal) <==> a == b,
        (compare_spec(a, b) == Comparison::Greater) <==> a > b,
{
}

/// Big-endian magnitudes: zero bytes in front change nothing, the first of two
/// bytes counts 256 times the second, and a byte appended shifts the rest up
/// by a byte.
pub proof fn law_be_value(z: Seq<u8>, s: Seq<u8>, x: u8, y: u8)
    requires
        forall|i: int| 0 <= i < z.len() ==> z[i] == 0,
    ensures
        be_value(z + s) == be_value(s),
        be_value(Seq::<u8>::empty()) == 0,
        be_value(seq![x]) == x,
        be_value(seq![x, y]) == 256 * x + y,
        be_value(s.push(x)) == 256 * be_value(s) + x,
{
    lemma_be_value_leading_zeros(z, s);
    assert(be_value(Seq::<u8>::empty()) == 0);
    assert(seq![x].drop_last() =~= Seq::<u8>::empty());
    assert(be_value(seq![x]) == x);
    assert(seq![x, y].drop_last() =~= seq![x]);
    assert(seq![x, y].last() == y);
    assert(be_value(seq![x, y]) == be_value(seq![x]) * 256 + y);
    assert(s.push(x).drop_last() =~= s);
}

/// The sign of an amount: a magnitude of zero is zero whatever the sign, and
/// the sign flag negates the magnitude.
pub proof fn law_amount_sign(a: TokenAmount)
    ensures
        be_value(a.magnitude@) == 0 ==> a.value() == 0,
        a.negative ==> a.value() == -(be_value(a.magnitude@) as int),
        !a.negative ==> a.value() == be_value(a.magnitude@) as int,
{
}

} // verus!
