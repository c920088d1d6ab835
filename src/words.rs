//! Words assembled from raw bytes, in an explicit byte order.
use vstd::prelude::*;

verus! {

/// The order in which the bytes of a word are laid out.
#[derive(Clone, Copy, Debug, PartialEq, Eq, Structural)]
pub enum ByteOrder {
    /// Least significant byte first.
    Little,
    /// Most significant byte first.
    Big,
}

/// The number whose base-256 digits are `s`, least significant digit first.
pub open spec fn le_value(s: Seq<u8>) -> nat
    decreases s.len(),
{
    if s.len() == 0 {
        0
    } else {
        s[0] as nat + 256 * le_value(s.drop_first())
    }
}

/// The number whose base-256 digits are `s`, most significant digit first.
pub open spec fn be_value(s: Seq<u8>) -> nat
    decreases s.len(),
{
    if s.len() == 0 {
        0
    } else {
        be_value(s.drop_last()) * 256 + s.last() as nat
    }
}

/// The number that the bytes `s` stand for when laid out in `order`.
pub open spec fn word_value(s: Seq<u8>, order: ByteOrder) -> nat {
    match order {
        ByteOrder::Little => le_value(s),
        ByteOrder::Big => be_value(s),
    }
}

/// 256 to the power `n`.
pub open spec fn radix_pow(n: nat) -> nat
    decreases n,
{
    if n == 0 {
        1
    } else {
        256 * radix_pow((n - 1) as nat)
    }
}

proof fn lemma_radix_pow_mono(a: nat, b: nat)
    requires
        a <= b,
    ensures
        radix_pow(a) <= radix_pow(b),
    decreases b,
{
    if a < b {
        lemma_radix_pow_mono(a, (b - 1) as nat);
    }
}

proof fn lemma_le_value_bound(s: Seq<u8>)
    ensures
        le_value(s) < radix_pow(s.len()),
    decreases s.len(),
{
    if s.len() > 0 {
        let rest = s.drop_first();
        lemma_le_value_bound(rest);
        let v = le_value(rest);
        let p = radix_pow(rest.len());
        let d = s[0] as nat;
        assert(d + 256 * v < 256 * p) by (nonlinear_arith)
            requires
                v < p,
                d < 256,
        ;
    }
}

proof fn lemma_be_value_bound(s: Seq<u8>)
    ensures
        be_value(s) < radix_pow(s.len()),
    decreases s.len(),
{
    if s.len() > 0 {
        let rest = s.drop_last();
        lemma_be_value_bound(rest);
        let v = be_value(rest);
        let p = radix_pow(rest.len());
        let d = s.last() as nat;
        assert(v * 256 + d < 256 * p) by (nonlinear_arith)
            requires
                v < p,
                d < 256,
        ;
    }
}

/// The value of at most eight bytes laid out in `order`.
fn word_from_bytes(b: &[u8], order: ByteOrder) -> (r: u64)
    requires
        b@.len() <= 8,
    ensures
        r as nat == word_value(b@, order),
{
    let n: usize = b.len();
    proof {
        reveal_with_fuel(radix_pow, 8);
    }
    assert(radix_pow(7) == 0x100000000000000);
    let mut acc: u64 = 0;
    match order {
        ByteOrder::Little => {
            let mut i: usize = n;
            assert(b@.subrange(n as int, n as int) =~= Seq::<u8>::empty());
            while i > 0
                invariant
                    n == b@.len(),
                    n <= 8,
                    i <= n,
                    radix_pow(7) == 0x100000000000000,
                    acc as nat == le_value(b@.subrange(i as int, n as int)),
                decreases i,
            {
                proof {
                    let tail = b@.subrange(i as int, n as int);
                    let longer = b@.subrange(i - 1, n as int);
                    assert(longer.drop_first() =~= tail);
                    lemma_le_value_bound(tail);
                    lemma_radix_pow_mono(tail.len(), 7);
                }
                acc = acc * 256 + b[i - 1] as u64;
                i = i - 1;
            }
            assert(b@.subrange(0, n as int) =~= b@);
        },
        ByteOrder::Big => {
            let mut i: usize = 0;
            assert(b@.subrange(0, 0) =~= Seq::<u8>::empty());
            while i < n
                invariant
                    n == b@.len(),
                    n <= 8,
                    i <= n,
                    radix_pow(7) == 0x100000000000000,
                    acc as nat == be_value(b@.subrange(0, i as int)),
                decreases n - i,
            {
                proof {
                    let head = b@.subrange(0, i as int);
                    let longer = b@.subrange(0, i + 1);
                    assert(longer.drop_last() =~= head);
                    lemma_be_value_bound(head);
                    lemma_radix_pow_mono(head.len(), 7);
                }
                acc = acc * 256 + b[i] as u64;
                i = i + 1;
            }
            assert(b@.subrange(0, n as int) =~= b@);
        },
    }
    acc
}

/// A 32-bit word made of four drawn bytes laid out in `order`.
pub fn u32_from_bytes(b: &[u8; 4], order: ByteOrder) -> (r: u32)
    ensures
        r as nat == word_value(b@, order),
{
    let v = word_from_bytes(b.as_slice(), order);
    proof {
        reveal_with_fuel(radix_pow, 5);
        assert(radix_pow(4) == 0x100000000);
        match order {
            ByteOrder::Little => lemma_le_value_bound(b@),
            ByteOrder::Big => lemma_be_value_bound(b@),
        }
    }
    v as u32
}

/// A 64-bit word made of eight drawn bytes laid out in `order`.
pub fn u64_from_bytes(b: &[u8; 8], order: ByteOrder) -> (r: u64)
    ensures
        r as nat == word_value(b@, order),
{
    word_from_bytes(b.as_slice(), order)
}

} // verus!
