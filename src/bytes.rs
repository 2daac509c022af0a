//! Big-endian cells, padding and hexadecimal names.
use vstd::prelude::*;

verus! {

/// The four bytes of `x`, most significant first.
pub open spec fn be32(x: u32) -> Seq<u8> {
    seq![(x >> 24u32) as u8, (x >> 16u32) as u8, (x >> 8u32) as u8, x as u8]
}

/// The eight bytes of `x`, most significant first: the high cell, then the low cell.
pub open spec fn be64(x: u64) -> Seq<u8> {
    be32((x >> 32u64) as u32) + be32(x as u32)
}

/// Cells of 32 bits, one after the other.
pub open spec fn cells32(cells: Seq<u32>) -> Seq<u8>
    decreases cells.len(),
{
    if cells.len() == 0 {
        seq![]
    } else {
        cells32(cells.drop_last()) + be32(cells.last())
    }
}

/// Cells of 64 bits, one after the other.
pub open spec fn cells64(cells: Seq<u64>) -> Seq<u8>
    decreases cells.len(),
{
    if cells.len() == 0 {
        seq![]
    } else {
        cells64(cells.drop_last()) + be64(cells.last())
    }
}

/// Whether a byte string holds a null byte.
pub open spec fn has_nul(b: Seq<u8>) -> bool {
    exists|i: int| 0 <= i < b.len() && b[i] == 0
}

/// The number of zero bytes that bring a length of `n` to a multiple of four.
pub open spec fn pad_len(n: nat) -> nat {
    ((4 - (n % 4)) % 4) as nat
}

/// `b` followed by zero bytes up to the next multiple of four.
pub open spec fn pad4(b: Seq<u8>) -> Seq<u8> {
    b + Seq::new(pad_len(b.len()), |i: int| 0u8)
}

/// The lower-case hexadecimal digit of `d`.
pub open spec fn hex_digit(d: nat) -> u8 {
    if d < 10 {
        (48 + d) as u8
    } else {
        (87 + d) as u8
    }
}

/// `n` in lower-case hexadecimal, without leading zeros (`0` for zero).
pub open spec fn hex(n: nat) -> Seq<u8>
    decreases n,
{
    if n < 16 {
        seq![hex_digit(n)]
    } else {
        hex(n / 16) + seq![hex_digit(n % 16)]
    }
}

/// Writes `input` in big-endian order.
pub fn to_be32(input: u32) -> (r: [u8; 4])
    ensures
        r@ == be32(input),
{
    let r = [(input >> 24u32) as u8, (input >> 16u32) as u8, (input >> 8u32) as u8, input as u8];
    assert(r@ =~= be32(input));
    r
}

/// Writes `input` in big-endian order.
pub fn to_be64(input: u64) -> (r: [u8; 8])
    ensures
        r@ == be64(input),
{
    let hi = (input >> 32u64) as u32;
    let lo = input as u32;
    let r = [
        (hi >> 24u32) as u8,
        (hi >> 16u32) as u8,
        (hi >> 8u32) as u8,
        hi as u8,
        (lo >> 24u32) as u8,
        (lo >> 16u32) as u8,
        (lo >> 8u32) as u8,
        lo as u8,
    ];
    assert(r@ =~= be64(input));
    r
}

/// Appends the bytes of `b` to `v`.
pub fn push_all(v: &mut Vec<u8>, b: &[u8])
    ensures
        final(v)@ == old(v)@ + b@,
{
    let mut i: usize = 0;
    while i < b.len()
        invariant
            i <= b@.len(),
            v@ == old(v)@ + b@.take(i as int),
        decreases b@.len() - i,
    {
        v.push(b[i]);
        i = i + 1;
        assert(b@.take(i as int) =~= b@.take(i - 1) .push(b@[i - 1]));
    }
    assert(b@.take(i as int) =~= b@);
}

/// Encodes a list of 32-bit cells.
pub fn generate_prop32(cells: &[u32]) -> (ret: Vec<u8>)
    ensures
        ret@ == cells32(cells@),
{
    let mut ret: Vec<u8> = Vec::new();
    let mut i: usize = 0;
    while i < cells.len()
        invariant
            i <= cells@.len(),
            ret@ == cells32(cells@.take(i as int)),
        decreases cells@.len() - i,
    {
        let e = to_be32(cells[i]);
        push_all(&mut ret, &e);
        i = i + 1;
        assert(cells@.take(i as int).drop_last() =~= cells@.take(i - 1));
    }
    assert(cells@.take(i as int) =~= cells@);
    ret
}

/// Encodes a list of 64-bit cells.
pub fn generate_prop64(cells: &[u64]) -> (ret: Vec<u8>)
    ensures
        ret@ == cells64(cells@),
{
    let mut ret: Vec<u8> = Vec::new();
    let mut i: usize = 0;
    while i < cells.len()
        invariant
            i <= cells@.len(),
            ret@ == cells64(cells@.take(i as int)),
        decreases cells@.len() - i,
    {
        let e = to_be64(cells[i]);
        push_all(&mut ret, &e);
        i = i + 1;
        assert(cells@.take(i as int).drop_last() =~= cells@.take(i - 1));
    }
    assert(cells@.take(i as int) =~= cells@);
    ret
}

/// Appends zero bytes to `v` until its length is a multiple of four.
pub fn pad_to_four(v: &mut Vec<u8>, start: usize)
    requires
        start <= old(v)@.len(),
    ensures
        final(v)@ == old(v)@.take(start as int) + pad4(old(v)@.skip(start as int)),
{
    let rem = (v.len() - start) % 4;
    let p: usize = if rem == 0 { 0 } else { 4 - rem };
    assert(p == pad_len((old(v)@.len() - start) as nat));
    let mut k: usize = 0;
    while k < p
        invariant
            k <= p,
            p <= 3,
            v@ == old(v)@ + Seq::new(k as nat, |i: int| 0u8),
        decreases p - k,
    {
        v.push(0);
        k = k + 1;
        assert(v@ =~= old(v)@ + Seq::new(k as nat, |i: int| 0u8));
    }
    assert(v@ =~= old(v)@.take(start as int) + pad4(old(v)@.skip(start as int)));
}

/// Writes `n` in lower-case hexadecimal.
pub fn hex_name(n: u64) -> (r: Vec<u8>)
    ensures
        r@ == hex(n as nat),
    decreases n,
{
    let d = (n % 16) as u8;
    let c: u8 = if d < 10 { 48 + d } else { 87 + d };
    if n < 16 {
        let mut r: Vec<u8> = Vec::new();
        r.push(c);
        assert(r@ =~= hex(n as nat));
        r
    } else {
        let mut r = hex_name(n / 16);
        r.push(c);
        assert(r@ =~= hex(n as nat));
        r
    }
}

/// Hexadecimal digits are never null bytes.
pub proof fn lemma_hex_has_no_nul(n: nat)
    ensures
        !has_nul(hex(n)),
    decreases n,
{
    if n >= 16 {
        lemma_hex_has_no_nul(n / 16);
        let h = hex(n);
        assert forall|i: int| 0 <= i < h.len() implies h[i] != 0 by {
            if i < hex(n / 16).len() {
                assert(h[i] == hex(n / 16)[i]);
            }
        }
    }
}

/// Whether `b` holds a null byte.
pub fn slice_has_nul(b: &[u8]) -> (r: bool)
    ensures
        r == has_nul(b@),
{
    let mut i: usize = 0;
    while i < b.len()
        invariant
            i <= b@.len(),
            forall|j: int| 0 <= j < i ==> b@[j] != 0,
        decreases b@.len() - i,
    {
        if b[i] == 0 {
            return true;
        }
        i = i + 1;
    }
    false
}

/// Whether two byte strings are equal.
pub fn bytes_eq(a: &[u8], b: &[u8]) -> (r: bool)
    ensures
        r == (a@ == b@),
{
    if a.len() != b.len() {
        return false;
    }
    let mut i: usize = 0;
    while i < a.len()
        invariant
            a@.len() == b@.len(),
            i <= a@.len(),
            forall|j: int| 0 <= j < i ==> a@[j] == b@[j],
        decreases a@.len() - i,
    {
        if a[i] != b[i] {
            return false;
        }
        i = i + 1;
    }
    assert(a@ =~= b@);
    true
}

} // verus!
