use vstd::prelude::*;

verus! {

/// `256` raised to the power `n`.
pub open spec fn pow256(n: nat) -> nat
    decreases n,
{
    if n == 0 {
        1
    } else {
        256 * pow256((n - 1) as nat)
    }
}

/// The `n`-byte big-endian encoding of `v` (of `v` modulo `256^n`).
pub open spec fn be_bytes(v: nat, n: nat) -> Seq<u8>
    decreases n,
{
    if n == 0 {
        seq![]
    } else {
        be_bytes(v / 256, (n - 1) as nat).push((v % 256) as u8)
    }
}

/// The number that the bytes `b` encode in big-endian order.
pub open spec fn be_value(b: Seq<u8>) -> nat
    decreases b.len(),
{
    if b.len() == 0 {
        0
    } else {
        be_value(b.drop_last()) * 256 + b.last() as nat
    }
}

pub proof fn lemma_be_bytes_len(v: nat, n: nat)
    ensures
        be_bytes(v, n).len() == n,
    decreases n,
{
    if n > 0 {
        lemma_be_bytes_len(v / 256, (n - 1) as nat);
    }
}

pub proof fn lemma_be_value_bound(b: Seq<u8>)
    ensures
        be_value(b) < pow256(b.len()),
    decreases b.len(),
{
    if b.len() > 0 {
        lemma_be_value_bound(b.drop_last());
    }
}

/// Decoding the big-endian encoding gives back any value that fits.
pub proof fn lemma_be_roundtrip(v: nat, n: nat)
    requires
        v < pow256(n),
    ensures
        be_value(be_bytes(v, n)) == v,
    decreases n,
{
    if n > 0 {
        lemma_be_bytes_len(v, n);
        assert(v / 256 < pow256((n - 1) as nat));
        lemma_be_roundtrip(v / 256, (n - 1) as nat);
        let b = be_bytes(v, n);
        assert(b.drop_last() =~= be_bytes(v / 256, (n - 1) as nat));
    }
}

/// Encoding what a byte sequence decodes to gives back the same bytes.
pub proof fn lemma_be_value_bytes(b: Seq<u8>)
    ensures
        be_bytes(be_value(b), b.len()) == b,
    decreases b.len(),
{
    if b.len() > 0 {
        lemma_be_value_bytes(b.drop_last());
        let v = be_value(b);
        assert(v / 256 == be_value(b.drop_last()));
        assert(v % 256 == b.last() as nat);
        assert(be_bytes(v, b.len()) =~= b);
    }
}

/// Writes the `n`-byte big-endian encoding of `v` into `buf` at `offset`.
pub fn write_be(buf: &mut [u8; 28], offset: usize, v: u64, n: usize)
    requires
        offset + n <= 28,
    ensures
        final(buf)@ == old(buf)@.subrange(0, offset as int) + be_bytes(v as nat, n as nat)
            + old(buf)@.subrange(offset + n, 28),
{
    let mut rest: u64 = v;
    let mut i: usize = n;
    while i > 0
        invariant
            offset + n <= 28,
            i <= n,
            buf@.len() == 28,
            buf@.subrange(0, offset + i as int) == old(buf)@.subrange(0, offset + i as int),
            buf@.subrange(offset + n, 28) == old(buf)@.subrange(offset + n, 28),
            be_bytes(v as nat, n as nat) == be_bytes(rest as nat, i as nat) + buf@.subrange(
                offset + i as int,
                offset + n as int,
            ),
        decreases i,
    {
        let ghost prev = buf@;
        i = i - 1;
        buf[offset + i] = (rest % 256) as u8;
        assert(buf@.subrange(offset + i as int, offset + n as int) =~= seq![(rest % 256) as u8]
            + prev.subrange(offset + i + 1, offset + n as int));
        assert(buf@.subrange(0, offset + i as int) =~= prev.subrange(0, offset + i as int));
        assert(buf@.subrange(offset + n, 28) =~= prev.subrange(offset + n, 28));
        rest = rest / 256;
    }
    assert(be_bytes(rest as nat, 0) =~= seq![]);
    assert(final(buf)@ =~= old(buf)@.subrange(0, offset as int) + be_bytes(v as nat, n as nat)
        + old(buf)@.subrange(offset + n, 28));
}

/// Reads the `n`-byte big-endian number stored in `buf` at `offset`.
pub fn read_be(buf: &[u8], offset: usize, n: usize) -> (r: u64)
    requires
        n <= 8,
        offset + n <= buf@.len(),
    ensures
        r as nat == be_value(buf@.subrange(offset as int, offset + n as int)),
{
    let len = buf.len();
    let mut acc: u64 = 0;
    let mut i: usize = 0;
    while i < n
        invariant
            len == buf@.len(),
            n <= 8,
            offset + n <= buf@.len(),
            i <= n,
            acc as nat == be_value(buf@.subrange(offset as int, offset + i as int)),
        decreases n - i,
    {
        let ghost prefix = buf@.subrange(offset as int, offset + i as int);
        proof {
            lemma_be_value_bound(prefix);
            lemma_pow256_mono(i as nat, 7);
            reveal_with_fuel(pow256, 8);
            assert(pow256(7) == 0x100_0000_0000_0000);
        }
        acc = acc * 256 + buf[offset + i] as u64;
        i = i + 1;
        assert(buf@.subrange(offset as int, offset + i as int).drop_last() =~= prefix);
    }
    acc
}

pub proof fn lemma_pow256_mono(a: nat, b: nat)
    requires
        a <= b,
    ensures
        pow256(a) <= pow256(b),
    decreases b,
{
    if a < b {
        lemma_pow256_mono(a, (b - 1) as nat);
    }
}

} // verus!
