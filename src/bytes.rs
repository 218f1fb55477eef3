use vstd::prelude::*;

verus! {

/// The little-endian value of the four bytes of `b` that start at `off`.
pub open spec fn le32(b: Seq<u8>, off: int) -> nat {
    (b[off] as nat) + 256 * (b[off + 1] as nat) + 65536 * (b[off + 2] as nat) + 16777216 * (
    b[off + 3] as nat)
}

/// The four little-endian bytes of `v`.
pub open spec fn u32_bytes(v: u32) -> Seq<u8> {
    seq![
        (v % 256) as u8,
        ((v / 256) % 256) as u8,
        ((v / 65536) % 256) as u8,
        (v / 16777216) as u8,
    ]
}

/// `s` with the bytes from `off` on replaced by `x`.
pub open spec fn splice(s: Seq<u8>, off: int, x: Seq<u8>) -> Seq<u8> {
    s.subrange(0, off) + x + s.subrange(off + x.len(), s.len() as int)
}

/// `n` zero bytes.
pub open spec fn zeros(n: nat) -> Seq<u8> {
    Seq::new(n, |i: int| 0u8)
}

/// How many zero bytes follow `len` bytes to reach a multiple of `page`.
pub open spec fn pad_of(len: nat, page: nat) -> nat {
    if page == 0 || len % page == 0 {
        0
    } else {
        (page - len % page) as nat
    }
}

pub proof fn lemma_le32_of_bytes(v: u32)
    ensures
        le32(u32_bytes(v), 0) == v,
{
    let b0 = v % 256;
    let b1 = (v / 256) % 256;
    let b2 = (v / 65536) % 256;
    let b3 = v / 16777216;
    assert(b0 + 256 * b1 + 65536 * b2 + 16777216 * b3 == v);
}

pub proof fn lemma_bytes_of_le32(b: Seq<u8>, off: int)
    requires
        0 <= off,
        off + 4 <= b.len(),
    ensures
        le32(b, off) <= u32::MAX,
        u32_bytes(le32(b, off) as u32) == b.subrange(off, off + 4),
{
    let b0 = b[off] as int;
    let b1 = b[off + 1] as int;
    let b2 = b[off + 2] as int;
    let b3 = b[off + 3] as int;
    let v = b0 + 256 * b1 + 65536 * b2 + 16777216 * b3;
    assert(v % 256 == b0);
    assert(v / 256 == b1 + 256 * b2 + 65536 * b3);
    assert((v / 256) % 256 == b1);
    assert(v / 65536 == b2 + 256 * b3);
    assert((v / 65536) % 256 == b2);
    assert(v / 16777216 == b3);
    assert(u32_bytes(v as u32) =~= b.subrange(off, off + 4));
}

/// Writing back the value that is already there changes nothing.
pub proof fn lemma_splice_same(b: Seq<u8>, off: int)
    requires
        0 <= off,
        off + 4 <= b.len(),
    ensures
        splice(b, off, u32_bytes(le32(b, off) as u32)) == b,
{
    lemma_bytes_of_le32(b, off);
    assert(splice(b, off, u32_bytes(le32(b, off) as u32)) =~= b);
}

pub fn read_u32(b: &Vec<u8>, off: usize) -> (r: u32)
    requires
        off + 4 <= b@.len(),
    ensures
        r == le32(b@, off as int),
{
    let n = b.len();
    let b0: u32 = b[off] as u32;
    let b1: u32 = b[off + 1] as u32;
    let b2: u32 = b[off + 2] as u32;
    let b3: u32 = b[off + 3] as u32;
    assert(b0 < 256 && b1 < 256 && b2 < 256 && b3 < 256);
    b0 + b1 * 256 + b2 * 65536 + b3 * 16777216
}

pub fn write_u32(b: &mut Vec<u8>, off: usize, v: u32)
    requires
        off + 4 <= old(b)@.len(),
    ensures
        final(b)@ == splice(old(b)@, off as int, u32_bytes(v)),
{
    let n = b.len();
    b.set(off, (v % 256) as u8);
    b.set(off + 1, ((v / 256) % 256) as u8);
    b.set(off + 2, ((v / 65536) % 256) as u8);
    b.set(off + 3, (v / 16777216) as u8);
    assert(b@ =~= splice(old(b)@, off as int, u32_bytes(v)));
}

/// Overwrites the bytes from `off` on with those of `x`.
pub fn write_bytes(b: &mut Vec<u8>, off: usize, x: &Vec<u8>)
    requires
        off + x@.len() <= old(b)@.len(),
    ensures
        final(b)@ == splice(old(b)@, off as int, x@),
{
    let n = b.len();
    let mut i: usize = 0;
    while i < x.len()
        invariant
            i <= x@.len(),
            off + x@.len() <= old(b)@.len(),
            b@.len() == old(b)@.len(),
            n == b@.len(),
            forall|j: int| 0 <= j < b@.len() ==> #[trigger] b@[j] == if off <= j < off + i {
                x@[j - off]
            } else {
                old(b)@[j]
            },
        decreases x@.len() - i,
    {
        b.set(off + i, x[i]);
        i = i + 1;
    }
    assert(b@ =~= splice(old(b)@, off as int, x@));
}

/// Appends the bytes of `src`.
pub fn append_bytes(out: &mut Vec<u8>, src: &Vec<u8>)
    ensures
        final(out)@ == old(out)@ + src@,
{
    let mut i: usize = 0;
    while i < src.len()
        invariant
            i <= src@.len(),
            out@ == old(out)@ + src@.subrange(0, i as int),
        decreases src@.len() - i,
    {
        out.push(src[i]);
        i = i + 1;
        assert(out@ =~= old(out)@ + src@.subrange(0, i as int));
    }
    assert(src@.subrange(0, i as int) =~= src@);
}

/// Appends the four little-endian bytes of `v`.
pub fn append_u32(out: &mut Vec<u8>, v: u32)
    ensures
        final(out)@ == old(out)@ + u32_bytes(v),
{
    out.push((v % 256) as u8);
    out.push(((v / 256) % 256) as u8);
    out.push(((v / 65536) % 256) as u8);
    out.push((v / 16777216) as u8);
    assert(out@ =~= old(out)@ + u32_bytes(v));
}

/// Appends `n` zero bytes.
pub fn append_zeros(out: &mut Vec<u8>, n: usize)
    ensures
        final(out)@ == old(out)@ + zeros(n as nat),
{
    let mut i: usize = 0;
    while i < n
        invariant
            i <= n,
            out@ == old(out)@ + zeros(i as nat),
        decreases n - i,
    {
        out.push(0u8);
        i = i + 1;
        assert(out@ =~= old(out)@ + zeros(i as nat));
    }
}

/// A copy of the bytes `start .. end` of `b`.
pub fn copy_range(b: &Vec<u8>, start: usize, end: usize) -> (r: Vec<u8>)
    requires
        start <= end <= b@.len(),
    ensures
        r@ == b@.subrange(start as int, end as int),
{
    let mut r: Vec<u8> = Vec::new();
    let mut i: usize = start;
    while i < end
        invariant
            start <= i <= end <= b@.len(),
            r@ == b@.subrange(start as int, i as int),
        decreases end - i,
    {
        r.push(b[i]);
        i = i + 1;
        assert(r@ =~= b@.subrange(start as int, i as int));
    }
    r
}

/// Whether the bytes `start .. end` of `b` are all zero.
pub fn all_zero(b: &Vec<u8>, start: usize, end: usize) -> (r: bool)
    requires
        start <= end <= b@.len(),
    ensures
        r == (b@.subrange(start as int, end as int) == zeros((end - start) as nat)),
{
    let mut i: usize = start;
    while i < end
        invariant
            start <= i <= end <= b@.len(),
            forall|j: int| start <= j < i ==> b@[j] == 0,
        decreases end - i,
    {
        if b[i] != 0 {
            assert(b@.subrange(start as int, end as int)[i - start] != zeros(
                (end - start) as nat,
            )[i - start]);
            return false;
        }
        i = i + 1;
    }
    assert(b@.subrange(start as int, end as int) =~= zeros((end - start) as nat));
    true
}

/// The number of zero bytes that bring `len` to a multiple of `page`.
pub fn pad_len(len: usize, page: usize) -> (r: usize)
    requires
        page > 0,
    ensures
        r == pad_of(len as nat, page as nat),
        r < page,
        (len + r) % (page as int) == 0,
{
    let m = len % page;
    if m == 0 {
        0
    } else {
        assert((len + (page - m)) % (page as int) == 0) by (nonlinear_arith)
            requires
                m == len % page,
                page > 0,
        ;
        page - m
    }
}

} // verus!
