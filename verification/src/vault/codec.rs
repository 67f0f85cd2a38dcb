//! Byte-level encoding helpers of the archive format: big-endian integers, fixed-size fields
//! and UTF-8 text.
use vstd::prelude::*;
use vstd::utf8::{decode_utf8, encode_utf8, valid_utf8};
use vstd::string::*;
use vstd::array::*;

verus! {

/// The 8 big-endian bytes of `v` (what `u64::to_be_bytes` and `BufMut::put_u64` produce).
pub open spec fn be8(v: u64) -> Seq<u8> {
    seq![
        (v >> 56u64) as u8,
        (v >> 48u64) as u8,
        (v >> 40u64) as u8,
        (v >> 32u64) as u8,
        (v >> 24u64) as u8,
        (v >> 16u64) as u8,
        (v >> 8u64) as u8,
        v as u8,
    ]
}

/// The value of 8 big-endian bytes (what `u64::from_be_bytes` computes).
pub open spec fn from_be8(s: Seq<u8>) -> u64 {
    ((s[0] as u64) << 56u64) | ((s[1] as u64) << 48u64) | ((s[2] as u64) << 40u64) | ((s[3] as u64)
        << 32u64) | ((s[4] as u64) << 24u64) | ((s[5] as u64) << 16u64) | ((s[6] as u64) << 8u64)
        | (s[7] as u64)
}

/// Reading back 8 big-endian bytes gives the value they were written from.
pub proof fn lemma_be8_roundtrip(v: u64)
    ensures
        from_be8(be8(v)) == v,
        be8(v).len() == 8,
{
    let b0 = (v >> 56u64) as u8;
    let b1 = (v >> 48u64) as u8;
    let b2 = (v >> 40u64) as u8;
    let b3 = (v >> 32u64) as u8;
    let b4 = (v >> 24u64) as u8;
    let b5 = (v >> 16u64) as u8;
    let b6 = (v >> 8u64) as u8;
    let b7 = v as u8;
    assert(((b0 as u64) << 56u64) | ((b1 as u64) << 48u64) | ((b2 as u64) << 40u64) | ((b3 as u64)
        << 32u64) | ((b4 as u64) << 24u64) | ((b5 as u64) << 16u64) | ((b6 as u64) << 8u64) | (b7 as u64)
        == v) by (bit_vector)
        requires
            b0 == (v >> 56u64) as u8,
            b1 == (v >> 48u64) as u8,
            b2 == (v >> 40u64) as u8,
            b3 == (v >> 32u64) as u8,
            b4 == (v >> 24u64) as u8,
            b5 == (v >> 16u64) as u8,
            b6 == (v >> 8u64) as u8,
            b7 == v as u8,
    ;
}

/// Writing back the value of 8 bytes gives the same bytes.
pub proof fn lemma_from_be8_injective(s: Seq<u8>)
    requires
        s.len() == 8,
    ensures
        be8(from_be8(s)) == s,
{
    let b0 = s[0];
    let b1 = s[1];
    let b2 = s[2];
    let b3 = s[3];
    let b4 = s[4];
    let b5 = s[5];
    let b6 = s[6];
    let b7 = s[7];
    let v = from_be8(s);
    assert((v >> 56u64) as u8 == b0 && (v >> 48u64) as u8 == b1 && (v >> 40u64) as u8 == b2 && (v
        >> 32u64) as u8 == b3 && (v >> 24u64) as u8 == b4 && (v >> 16u64) as u8 == b5 && (v >> 8u64)
        as u8 == b6 && v as u8 == b7) by (bit_vector)
        requires
            v == ((b0 as u64) << 56u64) | ((b1 as u64) << 48u64) | ((b2 as u64) << 40u64) | ((b3
                as u64) << 32u64) | ((b4 as u64) << 24u64) | ((b5 as u64) << 16u64) | ((b6 as u64)
                << 8u64) | (b7 as u64),
    ;
    assert(be8(v) =~= s);
}

/// An `i64` is stored as the big-endian bytes of its two's complement.
pub proof fn lemma_i64_roundtrip(v: i64)
    ensures
        (v as u64) as i64 == v,
{
    assert((v as u64) as i64 == v) by (bit_vector);
}

/// Append the 8 big-endian bytes of `v`.
pub fn put_u64(buf: &mut Vec<u8>, v: u64)
    ensures
        final(buf)@ == old(buf)@ + be8(v),
{
    buf.push((v >> 56u64) as u8);
    buf.push((v >> 48u64) as u8);
    buf.push((v >> 40u64) as u8);
    buf.push((v >> 32u64) as u8);
    buf.push((v >> 24u64) as u8);
    buf.push((v >> 16u64) as u8);
    buf.push((v >> 8u64) as u8);
    buf.push(v as u8);
    assert(buf@ =~= old(buf)@ + be8(v));
}

/// Read 8 big-endian bytes at `off`.
pub fn get_u64(s: &[u8], off: usize) -> (r: u64)
    requires
        off + 8 <= s@.len(),
    ensures
        r == from_be8(s@.subrange(off as int, off + 8)),
{
    let ghost t = s@.subrange(off as int, off + 8);
    assert(t[0] == s@[off as int] && t[1] == s@[off + 1] && t[2] == s@[off + 2] && t[3] == s@[off
        + 3] && t[4] == s@[off + 4] && t[5] == s@[off + 5] && t[6] == s@[off + 6] && t[7] == s@[off
        + 7]);
    ((s[off] as u64) << 56u64) | ((s[off + 1] as u64) << 48u64) | ((s[off + 2] as u64) << 40u64)
        | ((s[off + 3] as u64) << 32u64) | ((s[off + 4] as u64) << 24u64) | ((s[off + 5] as u64)
        << 16u64) | ((s[off + 6] as u64) << 8u64) | (s[off + 7] as u64)
}

/// Append all bytes of `s`.
pub fn put_slice(buf: &mut Vec<u8>, s: &[u8])
    ensures
        final(buf)@ == old(buf)@ + s@,
{
    let mut i: usize = 0;
    while i < s.len()
        invariant
            i <= s@.len(),
            buf@ == old(buf)@ + s@.subrange(0, i as int),
        decreases s@.len() - i,
    {
        buf.push(s[i]);
        i += 1;
        assert(buf@ =~= old(buf)@ + s@.subrange(0, i as int));
    }
    assert(s@.subrange(0, s@.len() as int) =~= s@);
}

/// Append `n` zero bytes.
pub fn put_zeros(buf: &mut Vec<u8>, n: usize)
    ensures
        final(buf)@ == old(buf)@ + zeros(n as nat),
{
    let mut i: usize = 0;
    while i < n
        invariant
            i <= n,
            buf@ == old(buf)@ + zeros(i as nat),
        decreases n - i,
    {
        buf.push(0u8);
        i += 1;
        assert(buf@ =~= old(buf)@ + zeros(i as nat));
    }
}

/// `n` zero bytes.
pub open spec fn zeros(n: nat) -> Seq<u8> {
    Seq::new(n, |i: int| 0u8)
}

/// The bytes `s[from..to]` as a new vector.
pub fn copy_range(s: &[u8], from: usize, to: usize) -> (r: Vec<u8>)
    requires
        from <= to <= s@.len(),
    ensures
        r@ == s@.subrange(from as int, to as int),
{
    let mut r: Vec<u8> = Vec::new();
    let mut i: usize = from;
    while i < to
        invariant
            from <= i <= to <= s@.len(),
            r@ == s@.subrange(from as int, i as int),
        decreases to - i,
    {
        r.push(s[i]);
        i += 1;
        assert(r@ =~= s@.subrange(from as int, i as int));
    }
    r
}

/// `s` padded with zero bytes (or cut) to exactly `n` bytes.
pub open spec fn pad_to(s: Seq<u8>, n: nat) -> Seq<u8> {
    Seq::new(n, |i: int| if i < s.len() { s[i] } else { 0u8 })
}

/// Copy `s` into a zeroed buffer of `n` bytes.
pub fn padded(s: &[u8], n: usize) -> (r: Vec<u8>)
    requires
        s@.len() <= n,
    ensures
        r@ == pad_to(s@, n as nat),
        r@ == s@ + zeros((n - s@.len()) as nat),
{
    let mut r: Vec<u8> = Vec::new();
    put_slice(&mut r, s);
    put_zeros(&mut r, n - s.len());
    assert(r@ =~= pad_to(s@, n as nat));
    r
}

/// Calls `String::from_utf8`. Claimed, as its documentation says: it succeeds exactly on
/// valid UTF-8 and the string then holds the decoded characters.
#[verifier::external_body]
pub fn string_from_utf8(bytes: Vec<u8>) -> (r: Result<String, std::string::FromUtf8Error>)
    ensures
        r is Ok <==> valid_utf8(bytes@),
        r matches Ok(s) ==> s@ == decode_utf8(bytes@),
{
    String::from_utf8(bytes)
}

/// The `N` bytes `s[off..off + N]` as an array.
pub fn array_at<const N: usize>(s: &[u8], off: usize) -> (r: [u8; N])
    requires
        off + N <= s@.len(),
    ensures
        r@ == s@.subrange(off as int, off + N),
{
    let len = s.len();
    let mut a = [0u8; N];
    let mut i: usize = 0;
    while i < N
        invariant
            off + N <= s@.len(),
            i <= N,
            a@.len() == N,
            len == s@.len(),
            forall|j: int| 0 <= j < i ==> a@[j] == s@[off + j],
        decreases N - i,
    {
        a[i] = s[off + i];
        i += 1;
    }
    assert(a@ =~= s@.subrange(off as int, off + N));
    a
}

/// `img` after writing `data` at position `pos`, as a file write does: bytes past the old end
/// extend the file, and a gap between the old end and `pos` reads as zeros.
pub open spec fn write_at(img: Seq<u8>, pos: int, data: Seq<u8>) -> Seq<u8> {
    let len = if pos + data.len() > img.len() { pos + data.len() } else { img.len() as int };
    Seq::new(
        len as nat,
        |i: int|
            if pos <= i < pos + data.len() {
                data[i - pos]
            } else if i < img.len() {
                img[i]
            } else {
                0u8
            },
    )
}

/// Write `data` into `img` at position `pos`.
pub fn write_bytes_at(img: &mut Vec<u8>, pos: usize, data: &[u8])
    requires
        pos + data@.len() <= usize::MAX,
    ensures
        final(img)@ == write_at(old(img)@, pos as int, data@),
{
    while img.len() < pos
        invariant
            old(img)@.len() <= img@.len(),
            old(img)@.len() < pos ==> img@.len() <= pos,
            old(img)@.len() >= pos ==> img@ == old(img)@,
            forall|i: int| 0 <= i < old(img)@.len() ==> img@[i] == old(img)@[i],
            forall|i: int| old(img)@.len() <= i < img@.len() ==> img@[i] == 0u8,
        decreases pos - img@.len(),
    {
        img.push(0u8);
    }
    let ghost padded = img@;
    let mut i: usize = 0;
    while i < data.len()
        invariant
            i <= data@.len(),
            pos + data@.len() <= usize::MAX,
            padded.len() >= pos,
            img@.len() == if pos + i > padded.len() { pos + i } else { padded.len() as int },
            forall|j: int| 0 <= j < img@.len() ==> img@[j] == if pos <= j < pos + i {
                data@[j - pos]
            } else {
                padded[j]
            },
        decreases data@.len() - i,
    {
        if pos + i < img.len() {
            img.set(pos + i, data[i]);
        } else {
            img.push(data[i]);
        }
        i += 1;
    }
    assert(img@ =~= write_at(old(img)@, pos as int, data@));
}

/// Zero bytes are valid UTF-8 (each one encodes the NUL character).
pub proof fn lemma_zeros_valid_utf8(n: nat)
    ensures
        valid_utf8(zeros(n)),
{
    let chars = Seq::new(n, |i: int| '\0');
    assert(vstd::utf8::is_ascii_chars(chars));
    vstd::utf8::is_ascii_chars_encode_utf8(chars);
    vstd::utf8::encode_utf8_valid_utf8(chars);
    assert(encode_utf8(chars) =~= zeros(n));
}

/// The UTF-8 bytes of a name, padded with zeros to a name field of 128 bytes.
pub open spec fn name_field(name: Seq<char>) -> Seq<u8> {
    encode_utf8(name) + zeros((128 - encode_utf8(name).len()) as nat)
}

/// Convert a name to its zero-padded 128-byte field
pub fn name_buffer(name: &str) -> (r: [u8; 128])
    requires
        encode_utf8(name@).len() <= 128,
    ensures
        r@ == name_field(name@),
        valid_utf8(r@),
{
    let bytes = name.as_bytes();
    let v = padded(bytes, 128);
    proof {
        vstd::utf8::encode_utf8_valid_utf8(name@);
        lemma_zeros_valid_utf8((128 - bytes@.len()) as nat);
        vstd::utf8::valid_utf8_concat(bytes@, zeros((128 - bytes@.len()) as nat));
    }
    array_at::<128>(v.as_slice(), 0)
}

/// The bytes `s` without their trailing zero bytes.
pub open spec fn trim_zeros(s: Seq<u8>) -> Seq<u8>
    decreases s.len(),
{
    if s.len() > 0 && s.last() == 0 {
        trim_zeros(s.drop_last())
    } else {
        s
    }
}

/// Drop the trailing zero bytes (the padding) of `s`.
pub fn trim_trailing_zeros(s: &[u8]) -> (r: Vec<u8>)
    ensures
        r@ == trim_zeros(s@),
{
    let mut n = s.len();
    assert(s@.subrange(0, n as int) =~= s@);
    while n > 0 && s[n - 1] == 0
        invariant
            n <= s@.len(),
            trim_zeros(s@) == trim_zeros(s@.subrange(0, n as int)),
        decreases n,
    {
        assert(s@.subrange(0, n as int).drop_last() =~= s@.subrange(0, n - 1));
        n -= 1;
    }
    proof {
        assert(trim_zeros(s@.subrange(0, n as int)) == s@.subrange(0, n as int));
    }
    copy_range(s, 0, n)
}

/// The value of 8 little-endian bytes (what `u64::from_le_bytes` computes; the table-based
/// archive stores its integers in this order).
pub open spec fn from_le8(s: Seq<u8>) -> u64 {
    ((s[7] as u64) << 56u64) | ((s[6] as u64) << 48u64) | ((s[5] as u64) << 40u64) | ((s[4] as u64)
        << 32u64) | ((s[3] as u64) << 24u64) | ((s[2] as u64) << 16u64) | ((s[1] as u64) << 8u64)
        | (s[0] as u64)
}

/// Read 8 little-endian bytes at `off`.
pub fn get_u64_le(s: &[u8], off: usize) -> (r: u64)
    requires
        off + 8 <= s@.len(),
    ensures
        r == from_le8(s@.subrange(off as int, off + 8)),
{
    let _n = s.len();
    let ghost t = s@.subrange(off as int, off + 8);
    assert(t[0] == s@[off as int] && t[1] == s@[off + 1] && t[2] == s@[off + 2] && t[3] == s@[off
        + 3] && t[4] == s@[off + 4] && t[5] == s@[off + 5] && t[6] == s@[off + 6] && t[7] == s@[off
        + 7]);
    ((s[off + 7] as u64) << 56u64) | ((s[off + 6] as u64) << 48u64) | ((s[off + 5] as u64) << 40u64)
        | ((s[off + 4] as u64) << 32u64) | ((s[off + 3] as u64) << 24u64) | ((s[off + 2] as u64)
        << 16u64) | ((s[off + 1] as u64) << 8u64) | (s[off] as u64)
}

/// The 8 little-endian bytes of `v` (what `u64::to_le_bytes` produces).
pub open spec fn le8(v: u64) -> Seq<u8> {
    seq![
        v as u8,
        (v >> 8u64) as u8,
        (v >> 16u64) as u8,
        (v >> 24u64) as u8,
        (v >> 32u64) as u8,
        (v >> 40u64) as u8,
        (v >> 48u64) as u8,
        (v >> 56u64) as u8,
    ]
}

/// Reading back 8 little-endian bytes gives the value they were written from.
pub proof fn lemma_le8_roundtrip(v: u64)
    ensures
        from_le8(le8(v)) == v,
        le8(v).len() == 8,
{
    let b0 = v as u8;
    let b1 = (v >> 8u64) as u8;
    let b2 = (v >> 16u64) as u8;
    let b3 = (v >> 24u64) as u8;
    let b4 = (v >> 32u64) as u8;
    let b5 = (v >> 40u64) as u8;
    let b6 = (v >> 48u64) as u8;
    let b7 = (v >> 56u64) as u8;
    assert(((b7 as u64) << 56u64) | ((b6 as u64) << 48u64) | ((b5 as u64) << 40u64) | ((b4 as u64)
        << 32u64) | ((b3 as u64) << 24u64) | ((b2 as u64) << 16u64) | ((b1 as u64) << 8u64) | (b0 as u64)
        == v) by (bit_vector)
        requires
            b0 == v as u8,
            b1 == (v >> 8u64) as u8,
            b2 == (v >> 16u64) as u8,
            b3 == (v >> 24u64) as u8,
            b4 == (v >> 32u64) as u8,
            b5 == (v >> 40u64) as u8,
            b6 == (v >> 48u64) as u8,
            b7 == (v >> 56u64) as u8,
    ;
}

/// Append the 8 little-endian bytes of `v`.
pub fn put_u64_le(buf: &mut Vec<u8>, v: u64)
    ensures
        final(buf)@ == old(buf)@ + le8(v),
{
    buf.push(v as u8);
    buf.push((v >> 8u64) as u8);
    buf.push((v >> 16u64) as u8);
    buf.push((v >> 24u64) as u8);
    buf.push((v >> 32u64) as u8);
    buf.push((v >> 40u64) as u8);
    buf.push((v >> 48u64) as u8);
    buf.push((v >> 56u64) as u8);
    assert(buf@ =~= old(buf)@ + le8(v));
}

} // verus!
