//! Order-preserving key encodings.
//!
//! A key is an immutable byte sequence. Strings are NUL-terminated so that no
//! encoded string is a strict byte-prefix of another encoded string, and
//! signed integers have their sign bit flipped so that byte-wise lexicographic
//! order over the big-endian bytes agrees with numeric order.

use vstd::prelude::*;
use vstd::string::StringSliceAdditionalSpecFns;

verus! {

/// Length of the longest common prefix of two byte sequences.
pub open spec fn common_len(a: Seq<u8>, b: Seq<u8>) -> nat
    decreases a.len(),
{
    if a.len() == 0 || b.len() == 0 || a[0] != b[0] {
        0
    } else {
        (1 + common_len(a.skip(1), b.skip(1))) as nat
    }
}

/// `common_len` is sound: it is bounded by both lengths, the bytes below it
/// agree, and the bytes at it (when both exist) differ.
pub proof fn lemma_common_len(a: Seq<u8>, b: Seq<u8>)
    ensures
        common_len(a, b) <= a.len(),
        common_len(a, b) <= b.len(),
        forall|j: int| 0 <= j < common_len(a, b) ==> a[j] == b[j],
        common_len(a, b) < a.len() && common_len(a, b) < b.len() ==> a[common_len(a, b) as int]
            != b[common_len(a, b) as int],
    decreases a.len(),
{
    if a.len() == 0 || b.len() == 0 || a[0] != b[0] {
    } else {
        lemma_common_len(a.skip(1), b.skip(1));
        let c = common_len(a, b);
        assert forall|j: int| 0 <= j < c implies a[j] == b[j] by {
            if j > 0 {
                assert(a.skip(1)[j - 1] == a[j]);
                assert(b.skip(1)[j - 1] == b[j]);
            }
        }
        if c < a.len() && c < b.len() {
            assert(a.skip(1)[c - 1] == a[c as int]);
            assert(b.skip(1)[c - 1] == b[c as int]);
        }
    }
}

/// `common_len` is complete: any bound with the same three properties is
/// the common prefix length.
pub proof fn lemma_common_len_is(a: Seq<u8>, b: Seq<u8>, n: nat)
    requires
        n <= a.len(),
        n <= b.len(),
        forall|j: int| 0 <= j < n ==> a[j] == b[j],
        n < a.len() && n < b.len() ==> a[n as int] != b[n as int],
    ensures
        common_len(a, b) == n,
    decreases a.len(),
{
    if a.len() == 0 || b.len() == 0 || a[0] != b[0] {
        assert(n == 0);
    } else {
        assert(a[0] == b[0]);
        assert(n != 0);
        let a1 = a.skip(1);
        let b1 = b.skip(1);
        assert forall|j: int| 0 <= j < n - 1 implies a1[j] == b1[j] by {
            assert(a1[j] == a[j + 1]);
            assert(b1[j] == b[j + 1]);
        }
        if n - 1 < a1.len() && n - 1 < b1.len() {
            assert(a1[n - 1] == a[n as int]);
            assert(b1[n - 1] == b[n as int]);
        }
        lemma_common_len_is(a1, b1, (n - 1) as nat);
    }
}

/// Longest common prefix of `a` and `b[off..]`, as executable code.
fn common_prefix_offset(a: &[u8], b: &[u8], off: usize) -> (r: usize)
    requires
        off <= b@.len(),
    ensures
        r == common_len(a@, b@.skip(off as int)),
{
    let ghost bs = b@.skip(off as int);
    let a_len = a.len();
    let b_total = b.len();
    let b_len = b_total - off;
    let n = if a_len < b_len {
        a_len
    } else {
        b_len
    };
    let mut i: usize = 0;
    while i < n
        invariant
            n <= a@.len(),
            n <= bs.len(),
            n == a@.len() || n == bs.len(),
            bs == b@.skip(off as int),
            off + bs.len() == b@.len(),
            b@.len() == b_total,
            i <= n,
            forall|j: int| 0 <= j < i ==> a@[j] == bs[j],
        decreases n - i,
    {
        assert(bs[i as int] == b@[off + i]);
        if a[i] != b[off + i] {
            proof {
                lemma_common_len_is(a@, bs, i as nat);
            }
            return i;
        }
        i += 1;
    }
    proof {
        lemma_common_len_is(a@, bs, n as nat);
    }
    n
}

/// A key or key fragment: an immutable byte sequence with positional reads,
/// sub-range extraction and common-prefix measurement. The view is the byte
/// sequence itself.
pub trait Partial: View<V = Seq<u8>> + Sized {
    /// The bytes strictly before `length`.
    fn partial_before(&self, length: usize) -> (r: Self)
        requires
            length <= self@.len(),
        ensures
            r@ == self@.subrange(0, length as int),
    ;

    /// `length` bytes starting at `src_offset`.
    fn partial_from(&self, src_offset: usize, length: usize) -> (r: Self)
        requires
            src_offset + length <= self@.len(),
        ensures
            r@ == self@.subrange(src_offset as int, src_offset + length),
    ;

    /// The bytes from `start` to the end.
    fn partial_after(&self, start: usize) -> (r: Self)
        requires
            start <= self@.len(),
        ensures
            r@ == self@.skip(start as int),
    ;

    /// The byte at `pos`.
    fn at(&self, pos: usize) -> (r: u8)
        requires
            pos < self@.len(),
        ensures
            r == self@[pos as int],
    ;

    /// Number of bytes.
    fn len(&self) -> (r: usize)
        ensures
            r == self@.len(),
    ;

    /// The empty key fragment.
    fn empty() -> (r: Self)
        ensures
            r@ == Seq::<u8>::empty(),
    ;

    /// Number of bytes remaining from `at_depth` to the end.
    fn length_at(&self, at_depth: usize) -> (r: usize)
        requires
            at_depth <= self@.len(),
        ensures
            r == self@.len() - at_depth,
    ;

    /// Whether the fragment is empty.
    fn is_empty(&self) -> (r: bool)
        ensures
            r == (self@.len() == 0),
    ;

    /// Common prefix length against another key of the same type.
    fn prefix_length_common(&self, other: &Self) -> (r: usize)
        ensures
            r == common_len(self@, other@),
    ;

    /// Common prefix length against `key` read from `at_depth` onward.
    fn prefix_length_key(&self, key: &Self, at_depth: usize) -> (r: usize)
        requires
            at_depth <= key@.len(),
        ensures
            r == common_len(self@, key@.skip(at_depth as int)),
    ;

    /// Common prefix length against a raw byte slice.
    fn prefix_length_slice(&self, slice: &[u8]) -> (r: usize)
        ensures
            r == common_len(self@, slice@),
    ;

    /// The bytes as a slice.
    fn to_slice(&self) -> (r: &[u8])
        ensures
            r@ == self@,
    ;
}

/// Copy of `len` bytes of `v` starting at `a`.
fn vec_subrange(v: &Vec<u8>, a: usize, len: usize) -> (r: Vec<u8>)
    requires
        a + len <= v@.len(),
    ensures
        r@ == v@.subrange(a as int, a + len),
{
    let total = v.len();
    let b = a + len;
    let mut out: Vec<u8> = Vec::new();
    let mut i = a;
    while i < b
        invariant
            a <= i <= b <= v@.len(),
            b == a + len,
            out@ == v@.subrange(a as int, i as int),
        decreases b - i,
    {
        out.push(v[i]);
        proof {
            assert(out@ =~= v@.subrange(a as int, i + 1));
        }
        i += 1;
    }
    out
}

/// Big-endian bytes of a `u16`.
pub open spec fn be16(v: u16) -> Seq<u8> {
    seq![(v >> 8) as u8, v as u8]
}

/// Big-endian bytes of a `u32`.
pub open spec fn be32(v: u32) -> Seq<u8> {
    seq![(v >> 24) as u8, (v >> 16) as u8, (v >> 8) as u8, v as u8]
}

/// Big-endian bytes of a `u64`.
pub open spec fn be64(v: u64) -> Seq<u8> {
    seq![
        (v >> 56) as u8,
        (v >> 48) as u8,
        (v >> 40) as u8,
        (v >> 32) as u8,
        (v >> 24) as u8,
        (v >> 16) as u8,
        (v >> 8) as u8,
        v as u8,
    ]
}

/// Big-endian bytes of a `u128`.
pub open spec fn be128(v: u128) -> Seq<u8> {
    seq![
        (v >> 120) as u8,
        (v >> 112) as u8,
        (v >> 104) as u8,
        (v >> 96) as u8,
        (v >> 88) as u8,
        (v >> 80) as u8,
        (v >> 72) as u8,
        (v >> 64) as u8,
        (v >> 56) as u8,
        (v >> 48) as u8,
        (v >> 40) as u8,
        (v >> 32) as u8,
        (v >> 24) as u8,
        (v >> 16) as u8,
        (v >> 8) as u8,
        v as u8,
    ]
}

fn be128_vec(v: u128) -> (r: Vec<u8>)
    ensures
        r@ == be128(v),
{
    let r = vec![
        #[verifier::truncate] ((v >> 120) as u8),
        #[verifier::truncate] ((v >> 112) as u8),
        #[verifier::truncate] ((v >> 104) as u8),
        #[verifier::truncate] ((v >> 96) as u8),
        #[verifier::truncate] ((v >> 88) as u8),
        #[verifier::truncate] ((v >> 80) as u8),
        #[verifier::truncate] ((v >> 72) as u8),
        #[verifier::truncate] ((v >> 64) as u8),
        #[verifier::truncate] ((v >> 56) as u8),
        #[verifier::truncate] ((v >> 48) as u8),
        #[verifier::truncate] ((v >> 40) as u8),
        #[verifier::truncate] ((v >> 32) as u8),
        #[verifier::truncate] ((v >> 24) as u8),
        #[verifier::truncate] ((v >> 16) as u8),
        #[verifier::truncate] ((v >> 8) as u8),
        #[verifier::truncate] (v as u8),
    ];
    proof {
        assert(r@ =~= be128(v));
    }
    r
}

fn be16_vec(v: u16) -> (r: Vec<u8>)
    ensures
        r@ == be16(v),
{
    let r = vec![#[verifier::truncate] ((v >> 8) as u8), #[verifier::truncate] (v as u8)];
    proof {
        assert(r@ =~= be16(v));
    }
    r
}

fn be32_vec(v: u32) -> (r: Vec<u8>)
    ensures
        r@ == be32(v),
{
    let r = vec![
        #[verifier::truncate] ((v >> 24) as u8),
        #[verifier::truncate] ((v >> 16) as u8),
        #[verifier::truncate] ((v >> 8) as u8),
        #[verifier::truncate] (v as u8),
    ];
    proof {
        assert(r@ =~= be32(v));
    }
    r
}

fn be64_vec(v: u64) -> (r: Vec<u8>)
    ensures
        r@ == be64(v),
{
    let r = vec![
        #[verifier::truncate] ((v >> 56) as u8),
        #[verifier::truncate] ((v >> 48) as u8),
        #[verifier::truncate] ((v >> 40) as u8),
        #[verifier::truncate] ((v >> 32) as u8),
        #[verifier::truncate] ((v >> 24) as u8),
        #[verifier::truncate] ((v >> 16) as u8),
        #[verifier::truncate] ((v >> 8) as u8),
        #[verifier::truncate] (v as u8),
    ];
    proof {
        assert(r@ =~= be64(v));
    }
    r
}

/// A key with a declared capacity of `N` bytes. Construction checks the
/// capacity; the stored bytes are exactly the key.
#[derive(Clone, Debug)]
pub struct RawKey<const N: usize> {
    data: Vec<u8>,
}

impl<const N: usize> View for RawKey<N> {
    type V = Seq<u8>;

    closed spec fn view(&self) -> Seq<u8> {
        self.data@
    }
}

impl<const N: usize> RawKey<N> {
    /// Key holding exactly the given bytes.
    pub fn from_slice(src: &[u8]) -> (r: Self)
        requires
            src@.len() <= N,
        ensures
            r@ == src@,
    {
        RawKey { data: vstd::slice::slice_to_vec(src) }
    }

    /// The key's bytes.
    pub fn to_slice(&self) -> (r: &[u8])
        ensures
            r@ == self@,
    {
        self.data.as_slice()
    }

    /// NUL-terminated encoding of a string: its UTF-8 bytes followed by one
    /// zero byte, so that no encoded string is a strict prefix of another.
    pub fn from_str(s: &str) -> (r: Self)
        requires
            s.spec_bytes().len() + 1 < N,
        ensures
            r@ == s.spec_bytes() + seq![0u8],
    {
        let mut data = vstd::slice::slice_to_vec(s.as_bytes());
        data.push(0);
        RawKey { data }
    }

    /// `from_str`, checking the capacity; `None` when the encoded string
    /// would not fit.
    pub fn try_from_str(s: &str) -> (r: Option<Self>)
        ensures
            match r {
                Some(k) => s.spec_bytes().len() + 1 < N && k@ == s.spec_bytes() + seq![0u8],
                None => !(s.spec_bytes().len() + 1 < N),
            },
    {
        proof {
            broadcast use vstd::slice::group_slice_axioms;
        }
        let n = s.as_bytes().len();
        if n < usize::MAX && n + 1 < N {
            Some(Self::from_str(s))
        } else {
            None
        }
    }

    /// NUL-terminated encoding of an owned string.
    pub fn from_string(s: &String) -> (r: Self)
        requires
            vstd::utf8::encode_utf8(s@).len() + 1 < N,
        ensures
            r@ == vstd::utf8::encode_utf8(s@) + seq![0u8],
    {
        Self::from_str(s.as_str())
    }

    /// Key from a fixed-size byte array.
    pub fn from_array<const S: usize>(arr: [u8; S]) -> (r: Self)
        requires
            S <= N,
        ensures
            r@ == arr@,
    {
        Self::from_slice(arr.as_slice())
    }

    /// Single-byte encoding of a `u8`.
    pub fn from_u8(v: u8) -> (r: Self)
        requires
            1 <= N,
        ensures
            r@ == seq![v],
    {
        let r = RawKey { data: vec![v] };
        proof {
            assert(r@ =~= seq![v]);
        }
        r
    }

    /// Big-endian encoding of a `u16`.
    pub fn from_u16(v: u16) -> (r: Self)
        requires
            2 <= N,
        ensures
            r@ == be16(v),
    {
        RawKey { data: be16_vec(v) }
    }

    /// Big-endian encoding of a `u32`.
    pub fn from_u32(v: u32) -> (r: Self)
        requires
            4 <= N,
        ensures
            r@ == be32(v),
    {
        RawKey { data: be32_vec(v) }
    }

    /// Big-endian encoding of a `u64`.
    pub fn from_u64(v: u64) -> (r: Self)
        requires
            8 <= N,
        ensures
            r@ == be64(v),
    {
        RawKey { data: be64_vec(v) }
    }

    /// Order-preserving encoding of an `i8`: the sign bit is flipped, then
    /// the byte compares like the number.
    pub fn from_i8(v: i8) -> (r: Self)
        requires
            1 <= N,
        ensures
            r@ == seq![(v as u8) ^ 0x80],
    {
        let b: u8 = #[verifier::truncate] (v as u8);
        let r = RawKey { data: vec![b ^ 0x80] };
        proof {
            assert(r@ =~= seq![(v as u8) ^ 0x80]);
        }
        r
    }

    /// Order-preserving encoding of an `i16`.
    pub fn from_i16(v: i16) -> (r: Self)
        requires
            2 <= N,
        ensures
            r@ == be16((v as u16) ^ 0x8000),
    {
        let b: u16 = #[verifier::truncate] (v as u16);
        RawKey { data: be16_vec(b ^ 0x8000) }
    }

    /// Order-preserving encoding of an `i32`.
    pub fn from_i32(v: i32) -> (r: Self)
        requires
            4 <= N,
        ensures
            r@ == be32((v as u32) ^ 0x8000_0000),
    {
        let b: u32 = #[verifier::truncate] (v as u32);
        RawKey { data: be32_vec(b ^ 0x8000_0000) }
    }

    /// Order-preserving encoding of an `i64`.
    pub fn from_i64(v: i64) -> (r: Self)
        requires
            8 <= N,
        ensures
            r@ == be64((v as u64) ^ 0x8000_0000_0000_0000),
    {
        let b: u64 = #[verifier::truncate] (v as u64);
        RawKey { data: be64_vec(b ^ 0x8000_0000_0000_0000) }
    }

    /// Big-endian encoding of a `u128`.
    pub fn from_u128(v: u128) -> (r: Self)
        requires
            16 <= N,
        ensures
            r@ == be128(v),
    {
        RawKey { data: be128_vec(v) }
    }

    /// Order-preserving encoding of an `i128`.
    pub fn from_i128(v: i128) -> (r: Self)
        requires
            16 <= N,
        ensures
            r@ == be128((v as u128) ^ 0x8000_0000_0000_0000_0000_0000_0000_0000),
    {
        let b: u128 = #[verifier::truncate] (v as u128);
        RawKey { data: be128_vec(b ^ 0x8000_0000_0000_0000_0000_0000_0000_0000) }
    }

    /// Big-endian encoding of a `usize`, widened to the full word.
    pub fn from_usize(v: usize) -> (r: Self)
        requires
            8 <= N,
        ensures
            r@ == be64(v as u64),
    {
        RawKey { data: be64_vec(v as u64) }
    }

    /// Order-preserving encoding of an `isize`, widened to the full word.
    pub fn from_isize(v: isize) -> (r: Self)
        requires
            8 <= N,
        ensures
            r@ == be64((v as i64 as u64) ^ 0x8000_0000_0000_0000),
    {
        let w: i64 = v as i64;
        let b: u64 = #[verifier::truncate] (w as u64);
        RawKey { data: be64_vec(b ^ 0x8000_0000_0000_0000) }
    }
}

impl<const N: usize> Partial for RawKey<N> {
    fn partial_before(&self, length: usize) -> (r: Self)
    {
        RawKey { data: vec_subrange(&self.data, 0, length) }
    }

    fn partial_from(&self, src_offset: usize, length: usize) -> (r: Self)
    {
        RawKey { data: vec_subrange(&self.data, src_offset, length) }
    }

    fn partial_after(&self, start: usize) -> (r: Self)
    {
        let r = RawKey { data: vec_subrange(&self.data, start, self.data.len() - start) };
        proof {
            assert(r@ =~= self@.skip(start as int));
        }
        r
    }

    fn at(&self, pos: usize) -> (r: u8)
    {
        self.data[pos]
    }

    fn len(&self) -> (r: usize)
    {
        self.data.len()
    }

    fn empty() -> (r: Self)
    {
        RawKey { data: Vec::new() }
    }

    fn length_at(&self, at_depth: usize) -> (r: usize)
    {
        self.data.len() - at_depth
    }

    fn is_empty(&self) -> (r: bool)
    {
        self.data.len() == 0
    }

    fn prefix_length_common(&self, other: &Self) -> (r: usize)
    {
        self.prefix_length_slice(other.data.as_slice())
    }

    fn prefix_length_key(&self, key: &Self, at_depth: usize) -> (r: usize)
    {
        common_prefix_offset(self.data.as_slice(), key.data.as_slice(), at_depth)
    }

    fn prefix_length_slice(&self, slice: &[u8]) -> (r: usize)
    {
        let r = common_prefix_offset(self.data.as_slice(), slice, 0);
        proof {
            assert(slice@.skip(0) =~= slice@);
        }
        r
    }

    fn to_slice(&self) -> (r: &[u8])
    {
        self.data.as_slice()
    }
}

/// A key of unbounded length backed by a growable byte vector.
#[derive(Clone, Debug)]
pub struct VectorKey {
    data: Vec<u8>,
}

impl View for VectorKey {
    type V = Seq<u8>;

    closed spec fn view(&self) -> Seq<u8> {
        self.data@
    }
}

impl VectorKey {
    /// NUL-terminated encoding of an owned string.
    pub fn from_string(s: &String) -> (r: Self)
        ensures
            r@ == vstd::utf8::encode_utf8(s@) + seq![0u8],
    {
        Self::from_str(s.as_str())
    }

    /// NUL-terminated encoding of a string: its UTF-8 bytes followed by one
    /// zero byte, so that no encoded string is a strict prefix of another.
    pub fn from_str(s: &str) -> (r: Self)
        ensures
            r@ == s.spec_bytes() + seq![0u8],
    {
        let mut data = vstd::slice::slice_to_vec(s.as_bytes());
        data.push(0);
        VectorKey { data }
    }

    /// Key holding exactly the given bytes.
    pub fn from_slice(data: &[u8]) -> (r: Self)
        ensures
            r@ == data@,
    {
        VectorKey { data: vstd::slice::slice_to_vec(data) }
    }

    /// Key owning the given bytes.
    pub fn from_vec(data: Vec<u8>) -> (r: Self)
        ensures
            r@ == data@,
    {
        VectorKey { data }
    }

    /// Big-endian encoding of a `u64`.
    pub fn from_u64(v: u64) -> (r: Self)
        ensures
            r@ == be64(v),
    {
        VectorKey { data: be64_vec(v) }
    }

    /// Order-preserving encoding of an `i64`: flips the sign bit so the
    /// big-endian bytes compare like the number.
    pub fn from_i64(v: i64) -> (r: Self)
        ensures
            r@ == be64((v as u64) ^ 0x8000_0000_0000_0000),
    {
        let b: u64 = #[verifier::truncate] (v as u64);
        VectorKey { data: be64_vec(b ^ 0x8000_0000_0000_0000) }
    }

    /// Big-endian encoding of a `u8`.
    pub fn from_u8(v: u8) -> (r: Self)
        ensures
            r@ == seq![v],
    {
        let r = VectorKey { data: vec![v] };
        proof {
            assert(r@ =~= seq![v]);
        }
        r
    }

    /// Big-endian encoding of a `u16`.
    pub fn from_u16(v: u16) -> (r: Self)
        ensures
            r@ == be16(v),
    {
        VectorKey { data: be16_vec(v) }
    }

    /// Big-endian encoding of a `u32`.
    pub fn from_u32(v: u32) -> (r: Self)
        ensures
            r@ == be32(v),
    {
        VectorKey { data: be32_vec(v) }
    }

    /// Big-endian encoding of a `u128`.
    pub fn from_u128(v: u128) -> (r: Self)
        ensures
            r@ == be128(v),
    {
        VectorKey { data: be128_vec(v) }
    }

    /// Order-preserving encoding of an `i8`.
    pub fn from_i8(v: i8) -> (r: Self)
        ensures
            r@ == seq![(v as u8) ^ 0x80],
    {
        let b: u8 = #[verifier::truncate] (v as u8);
        let r = VectorKey { data: vec![b ^ 0x80] };
        proof {
            assert(r@ =~= seq![(v as u8) ^ 0x80]);
        }
        r
    }

    /// Order-preserving encoding of an `i16`.
    pub fn from_i16(v: i16) -> (r: Self)
        ensures
            r@ == be16((v as u16) ^ 0x8000),
    {
        let b: u16 = #[verifier::truncate] (v as u16);
        VectorKey { data: be16_vec(b ^ 0x8000) }
    }

    /// Order-preserving encoding of an `i32`.
    pub fn from_i32(v: i32) -> (r: Self)
        ensures
            r@ == be32((v as u32) ^ 0x8000_0000),
    {
        let b: u32 = #[verifier::truncate] (v as u32);
        VectorKey { data: be32_vec(b ^ 0x8000_0000) }
    }

    /// Order-preserving encoding of an `i128`.
    pub fn from_i128(v: i128) -> (r: Self)
        ensures
            r@ == be128((v as u128) ^ 0x8000_0000_0000_0000_0000_0000_0000_0000),
    {
        let b: u128 = #[verifier::truncate] (v as u128);
        VectorKey { data: be128_vec(b ^ 0x8000_0000_0000_0000_0000_0000_0000_0000) }
    }

    /// Big-endian encoding of a `usize`, widened to the full word.
    pub fn from_usize(v: usize) -> (r: Self)
        ensures
            r@ == be64(v as u64),
    {
        VectorKey { data: be64_vec(v as u64) }
    }

    /// Order-preserving encoding of an `isize`, widened to the full word.
    pub fn from_isize(v: isize) -> (r: Self)
        ensures
            r@ == be64((v as i64 as u64) ^ 0x8000_0000_0000_0000),
    {
        let w: i64 = v as i64;
        let b: u64 = #[verifier::truncate] (w as u64);
        VectorKey { data: be64_vec(b ^ 0x8000_0000_0000_0000) }
    }
}

impl Partial for VectorKey {
    fn partial_before(&self, length: usize) -> (r: Self)
    {
        VectorKey { data: vec_subrange(&self.data, 0, length) }
    }

    fn partial_from(&self, src_offset: usize, length: usize) -> (r: Self)
    {
        VectorKey { data: vec_subrange(&self.data, src_offset, length) }
    }

    fn partial_after(&self, start: usize) -> (r: Self)
    {
        let r = VectorKey { data: vec_subrange(&self.data, start, self.data.len() - start) };
        proof {
            assert(r@ =~= self@.skip(start as int));
        }
        r
    }

    fn at(&self, pos: usize) -> (r: u8)
    {
        self.data[pos]
    }

    fn len(&self) -> (r: usize)
    {
        self.data.len()
    }

    fn empty() -> (r: Self)
    {
        VectorKey { data: Vec::new() }
    }

    fn length_at(&self, at_depth: usize) -> (r: usize)
    {
        self.data.len() - at_depth
    }

    fn is_empty(&self) -> (r: bool)
    {
        self.data.len() == 0
    }

    fn prefix_length_common(&self, other: &Self) -> (r: usize)
    {
        self.prefix_length_slice(other.data.as_slice())
    }

    fn prefix_length_key(&self, key: &Self, at_depth: usize) -> (r: usize)
    {
        common_prefix_offset(self.data.as_slice(), key.data.as_slice(), at_depth)
    }

    fn prefix_length_slice(&self, slice: &[u8]) -> (r: usize)
    {
        let r = common_prefix_offset(self.data.as_slice(), slice, 0);
        proof {
            assert(slice@.skip(0) =~= slice@);
        }
        r
    }

    fn to_slice(&self) -> (r: &[u8])
    {
        self.data.as_slice()
    }
}

} // verus!
