//! The shared 32-byte file header and the big-endian integer layout used by
//! both files.

use vstd::prelude::*;

verus! {

/// Magic number at offset 0 of both files: "VECT" as big-endian bytes.
pub const MAGIC: u32 = 0x5645_4354;

/// The only file format version this crate reads or writes.
pub const VERSION: u8 = 1;

/// Size in bytes of the fixed header at the start of both files.
pub const HEADER_SIZE: usize = 32;

/// The four big-endian bytes of a `u32`, most significant first.
pub open spec fn spec_u32_to_be_bytes(x: u32) -> Seq<u8> {
    seq![
        ((x >> 24) & 0xff) as u8,
        ((x >> 16) & 0xff) as u8,
        ((x >> 8) & 0xff) as u8,
        (x & 0xff) as u8,
    ]
}

/// The `u32` read from four big-endian bytes.
pub open spec fn spec_u32_from_be_bytes(s: Seq<u8>) -> u32
    recommends
        s.len() == 4,
{
    (((s[0] as u32) << 24) | ((s[1] as u32) << 16) | ((s[2] as u32) << 8) | (s[3] as u32)) as u32
}

pub proof fn lemma_u32_be_bytes_roundtrip(x: u32)
    ensures
        spec_u32_from_be_bytes(spec_u32_to_be_bytes(x)) == x,
{
    assert(((((((x >> 24) & 0xff) as u8) as u32) << 24) | (((((x >> 16) & 0xff) as u8) as u32)
        << 16) | (((((x >> 8) & 0xff) as u8) as u32) << 8) | (((x & 0xff) as u8) as u32)) as u32
        == x) by (bit_vector);
}

pub proof fn lemma_u32_be_bytes_identity(s: Seq<u8>)
    requires
        s.len() == 4,
    ensures
        spec_u32_to_be_bytes(spec_u32_from_be_bytes(s)) == s,
{
    let b0 = s[0];
    let b1 = s[1];
    let b2 = s[2];
    let b3 = s[3];
    let x = spec_u32_from_be_bytes(s);
    assert(((x >> 24) & 0xff) as u8 == b0 && ((x >> 16) & 0xff) as u8 == b1 && ((x >> 8) & 0xff)
        as u8 == b2 && (x & 0xff) as u8 == b3) by (bit_vector)
        requires
            x == (((b0 as u32) << 24) | ((b1 as u32) << 16) | ((b2 as u32) << 8) | (b3 as u32))
                as u32,
    ;
    assert(spec_u32_to_be_bytes(x) =~= s);
}

/// Appends the four big-endian bytes of `x` to `out`.
pub fn push_u32_be(out: &mut Vec<u8>, x: u32)
    ensures
        final(out)@ == old(out)@ + spec_u32_to_be_bytes(x),
{
    out.push(((x >> 24) & 0xff) as u8);
    out.push(((x >> 16) & 0xff) as u8);
    out.push(((x >> 8) & 0xff) as u8);
    out.push((x & 0xff) as u8);
    proof {
        assert(out@ =~= old(out)@ + spec_u32_to_be_bytes(x));
    }
}

/// Reads a big-endian `u32` from `buf` at byte offset `off`.
pub fn read_u32_be(buf: &Vec<u8>, off: usize) -> (r: u32)
    requires
        off + 4 <= buf@.len(),
    ensures
        r == spec_u32_from_be_bytes(buf@.subrange(off as int, off as int + 4)),
{
    let n = buf.len();
    let r: u32 = ((buf[off] as u32) << 24) | ((buf[off + 1] as u32) << 16) | ((buf[off + 2]
        as u32) << 8) | (buf[off + 3] as u32);
    proof {
        let s = buf@.subrange(off as int, off as int + 4);
        assert(s[0] == buf@[off as int]);
        assert(s[1] == buf@[off as int + 1]);
        assert(s[2] == buf@[off as int + 2]);
        assert(s[3] == buf@[off as int + 3]);
    }
    r
}

/// The byte encoding of an array of vector components (IEEE-754 bit
/// patterns), four big-endian bytes each.
pub open spec fn vec_bits_encoding(v: Seq<u32>) -> Seq<u8>
    decreases v.len(),
{
    if v.len() == 0 {
        Seq::empty()
    } else {
        vec_bits_encoding(v.drop_last()) + spec_u32_to_be_bytes(v.last())
    }
}

/// The component array read back from bytes, one `u32` per four bytes.
pub open spec fn vec_bits_decoding(b: Seq<u8>) -> Seq<u32> {
    Seq::new((b.len() / 4) as nat, |i: int| spec_u32_from_be_bytes(b.subrange(4 * i, 4 * i + 4)))
}

pub proof fn lemma_vec_bits_encoding_len(v: Seq<u32>)
    ensures
        vec_bits_encoding(v).len() == 4 * v.len(),
    decreases v.len(),
{
    if v.len() > 0 {
        lemma_vec_bits_encoding_len(v.drop_last());
    }
}

pub proof fn lemma_vec_bits_encoding_index(v: Seq<u32>, i: int)
    requires
        0 <= i < v.len(),
    ensures
        vec_bits_encoding(v).subrange(4 * i, 4 * i + 4) == spec_u32_to_be_bytes(v[i]),
    decreases v.len(),
{
    lemma_vec_bits_encoding_len(v);
    lemma_vec_bits_encoding_len(v.drop_last());
    if i == v.len() - 1 {
        assert(vec_bits_encoding(v).subrange(4 * i, 4 * i + 4) =~= spec_u32_to_be_bytes(v[i]));
    } else {
        lemma_vec_bits_encoding_index(v.drop_last(), i);
        assert(vec_bits_encoding(v).subrange(4 * i, 4 * i + 4) =~= vec_bits_encoding(
            v.drop_last(),
        ).subrange(4 * i, 4 * i + 4));
    }
}

/// Encoding a component array and reading it back yields the same array.
pub proof fn lemma_vec_bits_roundtrip(v: Seq<u32>)
    ensures
        vec_bits_decoding(vec_bits_encoding(v)) == v,
{
    lemma_vec_bits_encoding_len(v);
    assert forall|i: int| 0 <= i < v.len() implies vec_bits_decoding(vec_bits_encoding(v))[i]
        == v[i] by {
        lemma_vec_bits_encoding_index(v, i);
        lemma_u32_be_bytes_roundtrip(v[i]);
    }
    assert(vec_bits_decoding(vec_bits_encoding(v)) =~= v);
}

/// The file header that opens both the data log and the vector file.
#[derive(Debug, Clone, Copy, PartialEq, Eq, Structural)]
pub struct FileHeader {
    /// Magic number identifying the file type.
    pub magic: u32,
    /// File format version.
    pub version: u8,
    /// Flag bits, reserved and written as zero.
    pub flags: u8,
    /// Dimension of the vectors the files hold.
    pub dimension: u32,
}

/// The 32 header bytes announcing format version and dimension.
pub open spec fn spec_header_bytes(dimension: u32) -> Seq<u8> {
    spec_u32_to_be_bytes(MAGIC) + seq![VERSION, 0u8] + spec_u32_to_be_bytes(dimension)
        + Seq::new(22, |i: int| 0u8)
}

impl FileHeader {
    /// A header for a fresh file of the given dimension.
    pub fn new(dimension: u32) -> (h: Self)
        ensures
            h.magic == MAGIC,
            h.version == VERSION,
            h.flags == 0,
            h.dimension == dimension,
    {
        FileHeader { magic: MAGIC, version: VERSION, flags: 0, dimension }
    }

    /// The header's 32-byte encoding.
    pub open spec fn encoding(self) -> Seq<u8> {
        spec_u32_to_be_bytes(self.magic) + seq![self.version, self.flags] + spec_u32_to_be_bytes(
            self.dimension,
        ) + Seq::new(22, |i: int| 0u8)
    }

    /// Encodes the header as its 32 bytes.
    pub fn encode(&self) -> (out: Vec<u8>)
        ensures
            out@ == self.encoding(),
            out@.len() == HEADER_SIZE,
    {
        let mut out: Vec<u8> = Vec::new();
        push_u32_be(&mut out, self.magic);
        out.push(self.version);
        out.push(self.flags);
        push_u32_be(&mut out, self.dimension);
        let mut i: usize = 0;
        while i < 22
            invariant
                out@ == spec_u32_to_be_bytes(self.magic) + seq![self.version, self.flags]
                    + spec_u32_to_be_bytes(self.dimension) + Seq::new(i as nat, |j: int| 0u8),
                i <= 22,
            decreases 22 - i,
        {
            out.push(0u8);
            proof {
                assert(Seq::new((i + 1) as nat, |j: int| 0u8) =~= Seq::new(i as nat, |j: int| 0u8)
                    + seq![0u8]);
            }
            i = i + 1;
        }
        proof {
            assert(out@ =~= self.encoding());
        }
        out
    }

    /// Decodes and validates a header from the first 32 bytes of `buf`.
    /// Returns `None` when the buffer is short, the magic number is wrong,
    /// or the version is unsupported. Reserved bytes are not inspected.
    pub fn decode(buf: &Vec<u8>) -> (r: Option<FileHeader>)
        ensures
            match r {
                Some(h) => {
                    &&& buf@.len() >= HEADER_SIZE
                    &&& h.magic == MAGIC
                    &&& h.magic == spec_u32_from_be_bytes(buf@.subrange(0, 4))
                    &&& h.version == VERSION && h.version == buf@[4]
                    &&& h.flags == buf@[5]
                    &&& h.dimension == spec_u32_from_be_bytes(buf@.subrange(6, 10))
                },
                None => buf@.len() < HEADER_SIZE || spec_u32_from_be_bytes(buf@.subrange(0, 4))
                    != MAGIC || buf@[4] != VERSION,
            },
    {
        if buf.len() < HEADER_SIZE {
            return None;
        }
        let magic = read_u32_be(buf, 0);
        if magic != MAGIC {
            return None;
        }
        let version = buf[4];
        if version != VERSION {
            return None;
        }
        let flags = buf[5];
        let dimension = read_u32_be(buf, 6);
        Some(FileHeader { magic, version, flags, dimension })
    }
}

/// A freshly encoded header decodes to itself, and `spec_header_bytes` is its
/// byte form.
pub proof fn lemma_header_bytes_fields(dimension: u32)
    ensures
        spec_header_bytes(dimension).len() == HEADER_SIZE,
        spec_u32_from_be_bytes(spec_header_bytes(dimension).subrange(0, 4)) == MAGIC,
        spec_header_bytes(dimension)[4] == VERSION,
        spec_header_bytes(dimension)[5] == 0u8,
        spec_u32_from_be_bytes(spec_header_bytes(dimension).subrange(6, 10)) == dimension,
{
    let b = spec_header_bytes(dimension);
    assert(b.subrange(0, 4) =~= spec_u32_to_be_bytes(MAGIC));
    assert(b.subrange(6, 10) =~= spec_u32_to_be_bytes(dimension));
    lemma_u32_be_bytes_roundtrip(MAGIC);
    lemma_u32_be_bytes_roundtrip(dimension);
}

} // verus!
