//! The panel file container: the bytes `PF`, the length of the uncompressed lab text as
//! eight little-endian bytes, then the compressed text.
use vstd::prelude::*;

verus! {

/// A lab text in compressed form, with the length it has uncompressed.
pub struct PanelFile {
    pub original_length: u64,
    pub buffer: Vec<u8>,
}

/// The eight little-endian bytes of `x`.
pub open spec fn le_bytes(x: u64) -> Seq<u8> {
    seq![
        (x & 0xff) as u8,
        ((x >> 8u64) & 0xff) as u8,
        ((x >> 16u64) & 0xff) as u8,
        ((x >> 24u64) & 0xff) as u8,
        ((x >> 32u64) & 0xff) as u8,
        ((x >> 40u64) & 0xff) as u8,
        ((x >> 48u64) & 0xff) as u8,
        ((x >> 56u64) & 0xff) as u8,
    ]
}

/// The number whose little-endian bytes are `b0` .. `b7`.
pub open spec fn from_le(b0: u8, b1: u8, b2: u8, b3: u8, b4: u8, b5: u8, b6: u8, b7: u8) -> u64 {
    (b0 as u64) | ((b1 as u64) << 8u64) | ((b2 as u64) << 16u64) | ((b3 as u64) << 24u64) | ((
    b4 as u64) << 32u64) | ((b5 as u64) << 40u64) | ((b6 as u64) << 48u64) | ((b7 as u64)
        << 56u64)
}

/// The byte at `k`, or zero past the end (a short read leaves the buffer zeroed).
pub open spec fn byte_or_zero(b: Seq<u8>, k: int) -> u8 {
    if 0 <= k < b.len() {
        b[k]
    } else {
        0
    }
}

/// The encoding of a panel file.
pub open spec fn encode_spec(original_length: u64, buffer: Seq<u8>) -> Seq<u8> {
    seq![0x50u8, 0x46u8] + le_bytes(original_length) + buffer
}

/// Whether `bytes` starts with the `PF` tag.
pub open spec fn has_tag(bytes: Seq<u8>) -> bool {
    bytes.len() >= 2 && bytes[0] == 0x50u8 && bytes[1] == 0x46u8
}

/// The length field of an encoded panel file (missing bytes read as zero).
pub open spec fn decoded_length(bytes: Seq<u8>) -> u64 {
    from_le(
        byte_or_zero(bytes, 2),
        byte_or_zero(bytes, 3),
        byte_or_zero(bytes, 4),
        byte_or_zero(bytes, 5),
        byte_or_zero(bytes, 6),
        byte_or_zero(bytes, 7),
        byte_or_zero(bytes, 8),
        byte_or_zero(bytes, 9),
    )
}

/// The compressed text of an encoded panel file: everything behind the header.
pub open spec fn decoded_buffer(bytes: Seq<u8>) -> Seq<u8> {
    if bytes.len() <= 10 {
        Seq::empty()
    } else {
        bytes.subrange(10, bytes.len() as int)
    }
}

impl PanelFile {
    /// The bytes written for this panel file.
    pub fn encode(&self) -> (out: Vec<u8>)
        ensures
            out@ == encode_spec(self.original_length, self.buffer@),
    {
        let x = self.original_length;
        let mut out: Vec<u8> = Vec::new();
        out.push(0x50u8);
        out.push(0x46u8);
        out.push((x & 0xff) as u8);
        out.push(((x >> 8u64) & 0xff) as u8);
        out.push(((x >> 16u64) & 0xff) as u8);
        out.push(((x >> 24u64) & 0xff) as u8);
        out.push(((x >> 32u64) & 0xff) as u8);
        out.push(((x >> 40u64) & 0xff) as u8);
        out.push(((x >> 48u64) & 0xff) as u8);
        out.push(((x >> 56u64) & 0xff) as u8);
        assert(out@ =~= seq![0x50u8, 0x46u8] + le_bytes(x));
        let mut k: usize = 0;
        while k < self.buffer.len()
            invariant
                k <= self.buffer@.len(),
                out@ == seq![0x50u8, 0x46u8] + le_bytes(x) + self.buffer@.take(k as int),
            decreases self.buffer.len() - k,
        {
            out.push(self.buffer[k]);
            k = k + 1;
            assert(out@ =~= seq![0x50u8, 0x46u8] + le_bytes(x) + self.buffer@.take(k as int));
        }
        assert(self.buffer@.take(k as int) =~= self.buffer@);
        out
    }

    /// Reads a panel file from its bytes; `None` where the `PF` tag is missing. A header
    /// cut short reads its missing length bytes as zero.
    pub fn decode(bytes: &[u8]) -> (r: Option<PanelFile>)
        ensures
            r is Some <==> has_tag(bytes@),
            r matches Some(pf) ==> pf.original_length == decoded_length(bytes@) && pf.buffer@
                == decoded_buffer(bytes@),
    {
        if bytes.len() < 2 || bytes[0] != 0x50u8 || bytes[1] != 0x46u8 {
            return None;
        }
        let mut b: Vec<u8> = Vec::new();
        let mut k: usize = 2;
        while k < 10
            invariant
                2 <= k <= 10,
                b@.len() == k - 2,
                forall|m: int| 0 <= m < b@.len() ==> #[trigger] b@[m] == byte_or_zero(bytes@, m + 2),
            decreases 10 - k,
        {
            if k < bytes.len() {
                b.push(bytes[k]);
            } else {
                b.push(0u8);
            }
            k = k + 1;
        }
        let b0 = b[0];
        let b1 = b[1];
        let b2 = b[2];
        let b3 = b[3];
        let b4 = b[4];
        let b5 = b[5];
        let b6 = b[6];
        let b7 = b[7];
        let len = (b0 as u64) | ((b1 as u64) << 8u64) | ((b2 as u64) << 16u64) | ((b3 as u64)
            << 24u64) | ((b4 as u64) << 32u64) | ((b5 as u64) << 40u64) | ((b6 as u64) << 48u64)
            | ((b7 as u64) << 56u64);
        let mut buffer: Vec<u8> = Vec::new();
        let mut k: usize = 10;
        while k < bytes.len()
            invariant
                10 <= k,
                k <= bytes@.len() || bytes@.len() < 10,
                bytes@.len() > 10 ==> buffer@ == bytes@.subrange(10, k as int),
                bytes@.len() <= 10 ==> buffer@.len() == 0,
            decreases bytes.len() - k,
        {
            buffer.push(bytes[k]);
            k = k + 1;
            assert(buffer@ =~= bytes@.subrange(10, k as int));
        }
        if bytes.len() > 10 {
            assert(buffer@ =~= decoded_buffer(bytes@));
        } else {
            assert(buffer@ =~= decoded_buffer(bytes@));
        }
        Some(PanelFile { original_length: len, buffer })
    }
}

/// Reading back what was written gives the panel file that was written.
pub proof fn lemma_decode_encode(original_length: u64, buffer: Seq<u8>)
    ensures
        has_tag(encode_spec(original_length, buffer)),
        decoded_length(encode_spec(original_length, buffer)) == original_length,
        decoded_buffer(encode_spec(original_length, buffer)) == buffer,
{
    let e = encode_spec(original_length, buffer);
    let x = original_length;
    assert(e[2] == (x & 0xff) as u8);
    assert(e[3] == ((x >> 8u64) & 0xff) as u8);
    assert(e[4] == ((x >> 16u64) & 0xff) as u8);
    assert(e[5] == ((x >> 24u64) & 0xff) as u8);
    assert(e[6] == ((x >> 32u64) & 0xff) as u8);
    assert(e[7] == ((x >> 40u64) & 0xff) as u8);
    assert(e[8] == ((x >> 48u64) & 0xff) as u8);
    assert(e[9] == ((x >> 56u64) & 0xff) as u8);
    assert(from_le(
        (x & 0xff) as u8,
        ((x >> 8u64) & 0xff) as u8,
        ((x >> 16u64) & 0xff) as u8,
        ((x >> 24u64) & 0xff) as u8,
        ((x >> 32u64) & 0xff) as u8,
        ((x >> 40u64) & 0xff) as u8,
        ((x >> 48u64) & 0xff) as u8,
        ((x >> 56u64) & 0xff) as u8,
    ) == x) by (bit_vector);
    if e.len() > 10 {
        assert(e.subrange(10, e.len() as int) =~= buffer);
    } else {
        assert(buffer.len() == 0);
        assert(buffer =~= Seq::<u8>::empty());
    }
}

} // verus!
