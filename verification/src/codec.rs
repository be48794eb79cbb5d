//! Record framing: a key/value pair serialized as
//! `key_len (u64 LE) | value_len (u64 LE) | key bytes | value bytes`,
//! together with the fixed-width integer primitives the store shares.

use vstd::prelude::*;

verus! {

/// Errors surfaced by the codec and the block store.
#[derive(Debug, Clone, Copy, PartialEq, Eq, Structural)]
pub enum Error {
    /// No free run in the target bucket is large enough for the record.
    NoRoom,
    /// The framed record (the payload is its framed length) exceeds the
    /// block size, so no bucket could ever hold it.
    TooBig(u64),
    /// The key has no live record in its bucket.
    NotFound,
    /// The external serializer rejected a value.
    BinCode,
    /// The byte image is truncated or a bucket's framing is broken.
    Io,
}

/// Byte `i` of the 8-byte little-endian encoding of `x`.
pub open spec fn u64_le_byte(x: u64, i: int) -> u8 {
    ((x >> ((8 * i) as u64)) & 0xff) as u8
}

/// The 8-byte little-endian encoding of `x`.
pub open spec fn u64_le_bytes(x: u64) -> Seq<u8> {
    Seq::new(8, |i: int| u64_le_byte(x, i))
}

/// The value read back from 8 little-endian bytes.
pub open spec fn le_bytes_to_u64(s: Seq<u8>) -> u64 {
    (s[0] as u64)
        | ((s[1] as u64) << 8u64)
        | ((s[2] as u64) << 16u64)
        | ((s[3] as u64) << 24u64)
        | ((s[4] as u64) << 32u64)
        | ((s[5] as u64) << 40u64)
        | ((s[6] as u64) << 48u64)
        | ((s[7] as u64) << 56u64)
}

/// Writing a `u64` and reading it back is the identity.
pub proof fn lemma_le_roundtrip(x: u64)
    ensures
        le_bytes_to_u64(u64_le_bytes(x)) == x,
{
    let s = u64_le_bytes(x);
    assert(s[0] == ((x >> 0u64) & 0xff) as u8);
    assert(s[1] == ((x >> 8u64) & 0xff) as u8);
    assert(s[2] == ((x >> 16u64) & 0xff) as u8);
    assert(s[3] == ((x >> 24u64) & 0xff) as u8);
    assert(s[4] == ((x >> 32u64) & 0xff) as u8);
    assert(s[5] == ((x >> 40u64) & 0xff) as u8);
    assert(s[6] == ((x >> 48u64) & 0xff) as u8);
    assert(s[7] == ((x >> 56u64) & 0xff) as u8);
    assert((((((x >> 0u64) & 0xff) as u8) as u64)
        | (((((x >> 8u64) & 0xff) as u8) as u64) << 8u64)
        | (((((x >> 16u64) & 0xff) as u8) as u64) << 16u64)
        | (((((x >> 24u64) & 0xff) as u8) as u64) << 24u64)
        | (((((x >> 32u64) & 0xff) as u8) as u64) << 32u64)
        | (((((x >> 40u64) & 0xff) as u8) as u64) << 40u64)
        | (((((x >> 48u64) & 0xff) as u8) as u64) << 48u64)
        | (((((x >> 56u64) & 0xff) as u8) as u64) << 56u64)) == x) by (bit_vector);
}

/// What `bincode` makes of a string: its canonical byte encoding
/// (an 8-byte little-endian length followed by the UTF-8 bytes).
pub uninterp spec fn str_enc(s: Seq<char>) -> Seq<u8>;

/// Byte `i` of the 4-byte little-endian (two's complement) encoding of `x`.
pub open spec fn i32_le_byte(x: i32, i: int) -> u8 {
    (((x as u32) >> ((8 * i) as u32)) & 0xff) as u8
}

/// The 4-byte little-endian encoding of an `i32`.
pub open spec fn i32_le_bytes(x: i32) -> Seq<u8> {
    Seq::new(4, |i: int| i32_le_byte(x, i))
}

/// Encodes a string key or value the way the store's external codec does.
///
/// Relies on `bincode::serialize`, whose default configuration writes an
/// 8-byte little-endian length followed by the UTF-8 bytes, with no size
/// limit; for strings that serializer cannot fail.
#[verifier::external_body]
pub fn encode_str(s: &str) -> (r: Vec<u8>)
    ensures
        r@ == str_enc(s@),
{
    bincode::serialize(s).expect("string serialization is infallible")
}

/// Encodes an `i32` key or value the way the store's external codec does.
///
/// Relies on `bincode::serialize`, whose default configuration writes a
/// fixed-width integer as its 4 little-endian bytes and cannot fail.
#[verifier::external_body]
pub fn encode_i32(x: i32) -> (r: Vec<u8>)
    ensures
        r@ == i32_le_bytes(x),
{
    bincode::serialize(&x).expect("integer serialization is infallible")
}

/// A record: one encoded key and one encoded value, framed on the wire as
/// `key_len | value_len | key bytes | value bytes`.
///
/// A record read back from a free slot has an empty key; its "value"
/// bytes are the free run's spare capacity and are never decoded.
#[derive(Debug)]
pub struct Blob {
    k: Vec<u8>,
    v: Vec<u8>,
}

/// The framing a slot occupies at `pos` in `b`: `None` if even the
/// 16-byte header or the payloads would run past the end of `b`,
/// otherwise the key and value byte sequences.
pub open spec fn parse_slot(b: Seq<u8>, pos: int) -> Option<(Seq<u8>, Seq<u8>)> {
    if pos < 0 || pos + 16 > b.len() {
        None
    } else {
        let klen = le_bytes_to_u64(b.subrange(pos, pos + 8)) as int;
        let vlen = le_bytes_to_u64(b.subrange(pos + 8, pos + 16)) as int;
        if pos + 16 + klen + vlen > b.len() {
            None
        } else {
            Some((
                b.subrange(pos + 16, pos + 16 + klen),
                b.subrange(pos + 16 + klen, pos + 16 + klen + vlen),
            ))
        }
    }
}

/// Copies `data[start .. start + n]` into a fresh vector.
pub fn copy_range(data: &Vec<u8>, start: usize, n: usize) -> (r: Vec<u8>)
    requires
        start + n <= data@.len(),
    ensures
        r@ == data@.subrange(start as int, start as int + n as int),
{
    let dl = data.len();
    let mut r: Vec<u8> = Vec::new();
    let mut i: usize = 0;
    while i < n
        invariant
            i <= n,
            dl == data@.len(),
            start + n <= dl,
            r@ == data@.subrange(start as int, start as int + i as int),
        decreases n - i,
    {
        r.push(data[start + i]);
        proof {
            assert(data@.subrange(start as int, start as int + i as int + 1)
                =~= data@.subrange(start as int, start as int + i as int)
                    .push(data@[start as int + i as int]));
        }
        i = i + 1;
    }
    r
}

impl Blob {
    /// The encoded key bytes.
    pub closed spec fn key(&self) -> Seq<u8> {
        self.k@
    }

    /// The encoded value bytes.
    pub closed spec fn val(&self) -> Seq<u8> {
        self.v@
    }

    /// The framed size fits in the machine word.
    pub open spec fn wf(&self) -> bool {
        16 + self.key().len() + self.val().len() <= usize::MAX
    }

    /// The framed size: a 16-byte header plus both payloads.
    pub open spec fn spec_len(&self) -> int {
        16 + self.key().len() as int + self.val().len() as int
    }

    /// The wire bytes of this record.
    pub open spec fn bytes(&self) -> Seq<u8> {
        u64_le_bytes(self.key().len() as u64) + u64_le_bytes(self.val().len() as u64)
            + self.key() + self.val()
    }

    /// Builds a record from already-encoded key and value bytes.
    pub fn from(k: Vec<u8>, v: Vec<u8>) -> (b: Blob)
        requires
            16 + k@.len() + v@.len() <= usize::MAX,
        ensures
            b.key() == k@,
            b.val() == v@,
            b.wf(),
    {
        Blob { k, v }
    }

    /// A record is never the empty value.
    pub fn is_empty(&self) -> (r: bool)
        ensures
            r == false,
    {
        false
    }

    /// The encoded key bytes, borrowed.
    pub fn key_bytes(&self) -> (r: &Vec<u8>)
        ensures
            r@ == self.key(),
    {
        &self.k
    }

    /// The encoded value bytes, borrowed.
    pub fn val_bytes(&self) -> (r: &Vec<u8>)
        ensures
            r@ == self.val(),
    {
        &self.v
    }

    /// The framed size of this record.
    pub fn len(&self) -> (r: usize)
        requires
            self.wf(),
        ensures
            r == self.spec_len(),
    {
        16 + self.k.len() + self.v.len()
    }

    /// The seeded hash of the encoded key, used for bucket routing.
    pub fn k_hash(&self, seed: u64) -> (r: u64)
        ensures
            r == crate::hasher::hash_spec(seed, self.key()),
    {
        crate::hasher::hash(seed, self.k.as_slice())
    }

    /// True iff the two records' encoded key bytes are exactly equal.
    pub fn key_match(&self, rhs: &Blob) -> (r: bool)
        ensures
            r == (self.key() == rhs.key()),
    {
        let r = self.k == rhs.k;
        proof {
            if self.k@ =~= rhs.k@ {
                assert(self.key() == rhs.key());
            }
        }
        r
    }

    /// Decodes the value bytes as a string.
    ///
    /// Relies on `bincode::deserialize`, which for any string `s` turns
    /// the canonical encoding of `s` back into `s`.
    #[verifier::external_body]
    pub fn get_v(&self) -> (r: Result<String, Error>)
        ensures
            forall|s: Seq<char>| self.val() == #[trigger] str_enc(s) ==> r is Ok && r->Ok_0@ == s,
    {
        match bincode::deserialize::<String>(&self.v) {
            Ok(s) => Ok(s),
            Err(_) => Err(Error::BinCode),
        }
    }

    /// Appends the 8 little-endian bytes of `data` to `w`.
    pub fn write_u64(w: &mut Vec<u8>, data: u64)
        ensures
            final(w)@ == old(w)@ + u64_le_bytes(data),
    {
        let mut i: u64 = 0;
        while i < 8
            invariant
                i <= 8,
                w@ == old(w)@ + u64_le_bytes(data).take(i as int),
            decreases 8 - i,
        {
            w.push(((data >> (8 * i)) & 0xff) as u8);
            proof {
                assert(u64_le_bytes(data).take(i as int + 1)
                    =~= u64_le_bytes(data).take(i as int).push(u64_le_byte(data, i as int)));
            }
            i = i + 1;
        }
        proof {
            assert(u64_le_bytes(data).take(8) =~= u64_le_bytes(data));
        }
    }

    /// Reads the `u64` whose 8 little-endian bytes sit at `pos` in `r`.
    pub fn read_u64(data: &Vec<u8>, pos: usize) -> (x: u64)
        requires
            pos + 8 <= data@.len(),
        ensures
            x == le_bytes_to_u64(data@.subrange(pos as int, pos as int + 8)),
    {
        let dl = data.len();
        let x = (data[pos] as u64)
            | ((data[pos + 1] as u64) << 8u64)
            | ((data[pos + 2] as u64) << 16u64)
            | ((data[pos + 3] as u64) << 24u64)
            | ((data[pos + 4] as u64) << 32u64)
            | ((data[pos + 5] as u64) << 40u64)
            | ((data[pos + 6] as u64) << 48u64)
            | ((data[pos + 7] as u64) << 56u64);
        proof {
            let s = data@.subrange(pos as int, pos as int + 8);
            assert(s[0] == data@[pos as int]);
            assert(s[1] == data@[pos as int + 1]);
            assert(s[2] == data@[pos as int + 2]);
            assert(s[3] == data@[pos as int + 3]);
            assert(s[4] == data@[pos as int + 4]);
            assert(s[5] == data@[pos as int + 5]);
            assert(s[6] == data@[pos as int + 6]);
            assert(s[7] == data@[pos as int + 7]);
        }
        x
    }

    /// Appends the wire bytes of this record to `w`.
    pub fn write(&self, w: &mut Vec<u8>)
        requires
            self.wf(),
        ensures
            final(w)@ == old(w)@ + self.bytes(),
    {
        Self::write_u64(w, self.k.len() as u64);
        Self::write_u64(w, self.v.len() as u64);
        w.extend_from_slice(self.k.as_slice());
        w.extend_from_slice(self.v.as_slice());
        proof {
            assert(w@ =~= old(w)@ + self.bytes());
        }
    }

    /// Reads the record framed at `pos` in `data`: the inverse of `write`.
    ///
    /// Fails with `Io` when the header or the payloads would run past the
    /// end of `data`.
    pub fn read(data: &Vec<u8>, pos: usize) -> (r: Result<Blob, Error>)
        ensures
            r is Ok <==> parse_slot(data@, pos as int) is Some,
            r is Ok ==> {
                let (k, v) = parse_slot(data@, pos as int)->Some_0;
                r->Ok_0.key() == k && r->Ok_0.val() == v && r->Ok_0.wf()
            },
            r is Err ==> r->Err_0 == Error::Io,
    {
        if data.len() < 16 || pos > data.len() - 16 {
            return Err(Error::Io);
        }
        let klen = Self::read_u64(data, pos);
        let vlen = Self::read_u64(data, pos + 8);
        let rem = (data.len() - (pos + 16)) as u64;
        if klen > rem || vlen > rem - klen {
            return Err(Error::Io);
        }
        let k = copy_range(data, pos + 16, klen as usize);
        let v = copy_range(data, pos + 16 + klen as usize, vlen as usize);
        Ok(Blob { k, v })
    }
}

} // verus!
