//! A very small length-prefixed byte serializer.
//!
//! Every stream starts with a two-byte big-endian version tag inserted at
//! construction; each payload is preceded by a two-byte big-endian length.
//! Truncated reads are reported by returning zero or an empty payload, which
//! callers must treat as end-of-stream.

use vstd::prelude::*;
use vstd::slice::*;

verus! {

/// The big-endian 16-bit value stored at offset `i` of `s`.
pub open spec fn be16(s: Seq<u8>, i: int) -> u16
    recommends
        0 <= i,
        i + 2 <= s.len(),
{
    (s[i] as u16 * 256 + s[i + 1] as u16) as u16
}

/// The two big-endian bytes of a 16-bit value.
pub open spec fn be16_bytes(v: u16) -> Seq<u8> {
    seq![(v / 256) as u8, (v % 256) as u8]
}

/// Splitting a 16-bit value into its two big-endian bytes and reading them
/// back yields the value again.
pub proof fn lemma_be16_round_trip(v: u16)
    ensures
        be16(be16_bytes(v), 0) == v,
{
}

/// Serializer that appends length-prefixed payloads to a growing buffer.
pub struct SimplePushSerializer {
    vec_data: Vec<u8>,
    pub version: u16,
}

impl SimplePushSerializer {
    /// The bytes accumulated so far.
    pub closed spec fn data(&self) -> Seq<u8> {
        self.vec_data@
    }

    /// The version tag the stream was opened with.
    pub closed spec fn spec_version(&self) -> u16 {
        self.version
    }

    /// Starts a buffer holding the two version bytes.
    pub fn new(version: u16) -> (r: Self)
        ensures
            r.spec_version() == version,
            r.data() == be16_bytes(version),
    {
        let mut ser = SimplePushSerializer { vec_data: Vec::new(), version };
        let v = ser.version;
        ser.push_u16(v);
        assert(ser.vec_data@ =~= be16_bytes(version));
        ser
    }

    /// Hands the accumulated bytes out.
    pub fn to_vec(self) -> (r: Vec<u8>)
        ensures
            r@ == self.data(),
    {
        self.vec_data
    }

    /// Number of bytes accumulated so far.
    pub fn data_len(&self) -> (r: usize)
        ensures
            r == self.data().len(),
    {
        self.vec_data.len()
    }

    /// Appends the two big-endian bytes of `data`.
    pub fn push_u16(&mut self, data: u16)
        ensures
            final(self).spec_version() == old(self).spec_version(),
            final(self).data() == old(self).data() + be16_bytes(data),
    {
        self.vec_data.push((data / 256) as u8);
        self.vec_data.push((data % 256) as u8);
        assert(self.vec_data@ =~= old(self).vec_data@ + be16_bytes(data));
    }

    /// Appends a length-prefixed copy of `data`.
    pub fn push_vec(&mut self, data: &[u8])
        requires
            data@.len() < 65536,
        ensures
            final(self).spec_version() == old(self).spec_version(),
            final(self).data() == old(self).data() + be16_bytes(data@.len() as u16) + data@,
    {
        let sz = data.len();
        self.push_u16(sz as u16);
        let mut tail = slice_to_vec(data);
        self.vec_data.append(&mut tail);
    }
}

/// Deserializer that pops length-prefixed payloads off a borrowed buffer.
pub struct SimplePopSerializer<'a> {
    vec_data: &'a [u8],
    pub version: u16,
    position: usize,
}

impl<'a> SimplePopSerializer<'a> {
    /// The bytes being read.
    pub closed spec fn data(&self) -> Seq<u8> {
        self.vec_data@
    }

    /// The version tag read when the buffer was opened.
    pub closed spec fn spec_version(&self) -> u16 {
        self.version
    }

    /// The read cursor.
    pub closed spec fn pos(&self) -> int {
        self.position as int
    }

    /// Starts reading `vec`, consuming the leading version tag.
    /// A buffer too short for the tag reads version 0.
    pub fn new(vec: &'a [u8]) -> (r: Self)
        ensures
            r.data() == vec@,
            vec@.len() >= 2 ==> r.spec_version() == be16(vec@, 0) && r.pos() == 2,
            vec@.len() < 2 ==> r.spec_version() == 0 && r.pos() == 0,
    {
        let mut ser = SimplePopSerializer { vec_data: vec, version: 0, position: 0 };
        ser.version = ser.pop_u16();
        ser
    }

    /// Reads the next two bytes as a big-endian value and advances.
    /// A truncated buffer reads 0 and does not advance.
    pub fn pop_u16(&mut self) -> (r: u16)
        ensures
            final(self).data() == old(self).data(),
            final(self).spec_version() == old(self).spec_version(),
            old(self).pos() + 2 <= old(self).data().len() ==> r == be16(
                old(self).data(),
                old(self).pos(),
            ) && final(self).pos() == old(self).pos() + 2,
            old(self).pos() + 2 > old(self).data().len() ==> r == 0 && final(self).pos() == old(
                self,
            ).pos(),
    {
        if self.position >= self.vec_data.len() || self.vec_data.len() - self.position < 2 {
            return 0;
        }
        let res: u16 = (self.vec_data[self.position] as u16) * 256 + self.vec_data[self.position
            + 1] as u16;
        self.position = self.position + 2;
        res
    }

    /// Reads a length prefix and then that many bytes, advancing past both.
    /// A zero length or a truncated payload yields an empty vector, with the
    /// cursor advanced only past whatever prefix could be read.
    pub fn pop_vec(&mut self) -> (r: Vec<u8>)
        ensures
            final(self).data() == old(self).data(),
            final(self).spec_version() == old(self).spec_version(),
            ({
                let n = old(self).data().len() as int;
                let p = old(self).pos();
                if p + 2 <= n {
                    let sz = be16(old(self).data(), p) as int;
                    if sz == 0 || p + 2 + sz > n {
                        r@ == Seq::<u8>::empty() && final(self).pos() == p + 2
                    } else {
                        r@ == old(self).data().subrange(p + 2, p + 2 + sz) && final(self).pos()
                            == p + 2 + sz
                    }
                } else {
                    r@ == Seq::<u8>::empty() && final(self).pos() == p
                }
            }),
    {
        let sz = self.pop_u16() as usize;
        if sz == 0 || self.position >= self.vec_data.len() || self.vec_data.len() - self.position
            < sz {
            return Vec::new();
        }
        let res = slice_to_vec(slice_subrange(self.vec_data, self.position, self.position + sz));
        self.position = self.position + sz;
        res
    }

    /// Advances past a two-byte value without reading it.
    pub fn skip_u16(&mut self)
        requires
            old(self).pos() + 2 <= usize::MAX,
        ensures
            final(self).data() == old(self).data(),
            final(self).spec_version() == old(self).spec_version(),
            final(self).pos() == old(self).pos() + 2,
    {
        self.position = self.position + 2;
    }

    /// Advances past a length-prefixed payload without reading it.
    pub fn skip_vec(&mut self)
        requires
            old(self).pos() + 65537 <= usize::MAX,
        ensures
            final(self).data() == old(self).data(),
            final(self).spec_version() == old(self).spec_version(),
            ({
                let n = old(self).data().len() as int;
                let p = old(self).pos();
                if p + 2 <= n {
                    final(self).pos() == p + 2 + be16(old(self).data(), p)
                } else {
                    final(self).pos() == p
                }
            }),
    {
        let sz = self.pop_u16() as usize;
        self.position = self.position + sz;
    }
}

} // verus!
