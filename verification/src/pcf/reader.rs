//! Byte-level reading of binary DMX: a cursor over the input with
//! little-endian integers, null-terminated strings and count sanity checks.
//! Every read is stated against a pure function of the input bytes and the
//! cursor position, so the document grammar in `dmx` can be written from them.
use vstd::prelude::*;
use vstd::utf8::*;

use super::PcfError;

verus! {

/// The text `String::from_utf8_lossy` makes of `bytes`.
pub uninterp spec fn lossy_utf8(bytes: Seq<u8>) -> Seq<char>;

/// `String::from_utf8_lossy(bytes).into_owned()`.
///
/// The contract names the result by `lossy_utf8` of the bytes, and states the
/// one documented fact callers lean on: bytes that are valid UTF-8 decode
/// unchanged. How invalid sequences are replaced is left unstated.
#[verifier::external_body]
fn lossy_string(bytes: &[u8]) -> (s: String)
    ensures
        s@ == lossy_utf8(bytes@),
        valid_utf8(bytes@) ==> s@ == decode_utf8(bytes@),
{
    String::from_utf8_lossy(bytes).into_owned()
}

/// The cursor after reading `n` bytes at `p`, if they are there.
pub open spec fn sp_take(s: Seq<u8>, p: int, n: int) -> Result<int, PcfError> {
    if p + n <= s.len() {
        Ok(p + n)
    } else {
        Err(PcfError::Truncated)
    }
}

pub open spec fn sp_u8(s: Seq<u8>, p: int) -> Result<(u8, int), PcfError> {
    match sp_take(s, p, 1) {
        Ok(q) => Ok((s[p], q)),
        Err(e) => Err(e),
    }
}

/// Little-endian `u16` at `p`.
pub open spec fn le_u16(s: Seq<u8>, p: int) -> u16 {
    (s[p] + 256 * s[p + 1]) as u16
}

/// Little-endian `u32` at `p`.
pub open spec fn le_u32(s: Seq<u8>, p: int) -> u32 {
    (s[p] + 256 * s[p + 1] + 65536 * s[p + 2] + 16777216 * s[p + 3]) as u32
}

/// The two's-complement `i32` with the bits of `u`.
pub open spec fn u32_as_i32(u: u32) -> i32 {
    if u < 0x8000_0000 {
        u as i32
    } else {
        (u - 0x1_0000_0000) as i32
    }
}

pub open spec fn sp_u16(s: Seq<u8>, p: int) -> Result<(u16, int), PcfError> {
    match sp_take(s, p, 2) {
        Ok(q) => Ok((le_u16(s, p), q)),
        Err(e) => Err(e),
    }
}

pub open spec fn sp_u32(s: Seq<u8>, p: int) -> Result<(u32, int), PcfError> {
    match sp_take(s, p, 4) {
        Ok(q) => Ok((le_u32(s, p), q)),
        Err(e) => Err(e),
    }
}

pub open spec fn sp_i32(s: Seq<u8>, p: int) -> Result<(i32, int), PcfError> {
    match sp_take(s, p, 4) {
        Ok(q) => Ok((u32_as_i32(le_u32(s, p)), q)),
        Err(e) => Err(e),
    }
}

/// The first zero byte at or after `p`.
pub open spec fn sp_nul(s: Seq<u8>, p: int) -> Option<int>
    decreases s.len() - p,
{
    if p < 0 || p >= s.len() {
        None
    } else if s[p] == 0 {
        Some(p)
    } else {
        sp_nul(s, p + 1)
    }
}

/// A null-terminated string at `p`, decoded lossily; the cursor ends past
/// the terminator.
pub open spec fn sp_cstr(s: Seq<u8>, p: int) -> Result<(Seq<char>, int), PcfError> {
    match sp_nul(s, p) {
        Some(q) => Ok((lossy_utf8(s.subrange(p, q)), q + 1)),
        None => Err(PcfError::Truncated),
    }
}

/// A count of items that each take at least `min` bytes is refused when the
/// bytes left at `p` cannot hold that many.
pub open spec fn sp_check_count(s: Seq<u8>, p: int, count: u32, min: int) -> Result<
    int,
    PcfError,
> {
    if min != 0 && count > (s.len() - p) / min {
        Err(PcfError::Malformed("count exceeds remaining bytes"))
    } else {
        Ok(count as int)
    }
}

pub struct Reader<'a> {
    pub bytes: &'a [u8],
    pub pos: usize,
}

/// `new` is `old` after a read whose expected outcome is `expect`: the
/// same bytes, and the read value with the cursor moved past it, or the
/// expected error.
pub open spec fn read_as<T>(
    old: Reader,
    new: Reader,
    r: Result<T, PcfError>,
    expect: Result<(T, int), PcfError>,
) -> bool {
    &&& new.bytes@ == old.bytes@
    &&& new.wf()
    &&& match expect {
        Ok((v, q)) => r == Ok::<T, PcfError>(v) && new.pos == q,
        Err(e) => r == Err::<T, PcfError>(e),
    }
}

impl<'a> Reader<'a> {
    pub open spec fn wf(&self) -> bool {
        self.pos <= self.bytes@.len()
    }

    pub fn new(bytes: &'a [u8]) -> (r: Self)
        ensures
            r.bytes@ == bytes@,
            r.pos == 0,
    {
        Reader { bytes, pos: 0 }
    }

    pub fn take(&mut self, len: usize) -> (r: Result<&'a [u8], PcfError>)
        requires
            old(self).wf(),
        ensures
            final(self).bytes@ == old(self).bytes@,
            final(self).wf(),
            match sp_take(old(self).bytes@, old(self).pos as int, len as int) {
                Ok(q) => r is Ok && r->Ok_0@ == old(self).bytes@.subrange(old(self).pos as int, q)
                    && final(self).pos == q,
                Err(e) => r is Err && r->Err_0 == e && final(self).pos == old(self).pos,
            },
    {
        if len > self.bytes.len() - self.pos {
            return Err(PcfError::Truncated);
        }
        let end = self.pos + len;
        let slice = vstd::slice::slice_subrange(self.bytes, self.pos, end);
        self.pos = end;
        Ok(slice)
    }

    pub fn u8(&mut self) -> (r: Result<u8, PcfError>)
        requires
            old(self).wf(),
        ensures
            read_as(*old(self), *final(self), r, sp_u8(old(self).bytes@, old(self).pos as int)),
    {
        let b = self.take(1)?;
        Ok(b[0])
    }

    pub fn u16(&mut self) -> (r: Result<u16, PcfError>)
        requires
            old(self).wf(),
        ensures
            read_as(*old(self), *final(self), r, sp_u16(old(self).bytes@, old(self).pos as int)),
    {
        let ghost p = self.pos as int;
        let b = self.take(2)?;
        let v = b[0] as u16 + (b[1] as u16) * 256;
        assert(v == le_u16(self.bytes@, p));
        Ok(v)
    }

    pub fn u32(&mut self) -> (r: Result<u32, PcfError>)
        requires
            old(self).wf(),
        ensures
            read_as(*old(self), *final(self), r, sp_u32(old(self).bytes@, old(self).pos as int)),
    {
        let ghost p = self.pos as int;
        let b = self.take(4)?;
        let v = b[0] as u32 + (b[1] as u32) * 256 + (b[2] as u32) * 65536 + (b[3] as u32)
            * 16777216;
        assert(v == le_u32(self.bytes@, p));
        Ok(v)
    }

    pub fn i32(&mut self) -> (r: Result<i32, PcfError>)
        requires
            old(self).wf(),
        ensures
            read_as(*old(self), *final(self), r, sp_i32(old(self).bytes@, old(self).pos as int)),
    {
        let u = self.u32()?;
        Ok(bits_as_i32(u))
    }

    /// A null-terminated string, decoded lossily.
    pub fn cstr(&mut self) -> (r: Result<String, PcfError>)
        requires
            old(self).wf(),
        ensures
            final(self).bytes@ == old(self).bytes@,
            final(self).wf(),
            match sp_cstr(old(self).bytes@, old(self).pos as int) {
                Ok((v, q)) => r is Ok && r->Ok_0@ == v && final(self).pos == q,
                Err(e) => r is Err && r->Err_0 == e,
            },
    {
        let start = self.pos;
        let mut i = start;
        while i < self.bytes.len() && self.bytes[i] != 0
            invariant
                start <= i <= self.bytes@.len(),
                start == self.pos,
                self.wf(),
                sp_nul(self.bytes@, start as int) == sp_nul(self.bytes@, i as int),
            decreases self.bytes@.len() - i,
        {
            i = i + 1;
        }
        if i >= self.bytes.len() {
            return Err(PcfError::Truncated);
        }
        let slice = vstd::slice::slice_subrange(self.bytes, start, i);
        self.pos = i + 1;
        Ok(lossy_string(slice))
    }

    /// The count, unless items of at least `min_item_bytes` each could not
    /// fit in the bytes left.
    pub fn check_count(&self, count: u32, min_item_bytes: usize) -> (r: Result<usize, PcfError>)
        requires
            self.wf(),
        ensures
            match sp_check_count(self.bytes@, self.pos as int, count, min_item_bytes as int) {
                Ok(n) => r == Ok::<usize, PcfError>(n as usize) && n == count,
                Err(e) => r == Err::<usize, PcfError>(e),
            },
    {
        let remaining = self.bytes.len() - self.pos;
        if min_item_bytes != 0 && count as usize > remaining / min_item_bytes {
            return Err(PcfError::Malformed("count exceeds remaining bytes"));
        }
        Ok(count as usize)
    }
}

/// The two's-complement `i32` with the bits of `u`.
pub fn bits_as_i32(u: u32) -> (r: i32)
    ensures
        r == u32_as_i32(u),
{
    if u < 0x8000_0000 {
        u as i32
    } else {
        let low = (u - 0x8000_0000) as i32;
        low - 0x7fff_ffff - 1
    }
}

} // verus!
