//! Binary cursor: sequential little-endian reads over a byte slice, and writes that
//! append to a growing buffer. Each read is stated over the bytes that remain, as a
//! partial "take" on a sequence: the value read and the bytes that follow it.

use vstd::prelude::*;

verus! {

/// Why a read stopped.
#[derive(Debug, Clone, Copy, PartialEq, Eq, Structural)]
pub enum CursorError {
    /// Fewer bytes remain than the read needs.
    UnexpectedEof,
    /// A boolean byte other than 0x00 or 0x01.
    InvalidBool,
}

/// The 16-bit value of a low and a high byte.
pub open spec fn pair16(lo: u8, hi: u8) -> u16 {
    (lo + 256 * hi) as u16
}

/// The 32-bit little-endian value of the first four bytes of `b`.
pub open spec fn le32(b: Seq<u8>) -> u32 {
    (b[0] + 256 * b[1] + 65536 * b[2] + 16777216 * b[3]) as u32
}

/// Little-endian bytes of a 16-bit value.
pub open spec fn u16_bytes(v: u16) -> Seq<u8> {
    seq![(v % 256) as u8, (v / 256) as u8]
}

/// Little-endian bytes of a 32-bit value.
pub open spec fn u32_bytes(v: u32) -> Seq<u8> {
    seq![(v % 256) as u8, ((v / 256) % 256) as u8, ((v / 65536) % 256) as u8, (v / 16777216) as u8]
}

/// The byte that stores a boolean.
pub open spec fn bool_byte(b: bool) -> u8 {
    if b { 1 } else { 0 }
}

/// UTF-16 code units stored as little-endian pairs of bytes.
pub open spec fn units_bytes(u: Seq<u16>) -> Seq<u8> {
    Seq::new(
        2 * u.len(),
        |j: int|
            if j % 2 == 0 {
                (u[j / 2] % 256) as u8
            } else {
                (u[j / 2] / 256) as u8
            },
    )
}

/// The code units of a byte sequence of even length.
pub open spec fn units_of(b: Seq<u8>) -> Seq<u16> {
    Seq::new(b.len() / 2, |i: int| pair16(b[2 * i], b[2 * i + 1]))
}

/// A UTF-16 string with its 16-bit count of code units in front.
pub open spec fn string16_bytes(u: Seq<u16>) -> Seq<u8> {
    u16_bytes(u.len() as u16) + units_bytes(u)
}

/// A byte string with its 16-bit length in front.
pub open spec fn string8_bytes(b: Seq<u8>) -> Seq<u8> {
    u16_bytes(b.len() as u16) + b
}

pub open spec fn take_u8(s: Seq<u8>) -> Option<(u8, Seq<u8>)> {
    if s.len() < 1 {
        None
    } else {
        Some((s[0], s.skip(1)))
    }
}

pub open spec fn take_bool(s: Seq<u8>) -> Option<(bool, Seq<u8>)> {
    if s.len() < 1 || s[0] > 1 {
        None
    } else {
        Some((s[0] == 1, s.skip(1)))
    }
}

pub open spec fn take_u16(s: Seq<u8>) -> Option<(u16, Seq<u8>)> {
    if s.len() < 2 {
        None
    } else {
        Some((pair16(s[0], s[1]), s.skip(2)))
    }
}

pub open spec fn take_u32(s: Seq<u8>) -> Option<(u32, Seq<u8>)> {
    if s.len() < 4 {
        None
    } else {
        Some((le32(s), s.skip(4)))
    }
}

pub open spec fn take_bytes(s: Seq<u8>, n: nat) -> Option<(Seq<u8>, Seq<u8>)> {
    if s.len() < n {
        None
    } else {
        Some((s.take(n as int), s.skip(n as int)))
    }
}

pub open spec fn take_units(s: Seq<u8>, n: nat) -> Option<(Seq<u16>, Seq<u8>)> {
    if s.len() < 2 * n {
        None
    } else {
        Some((units_of(s.take(2 * n as int)), s.skip(2 * n as int)))
    }
}

/// A length-prefixed UTF-16 string.
pub open spec fn take_string16(s: Seq<u8>) -> Option<(Seq<u16>, Seq<u8>)> {
    match take_u16(s) {
        None => None,
        Some((n, r)) => take_units(r, n as nat),
    }
}

/// A length-prefixed byte string.
pub open spec fn take_string8(s: Seq<u8>) -> Option<(Seq<u8>, Seq<u8>)> {
    match take_u16(s) {
        None => None,
        Some((n, r)) => take_bytes(r, n as nat),
    }
}

/// `i` is the index of the first NUL byte of `s`.
pub open spec fn is_first_nul(s: Seq<u8>, i: int) -> bool {
    0 <= i < s.len() && s[i] == 0 && forall|j: int| 0 <= j < i ==> s[j] != 0
}

/// A NUL-terminated byte string: the bytes before the first NUL, and what follows
/// the NUL; none when no NUL remains.
pub open spec fn take_cstring(s: Seq<u8>) -> Option<(Seq<u8>, Seq<u8>)> {
    if exists|i: int| is_first_nul(s, i) {
        let i = choose|i: int| is_first_nul(s, i);
        Some((s.take(i), s.skip(i + 1)))
    } else {
        None
    }
}

pub proof fn lemma_u16_round_trip(v: u16, rest: Seq<u8>)
    ensures
        take_u16(u16_bytes(v) + rest) == Some((v, rest)),
{
    let s = u16_bytes(v) + rest;
    assert(s.skip(2) =~= rest);
}

pub proof fn lemma_u16_split(s: Seq<u8>)
    requires
        s.len() >= 2,
    ensures
        s == u16_bytes(pair16(s[0], s[1])) + s.skip(2),
{
    let v = pair16(s[0], s[1]);
    assert(v % 256 == s[0] && v / 256 == s[1]);
    assert(s =~= u16_bytes(v) + s.skip(2));
}

pub proof fn lemma_u32_round_trip(v: u32, rest: Seq<u8>)
    ensures
        take_u32(u32_bytes(v) + rest) == Some((v, rest)),
{
    let s = u32_bytes(v) + rest;
    assert(s.skip(4) =~= rest);
    assert(le32(s) == v) by {
        assert(s[0] == v % 256);
        assert(s[1] == (v / 256) % 256);
        assert(s[2] == (v / 65536) % 256);
        assert(s[3] == v / 16777216);
    }
}

pub proof fn lemma_u32_split(s: Seq<u8>)
    requires
        s.len() >= 4,
    ensures
        s == u32_bytes(le32(s)) + s.skip(4),
{
    let v = le32(s);
    let (b0, b1, b2, b3) = (s[0] as int, s[1] as int, s[2] as int, s[3] as int);
    assert(v == b0 + 256 * b1 + 65536 * b2 + 16777216 * b3);
    assert(v % 256 == b0 && (v / 256) % 256 == b1 && (v / 65536) % 256 == b2 && v / 16777216
        == b3);
    assert(s =~= u32_bytes(v) + s.skip(4));
}

pub proof fn lemma_units_round_trip(u: Seq<u16>, rest: Seq<u8>)
    ensures
        take_units(units_bytes(u) + rest, u.len()) == Some((u, rest)),
{
    let s = units_bytes(u) + rest;
    let n = u.len();
    assert(s.skip(2 * n as int) =~= rest);
    let b = s.take(2 * n as int);
    assert forall|i: int| 0 <= i < n implies #[trigger] units_of(b)[i] == u[i] by {
        assert(b[2 * i] == s[2 * i]);
        assert((2 * i) % 2 == 0 && (2 * i) / 2 == i);
        assert((2 * i + 1) % 2 == 1 && (2 * i + 1) / 2 == i);
    }
    assert(units_of(b) =~= u);
}

pub proof fn lemma_units_split(s: Seq<u8>, n: nat)
    requires
        s.len() >= 2 * n,
    ensures
        s == units_bytes(units_of(s.take(2 * n as int))) + s.skip(2 * n as int),
        units_of(s.take(2 * n as int)).len() == n,
{
    let b = s.take(2 * n as int);
    let u = units_of(b);
    assert(u.len() == n);
    assert forall|j: int| 0 <= j < 2 * n implies #[trigger] units_bytes(u)[j] == s[j] by {
        let i = j / 2;
        if j % 2 == 0 {
            assert(j == 2 * i);
        } else {
            assert(j == 2 * i + 1);
        }
        assert(u[i] == pair16(s[2 * i], s[2 * i + 1]));
    }
    assert(s =~= units_bytes(u) + s.skip(2 * n as int));
}

pub proof fn lemma_string16_round_trip(u: Seq<u16>, rest: Seq<u8>)
    requires
        u.len() <= u16::MAX,
    ensures
        take_string16(string16_bytes(u) + rest) == Some((u, rest)),
{
    let tail = units_bytes(u) + rest;
    lemma_u16_round_trip(u.len() as u16, tail);
    assert(string16_bytes(u) + rest =~= u16_bytes(u.len() as u16) + tail);
    lemma_units_round_trip(u, rest);
}

pub proof fn lemma_string16_split(s: Seq<u8>)
    requires
        take_string16(s) is Some,
    ensures
        match take_string16(s) {
            Some((v, rest)) => s == string16_bytes(v) + rest && v.len() <= u16::MAX,
            None => false,
        },
{
    let n = pair16(s[0], s[1]);
    let r = s.skip(2);
    lemma_u16_split(s);
    lemma_units_split(r, n as nat);
    let u = units_of(r.take(2 * n as int));
    assert(u.len() as u16 == n);
    assert(s =~= string16_bytes(u) + r.skip(2 * n as int));
}

pub proof fn lemma_string8_round_trip(b: Seq<u8>, rest: Seq<u8>)
    requires
        b.len() <= u16::MAX,
    ensures
        take_string8(string8_bytes(b) + rest) == Some((b, rest)),
{
    let tail = b + rest;
    lemma_u16_round_trip(b.len() as u16, tail);
    assert(string8_bytes(b) + rest =~= u16_bytes(b.len() as u16) + tail);
    assert(tail.take(b.len() as int) =~= b);
    assert(tail.skip(b.len() as int) =~= rest);
}

pub proof fn lemma_string8_split(s: Seq<u8>)
    requires
        take_string8(s) is Some,
    ensures
        match take_string8(s) {
            Some((v, rest)) => s == string8_bytes(v) + rest && v.len() <= u16::MAX,
            None => false,
        },
{
    let n = pair16(s[0], s[1]);
    let r = s.skip(2);
    lemma_u16_split(s);
    assert(s =~= string8_bytes(r.take(n as int)) + r.skip(n as int));
}

/// A read position over a borrowed byte slice.
pub struct Cursor<'a> {
    pub bytes: &'a [u8],
    pub pos: usize,
}

impl<'a> Cursor<'a> {
    /// The bytes not read yet.
    pub open spec fn rest(&self) -> Seq<u8> {
        self.bytes@.skip(self.pos as int)
    }

    pub open spec fn wf(&self) -> bool {
        self.pos <= self.bytes@.len()
    }

    pub fn new(bytes: &'a [u8]) -> (r: Self)
        ensures
            r.wf(),
            r.bytes@ == bytes@,
            r.rest() == bytes@,
    {
        let r = Cursor { bytes, pos: 0 };
        assert(r.rest() =~= bytes@);
        r
    }

    pub fn remaining(&self) -> (r: usize)
        requires
            self.wf(),
        ensures
            r == self.rest().len(),
    {
        self.bytes.len() - self.pos
    }

    pub fn read_u8(&mut self) -> (r: Result<u8, CursorError>)
        requires
            old(self).wf(),
        ensures
            final(self).wf(),
            final(self).bytes@ == old(self).bytes@,
            match take_u8(old(self).rest()) {
                Some((v, rest)) => r == Ok::<u8, CursorError>(v) && final(self).rest() == rest,
                None => r == Err::<u8, CursorError>(CursorError::UnexpectedEof),
            },
    {
        if self.bytes.len() - self.pos < 1 {
            return Err(CursorError::UnexpectedEof);
        }
        let v = self.bytes[self.pos];
        proof {
            assert(old(self).rest().skip(1) =~= self.bytes@.skip(self.pos + 1));
        }
        self.pos = self.pos + 1;
        Ok(v)
    }

    pub fn read_bool(&mut self) -> (r: Result<bool, CursorError>)
        requires
            old(self).wf(),
        ensures
            final(self).wf(),
            final(self).bytes@ == old(self).bytes@,
            match take_bool(old(self).rest()) {
                Some((v, rest)) => r == Ok::<bool, CursorError>(v) && final(self).rest() == rest,
                None => r is Err,
            },
            old(self).rest().len() < 1 ==> r == Err::<bool, CursorError>(
                CursorError::UnexpectedEof,
            ),
            old(self).rest().len() >= 1 && old(self).rest()[0] > 1 ==> r == Err::<
                bool,
                CursorError,
            >(CursorError::InvalidBool),
    {
        if self.bytes.len() - self.pos < 1 {
            return Err(CursorError::UnexpectedEof);
        }
        let v = self.bytes[self.pos];
        if v > 1 {
            return Err(CursorError::InvalidBool);
        }
        proof {
            assert(old(self).rest().skip(1) =~= self.bytes@.skip(self.pos + 1));
        }
        self.pos = self.pos + 1;
        Ok(v == 1)
    }

    pub fn read_u16(&mut self) -> (r: Result<u16, CursorError>)
        requires
            old(self).wf(),
        ensures
            final(self).wf(),
            final(self).bytes@ == old(self).bytes@,
            match take_u16(old(self).rest()) {
                Some((v, rest)) => r == Ok::<u16, CursorError>(v) && final(self).rest() == rest,
                None => r == Err::<u16, CursorError>(CursorError::UnexpectedEof),
            },
    {
        if self.bytes.len() - self.pos < 2 {
            return Err(CursorError::UnexpectedEof);
        }
        let lo = self.bytes[self.pos];
        let hi = self.bytes[self.pos + 1];
        let v: u16 = lo as u16 + 256 * (hi as u16);
        proof {
            assert(old(self).rest().skip(2) =~= self.bytes@.skip(self.pos + 2));
        }
        self.pos = self.pos + 2;
        Ok(v)
    }

    pub fn read_u32(&mut self) -> (r: Result<u32, CursorError>)
        requires
            old(self).wf(),
        ensures
            final(self).wf(),
            final(self).bytes@ == old(self).bytes@,
            match take_u32(old(self).rest()) {
                Some((v, rest)) => r == Ok::<u32, CursorError>(v) && final(self).rest() == rest,
                None => r == Err::<u32, CursorError>(CursorError::UnexpectedEof),
            },
    {
        if self.bytes.len() - self.pos < 4 {
            return Err(CursorError::UnexpectedEof);
        }
        let p = self.pos;
        let v: u32 = self.bytes[p] as u32 + 256 * (self.bytes[p + 1] as u32) + 65536 * (
        self.bytes[p + 2] as u32) + 16777216 * (self.bytes[p + 3] as u32);
        proof {
            assert(old(self).rest().skip(4) =~= self.bytes@.skip(p + 4));
        }
        self.pos = p + 4;
        Ok(v)
    }

    /// Reads `n` bytes.
    pub fn read_bytes(&mut self, n: usize) -> (r: Result<Vec<u8>, CursorError>)
        requires
            old(self).wf(),
        ensures
            final(self).wf(),
            final(self).bytes@ == old(self).bytes@,
            match take_bytes(old(self).rest(), n as nat) {
                Some((v, rest)) => r is Ok && r->Ok_0@ == v && final(self).rest() == rest,
                None => r == Err::<Vec<u8>, CursorError>(CursorError::UnexpectedEof),
            },
    {
        if self.bytes.len() - self.pos < n {
            return Err(CursorError::UnexpectedEof);
        }
        let start = self.pos;
        let len = self.bytes.len();
        let mut v: Vec<u8> = Vec::new();
        let mut i: usize = 0;
        while i < n
            invariant
                i <= n,
                len == self.bytes@.len(),
                start + n <= len,
                v@ =~= self.bytes@.subrange(start as int, start + i),
            decreases n - i,
        {
            v.push(self.bytes[start + i]);
            i = i + 1;
        }
        proof {
            assert(old(self).rest().take(n as int) =~= self.bytes@.subrange(
                start as int,
                start + n,
            ));
            assert(old(self).rest().skip(n as int) =~= self.bytes@.skip(start + n));
        }
        self.pos = start + n;
        Ok(v)
    }

    /// Reads `n` UTF-16 code units.
    pub fn read_units(&mut self, n: usize) -> (r: Result<Vec<u16>, CursorError>)
        requires
            old(self).wf(),
        ensures
            final(self).wf(),
            final(self).bytes@ == old(self).bytes@,
            match take_units(old(self).rest(), n as nat) {
                Some((v, rest)) => r is Ok && r->Ok_0@ == v && final(self).rest() == rest,
                None => r == Err::<Vec<u16>, CursorError>(CursorError::UnexpectedEof),
            },
    {
        if (self.bytes.len() - self.pos) / 2 < n {
            return Err(CursorError::UnexpectedEof);
        }
        let start = self.pos;
        let ghost b = old(self).rest().take(2 * n);
        let len = self.bytes.len();
        let mut v: Vec<u16> = Vec::new();
        let mut i: usize = 0;
        while i < n
            invariant
                i <= n,
                len == self.bytes@.len(),
                start + 2 * n <= len,
                b == self.bytes@.subrange(start as int, start + 2 * n),
                v@ =~= units_of(b).take(i as int),
            decreases n - i,
        {
            let lo = self.bytes[start + 2 * i];
            let hi = self.bytes[start + 2 * i + 1];
            v.push(lo as u16 + 256 * (hi as u16));
            i = i + 1;
        }
        proof {
            assert(units_of(b).take(n as int) =~= units_of(b));
            assert(old(self).rest().skip(2 * n) =~= self.bytes@.skip(start + 2 * n));
        }
        self.pos = start + 2 * n;
        Ok(v)
    }

    /// Reads a string of UTF-16 code units after its 16-bit count.
    pub fn read_string16(&mut self) -> (r: Result<Vec<u16>, CursorError>)
        requires
            old(self).wf(),
        ensures
            final(self).wf(),
            final(self).bytes@ == old(self).bytes@,
            match take_string16(old(self).rest()) {
                Some((v, rest)) => r is Ok && r->Ok_0@ == v && final(self).rest() == rest,
                None => r == Err::<Vec<u16>, CursorError>(CursorError::UnexpectedEof),
            },
    {
        let n = self.read_u16()?;
        self.read_units(n as usize)
    }

    /// Reads a byte string after its 16-bit length.
    pub fn read_string8(&mut self) -> (r: Result<Vec<u8>, CursorError>)
        requires
            old(self).wf(),
        ensures
            final(self).wf(),
            final(self).bytes@ == old(self).bytes@,
            match take_string8(old(self).rest()) {
                Some((v, rest)) => r is Ok && r->Ok_0@ == v && final(self).rest() == rest,
                None => r == Err::<Vec<u8>, CursorError>(CursorError::UnexpectedEof),
            },
    {
        let n = self.read_u16()?;
        self.read_bytes(n as usize)
    }

    /// Reads the bytes up to the next NUL, and the NUL.
    pub fn read_cstring(&mut self) -> (r: Result<Vec<u8>, CursorError>)
        requires
            old(self).wf(),
        ensures
            final(self).wf(),
            final(self).bytes@ == old(self).bytes@,
            match take_cstring(old(self).rest()) {
                Some((v, rest)) => r is Ok && r->Ok_0@ == v && final(self).rest() == rest,
                None => r == Err::<Vec<u8>, CursorError>(CursorError::UnexpectedEof),
            },
    {
        let ghost s = old(self).rest();
        let start = self.pos;
        let len = self.bytes.len();
        let mut v: Vec<u8> = Vec::new();
        let mut i: usize = start;
        while i < len
            invariant
                start <= i <= len,
                len == self.bytes@.len(),
                start == self.pos,
                self.bytes@ == old(self).bytes@,
                s == old(self).rest(),
                s == self.bytes@.skip(start as int),
                v@ =~= s.take(i - start),
                forall|j: int| 0 <= j < i - start ==> s[j] != 0,
            decreases len - i,
        {
            let b = self.bytes[i];
            if b == 0 {
                proof {
                    let k = i - start;
                    assert(is_first_nul(s, k));
                    let c = choose|c: int| is_first_nul(s, c);
                    assert(c == k) by {
                        if c < k {
                            assert(s[c] != 0);
                        } else if c > k {
                            assert(s[k] != 0);
                        }
                    }
                    assert(s.skip(k + 1) =~= self.bytes@.skip(i + 1));
                }
                self.pos = i + 1;
                return Ok(v);
            }
            v.push(b);
            i = i + 1;
        }
        assert(!exists|k: int| is_first_nul(s, k));
        Err(CursorError::UnexpectedEof)
    }
}

pub fn write_u8(out: &mut Vec<u8>, v: u8)
    ensures
        final(out)@ == old(out)@.push(v),
{
    out.push(v);
}

pub fn write_bool(out: &mut Vec<u8>, v: bool)
    ensures
        final(out)@ == old(out)@.push(bool_byte(v)),
{
    out.push(if v { 1 } else { 0 });
}

pub fn write_u16(out: &mut Vec<u8>, v: u16)
    ensures
        final(out)@ == old(out)@ + u16_bytes(v),
{
    out.push((v % 256) as u8);
    out.push((v / 256) as u8);
    assert(final(out)@ =~= old(out)@ + u16_bytes(v));
}

pub fn write_u32(out: &mut Vec<u8>, v: u32)
    ensures
        final(out)@ == old(out)@ + u32_bytes(v),
{
    out.push((v % 256) as u8);
    out.push(((v / 256) % 256) as u8);
    out.push(((v / 65536) % 256) as u8);
    out.push((v / 16777216) as u8);
    assert(final(out)@ =~= old(out)@ + u32_bytes(v));
}

pub fn write_bytes(out: &mut Vec<u8>, b: &[u8])
    ensures
        final(out)@ == old(out)@ + b@,
{
    let ghost start = out@;
    let mut i: usize = 0;
    while i < b.len()
        invariant
            i <= b@.len(),
            out@ =~= start + b@.take(i as int),
        decreases b@.len() - i,
    {
        out.push(b[i]);
        i = i + 1;
    }
    assert(b@.take(b@.len() as int) =~= b@);
}

pub fn write_units(out: &mut Vec<u8>, u: &[u16])
    ensures
        final(out)@ == old(out)@ + units_bytes(u@),
{
    let ghost start = out@;
    let mut i: usize = 0;
    while i < u.len()
        invariant
            i <= u@.len(),
            out@ =~= start + units_bytes(u@.take(i as int)),
        decreases u@.len() - i,
    {
        let c = u[i];
        out.push((c % 256) as u8);
        out.push((c / 256) as u8);
        proof {
            let t = u@.take(i + 1);
            assert(units_bytes(t) =~= units_bytes(u@.take(i as int)) + u16_bytes(c)) by {
                assert forall|j: int| 0 <= j < 2 * i implies #[trigger] units_bytes(t)[j]
                    == units_bytes(u@.take(i as int))[j] by {
                    assert(j / 2 < i);
                }
            }
        }
        i = i + 1;
    }
    assert(u@.take(u@.len() as int) =~= u@);
}

pub fn write_string16(out: &mut Vec<u8>, u: &[u16])
    requires
        u@.len() <= u16::MAX,
    ensures
        final(out)@ == old(out)@ + string16_bytes(u@),
{
    write_u16(out, u.len() as u16);
    write_units(out, u);
    assert(final(out)@ =~= old(out)@ + string16_bytes(u@));
}

pub fn write_string8(out: &mut Vec<u8>, b: &[u8])
    requires
        b@.len() <= u16::MAX,
    ensures
        final(out)@ == old(out)@ + string8_bytes(b@),
{
    write_u16(out, b.len() as u16);
    write_bytes(out, b);
    assert(final(out)@ =~= old(out)@ + string8_bytes(b@));
}

/// Writes `b` and a NUL after it.
pub fn write_cstring(out: &mut Vec<u8>, b: &[u8])
    ensures
        final(out)@ == old(out)@ + b@ + seq![0u8],
{
    write_bytes(out, b);
    out.push(0);
}

/// A NUL-terminated string of bytes that hold no NUL reads back as itself.
pub proof fn lemma_cstring_round_trip(b: Seq<u8>, rest: Seq<u8>)
    requires
        forall|j: int| 0 <= j < b.len() ==> b[j] != 0,
    ensures
        take_cstring(b + seq![0u8] + rest) == Some((b, rest)),
{
    let s = b + seq![0u8] + rest;
    let k = b.len() as int;
    assert(is_first_nul(s, k));
    let c = choose|c: int| is_first_nul(s, c);
    assert(c == k) by {
        if c < k {
            assert(s[c] == b[c]);
        } else if c > k {
            assert(s[k] == 0);
        }
    }
    assert(s.take(k) =~= b);
    assert(s.skip(k + 1) =~= rest);
}

} // verus!
