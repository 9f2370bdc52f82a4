//! Decoding Sereal documents.
use vstd::prelude::*;

pub mod body;
pub mod grammar;
pub mod header;
pub mod value;

verus! {

/// Why a Sereal document could not be decoded.
#[derive(Debug, PartialEq)]
pub enum SerealError {
    Truncated,
    VarintTooLong,
    BadMagic,
    UnknownEncoding(u8),
    UnsupportedTag(&'static str),
    UnknownTag(u8),
    MagicVersionMismatch,
    OffsetNotFound(usize),
    InvalidUtf8,
    UnexpectedValueType { expected: &'static str, context: &'static str },
    MaxDepthExceeded,
    CountExceedsInput { count: usize, remaining: usize },
    InvalidCopyOffset(usize),
    ClassOffsetNotFound(usize),
    UnexpectedPacketStart,
}

/// Reading one byte at `pos`: the new position and the byte.
pub open spec fn take_byte(bytes: Seq<u8>, pos: int) -> (int, Result<u8, SerealError>) {
    if 0 <= pos < bytes.len() {
        (pos + 1, Ok(bytes[pos]))
    } else {
        (pos, Err(SerealError::Truncated))
    }
}

/// Reading `n` bytes at `pos`.
pub open spec fn take_bytes(bytes: Seq<u8>, pos: int, n: int) -> (int, Result<Seq<u8>, SerealError>) {
    if 0 <= pos && pos + n <= bytes.len() {
        (pos + n, Ok(bytes.subrange(pos, pos + n)))
    } else {
        (pos, Err(SerealError::Truncated))
    }
}

/// Reading `n` bytes and then `m` more reads the same bytes, and ends at the
/// same position, as reading `n + m` bytes at once.
pub proof fn lemma_take_bytes_split(bytes: Seq<u8>, pos: int, n: int, m: int)
    requires
        0 <= n,
        0 <= m,
    ensures
        take_bytes(bytes, pos, n + m).1 is Ok <==> (take_bytes(bytes, pos, n).1 is Ok && take_bytes(
            bytes,
            pos + n,
            m,
        ).1 is Ok),
        take_bytes(bytes, pos, n + m).1 is Ok ==> take_bytes(bytes, pos, n + m) == (
            pos + n + m,
            Ok::<Seq<u8>, SerealError>(
                take_bytes(bytes, pos, n).1->Ok_0 + take_bytes(bytes, pos + n, m).1->Ok_0,
            ),
        ),
{
    if 0 <= pos && pos + n + m <= bytes.len() {
        assert(bytes.subrange(pos, pos + n + m) =~= bytes.subrange(pos, pos + n) + bytes.subrange(
            pos + n,
            pos + n + m,
        ));
    }
}

/// One read of a cursor: a byte, or a given number of bytes.
pub enum ReadStep {
    Byte,
    Bytes(nat),
}

/// Reading one step at `pos`: the new position and the bytes read.
pub open spec fn take_step(bytes: Seq<u8>, pos: int, step: ReadStep) -> (int, Result<Seq<u8>, SerealError>) {
    match step {
        ReadStep::Byte => match take_byte(bytes, pos) {
            (p, Ok(b)) => (p, Ok(seq![b])),
            (p, Err(e)) => (p, Err(e)),
        },
        ReadStep::Bytes(n) => take_bytes(bytes, pos, n as int),
    }
}

/// Reading `steps` one after another from `pos`: the final position and all
/// the bytes read, in order; reading stops at the first failure.
pub open spec fn take_steps(bytes: Seq<u8>, pos: int, steps: Seq<ReadStep>) -> (int, Result<Seq<u8>, SerealError>)
    decreases steps.len(),
{
    if steps.len() == 0 {
        (pos, Ok(Seq::empty()))
    } else {
        match take_step(bytes, pos, steps[0]) {
            (p1, Ok(x)) => match take_steps(bytes, p1, steps.drop_first()) {
                (p2, Ok(y)) => (p2, Ok(x + y)),
                (p2, Err(e)) => (p2, Err(e)),
            },
            (p1, Err(e)) => (p1, Err(e)),
        }
    }
}

/// After reads that all succeed, the position has moved by the number of bytes
/// they returned, and those bytes are exactly the input between the two
/// positions.  From a new cursor (position 0) the position is the number of
/// bytes read, and what remains is the input from there on.
pub proof fn lemma_reads_advance_position(bytes: Seq<u8>, pos: int, steps: Seq<ReadStep>)
    requires
        0 <= pos <= bytes.len(),
    ensures
        take_steps(bytes, pos, steps).1 matches Ok(out) ==> {
            &&& take_steps(bytes, pos, steps).0 == pos + out.len()
            &&& take_steps(bytes, pos, steps).0 <= bytes.len()
            &&& out == bytes.subrange(pos, pos + out.len())
        },
    decreases steps.len(),
{
    if steps.len() > 0 {
        let (p1, r1) = take_step(bytes, pos, steps[0]);
        if let Ok(x) = r1 {
            lemma_reads_advance_position(bytes, p1, steps.drop_first());
            if let (p2, Ok(y)) = take_steps(bytes, p1, steps.drop_first()) {
                assert(p1 == pos + x.len());
                assert(x == bytes.subrange(pos, p1));
                assert(bytes.subrange(pos, p2) =~= x + y);
            }
        }
    }
}

/// The low seven bits of `x`, placed `i` groups of seven bits up.
pub open spec fn varint_group(x: u8, i: nat) -> u64 {
    ((x & 0x7f) as u64) << ((7 * i) as u64)
}

/// Reading the rest of a varint whose first `i` bytes gave `acc`: seven bits
/// per byte, least significant group first, the high bit marking that more
/// bytes follow.  An eleventh byte is refused.
pub open spec fn varint_from(bytes: Seq<u8>, pos: int, i: nat, acc: u64) -> (int, Result<u64, SerealError>)
    decreases 10 - i,
{
    let p = pos + i;
    if !(0 <= p < bytes.len()) {
        (p, Err(SerealError::Truncated))
    } else if i >= 10 {
        (p + 1, Err(SerealError::VarintTooLong))
    } else {
        let acc2 = acc | varint_group(bytes[p], i);
        if bytes[p] & 0x80 == 0 {
            (p + 1, Ok(acc2))
        } else {
            varint_from(bytes, pos, i + 1, acc2)
        }
    }
}

/// Reading a varint at `pos`.
pub open spec fn take_varint(bytes: Seq<u8>, pos: int) -> (int, Result<u64, SerealError>) {
    varint_from(bytes, pos, 0, 0)
}

/// The varint encoding of `v`: seven bits per byte, least significant group
/// first, the high bit set on every byte but the last.
pub open spec fn leb128(v: u64) -> Seq<u8>
    decreases v,
{
    if v < 0x80 {
        seq![v as u8]
    } else {
        proof {
            assert(v >> 7u64 < v) by (bit_vector)
                requires
                    v >= 0x80,
            ;
        }
        seq![((v & 0x7F) | 0x80) as u8] + leb128(v >> 7u64)
    }
}

/// Reading the rest of a varint whose first `i` groups gave the low `7 * i`
/// bits of `v`, when the bytes from there on hold the encoding of the
/// remaining high bits.
proof fn lemma_varint_from_encoding(bytes: Seq<u8>, pos: int, i: nat, acc: u64, v: u64)
    requires
        0 <= pos,
        i <= 9,
        acc == v & (((1u64 << (7 * i) as u64) - 1) as u64),
        pos + i + leb128(v >> (7 * i) as u64).len() <= bytes.len(),
        bytes.subrange(pos + i, pos + i + leb128(v >> (7 * i) as u64).len()) == leb128(
            v >> (7 * i) as u64,
        ),
    ensures
        varint_from(bytes, pos, i, acc) == (
            pos + i + leb128(v >> (7 * i) as u64).len(),
            Ok::<u64, SerealError>(v),
        ),
    decreases 10 - i,
{
    let s = (7 * i) as u64;
    let w = v >> s;
    let e = leb128(w);
    let p = pos + i;
    assert(bytes[p] == e[0]) by {
        assert(bytes.subrange(p, p + e.len())[0] == e[0]);
    }
    let x = bytes[p];
    assert(s <= 63);
    if w < 0x80 {
        assert(x == w as u8);
        assert(x & 0x80 == 0 && acc | (((x & 0x7f) as u64) << s) == v) by (bit_vector)
            requires
                x == w as u8,
                w < 0x80,
                w == v >> s,
                acc == v & (((1u64 << s) - 1) as u64),
                s <= 63,
        ;
        assert(varint_group(x, i) == ((x & 0x7f) as u64) << s);
    } else {
        assert(x == ((w & 0x7F) | 0x80) as u8);
        assert(s <= 56 && x & 0x80 != 0 && acc | (((x & 0x7f) as u64) << s) == v & (((1u64 << (s
            + 7) as u64) - 1) as u64) && (v >> s) >> 7u64 == v >> (s + 7) as u64) by (bit_vector)
            requires
                x == ((w & 0x7F) | 0x80) as u8,
                w >= 0x80,
                w == v >> s,
                acc == v & (((1u64 << s) - 1) as u64),
                s <= 63,
        ;
        assert(varint_group(x, i) == ((x & 0x7f) as u64) << s);
        let acc2 = acc | varint_group(x, i);
        let e2 = leb128(w >> 7u64);
        assert(e == seq![x] + e2);
        assert((7 * (i + 1)) as u64 == (s + 7) as u64);
        assert(bytes.subrange(pos + (i + 1), pos + (i + 1) + e2.len()) =~= e2) by {
            assert forall|j: int| 0 <= j < e2.len() implies bytes.subrange(
                pos + (i + 1),
                pos + (i + 1) + e2.len(),
            )[j] == e2[j] by {
                assert(bytes.subrange(p, p + e.len())[j + 1] == e[j + 1]);
            }
        }
        lemma_varint_from_encoding(bytes, pos, i + 1, acc2, v);
    }
}

/// A varint reads back what it encodes: reading a varint at the start of the
/// encoding of `v`, whatever follows, gives `v` and stops just past the
/// encoding.
pub proof fn lemma_varint_round_trip(v: u64, rest: Seq<u8>)
    ensures
        take_varint(leb128(v) + rest, 0) == (leb128(v).len() as int, Ok::<u64, SerealError>(v)),
{
    let bytes = leb128(v) + rest;
    assert(v >> 0u64 == v && 0u64 == v & (((1u64 << 0u64) - 1) as u64)) by (bit_vector);
    assert(bytes.subrange(0, leb128(v).len() as int) =~= leb128(v));
    lemma_varint_from_encoding(bytes, 0, 0, 0, v);
}

/// A read position over a Sereal byte buffer.
pub struct Cursor<'a> {
    input: &'a [u8],
    pos: usize,
}

impl<'a> Cursor<'a> {
    /// The bytes the cursor reads from.
    pub closed spec fn data(&self) -> Seq<u8> {
        self.input@
    }

    /// The current read position; it may lie past the end.
    pub closed spec fn at(&self) -> int {
        self.pos as int
    }

    /// A cursor at the start of `input`.
    pub fn new(input: &'a [u8]) -> (c: Self)
        ensures
            c.data() == input@,
            c.at() == 0,
    {
        Cursor { input, pos: 0 }
    }

    /// The current read position.
    pub fn pos(&self) -> (r: usize)
        ensures
            r == self.at(),
            self.data().len() <= usize::MAX,
    {
        assert(self.input@.len() == self.input.len());
        self.pos
    }

    /// Moves the read position to `pos`.
    pub fn seek(&mut self, pos: usize)
        ensures
            final(self).data() == old(self).data(),
            final(self).at() == pos,
    {
        self.pos = pos;
    }

    /// Reads one byte.
    pub fn read_byte(&mut self) -> (r: Result<u8, SerealError>)
        ensures
            final(self).data() == old(self).data(),
            (final(self).at(), r) == take_byte(old(self).data(), old(self).at()),
    {
        if self.pos >= self.input.len() {
            return Err(SerealError::Truncated);
        }
        let b = self.input[self.pos];
        self.pos = self.pos + 1;
        Ok(b)
    }

    /// Reads `n` bytes.
    pub fn read_bytes(&mut self, n: usize) -> (r: Result<&'a [u8], SerealError>)
        ensures
            final(self).data() == old(self).data(),
            final(self).at() == take_bytes(old(self).data(), old(self).at(), n as int).0,
            r is Ok <==> take_bytes(old(self).data(), old(self).at(), n as int).1 is Ok,
            r matches Ok(b) ==> take_bytes(old(self).data(), old(self).at(), n as int).1 == Ok::<
                Seq<u8>,
                SerealError,
            >(b@),
            r matches Err(e) ==> e == SerealError::Truncated,
            take_bytes(old(self).data(), old(self).at(), n as int).1 is Err ==> take_bytes(
                old(self).data(),
                old(self).at(),
                n as int,
            ).1 == Err::<Seq<u8>, SerealError>(SerealError::Truncated),
    {
        if self.pos > self.input.len() || n > self.input.len() - self.pos {
            return Err(SerealError::Truncated);
        }
        let slice = &self.input[self.pos..self.pos + n];
        self.pos = self.pos + n;
        Ok(slice)
    }

    /// Reads a varint: seven bits per byte, least significant group first,
    /// the high bit of a byte marking that more bytes follow.
    pub fn read_varint(&mut self) -> (r: Result<u64, SerealError>)
        ensures
            final(self).data() == old(self).data(),
            (final(self).at(), r) == take_varint(old(self).data(), old(self).at()),
    {
        let ghost start = self.pos as int;
        let mut result: u64 = 0;
        let mut shift: u64 = 0;
        let ghost mut i: nat = 0;
        loop
            invariant
                self.data() == old(self).data(),
                start == old(self).at(),
                i <= 10,
                shift == 7 * i,
                self.at() == start + i,
                take_varint(self.data(), start) == varint_from(self.data(), start, i, result),
            decreases 10 - i,
        {
            let byte = self.read_byte()?;
            if shift >= 64 {
                return Err(SerealError::VarintTooLong);
            }
            result = result | (((byte & 0x7F) as u64) << shift);
            if byte & 0x80 == 0 {
                return Ok(result);
            }
            shift = shift + 7;
            proof {
                i = i + 1;
            }
        }
    }

    /// The number of bytes after the read position.
    pub fn remaining_len(&self) -> (r: usize)
        ensures
            r == (if self.at() <= self.data().len() { self.data().len() - self.at() } else { 0 }),
    {
        if self.pos <= self.input.len() {
            self.input.len() - self.pos
        } else {
            0
        }
    }

    /// The bytes after the read position.
    pub fn remaining(&self) -> (r: &'a [u8])
        requires
            self.at() <= self.data().len(),
        ensures
            r@ == self.data().subrange(self.at(), self.data().len() as int),
    {
        &self.input[self.pos..self.input.len()]
    }
}

} // verus!
