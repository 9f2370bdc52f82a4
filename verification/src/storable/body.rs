//! Decoding the body of a Storable image: the tagged value tree.
use vstd::prelude::*;
use crate::shared_model::{
    lemma_flag_hash_refs_insert, lemma_hash_refs_insert, lemma_refs_below_mono, refs_below, ByteMap,
    ClassTable, PerlValue, SeenTable, SpecValue, ValueRef,
};
use crate::storable::grammar::{
    code_text, decode_value, dispatch, open_node, read_i32n, hook_class, hook_refs, hook_rest,
    i32_be, i32_le, i32_ordered, i64_ordered, item, read_flag_pairs, read_items, read_pairs,
    read_recurse, read_refs, sx_array, sx_bless, sx_byte, sx_code, sx_double, sx_flag_hash,
    sx_hash, sx_hook, sx_integer, sx_ix_bless, sx_netint, sx_object, sx_regexp, sx_scalar,
    sx_text, sx_tied_idx, sx_tied_key, sx_vstring, take_byte, take_bytes, take_i32, take_len,
    u64_ordered, wrapped, SState, Src, Step, WrapKind,
};
use crate::text::{utf8_decode, utf8_decode_lossy};
use vstd::slice::slice_to_vec;

verus! {

/// How the writer laid out scalar numbers.
pub struct BodyConfig {
    /// `sizeof(IV)`: 4 or 8, the width of an `SX_INTEGER`.
    pub iv_size: u8,
    /// `sizeof(NV)`: usually 8, the width of an `SX_DOUBLE`.
    pub nv_size: u8,
    pub network_order: bool,
}

impl BodyConfig {
    /// The layout of a 64-bit machine writing in native order.
    pub fn native_64() -> (c: Self)
        ensures
            c.iv_size == 8,
            c.nv_size == 8,
            !c.network_order,
    {
        BodyConfig { iv_size: 8, nv_size: 8, network_order: false }
    }
}

/// Why a body could not be decoded.
#[derive(Debug, PartialEq)]
pub enum BodyError {
    Truncated,
    UnknownTag(u8),
    InvalidUtf8,
    ObjectIndexOutOfRange(usize),
    ClassIndexOutOfRange(usize),
    NotYetImplemented(&'static str),
}

/// `i32::from_ne_bytes`: the four bytes read in the byte order of the machine
/// the program runs on.  The contract states only that this order is either
/// little- or big-endian; which one it is depends on the machine.
#[verifier::external_body]
fn i32_from_ne_bytes(b: [u8; 4]) -> (r: i32)
    ensures
        r == i32_le(b@) || r == i32_be(b@),
{
    i32::from_ne_bytes(b)
}

/// The 32-bit integer that the four bytes give in the chosen byte order.
fn i32_from_bytes(b0: u8, b1: u8, b2: u8, b3: u8, little: bool) -> (r: i32)
    ensures
        r == i32_ordered(little, seq![b0, b1, b2, b3]),
{
    let u: u64 = if little {
        (b0 as u64) + (b1 as u64) * 0x100 + (b2 as u64) * 0x1_0000 + (b3 as u64) * 0x100_0000
    } else {
        (b3 as u64) + (b2 as u64) * 0x100 + (b1 as u64) * 0x1_0000 + (b0 as u64) * 0x100_0000
    };
    if u < 0x8000_0000 {
        u as i32
    } else {
        (u as i64 - 0x1_0000_0000) as i32
    }
}

/// The 64-bit pattern that the eight bytes give in the chosen byte order.
fn u64_from_bytes(b: &[u8], little: bool) -> (r: u64)
    requires
        b@.len() == 8,
    ensures
        r == u64_ordered(little, b@),
{
    if little {
        (b[0] as u64) + (b[1] as u64) * 0x100 + (b[2] as u64) * 0x1_0000 + (b[3] as u64)
            * 0x100_0000 + (b[4] as u64) * 0x1_0000_0000 + (b[5] as u64) * 0x100_0000_0000 + (
        b[6] as u64) * 0x1_0000_0000_0000 + (b[7] as u64) * 0x100_0000_0000_0000
    } else {
        (b[7] as u64) + (b[6] as u64) * 0x100 + (b[5] as u64) * 0x1_0000 + (b[4] as u64)
            * 0x100_0000 + (b[3] as u64) * 0x1_0000_0000 + (b[2] as u64) * 0x100_0000_0000 + (
        b[1] as u64) * 0x1_0000_0000_0000 + (b[0] as u64) * 0x100_0000_0000_0000
    }
}

/// The signed 64-bit integer that the eight bytes give in the chosen byte order.
fn i64_from_bytes(b: &[u8], little: bool) -> (r: i64)
    requires
        b@.len() == 8,
    ensures
        r == i64_ordered(little, b@),
{
    let u = u64_from_bytes(b, little);
    if u < 0x8000_0000_0000_0000 {
        u as i64
    } else {
        ((u - 0x8000_0000_0000_0000) as i64) + i64::MIN
    }
}

/// A read position over a Storable body.
pub struct Cursor<'a> {
    input: &'a [u8],
    pos: usize,
    little: bool,
}

impl<'a> Cursor<'a> {
    /// The bytes the cursor reads from.
    pub closed spec fn data(&self) -> Seq<u8> {
        self.input@
    }

    /// The current read position.
    pub closed spec fn at(&self) -> int {
        self.pos as int
    }

    /// Whether the machine reads native-order integers little-endian.
    pub closed spec fn native_little(&self) -> bool {
        self.little
    }

    /// The position lies within the bytes.
    pub open spec fn wf(&self) -> bool {
        0 <= self.at() <= self.data().len()
    }

    /// A cursor at the start of `input`.  It records the byte order of the
    /// machine, in which native-order integers are read.
    pub fn new(input: &'a [u8]) -> (c: Self)
        ensures
            c.wf(),
            c.data() == input@,
            c.at() == 0,
    {
        let probe = i32_from_ne_bytes([1u8, 0u8, 0u8, 0u8]);
        Cursor { input, pos: 0, little: probe == 1 }
    }

    /// Reads one byte.
    pub fn read_byte(&mut self) -> (r: Result<u8, BodyError>)
        requires
            old(self).wf(),
        ensures
            final(self).wf(),
            final(self).data() == old(self).data(),
            final(self).native_little() == old(self).native_little(),
            (final(self).at(), r) == take_byte(old(self).data(), old(self).at()),
    {
        if self.pos >= self.input.len() {
            return Err(BodyError::Truncated);
        }
        let b = self.input[self.pos];
        self.pos = self.pos + 1;
        Ok(b)
    }

    /// The byte at the read position, which stays where it is.
    fn peek_byte(&self) -> (r: Result<u8, BodyError>)
        requires
            self.wf(),
        ensures
            r == take_byte(self.data(), self.at()).1,
    {
        if self.pos >= self.input.len() {
            return Err(BodyError::Truncated);
        }
        Ok(self.input[self.pos])
    }

    /// Reads `n` bytes.
    pub fn read_bytes(&mut self, n: usize) -> (r: Result<&'a [u8], BodyError>)
        requires
            old(self).wf(),
        ensures
            final(self).wf(),
            final(self).data() == old(self).data(),
            final(self).native_little() == old(self).native_little(),
            final(self).at() == take_bytes(old(self).data(), old(self).at(), n as int).0,
            r is Ok <==> take_bytes(old(self).data(), old(self).at(), n as int).1 is Ok,
            r matches Ok(b) ==> take_bytes(old(self).data(), old(self).at(), n as int).1 == Ok::<
                Seq<u8>,
                BodyError,
            >(b@),
            r matches Err(e) ==> e == BodyError::Truncated,
            take_bytes(old(self).data(), old(self).at(), n as int).1 is Err ==> take_bytes(
                old(self).data(),
                old(self).at(),
                n as int,
            ).1 == Err::<Seq<u8>, BodyError>(BodyError::Truncated),
    {
        if n > self.input.len() - self.pos {
            return Err(BodyError::Truncated);
        }
        let slice = &self.input[self.pos..self.pos + n];
        self.pos = self.pos + n;
        Ok(slice)
    }

    /// Reads a 32-bit integer in the byte order of the machine.
    pub fn read_i32_ne(&mut self) -> (r: Result<i32, BodyError>)
        requires
            old(self).wf(),
        ensures
            final(self).wf(),
            final(self).data() == old(self).data(),
            final(self).native_little() == old(self).native_little(),
            (final(self).at(), r) == take_i32(old(self).data(), old(self).at(), old(self).native_little()),
    {
        let bytes = self.read_bytes(4)?;
        Ok(i32_from_bytes(bytes[0], bytes[1], bytes[2], bytes[3], self.little))
    }

    /// Reads a 32-bit big-endian integer.
    pub fn read_i32_be(&mut self) -> (r: Result<i32, BodyError>)
        requires
            old(self).wf(),
        ensures
            final(self).wf(),
            final(self).data() == old(self).data(),
            final(self).native_little() == old(self).native_little(),
            (final(self).at(), r) == take_i32(old(self).data(), old(self).at(), false),
    {
        let bytes = self.read_bytes(4)?;
        Ok(i32_from_bytes(bytes[0], bytes[1], bytes[2], bytes[3], false))
    }

    /// The current read position.
    pub fn pos(&self) -> (r: usize)
        ensures
            r == self.at(),
    {
        self.pos
    }
}


// ---------------------------------------------------------------------------
// The decoder's state, seen through the contracts
// ---------------------------------------------------------------------------

/// What the decoder reads from.
pub open spec fn src_of(c: &Cursor, cfg: &BodyConfig) -> Src {
    Src { bytes: c.data(), little: c.native_little(), iv_size: cfg.iv_size, nv_size: cfg.nv_size }
}

/// The decoder's state.
pub open spec fn state_of(c: &Cursor, s: &SeenTable, k: &ClassTable) -> SState {
    SState { pos: c.at(), heap: s.heap_view(), seen: s.indices(), classes: k@ }
}

/// The cursor and the table are well formed.
pub open spec fn ready(c: &Cursor, s: &SeenTable) -> bool {
    c.wf() && s.wf()
}

/// A decoding step went from `(c0, s0)` to `(c1, s1, k1)` with result `r` as
/// `step` says; the cursor only moved forward, the heap only grew and every
/// reference stays inside the heap.
pub open spec fn took(
    c0: &Cursor,
    s0: &SeenTable,
    c1: &Cursor,
    s1: &SeenTable,
    k1: &ClassTable,
    r: Result<ValueRef, BodyError>,
    step: Step<ValueRef>,
) -> bool {
    &&& ready(c1, s1)
    &&& c1.data() == c0.data()
    &&& c1.native_little() == c0.native_little()
    &&& c0.at() <= c1.at()
    &&& s0.heap_view().len() <= s1.heap_view().len()
    &&& state_of(c1, s1, k1) == step.0
    &&& r == step.1
    &&& (r matches Ok(v) ==> v < s1.heap_view().len())
}

impl<'a> Cursor<'a> {
    /// Reads a length: a native-order 32-bit integer taken as a `usize` when
    /// `wide`, else one byte.
    fn read_len(&mut self, wide: bool) -> (r: Result<usize, BodyError>)
        requires
            old(self).wf(),
        ensures
            final(self).wf(),
            final(self).data() == old(self).data(),
            final(self).native_little() == old(self).native_little(),
            (final(self).at(), r) == take_len(old(self).data(), old(self).at(), old(self).native_little(), wide),
    {
        if wide {
            let n = self.read_i32_ne()?;
            Ok(n as usize)
        } else {
            let b = self.read_byte()?;
            Ok(b as usize)
        }
    }
}

/// Adds `v` to the heap and registers it.
fn new_scalar(seen: &mut SeenTable, v: PerlValue) -> (r: ValueRef)
    requires
        old(seen).wf(),
        v.wf(),
        refs_below(v@, old(seen).heap_view().len() as int),
    ensures
        final(seen).wf(),
        final(seen).heap_view() == old(seen).heap_view().push(v@),
        final(seen).indices() == old(seen).indices().push(r),
        r == old(seen).heap_view().len(),
{
    let r = seen.allocate(v);
    seen.register(r);
    r
}

fn read_sx_byte(cursor: &mut Cursor, seen: &mut SeenTable, classes: &mut ClassTable, config: &BodyConfig) -> (r: Result<ValueRef, BodyError>)
    requires
        ready(old(cursor), old(seen)),
    ensures
        took(old(cursor), old(seen), final(cursor), final(seen), final(classes), r,
            sx_byte(src_of(old(cursor), config), state_of(old(cursor), old(seen), old(classes)))),
{
    let raw = cursor.read_byte()?;
    Ok(new_scalar(seen, PerlValue::Integer(raw as i64 - 128)))
}


fn read_sx_integer(cursor: &mut Cursor, seen: &mut SeenTable, classes: &mut ClassTable, config: &BodyConfig) -> (r: Result<ValueRef, BodyError>)
    requires
        ready(old(cursor), old(seen)),
    ensures
        took(old(cursor), old(seen), final(cursor), final(seen), final(classes), r,
            sx_integer(src_of(old(cursor), config), state_of(old(cursor), old(seen), old(classes)))),
{
    let b = cursor.read_bytes(config.iv_size as usize)?;
    if config.iv_size == 4 {
        assert(b@ =~= seq![b@[0], b@[1], b@[2], b@[3]]);
        let n = i32_from_bytes(b[0], b[1], b[2], b[3], cursor.little);
        Ok(new_scalar(seen, PerlValue::Integer(n as i64)))
    } else if config.iv_size == 8 {
        let n = i64_from_bytes(b, cursor.little);
        Ok(new_scalar(seen, PerlValue::Integer(n)))
    } else {
        Err(BodyError::UnknownTag(0x06))
    }
}

fn read_sx_netint(cursor: &mut Cursor, seen: &mut SeenTable, classes: &mut ClassTable, config: &BodyConfig) -> (r: Result<ValueRef, BodyError>)
    requires
        ready(old(cursor), old(seen)),
    ensures
        took(old(cursor), old(seen), final(cursor), final(seen), final(classes), r,
            sx_netint(src_of(old(cursor), config), state_of(old(cursor), old(seen), old(classes)))),
{
    let b = cursor.read_bytes(4)?;
    assert(b@ =~= seq![b@[0], b@[1], b@[2], b@[3]]);
    let n = i32_from_bytes(b[0], b[1], b[2], b[3], false);
    Ok(new_scalar(seen, PerlValue::Integer(n as i64)))
}

fn read_sx_double(cursor: &mut Cursor, seen: &mut SeenTable, classes: &mut ClassTable, config: &BodyConfig) -> (r: Result<ValueRef, BodyError>)
    requires
        ready(old(cursor), old(seen)),
    ensures
        took(old(cursor), old(seen), final(cursor), final(seen), final(classes), r,
            sx_double(src_of(old(cursor), config), state_of(old(cursor), old(seen), old(classes)))),
{
    let b = cursor.read_bytes(config.nv_size as usize)?;
    if config.nv_size == 8 {
        let bits = u64_from_bytes(b, cursor.little);
        Ok(new_scalar(seen, PerlValue::Double(bits)))
    } else {
        Err(BodyError::UnknownTag(0x07))
    }
}

fn read_sx_scalar(cursor: &mut Cursor, seen: &mut SeenTable, classes: &mut ClassTable, config: &BodyConfig, wide: bool) -> (r: Result<ValueRef, BodyError>)
    requires
        ready(old(cursor), old(seen)),
    ensures
        took(old(cursor), old(seen), final(cursor), final(seen), final(classes), r,
            sx_scalar(src_of(old(cursor), config), state_of(old(cursor), old(seen), old(classes)), wide)),
{
    let n = cursor.read_len(wide)?;
    let b = cursor.read_bytes(n)?;
    Ok(new_scalar(seen, PerlValue::Bytes(slice_to_vec(b))))
}

fn read_sx_text(cursor: &mut Cursor, seen: &mut SeenTable, classes: &mut ClassTable, config: &BodyConfig, wide: bool) -> (r: Result<ValueRef, BodyError>)
    requires
        ready(old(cursor), old(seen)),
    ensures
        took(old(cursor), old(seen), final(cursor), final(seen), final(classes), r,
            sx_text(src_of(old(cursor), config), state_of(old(cursor), old(seen), old(classes)), wide)),
{
    let n = cursor.read_len(wide)?;
    let b = cursor.read_bytes(n)?;
    match utf8_decode(b) {
        Some(text) => Ok(new_scalar(seen, PerlValue::String(text))),
        None => Err(BodyError::InvalidUtf8),
    }
}

fn read_sx_object(cursor: &mut Cursor, seen: &mut SeenTable, classes: &mut ClassTable, config: &BodyConfig) -> (r: Result<ValueRef, BodyError>)
    requires
        ready(old(cursor), old(seen)),
    ensures
        took(old(cursor), old(seen), final(cursor), final(seen), final(classes), r,
            sx_object(src_of(old(cursor), config), state_of(old(cursor), old(seen), old(classes)))),
{
    let n = cursor.read_i32_be()?;
    let index = n as usize;
    match seen.get(index) {
        Some(v) => Ok(v),
        None => Err(BodyError::ObjectIndexOutOfRange(index)),
    }
}

fn read_code_text(cursor: &mut Cursor, seen: &mut SeenTable, classes: &mut ClassTable, config: &BodyConfig, t: u8) -> (r: Result<String, BodyError>)
    requires
        ready(old(cursor), old(seen)),
    ensures
        ready(final(cursor), final(seen)),
        final(cursor).data() == old(cursor).data(),
        final(cursor).native_little() == old(cursor).native_little(),
        old(cursor).at() <= final(cursor).at(),
        old(seen).heap_view().len() <= final(seen).heap_view().len(),
        ({
            let step = code_text(src_of(old(cursor), config), state_of(old(cursor), old(seen), old(classes)), t);
            &&& state_of(final(cursor), final(seen), final(classes)) == step.0
            &&& r is Ok <==> step.1 is Ok
            &&& r matches Ok(text) ==> step.1 == Ok::<Seq<char>, BodyError>(text@)
            &&& r matches Err(e) ==> step.1 == Err::<Seq<char>, BodyError>(e)
        }),
{
    if t == 0x0A || t == 0x01 {
        let n = cursor.read_len(t == 0x01)?;
        let b = cursor.read_bytes(n)?;
        new_scalar(seen, PerlValue::Bytes(slice_to_vec(b)));
        Ok(utf8_decode_lossy(b))
    } else if t == 0x17 || t == 0x18 {
        let n = cursor.read_len(t == 0x18)?;
        let b = cursor.read_bytes(n)?;
        match utf8_decode(b) {
            Some(text) => {
                let copy = text.clone();
                new_scalar(seen, PerlValue::String(text));
                Ok(copy)
            },
            None => Err(BodyError::InvalidUtf8),
        }
    } else {
        Err(BodyError::UnknownTag(t))
    }
}

fn read_sx_code(cursor: &mut Cursor, seen: &mut SeenTable, classes: &mut ClassTable, config: &BodyConfig) -> (r: Result<ValueRef, BodyError>)
    requires
        ready(old(cursor), old(seen)),
    ensures
        took(old(cursor), old(seen), final(cursor), final(seen), final(classes), r,
            sx_code(src_of(old(cursor), config), state_of(old(cursor), old(seen), old(classes)))),
{
    new_scalar(seen, PerlValue::Undef);
    let t = cursor.peek_byte()?;
    let text = if t == 0x0A || t == 0x01 || t == 0x17 || t == 0x18 {
        let _ = cursor.read_byte();
        read_code_text(cursor, seen, classes, config, t)?
    } else {
        read_code_text(cursor, seen, classes, config, 0x01)?
    };
    Ok(new_scalar(seen, PerlValue::Code(text)))
}

fn read_sx_regexp(cursor: &mut Cursor, seen: &mut SeenTable, classes: &mut ClassTable, config: &BodyConfig) -> (r: Result<ValueRef, BodyError>)
    requires
        ready(old(cursor), old(seen)),
    ensures
        took(old(cursor), old(seen), final(cursor), final(seen), final(classes), r,
            sx_regexp(src_of(old(cursor), config), state_of(old(cursor), old(seen), old(classes)))),
{
    let op = cursor.read_byte()?;
    let n = cursor.read_len(op & 0x01 != 0)?;
    let pattern = cursor.read_bytes(n)?;
    let fl = cursor.read_byte()?;
    let fb = cursor.read_bytes(fl as usize)?;
    let flags = match utf8_decode(fb) {
        Some(text) => text,
        None => String::new(),
    };
    let p = seen.allocate(PerlValue::Bytes(slice_to_vec(pattern)));
    Ok(new_scalar(seen, PerlValue::Regexp { pattern: p, flags }))
}


// ---------------------------------------------------------------------------
// Tags with children
// ---------------------------------------------------------------------------

/// The kind of a value that wraps one child.
enum Wrap {
    Ref,
    WeakRef,
    Overloaded,
    WeakOverloaded,
    TiedScalar,
    TiedArray,
    TiedHash,
    Blessed(String),
}

impl View for Wrap {
    type V = WrapKind;

    closed spec fn view(&self) -> WrapKind {
        match self {
            Wrap::Ref => WrapKind::Ref,
            Wrap::WeakRef => WrapKind::WeakRef,
            Wrap::Overloaded => WrapKind::Overloaded,
            Wrap::WeakOverloaded => WrapKind::WeakOverloaded,
            Wrap::TiedScalar => WrapKind::TiedScalar,
            Wrap::TiedArray => WrapKind::TiedArray,
            Wrap::TiedHash => WrapKind::TiedHash,
            Wrap::Blessed(c) => WrapKind::Blessed(c@),
        }
    }
}

/// Decodes one value; `f` bounds the nesting.
fn read_item(
    cursor: &mut Cursor,
    seen: &mut SeenTable,
    classes: &mut ClassTable,
    config: &BodyConfig,
    Ghost(f): Ghost<nat>,
) -> (r: Result<ValueRef, BodyError>)
    requires
        ready(old(cursor), old(seen)),
        f > old(cursor).data().len() - old(cursor).at(),
    ensures
        took(old(cursor), old(seen), final(cursor), final(seen), final(classes), r,
            item(src_of(old(cursor), config), f, state_of(old(cursor), old(seen), old(classes)))),
    decreases f, 3nat,
{
    let tag = cursor.read_byte()?;
    read_tagged(cursor, seen, classes, config, tag, Ghost((f - 1) as nat))
}

/// Decodes what the tag byte `tag` calls for.
#[verifier::rlimit(40)]
fn read_tagged(
    cursor: &mut Cursor,
    seen: &mut SeenTable,
    classes: &mut ClassTable,
    config: &BodyConfig,
    tag: u8,
    Ghost(cf): Ghost<nat>,
) -> (r: Result<ValueRef, BodyError>)
    requires
        ready(old(cursor), old(seen)),
        cf > old(cursor).data().len() - old(cursor).at(),
    ensures
        took(old(cursor), old(seen), final(cursor), final(seen), final(classes), r,
            dispatch(src_of(old(cursor), config), cf, state_of(old(cursor), old(seen), old(classes)), tag)),
    decreases cf + 1, 2nat,
{
    if tag == 0x05 || tag == 0x0E || tag == 0x1F {
        Ok(seen.allocate(PerlValue::Undef))
    } else if tag == 0x0F || tag == 0x22 {
        Ok(seen.allocate(PerlValue::Yes))
    } else if tag == 0x10 || tag == 0x23 {
        Ok(seen.allocate(PerlValue::No))
    } else if tag == 0x08 {
        read_sx_byte(cursor, seen, classes, config)
    } else if tag == 0x06 {
        read_sx_integer(cursor, seen, classes, config)
    } else if tag == 0x09 {
        read_sx_netint(cursor, seen, classes, config)
    } else if tag == 0x07 {
        read_sx_double(cursor, seen, classes, config)
    } else if tag == 0x0A {
        read_sx_scalar(cursor, seen, classes, config, false)
    } else if tag == 0x17 {
        read_sx_text(cursor, seen, classes, config, false)
    } else if tag == 0x02 {
        read_sx_array(cursor, seen, classes, config, Ghost(cf))
    } else if tag == 0x03 {
        read_sx_hash(cursor, seen, classes, config, Ghost(cf))
    } else if tag == 0x04 {
        read_wrapped(cursor, seen, classes, config, Wrap::Ref, Ghost(cf))
    } else if tag == 0x00 {
        read_sx_object(cursor, seen, classes, config)
    } else if tag == 0x1B {
        read_wrapped(cursor, seen, classes, config, Wrap::WeakRef, Ghost(cf))
    } else if tag == 0x11 {
        read_sx_bless(cursor, seen, classes, config, Ghost(cf))
    } else if tag == 0x12 {
        read_sx_ix_bless(cursor, seen, classes, config, Ghost(cf))
    } else if tag == 0x01 {
        read_sx_scalar(cursor, seen, classes, config, true)
    } else if tag == 0x18 {
        read_sx_text(cursor, seen, classes, config, true)
    } else if tag == 0x14 {
        read_wrapped(cursor, seen, classes, config, Wrap::Overloaded, Ghost(cf))
    } else if tag == 0x1C {
        read_wrapped(cursor, seen, classes, config, Wrap::WeakOverloaded, Ghost(cf))
    } else if tag == 0x1D {
        read_sx_vstring(cursor, seen, classes, config, false, Ghost(cf))
    } else if tag == 0x1E {
        read_sx_vstring(cursor, seen, classes, config, true, Ghost(cf))
    } else if tag == 0x19 {
        read_sx_flag_hash(cursor, seen, classes, config, Ghost(cf))
    } else if tag == 0x0D {
        read_wrapped(cursor, seen, classes, config, Wrap::TiedScalar, Ghost(cf))
    } else if tag == 0x0B {
        read_wrapped(cursor, seen, classes, config, Wrap::TiedArray, Ghost(cf))
    } else if tag == 0x0C {
        read_wrapped(cursor, seen, classes, config, Wrap::TiedHash, Ghost(cf))
    } else if tag == 0x15 {
        read_sx_tied_key(cursor, seen, classes, config, Ghost(cf))
    } else if tag == 0x16 {
        read_sx_tied_idx(cursor, seen, classes, config, Ghost(cf))
    } else if tag == 0x1A {
        read_sx_code(cursor, seen, classes, config)
    } else if tag == 0x20 {
        read_sx_regexp(cursor, seen, classes, config)
    } else if tag == 0x13 {
        read_sx_hook(cursor, seen, classes, config, Ghost(cf))
    } else if tag == 0x21 {
        Err(BodyError::NotYetImplemented("SX_LOBJECT"))
    } else {
        Err(BodyError::UnknownTag(tag))
    }
}

/// Decodes a value that wraps one child, registering a placeholder first.
fn read_wrapped(
    cursor: &mut Cursor,
    seen: &mut SeenTable,
    classes: &mut ClassTable,
    config: &BodyConfig,
    k: Wrap,
    Ghost(cf): Ghost<nat>,
) -> (r: Result<ValueRef, BodyError>)
    requires
        ready(old(cursor), old(seen)),
        cf > old(cursor).data().len() - old(cursor).at(),
    ensures
        took(old(cursor), old(seen), final(cursor), final(seen), final(classes), r,
            wrapped(src_of(old(cursor), config), cf, state_of(old(cursor), old(seen), old(classes)), k@)),
    decreases cf + 1, 0nat,
{
    let r = new_scalar(seen, PerlValue::Undef);
    let inner = read_item(cursor, seen, classes, config, Ghost(cf))?;
    let node = match k {
        Wrap::Ref => PerlValue::Ref(inner),
        Wrap::WeakRef => PerlValue::WeakRef(inner),
        Wrap::Overloaded => PerlValue::Overloaded(inner),
        Wrap::WeakOverloaded => PerlValue::WeakOverloaded(inner),
        Wrap::TiedScalar => PerlValue::TiedScalar(inner),
        Wrap::TiedArray => PerlValue::TiedArray(inner),
        Wrap::TiedHash => PerlValue::TiedHash(inner),
        Wrap::Blessed(c) => PerlValue::Blessed(inner, c),
    };
    seen.set(r, node);
    Ok(r)
}

fn read_sx_bless(
    cursor: &mut Cursor,
    seen: &mut SeenTable,
    classes: &mut ClassTable,
    config: &BodyConfig,
    Ghost(cf): Ghost<nat>,
) -> (r: Result<ValueRef, BodyError>)
    requires
        ready(old(cursor), old(seen)),
        cf > old(cursor).data().len() - old(cursor).at(),
    ensures
        took(old(cursor), old(seen), final(cursor), final(seen), final(classes), r,
            sx_bless(src_of(old(cursor), config), cf, state_of(old(cursor), old(seen), old(classes)))),
    decreases cf + 1, 1nat,
{
    let n = cursor.read_byte()?;
    let b = cursor.read_bytes(n as usize)?;
    match utf8_decode(b) {
        Some(class) => {
            classes.register(class.clone());
            read_wrapped(cursor, seen, classes, config, Wrap::Blessed(class), Ghost(cf))
        },
        None => Err(BodyError::InvalidUtf8),
    }
}

fn read_sx_ix_bless(
    cursor: &mut Cursor,
    seen: &mut SeenTable,
    classes: &mut ClassTable,
    config: &BodyConfig,
    Ghost(cf): Ghost<nat>,
) -> (r: Result<ValueRef, BodyError>)
    requires
        ready(old(cursor), old(seen)),
        cf > old(cursor).data().len() - old(cursor).at(),
    ensures
        took(old(cursor), old(seen), final(cursor), final(seen), final(classes), r,
            sx_ix_bless(src_of(old(cursor), config), cf, state_of(old(cursor), old(seen), old(classes)))),
    decreases cf + 1, 1nat,
{
    let i = cursor.read_byte()?;
    let class = match classes.get(i as usize) {
        Some(c) => c.to_owned(),
        None => {
            return Err(BodyError::ClassIndexOutOfRange(i as usize));
        },
    };
    read_wrapped(cursor, seen, classes, config, Wrap::Blessed(class), Ghost(cf))
}

fn read_sx_tied_key(
    cursor: &mut Cursor,
    seen: &mut SeenTable,
    classes: &mut ClassTable,
    config: &BodyConfig,
    Ghost(cf): Ghost<nat>,
) -> (r: Result<ValueRef, BodyError>)
    requires
        ready(old(cursor), old(seen)),
        cf > old(cursor).data().len() - old(cursor).at(),
    ensures
        took(old(cursor), old(seen), final(cursor), final(seen), final(classes), r,
            sx_tied_key(src_of(old(cursor), config), cf, state_of(old(cursor), old(seen), old(classes)))),
    decreases cf + 1, 0nat,
{
    let r = new_scalar(seen, PerlValue::Undef);
    let obj = read_item(cursor, seen, classes, config, Ghost(cf))?;
    let key = read_item(cursor, seen, classes, config, Ghost(cf))?;
    seen.set(r, PerlValue::TiedKey(obj, key));
    Ok(r)
}

fn read_sx_tied_idx(
    cursor: &mut Cursor,
    seen: &mut SeenTable,
    classes: &mut ClassTable,
    config: &BodyConfig,
    Ghost(cf): Ghost<nat>,
) -> (r: Result<ValueRef, BodyError>)
    requires
        ready(old(cursor), old(seen)),
        cf > old(cursor).data().len() - old(cursor).at(),
    ensures
        took(old(cursor), old(seen), final(cursor), final(seen), final(classes), r,
            sx_tied_idx(src_of(old(cursor), config), cf, state_of(old(cursor), old(seen), old(classes)))),
    decreases cf + 1, 0nat,
{
    let r = new_scalar(seen, PerlValue::Undef);
    let obj = read_item(cursor, seen, classes, config, Ghost(cf))?;
    let i = cursor.read_i32_ne()?;
    seen.set(r, PerlValue::TiedIdx(obj, i as i64));
    Ok(r)
}

fn read_sx_vstring(
    cursor: &mut Cursor,
    seen: &mut SeenTable,
    classes: &mut ClassTable,
    config: &BodyConfig,
    wide: bool,
    Ghost(cf): Ghost<nat>,
) -> (r: Result<ValueRef, BodyError>)
    requires
        ready(old(cursor), old(seen)),
        cf > old(cursor).data().len() - old(cursor).at(),
    ensures
        took(old(cursor), old(seen), final(cursor), final(seen), final(classes), r,
            sx_vstring(src_of(old(cursor), config), cf, state_of(old(cursor), old(seen), old(classes)), wide)),
    decreases cf + 1, 0nat,
{
    let n = cursor.read_len(wide)?;
    let vb = cursor.read_bytes(n)?;
    let _inner = read_item(cursor, seen, classes, config, Ghost(cf))?;
    Ok(seen.allocate(PerlValue::VString(slice_to_vec(vb))))
}


#[verifier::loop_isolation(false)]
fn read_sx_array(
    cursor: &mut Cursor,
    seen: &mut SeenTable,
    classes: &mut ClassTable,
    config: &BodyConfig,
    Ghost(cf): Ghost<nat>,
) -> (r: Result<ValueRef, BodyError>)
    requires
        ready(old(cursor), old(seen)),
        cf > old(cursor).data().len() - old(cursor).at(),
    ensures
        took(old(cursor), old(seen), final(cursor), final(seen), final(classes), r,
            sx_array(src_of(old(cursor), config), cf, state_of(old(cursor), old(seen), old(classes)))),
    decreases cf + 1, 0nat,
{
    let ghost src = src_of(cursor, config);
    let ghost st0 = state_of(cursor, seen, classes);
    let p = new_scalar(seen, PerlValue::Array(Vec::new()));
    assert(state_of(cursor, seen, classes) == open_node(st0, SpecValue::Array(Seq::empty())));
    let c = cursor.read_i32_ne()?;
    let count = c as usize;
    let ghost start = state_of(cursor, seen, classes);
    assert(read_i32n(src, open_node(st0, SpecValue::Array(Seq::empty()))) == (start, Ok::<i32, BodyError>(c)));
    let mut items: Vec<ValueRef> = Vec::new();
    let mut i: usize = 0;
    while i < count
        invariant
            ready(cursor, seen),
            src == src_of(cursor, config),
            old(cursor).at() <= cursor.at(),
            old(seen).heap_view().len() < seen.heap_view().len(),
            p == old(seen).heap_view().len(),
            cf > cursor.data().len() - cursor.at(),
            i <= count,
            forall|j: int| 0 <= j < items@.len() ==> items@[j] < seen.heap_view().len(),
            read_items(src, cf, state_of(cursor, seen, classes), (count - i) as nat, items@)
                == read_items(src, cf, start, count as nat, Seq::empty()),
        decreases count - i,
    {
        let ghost before = state_of(cursor, seen, classes);
        let v = match read_item(cursor, seen, classes, config, Ghost(cf)) {
            Ok(v) => v,
            Err(e) => {
                assert(read_items(src, cf, before, (count - i) as nat, items@) == (
                state_of(cursor, seen, classes), Err::<Seq<ValueRef>, BodyError>(e)));
                assert(read_items(src, cf, start, count as nat, Seq::empty()) == (
                state_of(cursor, seen, classes), Err::<Seq<ValueRef>, BodyError>(e)));
                assert(sx_array(src, cf, st0) == (
                state_of(cursor, seen, classes), Err::<ValueRef, BodyError>(e)));
                return Err(e);
            },
        };
        items.push(v);
        i = i + 1;
    }
    seen.set(p, PerlValue::Array(items));
    Ok(p)
}

#[verifier::loop_isolation(false)]
fn read_sx_hash(
    cursor: &mut Cursor,
    seen: &mut SeenTable,
    classes: &mut ClassTable,
    config: &BodyConfig,
    Ghost(cf): Ghost<nat>,
) -> (r: Result<ValueRef, BodyError>)
    requires
        ready(old(cursor), old(seen)),
        cf > old(cursor).data().len() - old(cursor).at(),
    ensures
        took(old(cursor), old(seen), final(cursor), final(seen), final(classes), r,
            sx_hash(src_of(old(cursor), config), cf, state_of(old(cursor), old(seen), old(classes)))),
    decreases cf + 1, 0nat,
{
    let ghost src = src_of(cursor, config);
    let p = new_scalar(seen, PerlValue::Hash(ByteMap::new()));
    let c = cursor.read_i32_ne()?;
    let count = c as usize;
    let ghost start = state_of(cursor, seen, classes);
    let mut pairs: ByteMap<ValueRef> = ByteMap::new();
    let mut i: usize = 0;
    while i < count
        invariant
            ready(cursor, seen),
            src == src_of(cursor, config),
            old(cursor).at() <= cursor.at(),
            old(seen).heap_view().len() < seen.heap_view().len(),
            p == old(seen).heap_view().len(),
            cf > cursor.data().len() - cursor.at(),
            i <= count,
            pairs.wf(),
            refs_below(SpecValue::Hash(pairs@), seen.heap_view().len() as int),
            read_pairs(src, cf, state_of(cursor, seen, classes), (count - i) as nat, pairs@)
                == read_pairs(src, cf, start, count as nat, Map::empty()),
        decreases count - i,
    {
        let ghost n0 = seen.heap_view().len() as int;
        let v = read_item(cursor, seen, classes, config, Ghost(cf))?;
        let kl = cursor.read_i32_ne()?;
        let key = cursor.read_bytes(kl as usize)?;
        let ghost m0 = pairs@;
        pairs.insert(slice_to_vec(key), v);
        proof {
            lemma_refs_below_mono(SpecValue::Hash(m0), n0, seen.heap_view().len() as int);
            lemma_hash_refs_insert(m0, key@, v, seen.heap_view().len() as int);
            assert(refs_below(SpecValue::Hash(pairs@), seen.heap_view().len() as int));
        }
        i = i + 1;
    }
    seen.set(p, PerlValue::Hash(pairs));
    Ok(p)
}

#[verifier::loop_isolation(false)]
fn read_sx_flag_hash(
    cursor: &mut Cursor,
    seen: &mut SeenTable,
    classes: &mut ClassTable,
    config: &BodyConfig,
    Ghost(cf): Ghost<nat>,
) -> (r: Result<ValueRef, BodyError>)
    requires
        ready(old(cursor), old(seen)),
        cf > old(cursor).data().len() - old(cursor).at(),
    ensures
        took(old(cursor), old(seen), final(cursor), final(seen), final(classes), r,
            sx_flag_hash(src_of(old(cursor), config), cf, state_of(old(cursor), old(seen), old(classes)))),
    decreases cf + 1, 0nat,
{
    let ghost src = src_of(cursor, config);
    let p = new_scalar(seen, PerlValue::FlagHash { hash_flags: 0, entries: ByteMap::new() });
    let hash_flags = cursor.read_byte()?;
    let c = cursor.read_i32_ne()?;
    let count = c as usize;
    let ghost start = state_of(cursor, seen, classes);
    let mut entries: ByteMap<(u8, ValueRef)> = ByteMap::new();
    let mut i: usize = 0;
    while i < count
        invariant
            ready(cursor, seen),
            src == src_of(cursor, config),
            old(cursor).at() <= cursor.at(),
            old(seen).heap_view().len() < seen.heap_view().len(),
            p == old(seen).heap_view().len(),
            cf > cursor.data().len() - cursor.at(),
            i <= count,
            entries.wf(),
            refs_below(SpecValue::FlagHash(hash_flags, entries@), seen.heap_view().len() as int),
            read_flag_pairs(src, cf, state_of(cursor, seen, classes), (count - i) as nat, entries@)
                == read_flag_pairs(src, cf, start, count as nat, Map::empty()),
        decreases count - i,
    {
        let ghost n0 = seen.heap_view().len() as int;
        let v = read_item(cursor, seen, classes, config, Ghost(cf))?;
        let key_flags = cursor.read_byte()?;
        let kl = cursor.read_i32_ne()?;
        let key = cursor.read_bytes(kl as usize)?;
        let ghost m0 = entries@;
        entries.insert(slice_to_vec(key), (key_flags, v));
        proof {
            lemma_refs_below_mono(SpecValue::FlagHash(hash_flags, m0), n0, seen.heap_view().len() as int);
            lemma_flag_hash_refs_insert(m0, key@, (key_flags, v), seen.heap_view().len() as int);
        }
        i = i + 1;
    }
    seen.set(p, PerlValue::FlagHash { hash_flags, entries });
    Ok(p)
}

/// Decodes the class of a hook.
fn read_hook_class(
    cursor: &mut Cursor,
    seen: &SeenTable,
    classes: &mut ClassTable,
    config: &BodyConfig,
    flags: u8,
) -> (r: Result<String, BodyError>)
    requires
        old(cursor).wf(),
    ensures
        final(cursor).wf(),
        final(cursor).data() == old(cursor).data(),
        final(cursor).native_little() == old(cursor).native_little(),
        old(cursor).at() <= final(cursor).at(),
        ({
            let step = hook_class(src_of(old(cursor), config), state_of(old(cursor), seen, old(classes)), flags);
            &&& state_of(final(cursor), seen, final(classes)) == step.0
            &&& r is Ok <==> step.1 is Ok
            &&& r matches Ok(c) ==> step.1 == Ok::<Seq<char>, BodyError>(c@)
            &&& r matches Err(e) ==> step.1 == Err::<Seq<char>, BodyError>(e)
        }),
{
    let n = cursor.read_len(flags & 0x04 != 0)?;
    if flags & 0x20 != 0 {
        match classes.get(n) {
            Some(c) => Ok(c.to_owned()),
            None => Err(BodyError::ClassIndexOutOfRange(n)),
        }
    } else {
        let b = cursor.read_bytes(n)?;
        match utf8_decode(b) {
            Some(c) => {
                classes.register(c.clone());
                Ok(c)
            },
            None => Err(BodyError::InvalidUtf8),
        }
    }
}

/// Decodes the registered values a hook refers to.
#[verifier::loop_isolation(false)]
fn read_hook_refs(
    cursor: &mut Cursor,
    seen: &SeenTable,
    classes: &ClassTable,
    config: &BodyConfig,
    flags: u8,
) -> (r: Result<Vec<ValueRef>, BodyError>)
    requires
        old(cursor).wf(),
        seen.wf(),
    ensures
        final(cursor).wf(),
        final(cursor).data() == old(cursor).data(),
        final(cursor).native_little() == old(cursor).native_little(),
        old(cursor).at() <= final(cursor).at(),
        ({
            let step = hook_refs(src_of(old(cursor), config), state_of(old(cursor), seen, classes), flags);
            &&& state_of(final(cursor), seen, classes) == step.0
            &&& r is Ok <==> step.1 is Ok
            &&& r matches Ok(v) ==> step.1 == Ok::<Seq<ValueRef>, BodyError>(v@)
            &&& r matches Err(e) ==> step.1 == Err::<Seq<ValueRef>, BodyError>(e)
        }),
        r matches Ok(v) ==> forall|j: int| 0 <= j < v@.len() ==> v@[j] < seen.heap_view().len(),
{
    let ghost src = src_of(cursor, config);
    let mut refs: Vec<ValueRef> = Vec::new();
    if flags & 0x80 != 0 {
        let count = cursor.read_len(flags & 0x10 != 0)?;
        let ghost start = state_of(cursor, seen, classes);
        let mut i: usize = 0;
        while i < count
            invariant
                cursor.wf(),
                src == src_of(cursor, config),
                old(cursor).at() <= cursor.at(),
                i <= count,
                forall|j: int| 0 <= j < refs@.len() ==> refs@[j] < seen.heap_view().len(),
                read_refs(src, state_of(cursor, seen, classes), (count - i) as nat, refs@)
                    == read_refs(src, start, count as nat, Seq::empty()),
            decreases count - i,
        {
            let x = cursor.read_i32_be()?;
            let index = x as usize;
            match seen.get(index) {
                Some(v) => refs.push(v),
                None => {
                    return Err(BodyError::ObjectIndexOutOfRange(index));
                },
            }
            i = i + 1;
        }
    }
    Ok(refs)
}

/// Decodes a hook's class, frozen payload and references, then fills in the
/// placeholder `p`.
fn read_hook_rest(
    cursor: &mut Cursor,
    seen: &mut SeenTable,
    classes: &mut ClassTable,
    config: &BodyConfig,
    p: ValueRef,
    flags: u8,
    recurse: Vec<ValueRef>,
) -> (r: Result<ValueRef, BodyError>)
    requires
        ready(old(cursor), old(seen)),
        p < old(seen).heap_view().len(),
        forall|j: int| 0 <= j < recurse@.len() ==> recurse@[j] < old(seen).heap_view().len(),
    ensures
        took(old(cursor), old(seen), final(cursor), final(seen), final(classes), r,
            hook_rest(src_of(old(cursor), config), state_of(old(cursor), old(seen), old(classes)), p, flags, recurse@)),
{
    let class = read_hook_class(cursor, seen, classes, config, flags)?;
    let fl = cursor.read_len(flags & 0x08 != 0)?;
    let frozen = cursor.read_bytes(fl)?;
    let refs = read_hook_refs(cursor, seen, classes, config, flags)?;
    seen.set(
        p,
        PerlValue::Hook {
            class,
            obj_type: flags & 0x03,
            frozen: slice_to_vec(frozen),
            refs,
            recurse,
        },
    );
    Ok(p)
}

#[verifier::loop_isolation(false)]
fn read_sx_hook(
    cursor: &mut Cursor,
    seen: &mut SeenTable,
    classes: &mut ClassTable,
    config: &BodyConfig,
    Ghost(cf): Ghost<nat>,
) -> (r: Result<ValueRef, BodyError>)
    requires
        ready(old(cursor), old(seen)),
        cf > old(cursor).data().len() - old(cursor).at(),
    ensures
        took(old(cursor), old(seen), final(cursor), final(seen), final(classes), r,
            sx_hook(src_of(old(cursor), config), cf, state_of(old(cursor), old(seen), old(classes)))),
    decreases cf + 1, 0nat,
{
    let ghost src = src_of(cursor, config);
    let p = new_scalar(
        seen,
        PerlValue::Hook {
            class: String::new(),
            obj_type: 0,
            frozen: Vec::new(),
            refs: Vec::new(),
            recurse: Vec::new(),
        },
    );
    let flags0 = cursor.read_byte()?;
    let ghost start = state_of(cursor, seen, classes);
    let mut flags = flags0;
    let mut recurse: Vec<ValueRef> = Vec::new();
    let ghost mut k: nat = src.bytes.len();
    while flags & 0x40 != 0
        invariant
            ready(cursor, seen),
            src == src_of(cursor, config),
            old(cursor).at() <= cursor.at(),
            old(seen).heap_view().len() < seen.heap_view().len(),
            p == old(seen).heap_view().len(),
            cf > cursor.data().len() - cursor.at(),
            k >= cursor.data().len() - cursor.at(),
            forall|j: int| 0 <= j < recurse@.len() ==> recurse@[j] < seen.heap_view().len(),
            read_recurse(src, cf, state_of(cursor, seen, classes), k, flags, recurse@)
                == read_recurse(src, cf, start, src.bytes.len(), flags0, Seq::empty()),
        decreases cursor.data().len() - cursor.at(),
    {
        let v = read_item(cursor, seen, classes, config, Ghost(cf))?;
        recurse.push(v);
        flags = cursor.read_byte()?;
        proof {
            k = (k - 1) as nat;
        }
    }
    read_hook_rest(cursor, seen, classes, config, p, flags, recurse)
}

/// Decodes one value of a Storable body: its tag byte and what the tag calls
/// for.  Values that other values may refer back to are registered in `seen`
/// in the order the format numbers them, class names in `classes`.
pub fn read_value(
    cursor: &mut Cursor<'_>,
    seen: &mut SeenTable,
    classes: &mut ClassTable,
    config: &BodyConfig,
) -> (r: Result<ValueRef, BodyError>)
    requires
        ready(old(cursor), old(seen)),
    ensures
        took(old(cursor), old(seen), final(cursor), final(seen), final(classes), r,
            decode_value(src_of(old(cursor), config), state_of(old(cursor), old(seen), old(classes)))),
{
    read_item(cursor, seen, classes, config, Ghost((cursor.data().len() - cursor.at() + 1) as nat))
}

} // verus!
