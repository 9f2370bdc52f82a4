//! What decoding a Storable body yields, stated over the bytes and the
//! decoder's state.
use vstd::prelude::*;
use crate::storable::body::BodyError;
use crate::shared_model::{SpecValue, ValueRef};
use crate::text::utf8_lossy;
use vstd::utf8::{decode_utf8, valid_utf8};

verus! {

// ---------------------------------------------------------------------------
// Integers from bytes
// ---------------------------------------------------------------------------

/// The unsigned value of four bytes, least significant first.
pub open spec fn u32_le(b: Seq<u8>) -> int {
    b[0] + 0x100 * b[1] + 0x1_0000 * b[2] + 0x100_0000 * b[3]
}

/// The unsigned value of four bytes, most significant first.
pub open spec fn u32_be(b: Seq<u8>) -> int {
    b[3] + 0x100 * b[2] + 0x1_0000 * b[1] + 0x100_0000 * b[0]
}

/// The two's-complement reading of a 32-bit pattern.
pub open spec fn signed32(u: int) -> i32 {
    (if u < 0x8000_0000 { u } else { u - 0x1_0000_0000 }) as i32
}

pub open spec fn i32_le(b: Seq<u8>) -> i32 {
    signed32(u32_le(b))
}

pub open spec fn i32_be(b: Seq<u8>) -> i32 {
    signed32(u32_be(b))
}

/// Four bytes as a signed integer, little-endian when `little` holds.
pub open spec fn i32_ordered(little: bool, b: Seq<u8>) -> i32 {
    if little { i32_le(b) } else { i32_be(b) }
}

/// The unsigned value of eight bytes in the chosen byte order.
pub open spec fn u64_ordered(little: bool, b: Seq<u8>) -> u64 {
    (if little {
        b[0] + 0x100 * b[1] + 0x1_0000 * b[2] + 0x100_0000 * b[3] + 0x1_0000_0000 * b[4]
            + 0x100_0000_0000 * b[5] + 0x1_0000_0000_0000 * b[6] + 0x100_0000_0000_0000 * b[7]
    } else {
        b[7] + 0x100 * b[6] + 0x1_0000 * b[5] + 0x100_0000 * b[4] + 0x1_0000_0000 * b[3]
            + 0x100_0000_0000 * b[2] + 0x1_0000_0000_0000 * b[1] + 0x100_0000_0000_0000 * b[0]
    }) as u64
}

/// Eight bytes as a signed integer in the chosen byte order.
pub open spec fn i64_ordered(little: bool, b: Seq<u8>) -> i64 {
    let u = u64_ordered(little, b) as int;
    (if u < 0x8000_0000_0000_0000 { u } else { u - 0x1_0000_0000_0000_0000 }) as i64
}

// ---------------------------------------------------------------------------
// Reading from a position
// ---------------------------------------------------------------------------

/// Reading one byte at `pos`: the new position and the byte.
pub open spec fn take_byte(bytes: Seq<u8>, pos: int) -> (int, Result<u8, BodyError>) {
    if 0 <= pos < bytes.len() {
        (pos + 1, Ok(bytes[pos]))
    } else {
        (pos, Err(BodyError::Truncated))
    }
}

/// Reading `n` bytes at `pos`.
pub open spec fn take_bytes(bytes: Seq<u8>, pos: int, n: int) -> (int, Result<Seq<u8>, BodyError>) {
    if 0 <= pos && pos + n <= bytes.len() {
        (pos + n, Ok(bytes.subrange(pos, pos + n)))
    } else {
        (pos, Err(BodyError::Truncated))
    }
}

/// Reading a four-byte integer at `pos`.
pub open spec fn take_i32(bytes: Seq<u8>, pos: int, little: bool) -> (int, Result<i32, BodyError>) {
    match take_bytes(bytes, pos, 4) {
        (p, Ok(b)) => (p, Ok(i32_ordered(little, b))),
        (p, Err(e)) => (p, Err(e)),
    }
}


/// Reading a length: a four-byte native-order integer taken as a `usize` when
/// `wide`, else one byte.
pub open spec fn take_len(bytes: Seq<u8>, pos: int, little: bool, wide: bool) -> (int, Result<usize, BodyError>) {
    if wide {
        match take_i32(bytes, pos, little) {
            (p, Ok(n)) => (p, Ok(n as usize)),
            (p, Err(e)) => (p, Err(e)),
        }
    } else {
        match take_byte(bytes, pos) {
            (p, Ok(b)) => (p, Ok(b as usize)),
            (p, Err(e)) => (p, Err(e)),
        }
    }
}

// ---------------------------------------------------------------------------
// The decoder's state
// ---------------------------------------------------------------------------

/// What a decoding step reads from: the bytes, the machine's byte order and the
/// writer's number widths.
pub struct Src {
    pub bytes: Seq<u8>,
    pub little: bool,
    pub iv_size: u8,
    pub nv_size: u8,
}

/// The decoder's state: the read position, the heap of values, the registered
/// values and the registered class names.
#[verifier::ext_equal]
pub struct SState {
    pub pos: int,
    pub heap: Seq<SpecValue>,
    pub seen: Seq<ValueRef>,
    pub classes: Seq<Seq<char>>,
}

/// The state after a step, and its outcome.
pub type Step<T> = (SState, Result<T, BodyError>);

/// A failed step.
pub open spec fn fail<T>(st: SState, e: BodyError) -> Step<T> {
    (st, Err(e))
}

/// A step that only moves the read position.
pub open spec fn lift<T>(st: SState, r: (int, Result<T, BodyError>)) -> Step<T> {
    (SState { pos: r.0, ..st }, r.1)
}

pub open spec fn read_u8(src: Src, st: SState) -> Step<u8> {
    lift(st, take_byte(src.bytes, st.pos))
}

pub open spec fn read_n(src: Src, st: SState, n: usize) -> Step<Seq<u8>> {
    lift(st, take_bytes(src.bytes, st.pos, n as int))
}

pub open spec fn read_i32n(src: Src, st: SState) -> Step<i32> {
    lift(st, take_i32(src.bytes, st.pos, src.little))
}

pub open spec fn read_i32b(src: Src, st: SState) -> Step<i32> {
    lift(st, take_i32(src.bytes, st.pos, false))
}

pub open spec fn read_len(src: Src, st: SState, wide: bool) -> Step<usize> {
    lift(st, take_len(src.bytes, st.pos, src.little, wide))
}

/// The reference the next new node gets.
pub open spec fn fresh(st: SState) -> ValueRef {
    st.heap.len() as ValueRef
}

/// Adds a node to the heap.
pub open spec fn put(st: SState, v: SpecValue) -> SState {
    SState { heap: st.heap.push(v), ..st }
}

/// Registers a value in the seen table.
pub open spec fn enter(st: SState, r: ValueRef) -> SState {
    SState { seen: st.seen.push(r), ..st }
}

/// Replaces node `r`.
pub open spec fn fill(st: SState, r: ValueRef, v: SpecValue) -> SState {
    SState { heap: st.heap.update(r as int, v), ..st }
}

/// Adds a node and registers it.
pub open spec fn open_node(st: SState, v: SpecValue) -> SState {
    enter(put(st, v), fresh(st))
}

/// A new value that is registered in the seen table.
pub open spec fn scalar(st: SState, v: SpecValue) -> Step<ValueRef> {
    (open_node(st, v), Ok(fresh(st)))
}

/// A new value that is not registered.
pub open spec fn plain(st: SState, v: SpecValue) -> Step<ValueRef> {
    (put(st, v), Ok(fresh(st)))
}

/// The characters that `b` encodes in UTF-8, or the error for bytes that are
/// not UTF-8.
pub open spec fn utf8_text(b: Seq<u8>) -> Result<Seq<char>, BodyError> {
    if valid_utf8(b) {
        Ok(decode_utf8(b))
    } else {
        Err(BodyError::InvalidUtf8)
    }
}

// ---------------------------------------------------------------------------
// Tags without children
// ---------------------------------------------------------------------------

/// `SX_BYTE`: one byte with a bias of 128.
pub open spec fn sx_byte(src: Src, st: SState) -> Step<ValueRef> {
    match read_u8(src, st) {
        (s, Ok(raw)) => scalar(s, SpecValue::Integer((raw - 128) as i64)),
        (s, Err(e)) => fail(s, e),
    }
}

/// `SX_INTEGER`: an integer of the writer's `IV` width in native order.
pub open spec fn sx_integer(src: Src, st: SState) -> Step<ValueRef> {
    match read_n(src, st, src.iv_size as usize) {
        (s, Ok(b)) => if src.iv_size == 4 {
            scalar(s, SpecValue::Integer(i32_ordered(src.little, b) as i64))
        } else if src.iv_size == 8 {
            scalar(s, SpecValue::Integer(i64_ordered(src.little, b)))
        } else {
            fail(s, BodyError::UnknownTag(0x06))
        },
        (s, Err(e)) => fail(s, e),
    }
}

/// `SX_NETINT`: a four-byte big-endian integer.
pub open spec fn sx_netint(src: Src, st: SState) -> Step<ValueRef> {
    match read_n(src, st, 4) {
        (s, Ok(b)) => scalar(s, SpecValue::Integer(i32_be(b) as i64)),
        (s, Err(e)) => fail(s, e),
    }
}

/// `SX_DOUBLE`: a float of the writer's `NV` width in native order.
pub open spec fn sx_double(src: Src, st: SState) -> Step<ValueRef> {
    match read_n(src, st, src.nv_size as usize) {
        (s, Ok(b)) => if src.nv_size == 8 {
            scalar(s, SpecValue::Double(u64_ordered(src.little, b)))
        } else {
            fail(s, BodyError::UnknownTag(0x07))
        },
        (s, Err(e)) => fail(s, e),
    }
}

/// `SX_SCALAR` (`wide` false) and `SX_LSCALAR` (`wide` true): a byte string.
pub open spec fn sx_scalar(src: Src, st: SState, wide: bool) -> Step<ValueRef> {
    match read_len(src, st, wide) {
        (s, Ok(n)) => match read_n(src, s, n) {
            (s2, Ok(b)) => scalar(s2, SpecValue::Bytes(b)),
            (s2, Err(e)) => fail(s2, e),
        },
        (s, Err(e)) => fail(s, e),
    }
}

/// `SX_UTF8STR` (`wide` false) and `SX_LUTF8STR` (`wide` true): a UTF-8 string.
pub open spec fn sx_text(src: Src, st: SState, wide: bool) -> Step<ValueRef> {
    match read_len(src, st, wide) {
        (s, Ok(n)) => match read_n(src, s, n) {
            (s2, Ok(b)) => match utf8_text(b) {
                Ok(t) => scalar(s2, SpecValue::Str(t)),
                Err(e) => fail(s2, e),
            },
            (s2, Err(e)) => fail(s2, e),
        },
        (s, Err(e)) => fail(s, e),
    }
}

/// `SX_OBJECT`: a back-reference, by big-endian index, to a registered value.
pub open spec fn sx_object(src: Src, st: SState) -> Step<ValueRef> {
    match read_i32b(src, st) {
        (s, Ok(n)) => {
            let index = n as usize;
            if index < s.seen.len() {
                (s, Ok(s.seen[index as int]))
            } else {
                fail(s, BodyError::ObjectIndexOutOfRange(index))
            }
        },
        (s, Err(e)) => fail(s, e),
    }
}

/// The source text of an `SX_CODE`, read as the scalar of type `t`; the scalar
/// is registered as a value of its own.
pub open spec fn code_text(src: Src, st: SState, t: u8) -> Step<Seq<char>> {
    if t == 0x0A || t == 0x01 {
        match read_len(src, st, t == 0x01) {
            (s, Ok(n)) => match read_n(src, s, n) {
                (s2, Ok(b)) => (open_node(s2, SpecValue::Bytes(b)), Ok(utf8_lossy(b))),
                (s2, Err(e)) => fail(s2, e),
            },
            (s, Err(e)) => fail(s, e),
        }
    } else if t == 0x17 || t == 0x18 {
        match read_len(src, st, t == 0x18) {
            (s, Ok(n)) => match read_n(src, s, n) {
                (s2, Ok(b)) => match utf8_text(b) {
                    Ok(text) => (open_node(s2, SpecValue::Str(text)), Ok(text)),
                    Err(e) => fail(s2, e),
                },
                (s2, Err(e)) => fail(s2, e),
            },
            (s, Err(e)) => fail(s, e),
        }
    } else {
        fail(st, BodyError::UnknownTag(t))
    }
}

/// The scalar tags that can carry the source text of an `SX_CODE`.
pub open spec fn is_code_text_tag(t: u8) -> bool {
    t == 0x0A || t == 0x01 || t == 0x17 || t == 0x18
}

/// `SX_CODE`: a placeholder is registered first, then the source scalar, then
/// the code value itself.  The source is a scalar with its own tag; when the
/// next byte is no such tag, the source is read as a long scalar without a
/// tag (a native four-byte length, then the bytes).
pub open spec fn sx_code(src: Src, st: SState) -> Step<ValueRef> {
    let s0 = open_node(st, SpecValue::Undef);
    match read_u8(src, s0) {
        (s1, Ok(t)) => match (if is_code_text_tag(t) {
            code_text(src, s1, t)
        } else {
            code_text(src, s0, 0x01)
        }) {
            (s2, Ok(text)) => scalar(s2, SpecValue::Code(text)),
            (s2, Err(e)) => fail(s2, e),
        },
        (s1, Err(e)) => fail(s1, e),
    }
}

/// The flags text of an `SX_REGEXP`: bytes that are not UTF-8 give the empty
/// text.
pub open spec fn flags_text(b: Seq<u8>) -> Seq<char> {
    if valid_utf8(b) {
        decode_utf8(b)
    } else {
        Seq::empty()
    }
}

/// `SX_REGEXP`: operator flags, the pattern, then the modifier flags.
pub open spec fn sx_regexp(src: Src, st: SState) -> Step<ValueRef> {
    match read_u8(src, st) {
        (s1, Ok(op)) => match read_len(src, s1, op & 0x01 != 0) {
            (s2, Ok(n)) => match read_n(src, s2, n) {
                (s3, Ok(pattern)) => match read_u8(src, s3) {
                    (s4, Ok(fl)) => match read_n(src, s4, fl as usize) {
                        (s5, Ok(fb)) => {
                            let p = fresh(s5);
                            let s6 = put(s5, SpecValue::Bytes(pattern));
                            scalar(s6, SpecValue::Regexp(p, flags_text(fb)))
                        },
                        (s5, Err(e)) => fail(s5, e),
                    },
                    (s4, Err(e)) => fail(s4, e),
                },
                (s3, Err(e)) => fail(s3, e),
            },
            (s2, Err(e)) => fail(s2, e),
        },
        (s1, Err(e)) => fail(s1, e),
    }
}


// ---------------------------------------------------------------------------
// Tags with children
// ---------------------------------------------------------------------------

/// A value that wraps one child.
pub enum WrapKind {
    Ref,
    WeakRef,
    Overloaded,
    WeakOverloaded,
    TiedScalar,
    TiedArray,
    TiedHash,
    Blessed(Seq<char>),
}

/// The node that wraps `inner` as `k` says.
pub open spec fn wrap_node(k: WrapKind, inner: ValueRef) -> SpecValue {
    match k {
        WrapKind::Ref => SpecValue::Ref(inner),
        WrapKind::WeakRef => SpecValue::WeakRef(inner),
        WrapKind::Overloaded => SpecValue::Overloaded(inner),
        WrapKind::WeakOverloaded => SpecValue::WeakOverloaded(inner),
        WrapKind::TiedScalar => SpecValue::TiedScalar(inner),
        WrapKind::TiedArray => SpecValue::TiedArray(inner),
        WrapKind::TiedHash => SpecValue::TiedHash(inner),
        WrapKind::Blessed(class) => SpecValue::Blessed(inner, class),
    }
}

/// Decoding one value with `f` levels of nesting to spare: the tag byte, then
/// what the tag calls for.  Running out of levels counts as truncation; a
/// budget larger than the number of unread bytes never runs out, as every
/// level reads at least its tag byte.
pub open spec fn item(src: Src, f: nat, st: SState) -> Step<ValueRef>
    decreases f, 3nat,
{
    if f == 0 {
        fail(st, BodyError::Truncated)
    } else {
        match read_u8(src, st) {
            (s, Ok(tag)) => dispatch(src, (f - 1) as nat, s, tag),
            (s, Err(e)) => fail(s, e),
        }
    }
}

/// What the tag byte `tag` calls for; children get `cf` levels.
pub open spec fn dispatch(src: Src, cf: nat, st: SState, tag: u8) -> Step<ValueRef>
    decreases cf + 1, 2nat,
{
    if tag == 0x05 || tag == 0x0E || tag == 0x1F {
        plain(st, SpecValue::Undef)
    } else if tag == 0x0F || tag == 0x22 {
        plain(st, SpecValue::Yes)
    } else if tag == 0x10 || tag == 0x23 {
        plain(st, SpecValue::No)
    } else if tag == 0x08 {
        sx_byte(src, st)
    } else if tag == 0x06 {
        sx_integer(src, st)
    } else if tag == 0x09 {
        sx_netint(src, st)
    } else if tag == 0x07 {
        sx_double(src, st)
    } else if tag == 0x0A {
        sx_scalar(src, st, false)
    } else if tag == 0x17 {
        sx_text(src, st, false)
    } else if tag == 0x02 {
        sx_array(src, cf, st)
    } else if tag == 0x03 {
        sx_hash(src, cf, st)
    } else if tag == 0x04 {
        wrapped(src, cf, st, WrapKind::Ref)
    } else if tag == 0x00 {
        sx_object(src, st)
    } else if tag == 0x1B {
        wrapped(src, cf, st, WrapKind::WeakRef)
    } else if tag == 0x11 {
        sx_bless(src, cf, st)
    } else if tag == 0x12 {
        sx_ix_bless(src, cf, st)
    } else if tag == 0x01 {
        sx_scalar(src, st, true)
    } else if tag == 0x18 {
        sx_text(src, st, true)
    } else if tag == 0x14 {
        wrapped(src, cf, st, WrapKind::Overloaded)
    } else if tag == 0x1C {
        wrapped(src, cf, st, WrapKind::WeakOverloaded)
    } else if tag == 0x1D {
        sx_vstring(src, cf, st, false)
    } else if tag == 0x1E {
        sx_vstring(src, cf, st, true)
    } else if tag == 0x19 {
        sx_flag_hash(src, cf, st)
    } else if tag == 0x0D {
        wrapped(src, cf, st, WrapKind::TiedScalar)
    } else if tag == 0x0B {
        wrapped(src, cf, st, WrapKind::TiedArray)
    } else if tag == 0x0C {
        wrapped(src, cf, st, WrapKind::TiedHash)
    } else if tag == 0x15 {
        sx_tied_key(src, cf, st)
    } else if tag == 0x16 {
        sx_tied_idx(src, cf, st)
    } else if tag == 0x1A {
        sx_code(src, st)
    } else if tag == 0x20 {
        sx_regexp(src, st)
    } else if tag == 0x13 {
        sx_hook(src, cf, st)
    } else if tag == 0x21 {
        fail(st, BodyError::NotYetImplemented("SX_LOBJECT"))
    } else {
        fail(st, BodyError::UnknownTag(tag))
    }
}

/// A value wrapping one child: a placeholder is registered first, so that the
/// child can refer back to it, and is filled in once the child is decoded.
pub open spec fn wrapped(src: Src, cf: nat, st: SState, k: WrapKind) -> Step<ValueRef>
    decreases cf + 1, 0nat,
{
    let r = fresh(st);
    match item(src, cf, open_node(st, SpecValue::Undef)) {
        (s1, Ok(inner)) => (fill(s1, r, wrap_node(k, inner)), Ok(r)),
        (s1, Err(e)) => fail(s1, e),
    }
}

/// `SX_BLESS`: a class name, which is registered, then the blessed value.
pub open spec fn sx_bless(src: Src, cf: nat, st: SState) -> Step<ValueRef>
    decreases cf + 1, 1nat,
{
    match read_u8(src, st) {
        (s1, Ok(n)) => match read_n(src, s1, n as usize) {
            (s2, Ok(b)) => match utf8_text(b) {
                Ok(class) => wrapped(
                    src,
                    cf,
                    SState { classes: s2.classes.push(class), ..s2 },
                    WrapKind::Blessed(class),
                ),
                Err(e) => fail(s2, e),
            },
            (s2, Err(e)) => fail(s2, e),
        },
        (s1, Err(e)) => fail(s1, e),
    }
}

/// `SX_IX_BLESS`: a class given by its index, then the blessed value.
pub open spec fn sx_ix_bless(src: Src, cf: nat, st: SState) -> Step<ValueRef>
    decreases cf + 1, 1nat,
{
    match read_u8(src, st) {
        (s1, Ok(i)) => if (i as int) < s1.classes.len() {
            wrapped(src, cf, s1, WrapKind::Blessed(s1.classes[i as int]))
        } else {
            fail(s1, BodyError::ClassIndexOutOfRange(i as usize))
        },
        (s1, Err(e)) => fail(s1, e),
    }
}

/// `SX_TIED_KEY`: a tied object and a key.
pub open spec fn sx_tied_key(src: Src, cf: nat, st: SState) -> Step<ValueRef>
    decreases cf + 1, 0nat,
{
    let r = fresh(st);
    match item(src, cf, open_node(st, SpecValue::Undef)) {
        (s1, Ok(obj)) => match item(src, cf, s1) {
            (s2, Ok(key)) => (fill(s2, r, SpecValue::TiedKey(obj, key)), Ok(r)),
            (s2, Err(e)) => fail(s2, e),
        },
        (s1, Err(e)) => fail(s1, e),
    }
}

/// `SX_TIED_IDX`: a tied object and a native-order index.
pub open spec fn sx_tied_idx(src: Src, cf: nat, st: SState) -> Step<ValueRef>
    decreases cf + 1, 0nat,
{
    let r = fresh(st);
    match item(src, cf, open_node(st, SpecValue::Undef)) {
        (s1, Ok(obj)) => match read_i32n(src, s1) {
            (s2, Ok(i)) => (fill(s2, r, SpecValue::TiedIdx(obj, i as i64)), Ok(r)),
            (s2, Err(e)) => fail(s2, e),
        },
        (s1, Err(e)) => fail(s1, e),
    }
}

/// `SX_VSTRING` (`wide` false) and `SX_LVSTRING` (`wide` true): the version
/// string's bytes, then a scalar that is decoded (and registered by its own
/// tag) but not kept; the version string itself is not registered.
pub open spec fn sx_vstring(src: Src, cf: nat, st: SState, wide: bool) -> Step<ValueRef>
    decreases cf + 1, 0nat,
{
    match read_len(src, st, wide) {
        (s1, Ok(n)) => match read_n(src, s1, n) {
            (s2, Ok(vb)) => match item(src, cf, s2) {
                (s3, Ok(_)) => plain(s3, SpecValue::VString(vb)),
                (s3, Err(e)) => fail(s3, e),
            },
            (s2, Err(e)) => fail(s2, e),
        },
        (s1, Err(e)) => fail(s1, e),
    }
}

/// Decoding `n` more array elements after those in `acc`.
pub open spec fn read_items(src: Src, cf: nat, st: SState, n: nat, acc: Seq<ValueRef>) -> Step<Seq<ValueRef>>
    decreases cf, n + 4,
{
    if n == 0 {
        (st, Ok(acc))
    } else {
        match item(src, cf, st) {
            (s1, Ok(v)) => read_items(src, cf, s1, (n - 1) as nat, acc.push(v)),
            (s1, Err(e)) => fail(s1, e),
        }
    }
}

/// `SX_ARRAY`: a native-order count, then the elements; the array is
/// registered before its elements.
pub open spec fn sx_array(src: Src, cf: nat, st: SState) -> Step<ValueRef>
    decreases cf + 1, 0nat,
{
    let p = fresh(st);
    match read_i32n(src, open_node(st, SpecValue::Array(Seq::empty()))) {
        (s1, Ok(c)) => match read_items(src, cf, s1, (c as usize) as nat, Seq::empty()) {
            (s2, Ok(items)) => (fill(s2, p, SpecValue::Array(items)), Ok(p)),
            (s2, Err(e)) => fail(s2, e),
        },
        (s1, Err(e)) => fail(s1, e),
    }
}

/// Decoding `n` more hash entries, each a value, a native-order key length and
/// the key; a later entry for a key replaces an earlier one.
pub open spec fn read_pairs(
    src: Src,
    cf: nat,
    st: SState,
    n: nat,
    acc: Map<Seq<u8>, ValueRef>,
) -> Step<Map<Seq<u8>, ValueRef>>
    decreases cf, n + 4,
{
    if n == 0 {
        (st, Ok(acc))
    } else {
        match item(src, cf, st) {
            (s1, Ok(v)) => match read_i32n(src, s1) {
                (s2, Ok(kl)) => match read_n(src, s2, kl as usize) {
                    (s3, Ok(key)) => read_pairs(src, cf, s3, (n - 1) as nat, acc.insert(key, v)),
                    (s3, Err(e)) => fail(s3, e),
                },
                (s2, Err(e)) => fail(s2, e),
            },
            (s1, Err(e)) => fail(s1, e),
        }
    }
}

/// `SX_HASH`: a native-order count, then the entries; the hash is registered
/// before its entries.
pub open spec fn sx_hash(src: Src, cf: nat, st: SState) -> Step<ValueRef>
    decreases cf + 1, 0nat,
{
    let p = fresh(st);
    match read_i32n(src, open_node(st, SpecValue::Hash(Map::empty()))) {
        (s1, Ok(c)) => match read_pairs(src, cf, s1, (c as usize) as nat, Map::empty()) {
            (s2, Ok(m)) => (fill(s2, p, SpecValue::Hash(m)), Ok(p)),
            (s2, Err(e)) => fail(s2, e),
        },
        (s1, Err(e)) => fail(s1, e),
    }
}

/// Decoding `n` more flagged hash entries: a value, the key's flag byte, a
/// native-order key length and the key.
pub open spec fn read_flag_pairs(
    src: Src,
    cf: nat,
    st: SState,
    n: nat,
    acc: Map<Seq<u8>, (u8, ValueRef)>,
) -> Step<Map<Seq<u8>, (u8, ValueRef)>>
    decreases cf, n + 4,
{
    if n == 0 {
        (st, Ok(acc))
    } else {
        match item(src, cf, st) {
            (s1, Ok(v)) => match read_u8(src, s1) {
                (s2, Ok(kf)) => match read_i32n(src, s2) {
                    (s3, Ok(kl)) => match read_n(src, s3, kl as usize) {
                        (s4, Ok(key)) => read_flag_pairs(
                            src,
                            cf,
                            s4,
                            (n - 1) as nat,
                            acc.insert(key, (kf, v)),
                        ),
                        (s4, Err(e)) => fail(s4, e),
                    },
                    (s3, Err(e)) => fail(s3, e),
                },
                (s2, Err(e)) => fail(s2, e),
            },
            (s1, Err(e)) => fail(s1, e),
        }
    }
}

/// `SX_FLAG_HASH`: the hash's flag byte, a native-order count, then the
/// entries; the hash is registered before its entries.
pub open spec fn sx_flag_hash(src: Src, cf: nat, st: SState) -> Step<ValueRef>
    decreases cf + 1, 0nat,
{
    let p = fresh(st);
    match read_u8(src, open_node(st, SpecValue::FlagHash(0, Map::empty()))) {
        (s1, Ok(hf)) => match read_i32n(src, s1) {
            (s2, Ok(c)) => match read_flag_pairs(src, cf, s2, (c as usize) as nat, Map::empty()) {
                (s3, Ok(m)) => (fill(s3, p, SpecValue::FlagHash(hf, m)), Ok(p)),
                (s3, Err(e)) => fail(s3, e),
            },
            (s2, Err(e)) => fail(s2, e),
        },
        (s1, Err(e)) => fail(s1, e),
    }
}

/// Hook flag bits.
pub open spec fn shf_large_classlen(flags: u8) -> bool {
    flags & 0x04 != 0
}

pub open spec fn shf_large_strlen(flags: u8) -> bool {
    flags & 0x08 != 0
}

pub open spec fn shf_large_listlen(flags: u8) -> bool {
    flags & 0x10 != 0
}

pub open spec fn shf_idx_classname(flags: u8) -> bool {
    flags & 0x20 != 0
}

pub open spec fn shf_need_recurse(flags: u8) -> bool {
    flags & 0x40 != 0
}

pub open spec fn shf_has_list(flags: u8) -> bool {
    flags & 0x80 != 0
}

/// While the flags ask for it, a value to decode and then fresh flags; `k`
/// bounds the rounds (each round reads at least two bytes).
pub open spec fn read_recurse(
    src: Src,
    cf: nat,
    st: SState,
    k: nat,
    flags: u8,
    acc: Seq<ValueRef>,
) -> Step<(Seq<ValueRef>, u8)>
    decreases cf, k + 4,
{
    if !shf_need_recurse(flags) {
        (st, Ok((acc, flags)))
    } else if k == 0 {
        fail(st, BodyError::Truncated)
    } else {
        match item(src, cf, st) {
            (s1, Ok(v)) => match read_u8(src, s1) {
                (s2, Ok(fl)) => read_recurse(src, cf, s2, (k - 1) as nat, fl, acc.push(v)),
                (s2, Err(e)) => fail(s2, e),
            },
            (s1, Err(e)) => fail(s1, e),
        }
    }
}

/// The class of a hook: by index into the class table, or by name, which is
/// registered.
pub open spec fn hook_class(src: Src, st: SState, flags: u8) -> Step<Seq<char>> {
    match read_len(src, st, shf_large_classlen(flags)) {
        (s1, Ok(n)) => if shf_idx_classname(flags) {
            if (n as int) < s1.classes.len() {
                (s1, Ok(s1.classes[n as int]))
            } else {
                fail(s1, BodyError::ClassIndexOutOfRange(n))
            }
        } else {
            match read_n(src, s1, n) {
                (s2, Ok(b)) => match utf8_text(b) {
                    Ok(class) => (SState { classes: s2.classes.push(class), ..s2 }, Ok(class)),
                    Err(e) => fail(s2, e),
                },
                (s2, Err(e)) => fail(s2, e),
            }
        },
        (s1, Err(e)) => fail(s1, e),
    }
}

/// Decoding `n` more big-endian indices of registered values.
pub open spec fn read_refs(src: Src, st: SState, n: nat, acc: Seq<ValueRef>) -> Step<Seq<ValueRef>>
    decreases n,
{
    if n == 0 {
        (st, Ok(acc))
    } else {
        match read_i32b(src, st) {
            (s1, Ok(x)) => {
                let index = x as usize;
                if index < s1.seen.len() {
                    read_refs(src, s1, (n - 1) as nat, acc.push(s1.seen[index as int]))
                } else {
                    fail(s1, BodyError::ObjectIndexOutOfRange(index))
                }
            },
            (s1, Err(e)) => fail(s1, e),
        }
    }
}

/// The list of registered values a hook refers to, when its flags say it has one.
pub open spec fn hook_refs(src: Src, st: SState, flags: u8) -> Step<Seq<ValueRef>> {
    if shf_has_list(flags) {
        match read_len(src, st, shf_large_listlen(flags)) {
            (s1, Ok(c)) => read_refs(src, s1, c as nat, Seq::empty()),
            (s1, Err(e)) => fail(s1, e),
        }
    } else {
        (st, Ok(Seq::empty()))
    }
}

/// What follows a hook's recursion: its class, frozen payload and references;
/// the placeholder `p` is then filled in.
pub open spec fn hook_rest(src: Src, st: SState, p: ValueRef, flags: u8, recurse: Seq<ValueRef>) -> Step<ValueRef> {
    match hook_class(src, st, flags) {
        (s1, Ok(class)) => match read_len(src, s1, shf_large_strlen(flags)) {
            (s2, Ok(fl)) => match read_n(src, s2, fl) {
                (s3, Ok(frozen)) => match hook_refs(src, s3, flags) {
                    (s4, Ok(refs)) => (
                        fill(s4, p, SpecValue::Hook(class, flags & 0x03, frozen, refs, recurse)),
                        Ok(p),
                    ),
                    (s4, Err(e)) => fail(s4, e),
                },
                (s3, Err(e)) => fail(s3, e),
            },
            (s2, Err(e)) => fail(s2, e),
        },
        (s1, Err(e)) => fail(s1, e),
    }
}

/// `SX_HOOK`: a value a class serialised by its own hook; the placeholder is
/// registered first.
pub open spec fn sx_hook(src: Src, cf: nat, st: SState) -> Step<ValueRef>
    decreases cf + 1, 0nat,
{
    let p = fresh(st);
    let s0 = open_node(
        st,
        SpecValue::Hook(Seq::empty(), 0, Seq::empty(), Seq::empty(), Seq::empty()),
    );
    match read_u8(src, s0) {
        (s1, Ok(flags)) => match read_recurse(src, cf, s1, src.bytes.len(), flags, Seq::empty()) {
            (s2, Ok((recurse, fl))) => hook_rest(src, s2, p, fl, recurse),
            (s2, Err(e)) => fail(s2, e),
        },
        (s1, Err(e)) => fail(s1, e),
    }
}

/// Decoding one value at the state's position, with a nesting budget that
/// never runs out.
pub open spec fn decode_value(src: Src, st: SState) -> Step<ValueRef> {
    item(src, (src.bytes.len() - st.pos + 1) as nat, st)
}

// ---------------------------------------------------------------------------
// Laws
// ---------------------------------------------------------------------------

/// A back-reference (`SX_OBJECT` and a big-endian index) to a registered value
/// gives that very value: no node is added, nothing is registered, and only
/// the read position moves past the five bytes.
pub proof fn lemma_back_reference_is_shared(src: Src, st: SState)
    requires
        0 <= st.pos,
        st.pos + 5 <= src.bytes.len(),
        src.bytes[st.pos] == 0x00,
        (i32_be(src.bytes.subrange(st.pos + 1, st.pos + 5)) as usize) < st.seen.len(),
    ensures
        decode_value(src, st) == (
            SState { pos: st.pos + 5, ..st },
            Ok::<ValueRef, BodyError>(
                st.seen[(i32_be(src.bytes.subrange(st.pos + 1, st.pos + 5)) as usize) as int],
            ),
        ),
{
    let f = (src.bytes.len() - st.pos + 1) as nat;
    let s = SState { pos: st.pos + 1, ..st };
    assert(read_u8(src, st) == (s, Ok::<u8, BodyError>(0x00u8)));
    assert(item(src, f, st) == dispatch(src, (f - 1) as nat, s, 0x00u8));
    assert(dispatch(src, (f - 1) as nat, s, 0x00u8) == sx_object(src, s));
}

// ---------------------------------------------------------------------------
// Reading moves forward
// ---------------------------------------------------------------------------

/// `b` starts with `a`: what was there stays there.
pub open spec fn extends<T>(a: Seq<T>, b: Seq<T>) -> bool {
    a.len() <= b.len() && forall|i: int| 0 <= i < a.len() ==> #[trigger] b[i] == a[i]
}

/// A successful step did not move the read position back, ended within the
/// bytes when it started within them, removed no node of the heap and kept
/// every class name where it was registered.
pub open spec fn advanced<T>(src: Src, st: SState, step: Step<T>) -> bool {
    step.1 is Ok ==> {
        &&& st.pos <= step.0.pos
        &&& (st.pos <= src.bytes.len() ==> step.0.pos <= src.bytes.len())
        &&& st.heap.len() <= step.0.heap.len()
        &&& extends(st.classes, step.0.classes)
    }
}

/// Every value reads at least its tag byte: a successful decoding of one value
/// ends past where it started, and within the bytes; it removes no node and
/// keeps the class names already registered.
pub proof fn lemma_item_advances(src: Src, f: nat, st: SState)
    ensures
        advanced(src, st, item(src, f, st)),
        item(src, f, st).1 is Ok ==> st.pos < item(src, f, st).0.pos <= src.bytes.len(),
    decreases f, 3nat,
{
    if f > 0 {
        if let (s, Ok(tag)) = read_u8(src, st) {
            lemma_dispatch_advances(src, (f - 1) as nat, s, tag);
        }
    }
}

proof fn lemma_dispatch_advances(src: Src, cf: nat, st: SState, tag: u8)
    ensures
        advanced(src, st, dispatch(src, cf, st, tag)),
    decreases cf + 1, 2nat,
{
    if tag == 0x02 {
        lemma_array_advances(src, cf, st);
    } else if tag == 0x03 {
        lemma_hash_advances(src, cf, st);
    } else if tag == 0x19 {
        lemma_flag_hash_advances(src, cf, st);
    } else if tag == 0x04 {
        lemma_wrapped_advances(src, cf, st, WrapKind::Ref);
    } else if tag == 0x1B {
        lemma_wrapped_advances(src, cf, st, WrapKind::WeakRef);
    } else if tag == 0x14 {
        lemma_wrapped_advances(src, cf, st, WrapKind::Overloaded);
    } else if tag == 0x1C {
        lemma_wrapped_advances(src, cf, st, WrapKind::WeakOverloaded);
    } else if tag == 0x0D {
        lemma_wrapped_advances(src, cf, st, WrapKind::TiedScalar);
    } else if tag == 0x0B {
        lemma_wrapped_advances(src, cf, st, WrapKind::TiedArray);
    } else if tag == 0x0C {
        lemma_wrapped_advances(src, cf, st, WrapKind::TiedHash);
    } else if tag == 0x11 {
        lemma_bless_advances(src, cf, st);
    } else if tag == 0x12 {
        lemma_ix_bless_advances(src, cf, st);
    } else if tag == 0x15 {
        lemma_tied_key_advances(src, cf, st);
    } else if tag == 0x16 {
        lemma_tied_idx_advances(src, cf, st);
    } else if tag == 0x1D || tag == 0x1E {
        lemma_vstring_advances(src, cf, st, tag == 0x1E);
    } else if tag == 0x13 {
        lemma_hook_advances(src, cf, st);
    } else {
        lemma_leaf_advances(src, cf, st, tag);
    }
}

/// The tags without children.
#[verifier::rlimit(40)]
proof fn lemma_leaf_advances(src: Src, cf: nat, st: SState, tag: u8)
    requires
        !(tag == 0x02 || tag == 0x03 || tag == 0x19 || tag == 0x04 || tag == 0x1B || tag == 0x14
            || tag == 0x1C || tag == 0x0D || tag == 0x0B || tag == 0x0C || tag == 0x11 || tag
            == 0x12 || tag == 0x15 || tag == 0x16 || tag == 0x1D || tag == 0x1E || tag == 0x13),
    ensures
        advanced(src, st, dispatch(src, cf, st, tag)),
{
    if tag == 0x08 {
        assert(advanced(src, st, sx_byte(src, st)));
    } else if tag == 0x06 {
        assert(advanced(src, st, sx_integer(src, st)));
    } else if tag == 0x09 {
        assert(advanced(src, st, sx_netint(src, st)));
    } else if tag == 0x07 {
        assert(advanced(src, st, sx_double(src, st)));
    } else if tag == 0x0A || tag == 0x01 {
        assert(advanced(src, st, sx_scalar(src, st, tag == 0x01)));
    } else if tag == 0x17 || tag == 0x18 {
        assert(advanced(src, st, sx_text(src, st, tag == 0x18)));
    } else if tag == 0x00 {
        assert(advanced(src, st, sx_object(src, st)));
    } else if tag == 0x20 {
        assert(advanced(src, st, sx_regexp(src, st)));
    } else if tag == 0x1A {
        let s0 = open_node(st, SpecValue::Undef);
        if let (s1, Ok(t)) = read_u8(src, s0) {
            assert(advanced(src, s1, code_text(src, s1, t)));
            assert(advanced(src, s0, code_text(src, s0, 0x01)));
        }
        assert(advanced(src, st, sx_code(src, st)));
    }
}

proof fn lemma_wrapped_advances(src: Src, cf: nat, st: SState, k: WrapKind)
    ensures
        advanced(src, st, wrapped(src, cf, st, k)),
    decreases cf + 1, 0nat,
{
    lemma_item_advances(src, cf, open_node(st, SpecValue::Undef));
}

proof fn lemma_bless_advances(src: Src, cf: nat, st: SState)
    ensures
        advanced(src, st, sx_bless(src, cf, st)),
    decreases cf + 1, 1nat,
{
    if let (s1, Ok(n)) = read_u8(src, st) {
        if let (s2, Ok(b)) = read_n(src, s1, n as usize) {
            if let Ok(class) = utf8_text(b) {
                lemma_wrapped_advances(
                    src,
                    cf,
                    SState { classes: s2.classes.push(class), ..s2 },
                    WrapKind::Blessed(class),
                );
            }
        }
    }
}

proof fn lemma_ix_bless_advances(src: Src, cf: nat, st: SState)
    ensures
        advanced(src, st, sx_ix_bless(src, cf, st)),
    decreases cf + 1, 1nat,
{
    if let (s1, Ok(i)) = read_u8(src, st) {
        if (i as int) < s1.classes.len() {
            lemma_wrapped_advances(src, cf, s1, WrapKind::Blessed(s1.classes[i as int]));
        }
    }
}

proof fn lemma_tied_key_advances(src: Src, cf: nat, st: SState)
    ensures
        advanced(src, st, sx_tied_key(src, cf, st)),
    decreases cf + 1, 0nat,
{
    let s0 = open_node(st, SpecValue::Undef);
    lemma_item_advances(src, cf, s0);
    if let (s1, Ok(_)) = item(src, cf, s0) {
        lemma_item_advances(src, cf, s1);
    }
}

proof fn lemma_tied_idx_advances(src: Src, cf: nat, st: SState)
    ensures
        advanced(src, st, sx_tied_idx(src, cf, st)),
    decreases cf + 1, 0nat,
{
    lemma_item_advances(src, cf, open_node(st, SpecValue::Undef));
}

proof fn lemma_vstring_advances(src: Src, cf: nat, st: SState, wide: bool)
    ensures
        advanced(src, st, sx_vstring(src, cf, st, wide)),
    decreases cf + 1, 0nat,
{
    if let (s1, Ok(n)) = read_len(src, st, wide) {
        if let (s2, Ok(_)) = read_n(src, s1, n) {
            lemma_item_advances(src, cf, s2);
        }
    }
}

proof fn lemma_items_advance(src: Src, cf: nat, st: SState, n: nat, acc: Seq<ValueRef>)
    ensures
        advanced(src, st, read_items(src, cf, st, n, acc)),
    decreases cf, n + 4,
{
    if n > 0 {
        lemma_item_advances(src, cf, st);
        if let (s1, Ok(v)) = item(src, cf, st) {
            lemma_items_advance(src, cf, s1, (n - 1) as nat, acc.push(v));
        }
    }
}

proof fn lemma_array_advances(src: Src, cf: nat, st: SState)
    ensures
        advanced(src, st, sx_array(src, cf, st)),
    decreases cf + 1, 0nat,
{
    if let (s1, Ok(c)) = read_i32n(src, open_node(st, SpecValue::Array(Seq::empty()))) {
        lemma_items_advance(src, cf, s1, (c as usize) as nat, Seq::empty());
    }
}

proof fn lemma_pairs_advance(src: Src, cf: nat, st: SState, n: nat, acc: Map<Seq<u8>, ValueRef>)
    ensures
        advanced(src, st, read_pairs(src, cf, st, n, acc)),
    decreases cf, n + 4,
{
    if n > 0 {
        lemma_item_advances(src, cf, st);
        if let (s1, Ok(v)) = item(src, cf, st) {
            if let (s2, Ok(kl)) = read_i32n(src, s1) {
                if let (s3, Ok(key)) = read_n(src, s2, kl as usize) {
                    lemma_pairs_advance(src, cf, s3, (n - 1) as nat, acc.insert(key, v));
                }
            }
        }
    }
}

proof fn lemma_hash_advances(src: Src, cf: nat, st: SState)
    ensures
        advanced(src, st, sx_hash(src, cf, st)),
    decreases cf + 1, 0nat,
{
    if let (s1, Ok(c)) = read_i32n(src, open_node(st, SpecValue::Hash(Map::empty()))) {
        lemma_pairs_advance(src, cf, s1, (c as usize) as nat, Map::empty());
    }
}

proof fn lemma_flag_pairs_advance(
    src: Src,
    cf: nat,
    st: SState,
    n: nat,
    acc: Map<Seq<u8>, (u8, ValueRef)>,
)
    ensures
        advanced(src, st, read_flag_pairs(src, cf, st, n, acc)),
    decreases cf, n + 4,
{
    if n > 0 {
        lemma_item_advances(src, cf, st);
        if let (s1, Ok(v)) = item(src, cf, st) {
            if let (s2, Ok(kf)) = read_u8(src, s1) {
                if let (s3, Ok(kl)) = read_i32n(src, s2) {
                    if let (s4, Ok(key)) = read_n(src, s3, kl as usize) {
                        lemma_flag_pairs_advance(src, cf, s4, (n - 1) as nat, acc.insert(key, (kf, v)));
                    }
                }
            }
        }
    }
}

proof fn lemma_flag_hash_advances(src: Src, cf: nat, st: SState)
    ensures
        advanced(src, st, sx_flag_hash(src, cf, st)),
    decreases cf + 1, 0nat,
{
    if let (s1, Ok(_)) = read_u8(src, open_node(st, SpecValue::FlagHash(0, Map::empty()))) {
        if let (s2, Ok(c)) = read_i32n(src, s1) {
            lemma_flag_pairs_advance(src, cf, s2, (c as usize) as nat, Map::empty());
        }
    }
}

proof fn lemma_recurse_advances(src: Src, cf: nat, st: SState, k: nat, flags: u8, acc: Seq<ValueRef>)
    ensures
        advanced(src, st, read_recurse(src, cf, st, k, flags, acc)),
    decreases cf, k + 4,
{
    if shf_need_recurse(flags) && k > 0 {
        lemma_item_advances(src, cf, st);
        if let (s1, Ok(v)) = item(src, cf, st) {
            if let (s2, Ok(fl)) = read_u8(src, s1) {
                lemma_recurse_advances(src, cf, s2, (k - 1) as nat, fl, acc.push(v));
            }
        }
    }
}

proof fn lemma_refs_advance(src: Src, st: SState, n: nat, acc: Seq<ValueRef>)
    ensures
        advanced(src, st, read_refs(src, st, n, acc)),
    decreases n,
{
    if n > 0 {
        if let (s1, Ok(x)) = read_i32b(src, st) {
            if (x as usize) < s1.seen.len() {
                lemma_refs_advance(src, s1, (n - 1) as nat, acc.push(s1.seen[(x as usize) as int]));
            }
        }
    }
}

proof fn lemma_hook_advances(src: Src, cf: nat, st: SState)
    ensures
        advanced(src, st, sx_hook(src, cf, st)),
    decreases cf + 1, 0nat,
{
    let p = fresh(st);
    let s0 = open_node(st, SpecValue::Hook(Seq::empty(), 0, Seq::empty(), Seq::empty(), Seq::empty()));
    if let (s1, Ok(flags)) = read_u8(src, s0) {
        lemma_recurse_advances(src, cf, s1, src.bytes.len(), flags, Seq::empty());
        if let (s2, Ok((recurse, fl))) = read_recurse(src, cf, s1, src.bytes.len(), flags, Seq::empty()) {
            if let (h1, Ok(_)) = hook_class(src, s2, fl) {
                if let (h2, Ok(n)) = read_len(src, h1, shf_large_strlen(fl)) {
                    if let (h3, Ok(_)) = read_n(src, h2, n) {
                        if shf_has_list(fl) {
                            if let (h4, Ok(c)) = read_len(src, h3, shf_large_listlen(fl)) {
                                lemma_refs_advance(src, h4, c as nat, Seq::empty());
                            }
                        }
                    }
                }
            }
        }
    }
}

// ---------------------------------------------------------------------------
// Counts beyond the input
// ---------------------------------------------------------------------------

/// More elements than bytes left cannot all be read.
proof fn lemma_items_need_bytes(src: Src, cf: nat, st: SState, n: nat, acc: Seq<ValueRef>)
    requires
        n > 0,
        n > src.bytes.len() - st.pos,
    ensures
        read_items(src, cf, st, n, acc).1 is Err,
    decreases n,
{
    lemma_item_advances(src, cf, st);
    if let (s1, Ok(v)) = item(src, cf, st) {
        lemma_items_need_bytes(src, cf, s1, (n - 1) as nat, acc.push(v));
    }
}

/// More entries than bytes left cannot all be read.
proof fn lemma_pairs_need_bytes(src: Src, cf: nat, st: SState, n: nat, acc: Map<Seq<u8>, ValueRef>)
    requires
        n > 0,
        n > src.bytes.len() - st.pos,
    ensures
        read_pairs(src, cf, st, n, acc).1 is Err,
    decreases n,
{
    lemma_item_advances(src, cf, st);
    if let (s1, Ok(v)) = item(src, cf, st) {
        if let (s2, Ok(kl)) = read_i32n(src, s1) {
            if let (s3, Ok(key)) = read_n(src, s2, kl as usize) {
                lemma_pairs_need_bytes(src, cf, s3, (n - 1) as nat, acc.insert(key, v));
            }
        }
    }
}

/// More flagged entries than bytes left cannot all be read.
proof fn lemma_flag_pairs_need_bytes(
    src: Src,
    cf: nat,
    st: SState,
    n: nat,
    acc: Map<Seq<u8>, (u8, ValueRef)>,
)
    requires
        n > 0,
        n > src.bytes.len() - st.pos,
    ensures
        read_flag_pairs(src, cf, st, n, acc).1 is Err,
    decreases n,
{
    lemma_item_advances(src, cf, st);
    if let (s1, Ok(v)) = item(src, cf, st) {
        if let (s2, Ok(kf)) = read_u8(src, s1) {
            if let (s3, Ok(kl)) = read_i32n(src, s2) {
                if let (s4, Ok(key)) = read_n(src, s3, kl as usize) {
                    lemma_flag_pairs_need_bytes(src, cf, s4, (n - 1) as nat, acc.insert(key, (kf, v)));
                }
            }
        }
    }
}

/// The native-order count or length in the four bytes at `pos`, as a `usize`
/// (a negative count becomes a huge one).
pub open spec fn count_at(src: Src, pos: int) -> usize {
    i32_ordered(src.little, src.bytes.subrange(pos, pos + 4)) as usize
}

/// An `SX_ARRAY`, `SX_HASH` or `SX_FLAG_HASH` whose count exceeds the bytes
/// left after it is refused: every element reads at least one byte, so such a
/// count can never be met, and decoding fails without building that many.
pub proof fn lemma_container_count_beyond_input_refused(src: Src, st: SState)
    requires
        0 <= st.pos < src.bytes.len(),
        ({
            let tag = src.bytes[st.pos];
            let c = if tag == 0x19 { st.pos + 2 } else { st.pos + 1 };
            &&& tag == 0x02 || tag == 0x03 || tag == 0x19
            &&& c + 4 <= src.bytes.len()
            &&& count_at(src, c) > src.bytes.len() - (c + 4)
        }),
    ensures
        decode_value(src, st).1 is Err,
{
    let tag = src.bytes[st.pos];
    let f = (src.bytes.len() - st.pos + 1) as nat;
    let cf = (f - 1) as nat;
    let s = SState { pos: st.pos + 1, ..st };
    assert(read_u8(src, st) == (s, Ok::<u8, BodyError>(tag)));
    assert(item(src, f, st) == dispatch(src, cf, s, tag));
    if tag == 0x02 {
        let s0 = open_node(s, SpecValue::Array(Seq::empty()));
        let (s1, c) = read_i32n(src, s0);
        assert(s1.pos == s.pos + 4 && c == Ok::<i32, BodyError>(i32_ordered(src.little, src.bytes.subrange(s.pos, s.pos + 4))));
        lemma_items_need_bytes(src, cf, s1, count_at(src, s.pos) as nat, Seq::empty());
    } else if tag == 0x03 {
        let s0 = open_node(s, SpecValue::Hash(Map::empty()));
        let (s1, c) = read_i32n(src, s0);
        assert(s1.pos == s.pos + 4 && c == Ok::<i32, BodyError>(i32_ordered(src.little, src.bytes.subrange(s.pos, s.pos + 4))));
        lemma_pairs_need_bytes(src, cf, s1, count_at(src, s.pos) as nat, Map::empty());
    } else {
        let s0 = open_node(s, SpecValue::FlagHash(0, Map::empty()));
        let (s1, hf) = read_u8(src, s0);
        let (s2, c) = read_i32n(src, s1);
        assert(s2.pos == s.pos + 5 && c == Ok::<i32, BodyError>(i32_ordered(src.little, src.bytes.subrange(s.pos + 1, s.pos + 5))));
        lemma_flag_pairs_need_bytes(src, cf, s2, count_at(src, s.pos + 1) as nat, Map::empty());
    }
}

/// A byte or text scalar (`SX_SCALAR`, `SX_LSCALAR`, `SX_UTF8STR`,
/// `SX_LUTF8STR`) whose length exceeds the bytes left after it is refused as
/// truncated.
pub proof fn lemma_scalar_length_beyond_input_refused(src: Src, st: SState)
    requires
        0 <= st.pos < src.bytes.len(),
        ({
            let tag = src.bytes[st.pos];
            let wide = tag == 0x01 || tag == 0x18;
            &&& tag == 0x0A || tag == 0x01 || tag == 0x17 || tag == 0x18
            &&& if wide {
                st.pos + 5 <= src.bytes.len() && count_at(src, st.pos + 1) > src.bytes.len() - (
                st.pos + 5)
            } else {
                st.pos + 2 <= src.bytes.len() && src.bytes[st.pos + 1] > src.bytes.len() - (st.pos
                    + 2)
            }
        }),
    ensures
        decode_value(src, st) == (
            SState { pos: st.pos + (if src.bytes[st.pos] == 0x01 || src.bytes[st.pos] == 0x18 { 5int } else { 2int }), ..st },
            Err::<ValueRef, BodyError>(BodyError::Truncated),
        ),
{
    let tag = src.bytes[st.pos];
    let f = (src.bytes.len() - st.pos + 1) as nat;
    let s = SState { pos: st.pos + 1, ..st };
    assert(read_u8(src, st) == (s, Ok::<u8, BodyError>(tag)));
    assert(item(src, f, st) == dispatch(src, (f - 1) as nat, s, tag));
}

// ---------------------------------------------------------------------------
// Classes and hooks
// ---------------------------------------------------------------------------

/// `SX_BLESS` blesses the value that follows into the class it names, and
/// registers that class after those registered before, where it stays.
pub proof fn lemma_bless_registers_its_class(src: Src, st: SState)
    requires
        0 <= st.pos,
        st.pos + 2 <= src.bytes.len(),
        src.bytes[st.pos] == 0x11,
        st.pos + 2 + src.bytes[st.pos + 1] <= src.bytes.len(),
        valid_utf8(src.bytes.subrange(st.pos + 2, st.pos + 2 + src.bytes[st.pos + 1])),
    ensures
        decode_value(src, st).1 matches Ok(r) ==> {
            let name = decode_utf8(src.bytes.subrange(st.pos + 2, st.pos + 2 + src.bytes[st.pos + 1]));
            let end = decode_value(src, st).0;
            &&& end.heap[r as int] matches SpecValue::Blessed(_, c) && c == name
            &&& st.classes.len() < end.classes.len()
            &&& end.classes[st.classes.len() as int] == name
            &&& extends(st.classes, end.classes)
        },
{
    let f = (src.bytes.len() - st.pos + 1) as nat;
    let cf = (f - 1) as nat;
    let s = SState { pos: st.pos + 1, ..st };
    assert(read_u8(src, st) == (s, Ok::<u8, BodyError>(0x11u8)));
    assert(item(src, f, st) == dispatch(src, cf, s, 0x11u8));
    let n = src.bytes[st.pos + 1];
    let s1 = SState { pos: st.pos + 2, ..st };
    let name_bytes = src.bytes.subrange(st.pos + 2, st.pos + 2 + n);
    let s2 = SState { pos: st.pos + 2 + n, ..st };
    assert(read_u8(src, s) == (s1, Ok::<u8, BodyError>(n)));
    assert(read_n(src, s1, n as usize) == (s2, Ok::<Seq<u8>, BodyError>(name_bytes)));
    let name = decode_utf8(name_bytes);
    let s3 = SState { classes: s2.classes.push(name), ..s2 };
    assert(sx_bless(src, cf, s) == wrapped(src, cf, s3, WrapKind::Blessed(name)));
    lemma_item_advances(src, cf, open_node(s3, SpecValue::Undef));
}

/// `SX_IX_BLESS` with an index below the number of registered classes blesses
/// the value that follows into the class registered under that index.
pub proof fn lemma_ix_bless_uses_registered_class(src: Src, st: SState)
    requires
        0 <= st.pos,
        st.pos + 2 <= src.bytes.len(),
        src.bytes[st.pos] == 0x12,
        (src.bytes[st.pos + 1] as int) < st.classes.len(),
    ensures
        decode_value(src, st).1 matches Ok(r) ==> decode_value(src, st).0.heap[r as int] matches SpecValue::Blessed(_, c)
            && c == st.classes[src.bytes[st.pos + 1] as int],
{
    let f = (src.bytes.len() - st.pos + 1) as nat;
    let cf = (f - 1) as nat;
    let s = SState { pos: st.pos + 1, ..st };
    assert(read_u8(src, st) == (s, Ok::<u8, BodyError>(0x12u8)));
    assert(item(src, f, st) == dispatch(src, cf, s, 0x12u8));
    let i = src.bytes[st.pos + 1];
    let s1 = SState { pos: st.pos + 2, ..st };
    assert(read_u8(src, s) == (s1, Ok::<u8, BodyError>(i)));
    assert(sx_ix_bless(src, cf, s) == wrapped(src, cf, s1, WrapKind::Blessed(st.classes[i as int])));
    lemma_item_advances(src, cf, open_node(s1, SpecValue::Undef));
}

/// An `SX_HOOK` whose flags ask for no recursion yields a hook object whose
/// type is the low two bits of its flags byte (0 scalar, 1 array, 2 hash,
/// 3 other), with no recursed values.
pub proof fn lemma_hook_type_from_flags(src: Src, st: SState)
    requires
        0 <= st.pos,
        st.pos + 2 <= src.bytes.len(),
        src.bytes[st.pos] == 0x13,
        src.bytes[st.pos + 1] & 0x40 == 0,
    ensures
        decode_value(src, st).1 matches Ok(r) ==> decode_value(src, st).0.heap[r as int] matches SpecValue::Hook(
            _,
            t,
            _,
            _,
            rec,
        ) && t == src.bytes[st.pos + 1] & 0x03 && rec.len() == 0,
{
    let f = (src.bytes.len() - st.pos + 1) as nat;
    let cf = (f - 1) as nat;
    let s = SState { pos: st.pos + 1, ..st };
    assert(read_u8(src, st) == (s, Ok::<u8, BodyError>(0x13u8)));
    assert(item(src, f, st) == dispatch(src, cf, s, 0x13u8));
    let flags = src.bytes[st.pos + 1];
    let s0 = open_node(s, SpecValue::Hook(Seq::empty(), 0, Seq::empty(), Seq::empty(), Seq::empty()));
    let s1 = SState { pos: st.pos + 2, ..s0 };
    assert(read_u8(src, s0) == (s1, Ok::<u8, BodyError>(flags)));
    assert(read_recurse(src, cf, s1, src.bytes.len(), flags, Seq::empty()) == (
        s1,
        Ok::<(Seq<ValueRef>, u8), BodyError>((Seq::empty(), flags)),
    ));
    let p = fresh(s);
    assert(sx_hook(src, cf, s) == hook_rest(src, s1, p, flags, Seq::empty()));
    if let (h1, Ok(_)) = hook_class(src, s1, flags) {
        if let (h2, Ok(n)) = read_len(src, h1, shf_large_strlen(flags)) {
            if let (h3, Ok(_)) = read_n(src, h2, n) {
                if shf_has_list(flags) {
                    if let (h4, Ok(c)) = read_len(src, h3, shf_large_listlen(flags)) {
                        lemma_refs_advance(src, h4, c as nat, Seq::empty());
                    }
                }
            }
        }
    }
}

} // verus!
