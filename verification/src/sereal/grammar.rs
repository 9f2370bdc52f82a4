//! What decoding a Sereal body yields, stated over the bytes and the decoder's
//! state.
use vstd::prelude::*;
use vstd::utf8::{decode_utf8, encode_utf8, valid_utf8};
use crate::float_bits::f32_to_f64_bits;
use crate::sereal::{take_byte, take_bytes, take_varint, varint_from, varint_group, SerealError};
use crate::shared_model::{SpecValue, ValueRef};
use crate::text::utf8_lossy;

verus! {

/// The deepest nesting a document may have.
pub const MAX_DEPTH: usize = 100;

/// The decoder's state: the read position, the heap of values, and the values
/// and class names tracked by offset.
#[verifier::ext_equal]
pub struct SerState {
    pub pos: int,
    pub heap: Seq<SpecValue>,
    pub offsets: Map<usize, ValueRef>,
    pub classes: Map<usize, Seq<char>>,
}

/// The state after a step, and its outcome.
pub type SStep<T> = (SerState, Result<T, SerealError>);

/// A failed step.
pub open spec fn fail<T>(st: SerState, e: SerealError) -> SStep<T> {
    (st, Err(e))
}

/// A step that only moves the read position.
pub open spec fn lift<T>(st: SerState, r: (int, Result<T, SerealError>)) -> SStep<T> {
    (SerState { pos: r.0, ..st }, r.1)
}

pub open spec fn read_u8(b: Seq<u8>, st: SerState) -> SStep<u8> {
    lift(st, take_byte(b, st.pos))
}

pub open spec fn read_n(b: Seq<u8>, st: SerState, n: usize) -> SStep<Seq<u8>> {
    lift(st, take_bytes(b, st.pos, n as int))
}

pub open spec fn read_var(b: Seq<u8>, st: SerState) -> SStep<u64> {
    lift(st, take_varint(b, st.pos))
}

/// The reference the next new node gets.
pub open spec fn fresh(st: SerState) -> ValueRef {
    st.heap.len() as ValueRef
}

/// Adds a node to the heap.
pub open spec fn put(st: SerState, v: SpecValue) -> SerState {
    SerState { heap: st.heap.push(v), ..st }
}

/// Replaces node `r`.
pub open spec fn fill(st: SerState, r: ValueRef, v: SpecValue) -> SerState {
    SerState { heap: st.heap.update(r as int, v), ..st }
}

/// Tracks value `r` at offset `off`.
pub open spec fn track(st: SerState, off: usize, r: ValueRef) -> SerState {
    SerState { offsets: st.offsets.insert(off, r), ..st }
}

/// A new value.
pub open spec fn plain(st: SerState, v: SpecValue) -> SStep<ValueRef> {
    (put(st, v), Ok(fresh(st)))
}

/// The outcome of a step whose value is tracked at `off` when `is_tracked` holds.
pub open spec fn with_tracking(step: SStep<ValueRef>, is_tracked: bool, off: usize) -> SStep<ValueRef> {
    match step {
        (s, Ok(v)) => (if is_tracked { track(s, off, v) } else { s }, Ok(v)),
        (s, Err(e)) => fail(s, e),
    }
}

/// The number of bytes after the read position.
pub open spec fn remaining_of(b: Seq<u8>, st: SerState) -> usize {
    (if st.pos <= b.len() { b.len() - st.pos } else { 0 }) as usize
}

/// The signed integer that a zigzag encoding `z` stands for: even numbers are
/// the non-negative integers, odd numbers the negative ones.
pub open spec fn zigzag(z: u64) -> i64 {
    if z % 2 == 0 {
        (z / 2) as i64
    } else {
        (-((z / 2) as int) - 1) as i64
    }
}

/// The unsigned value of four little-endian bytes.
pub open spec fn u32_le(b: Seq<u8>) -> u32 {
    (b[0] + 0x100 * b[1] + 0x1_0000 * b[2] + 0x100_0000 * b[3]) as u32
}

/// The unsigned value of eight little-endian bytes.
pub open spec fn u64_le(b: Seq<u8>) -> u64 {
    (b[0] + 0x100 * b[1] + 0x1_0000 * b[2] + 0x100_0000 * b[3] + 0x1_0000_0000 * b[4]
        + 0x100_0000_0000 * b[5] + 0x1_0000_0000_0000 * b[6] + 0x100_0000_0000_0000 * b[7]) as u64
}

/// The text of a string-like value, used for class names and regular
/// expression flags; bytes are decoded leniently.
pub open spec fn text_of(v: SpecValue) -> Result<Seq<char>, SerealError> {
    match v {
        SpecValue::Bytes(b) => Ok(utf8_lossy(b)),
        SpecValue::Str(s) => Ok(s),
        _ => Err(SerealError::UnexpectedValueType { expected: "string-like", context: "class name" }),
    }
}

/// The bytes of a string-like value used as a hash key.
pub open spec fn key_of(v: SpecValue) -> Result<Seq<u8>, SerealError> {
    match v {
        SpecValue::Bytes(b) => Ok(b),
        SpecValue::Str(s) => Ok(encode_utf8(s)),
        _ => Err(SerealError::UnexpectedValueType { expected: "string-like", context: "hash key" }),
    }
}

// ---------------------------------------------------------------------------
// Tags without children
// ---------------------------------------------------------------------------

/// `VARINT`: a non-negative integer; values above `i64::MAX` stay unsigned.
pub open spec fn sr_varint(b: Seq<u8>, st: SerState) -> SStep<ValueRef> {
    match read_var(b, st) {
        (s, Ok(n)) => if n > i64::MAX {
            plain(s, SpecValue::UnsignedInteger(n))
        } else {
            plain(s, SpecValue::Integer(n as i64))
        },
        (s, Err(e)) => fail(s, e),
    }
}

/// `ZIGZAG`: a signed integer in zigzag encoding.
pub open spec fn sr_zigzag(b: Seq<u8>, st: SerState) -> SStep<ValueRef> {
    match read_var(b, st) {
        (s, Ok(z)) => plain(s, SpecValue::Integer(zigzag(z))),
        (s, Err(e)) => fail(s, e),
    }
}

/// `BINARY`: a varint length and the bytes.
pub open spec fn sr_binary(b: Seq<u8>, st: SerState) -> SStep<ValueRef> {
    match read_var(b, st) {
        (s, Ok(n)) => match read_n(b, s, n as usize) {
            (s2, Ok(x)) => plain(s2, SpecValue::Bytes(x)),
            (s2, Err(e)) => fail(s2, e),
        },
        (s, Err(e)) => fail(s, e),
    }
}

/// `STR_UTF8`: a varint length and UTF-8 text.
pub open spec fn sr_str(b: Seq<u8>, st: SerState) -> SStep<ValueRef> {
    match read_var(b, st) {
        (s, Ok(n)) => match read_n(b, s, n as usize) {
            (s2, Ok(x)) => if valid_utf8(x) {
                plain(s2, SpecValue::Str(decode_utf8(x)))
            } else {
                fail(s2, SerealError::InvalidUtf8)
            },
            (s2, Err(e)) => fail(s2, e),
        },
        (s, Err(e)) => fail(s, e),
    }
}

/// `SHORT_BINARY_n`: `n` bytes, the length taken from the tag.
pub open spec fn sr_short_binary(b: Seq<u8>, st: SerState, tag: u8) -> SStep<ValueRef> {
    match read_n(b, st, (tag & 0x1F) as usize) {
        (s, Ok(x)) => plain(s, SpecValue::Bytes(x)),
        (s, Err(e)) => fail(s, e),
    }
}

/// `REFP`: a new reference to the value tracked at a varint offset.
pub open spec fn sr_refp(b: Seq<u8>, st: SerState) -> SStep<ValueRef> {
    match read_var(b, st) {
        (s, Ok(o)) => {
            let off = o as usize;
            if s.offsets.contains_key(off) {
                plain(s, SpecValue::Ref(s.offsets[off]))
            } else {
                fail(s, SerealError::OffsetNotFound(off))
            }
        },
        (s, Err(e)) => fail(s, e),
    }
}

/// `ALIAS`: the value tracked at a varint offset itself.
pub open spec fn sr_alias(b: Seq<u8>, st: SerState) -> SStep<ValueRef> {
    match read_var(b, st) {
        (s, Ok(o)) => {
            let off = o as usize;
            if s.offsets.contains_key(off) {
                (s, Ok(s.offsets[off]))
            } else {
                fail(s, SerealError::OffsetNotFound(off))
            }
        },
        (s, Err(e)) => fail(s, e),
    }
}

/// `FLOAT`: a little-endian binary32, widened.
pub open spec fn sr_float(b: Seq<u8>, st: SerState) -> SStep<ValueRef> {
    match read_n(b, st, 4) {
        (s, Ok(x)) => plain(s, SpecValue::Double(f32_to_f64_bits(u32_le(x)))),
        (s, Err(e)) => fail(s, e),
    }
}

/// `DOUBLE`: a little-endian binary64.
pub open spec fn sr_double(b: Seq<u8>, st: SerState) -> SStep<ValueRef> {
    match read_n(b, st, 8) {
        (s, Ok(x)) => plain(s, SpecValue::Double(u64_le(x))),
        (s, Err(e)) => fail(s, e),
    }
}

// ---------------------------------------------------------------------------
// Tags with children
// ---------------------------------------------------------------------------

/// Decoding one value with `k` more levels of nesting allowed (`k` is
/// `MAX_DEPTH` minus the depth): the tag byte, whose high bit asks for the
/// value to be tracked at the offset after the tag, then what the tag calls
/// for.
pub open spec fn item(b: Seq<u8>, st: SerState, k: int) -> SStep<ValueRef>
    decreases k + 1, 3nat,
{
    if k < 0 {
        fail(st, SerealError::MaxDepthExceeded)
    } else {
        match read_u8(b, st) {
            (s, Ok(t)) => dispatch(b, s, k as nat, t & 0x7F, t & 0x80 != 0),
            (s, Err(e)) => fail(s, e),
        }
    }
}

/// What the masked tag calls for; containers track themselves before their
/// children, other values are tracked once decoded, padding is skipped.
pub open spec fn dispatch(b: Seq<u8>, st: SerState, k: nat, tag: u8, is_tracked: bool) -> SStep<ValueRef>
    decreases k + 1, 2nat,
{
    let off = st.pos as usize;
    if tag == 0x2B {
        sr_array(b, st, k, is_tracked, off)
    } else if 0x40 <= tag <= 0x4F {
        sr_arrayref(b, st, k, tag, is_tracked, off)
    } else if tag == 0x2A {
        sr_hash(b, st, k, is_tracked, off)
    } else if 0x50 <= tag <= 0x5F {
        sr_hashref(b, st, k, tag, is_tracked, off)
    } else if tag == 0x3F {
        item(b, st, k - 1)
    } else {
        with_tracking(value_of_tag(b, st, k, tag), is_tracked, off)
    }
}

/// The value of a tag that is not a container and not padding.
pub open spec fn value_of_tag(b: Seq<u8>, st: SerState, k: nat, tag: u8) -> SStep<ValueRef>
    decreases k + 1, 1nat,
{
    if tag <= 0x0F {
        plain(st, SpecValue::Integer(tag as i64))
    } else if tag <= 0x1F {
        plain(st, SpecValue::Integer((tag - 32) as i64))
    } else if tag == 0x25 || tag == 0x39 {
        plain(st, SpecValue::Undef)
    } else if tag == 0x3A || tag == 0x34 {
        plain(st, SpecValue::No)
    } else if tag == 0x3B || tag == 0x35 {
        plain(st, SpecValue::Yes)
    } else if tag == 0x21 {
        sr_zigzag(b, st)
    } else if tag == 0x26 {
        sr_binary(b, st)
    } else if tag == 0x27 {
        sr_str(b, st)
    } else if 0x60 <= tag <= 0x7F {
        sr_short_binary(b, st, tag)
    } else if tag == 0x28 {
        sr_refn(b, st, k)
    } else if tag == 0x29 {
        sr_refp(b, st)
    } else if tag == 0x2E {
        sr_alias(b, st)
    } else if tag == 0x30 {
        sr_weaken(b, st, k)
    } else if tag == 0x2F {
        sr_copy(b, st, k)
    } else if tag == 0x2C {
        sr_object(b, st, k)
    } else if tag == 0x2D {
        sr_objectv(b, st, k)
    } else if tag == 0x32 {
        sr_object_freeze(b, st, k)
    } else if tag == 0x33 {
        sr_objectv_freeze(b, st, k)
    } else if tag == 0x31 {
        sr_regexp(b, st, k)
    } else if tag == 0x22 {
        sr_float(b, st)
    } else if tag == 0x23 {
        sr_double(b, st)
    } else if tag == 0x24 {
        fail(st, SerealError::UnsupportedTag("LONG_DOUBLE"))
    } else if tag == 0x3E {
        fail(st, SerealError::UnsupportedTag("EXTEND"))
    } else if tag == 0x3C {
        fail(st, SerealError::UnsupportedTag("MANY"))
    } else if tag == 0x36 || tag == 0x37 {
        fail(st, SerealError::UnsupportedTag("RESERVED"))
    } else if tag == 0x38 {
        fail(st, SerealError::UnsupportedTag("FLOAT_128"))
    } else if tag == 0x3D {
        fail(st, SerealError::UnexpectedPacketStart)
    } else if tag == 0x20 {
        sr_varint(b, st)
    } else {
        fail(st, SerealError::UnknownTag(tag))
    }
}

/// `REFN`: a new reference to the next value.
pub open spec fn sr_refn(b: Seq<u8>, st: SerState, k: nat) -> SStep<ValueRef>
    decreases k + 1, 0nat,
{
    match item(b, st, k - 1) {
        (s, Ok(inner)) => plain(s, SpecValue::Ref(inner)),
        (s, Err(e)) => fail(s, e),
    }
}

/// `WEAKEN`: the next value must be a reference; the result is a weak
/// reference to the same target.
pub open spec fn sr_weaken(b: Seq<u8>, st: SerState, k: nat) -> SStep<ValueRef>
    decreases k + 1, 0nat,
{
    match item(b, st, k - 1) {
        (s, Ok(inner)) => match s.heap[inner as int] {
            SpecValue::Ref(strong) => plain(s, SpecValue::WeakRef(strong)),
            _ => fail(s, SerealError::UnexpectedValueType { expected: "Ref", context: "WEAKEN target" }),
        },
        (s, Err(e)) => fail(s, e),
    }
}

/// The position of the tag that a `COPY` offset names: offsets count one past
/// the tag, and offset 0 names the start of the body.
pub open spec fn copy_target(off: usize) -> int {
    if off == 0 { 0 } else { off - 1 }
}

/// `COPY`: the value encoded at an earlier offset, decoded again; reading then
/// resumes after the offset.  A copy that names itself nests until the depth
/// limit refuses it.
pub open spec fn sr_copy(b: Seq<u8>, st: SerState, k: nat) -> SStep<ValueRef>
    decreases k + 1, 0nat,
{
    match read_var(b, st) {
        (s, Ok(o)) => {
            let off = o as usize;
            match item(b, SerState { pos: copy_target(off), ..s }, k - 1) {
                (s2, Ok(v)) => (SerState { pos: s.pos, ..s2 }, Ok(v)),
                (s2, Err(e)) => fail(s2, e),
            }
        },
        (s, Err(e)) => fail(s, e),
    }
}

/// `OBJECT`: a class name, tracked at the offset after its own tag, then the
/// blessed value.
pub open spec fn sr_object(b: Seq<u8>, st: SerState, k: nat) -> SStep<ValueRef>
    decreases k + 1, 0nat,
{
    let class_off = (st.pos + 1) as usize;
    match item(b, st, k - 1) {
        (s1, Ok(cv)) => match text_of(s1.heap[cv as int]) {
            Ok(class) => match item(b, SerState { classes: s1.classes.insert(class_off, class), ..s1 }, k - 1) {
                (s2, Ok(inner)) => plain(s2, SpecValue::Blessed(inner, class)),
                (s2, Err(e)) => fail(s2, e),
            },
            Err(e) => fail(s1, e),
        },
        (s1, Err(e)) => fail(s1, e),
    }
}

/// `OBJECTV`: a class name tracked at a varint offset, then the blessed value.
pub open spec fn sr_objectv(b: Seq<u8>, st: SerState, k: nat) -> SStep<ValueRef>
    decreases k + 1, 0nat,
{
    match read_var(b, st) {
        (s1, Ok(o)) => {
            let off = o as usize;
            if s1.classes.contains_key(off) {
                match item(b, s1, k - 1) {
                    (s2, Ok(inner)) => plain(s2, SpecValue::Blessed(inner, s1.classes[off])),
                    (s2, Err(e)) => fail(s2, e),
                }
            } else {
                fail(s1, SerealError::ClassOffsetNotFound(off))
            }
        },
        (s1, Err(e)) => fail(s1, e),
    }
}

/// `OBJECT_FREEZE`: like `OBJECT`, but the class name is not tracked.
pub open spec fn sr_object_freeze(b: Seq<u8>, st: SerState, k: nat) -> SStep<ValueRef>
    decreases k + 1, 0nat,
{
    match item(b, st, k - 1) {
        (s1, Ok(cv)) => match text_of(s1.heap[cv as int]) {
            Ok(class) => match item(b, s1, k - 1) {
                (s2, Ok(inner)) => plain(s2, SpecValue::Blessed(inner, class)),
                (s2, Err(e)) => fail(s2, e),
            },
            Err(e) => fail(s1, e),
        },
        (s1, Err(e)) => fail(s1, e),
    }
}

/// `OBJECTV_FREEZE`: the class name is the value tracked at a varint offset.
pub open spec fn sr_objectv_freeze(b: Seq<u8>, st: SerState, k: nat) -> SStep<ValueRef>
    decreases k + 1, 0nat,
{
    match read_var(b, st) {
        (s1, Ok(o)) => {
            let off = o as usize;
            if s1.offsets.contains_key(off) {
                match text_of(s1.heap[s1.offsets[off] as int]) {
                    Ok(class) => match item(b, s1, k - 1) {
                        (s2, Ok(inner)) => plain(s2, SpecValue::Blessed(inner, class)),
                        (s2, Err(e)) => fail(s2, e),
                    },
                    Err(e) => fail(s1, e),
                }
            } else {
                fail(s1, SerealError::OffsetNotFound(off))
            }
        },
        (s1, Err(e)) => fail(s1, e),
    }
}

/// `REGEXP`: the pattern, then the modifiers as text.
pub open spec fn sr_regexp(b: Seq<u8>, st: SerState, k: nat) -> SStep<ValueRef>
    decreases k + 1, 0nat,
{
    match item(b, st, k - 1) {
        (s1, Ok(pattern)) => match item(b, s1, k - 1) {
            (s2, Ok(fv)) => match text_of(s2.heap[fv as int]) {
                Ok(flags) => plain(s2, SpecValue::Regexp(pattern, flags)),
                Err(e) => fail(s2, e),
            },
            (s2, Err(e)) => fail(s2, e),
        },
        (s1, Err(e)) => fail(s1, e),
    }
}

/// Decoding `n` more array elements after those in `acc`.
pub open spec fn sr_items(b: Seq<u8>, st: SerState, k: nat, n: nat, acc: Seq<ValueRef>) -> SStep<Seq<ValueRef>>
    decreases k, n + 4,
{
    if n == 0 {
        (st, Ok(acc))
    } else {
        match item(b, st, k - 1) {
            (s1, Ok(v)) => sr_items(b, s1, k, (n - 1) as nat, acc.push(v)),
            (s1, Err(e)) => fail(s1, e),
        }
    }
}

/// An array of `count` elements: the array is added, and tracked at `off`
/// when asked, before its elements.
pub open spec fn sr_array_body(
    b: Seq<u8>,
    st: SerState,
    k: nat,
    count: usize,
    is_tracked: bool,
    off: usize,
) -> SStep<ValueRef>
    decreases k + 1, 0nat,
{
    let p = fresh(st);
    let s1 = put(st, SpecValue::Array(Seq::empty()));
    match sr_items(b, if is_tracked { track(s1, off, p) } else { s1 }, k, count as nat, Seq::empty()) {
        (s2, Ok(items)) => (fill(s2, p, SpecValue::Array(items)), Ok(p)),
        (s2, Err(e)) => fail(s2, e),
    }
}

/// `ARRAY`: a varint count, refused when it exceeds the bytes left, then the
/// elements.
pub open spec fn sr_array(b: Seq<u8>, st: SerState, k: nat, is_tracked: bool, off: usize) -> SStep<ValueRef>
    decreases k + 1, 1nat,
{
    match read_var(b, st) {
        (s1, Ok(c)) => {
            let count = c as usize;
            let rem = remaining_of(b, s1);
            if count > rem {
                fail(s1, SerealError::CountExceedsInput { count, remaining: rem })
            } else {
                sr_array_body(b, s1, k, count, is_tracked, off)
            }
        },
        (s1, Err(e)) => fail(s1, e),
    }
}

/// `ARRAYREF_n`: an array of `n` elements, the count taken from the tag, and
/// a new reference to it; the array, not the reference, is tracked.
pub open spec fn sr_arrayref(b: Seq<u8>, st: SerState, k: nat, tag: u8, is_tracked: bool, off: usize) -> SStep<ValueRef>
    decreases k + 1, 1nat,
{
    match sr_array_body(b, st, k, (tag & 0x0F) as usize, is_tracked, off) {
        (s1, Ok(p)) => plain(s1, SpecValue::Ref(p)),
        (s1, Err(e)) => fail(s1, e),
    }
}

/// Decoding `n` more hash entries: a string-like key, then the value; a later
/// entry for a key replaces an earlier one.
pub open spec fn sr_pairs(
    b: Seq<u8>,
    st: SerState,
    k: nat,
    n: nat,
    acc: Map<Seq<u8>, ValueRef>,
) -> SStep<Map<Seq<u8>, ValueRef>>
    decreases k, n + 4,
{
    if n == 0 {
        (st, Ok(acc))
    } else {
        match item(b, st, k - 1) {
            (s1, Ok(kv)) => match key_of(s1.heap[kv as int]) {
                Ok(key) => match item(b, s1, k - 1) {
                    (s2, Ok(v)) => sr_pairs(b, s2, k, (n - 1) as nat, acc.insert(key, v)),
                    (s2, Err(e)) => fail(s2, e),
                },
                Err(e) => fail(s1, e),
            },
            (s1, Err(e)) => fail(s1, e),
        }
    }
}

/// A hash of `count` entries: the hash is added, and tracked at `off` when
/// asked, before its entries.
pub open spec fn sr_hash_body(
    b: Seq<u8>,
    st: SerState,
    k: nat,
    count: usize,
    is_tracked: bool,
    off: usize,
) -> SStep<ValueRef>
    decreases k + 1, 0nat,
{
    let p = fresh(st);
    let s1 = put(st, SpecValue::Hash(Map::empty()));
    match sr_pairs(b, if is_tracked { track(s1, off, p) } else { s1 }, k, count as nat, Map::empty()) {
        (s2, Ok(m)) => (fill(s2, p, SpecValue::Hash(m)), Ok(p)),
        (s2, Err(e)) => fail(s2, e),
    }
}

/// `HASH`: a varint count, refused when twice it exceeds the bytes left, then
/// the entries.
pub open spec fn sr_hash(b: Seq<u8>, st: SerState, k: nat, is_tracked: bool, off: usize) -> SStep<ValueRef>
    decreases k + 1, 1nat,
{
    match read_var(b, st) {
        (s1, Ok(c)) => {
            let count = c as usize;
            let rem = remaining_of(b, s1);
            if count * 2 > rem {
                fail(s1, SerealError::CountExceedsInput { count, remaining: rem })
            } else {
                sr_hash_body(b, s1, k, count, is_tracked, off)
            }
        },
        (s1, Err(e)) => fail(s1, e),
    }
}

/// `HASHREF_n`: a hash of `n` entries, the count taken from the tag, and a new
/// reference to it; the hash, not the reference, is tracked.
pub open spec fn sr_hashref(b: Seq<u8>, st: SerState, k: nat, tag: u8, is_tracked: bool, off: usize) -> SStep<ValueRef>
    decreases k + 1, 1nat,
{
    match sr_hash_body(b, st, k, (tag & 0x0F) as usize, is_tracked, off) {
        (s1, Ok(p)) => plain(s1, SpecValue::Ref(p)),
        (s1, Err(e)) => fail(s1, e),
    }
}

/// Decoding one value at depth `depth`.
pub open spec fn decode_value(b: Seq<u8>, st: SerState, depth: int) -> SStep<ValueRef> {
    item(b, st, MAX_DEPTH - depth)
}

// ---------------------------------------------------------------------------
// Laws
// ---------------------------------------------------------------------------

/// Tags that make a container or are padding; a tracked container is
/// registered before its children rather than after.
pub open spec fn is_container_or_pad(tag: u8) -> bool {
    tag == 0x2B || tag == 0x2A || (0x40 <= tag <= 0x5F) || tag == 0x3F
}

/// A value whose tag byte has the high bit set is tracked at the offset just
/// past its tag: once a tracked scalar, reference or object at `st.pos` is
/// decoded, the offset table maps `st.pos + 1` to it.
pub proof fn lemma_tracked_at_tag_plus_one(b: Seq<u8>, st: SerState, depth: int)
    requires
        0 <= depth <= MAX_DEPTH,
        0 <= st.pos < b.len(),
        b[st.pos] & 0x80 != 0,
        !is_container_or_pad(b[st.pos] & 0x7F),
        decode_value(b, st, depth).1 is Ok,
    ensures
        decode_value(b, st, depth).0.offsets.contains_key((st.pos + 1) as usize),
        decode_value(b, st, depth).0.offsets[(st.pos + 1) as usize] == decode_value(b, st, depth).1->Ok_0,
{
    let k = MAX_DEPTH - depth;
    let t = b[st.pos];
    let s = SerState { pos: st.pos + 1, ..st };
    assert(read_u8(b, st) == (s, Ok::<u8, SerealError>(t)));
    assert(item(b, st, k) == dispatch(b, s, k as nat, t & 0x7F, t & 0x80 != 0));
}

/// A chain of `REFN` tags longer than the nesting that is left fails with
/// `MaxDepthExceeded`: deep nesting is refused, never followed without bound.
pub proof fn lemma_refn_chain_refused(b: Seq<u8>, st: SerState, k: int)
    requires
        k >= -1,
        0 <= st.pos,
        st.pos + k < b.len(),
        forall|i: int| 0 <= i <= k ==> #[trigger] b[st.pos + i] == 0x28,
    ensures
        item(b, st, k).1 == Err::<ValueRef, SerealError>(SerealError::MaxDepthExceeded),
    decreases k + 1,
{
    if k >= 0 {
        let s = SerState { pos: st.pos + 1, ..st };
        assert(b[st.pos + 0] == 0x28);
        assert(read_u8(b, st) == (s, Ok::<u8, SerealError>(0x28u8)));
        assert(0x28u8 & 0x7Fu8 == 0x28u8 && 0x28u8 & 0x80u8 == 0u8) by (bit_vector);
        assert forall|i: int| 0 <= i <= k - 1 implies #[trigger] b[s.pos + i] == 0x28 by {
            assert(b[st.pos + (i + 1)] == 0x28);
        }
        lemma_refn_chain_refused(b, s, k - 1);
        assert(item(b, st, k) == dispatch(b, s, k as nat, 0x28u8, false));
        assert(dispatch(b, s, k as nat, 0x28u8, false) == with_tracking(
            value_of_tag(b, s, k as nat, 0x28u8),
            false,
            s.pos as usize,
        ));
        assert(value_of_tag(b, s, k as nat, 0x28u8) == sr_refn(b, s, k as nat));
    }
}

/// Decoding at depth `depth` from a run of more than `MAX_DEPTH - depth`
/// `REFN` tags fails with `MaxDepthExceeded`.
pub proof fn lemma_deep_refn_refused(b: Seq<u8>, st: SerState, depth: int)
    requires
        0 <= depth,
        0 <= st.pos,
        st.pos + MAX_DEPTH - depth < b.len(),
        forall|i: int| 0 <= i <= MAX_DEPTH - depth ==> #[trigger] b[st.pos + i] == 0x28,
    ensures
        decode_value(b, st, depth).1 == Err::<ValueRef, SerealError>(SerealError::MaxDepthExceeded),
{
    if MAX_DEPTH - depth >= -1 {
        lemma_refn_chain_refused(b, st, MAX_DEPTH - depth);
    }
}

/// `ALIAS` gives the very value tracked at its offset, adding no node, and
/// `REFP` a new reference to it; either way nothing else changes but the read
/// position.
pub proof fn lemma_alias_and_refp_share(b: Seq<u8>, st: SerState, depth: int)
    requires
        0 <= depth <= MAX_DEPTH,
        0 <= st.pos < b.len(),
        b[st.pos] == 0x2E || b[st.pos] == 0x29,
        take_varint(b, st.pos + 1).1 is Ok,
        st.offsets.contains_key(take_varint(b, st.pos + 1).1->Ok_0 as usize),
    ensures
        ({
            let (p, o) = take_varint(b, st.pos + 1);
            let target = st.offsets[o->Ok_0 as usize];
            if b[st.pos] == 0x2E {
                decode_value(b, st, depth) == (SerState { pos: p, ..st }, Ok::<ValueRef, SerealError>(target))
            } else {
                decode_value(b, st, depth) == (
                    SerState { pos: p, heap: st.heap.push(SpecValue::Ref(target)), ..st },
                    Ok::<ValueRef, SerealError>(st.heap.len() as ValueRef),
                )
            }
        }),
{
    let k = MAX_DEPTH - depth;
    let t = b[st.pos];
    let s = SerState { pos: st.pos + 1, ..st };
    assert(0x2Eu8 & 0x7Fu8 == 0x2Eu8 && 0x2Eu8 & 0x80u8 == 0u8) by (bit_vector);
    assert(0x29u8 & 0x7Fu8 == 0x29u8 && 0x29u8 & 0x80u8 == 0u8) by (bit_vector);
    assert(read_u8(b, st) == (s, Ok::<u8, SerealError>(t)));
    assert(item(b, st, k) == dispatch(b, s, k as nat, t, false));
    assert(dispatch(b, s, k as nat, t, false) == with_tracking(value_of_tag(b, s, k as nat, t), false, s.pos as usize));
}

/// Zigzag decoding is one to one, and gives every `i64`: even codes are the
/// non-negative integers, odd codes the negative ones.
pub proof fn lemma_zigzag_bijective(z1: u64, z2: u64, n: i64)
    ensures
        zigzag(z1) == zigzag(z2) ==> z1 == z2,
        (z1 % 2 == 0) <==> zigzag(z1) >= 0,
        exists|z: u64| zigzag(z) == n,
{
    if n >= 0 {
        assert(zigzag((2 * n) as u64) == n);
    } else {
        assert(zigzag((-2 * n - 1) as u64) == n);
    }
}

// ---------------------------------------------------------------------------
// What decoding leaves alone
// ---------------------------------------------------------------------------

/// No byte of `b` is a `COPY` tag, tracked or not.
pub open spec fn no_copy(b: Seq<u8>) -> bool {
    forall|i: int| 0 <= i < b.len() ==> #[trigger] b[i] != 0x2F && b[i] != 0xAF
}

/// A successful step did not move the read position back, and left every
/// offset below `bound` as it was.
pub open spec fn kept_below<T>(st: SerState, step: SStep<T>, bound: int) -> bool {
    step.1 is Ok ==> {
        &&& st.pos <= step.0.pos
        &&& forall|o: usize|
            (o as int) < bound ==> (#[trigger] step.0.offsets.contains_key(o) == st.offsets.contains_key(o)
                && (st.offsets.contains_key(o) ==> step.0.offsets[o] == st.offsets[o]))
    }
}

/// A varint that was read ends past where it started.
proof fn lemma_varint_forward(bytes: Seq<u8>, pos: int, i: nat, acc: u64)
    ensures
        varint_from(bytes, pos, i, acc).1 is Ok ==> varint_from(bytes, pos, i, acc).0 > pos + i,
    decreases 10 - i,
{
    let p = pos + i;
    if 0 <= p < bytes.len() && i < 10 && bytes[p] & 0x80 != 0 {
        lemma_varint_forward(bytes, pos, i + 1, acc | varint_group(bytes[p], i));
    }
}

proof fn lemma_read_var_forward(b: Seq<u8>, st: SerState)
    ensures
        read_var(b, st).1 is Ok ==> read_var(b, st).0.pos > st.pos,
        read_var(b, st).0.offsets == st.offsets,
{
    lemma_varint_forward(b, st.pos, 0, 0);
}

/// Without `COPY`, decoding a value at `st.pos` registers offsets only past
/// its tag, so every offset up to `st.pos` stays as it was.
proof fn lemma_item_keeps(b: Seq<u8>, st: SerState, k: int, bound: int)
    requires
        no_copy(b),
        b.len() <= usize::MAX,
        bound <= st.pos + 1,
    ensures
        kept_below(st, item(b, st, k), bound),
    decreases k + 1, 3nat,
{
    if k >= 0 {
        if let (s, Ok(t)) = read_u8(b, st) {
            assert(t != 0x2F && t != 0xAF);
            assert(t & 0x7F != 0x2F) by (bit_vector)
                requires
                    t != 0x2F && t != 0xAF,
            ;
            lemma_dispatch_keeps(b, s, k as nat, t & 0x7F, t & 0x80 != 0, bound);
        }
    }
}

proof fn lemma_dispatch_keeps(b: Seq<u8>, st: SerState, k: nat, tag: u8, tr: bool, bound: int)
    requires
        no_copy(b),
        b.len() <= usize::MAX,
        1 <= st.pos <= b.len(),
        bound <= st.pos,
        tag != 0x2F,
    ensures
        kept_below(st, dispatch(b, st, k, tag, tr), bound),
    decreases k + 1, 2nat,
{
    let off = st.pos as usize;
    if tag == 0x2B {
        lemma_array_keeps(b, st, k, tr, off, bound);
    } else if 0x40 <= tag <= 0x4F {
        lemma_array_body_keeps(b, st, k, (tag & 0x0F) as usize, tr, off, bound);
    } else if tag == 0x2A {
        lemma_hash_keeps(b, st, k, tr, off, bound);
    } else if 0x50 <= tag <= 0x5F {
        lemma_hash_body_keeps(b, st, k, (tag & 0x0F) as usize, tr, off, bound);
    } else if tag == 0x3F {
        lemma_item_keeps(b, st, k - 1, bound);
    } else {
        lemma_value_keeps(b, st, k, tag, bound);
    }
}

proof fn lemma_value_keeps(b: Seq<u8>, st: SerState, k: nat, tag: u8, bound: int)
    requires
        no_copy(b),
        b.len() <= usize::MAX,
        bound <= st.pos + 1,
        tag != 0x2F,
    ensures
        kept_below(st, value_of_tag(b, st, k, tag), bound),
    decreases k + 1, 1nat,
{
    if tag == 0x28 || tag == 0x30 {
        lemma_item_keeps(b, st, k - 1, bound);
    } else if tag == 0x2C {
        lemma_object_keeps(b, st, k, bound);
    } else if tag == 0x2D || tag == 0x33 {
        lemma_read_var_forward(b, st);
        if let (s1, Ok(_)) = read_var(b, st) {
            lemma_item_keeps(b, s1, k - 1, bound);
        }
    } else if tag == 0x32 || tag == 0x31 {
        lemma_item_keeps(b, st, k - 1, bound);
        if let (s1, Ok(_)) = item(b, st, k - 1) {
            lemma_item_keeps(b, s1, k - 1, bound);
        }
    } else {
        lemma_leaf_keeps(b, st, k, tag, bound);
    }
}

/// The tags that decode no value of their own.
#[verifier::rlimit(40)]
proof fn lemma_leaf_keeps(b: Seq<u8>, st: SerState, k: nat, tag: u8, bound: int)
    requires
        tag != 0x28 && tag != 0x30 && tag != 0x2C && tag != 0x2D && tag != 0x33 && tag != 0x32
            && tag != 0x31 && tag != 0x2F,
    ensures
        kept_below(st, value_of_tag(b, st, k, tag), bound),
{
    lemma_read_var_forward(b, st);
    if let (s1, Ok(n)) = read_var(b, st) {
        assert(kept_below(s1, read_n(b, s1, n as usize), bound));
    }
    if tag == 0x21 {
        assert(kept_below(st, sr_zigzag(b, st), bound));
    } else if tag == 0x26 {
        assert(kept_below(st, sr_binary(b, st), bound));
    } else if tag == 0x27 {
        assert(kept_below(st, sr_str(b, st), bound));
    } else if 0x60 <= tag <= 0x7F {
        assert(kept_below(st, sr_short_binary(b, st, tag), bound));
    } else if tag == 0x29 {
        assert(kept_below(st, sr_refp(b, st), bound));
    } else if tag == 0x2E {
        assert(kept_below(st, sr_alias(b, st), bound));
    } else if tag == 0x22 {
        assert(kept_below(st, sr_float(b, st), bound));
    } else if tag == 0x23 {
        assert(kept_below(st, sr_double(b, st), bound));
    } else if tag == 0x20 {
        assert(kept_below(st, sr_varint(b, st), bound));
    }
}

proof fn lemma_object_keeps(b: Seq<u8>, st: SerState, k: nat, bound: int)
    requires
        no_copy(b),
        b.len() <= usize::MAX,
        bound <= st.pos + 1,
    ensures
        kept_below(st, sr_object(b, st, k), bound),
    decreases k + 1, 0nat,
{
    lemma_item_keeps(b, st, k - 1, bound);
    if let (s1, Ok(cv)) = item(b, st, k - 1) {
        if let Ok(class) = text_of(s1.heap[cv as int]) {
            let s2 = SerState { classes: s1.classes.insert((st.pos + 1) as usize, class), ..s1 };
            lemma_item_keeps(b, s2, k - 1, bound);
        }
    }
}

proof fn lemma_items_keep(b: Seq<u8>, st: SerState, k: nat, n: nat, acc: Seq<ValueRef>, bound: int)
    requires
        no_copy(b),
        b.len() <= usize::MAX,
        bound <= st.pos + 1,
    ensures
        kept_below(st, sr_items(b, st, k, n, acc), bound),
    decreases k, n + 4,
{
    if n > 0 {
        lemma_item_keeps(b, st, k - 1, bound);
        if let (s1, Ok(v)) = item(b, st, k - 1) {
            lemma_items_keep(b, s1, k, (n - 1) as nat, acc.push(v), bound);
        }
    }
}

proof fn lemma_array_body_keeps(b: Seq<u8>, st: SerState, k: nat, count: usize, tr: bool, off: usize, bound: int)
    requires
        no_copy(b),
        b.len() <= usize::MAX,
        bound <= st.pos + 1,
        tr ==> bound <= off,
    ensures
        kept_below(st, sr_array_body(b, st, k, count, tr, off), bound),
    decreases k + 1, 0nat,
{
    let p = fresh(st);
    let s1 = put(st, SpecValue::Array(Seq::empty()));
    let s2 = if tr { track(s1, off, p) } else { s1 };
    lemma_items_keep(b, s2, k, count as nat, Seq::empty(), bound);
}

proof fn lemma_array_keeps(b: Seq<u8>, st: SerState, k: nat, tr: bool, off: usize, bound: int)
    requires
        no_copy(b),
        b.len() <= usize::MAX,
        bound <= st.pos + 1,
        tr ==> bound <= off,
    ensures
        kept_below(st, sr_array(b, st, k, tr, off), bound),
    decreases k + 1, 1nat,
{
    lemma_read_var_forward(b, st);
    if let (s1, Ok(c)) = read_var(b, st) {
        lemma_array_body_keeps(b, s1, k, c as usize, tr, off, bound);
    }
}

proof fn lemma_pairs_keep(
    b: Seq<u8>,
    st: SerState,
    k: nat,
    n: nat,
    acc: Map<Seq<u8>, ValueRef>,
    bound: int,
)
    requires
        no_copy(b),
        b.len() <= usize::MAX,
        bound <= st.pos + 1,
    ensures
        kept_below(st, sr_pairs(b, st, k, n, acc), bound),
    decreases k, n + 4,
{
    if n > 0 {
        lemma_item_keeps(b, st, k - 1, bound);
        if let (s1, Ok(kv)) = item(b, st, k - 1) {
            if let Ok(key) = key_of(s1.heap[kv as int]) {
                lemma_item_keeps(b, s1, k - 1, bound);
                if let (s2, Ok(v)) = item(b, s1, k - 1) {
                    lemma_pairs_keep(b, s2, k, (n - 1) as nat, acc.insert(key, v), bound);
                }
            }
        }
    }
}

proof fn lemma_hash_body_keeps(b: Seq<u8>, st: SerState, k: nat, count: usize, tr: bool, off: usize, bound: int)
    requires
        no_copy(b),
        b.len() <= usize::MAX,
        bound <= st.pos + 1,
        tr ==> bound <= off,
    ensures
        kept_below(st, sr_hash_body(b, st, k, count, tr, off), bound),
    decreases k + 1, 0nat,
{
    let p = fresh(st);
    let s1 = put(st, SpecValue::Hash(Map::empty()));
    let s2 = if tr { track(s1, off, p) } else { s1 };
    lemma_pairs_keep(b, s2, k, count as nat, Map::empty(), bound);
}

proof fn lemma_hash_keeps(b: Seq<u8>, st: SerState, k: nat, tr: bool, off: usize, bound: int)
    requires
        no_copy(b),
        b.len() <= usize::MAX,
        bound <= st.pos + 1,
        tr ==> bound <= off,
    ensures
        kept_below(st, sr_hash(b, st, k, tr, off), bound),
    decreases k + 1, 1nat,
{
    lemma_read_var_forward(b, st);
    if let (s1, Ok(c)) = read_var(b, st) {
        lemma_hash_body_keeps(b, s1, k, c as usize, tr, off, bound);
    }
}

/// After a successful decoding of the tracked container at `st.pos`, the
/// offset just past its tag holds the container: the value returned for
/// `ARRAY` and `HASH`, and for `ARRAYREF_n` and `HASHREF_n` the target of the
/// reference returned, which is the last node added.
pub open spec fn registers_container(b: Seq<u8>, st: SerState, step: SStep<ValueRef>) -> bool {
    step.1 matches Ok(r) ==> {
        let off = (st.pos + 1) as usize;
        let tag = b[st.pos] & 0x7F;
        &&& step.0.offsets.contains_key(off)
        &&& if tag == 0x2B || tag == 0x2A {
            step.0.offsets[off] == r
        } else {
            &&& step.0.heap.len() > 0
            &&& r == (step.0.heap.len() - 1) as usize
            &&& step.0.heap.last() == SpecValue::Ref(step.0.offsets[off])
        }
    }
}

/// A tracked container is registered, at the offset just past its tag, as the
/// container itself: `ARRAY` and `HASH` register the value they return, and
/// `ARRAYREF_n` and `HASHREF_n` the array or hash that the reference they
/// return points at, so that a later `REFP` to that offset makes a second
/// reference to the same container, not a reference to a reference.  A
/// `COPY` can decode the same tag again and so replace the entry; the law
/// covers every input without one.
pub proof fn lemma_tracked_container_registered(b: Seq<u8>, st: SerState, depth: int)
    requires
        0 <= depth <= MAX_DEPTH,
        0 <= st.pos < b.len(),
        b.len() <= usize::MAX,
        no_copy(b),
        b[st.pos] & 0x80 != 0,
        ({
            let tag = b[st.pos] & 0x7F;
            tag == 0x2B || tag == 0x2A || 0x40 <= tag <= 0x5F
        }),
    ensures
        registers_container(b, st, decode_value(b, st, depth)),
{
    let k = MAX_DEPTH - depth;
    let t = b[st.pos];
    let tag = t & 0x7F;
    let s = SerState { pos: st.pos + 1, ..st };
    let off = s.pos as usize;
    assert(read_u8(b, st) == (s, Ok::<u8, SerealError>(t)));
    assert(item(b, st, k) == dispatch(b, s, k as nat, tag, true));
    if tag == 0x2B || tag == 0x2A {
        lemma_read_var_forward(b, s);
        if tag == 0x2B {
            assert(dispatch(b, s, k as nat, tag, true) == sr_array(b, s, k as nat, true, off));
        } else {
            assert(dispatch(b, s, k as nat, tag, true) == sr_hash(b, s, k as nat, true, off));
        }
        if let (s1, Ok(c)) = read_var(b, s) {
            let p = fresh(s1);
            let count = c as usize;
            if tag == 0x2B {
                let s1a = track(put(s1, SpecValue::Array(Seq::empty())), off, p);
                lemma_items_keep(b, s1a, k as nat, count as nat, Seq::empty(), off + 1);
                if count <= remaining_of(b, s1) {
                    assert(sr_array(b, s, k as nat, true, off) == sr_array_body(b, s1, k as nat, count, true, off));
                    if let (s2, Ok(items)) = sr_items(b, s1a, k as nat, count as nat, Seq::empty()) {
                        assert(s2.offsets.contains_key(off));
                        assert(s2.offsets[off] == p);
                        assert(sr_array_body(b, s1, k as nat, count, true, off) == (fill(s2, p, SpecValue::Array(items)), Ok::<ValueRef, SerealError>(p)));
                        assert(decode_value(b, st, depth) == (fill(s2, p, SpecValue::Array(items)), Ok::<ValueRef, SerealError>(p)));
                    }
                }
            } else {
                let s1a = track(put(s1, SpecValue::Hash(Map::empty())), off, p);
                lemma_pairs_keep(b, s1a, k as nat, count as nat, Map::empty(), off + 1);
                if count * 2 <= remaining_of(b, s1) {
                    assert(sr_hash(b, s, k as nat, true, off) == sr_hash_body(b, s1, k as nat, count, true, off));
                    if let (s2, Ok(m)) = sr_pairs(b, s1a, k as nat, count as nat, Map::empty()) {
                        assert(s2.offsets.contains_key(off));
                        assert(s2.offsets[off] == p);
                        assert(decode_value(b, st, depth) == (fill(s2, p, SpecValue::Hash(m)), Ok::<ValueRef, SerealError>(p)));
                    }
                }
            }
        }
    } else {
        let p = fresh(s);
        let count = (tag & 0x0F) as usize;
        if tag <= 0x4F {
            let s1a = track(put(s, SpecValue::Array(Seq::empty())), off, p);
            lemma_items_keep(b, s1a, k as nat, count as nat, Seq::empty(), off + 1);
            assert(dispatch(b, s, k as nat, tag, true) == sr_arrayref(b, s, k as nat, tag, true, off));
            if let (s2, Ok(items)) = sr_items(b, s1a, k as nat, count as nat, Seq::empty()) {
                assert(s2.offsets.contains_key(off));
                assert(s2.offsets[off] == p);
                let s3 = fill(s2, p, SpecValue::Array(items));
                assert(decode_value(b, st, depth) == plain(s3, SpecValue::Ref(p)));
            }
        } else {
            let s1a = track(put(s, SpecValue::Hash(Map::empty())), off, p);
            lemma_pairs_keep(b, s1a, k as nat, count as nat, Map::empty(), off + 1);
            assert(dispatch(b, s, k as nat, tag, true) == sr_hashref(b, s, k as nat, tag, true, off));
            if let (s2, Ok(m)) = sr_pairs(b, s1a, k as nat, count as nat, Map::empty()) {
                assert(s2.offsets.contains_key(off));
                assert(s2.offsets[off] == p);
                let s3 = fill(s2, p, SpecValue::Hash(m));
                assert(decode_value(b, st, depth) == plain(s3, SpecValue::Ref(p)));
            }
        }
    }
}

} // verus!
