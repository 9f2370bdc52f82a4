//! Decoding the body of a Sereal document: the tagged value tree.
use vstd::prelude::*;
use crate::float_bits::f32_bits_widened;
use crate::sereal::grammar::{
    decode_value, dispatch, fail, key_of, sr_alias, sr_array, sr_array_body,
    sr_arrayref, sr_binary, sr_copy, sr_double, sr_float, sr_hash, sr_hash_body, sr_hashref,
    sr_items, sr_object, sr_object_freeze, sr_objectv, sr_objectv_freeze, sr_pairs, sr_refn,
    sr_refp, sr_regexp, sr_short_binary, sr_str, sr_varint, sr_weaken, sr_zigzag, text_of,
    u32_le, u64_le, value_of_tag, zigzag, SStep, SerState, MAX_DEPTH,
};
use crate::sereal::value::SerealSeenTable;
use crate::sereal::{Cursor, SerealError};
use crate::shared_model::{
    lemma_hash_refs_insert, lemma_refs_below_mono, refs_below, ByteMap, PerlValue, SpecValue,
    ValueRef,
};
use crate::text::{utf8_decode, utf8_decode_lossy};
use vstd::slice::slice_to_vec;

verus! {

/// The decoder's state.
pub open spec fn sr_state(c: &Cursor, s: &SerealSeenTable) -> SerState {
    SerState { pos: c.at(), heap: s.heap_view(), offsets: s.offsets_view(), classes: s.classes_view() }
}

/// A decoding step went from `(c0, s0)` to `(c1, s1)` with result `r` as
/// `step` says; the heap only grew and every reference stays inside it.
pub open spec fn sr_took(
    c0: &Cursor,
    s0: &SerealSeenTable,
    c1: &Cursor,
    s1: &SerealSeenTable,
    r: Result<ValueRef, SerealError>,
    step: SStep<ValueRef>,
) -> bool {
    &&& s1.wf()
    &&& c1.data() == c0.data()
    &&& s0.heap_view().len() <= s1.heap_view().len()
    &&& sr_state(c1, s1) == step.0
    &&& r == step.1
    &&& (r matches Ok(v) ==> v < s1.heap_view().len())
}

/// The zigzag decoding of `z`.
fn zigzag_decode(z: u64) -> (n: i64)
    ensures
        n == zigzag(z),
{
    let h = z >> 1u64;
    assert(h == z / 2 && (z & 1u64 == 0 <==> z % 2 == 0)) by (bit_vector)
        requires
            h == z >> 1u64,
    ;
    if z & 1u64 == 0 {
        h as i64
    } else {
        -(h as i64) - 1
    }
}

/// The unsigned value of four little-endian bytes.
fn le_u32(b: &[u8]) -> (r: u32)
    requires
        b@.len() == 4,
    ensures
        r == u32_le(b@),
{
    (b[0] as u32) + (b[1] as u32) * 0x100 + (b[2] as u32) * 0x1_0000 + (b[3] as u32) * 0x100_0000
}

/// The unsigned value of eight little-endian bytes.
fn le_u64(b: &[u8]) -> (r: u64)
    requires
        b@.len() == 8,
    ensures
        r == u64_le(b@),
{
    (b[0] as u64) + (b[1] as u64) * 0x100 + (b[2] as u64) * 0x1_0000 + (b[3] as u64) * 0x100_0000
        + (b[4] as u64) * 0x1_0000_0000 + (b[5] as u64) * 0x100_0000_0000 + (b[6] as u64)
        * 0x1_0000_0000_0000 + (b[7] as u64) * 0x100_0000_0000_0000
}

/// The text of the string-like value `r`, used for class names.
fn value_text(seen: &SerealSeenTable, r: ValueRef) -> (t: Result<String, SerealError>)
    requires
        seen.wf(),
        r < seen.heap_view().len(),
    ensures
        t is Ok <==> text_of(seen.heap_view()[r as int]) is Ok,
        t matches Ok(s) ==> text_of(seen.heap_view()[r as int]) == Ok::<Seq<char>, SerealError>(s@),
        t matches Err(e) ==> text_of(seen.heap_view()[r as int]) == Err::<Seq<char>, SerealError>(e),
{
    match seen.heap().get(r) {
        PerlValue::Bytes(b) => Ok(utf8_decode_lossy(b.as_slice())),
        PerlValue::String(s) => Ok(s.clone()),
        _ => Err(SerealError::UnexpectedValueType { expected: "string-like", context: "class name" }),
    }
}

/// The bytes of the string-like value `r`, used as a hash key.
fn value_key(seen: &SerealSeenTable, r: ValueRef) -> (k: Result<Vec<u8>, SerealError>)
    requires
        seen.wf(),
        r < seen.heap_view().len(),
    ensures
        k is Ok <==> key_of(seen.heap_view()[r as int]) is Ok,
        k matches Ok(v) ==> key_of(seen.heap_view()[r as int]) == Ok::<Seq<u8>, SerealError>(v@),
        k matches Err(e) ==> key_of(seen.heap_view()[r as int]) == Err::<Seq<u8>, SerealError>(e),
{
    match seen.heap().get(r) {
        PerlValue::Bytes(b) => Ok(slice_to_vec(b.as_slice())),
        PerlValue::String(s) => Ok(slice_to_vec(s.as_str().as_bytes())),
        _ => Err(SerealError::UnexpectedValueType { expected: "string-like", context: "hash key" }),
    }
}

// ---------------------------------------------------------------------------
// Tags without children
// ---------------------------------------------------------------------------

fn read_varint_value(cursor: &mut Cursor, seen: &mut SerealSeenTable) -> (r: Result<ValueRef, SerealError>)
    requires
        old(seen).wf(),
    ensures
        sr_took(old(cursor), old(seen), final(cursor), final(seen), r,
            sr_varint(old(cursor).data(), sr_state(old(cursor), old(seen)))),
{
    let n = cursor.read_varint()?;
    if n > i64::MAX as u64 {
        Ok(seen.allocate(PerlValue::UnsignedInteger(n)))
    } else {
        Ok(seen.allocate(PerlValue::Integer(n as i64)))
    }
}

fn read_zigzag(cursor: &mut Cursor, seen: &mut SerealSeenTable) -> (r: Result<ValueRef, SerealError>)
    requires
        old(seen).wf(),
    ensures
        sr_took(old(cursor), old(seen), final(cursor), final(seen), r,
            sr_zigzag(old(cursor).data(), sr_state(old(cursor), old(seen)))),
{
    let z = cursor.read_varint()?;
    Ok(seen.allocate(PerlValue::Integer(zigzag_decode(z))))
}

fn read_binary(cursor: &mut Cursor, seen: &mut SerealSeenTable) -> (r: Result<ValueRef, SerealError>)
    requires
        old(seen).wf(),
    ensures
        sr_took(old(cursor), old(seen), final(cursor), final(seen), r,
            sr_binary(old(cursor).data(), sr_state(old(cursor), old(seen)))),
{
    let n = cursor.read_varint()?;
    let b = cursor.read_bytes(n as usize)?;
    Ok(seen.allocate(PerlValue::Bytes(slice_to_vec(b))))
}

fn read_str_utf8(cursor: &mut Cursor, seen: &mut SerealSeenTable) -> (r: Result<ValueRef, SerealError>)
    requires
        old(seen).wf(),
    ensures
        sr_took(old(cursor), old(seen), final(cursor), final(seen), r,
            sr_str(old(cursor).data(), sr_state(old(cursor), old(seen)))),
{
    let n = cursor.read_varint()?;
    let b = cursor.read_bytes(n as usize)?;
    match utf8_decode(b) {
        Some(s) => Ok(seen.allocate(PerlValue::String(s))),
        None => Err(SerealError::InvalidUtf8),
    }
}

fn read_short_binary(cursor: &mut Cursor, seen: &mut SerealSeenTable, tag: u8) -> (r: Result<ValueRef, SerealError>)
    requires
        old(seen).wf(),
    ensures
        sr_took(old(cursor), old(seen), final(cursor), final(seen), r,
            sr_short_binary(old(cursor).data(), sr_state(old(cursor), old(seen)), tag)),
{
    let b = cursor.read_bytes((tag & 0x1F) as usize)?;
    Ok(seen.allocate(PerlValue::Bytes(slice_to_vec(b))))
}

fn read_refp(cursor: &mut Cursor, seen: &mut SerealSeenTable) -> (r: Result<ValueRef, SerealError>)
    requires
        old(seen).wf(),
    ensures
        sr_took(old(cursor), old(seen), final(cursor), final(seen), r,
            sr_refp(old(cursor).data(), sr_state(old(cursor), old(seen)))),
{
    let offset = cursor.read_varint()? as usize;
    match seen.get(offset) {
        Some(referenced) => Ok(seen.allocate(PerlValue::Ref(referenced))),
        None => Err(SerealError::OffsetNotFound(offset)),
    }
}

fn read_alias(cursor: &mut Cursor, seen: &mut SerealSeenTable) -> (r: Result<ValueRef, SerealError>)
    requires
        old(seen).wf(),
    ensures
        sr_took(old(cursor), old(seen), final(cursor), final(seen), r,
            sr_alias(old(cursor).data(), sr_state(old(cursor), old(seen)))),
{
    let offset = cursor.read_varint()? as usize;
    match seen.get(offset) {
        Some(v) => Ok(v),
        None => Err(SerealError::OffsetNotFound(offset)),
    }
}

fn read_float(cursor: &mut Cursor, seen: &mut SerealSeenTable) -> (r: Result<ValueRef, SerealError>)
    requires
        old(seen).wf(),
    ensures
        sr_took(old(cursor), old(seen), final(cursor), final(seen), r,
            sr_float(old(cursor).data(), sr_state(old(cursor), old(seen)))),
{
    let b = cursor.read_bytes(4)?;
    Ok(seen.allocate(PerlValue::Double(f32_bits_widened(le_u32(b)))))
}

fn read_double(cursor: &mut Cursor, seen: &mut SerealSeenTable) -> (r: Result<ValueRef, SerealError>)
    requires
        old(seen).wf(),
    ensures
        sr_took(old(cursor), old(seen), final(cursor), final(seen), r,
            sr_double(old(cursor).data(), sr_state(old(cursor), old(seen)))),
{
    let b = cursor.read_bytes(8)?;
    Ok(seen.allocate(PerlValue::Double(le_u64(b))))
}


// ---------------------------------------------------------------------------
// Tags with children
// ---------------------------------------------------------------------------

fn read_refn(cursor: &mut Cursor, seen: &mut SerealSeenTable, depth: usize) -> (r: Result<ValueRef, SerealError>)
    requires
        old(seen).wf(),
        depth <= MAX_DEPTH,
    ensures
        sr_took(old(cursor), old(seen), final(cursor), final(seen), r,
            sr_refn(old(cursor).data(), sr_state(old(cursor), old(seen)), (MAX_DEPTH - depth) as nat)),
    decreases MAX_DEPTH + 1 - depth, 0nat,
{
    let inner = read_value(cursor, seen, depth + 1)?;
    Ok(seen.allocate(PerlValue::Ref(inner)))
}

fn read_weaken(cursor: &mut Cursor, seen: &mut SerealSeenTable, depth: usize) -> (r: Result<ValueRef, SerealError>)
    requires
        old(seen).wf(),
        depth <= MAX_DEPTH,
    ensures
        sr_took(old(cursor), old(seen), final(cursor), final(seen), r,
            sr_weaken(old(cursor).data(), sr_state(old(cursor), old(seen)), (MAX_DEPTH - depth) as nat)),
    decreases MAX_DEPTH + 1 - depth, 0nat,
{
    let inner = read_value(cursor, seen, depth + 1)?;
    let strong = match seen.heap().get(inner) {
        PerlValue::Ref(strong) => *strong,
        _ => {
            return Err(SerealError::UnexpectedValueType { expected: "Ref", context: "WEAKEN target" });
        },
    };
    Ok(seen.allocate(PerlValue::WeakRef(strong)))
}

fn read_copy(cursor: &mut Cursor, seen: &mut SerealSeenTable, depth: usize) -> (r: Result<ValueRef, SerealError>)
    requires
        old(seen).wf(),
        depth <= MAX_DEPTH,
    ensures
        sr_took(old(cursor), old(seen), final(cursor), final(seen), r,
            sr_copy(old(cursor).data(), sr_state(old(cursor), old(seen)), (MAX_DEPTH - depth) as nat)),
    decreases MAX_DEPTH + 1 - depth, 0nat,
{
    let offset = cursor.read_varint()? as usize;
    let saved_pos = cursor.pos();
    cursor.seek(offset.saturating_sub(1));
    let result = read_value(cursor, seen, depth + 1)?;
    cursor.seek(saved_pos);
    Ok(result)
}

fn read_object(cursor: &mut Cursor, seen: &mut SerealSeenTable, depth: usize) -> (r: Result<ValueRef, SerealError>)
    requires
        old(seen).wf(),
        depth <= MAX_DEPTH,
    ensures
        sr_took(old(cursor), old(seen), final(cursor), final(seen), r,
            sr_object(old(cursor).data(), sr_state(old(cursor), old(seen)), (MAX_DEPTH - depth) as nat)),
    decreases MAX_DEPTH + 1 - depth, 0nat,
{
    let class_tag_pos = cursor.pos();
    let class_val = read_value(cursor, seen, depth + 1)?;
    assert(class_tag_pos < cursor.data().len());
    let class = value_text(seen, class_val)?;
    seen.register_class(class_tag_pos + 1, class.clone());
    let inner = read_value(cursor, seen, depth + 1)?;
    Ok(seen.allocate(PerlValue::Blessed(inner, class)))
}

fn read_objectv(cursor: &mut Cursor, seen: &mut SerealSeenTable, depth: usize) -> (r: Result<ValueRef, SerealError>)
    requires
        old(seen).wf(),
        depth <= MAX_DEPTH,
    ensures
        sr_took(old(cursor), old(seen), final(cursor), final(seen), r,
            sr_objectv(old(cursor).data(), sr_state(old(cursor), old(seen)), (MAX_DEPTH - depth) as nat)),
    decreases MAX_DEPTH + 1 - depth, 0nat,
{
    let offset = cursor.read_varint()? as usize;
    let class = match seen.get_class(offset) {
        Some(c) => c,
        None => {
            return Err(SerealError::ClassOffsetNotFound(offset));
        },
    };
    let inner = read_value(cursor, seen, depth + 1)?;
    Ok(seen.allocate(PerlValue::Blessed(inner, class)))
}

fn read_object_freeze(cursor: &mut Cursor, seen: &mut SerealSeenTable, depth: usize) -> (r: Result<ValueRef, SerealError>)
    requires
        old(seen).wf(),
        depth <= MAX_DEPTH,
    ensures
        sr_took(old(cursor), old(seen), final(cursor), final(seen), r,
            sr_object_freeze(old(cursor).data(), sr_state(old(cursor), old(seen)), (MAX_DEPTH - depth) as nat)),
    decreases MAX_DEPTH + 1 - depth, 0nat,
{
    let class_val = read_value(cursor, seen, depth + 1)?;
    let class = value_text(seen, class_val)?;
    let inner = read_value(cursor, seen, depth + 1)?;
    Ok(seen.allocate(PerlValue::Blessed(inner, class)))
}

fn read_objectv_freeze(cursor: &mut Cursor, seen: &mut SerealSeenTable, depth: usize) -> (r: Result<ValueRef, SerealError>)
    requires
        old(seen).wf(),
        depth <= MAX_DEPTH,
    ensures
        sr_took(old(cursor), old(seen), final(cursor), final(seen), r,
            sr_objectv_freeze(old(cursor).data(), sr_state(old(cursor), old(seen)), (MAX_DEPTH - depth) as nat)),
    decreases MAX_DEPTH + 1 - depth, 0nat,
{
    let offset = cursor.read_varint()? as usize;
    let class_val = match seen.get(offset) {
        Some(v) => v,
        None => {
            return Err(SerealError::OffsetNotFound(offset));
        },
    };
    let class = value_text(seen, class_val)?;
    let inner = read_value(cursor, seen, depth + 1)?;
    Ok(seen.allocate(PerlValue::Blessed(inner, class)))
}

fn read_regexp(cursor: &mut Cursor, seen: &mut SerealSeenTable, depth: usize) -> (r: Result<ValueRef, SerealError>)
    requires
        old(seen).wf(),
        depth <= MAX_DEPTH,
    ensures
        sr_took(old(cursor), old(seen), final(cursor), final(seen), r,
            sr_regexp(old(cursor).data(), sr_state(old(cursor), old(seen)), (MAX_DEPTH - depth) as nat)),
    decreases MAX_DEPTH + 1 - depth, 0nat,
{
    let pattern = read_value(cursor, seen, depth + 1)?;
    let flags_val = read_value(cursor, seen, depth + 1)?;
    let flags = value_text(seen, flags_val)?;
    Ok(seen.allocate(PerlValue::Regexp { pattern, flags }))
}


/// An array of `count` elements; the array is added, and tracked at `off`
/// when asked, before its elements are decoded.
#[verifier::loop_isolation(false)]
fn read_array_body(
    cursor: &mut Cursor,
    seen: &mut SerealSeenTable,
    depth: usize,
    count: usize,
    is_tracked: bool,
    off: usize,
) -> (r: Result<ValueRef, SerealError>)
    requires
        old(seen).wf(),
        depth <= MAX_DEPTH,
    ensures
        sr_took(old(cursor), old(seen), final(cursor), final(seen), r,
            sr_array_body(old(cursor).data(), sr_state(old(cursor), old(seen)), (MAX_DEPTH - depth) as nat,
            count, is_tracked, off)),
    decreases MAX_DEPTH + 1 - depth, 0nat,
{
    let ghost b = cursor.data();
    let ghost k = (MAX_DEPTH - depth) as nat;
    let p = seen.allocate(PerlValue::Array(Vec::new()));
    if is_tracked {
        seen.register(off, p);
    }
    let ghost start = sr_state(cursor, seen);
    let mut items: Vec<ValueRef> = Vec::new();
    let mut i: usize = 0;
    while i < count
        invariant
            seen.wf(),
            cursor.data() == b,
            old(seen).heap_view().len() < seen.heap_view().len(),
            p == old(seen).heap_view().len(),
            i <= count,
            forall|j: int| 0 <= j < items@.len() ==> items@[j] < seen.heap_view().len(),
            sr_items(b, sr_state(cursor, seen), k, (count - i) as nat, items@) == sr_items(
                b,
                start,
                k,
                count as nat,
                Seq::empty(),
            ),
        decreases count - i,
    {
        let ghost before = sr_state(cursor, seen);
        let v = match read_value(cursor, seen, depth + 1) {
            Ok(v) => v,
            Err(e) => {
                assert(sr_items(b, before, k, (count - i) as nat, items@) == fail::<Seq<ValueRef>>(
                    sr_state(cursor, seen), e));
                return Err(e);
            },
        };
        items.push(v);
        i = i + 1;
    }
    seen.set(p, PerlValue::Array(items));
    Ok(p)
}

/// `ARRAY`.
fn read_array(cursor: &mut Cursor, seen: &mut SerealSeenTable, depth: usize, is_tracked: bool, off: usize) -> (r: Result<ValueRef, SerealError>)
    requires
        old(seen).wf(),
        depth <= MAX_DEPTH,
    ensures
        sr_took(old(cursor), old(seen), final(cursor), final(seen), r,
            sr_array(old(cursor).data(), sr_state(old(cursor), old(seen)), (MAX_DEPTH - depth) as nat,
            is_tracked, off)),
    decreases MAX_DEPTH + 1 - depth, 1nat,
{
    let count = cursor.read_varint()? as usize;
    let remaining = cursor.remaining_len();
    if count > remaining {
        return Err(SerealError::CountExceedsInput { count, remaining });
    }
    read_array_body(cursor, seen, depth, count, is_tracked, off)
}

/// `ARRAYREF_n`.
fn read_arrayref(cursor: &mut Cursor, seen: &mut SerealSeenTable, depth: usize, tag: u8, is_tracked: bool, off: usize) -> (r: Result<ValueRef, SerealError>)
    requires
        old(seen).wf(),
        depth <= MAX_DEPTH,
    ensures
        sr_took(old(cursor), old(seen), final(cursor), final(seen), r,
            sr_arrayref(old(cursor).data(), sr_state(old(cursor), old(seen)), (MAX_DEPTH - depth) as nat,
            tag, is_tracked, off)),
    decreases MAX_DEPTH + 1 - depth, 1nat,
{
    let p = read_array_body(cursor, seen, depth, (tag & 0x0F) as usize, is_tracked, off)?;
    Ok(seen.allocate(PerlValue::Ref(p)))
}

/// A hash of `count` entries; the hash is added, and tracked at `off` when
/// asked, before its entries are decoded.
#[verifier::loop_isolation(false)]
fn read_hash_body(
    cursor: &mut Cursor,
    seen: &mut SerealSeenTable,
    depth: usize,
    count: usize,
    is_tracked: bool,
    off: usize,
) -> (r: Result<ValueRef, SerealError>)
    requires
        old(seen).wf(),
        depth <= MAX_DEPTH,
    ensures
        sr_took(old(cursor), old(seen), final(cursor), final(seen), r,
            sr_hash_body(old(cursor).data(), sr_state(old(cursor), old(seen)), (MAX_DEPTH - depth) as nat,
            count, is_tracked, off)),
    decreases MAX_DEPTH + 1 - depth, 0nat,
{
    let ghost b = cursor.data();
    let ghost k = (MAX_DEPTH - depth) as nat;
    let p = seen.allocate(PerlValue::Hash(ByteMap::new()));
    if is_tracked {
        seen.register(off, p);
    }
    let ghost start = sr_state(cursor, seen);
    let mut map: ByteMap<ValueRef> = ByteMap::new();
    let mut i: usize = 0;
    while i < count
        invariant
            seen.wf(),
            cursor.data() == b,
            old(seen).heap_view().len() < seen.heap_view().len(),
            p == old(seen).heap_view().len(),
            i <= count,
            map.wf(),
            refs_below(SpecValue::Hash(map@), seen.heap_view().len() as int),
            sr_pairs(b, sr_state(cursor, seen), k, (count - i) as nat, map@) == sr_pairs(
                b,
                start,
                k,
                count as nat,
                Map::empty(),
            ),
        decreases count - i,
    {
        let ghost before = sr_state(cursor, seen);
        let key_val = match read_value(cursor, seen, depth + 1) {
            Ok(v) => v,
            Err(e) => {
                assert(sr_pairs(b, before, k, (count - i) as nat, map@) == fail::<Map<Seq<u8>, ValueRef>>(
                    sr_state(cursor, seen), e));
                return Err(e);
            },
        };
        let key = match value_key(seen, key_val) {
            Ok(key) => key,
            Err(e) => {
                assert(sr_pairs(b, before, k, (count - i) as nat, map@) == fail::<Map<Seq<u8>, ValueRef>>(
                    sr_state(cursor, seen), e));
                return Err(e);
            },
        };
        let ghost mid = sr_state(cursor, seen);
        let value = match read_value(cursor, seen, depth + 1) {
            Ok(v) => v,
            Err(e) => {
                assert(sr_pairs(b, before, k, (count - i) as nat, map@) == fail::<Map<Seq<u8>, ValueRef>>(
                    sr_state(cursor, seen), e));
                return Err(e);
            },
        };
        let ghost n0 = mid.heap.len() as int;
        let ghost m0 = map@;
        let ghost kk = key@;
        map.insert(key, value);
        proof {
            lemma_refs_below_mono(SpecValue::Hash(m0), n0, seen.heap_view().len() as int);
            lemma_hash_refs_insert(m0, kk, value, seen.heap_view().len() as int);
        }
        i = i + 1;
    }
    seen.set(p, PerlValue::Hash(map));
    Ok(p)
}

/// `HASH`.
fn read_hash(cursor: &mut Cursor, seen: &mut SerealSeenTable, depth: usize, is_tracked: bool, off: usize) -> (r: Result<ValueRef, SerealError>)
    requires
        old(seen).wf(),
        depth <= MAX_DEPTH,
    ensures
        sr_took(old(cursor), old(seen), final(cursor), final(seen), r,
            sr_hash(old(cursor).data(), sr_state(old(cursor), old(seen)), (MAX_DEPTH - depth) as nat,
            is_tracked, off)),
    decreases MAX_DEPTH + 1 - depth, 1nat,
{
    let count = cursor.read_varint()? as usize;
    let remaining = cursor.remaining_len();
    match count.checked_mul(2) {
        Some(min) => {
            if min > remaining {
                return Err(SerealError::CountExceedsInput { count, remaining });
            }
        },
        None => {
            return Err(SerealError::CountExceedsInput { count, remaining });
        },
    }
    read_hash_body(cursor, seen, depth, count, is_tracked, off)
}

/// `HASHREF_n`.
fn read_hashref(cursor: &mut Cursor, seen: &mut SerealSeenTable, depth: usize, tag: u8, is_tracked: bool, off: usize) -> (r: Result<ValueRef, SerealError>)
    requires
        old(seen).wf(),
        depth <= MAX_DEPTH,
    ensures
        sr_took(old(cursor), old(seen), final(cursor), final(seen), r,
            sr_hashref(old(cursor).data(), sr_state(old(cursor), old(seen)), (MAX_DEPTH - depth) as nat,
            tag, is_tracked, off)),
    decreases MAX_DEPTH + 1 - depth, 1nat,
{
    let p = read_hash_body(cursor, seen, depth, (tag & 0x0F) as usize, is_tracked, off)?;
    Ok(seen.allocate(PerlValue::Ref(p)))
}

/// The value of a tag that is neither a container nor padding.
#[verifier::rlimit(40)]
fn read_value_of_tag(cursor: &mut Cursor, seen: &mut SerealSeenTable, depth: usize, tag: u8) -> (r: Result<ValueRef, SerealError>)
    requires
        old(seen).wf(),
        depth <= MAX_DEPTH,
    ensures
        sr_took(old(cursor), old(seen), final(cursor), final(seen), r,
            value_of_tag(old(cursor).data(), sr_state(old(cursor), old(seen)), (MAX_DEPTH - depth) as nat, tag)),
    decreases MAX_DEPTH + 1 - depth, 1nat,
{
    if tag <= 0x0F {
        Ok(seen.allocate(PerlValue::Integer(tag as i64)))
    } else if tag <= 0x1F {
        Ok(seen.allocate(PerlValue::Integer(tag as i64 - 32)))
    } else if tag == 0x25 || tag == 0x39 {
        Ok(seen.allocate(PerlValue::Undef))
    } else if tag == 0x3A || tag == 0x34 {
        Ok(seen.allocate(PerlValue::No))
    } else if tag == 0x3B || tag == 0x35 {
        Ok(seen.allocate(PerlValue::Yes))
    } else if tag == 0x21 {
        read_zigzag(cursor, seen)
    } else if tag == 0x26 {
        read_binary(cursor, seen)
    } else if tag == 0x27 {
        read_str_utf8(cursor, seen)
    } else if 0x60 <= tag && tag <= 0x7F {
        read_short_binary(cursor, seen, tag)
    } else if tag == 0x28 {
        read_refn(cursor, seen, depth)
    } else if tag == 0x29 {
        read_refp(cursor, seen)
    } else if tag == 0x2E {
        read_alias(cursor, seen)
    } else if tag == 0x30 {
        read_weaken(cursor, seen, depth)
    } else if tag == 0x2F {
        read_copy(cursor, seen, depth)
    } else if tag == 0x2C {
        read_object(cursor, seen, depth)
    } else if tag == 0x2D {
        read_objectv(cursor, seen, depth)
    } else if tag == 0x32 {
        read_object_freeze(cursor, seen, depth)
    } else if tag == 0x33 {
        read_objectv_freeze(cursor, seen, depth)
    } else if tag == 0x31 {
        read_regexp(cursor, seen, depth)
    } else if tag == 0x22 {
        read_float(cursor, seen)
    } else if tag == 0x23 {
        read_double(cursor, seen)
    } else if tag == 0x24 {
        Err(SerealError::UnsupportedTag("LONG_DOUBLE"))
    } else if tag == 0x3E {
        Err(SerealError::UnsupportedTag("EXTEND"))
    } else if tag == 0x3C {
        Err(SerealError::UnsupportedTag("MANY"))
    } else if tag == 0x36 || tag == 0x37 {
        Err(SerealError::UnsupportedTag("RESERVED"))
    } else if tag == 0x38 {
        Err(SerealError::UnsupportedTag("FLOAT_128"))
    } else if tag == 0x3D {
        Err(SerealError::UnexpectedPacketStart)
    } else if tag == 0x20 {
        read_varint_value(cursor, seen)
    } else {
        Err(SerealError::UnknownTag(tag))
    }
}

/// What the masked tag `tag` calls for.
fn read_dispatch(cursor: &mut Cursor, seen: &mut SerealSeenTable, depth: usize, tag: u8, is_tracked: bool) -> (r: Result<ValueRef, SerealError>)
    requires
        old(seen).wf(),
        depth <= MAX_DEPTH,
    ensures
        sr_took(old(cursor), old(seen), final(cursor), final(seen), r,
            dispatch(old(cursor).data(), sr_state(old(cursor), old(seen)), (MAX_DEPTH - depth) as nat, tag,
            is_tracked)),
    decreases MAX_DEPTH + 1 - depth, 2nat,
{
    let off = cursor.pos();
    if tag == 0x2B {
        read_array(cursor, seen, depth, is_tracked, off)
    } else if 0x40 <= tag && tag <= 0x4F {
        read_arrayref(cursor, seen, depth, tag, is_tracked, off)
    } else if tag == 0x2A {
        read_hash(cursor, seen, depth, is_tracked, off)
    } else if 0x50 <= tag && tag <= 0x5F {
        read_hashref(cursor, seen, depth, tag, is_tracked, off)
    } else if tag == 0x3F {
        read_value(cursor, seen, depth + 1)
    } else {
        let v = read_value_of_tag(cursor, seen, depth, tag)?;
        if is_tracked {
            seen.register(off, v);
        }
        Ok(v)
    }
}

/// Decodes one value of a Sereal body at nesting depth `depth`: a tag byte,
/// whose high bit asks for the value to be tracked at the offset just after
/// the tag, then what the tag calls for.  Nesting deeper than `MAX_DEPTH` is
/// refused.
pub fn read_value(cursor: &mut Cursor<'_>, seen: &mut SerealSeenTable, depth: usize) -> (r: Result<ValueRef, SerealError>)
    requires
        old(seen).wf(),
    ensures
        sr_took(old(cursor), old(seen), final(cursor), final(seen), r,
            decode_value(old(cursor).data(), sr_state(old(cursor), old(seen)), depth as int)),
    decreases MAX_DEPTH + 1 - depth, 3nat,
{
    if depth > MAX_DEPTH {
        return Err(SerealError::MaxDepthExceeded);
    }
    let tag = cursor.read_byte()?;
    read_dispatch(cursor, seen, depth, tag & 0x7F, tag & 0x80 != 0)
}

} // verus!
