//! The Sereal document header: magic, version and encoding, and the header
//! suffix that is skipped.
use vstd::prelude::*;
use vstd::slice::slice_subrange;
use crate::sereal::{take_varint, varint_from, varint_group, Cursor, SerealError};

verus! {

/// The magic of protocol versions 1 and 2, `=srl`.
pub const MAGIC_V1_V2: [u8; 4] = [0x3D, 0x73, 0x72, 0x6C];

/// The magic of protocol version 3 and later, `=\xF3rl`.
pub const MAGIC_V3_PLUS: [u8; 4] = [0x3D, 0xF3, 0x72, 0x6C];

/// How the body of a document is encoded.
#[derive(Debug, PartialEq, Eq, Structural)]
pub enum Encoding {
    Raw,
    SnappyLegacy,
    SnappyIncremental,
    Zlib,
    Zstd,
}

/// What the header of a document says.
#[derive(Debug, PartialEq, Eq, Structural)]
pub struct Header {
    pub version: u8,
    pub encoding: Encoding,
}

/// The magic of protocol versions 1 and 2.
pub open spec fn magic_v1_v2() -> Seq<u8> {
    seq![0x3Du8, 0x73u8, 0x72u8, 0x6Cu8]
}

/// The magic of protocol version 3 and later.
pub open spec fn magic_v3_plus() -> Seq<u8> {
    seq![0x3Du8, 0xF3u8, 0x72u8, 0x6Cu8]
}

/// The encoding that the high four bits of the version byte name.
pub open spec fn encoding_of(bits: u8) -> Option<Encoding> {
    if bits == 0 {
        Some(Encoding::Raw)
    } else if bits == 1 {
        Some(Encoding::SnappyLegacy)
    } else if bits == 2 {
        Some(Encoding::SnappyIncremental)
    } else if bits == 3 {
        Some(Encoding::Zlib)
    } else if bits == 4 {
        Some(Encoding::Zstd)
    } else {
        None
    }
}

/// What a header parse of `input` gives: four bytes of magic, a version byte
/// whose low four bits are the version and whose high four bits the encoding,
/// then a varint length and that many bytes of header suffix; the body is the
/// rest.  Versions up to 2 must come with the old magic, later ones with the
/// new magic.
pub open spec fn header_of(input: Seq<u8>) -> Result<(Header, Seq<u8>), SerealError> {
    if input.len() < 5 {
        Err(SerealError::Truncated)
    } else {
        let magic = input.subrange(0, 4);
        let version = input[4] & 0x0F;
        let bits = input[4] >> 4;
        if magic != magic_v1_v2() && magic != magic_v3_plus() {
            Err(SerealError::BadMagic)
        } else if encoding_of(bits) is None {
            Err(SerealError::UnknownEncoding(bits))
        } else if version <= 2 && magic != magic_v1_v2() {
            Err(SerealError::MagicVersionMismatch)
        } else if version >= 3 && magic != magic_v3_plus() {
            Err(SerealError::MagicVersionMismatch)
        } else {
            let rest = input.subrange(5, input.len() as int);
            match take_varint(rest, 0) {
                (p, Ok(n)) => {
                    let suffix = n as usize;
                    if rest.len() - p < suffix {
                        Err(SerealError::Truncated)
                    } else {
                        Ok(
                            (
                                Header { version, encoding: encoding_of(bits).unwrap() },
                                rest.subrange(p + suffix, rest.len() as int),
                            ),
                        )
                    }
                },
                (_, Err(e)) => Err(e),
            }
        }
    }
}

/// A varint that was read ends inside the bytes.
proof fn lemma_varint_ends_inside(bytes: Seq<u8>, pos: int, i: nat, acc: u64)
    requires
        0 <= pos,
    ensures
        varint_from(bytes, pos, i, acc).1 is Ok ==> varint_from(bytes, pos, i, acc).0 <= bytes.len(),
    decreases 10 - i,
{
    let p = pos + i;
    if 0 <= p < bytes.len() && i < 10 && bytes[p] & 0x80 != 0 {
        lemma_varint_ends_inside(bytes, pos, i + 1, acc | varint_group(bytes[p], i));
    }
}

/// Parses the header of a Sereal document and returns it with the body that
/// follows the header suffix.
pub fn parse<'a>(input: &'a [u8]) -> (r: Result<(Header, &'a [u8]), SerealError>)
    ensures
        r is Ok <==> header_of(input@) is Ok,
        r matches Ok((h, body)) ==> header_of(input@) == Ok::<(Header, Seq<u8>), SerealError>((h, body@)),
        r matches Err(e) ==> header_of(input@) == Err::<(Header, Seq<u8>), SerealError>(e),
        r matches Ok((h, _)) ==> (h.version <= 2 ==> input@.subrange(0, 4) == magic_v1_v2()),
        r matches Ok((h, _)) ==> (h.version >= 3 ==> input@.subrange(0, 4) == magic_v3_plus()),
{
    if input.len() < 5 {
        return Err(SerealError::Truncated);
    }
    let is_v1 = input[0] == 0x3D && input[1] == 0x73 && input[2] == 0x72 && input[3] == 0x6C;
    let is_v3 = input[0] == 0x3D && input[1] == 0xF3 && input[2] == 0x72 && input[3] == 0x6C;
    proof {
        let magic = input@.subrange(0, 4);
        if is_v1 {
            assert(magic =~= magic_v1_v2());
        } else {
            assert(magic[1] != magic_v1_v2()[1] || magic[0] != magic_v1_v2()[0] || magic[2]
                != magic_v1_v2()[2] || magic[3] != magic_v1_v2()[3]);
        }
        if is_v3 {
            assert(magic =~= magic_v3_plus());
        } else {
            assert(magic[1] != magic_v3_plus()[1] || magic[0] != magic_v3_plus()[0] || magic[2]
                != magic_v3_plus()[2] || magic[3] != magic_v3_plus()[3]);
        }
    }
    if !is_v1 && !is_v3 {
        return Err(SerealError::BadMagic);
    }
    let version_type = input[4];
    let version = version_type & 0x0F;
    let encoding_bits = version_type >> 4;
    let encoding = match encoding_bits {
        0 => Encoding::Raw,
        1 => Encoding::SnappyLegacy,
        2 => Encoding::SnappyIncremental,
        3 => Encoding::Zlib,
        4 => Encoding::Zstd,
        other => {
            return Err(SerealError::UnknownEncoding(other));
        },
    };
    if version <= 2 && !is_v1 {
        return Err(SerealError::MagicVersionMismatch);
    }
    if version >= 3 && !is_v3 {
        return Err(SerealError::MagicVersionMismatch);
    }
    let rest = slice_subrange(input, 5, input.len());
    let mut cursor = Cursor::new(rest);
    let suffix_len = cursor.read_varint()? as usize;
    proof {
        lemma_varint_ends_inside(rest@, 0, 0, 0);
    }
    let after_varint = cursor.remaining();
    if after_varint.len() < suffix_len {
        return Err(SerealError::Truncated);
    }
    let body = slice_subrange(after_varint, suffix_len, after_varint.len());
    proof {
        assert(body@ =~= rest@.subrange(cursor.at() + suffix_len, rest@.len() as int));
    }
    Ok((Header { version, encoding }, body))
}

} // verus!
