//! The header of a Storable image: the optional file magic, the version byte
//! and, for native-order images, the writer's architecture.
use vstd::prelude::*;
use crate::storable::body::BodyConfig;

verus! {

/// Why a header could not be read.
#[derive(Debug, PartialEq)]
pub enum HeaderError {
    UnsupportedMajor(u8),
    Truncated,
    UnknownByteOrder,
}

/// What the version bytes say.
#[derive(Debug, PartialEq)]
pub struct VersionByte {
    /// Major version of the format, the upper bits of the first byte.
    pub major: u8,
    /// Minor version of the format, the second byte.
    pub minor: u8,
    /// Integers are in network order (the low bit of the first byte).
    pub network_order: bool,
    /// The writer's architecture; present exactly for native-order images.
    pub arch: Option<ArchInfo>,
}

/// The architecture block of a native-order image.
#[derive(Debug, PartialEq)]
pub struct ArchInfo {
    pub byteorder: ByteOrder,
    /// 4 or 8, from the length of the byte-order string.
    pub word_size: u8,
    pub int_size: u8,
    pub long_size: u8,
    pub ptr_size: u8,
    pub nv_size: u8,
}

/// The writer's byte order.
#[derive(Debug, PartialEq)]
pub enum ByteOrder {
    Little,
    Big,
}

impl VersionByte {
    /// The number layout of the body: the architecture's widths for a
    /// native-order image, 4-byte integers and 8-byte floats otherwise.
    pub fn body_config(&self) -> (c: BodyConfig)
        ensures
            self.arch matches Some(a) ==> c.iv_size == a.word_size && c.nv_size == a.nv_size
                && !c.network_order,
            self.arch is None ==> c.iv_size == 4 && c.nv_size == 8 && c.network_order,
    {
        match &self.arch {
            Some(arch) => BodyConfig { iv_size: arch.word_size, nv_size: arch.nv_size, network_order: false },
            None => BodyConfig { iv_size: 4, nv_size: 8, network_order: true },
        }
    }
}

/// The input starts with the file magic `pst0` that `store` writes.
pub open spec fn has_file_magic(b: Seq<u8>) -> bool {
    b.len() >= 4 && b[0] == 0x70 && b[1] == 0x73 && b[2] == 0x74 && b[3] == 0x30
}

/// The byte order and word size a byte-order string names: "1234", "4321",
/// "12345678" or "87654321".
pub open spec fn byte_order_of(s: Seq<u8>) -> Option<(ByteOrder, u8)> {
    if s =~= seq![0x31u8, 0x32, 0x33, 0x34] {
        Some((ByteOrder::Little, 4u8))
    } else if s =~= seq![0x34u8, 0x33, 0x32, 0x31] {
        Some((ByteOrder::Big, 4u8))
    } else if s =~= seq![0x31u8, 0x32, 0x33, 0x34, 0x35, 0x36, 0x37, 0x38] {
        Some((ByteOrder::Little, 8u8))
    } else if s =~= seq![0x38u8, 0x37, 0x36, 0x35, 0x34, 0x33, 0x32, 0x31] {
        Some((ByteOrder::Big, 8u8))
    } else {
        None
    }
}

/// What reading a header from `b` yields: the version information and the
/// offset in `b` at which the body starts.
pub open spec fn header_of(b: Seq<u8>) -> Result<(VersionByte, int), HeaderError> {
    let s: int = if has_file_magic(b) { 4 } else { 0 };
    if b.len() < s + 2 {
        Err(HeaderError::Truncated)
    } else {
        let major = b[s] >> 1;
        let minor = b[s + 1];
        if major != 2 {
            Err(HeaderError::UnsupportedMajor(major))
        } else if b[s] & 0x01 != 0 {
            Ok((VersionByte { major, minor, network_order: true, arch: None }, s + 2))
        } else if b.len() < s + 3 {
            Err(HeaderError::Truncated)
        } else {
            let n = b[s + 2] as int;
            if b.len() < s + 3 + n {
                Err(HeaderError::Truncated)
            } else {
                match byte_order_of(b.subrange(s + 3, s + 3 + n)) {
                    None => Err(HeaderError::UnknownByteOrder),
                    Some((order, word)) => {
                        let o = s + 3 + n;
                        if b.len() < o + 4 {
                            Err(HeaderError::Truncated)
                        } else {
                            Ok(
                                (
                                    VersionByte {
                                        major,
                                        minor,
                                        network_order: false,
                                        arch: Some(
                                            ArchInfo {
                                                byteorder: order,
                                                word_size: word,
                                                int_size: b[o],
                                                long_size: b[o + 1],
                                                ptr_size: b[o + 2],
                                                nv_size: b[o + 3],
                                            },
                                        ),
                                    },
                                    o + 4,
                                ),
                            )
                        }
                    },
                }
            }
        }
    }
}

/// The file magic `pst0`.
pub open spec fn file_magic() -> Seq<u8> {
    seq![0x70u8, 0x73, 0x74, 0x30]
}

/// An image written by `store` is the file magic followed by what `freeze`
/// writes, and both read alike: the same version information, the body
/// starting four bytes further on.
pub proof fn lemma_file_magic_is_skipped(x: Seq<u8>)
    requires
        !has_file_magic(x),
    ensures
        header_of(file_magic() + x) == (match header_of(x) {
            Ok((v, o)) => Ok((v, o + 4)),
            Err(e) => Err(e),
        }),
{
    let b = file_magic() + x;
    assert(has_file_magic(b));
    assert forall|i: int| 0 <= i < x.len() implies #[trigger] b[i + 4] == x[i] by {}
    if x.len() >= 3 {
        let n = x[2] as int;
        if x.len() >= 3 + n {
            assert(b.subrange(7, 7 + n) =~= x.subrange(3, 3 + n));
        }
    }
}

/// A byte-order string names the writer's word size by its length and its
/// byte order by its first digit: "1..." is little-endian, "4..." or "8..."
/// big-endian.  Exactly the four strings "1234", "4321", "12345678" and
/// "87654321" are known.
pub proof fn lemma_byte_order_from_string(s: Seq<u8>)
    ensures
        byte_order_of(s) matches Some((order, word)) ==> {
            &&& word == s.len()
            &&& (order == ByteOrder::Little <==> s[0] == 0x31)
            &&& forall|i: int| 0 <= i < s.len() ==> #[trigger] s[i] == (if s[0] == 0x31 {
                0x31 + i
            } else {
                s.len() + 0x30 - i
            })
        },
        (s.len() == 4 || s.len() == 8) && (forall|i: int| 0 <= i < s.len() ==> #[trigger] s[i]
            == 0x31 + i) ==> byte_order_of(s) is Some,
        (s.len() == 4 || s.len() == 8) && (forall|i: int| 0 <= i < s.len() ==> #[trigger] s[i]
            == s.len() + 0x30 - i) ==> byte_order_of(s) is Some,
{
    if (s.len() == 4 || s.len() == 8) && (forall|i: int| 0 <= i < s.len() ==> #[trigger] s[i] == 0x31 + i) {
        if s.len() == 4 {
            assert(s =~= seq![0x31u8, 0x32, 0x33, 0x34]);
        } else {
            assert(s =~= seq![0x31u8, 0x32, 0x33, 0x34, 0x35, 0x36, 0x37, 0x38]);
        }
    }
    if (s.len() == 4 || s.len() == 8) && (forall|i: int| 0 <= i < s.len() ==> #[trigger] s[i] == s.len() + 0x30 - i) {
        if s.len() == 4 {
            assert(s =~= seq![0x34u8, 0x33, 0x32, 0x31]);
        } else {
            assert(s =~= seq![0x38u8, 0x37, 0x36, 0x35, 0x34, 0x33, 0x32, 0x31]);
        }
    }
}

/// The architecture read from a native-order header has the word size that
/// the length of its byte-order string gives, and is little-endian exactly
/// when that string starts with '1'.
pub proof fn lemma_header_word_size_is_order_length(b: Seq<u8>)
    ensures
        header_of(b) matches Ok((v, _)) ==> (v.arch matches Some(a) ==> {
            let s: int = if has_file_magic(b) { 4 } else { 0 };
            &&& a.word_size == b[s + 2]
            &&& (a.byteorder == ByteOrder::Little <==> b[s + 3] == 0x31)
        }),
{
    let s: int = if has_file_magic(b) { 4 } else { 0 };
    if b.len() >= s + 3 && b.len() >= s + 3 + b[s + 2] as int {
        let t = b.subrange(s + 3, s + 3 + b[s + 2] as int);
        lemma_byte_order_from_string(t);
        if t.len() > 0 {
            assert(t[0] == b[s + 3]);
        }
    }
}

/// Reads the byte order string.
fn read_byte_order(s: &[u8]) -> (r: Option<(ByteOrder, u8)>)
    ensures
        r == byte_order_of(s@),
{
    if s.len() == 4 && s[0] == 0x31 && s[1] == 0x32 && s[2] == 0x33 && s[3] == 0x34 {
        assert(s@ =~= seq![0x31u8, 0x32, 0x33, 0x34]);
        Some((ByteOrder::Little, 4))
    } else if s.len() == 4 && s[0] == 0x34 && s[1] == 0x33 && s[2] == 0x32 && s[3] == 0x31 {
        assert(s@ =~= seq![0x34u8, 0x33, 0x32, 0x31]);
        Some((ByteOrder::Big, 4))
    } else if s.len() == 8 && s[0] == 0x31 && s[1] == 0x32 && s[2] == 0x33 && s[3] == 0x34
        && s[4] == 0x35 && s[5] == 0x36 && s[6] == 0x37 && s[7] == 0x38 {
        assert(s@ =~= seq![0x31u8, 0x32, 0x33, 0x34, 0x35, 0x36, 0x37, 0x38]);
        Some((ByteOrder::Little, 8))
    } else if s.len() == 8 && s[0] == 0x38 && s[1] == 0x37 && s[2] == 0x36 && s[3] == 0x35
        && s[4] == 0x34 && s[5] == 0x33 && s[6] == 0x32 && s[7] == 0x31 {
        assert(s@ =~= seq![0x38u8, 0x37, 0x36, 0x35, 0x34, 0x33, 0x32, 0x31]);
        Some((ByteOrder::Big, 8))
    } else {
        None
    }
}

/// Reads the header at the start of `input` and returns it with the body that
/// follows.  Images written by `store` begin with the magic `pst0`, those
/// written by `freeze` do not; both are accepted.
pub fn parse(input: &[u8]) -> (r: Result<(VersionByte, &[u8]), HeaderError>)
    ensures
        r is Ok <==> header_of(input@) is Ok,
        r matches Ok((v, rest)) ==> header_of(input@) matches Ok((w, o)) && v == w && rest@
            == input@.subrange(o, input@.len() as int),
        r matches Err(e) ==> header_of(input@) == Err::<(VersionByte, int), HeaderError>(e),
{
    let s: usize = if input.len() >= 4 && input[0] == 0x70 && input[1] == 0x73 && input[2] == 0x74
        && input[3] == 0x30 {
        4
    } else {
        0
    };
    if input.len() < s + 2 {
        return Err(HeaderError::Truncated);
    }
    let b = input[s];
    let major = b >> 1;
    let minor = input[s + 1];
    let network_order = (b & 0x01) != 0;
    if major != 2 {
        return Err(HeaderError::UnsupportedMajor(major));
    }
    if network_order {
        return Ok((VersionByte { major, minor, network_order, arch: None }, &input[s + 2..input.len()]));
    }
    if input.len() < s + 3 {
        return Err(HeaderError::Truncated);
    }
    let n = input[s + 2] as usize;
    if input.len() < s + 3 + n {
        return Err(HeaderError::Truncated);
    }
    let (byteorder, word_size) = match read_byte_order(&input[s + 3..s + 3 + n]) {
        Some(found) => found,
        None => {
            return Err(HeaderError::UnknownByteOrder);
        },
    };
    let o = s + 3 + n;
    if input.len() < o + 4 {
        return Err(HeaderError::Truncated);
    }
    let arch = ArchInfo {
        byteorder,
        word_size,
        int_size: input[o],
        long_size: input[o + 1],
        ptr_size: input[o + 2],
        nv_size: input[o + 3],
    };
    Ok((VersionByte { major, minor, network_order, arch: Some(arch) }, &input[o + 4..input.len()]))
}

} // verus!
