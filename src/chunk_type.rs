use vstd::prelude::*;
use vstd::string::StringSliceAdditionalSpecFns;
use vstd::utf8::{decode_utf8, encode_utf8, valid_utf8};

verus! {

/// An ASCII upper-case letter `A`-`Z`.
pub open spec fn is_upper(b: u8) -> bool {
    65 <= b <= 90
}

/// An ASCII lower-case letter `a`-`z`.
pub open spec fn is_lower(b: u8) -> bool {
    97 <= b <= 122
}

pub open spec fn is_letter(b: u8) -> bool {
    is_upper(b) || is_lower(b)
}

pub open spec fn all_letters(s: Seq<u8>) -> bool {
    forall|i: int| 0 <= i < s.len() ==> is_letter(#[trigger] s[i])
}

/// The bytes of a well-formed type code: exactly four ASCII letters.
pub open spec fn is_type_code(s: Seq<u8>) -> bool {
    s.len() == 4 && all_letters(s)
}

/// The characters that a sequence of ASCII bytes stands for, one per byte.
pub open spec fn ascii_text(s: Seq<u8>) -> Seq<char> {
    s.map_values(|b: u8| b as char)
}

/// Relies on `String::from_utf8`: it succeeds exactly when the bytes are valid
/// UTF-8, and the string it returns holds those bytes.
#[verifier::external_body]
pub(crate) fn string_from_utf8(bytes: Vec<u8>) -> (r: Option<String>)
    ensures
        r is Some <==> valid_utf8(bytes@),
        r matches Some(s) ==> encode_utf8(s@) == bytes@,
{
    String::from_utf8(bytes).ok()
}

/// ASCII letters are valid UTF-8, and decode to one character per byte.
pub proof fn lemma_letters_are_text(s: Seq<u8>)
    requires
        all_letters(s),
    ensures
        valid_utf8(s),
        decode_utf8(s) == ascii_text(s),
{
    let chars = ascii_text(s);
    assert(vstd::utf8::is_ascii_chars(chars));
    vstd::utf8::is_ascii_chars_encode_utf8(chars);
    assert(encode_utf8(chars) =~= s);
    vstd::utf8::encode_utf8_valid_utf8(chars);
    vstd::utf8::encode_utf8_decode_utf8(chars);
}

#[derive(Debug, Clone, Copy, PartialEq, Eq)]
pub enum ChunkTypeError {
    /// A byte is not an ASCII letter.
    ByteConversionError,
    /// The text is not four bytes long.
    StringConversionError,
}

/// The four-byte type tag of a chunk. The case of each letter carries a flag.
#[derive(Debug, Clone, Copy, PartialEq, Eq, PartialOrd, Ord)]
pub struct ChunkType {
    pub bytes: [u8; 4],
}

impl ChunkType {
    pub fn is_valid_byte(b: u8) -> (r: bool)
        ensures
            r == is_letter(b),
    {
        (65 <= b && b <= 90) || (97 <= b && b <= 122)
    }

    pub fn bytes(&self) -> (r: [u8; 4])
        ensures
            r == self.bytes,
    {
        self.bytes
    }

    pub fn is_valid(&self) -> (r: bool)
        ensures
            r == is_upper(self.bytes@[2]),
    {
        self.is_reserved_bit_valid()
    }

    pub fn is_critical(&self) -> (r: bool)
        ensures
            r == is_upper(self.bytes@[0]),
    {
        let b = self.bytes[0];
        65 <= b && b <= 90
    }

    pub fn is_public(&self) -> (r: bool)
        ensures
            r == is_upper(self.bytes@[1]),
    {
        let b = self.bytes[1];
        65 <= b && b <= 90
    }

    pub fn is_reserved_bit_valid(&self) -> (r: bool)
        ensures
            r == is_upper(self.bytes@[2]),
    {
        let b = self.bytes[2];
        65 <= b && b <= 90
    }

    pub fn is_safe_to_copy(&self) -> (r: bool)
        ensures
            r == is_lower(self.bytes@[3]),
    {
        let b = self.bytes[3];
        97 <= b && b <= 122
    }

    /// Builds a type code from four bytes, each of which must be an ASCII letter.
    pub fn try_from(value: [u8; 4]) -> (r: Result<ChunkType, ChunkTypeError>)
        ensures
            all_letters(value@) ==> r == Ok::<ChunkType, ChunkTypeError>(ChunkType { bytes: value }),
            !all_letters(value@) ==> r == Err::<ChunkType, ChunkTypeError>(ChunkTypeError::ByteConversionError),
    {
        let mut i: usize = 0;
        while i < 4
            invariant
                0 <= i <= 4,
                forall|j: int| 0 <= j < i ==> is_letter(#[trigger] value@[j]),
            decreases 4 - i,
        {
            if !Self::is_valid_byte(value[i]) {
                return Err(ChunkTypeError::ByteConversionError);
            }
            i += 1;
        }
        Ok(ChunkType { bytes: value })
    }

    /// Builds a type code from text: it must be four bytes long, each an ASCII letter.
    pub fn from_str(s: &str) -> (r: Result<ChunkType, ChunkTypeError>)
        ensures
            s.spec_bytes().len() != 4 ==> r == Err::<ChunkType, ChunkTypeError>(
                ChunkTypeError::StringConversionError,
            ),
            s.spec_bytes().len() == 4 && !all_letters(s.spec_bytes()) ==> r == Err::<
                ChunkType,
                ChunkTypeError,
            >(ChunkTypeError::ByteConversionError),
            is_type_code(s.spec_bytes()) ==> (r matches Ok(t) && t.bytes@ == s.spec_bytes()),
    {
        let b = s.as_bytes();
        if b.len() != 4 {
            return Err(ChunkTypeError::StringConversionError);
        }
        let mut i: usize = 0;
        while i < 4
            invariant
                0 <= i <= 4,
                b@ == s.spec_bytes(),
                b@.len() == 4,
                forall|j: int| 0 <= j < i ==> is_letter(#[trigger] b@[j]),
            decreases 4 - i,
        {
            if !Self::is_valid_byte(b[i]) {
                return Err(ChunkTypeError::ByteConversionError);
            }
            i += 1;
        }
        let bytes: [u8; 4] = [b[0], b[1], b[2], b[3]];
        assert(bytes@ =~= b@);
        Ok(ChunkType { bytes })
    }

    /// The type code as text; its bytes must be valid UTF-8, as letters are.
    pub fn as_string(&self) -> (r: String)
        requires
            valid_utf8(self.bytes@),
        ensures
            r@ == decode_utf8(self.bytes@),
            encode_utf8(r@) == self.bytes@,
    {
        let mut v: Vec<u8> = Vec::new();
        let mut i: usize = 0;
        while i < 4
            invariant
                0 <= i <= 4,
                v@ == self.bytes@.subrange(0, i as int),
            decreases 4 - i,
        {
            v.push(self.bytes[i]);
            i += 1;
        }
        assert(v@ =~= self.bytes@);
        let text = string_from_utf8(v).unwrap();
        proof {
            vstd::utf8::encode_utf8_decode_utf8(text@);
        }
        text
    }
}

} // verus!
