//! The identifier stored on a physical tag.
//!
//! An identifier is carried as text.  Most identifiers are the twelve-digit
//! hexadecimal rendering of six raw bytes, but any string can serve as one.
//! Equality and ordering are case-insensitive: two textual forms that differ
//! only in ASCII letter case denote the same physical tag.  The canonical
//! rendering (uppercase) is used for display, sorting and file naming, and
//! the encoding between the six raw bytes and their twelve hexadecimal
//! digits is a lossless bijection.

use vstd::prelude::*;
use vstd::string::StrSliceExecFns;

use crate::errors::TallyError;
use crate::text::{
    canon, hex_byte_val, hex_char_val, hex_digit_char, is_hex_byte, is_hex_char, push_char,
    to_upper, upper_char,
};

verus! {

/// The characters of an ASCII byte sequence, one character per byte.
pub open spec fn chars_of_ascii(bs: Seq<u8>) -> Seq<char> {
    bs.map_values(|b: u8| b as char)
}

/// Uppercase hexadecimal rendering of a byte sequence, two digits per byte.
pub open spec fn hex_of_bytes(bs: Seq<u8>) -> Seq<char>
    decreases bs.len(),
{
    if bs.len() == 0 {
        Seq::empty()
    } else {
        seq![
            hex_digit_char((bs[0] >> 4u8) as int),
            hex_digit_char((bs[0] & 0x0fu8) as int),
        ] + hex_of_bytes(bs.drop_first())
    }
}

/// Whether every character of the sequence is a hexadecimal digit.
pub open spec fn all_hex(s: Seq<char>) -> bool {
    forall|i: int| 0 <= i < s.len() ==> is_hex_char(#[trigger] s[i])
}

/// The bytes encoded by a sequence of hexadecimal digit pairs.
pub open spec fn unhex(s: Seq<char>) -> Seq<u8>
    decreases s.len(),
{
    if s.len() < 2 {
        Seq::empty()
    } else {
        seq![(16 * hex_char_val(s[0]) + hex_char_val(s[1])) as u8] + unhex(s.skip(2))
    }
}

/// Represents the ID that is stored on the tally.
/// Case-insensitive; while any string can be an ID, most IDs are a hex
/// string.
#[derive(Debug)]
pub struct TallyID(pub String);

impl View for TallyID {
    type V = Seq<char>;

    open spec fn view(&self) -> Seq<char> {
        self.0@
    }
}

impl Clone for TallyID {
    fn clone(&self) -> (r: Self)
        ensures
            r@ == self@,
    {
        TallyID(self.0.clone())
    }
}

impl PartialEq for TallyID {
    fn eq(&self, other: &Self) -> (r: bool) {
        self.eq_canon(other)
    }
}

impl Eq for TallyID {

}

impl vstd::std_specs::cmp::PartialEqSpecImpl for TallyID {
    open spec fn obeys_eq_spec() -> bool {
        true
    }

    open spec fn eq_spec(&self, other: &Self) -> bool {
        canon(self@) == canon(other@)
    }
}

/// Numeric value of a hexadecimal digit byte, or `Err` for any other byte.
pub fn hex_val(b: u8) -> (r: Result<u8, ()>)
    ensures
        r is Ok <==> is_hex_byte(b),
        r matches Ok(v) ==> v == hex_byte_val(b),
{
    if 48 <= b && b <= 57 {
        Ok(b - 48)
    } else if 97 <= b && b <= 102 {
        Ok(b - 97 + 10)
    } else if 65 <= b && b <= 70 {
        Ok(b - 65 + 10)
    } else {
        Err(())
    }
}

/// The uppercase hexadecimal digit character for a value in `0..=15`.
pub(crate) fn hex_digit(v: u8) -> (c: char)
    requires
        v < 16,
    ensures
        c == hex_digit_char(v as int),
{
    if v < 10 {
        (48 + v) as char
    } else {
        (65 + v - 10) as char
    }
}

impl TallyID {
    /// Canonical (uppercase) rendering, used for display, sorting and file
    /// naming.
    pub fn canonical(&self) -> (r: String)
        ensures
            r@ == canon(self@),
    {
        let s: &str = self.0.as_str();
        let len: usize = s.unicode_len();
        let mut out: String = String::new();
        let mut i: usize = 0;
        while i < len
            invariant
                0 <= i <= len,
                len == s@.len(),
                out@ == canon(s@.take(i as int)),
            decreases len - i,
        {
            let c: char = s.get_char(i);
            push_char(&mut out, to_upper(c));
            proof {
                assert(canon(s@.take(i + 1)) =~= canon(s@.take(i as int)).push(
                    upper_char(s@[i as int]),
                ));
            }
            i = i + 1;
        }
        proof {
            assert(s@.take(len as int) =~= s@);
        }
        out
    }

    /// Case-insensitive equality: true exactly when the canonical forms
    /// agree.
    pub fn eq_canon(&self, other: &TallyID) -> (r: bool)
        ensures
            r == (canon(self@) == canon(other@)),
    {
        let a: &str = self.0.as_str();
        let b: &str = other.0.as_str();
        let a_len: usize = a.unicode_len();
        let b_len: usize = b.unicode_len();
        proof {
            assert(a@ == self@);
            assert(b@ == other@);
        }
        if a_len != b_len {
            proof {
                assert(canon(self@).len() == self@.len());
                assert(canon(other@).len() == other@.len());
            }
            return false;
        }
        let mut i: usize = 0;
        while i < a_len
            invariant
                0 <= i <= a_len,
                a@ == self@,
                b@ == other@,
                a_len == self@.len(),
                a_len == other@.len(),
                forall|j: int| 0 <= j < i ==> canon(self@)[j] == canon(other@)[j],
            decreases a_len - i,
        {
            let ca: char = to_upper(a.get_char(i));
            let cb: char = to_upper(b.get_char(i));
            proof {
                assert(canon(self@)[i as int] == upper_char(self@[i as int]));
                assert(canon(other@)[i as int] == upper_char(other@[i as int]));
            }
            if ca as u32 != cb as u32 {
                proof {
                    assert(ca == canon(self@)[i as int]);
                    assert(cb == canon(other@)[i as int]);
                }
                return false;
            }
            i = i + 1;
        }
        proof {
            assert(canon(self@) =~= canon(other@));
        }
        true
    }

    /// Builds an identifier from its six raw bytes by rendering them as
    /// twelve uppercase hexadecimal digits.  Fails when the slice does not
    /// hold exactly six bytes.
    pub fn from_raw_bytes(raw: &[u8]) -> (r: Result<TallyID, TallyError>)
        ensures
            r is Ok <==> raw@.len() == 6,
            r matches Ok(id) ==> id@ == hex_of_bytes(raw@),
    {
        if raw.len() != 6 {
            return Err(TallyError::MalformedID);
        }
        let mut out: String = String::new();
        let mut i: usize = 0;
        while i < 6
            invariant
                0 <= i <= 6,
                raw@.len() == 6,
                out@ == hex_of_bytes(raw@.take(i as int)),
            decreases 6 - i,
        {
            let b: u8 = raw[i];
            proof {
                assert(b >> 4u8 < 16 && b & 0x0fu8 < 16) by (bit_vector);
            }
            push_char(&mut out, hex_digit(b >> 4));
            push_char(&mut out, hex_digit(b & 0x0f));
            proof {
                lemma_hex_of_bytes_snoc(raw@.take(i as int), raw@[i as int]);
                assert(raw@.take(i + 1) =~= raw@.take(i as int).push(raw@[i as int]));
            }
            i = i + 1;
        }
        proof {
            assert(raw@.take(6) =~= raw@);
        }
        Ok(TallyID(out))
    }

    /// Builds an identifier from twelve ASCII hexadecimal digit bytes, as
    /// delivered by the frame parser, canonicalising letter case.  Fails
    /// when the length or the character set is wrong.
    pub fn from_hex_bytes(payload: &[u8]) -> (r: Result<TallyID, TallyError>)
        ensures
            r is Ok <==> payload@.len() == 12 && forall|i: int|
                0 <= i < payload@.len() ==> is_hex_byte(#[trigger] payload@[i]),
            r matches Ok(id) ==> id@ == canon(chars_of_ascii(payload@)),
    {
        if payload.len() != 12 {
            return Err(TallyError::MalformedID);
        }
        let mut out: String = String::new();
        let mut i: usize = 0;
        while i < 12
            invariant
                0 <= i <= 12,
                payload@.len() == 12,
                forall|j: int| 0 <= j < i ==> is_hex_byte(#[trigger] payload@[j]),
                out@ == canon(chars_of_ascii(payload@.take(i as int))),
            decreases 12 - i,
        {
            let b: u8 = payload[i];
            if hex_val(b).is_err() {
                return Err(TallyError::MalformedID);
            }
            push_char(&mut out, to_upper(b as char));
            proof {
                assert(chars_of_ascii(payload@.take(i + 1)) =~= chars_of_ascii(
                    payload@.take(i as int),
                ).push(payload@[i as int] as char));
                assert(canon(chars_of_ascii(payload@.take(i + 1))) =~= canon(
                    chars_of_ascii(payload@.take(i as int)),
                ).push(upper_char(payload@[i as int] as char)));
            }
            i = i + 1;
        }
        proof {
            assert(payload@.take(12) =~= payload@);
        }
        Ok(TallyID(out))
    }

    /// Decodes the identifier's text back into its six raw bytes.  Fails
    /// unless the text is exactly twelve hexadecimal digits.
    pub fn to_raw_bytes(&self) -> (r: Result<Vec<u8>, TallyError>)
        ensures
            r is Ok <==> self@.len() == 12 && all_hex(self@),
            r matches Ok(bs) ==> bs@ == unhex(self@),
    {
        let s: &str = self.0.as_str();
        let len: usize = s.unicode_len();
        proof {
            assert(s@ == self@);
        }
        if len != 12 {
            return Err(TallyError::MalformedID);
        }
        let mut out: Vec<u8> = Vec::new();
        let mut i: usize = 0;
        while i < 6
            invariant
                0 <= i <= 6,
                s@ == self@,
                len == s@.len(),
                len == 12,
                forall|j: int| 0 <= j < 2 * i ==> is_hex_char(#[trigger] s@[j]),
                out@ == unhex(s@.take(2 * i as int)),
            decreases 6 - i,
        {
            let c0: char = s.get_char(2 * i);
            let c1: char = s.get_char(2 * i + 1);
            let n0: u32 = c0 as u32;
            let n1: u32 = c1 as u32;
            if n0 > 127 || n1 > 127 {
                proof {
                    if n0 > 127 {
                        assert(!is_hex_char(self@[2 * i]));
                    } else {
                        assert(!is_hex_char(self@[2 * i + 1]));
                    }
                }
                return Err(TallyError::MalformedID);
            }
            let v0: u8 = match hex_val(n0 as u8) {
                Ok(v) => v,
                Err(_) => {
                    proof {
                        assert(c0 as u8 == n0 as u8);
                        assert(!is_hex_char(self@[2 * i]));
                    }
                    return Err(TallyError::MalformedID);
                },
            };
            let v1: u8 = match hex_val(n1 as u8) {
                Ok(v) => v,
                Err(_) => {
                    proof {
                        assert(c1 as u8 == n1 as u8);
                        assert(!is_hex_char(self@[2 * i + 1]));
                    }
                    return Err(TallyError::MalformedID);
                },
            };
            out.push(16 * v0 + v1);
            proof {
                assert(c0 as u8 == n0 as u8);
                assert(c1 as u8 == n1 as u8);
                assert(is_hex_char(s@[2 * i]));
                assert(is_hex_char(s@[2 * i + 1]));
                assert(is_hex_char(self@[2 * i]));
                assert(is_hex_char(self@[2 * i + 1]));
                lemma_unhex_snoc(s@.take(2 * i as int), s@[2 * i], s@[2 * i + 1]);
                assert(s@.take(2 * (i + 1)) =~= s@.take(2 * i as int).push(s@[2 * i]).push(
                    s@[2 * i + 1],
                ));
            }
            i = i + 1;
        }
        proof {
            assert(s@.take(12) =~= s@);
        }
        Ok(out)
    }
}

/// Rendering one more byte appends its two digits.
proof fn lemma_hex_of_bytes_snoc(bs: Seq<u8>, b: u8)
    ensures
        hex_of_bytes(bs.push(b)) == hex_of_bytes(bs) + seq![
            hex_digit_char((b >> 4u8) as int),
            hex_digit_char((b & 0x0fu8) as int),
        ],
    decreases bs.len(),
{
    let t = bs.push(b);
    if bs.len() == 0 {
        assert(t[0] == b);
        assert(t.drop_first() =~= Seq::<u8>::empty());
        assert(hex_of_bytes(t) == seq![
            hex_digit_char((t[0] >> 4u8) as int),
            hex_digit_char((t[0] & 0x0fu8) as int),
        ] + hex_of_bytes(t.drop_first()));
        assert(hex_of_bytes(t) =~= hex_of_bytes(bs) + seq![
            hex_digit_char((b >> 4u8) as int),
            hex_digit_char((b & 0x0fu8) as int),
        ]);
    } else {
        assert(t[0] == bs[0]);
        assert(t.drop_first() =~= bs.drop_first().push(b));
        lemma_hex_of_bytes_snoc(bs.drop_first(), b);
        assert(hex_of_bytes(t) == seq![
            hex_digit_char((t[0] >> 4u8) as int),
            hex_digit_char((t[0] & 0x0fu8) as int),
        ] + hex_of_bytes(t.drop_first()));
        assert(hex_of_bytes(t) =~= hex_of_bytes(bs) + seq![
            hex_digit_char((b >> 4u8) as int),
            hex_digit_char((b & 0x0fu8) as int),
        ]);
    }
}

/// Decoding one more digit pair appends its byte.
proof fn lemma_unhex_snoc(s: Seq<char>, c0: char, c1: char)
    requires
        s.len() % 2 == 0,
    ensures
        unhex(s.push(c0).push(c1)) == unhex(s) + seq![
            (16 * hex_char_val(c0) + hex_char_val(c1)) as u8,
        ],
    decreases s.len(),
{
    let t = s.push(c0).push(c1);
    if s.len() == 0 {
        assert(t[0] == c0);
        assert(t[1] == c1);
        assert(t.skip(2) =~= Seq::<char>::empty());
        assert(unhex(t) == seq![(16 * hex_char_val(t[0]) + hex_char_val(t[1])) as u8] + unhex(
            t.skip(2),
        ));
        assert(unhex(t) =~= unhex(s) + seq![(16 * hex_char_val(c0) + hex_char_val(c1)) as u8]);
    } else {
        assert(t[0] == s[0]);
        assert(t[1] == s[1]);
        assert(t.skip(2) =~= s.skip(2).push(c0).push(c1));
        assert(s.skip(2).len() % 2 == 0);
        lemma_unhex_snoc(s.skip(2), c0, c1);
        assert(unhex(t) == seq![(16 * hex_char_val(t[0]) + hex_char_val(t[1])) as u8] + unhex(
            t.skip(2),
        ));
        assert(unhex(s) == seq![(16 * hex_char_val(s[0]) + hex_char_val(s[1])) as u8] + unhex(
            s.skip(2),
        ));
        assert(unhex(t) =~= unhex(s) + seq![(16 * hex_char_val(c0) + hex_char_val(c1)) as u8]);
    }
}

/// Law: the canonical encoding of six raw bytes decodes back to exactly
/// those bytes — the textual and binary forms are a lossless bijection over
/// valid inputs.
pub proof fn lemma_encode_decode_round_trip(bs: Seq<u8>)
    ensures
        hex_of_bytes(bs).len() == 2 * bs.len(),
        all_hex(hex_of_bytes(bs)),
        unhex(hex_of_bytes(bs)) == bs,
    decreases bs.len(),
{
    if bs.len() == 0 {
        assert(unhex(hex_of_bytes(bs)) =~= bs);
    } else {
        let hi = hex_digit_char((bs[0] >> 4u8) as int);
        let lo = hex_digit_char((bs[0] & 0x0fu8) as int);
        let rest = hex_of_bytes(bs.drop_first());
        lemma_encode_decode_round_trip(bs.drop_first());
        let b0: u8 = bs[0];
        assert(b0 >> 4u8 < 16 && b0 & 0x0fu8 < 16) by (bit_vector);
        assert(b0 == 16 * (b0 >> 4u8) + (b0 & 0x0fu8)) by (bit_vector);
        let s = hex_of_bytes(bs);
        assert(s == seq![hi, lo] + rest);
        assert(s[0] == hi && s[1] == lo);
        assert(is_hex_char(hi) && hex_char_val(hi) == bs[0] >> 4u8);
        assert(is_hex_char(lo) && hex_char_val(lo) == bs[0] & 0x0fu8);
        assert forall|i: int| 0 <= i < s.len() implies is_hex_char(#[trigger] s[i]) by {
            if i >= 2 {
                assert(s[i] == rest[i - 2]);
            }
        }
        assert(s.skip(2) =~= rest);
        assert(unhex(s) =~= bs);
    }
}

/// Law: canonicalisation is idempotent, so an identifier and its canonical
/// rendering compare equal under the case-insensitive equality.
pub proof fn lemma_canonical_self_eq(s: Seq<char>)
    ensures
        canon(canon(s)) == canon(s),
{
    assert forall|i: int| 0 <= i < s.len() implies canon(canon(s))[i] == canon(s)[i] by {
        assert(canon(s)[i] == upper_char(s[i]));
        assert(canon(canon(s))[i] == upper_char(upper_char(s[i])));
    }
    assert(canon(canon(s)) =~= canon(s));
}

} // verus!
