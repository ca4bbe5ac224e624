//! The calendar day used as the attendance grouping key.
//!
//! A day is a whole-day count since the Unix epoch.  Its canonical textual
//! key is the fixed-width eight-digit uppercase hexadecimal rendering, used
//! both as the column label of the report and as the stem of per-day file
//! names on block storage.

use vstd::prelude::*;
use vstd::string::StrSliceExecFns;
use vstd::string::StringExecFns;

use vstd::arithmetic::div_mod::{
    lemma_div_nonincreasing, lemma_div_pos_is_pos, lemma_fundamental_div_mod,
};

use crate::text::{hex_char_val, hex_digit_char, is_hex_char, push_char};

verus! {

/// Rust's truncating division, for a positive divisor.
pub open spec fn tdiv(a: int, b: int) -> int {
    if a >= 0 {
        a / b
    } else {
        -((-a) / b)
    }
}

/// The proleptic Gregorian date denoted by a day count from the era base
/// (day 60 is the first day of year zero's March), mirroring the civil
/// conversion step by step with truncating division.
pub open spec fn civil_parts(z: int) -> (int, int, int) {
    let zs = z - 60;
    let era = tdiv(
        if zs >= 0 {
            zs
        } else {
            zs - 146096
        },
        146097,
    );
    let doe = zs - era * 146097;
    let yoe = tdiv(doe - tdiv(doe, 1460) + tdiv(doe, 36524) - tdiv(doe, 146096), 365);
    let y = yoe + era * 400;
    let doy = doe - (365 * yoe + tdiv(yoe, 4) - tdiv(yoe, 100));
    let mp = tdiv(5 * doy + 2, 153);
    let d = doy - tdiv(153 * mp + 2, 5) + 1;
    let m = if mp < 10 {
        mp + 3
    } else {
        mp - 9
    };
    ((if m <= 2 {
        y + 1
    } else {
        y
    }), m, d)
}

/// The magnitude of a truncated quotient never exceeds the dividend's.
proof fn lemma_tdiv_magnitude(a: int, b: int)
    requires
        b >= 1,
    ensures
        a >= 0 ==> 0 <= tdiv(a, b) <= a,
        a < 0 ==> a <= tdiv(a, b) <= 0,
{
    if a >= 0 {
        lemma_div_pos_is_pos(a, b);
        lemma_div_nonincreasing(a, b);
    } else {
        lemma_div_pos_is_pos(-a, b);
        lemma_div_nonincreasing(-a, b);
    }
}

/// Seconds in one calendar day.
pub const SECONDS_PER_DAY: u64 = 86400;

/// A calendar day, counted in whole days since the Unix epoch.
#[derive(Clone, Copy, Debug, PartialEq, Eq, Structural)]
pub struct Day(pub u32);

/// The canonical fixed-width key of a day: eight uppercase hexadecimal
/// digits, most significant first.
pub open spec fn day_key(d: u32) -> Seq<char> {
    Seq::new(8, |i: int| hex_digit_char(((d >> (4 * (7 - i)) as u32) & 0xfu32) as int))
}

/// The number encoded by a big-endian sequence of hexadecimal digits.
pub open spec fn hex_num(s: Seq<char>) -> int
    decreases s.len(),
{
    if s.len() == 0 {
        0
    } else {
        16 * hex_num(s.take(s.len() - 1)) + hex_char_val(s[s.len() - 1])
    }
}

/// `16^n`.
pub open spec fn pow16(n: int) -> int
    decreases n,
{
    if n <= 0 {
        1
    } else {
        16 * pow16(n - 1)
    }
}

proof fn lemma_pow16_mono(a: int, b: int)
    requires
        a <= b,
    ensures
        pow16(a) <= pow16(b),
    decreases b - a,
{
    if a < b {
        lemma_pow16_mono(a, b - 1);
        assert(pow16(b - 1) >= 1) by {
            lemma_pow16_pos(b - 1);
        }
    }
}

proof fn lemma_pow16_pos(n: int)
    ensures
        pow16(n) >= 1,
    decreases n,
{
    if n > 0 {
        lemma_pow16_pos(n - 1);
    }
}

/// A big-endian hexadecimal number is bounded by `16^len`.
proof fn lemma_hex_num_bound(s: Seq<char>)
    requires
        forall|i: int| 0 <= i < s.len() ==> is_hex_char(#[trigger] s[i]),
    ensures
        0 <= hex_num(s) < pow16(s.len() as int),
    decreases s.len(),
{
    if s.len() > 0 {
        let t = s.take(s.len() - 1);
        assert(forall|i: int| 0 <= i < t.len() ==> is_hex_char(#[trigger] t[i]));
        lemma_hex_num_bound(t);
        assert(hex_char_val(s[s.len() - 1]) < 16);
    }
}

impl Day {
    /// Wraps a raw day-stamp.
    pub fn new(daystamp: u32) -> (r: Self)
        ensures
            r.0 == daystamp,
    {
        Day(daystamp)
    }

    /// The day a Unix timestamp falls in; day-stamps beyond the
    /// representable range are capped.
    pub fn new_from_timestamp(time: u64) -> (r: Self)
        ensures
            time as int / (SECONDS_PER_DAY as int) <= u32::MAX as int ==> r.0 == time as int
                / (SECONDS_PER_DAY as int),
            time as int / (SECONDS_PER_DAY as int) > u32::MAX as int ==> r.0 == u32::MAX,
    {
        let day: u64 = time / SECONDS_PER_DAY;
        if day > u32::MAX as u64 {
            Day(u32::MAX)
        } else {
            Day(day as u32)
        }
    }

    /// The first second of the day, as a Unix timestamp.
    pub fn to_timestamp(self) -> (r: u64)
        ensures
            r == self.0 as int * SECONDS_PER_DAY as int,
    {
        (self.0 as u64) * SECONDS_PER_DAY
    }

    /// The canonical eight-digit uppercase hexadecimal key of the day.
    pub fn to_string(self) -> (r: String)
        ensures
            r@ == day_key(self.0),
    {
        let d: u32 = self.0;
        let mut out: String = String::new();
        let mut k: usize = 0;
        while k < 8
            invariant
                0 <= k <= 8,
                out@.len() == k,
                forall|j: int| 0 <= j < k ==> out@[j] == day_key(d)[j],
            decreases 8 - k,
        {
            let shift: u32 = 28 - 4 * (k as u32);
            let nib: u32 = (d >> shift) & 0xf;
            proof {
                let dd: u32 = d;
                let sh: u32 = shift;
                assert((dd >> sh) & 0xfu32 < 16) by (bit_vector);
            }
            push_char(&mut out, crate::tally_id::hex_digit(nib as u8));
            proof {
                assert((4 * (7 - k as int)) as u32 == shift);
                assert(day_key(d)[k as int] == hex_digit_char((nib as u8) as int));
            }
            k = k + 1;
        }
        proof {
            assert(out@ =~= day_key(d));
        }
        out
    }

    /// The name of the per-day file on block storage: the canonical day key
    /// with a `.js` extension.
    pub fn filename(self) -> (r: String)
        ensures
            r@ == day_key(self.0) + ".js"@,
    {
        let mut name: String = self.to_string();
        name.append(".js");
        name
    }

    /// Parses a day from its (up to eight digit) hexadecimal key.  Fails on
    /// an empty string, a string longer than eight characters, and any
    /// non-hexadecimal character.
    pub fn from_hex_str(s: &str) -> (r: Result<Self, &'static str>)
        ensures
            r is Ok <==> 1 <= s@.len() <= 8 && forall|i: int|
                0 <= i < s@.len() ==> is_hex_char(#[trigger] s@[i]),
            r matches Ok(d) ==> d.0 == hex_num(s@),
    {
        let len: usize = s.unicode_len();
        if len > 8 {
            return Err("hex string too long");
        }
        if len == 0 {
            return Err("invalid hex string");
        }
        let mut val: u32 = 0;
        let mut i: usize = 0;
        while i < len
            invariant
                0 <= i <= len,
                1 <= len <= 8,
                len == s@.len(),
                forall|j: int| 0 <= j < i ==> is_hex_char(#[trigger] s@[j]),
                val == hex_num(s@.take(i as int)),
            decreases len - i,
        {
            let c: char = s.get_char(i);
            let n: u32 = c as u32;
            if n > 127 {
                proof {
                    assert(!is_hex_char(s@[i as int]));
                }
                return Err("invalid hex string");
            }
            let digit: u8 = match crate::tally_id::hex_val(n as u8) {
                Ok(v) => v,
                Err(_) => {
                    proof {
                        assert(c as u8 == n as u8);
                        assert(!is_hex_char(s@[i as int]));
                    }
                    return Err("invalid hex string");
                },
            };
            proof {
                assert(c as u8 == n as u8);
                assert(is_hex_char(s@[i as int]));
                assert(hex_char_val(s@[i as int]) == digit);
                let t = s@.take(i as int);
                assert(forall|j: int| 0 <= j < t.len() ==> is_hex_char(#[trigger] t[j]));
                lemma_hex_num_bound(t);
                lemma_pow16_mono(i as int, 7);
                reveal_with_fuel(pow16, 9);
                assert(pow16(7) == 268435456);
                let t1 = s@.take(i + 1);
                assert(t1.take(t1.len() - 1) =~= t);
                assert(t1[t1.len() - 1] == s@[i as int]);
            }
            val = 16 * val + digit as u32;
            i = i + 1;
        }
        proof {
            assert(s@.take(len as int) =~= s@);
        }
        Ok(Day(val))
    }
}

/// This function returns (year, month, day) for a day count from the
/// era base used by [`civil_parts`].
/// Based on the algorithm by Howard Hinnant.
pub fn civil_from_days(z: i64) -> (r: (u16, u8, u8))
    requires
        -365000000000 <= z <= 365000000000,
    ensures
        ({
            let parts = civil_parts(z as int);
            &&& 0 <= parts.0 < 0x10000 ==> r.0 == parts.0
            &&& 0 <= parts.1 < 0x100 ==> r.1 == parts.1
            &&& 0 <= parts.2 < 0x100 ==> r.2 == parts.2
        }),
{
    let zs: i64 = z - 60;
    let q: i64 = if zs >= 0 {
        zs
    } else {
        zs - 146096
    };
    proof {
        lemma_tdiv_magnitude(q as int, 146097);
    }
    let era: i64 = q / 146097;
    let doe: i64 = zs - era * 146097;
    proof {
        if zs >= 0 {
            lemma_fundamental_div_mod(zs as int, 146097);
        } else {
            let n: int = 146096 - zs;
            lemma_fundamental_div_mod(n, 146097);
            assert(era as int == -(n / 146097));
            assert(doe as int == 146096 - n % 146097);
        }
        assert(0 <= doe <= 146096);
        lemma_div_pos_is_pos(doe as int, 1460);
        lemma_div_pos_is_pos(doe as int, 36524);
        lemma_div_pos_is_pos(doe as int, 146096);
        lemma_div_nonincreasing(doe as int, 1460);
        lemma_div_nonincreasing(doe as int, 36524);
        lemma_div_nonincreasing(doe as int, 146096);
    }
    let yoe: i64 = (doe - doe / 1460 + doe / 36524 - doe / 146096) / 365;
    proof {
        lemma_tdiv_magnitude((doe - doe / 1460 + doe / 36524 - doe / 146096) as int, 365);
        lemma_tdiv_magnitude(yoe as int, 4);
        lemma_tdiv_magnitude(yoe as int, 100);
    }
    let y: i64 = yoe + era * 400;
    let doy: i64 = doe - (365 * yoe + yoe / 4 - yoe / 100);
    proof {
        lemma_tdiv_magnitude((5 * doy + 2) as int, 153);
    }
    let mp: i64 = (5 * doy + 2) / 153;
    proof {
        lemma_tdiv_magnitude((153 * mp + 2) as int, 5);
    }
    let d: i64 = doy - (153 * mp + 2) / 5 + 1;
    let m: i64 = if mp < 10 {
        mp + 3
    } else {
        mp - 9
    };
    let year: i64 = if m <= 2 {
        y + 1
    } else {
        y
    };
    proof {
        let parts = civil_parts(z as int);
        assert(year as int == parts.0);
        assert(m as int == parts.1);
        assert(d as int == parts.2);
    }
    (clip_u16(year), clip_u8(m), clip_u8(d))
}

/// Narrows to sixteen bits: exact in range, truncating like the
/// conversion operator otherwise.
fn clip_u16(x: i64) -> (r: u16)
    ensures
        0 <= x < 0x10000 ==> r == x,
{
    if 0 <= x && x < 0x10000 {
        x as u16
    } else {
        #[verifier::truncate]
        (x as u16)
    }
}

/// Narrows to eight bits: exact in range, truncating like the conversion
/// operator otherwise.
fn clip_u8(x: i64) -> (r: u8)
    ensures
        0 <= x < 0x100 ==> r == x,
{
    if 0 <= x && x < 0x100 {
        x as u8
    } else {
        #[verifier::truncate]
        (x as u8)
    }
}

/// The date of a Unix timestamp shifted one hour east of UTC, as
/// (year, month, day) in the scheme of [`civil_parts`] under the fixed
/// epoch day offset.
pub fn unix_to_ymd_string(timestamp: u64) -> (r: (u16, u8, u8))
    requires
        timestamp <= 31000000000000000,
    ensures
        ({
            let parts = civil_parts((timestamp + 3600) as int / 86400 + 719163);
            &&& 0 <= parts.0 < 0x10000 ==> r.0 == parts.0
            &&& 0 <= parts.1 < 0x100 ==> r.1 == parts.1
            &&& 0 <= parts.2 < 0x100 ==> r.2 == parts.2
        }),
{
    let ts: u64 = timestamp + 3600;
    let days_since_epoch: u64 = ts / 86400;
    civil_from_days(days_since_epoch as i64 + 719163)
}

} // verus!
