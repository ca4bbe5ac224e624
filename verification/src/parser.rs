//! The line parser for the external reader's text output.
//!
//! A line that announces a read carries the literal marker `[+] UID`,
//! four arbitrary characters, a space, and then the identifier, which
//! runs to the end of the line.  Any other line is ignored.

use vstd::prelude::*;
use vstd::string::StrSliceExecFns;

use crate::text::push_char;

verus! {

/// Whether a line of reader output announces a UID.
pub open spec fn uid_line_matches(s: Seq<char>) -> bool {
    &&& s.len() >= 12
    &&& s.subrange(0, 7) == "[+] UID"@
    &&& s[11] == ' '
}

/// Parses the output of PM3 and finds the read IDs.
/// Example input: `[+] UID.... 3112B710`
pub fn parse_line(line: &str) -> (r: Option<String>)
    ensures
        r is Some <==> uid_line_matches(line@),
        r matches Some(uid) ==> uid@ == line@.subrange(12, line@.len() as int),
{
    proof {
        reveal_strlit("[+] UID");
    }
    let len: usize = line.unicode_len();
    if len < 12 {
        return None;
    }
    let mut k: usize = 0;
    while k < 7
        invariant
            0 <= k <= 7,
            len == line@.len(),
            len >= 12,
            forall|j: int| 0 <= j < k ==> line@[j] == "[+] UID"@[j],
        decreases 7 - k,
    {
        let c: char = line.get_char(k);
        let want: char = marker_char(k);
        if c != want {
            proof {
                assert(line@.subrange(0, 7)[k as int] == line@[k as int]);
            }
            return None;
        }
        k = k + 1;
    }
    if line.get_char(11) != ' ' {
        return None;
    }
    let mut uid: String = String::new();
    let mut i: usize = 12;
    while i < len
        invariant
            12 <= i <= len,
            len == line@.len(),
            uid@ == line@.subrange(12, i as int),
        decreases len - i,
    {
        push_char(&mut uid, line.get_char(i));
        proof {
            assert(line@.subrange(12, i + 1) =~= line@.subrange(12, i as int).push(
                line@[i as int],
            ));
        }
        i = i + 1;
    }
    proof {
        assert(line@.subrange(0, 7) =~= "[+] UID"@);
    }
    Some(uid)
}

/// The marker's character at the given position.
fn marker_char(k: usize) -> (c: char)
    requires
        k < 7,
    ensures
        c == "[+] UID"@[k as int],
{
    proof {
        reveal_strlit("[+] UID");
    }
    if k == 0 {
        '['
    } else if k == 1 {
        '+'
    } else if k == 2 {
        ']'
    } else if k == 3 {
        ' '
    } else if k == 4 {
        'U'
    } else if k == 5 {
        'I'
    } else {
        'D'
    }
}

} // verus!
