//! The serial frame parser: pulls a tag identifier out of a raw byte
//! buffer freshly read from the reader's UART.
//!
//! A frame is a start-of-text byte, twelve identifier bytes, and an
//! end-of-text byte.  Anything before the first complete frame is garbage
//! and is skipped; a buffer without a complete frame is a normal empty
//! read, not an error.

use vstd::prelude::*;

verus! {

/// Whether a complete frame begins at position `i` of the buffer: the
/// start marker, twelve payload bytes, and the end marker.
pub open spec fn frame_at(buffer: Seq<u8>, i: int) -> bool {
    &&& 0 <= i
    &&& i + 13 < buffer.len()
    &&& buffer[i] == 2
    &&& buffer[i + 13] == 3
}

/// Scans the UART output and returns the first proper read ID.
/// This ensures that only valid IDs are parsed.
///
/// A valid read looks like this:
/// The first byte is always 0x02 (Start of text),
/// followed by 12 bytes of characters,
/// ended by 0x03 (End of text).
pub fn extract_id(buffer: &[u8]) -> (r: Option<Vec<u8>>)
    ensures
        r is Some <==> exists|i: int| frame_at(buffer@, i),
        r matches Some(id) ==> exists|i: int|
            {
                &&& #[trigger] frame_at(buffer@, i)
                &&& forall|j: int| 0 <= j < i ==> !frame_at(buffer@, j)
                &&& id@ == buffer@.subrange(i + 1, i + 13)
            },
{
    let n: usize = buffer.len();
    if n < 14 {
        proof {
            assert forall|i: int| !frame_at(buffer@, i) by {}
        }
        return None;
    }
    let mut ws: usize = 0;
    while ws <= n - 14
        invariant
            14 <= n,
            n == buffer@.len(),
            0 <= ws <= n - 13,
            forall|j: int| 0 <= j < ws ==> !frame_at(buffer@, j),
        decreases n - ws,
    {
        if buffer[ws] == 2 {
            let id_end: usize = ws + 13;
            if buffer[id_end] == 3 {
                let mut id: Vec<u8> = Vec::new();
                let mut t: usize = ws + 1;
                while t < id_end
                    invariant
                        ws + 1 <= t <= id_end,
                        id_end == ws + 13,
                        id_end < n,
                        n == buffer@.len(),
                        id@ == buffer@.subrange(ws + 1, t as int),
                    decreases id_end - t,
                {
                    id.push(buffer[t]);
                    proof {
                        assert(buffer@.subrange(ws + 1, t + 1) =~= buffer@.subrange(
                            ws + 1,
                            t as int,
                        ).push(buffer@[t as int]));
                    }
                    t = t + 1;
                }
                proof {
                    assert(frame_at(buffer@, ws as int));
                }
                return Some(id);
            }
        }
        proof {
            assert(!frame_at(buffer@, ws as int));
        }
        ws = ws + 1;
    }
    proof {
        assert forall|i: int| !frame_at(buffer@, i) by {
            if 0 <= i < ws {
            } else if i > n - 14 {
                assert(!(i + 13 < n));
            }
        }
    }
    None
}

} // verus!
