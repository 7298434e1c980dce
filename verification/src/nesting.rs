//! How deep the lists and compounds of a document nest.
//!
//! A decoder that descends once for each list and compound can be brought
//! down by a short document that nests deep enough. The scan of this module
//! reads the tags and lengths of a document as the NBT format lays them out
//! and keeps count of the lists and compounds that are open. It does not
//! descend itself: the open lists stand in a vector that grows no longer
//! than the limit.
//!
//! The scan ends where the root compound closes, where the bytes run out or
//! where they cannot be read on: at a tag above 12, a negative length, or a
//! list of `End` that claims elements. What stands behind that place is not
//! looked at.

use crate::region::be32;
use vstd::prelude::*;

verus! {

/// The tag of a list.
pub const TAG_LIST: u8 = 9;

/// The tag of a compound.
pub const TAG_COMPOUND: u8 = 10;

/// The highest tag.
pub const TAG_LAST: u8 = 12;

/// A list or compound that the scan has entered and not left.
#[derive(Clone, Copy, Debug, PartialEq, Eq)]
pub enum Frame {
    /// A compound, which runs up to its `End` tag.
    Compound,
    /// A list with the tag of its elements and the number of elements that
    /// are still to come.
    List { kind: u8, left: u32 },
}

/// What one step of the scan comes to.
pub enum Scan {
    /// The scan is over: the document nests within the limit, or not.
    Done(bool),
    /// The scan goes on at this place with these lists and compounds open.
    Next(int, Seq<Frame>),
}

/// The big-endian number in the two bytes at `at`.
pub open spec fn be16(bytes: Seq<u8>, at: int) -> int {
    bytes[at] as int * 256 + bytes[at + 1] as int
}

/// The signed big-endian number in the four bytes at `at`.
pub open spec fn signed32(bytes: Seq<u8>, at: int) -> int {
    if be32(bytes, at) >= 2147483648 {
        be32(bytes, at) - 4294967296
    } else {
        be32(bytes, at)
    }
}

/// The number of bytes of one element of an array with the tag `kind`.
pub open spec fn array_width(kind: int) -> int {
    if kind == 7 {
        1
    } else if kind == 11 {
        4
    } else {
        8
    }
}

/// Where a value that is no list and no compound ends, if it starts at `at`
/// and has the tag `kind`; `None` where the bytes run out before, the length
/// of an array is negative, or `kind` is no tag of such a value.
pub open spec fn leaf_end(bytes: Seq<u8>, kind: int, at: int) -> Option<int> {
    let width = if kind == 1 {
        1int
    } else if kind == 2 {
        2
    } else if kind == 3 || kind == 5 {
        4
    } else if kind == 4 || kind == 6 {
        8
    } else {
        0
    };
    if width > 0 {
        if at + width <= bytes.len() {
            Some(at + width)
        } else {
            None
        }
    } else if kind == 8 {
        if at + 2 <= bytes.len() && at + 2 + be16(bytes, at) <= bytes.len() {
            Some(at + 2 + be16(bytes, at))
        } else {
            None
        }
    } else if kind == 7 || kind == 11 || kind == 12 {
        if at + 4 <= bytes.len() && signed32(bytes, at) >= 0 && at + 4 + signed32(bytes, at)
            * array_width(kind) <= bytes.len() {
            Some(at + 4 + signed32(bytes, at) * array_width(kind))
        } else {
            None
        }
    } else {
        None
    }
}

/// The step that reads a value with the tag `kind` at `at`. A list or a
/// compound is entered, if the limit leaves room for it; any other value is
/// passed over.
pub open spec fn begin_value(bytes: Seq<u8>, kind: int, at: int, stack: Seq<Frame>, limit: nat) -> Scan {
    if kind == TAG_LIST {
        if at + 5 > bytes.len() || bytes[at] > TAG_LAST || signed32(bytes, at + 1) < 0 || (bytes[at]
            == 0 && signed32(bytes, at + 1) != 0) {
            Scan::Done(true)
        } else if stack.len() >= limit {
            Scan::Done(false)
        } else {
            Scan::Next(
                at + 5,
                stack.push(Frame::List { kind: bytes[at], left: signed32(bytes, at + 1) as u32 }),
            )
        }
    } else if kind == TAG_COMPOUND {
        if stack.len() >= limit {
            Scan::Done(false)
        } else {
            Scan::Next(at, stack.push(Frame::Compound))
        }
    } else {
        match leaf_end(bytes, kind, at) {
            Some(end) => Scan::Next(end, stack),
            None => Scan::Done(true),
        }
    }
}

/// The step that reads the entry of a compound whose tag `kind` stands just
/// before `at`: its name, and then its value.
pub open spec fn begin_entry(bytes: Seq<u8>, kind: int, at: int, stack: Seq<Frame>, limit: nat) -> Scan {
    if at + 2 <= bytes.len() && at + 2 + be16(bytes, at) <= bytes.len() {
        begin_value(bytes, kind, at + 2 + be16(bytes, at), stack, limit)
    } else {
        Scan::Done(true)
    }
}

/// One step of the scan at `at`, where the innermost of the open lists and
/// compounds is the last of `stack`.
///
/// In a compound the step reads a tag: `End` closes the compound, another
/// tag starts an entry. In a list the step closes the list if no element is
/// left, and else reads one element; where the element is a compound, the
/// step enters it and reads its first tag at once.
pub open spec fn scan_step(bytes: Seq<u8>, at: int, stack: Seq<Frame>, limit: nat) -> Scan {
    let outer = stack.drop_last();
    match stack.last() {
        Frame::Compound => if at >= bytes.len() || bytes[at] > TAG_LAST {
            Scan::Done(true)
        } else if bytes[at] == 0 {
            Scan::Next(at + 1, outer)
        } else {
            begin_entry(bytes, bytes[at] as int, at + 1, stack, limit)
        },
        Frame::List { kind, left } => if left == 0 {
            Scan::Next(at, outer)
        } else {
            let rest = outer.push(Frame::List { kind, left: (left - 1) as u32 });
            if kind != TAG_COMPOUND {
                begin_value(bytes, kind as int, at, rest, limit)
            } else if rest.len() >= limit {
                Scan::Done(false)
            } else if at >= bytes.len() || bytes[at] > TAG_LAST {
                Scan::Done(true)
            } else if bytes[at] == 0 {
                Scan::Next(at + 1, rest)
            } else {
                begin_entry(bytes, bytes[at] as int, at + 1, rest.push(Frame::Compound), limit)
            }
        },
    }
}

/// Whether a step moves on: forward in the bytes, or out of a list at the
/// same place.
pub open spec fn moves_on(bytes: Seq<u8>, at: int, stack: Seq<Frame>, next: int, rest: Seq<Frame>) -> bool {
    at < next <= bytes.len() || (next == at && rest.len() < stack.len())
}

/// Whether the scan that stands at `at` with `stack` open comes to its end
/// with never more than `limit` lists and compounds open.
pub open spec fn scan_within(bytes: Seq<u8>, at: int, stack: Seq<Frame>, limit: nat) -> bool
    decreases bytes.len() - at, stack.len(),
{
    if stack.len() == 0 {
        true
    } else {
        match scan_step(bytes, at, stack, limit) {
            Scan::Done(within) => within,
            Scan::Next(next, rest) => if moves_on(bytes, at, stack, next, rest) {
                scan_within(bytes, next, rest, limit)
            } else {
                true
            },
        }
    }
}

/// Whether the lists and compounds of the document in `bytes` nest at most
/// `limit` deep, as far as the document can be read. The root compound
/// counts as one.
pub open spec fn nesting_within(bytes: Seq<u8>, limit: nat) -> bool {
    if bytes.len() < 3 || bytes[0] != TAG_COMPOUND || 3 + be16(bytes, 1) > bytes.len() {
        true
    } else if limit < 1 {
        false
    } else {
        scan_within(bytes, 3 + be16(bytes, 1), seq![Frame::Compound], limit)
    }
}

/// Every step of the scan moves on, so the scan comes to an end.
pub proof fn lemma_step_moves_on(bytes: Seq<u8>, at: int, stack: Seq<Frame>, limit: nat)
    requires
        0 <= at <= bytes.len(),
        stack.len() > 0,
    ensures
        match scan_step(bytes, at, stack, limit) {
            Scan::Done(_) => true,
            Scan::Next(next, rest) => moves_on(bytes, at, stack, next, rest) && (rest.len()
                <= limit || rest.len() <= stack.len()),
        },
{
}

/// Reads the two-byte big-endian number at `at`.
fn read_be16(bytes: &[u8], at: usize) -> (r: usize)
    requires
        at + 2 <= bytes@.len(),
    ensures
        r == be16(bytes@, at as int),
        r < 65536,
{
    bytes[at] as usize * 256 + bytes[at + 1] as usize
}

/// Reads the signed four-byte big-endian number at `at`.
fn read_signed32(bytes: &[u8], at: usize) -> (r: i64)
    requires
        at + 4 <= bytes@.len(),
    ensures
        r == signed32(bytes@, at as int),
        -2147483648 <= r < 2147483648,
{
    let unsigned: i64 = bytes[at] as i64 * 16777216 + bytes[at + 1] as i64 * 65536 + bytes[at
        + 2] as i64 * 256 + bytes[at + 3] as i64;
    if unsigned >= 2147483648 {
        unsigned - 4294967296
    } else {
        unsigned
    }
}

/// Finds where a value that is no list and no compound ends.
fn find_leaf_end(bytes: &[u8], kind: u8, at: usize) -> (r: Option<usize>)
    requires
        at <= bytes@.len(),
    ensures
        match r {
            Some(end) => leaf_end(bytes@, kind as int, at as int) == Some(end as int) && at < end
                <= bytes@.len(),
            None => leaf_end(bytes@, kind as int, at as int) is None,
        },
{
    let room: usize = bytes.len() - at;
    let width: usize = if kind == 1 {
        1
    } else if kind == 2 {
        2
    } else if kind == 3 || kind == 5 {
        4
    } else if kind == 4 || kind == 6 {
        8
    } else {
        0
    };
    if width > 0 {
        if width <= room {
            Some(at + width)
        } else {
            None
        }
    } else if kind == 8 {
        if room < 2 {
            return None;
        }
        let len: usize = read_be16(bytes, at);
        if len <= room - 2 {
            Some(at + 2 + len)
        } else {
            None
        }
    } else if kind == 7 || kind == 11 || kind == 12 {
        if room < 4 {
            return None;
        }
        let count: i64 = read_signed32(bytes, at);
        if count < 0 {
            return None;
        }
        let each: i64 = if kind == 7 {
            1
        } else if kind == 11 {
            4
        } else {
            8
        };
        let size: u64 = (count * each) as u64;
        if size <= (room - 4) as u64 {
            Some(at + 4 + size as usize)
        } else {
            None
        }
    } else {
        None
    }
}

/// What one step of the running scan comes to.
enum Step {
    Done(bool),
    Next(usize),
}

/// Reads a value with the tag `kind` at `at` and enters it if it is a list
/// or a compound.
fn enter_value(bytes: &[u8], kind: u8, at: usize, stack: &mut Vec<Frame>, limit: usize) -> (r:
    Step)
    requires
        at <= bytes@.len(),
    ensures
        match r {
            Step::Done(within) => begin_value(
                bytes@,
                kind as int,
                at as int,
                old(stack)@,
                limit as nat,
            ) == Scan::Done(within) && final(stack)@ == old(stack)@,
            Step::Next(next) => begin_value(
                bytes@,
                kind as int,
                at as int,
                old(stack)@,
                limit as nat,
            ) == Scan::Next(next as int, final(stack)@) && at <= next <= bytes@.len() && (kind
                != TAG_COMPOUND ==> at < next) && final(stack)@.len() <= old(stack)@.len() + 1,
        },
{
    if kind == TAG_LIST {
        if bytes.len() - at < 5 {
            return Step::Done(true);
        }
        let element: u8 = bytes[at];
        let count: i64 = read_signed32(bytes, at + 1);
        if element > TAG_LAST || count < 0 || (element == 0 && count != 0) {
            return Step::Done(true);
        }
        if stack.len() >= limit {
            return Step::Done(false);
        }
        stack.push(Frame::List { kind: element, left: count as u32 });
        Step::Next(at + 5)
    } else if kind == TAG_COMPOUND {
        if stack.len() >= limit {
            return Step::Done(false);
        }
        stack.push(Frame::Compound);
        Step::Next(at)
    } else {
        match find_leaf_end(bytes, kind, at) {
            Some(end) => Step::Next(end),
            None => Step::Done(true),
        }
    }
}

/// Reads the name of an entry at `at` and then its value with the tag
/// `kind`.
fn enter_entry(bytes: &[u8], kind: u8, at: usize, stack: &mut Vec<Frame>, limit: usize) -> (r:
    Step)
    requires
        at <= bytes@.len(),
    ensures
        match r {
            Step::Done(within) => begin_entry(
                bytes@,
                kind as int,
                at as int,
                old(stack)@,
                limit as nat,
            ) == Scan::Done(within) && final(stack)@ == old(stack)@,
            Step::Next(next) => begin_entry(
                bytes@,
                kind as int,
                at as int,
                old(stack)@,
                limit as nat,
            ) == Scan::Next(next as int, final(stack)@) && at < next <= bytes@.len()
                && final(stack)@.len() <= old(stack)@.len() + 1,
        },
{
    let room: usize = bytes.len() - at;
    if room < 2 {
        return Step::Done(true);
    }
    let len: usize = read_be16(bytes, at);
    if len > room - 2 {
        return Step::Done(true);
    }
    enter_value(bytes, kind, at + 2 + len, stack, limit)
}

/// Tells whether the lists and compounds of a document nest at most `limit`
/// deep, as far as the document can be read.
///
/// The scan walks the document once, from tag to tag, and holds the lists
/// and compounds that are open in a vector of at most `limit` entries.
pub fn nests_within(bytes: &[u8], limit: usize) -> (r: bool)
    ensures
        r == nesting_within(bytes@, limit as nat),
{
    let total: usize = bytes.len();
    if total < 3 || bytes[0] != TAG_COMPOUND {
        return true;
    }
    let name: usize = read_be16(bytes, 1);
    if name > total - 3 {
        return true;
    }
    if limit < 1 {
        return false;
    }
    let mut at: usize = 3 + name;
    let mut stack: Vec<Frame> = Vec::new();
    stack.push(Frame::Compound);
    assert(stack@ =~= seq![Frame::Compound]);
    loop
        invariant
            total == bytes@.len(),
            at <= total,
            stack@.len() <= limit,
            scan_within(bytes@, at as int, stack@, limit as nat) == nesting_within(
                bytes@,
                limit as nat,
            ),
        decreases total - at, stack@.len(),
    {
        let ghost before = stack@;
        let ghost here = at as int;
        let top: Frame = match stack.pop() {
            Some(top) => top,
            None => {
                return true;
            },
        };
        proof {
            assert(stack@ == before.drop_last());
            assert(top == before.last());
        }
        let step: Step = match top {
            Frame::Compound => {
                if at >= total || bytes[at] > TAG_LAST {
                    Step::Done(true)
                } else if bytes[at] == 0 {
                    Step::Next(at + 1)
                } else {
                    stack.push(Frame::Compound);
                    proof {
                        assert(stack@ =~= before);
                    }
                    enter_entry(bytes, bytes[at], at + 1, &mut stack, limit)
                }
            },
            Frame::List { kind, left } => {
                if left == 0 {
                    Step::Next(at)
                } else {
                    stack.push(Frame::List { kind, left: left - 1 });
                    if kind != TAG_COMPOUND {
                        enter_value(bytes, kind, at, &mut stack, limit)
                    } else if stack.len() >= limit {
                        Step::Done(false)
                    } else if at >= total || bytes[at] > TAG_LAST {
                        Step::Done(true)
                    } else if bytes[at] == 0 {
                        Step::Next(at + 1)
                    } else {
                        stack.push(Frame::Compound);
                        enter_entry(bytes, bytes[at], at + 1, &mut stack, limit)
                    }
                }
            },
        };
        match step {
            Step::Done(within) => {
                proof {
                    assert(scan_step(bytes@, here, before, limit as nat) == Scan::Done(within));
                }
                return within;
            },
            Step::Next(next) => {
                proof {
                    assert(scan_step(bytes@, here, before, limit as nat) == Scan::Next(
                        next as int,
                        stack@,
                    ));
                    assert(moves_on(bytes@, here, before, next as int, stack@));
                }
                at = next;
            },
        }
    }
}

} // verus!
