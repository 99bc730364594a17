//! The items that canonical CBOR is made of, as far as telling where each
//! begins and ends: every length is given up front, so an item is a head,
//! the bytes of its own, and the items it holds.

use vstd::prelude::*;

use crate::sync::encoding::{head_at, read_head};

verus! {

/// The item whose head stands at `at`: how many bytes are its own, its head
/// among them, and how many items it holds. `None` where no head stands, or
/// the bytes break off.
pub open spec fn item_at(bytes: Seq<u8>, at: int) -> Option<(int, nat)> {
    if at < 0 || at >= bytes.len() {
        None
    } else {
        let kind = (bytes[at] / 0x20) as u8;
        match head_at(bytes, at, kind) {
            None => None,
            Some((n, len)) => if kind == 2 || kind == 3 {
                // The bytes of a string are its own.
                if at + len + n <= bytes.len() {
                    Some((len + n, 0))
                } else {
                    None
                }
            } else if kind == 4 {
                Some((len as int, n as nat))
            } else if kind == 5 {
                // A map holds a key and a value for each pair.
                Some((len as int, (2 * n) as nat))
            } else if kind == 6 {
                // A tag holds what it marks.
                Some((len as int, 1))
            } else if bytes[at] == 0xf8 && n < 32 {
                // These simple values fit the head itself.
                None
            } else {
                Some((len as int, 0))
            },
        }
    }
}

/// Whether from `at` on stand `n` items, one after the other, and nothing
/// else.
pub open spec fn items_from(bytes: Seq<u8>, at: int, n: nat) -> bool
    decreases bytes.len() - at,
{
    if n == 0 {
        at == bytes.len()
    } else {
        match item_at(bytes, at) {
            Some((own, held)) => own > 0 && at + own <= bytes.len() && items_from(
                bytes,
                at + own,
                (n - 1 + held) as nat,
            ),
            None => false,
        }
    }
}

/// Whether `bytes` are `n` items, one after the other, and nothing else.
pub open spec fn are_items(bytes: Seq<u8>, n: nat) -> bool {
    items_from(bytes, 0, n)
}

/// Items take a byte each, at the least.
pub proof fn items_take_room(bytes: Seq<u8>, at: int, n: nat)
    requires
        items_from(bytes, at, n),
    ensures
        at + n <= bytes.len(),
    decreases bytes.len() - at,
{
    if n > 0 {
        let (own, held) = item_at(bytes, at)->0;
        items_take_room(bytes, at + own, (n - 1 + held) as nat);
    }
}

/// An item stands wherever its bytes do, whatever is around them.
proof fn items_stand_anywhere(before: Seq<u8>, bytes: Seq<u8>, after: Seq<u8>, at: int)
    requires
        item_at(bytes, at) is Some,
    ensures
        item_at(before + bytes + after, before.len() + at) == item_at(bytes, at),
{
    let all = before + bytes + after;
    let there = before.len() + at;
    assert forall|i: int| 0 <= i < bytes.len() implies all[before.len() + i] == #[trigger] bytes[i] by {}
    assert(all[there] == bytes[at]);
    let kind = (bytes[at] / 0x20) as u8;
    let (n, len) = head_at(bytes, at, kind)->0;
    if len >= 2 {
        assert(all[there + 1] == bytes[at + 1]);
    }
    if len >= 3 {
        assert(all[there + 2] == bytes[at + 2]);
    }
    if len >= 5 {
        assert(all[there + 3] == bytes[at + 3]);
        assert(all[there + 4] == bytes[at + 4]);
    }
    if len >= 9 {
        assert(all[there + 5] == bytes[at + 5]);
        assert(all[there + 6] == bytes[at + 6]);
        assert(all[there + 7] == bytes[at + 7]);
        assert(all[there + 8] == bytes[at + 8]);
    }
    assert(head_at(all, there, kind) == head_at(bytes, at, kind));
}

/// Items with more items after them.
proof fn items_go_on(bytes: Seq<u8>, at: int, n: nat, more: Seq<u8>, m: nat)
    requires
        items_from(bytes, at, n),
        0 <= at,
        are_items(more, m),
    ensures
        items_from(bytes + more, at, n + m),
    decreases bytes.len() - at,
{
    let all = bytes + more;
    if n == 0 {
        items_start_later(bytes, more, 0, m);
    } else {
        let (own, held) = item_at(bytes, at)->0;
        items_stand_anywhere(Seq::empty(), bytes, more, at);
        assert(Seq::<u8>::empty() + bytes + more =~= all);
        items_go_on(bytes, at + own, (n - 1 + held) as nat, more, m);
        assert((n - 1 + held) as nat + m == (n + m - 1 + held) as nat);
    }
}

/// Items with other bytes before them.
proof fn items_start_later(before: Seq<u8>, bytes: Seq<u8>, at: int, n: nat)
    requires
        items_from(bytes, at, n),
    ensures
        items_from(before + bytes, before.len() + at, n),
    decreases bytes.len() - at,
{
    let all = before + bytes;
    if n > 0 {
        let (own, held) = item_at(bytes, at)->0;
        items_stand_anywhere(before, bytes, Seq::empty(), at);
        assert(before + bytes + Seq::<u8>::empty() =~= all);
        items_start_later(before, bytes, at + own, (n - 1 + held) as nat);
    }
}

/// So many items, and so many after them, are that many in all.
pub proof fn items_add_up(bytes: Seq<u8>, n: nat, more: Seq<u8>, m: nat)
    requires
        are_items(bytes, n),
        are_items(more, m),
    ensures
        are_items(bytes + more, n + m),
{
    items_go_on(bytes, 0, n, more, m);
}

/// Reads the item whose head stands at `at`, as [`item_at`] tells of it.
fn read_item(bytes: &Vec<u8>, at: usize) -> (item: Option<(usize, u64, bool)>)
    requires
        at < bytes@.len(),
    ensures
        match item {
            Some((own, n, pairs)) => item_at(bytes@, at as int) == Some(
                (own as int, (if pairs { 2 * n } else { n as int }) as nat),
            ) && 1 <= own && at + own <= bytes@.len(),
            None => item_at(bytes@, at as int) is None,
        },
{
    let kind: u8 = bytes[at] / 0x20;
    match read_head(bytes, at, kind) {
        None => None,
        Some((n, len)) => {
            let room: usize = bytes.len() - at - len;
            if kind == 2 || kind == 3 {
                if n <= room as u64 {
                    Some((len + n as usize, 0, false))
                } else {
                    None
                }
            } else if kind == 4 {
                Some((len, n, false))
            } else if kind == 5 {
                Some((len, n, true))
            } else if kind == 6 {
                Some((len, 1, false))
            } else if bytes[at] == 0xf8 && n < 32 {
                None
            } else {
                Some((len, 0, false))
            }
        },
    }
}

/// Tests whether `bytes` are `count` items and nothing else.
pub fn holds_items(bytes: &Vec<u8>, count: u64) -> (holds: bool)
    ensures
        holds == are_items(bytes@, count as nat),
{
    let end: usize = bytes.len();
    if count > end as u64 {
        proof {
            if are_items(bytes@, count as nat) {
                items_take_room(bytes@, 0, count as nat);
            }
        }
        return false;
    }
    let mut at: usize = 0;
    let mut due: usize = count as usize;
    while due > 0
        invariant
            end == bytes@.len(),
            at + due <= end,
            are_items(bytes@, count as nat) == items_from(bytes@, at as int, due as nat),
        decreases end - at,
    {
        match read_item(bytes, at) {
            None => {
                return false;
            },
            Some((own, n, pairs)) => {
                let ghost held = (if pairs { 2 * n } else { n as int }) as nat;
                proof {
                    if items_from(bytes@, at + own, (due - 1 + held) as nat) {
                        items_take_room(bytes@, at + own, (due - 1 + held) as nat);
                    }
                }
                let room: usize = end - at - own;
                if due - 1 > room {
                    return false;
                }
                let spare: u64 = (room - (due - 1)) as u64;
                if n > spare || (pairs && n > spare - n) {
                    return false;
                }
                at += own;
                due = due - 1 + n as usize;
                if pairs {
                    due += n as usize;
                }
            },
        }
    }
    at == end
}

} // verus!
