//! The mathematical model of a configuration tree.
//!
//! A level of the tree (a `ConfigPoint`) is modelled as the sequence of its
//! entries in list order. Each entry carries the index of one name character
//! and a slot: either a stored value or the next level of the tree.
use vstd::prelude::*;

verus! {

/// One entry of a level: the character index and what sits under it.
pub struct Entry {
    pub key: u8,
    pub slot: Slot,
}

/// What an entry holds.
pub enum Slot {
    /// A stored value (the characters of the string).
    Value(Seq<char>),
    /// The next level of the tree.
    Point(Seq<Entry>),
}

/// Number of characters a name may use: `a`-`z`, `A`-`Z`, `0`-`9`, `.`, `_`, `-`.
pub const SLOT_LEN: u8 = 65;

/// The index of a name byte: `a`-`z` are 0..=25, `A`-`Z` 26..=51,
/// `0`-`9` 52..=61, `.` 62, `_` 63, `-` 64; any other byte has none.
pub open spec fn char_index(s: u8) -> Option<u8> {
    if 97 <= s && s <= 122 {
        Some((s - 97) as u8)
    } else if 65 <= s && s <= 90 {
        Some((s - 65 + 26) as u8)
    } else if 48 <= s && s <= 57 {
        Some((s - 48 + 52) as u8)
    } else if s == 46 {
        Some((SLOT_LEN - 3) as u8)
    } else if s == 95 {
        Some((SLOT_LEN - 2) as u8)
    } else if s == 45 {
        Some((SLOT_LEN - 1) as u8)
    } else {
        None
    }
}

/// The character printed for an index: indices up to 25 give `a`-`z`;
/// 26..=51 give the character with code `65 + index`; 62, 63 and 64 give
/// `.`, `_` and `-`; the others give none.
pub open spec fn index_char(index: u8) -> Option<char> {
    if index <= 25 {
        Some((97 + index) as char)
    } else if 26 <= index && index <= 51 {
        Some((65 + index) as char)
    } else if index == SLOT_LEN - 3 {
        Some('.')
    } else if index == SLOT_LEN - 2 {
        Some('_')
    } else if index == SLOT_LEN - 1 {
        Some('-')
    } else {
        None
    }
}

/// The bytes of an ASCII string.
pub open spec fn ascii_bytes(name: Seq<char>) -> Seq<u8> {
    Seq::new(name.len(), |i: int| name[i] as u8)
}

/// The position of the first entry whose key is not below `k`
/// (the length of `s` when there is none).
pub open spec fn lower_bound(s: Seq<Entry>, k: u8) -> int
    decreases s.len(),
{
    if s.len() == 0 {
        0
    } else if s[0].key >= k {
        0
    } else {
        1 + lower_bound(s.drop_first(), k)
    }
}

/// The search position lies within the level, every key before it is below
/// `k`, and the key at it (if any) is not.
pub proof fn lemma_lower_bound(s: Seq<Entry>, k: u8)
    ensures
        0 <= lower_bound(s, k) <= s.len(),
        forall|j: int| 0 <= j < lower_bound(s, k) ==> s[j].key < k,
        lower_bound(s, k) < s.len() ==> s[lower_bound(s, k)].key >= k,
    decreases s.len(),
{
    if s.len() > 0 && s[0].key < k {
        lemma_lower_bound(s.drop_first(), k);
        assert forall|j: int| 0 <= j < lower_bound(s, k) implies s[j].key < k by {
            if j > 0 {
                assert(s[j] == s.drop_first()[j - 1]);
            }
        }
    }
}

/// The slot of the first entry with key `k`.
pub open spec fn lookup(s: Seq<Entry>, k: u8) -> Option<Slot>
    decreases s.len(),
{
    if s.len() == 0 {
        None
    } else if s[0].key == k {
        Some(s[0].slot)
    } else {
        lookup(s.drop_first(), k)
    }
}

/// The value stored under key `k` of a level, if a value sits there.
pub open spec fn lookup_value(s: Seq<Entry>, k: u8) -> Option<Seq<char>> {
    match lookup(s, k) {
        Some(Slot::Value(v)) => Some(v),
        _ => None,
    }
}

/// The level under key `k` of a level, if a level sits there.
pub open spec fn lookup_point(s: Seq<Entry>, k: u8) -> Option<Seq<Entry>> {
    match lookup(s, k) {
        Some(Slot::Point(q)) => Some(q),
        _ => None,
    }
}

/// Storing value `val` under key `k`, searching from the first entry:
/// an entry with key `k` at the search position gets the value when it holds
/// a value (and the store fails when it holds a level); otherwise a new entry
/// is inserted there.
pub open spec fn store_value(s: Seq<Entry>, k: u8, val: Seq<char>) -> (Seq<Entry>, bool) {
    let p = lower_bound(s, k);
    if p < s.len() && s[p].key == k {
        match s[p].slot {
            Slot::Value(_) => (s.update(p, Entry { key: k, slot: Slot::Value(val) }), true),
            Slot::Point(_) => (s, false),
        }
    } else {
        (s.insert(p, Entry { key: k, slot: Slot::Value(val) }), true)
    }
}

/// Giving the second entry of `s` the value `val` when it holds a value;
/// otherwise nothing changes and the store fails.
pub open spec fn set_second_value(s: Seq<Entry>, val: Seq<char>) -> (Seq<Entry>, bool) {
    if s.len() > 1 && s[1].slot is Value {
        (s.update(1, Entry { key: s[1].key, slot: Slot::Value(val) }), true)
    } else {
        (s, false)
    }
}

/// Putting `rest = val` below the second entry of `s`; without a second
/// entry nothing changes and the put fails.
pub open spec fn descend_second(s: Seq<Entry>, rest: Seq<u8>, val: Seq<char>) -> (Seq<Entry>, bool) {
    if s.len() > 1 {
        let (slot2, r) = descend(s[1].slot, rest, val);
        (s.update(1, Entry { key: s[1].key, slot: slot2 }), r)
    } else {
        (s, false)
    }
}

/// Putting a value under key `k` of a level. When the first entry already has
/// key `k`, the entry after it is the one examined: it gets the value if it
/// holds a value, and otherwise (or when there is none) the put fails.
pub open spec fn put_value_result(s: Seq<Entry>, k: u8, val: Seq<char>) -> (Seq<Entry>, bool) {
    if s.len() > 0 && s[0].key == k {
        set_second_value(s, val)
    } else {
        store_value(s, k, val)
    }
}

/// Putting `rest = val` below a slot: a level receives it; a value refuses it.
pub open spec fn descend(slot: Slot, rest: Seq<u8>, val: Seq<char>) -> (Slot, bool)
    decreases rest.len() + 1, 0nat,
{
    match slot {
        Slot::Point(q) => {
            let (q2, r) = put_result(q, rest, val);
            (Slot::Point(q2), r)
        },
        Slot::Value(_) => (slot, false),
    }
}

/// Putting `rest = val` under key `k` of a level: the entry with key `k` at
/// the search position receives it; when there is none, a new entry holding a
/// fresh level is inserted there and receives it.
pub open spec fn put_point_result(s: Seq<Entry>, k: u8, rest: Seq<u8>, val: Seq<char>) -> (
    Seq<Entry>,
    bool,
)
    decreases rest.len() + 1, 1nat,
{
    let p = lower_bound(s, k);
    if p < s.len() && s[p].key == k {
        let (slot2, r) = descend(s[p].slot, rest, val);
        (s.update(p, Entry { key: k, slot: slot2 }), r)
    } else {
        let (slot2, r) = descend(Slot::Point(Seq::empty()), rest, val);
        (s.insert(p, Entry { key: k, slot: slot2 }), r)
    }
}

/// Putting value `val` at the path of name bytes `name` below a level:
/// the new level and whether the put succeeded.
pub open spec fn put_result(s: Seq<Entry>, name: Seq<u8>, val: Seq<char>) -> (Seq<Entry>, bool)
    decreases name.len(), 2nat,
{
    if name.len() == 0 {
        (s, false)
    } else {
        match char_index(name[0]) {
            None => (s, false),
            Some(k) => if name.len() == 1 {
                put_value_result(s, k, val)
            } else {
                put_point_result(s, k, name.drop_first(), val)
            },
        }
    }
}

/// Putting value `val` under name `name` into a level.
pub open spec fn put_name_result(s: Seq<Entry>, name: Seq<char>, val: Seq<char>) -> (
    Seq<Entry>,
    bool,
) {
    if !vstd::utf8::is_ascii_chars(name) {
        (s, false)
    } else {
        put_result(s, ascii_bytes(name), val)
    }
}

/// The value reached by following the path of name bytes `name`: each byte
/// but the last leads to a level, the last to a value.
pub open spec fn get_path(s: Seq<Entry>, name: Seq<u8>) -> Option<Seq<char>>
    decreases name.len(),
{
    if name.len() == 0 {
        None
    } else {
        match char_index(name[0]) {
            None => None,
            Some(k) => if name.len() == 1 {
                lookup_value(s, k)
            } else {
                match lookup_point(s, k) {
                    None => None,
                    Some(q) => get_path(q, name.drop_first()),
                }
            },
        }
    }
}

/// The value read under name `name`. A name of one byte is looked up with
/// the byte itself as the key, not its index.
pub open spec fn get_name_result(s: Seq<Entry>, name: Seq<char>) -> Option<Seq<char>> {
    if !vstd::utf8::is_ascii_chars(name) {
        None
    } else if name.len() == 1 {
        lookup_value(s, ascii_bytes(name)[0])
    } else {
        get_path(s, ascii_bytes(name))
    }
}

/// The text shown for a character index: its character, or a note that the
/// index has none.
pub open spec fn key_text(k: u8) -> Seq<char> {
    match index_char(k) {
        Some(c) => seq![c],
        None => "ConfigNode index err."@,
    }
}

/// The text shown for a level: its entries from the last to the first, each
/// as its character followed by what it holds.
pub open spec fn level_text(s: Seq<Entry>) -> Seq<char>
    decreases s,
{
    if s.len() == 0 {
        Seq::empty()
    } else {
        level_text(s.drop_first()) + key_text(s[0].key) + slot_text(s[0].slot)
    }
}

/// The text shown for what an entry holds: the text of its level, or `=`,
/// the value and a newline.
pub open spec fn slot_text(slot: Slot) -> Seq<char>
    decreases slot,
{
    match slot {
        Slot::Value(v) => seq!['='] + v + seq!['\n'],
        Slot::Point(q) => level_text(q),
    }
}

} // verus!
