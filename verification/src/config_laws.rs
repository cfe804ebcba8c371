//! What holds of every configuration tree and every put, proved over the model.
use vstd::prelude::*;
use crate::config_model::{
    ascii_bytes, char_index, descend, get_name_result, get_path, index_char, lemma_lower_bound,
    lookup, lookup_point, lookup_value, lower_bound, put_name_result, put_point_result,
    put_result, put_value_result, store_value, Entry, Slot, SLOT_LEN,
};

verus! {

/// The keys of a level strictly increase along the list.
pub open spec fn keys_increasing(s: Seq<Entry>) -> bool {
    forall|i: int, j: int| 0 <= i < j < s.len() ==> s[i].key < s[j].key
}

/// The keys strictly increase along the list of every level of the tree.
pub open spec fn tree_sorted(s: Seq<Entry>) -> bool
    decreases s,
{
    &&& keys_increasing(s)
    &&& forall|i: int| 0 <= i < s.len() ==> slot_sorted(#[trigger] s[i].slot)
}

/// A value, or a level whose tree is sorted.
pub open spec fn slot_sorted(slot: Slot) -> bool
    decreases slot,
{
    match slot {
        Slot::Value(_) => true,
        Slot::Point(q) => tree_sorted(q),
    }
}

/// Whether a put of name bytes `name` reaches, at its last level, a list whose
/// first entry already has the last key (there the value goes to the entry
/// after it instead).
pub open spec fn first_key_clash(s: Seq<Entry>, name: Seq<u8>) -> bool
    decreases name.len(),
{
    if name.len() == 0 {
        false
    } else {
        match char_index(name[0]) {
            None => false,
            Some(k) => if name.len() == 1 {
                s.len() > 0 && s[0].key == k
            } else {
                let p = lower_bound(s, k);
                if p < s.len() && s[p].key == k {
                    match s[p].slot {
                        Slot::Point(q) => first_key_clash(q, name.drop_first()),
                        Slot::Value(_) => false,
                    }
                } else {
                    false
                }
            },
        }
    }
}

/// The first entry with key `k` is found at position `p`.
proof fn lemma_lookup_at(s: Seq<Entry>, k: u8, p: int)
    requires
        0 <= p < s.len(),
        s[p].key == k,
        forall|j: int| 0 <= j < p ==> s[j].key != k,
    ensures
        lookup(s, k) == Some(s[p].slot),
    decreases p,
{
    if p > 0 {
        lemma_lookup_at(s.drop_first(), k, p - 1);
    }
}

/// Entries with other keys are found as before once position `p` receives an
/// entry with key `k`, or, when it holds key `k`, is replaced by one.
proof fn lemma_lookup_other(s: Seq<Entry>, k: u8, p: int, e: Entry, other: u8)
    requires
        0 <= p <= s.len(),
        e.key == k,
        other != k,
    ensures
        p < s.len() && s[p].key == k ==> lookup(s.update(p, e), other) == lookup(s, other),
        lookup(s.insert(p, e), other) == lookup(s, other),
    decreases s.len(),
{
    if s.len() > 0 && p > 0 {
        lemma_lookup_other(s.drop_first(), k, p - 1, e, other);
        if p < s.len() {
            assert(s.update(p, e).drop_first() =~= s.drop_first().update(p - 1, e));
        }
        assert(s.insert(p, e).drop_first() =~= s.drop_first().insert(p - 1, e));
    } else if p == 0 {
        assert(s.insert(p, e).drop_first() =~= s);
        if s.len() > 0 {
            assert(s.update(p, e).drop_first() =~= s.drop_first());
        }
    }
}

/// Replacing, or inserting at, the search position of `k` an entry with key
/// `k` makes that entry the one found for `k`.
proof fn lemma_lookup_placed(s: Seq<Entry>, k: u8, e: Entry)
    requires
        e.key == k,
    ensures
        lookup(s.insert(lower_bound(s, k), e), k) == Some(e.slot),
        lower_bound(s, k) < s.len() ==> lookup(s.update(lower_bound(s, k), e), k) == Some(e.slot),
{
    lemma_lower_bound(s, k);
    let p = lower_bound(s, k);
    lemma_lookup_at(s.insert(p, e), k, p);
    if p < s.len() {
        lemma_lookup_at(s.update(p, e), k, p);
    }
}

/// Inserting an entry at the search position of its key keeps the keys
/// strictly increasing when no entry there already has that key.
proof fn lemma_insert_keeps_increasing(s: Seq<Entry>, e: Entry)
    requires
        keys_increasing(s),
        !(lower_bound(s, e.key) < s.len() && s[lower_bound(s, e.key)].key == e.key),
    ensures
        keys_increasing(s.insert(lower_bound(s, e.key), e)),
{
    lemma_lower_bound(s, e.key);
    let p = lower_bound(s, e.key);
    let t = s.insert(p, e);
    assert forall|i: int, j: int| 0 <= i < j < t.len() implies t[i].key < t[j].key by {
        if j < p {
        } else if j == p {
            assert(t[i] == s[i]);
        } else if i < p {
            assert(t[j] == s[j - 1]);
            assert(s[i].key < s[p].key || p == j - 1);
        } else if i == p {
            assert(t[j] == s[j - 1]);
            assert(s[p].key <= s[j - 1].key);
        } else {
            assert(t[j] == s[j - 1]);
            assert(t[i] == s[i - 1]);
        }
    }
}

/// Every put keeps the keys strictly increasing at every level.
pub proof fn law_put_keeps_sorted(s: Seq<Entry>, name: Seq<u8>, val: Seq<char>)
    requires
        tree_sorted(s),
    ensures
        tree_sorted(put_result(s, name, val).0),
    decreases name.len(), 2nat,
{
    if name.len() > 0 {
        if let Some(k) = char_index(name[0]) {
            if name.len() == 1 {
                lemma_put_value_keeps_sorted(s, k, val);
            } else {
                lemma_put_point_keeps_sorted(s, k, name.drop_first(), val);
            }
        }
    }
}

proof fn lemma_put_value_keeps_sorted(s: Seq<Entry>, k: u8, val: Seq<char>)
    requires
        tree_sorted(s),
    ensures
        tree_sorted(put_value_result(s, k, val).0),
{
    let e = Entry { key: k, slot: Slot::Value(val) };
    let t = put_value_result(s, k, val).0;
    lemma_lower_bound(s, k);
    let p = lower_bound(s, k);
    if s.len() > 0 && s[0].key == k {
        if s.len() > 1 && s[1].slot is Value {
            assert forall|i: int| 0 <= i < t.len() implies slot_sorted(#[trigger] t[i].slot) by {
                if i != 1 {
                    assert(t[i] == s[i]);
                }
            }
        }
    } else if p < s.len() && s[p].key == k {
        assert forall|i: int| 0 <= i < t.len() implies slot_sorted(#[trigger] t[i].slot) by {
            if i != p {
                assert(t[i] == s[i]);
            }
        }
    } else {
        lemma_insert_keeps_increasing(s, e);
        assert forall|i: int| 0 <= i < t.len() implies slot_sorted(#[trigger] t[i].slot) by {
            if i < p {
                assert(t[i] == s[i]);
            } else if i > p {
                assert(t[i] == s[i - 1]);
            }
        }
    }
}

proof fn lemma_descend_keeps_sorted(slot: Slot, rest: Seq<u8>, val: Seq<char>)
    requires
        slot_sorted(slot),
    ensures
        slot_sorted(descend(slot, rest, val).0),
    decreases rest.len() + 1, 0nat,
{
    if let Slot::Point(q) = slot {
        law_put_keeps_sorted(q, rest, val);
    }
}

proof fn lemma_put_point_keeps_sorted(s: Seq<Entry>, k: u8, rest: Seq<u8>, val: Seq<char>)
    requires
        tree_sorted(s),
    ensures
        tree_sorted(put_point_result(s, k, rest, val).0),
    decreases rest.len() + 1, 1nat,
{
    let t = put_point_result(s, k, rest, val).0;
    lemma_lower_bound(s, k);
    let p = lower_bound(s, k);
    if p < s.len() && s[p].key == k {
        assert(slot_sorted(s[p].slot));
        lemma_descend_keeps_sorted(s[p].slot, rest, val);
        assert forall|i: int| 0 <= i < t.len() implies slot_sorted(#[trigger] t[i].slot) by {
            if i != p {
                assert(t[i] == s[i]);
            }
        }
    } else {
        let empty = Seq::<Entry>::empty();
        assert(tree_sorted(empty));
        lemma_descend_keeps_sorted(Slot::Point(empty), rest, val);
        let e = Entry { key: k, slot: descend(Slot::Point(empty), rest, val).0 };
        lemma_insert_keeps_increasing(s, e);
        assert forall|i: int| 0 <= i < t.len() implies slot_sorted(#[trigger] t[i].slot) by {
            if i < p {
                assert(t[i] == s[i]);
            } else if i > p {
                assert(t[i] == s[i - 1]);
            }
        }
    }
}

/// A put that succeeds, and whose last key is not already held by the first
/// entry of its last level, is read back by following the same path.
pub proof fn law_put_then_get_path(s: Seq<Entry>, name: Seq<u8>, val: Seq<char>)
    requires
        put_result(s, name, val).1,
        !first_key_clash(s, name),
    ensures
        get_path(put_result(s, name, val).0, name) == Some(val),
    decreases name.len(),
{
    let k = char_index(name[0]).unwrap();
    let p = lower_bound(s, k);
    lemma_lower_bound(s, k);
    if name.len() == 1 {
        lemma_lookup_placed(s, k, Entry { key: k, slot: Slot::Value(val) });
    } else {
        let rest = name.drop_first();
        if p < s.len() && s[p].key == k {
            if let Slot::Point(q) = s[p].slot {
                law_put_then_get_path(q, rest, val);
                let e = Entry { key: k, slot: Slot::Point(put_result(q, rest, val).0) };
                lemma_lookup_placed(s, k, e);
            }
        } else {
            law_put_then_get_path(Seq::empty(), rest, val);
            let e = Entry {
                key: k,
                slot: Slot::Point(put_result(Seq::<Entry>::empty(), rest, val).0),
            };
            lemma_lookup_placed(s, k, e);
        }
    }
}

/// Reading back a write: after a successful put under a name of two or more
/// characters, reading that name gives the value put, unless the put met the
/// first-entry case of `first_key_clash`.
pub proof fn law_put_then_get(s: Seq<Entry>, name: Seq<char>, val: Seq<char>)
    requires
        name.len() >= 2,
        put_name_result(s, name, val).1,
        !name_first_key_clash(s, name),
    ensures
        get_name_result(put_name_result(s, name, val).0, name) == Some(val),
{
    law_put_then_get_path(s, ascii_bytes(name), val);
}

/// A level without the key `k` finds nothing for it.
proof fn lemma_lookup_absent(s: Seq<Entry>, k: u8)
    requires
        forall|i: int| 0 <= i < s.len() ==> s[i].key != k,
    ensures
        lookup(s, k) is None,
    decreases s.len(),
{
    if s.len() > 0 {
        lemma_lookup_absent(s.drop_first(), k);
    }
}

/// In a level with increasing keys, the entry at the search position of `k`
/// is the one found for `k`, and nothing is found when its key is not `k`.
proof fn lemma_lookup_sorted(s: Seq<Entry>, k: u8)
    requires
        keys_increasing(s),
    ensures
        lower_bound(s, k) < s.len() && s[lower_bound(s, k)].key == k ==> lookup(s, k) == Some(
            s[lower_bound(s, k)].slot,
        ),
        !(lower_bound(s, k) < s.len() && s[lower_bound(s, k)].key == k) ==> lookup(s, k) is None,
{
    lemma_lower_bound(s, k);
    let p = lower_bound(s, k);
    if p < s.len() && s[p].key == k {
        lemma_lookup_at(s, k, p);
    } else {
        assert forall|i: int| 0 <= i < s.len() implies s[i].key != k by {
            if i > p {
                assert(s[p].key < s[i].key);
            }
        }
        lemma_lookup_absent(s, k);
    }
}

/// Nothing is read below an empty level.
proof fn lemma_get_path_empty(b: Seq<u8>)
    ensures
        get_path(Seq::empty(), b) is None,
{
}

/// A put changes no path other than its own, unless it meets the
/// first-entry case of `first_key_clash`.
pub proof fn law_put_leaves_other_paths(s: Seq<Entry>, a: Seq<u8>, b: Seq<u8>, val: Seq<char>)
    requires
        tree_sorted(s),
        a != b,
        b.len() >= 1,
        !first_key_clash(s, a),
    ensures
        get_path(put_result(s, a, val).0, b) == get_path(s, b),
    decreases a.len(),
{
    if a.len() == 0 {
        return;
    }
    let ka = match char_index(a[0]) {
        Some(k) => k,
        None => {
            return;
        },
    };
    let kb = match char_index(b[0]) {
        Some(k) => k,
        None => {
            return;
        },
    };
    let t = put_result(s, a, val).0;
    lemma_lower_bound(s, ka);
    lemma_lookup_sorted(s, ka);
    let p = lower_bound(s, ka);
    let found = p < s.len() && s[p].key == ka;
    let rest_a = a.drop_first();
    let empty = Seq::<Entry>::empty();
    if kb != ka {
        if a.len() == 1 {
            lemma_lookup_other(s, ka, p, Entry { key: ka, slot: Slot::Value(val) }, kb);
        } else if found {
            let e = Entry { key: ka, slot: descend(s[p].slot, rest_a, val).0 };
            lemma_lookup_other(s, ka, p, e, kb);
        } else {
            let e = Entry { key: ka, slot: descend(Slot::Point(empty), rest_a, val).0 };
            lemma_lookup_other(s, ka, p, e, kb);
        }
        assert(lookup(t, kb) == lookup(s, kb));
        assert(lookup_value(t, kb) == lookup_value(s, kb));
        assert(lookup_point(t, kb) == lookup_point(s, kb));
        return;
    }
    law_index_injective(a[0], b[0]);
    let rest_b = b.drop_first();
    if a.len() >= 2 && b.len() >= 2 && rest_a =~= rest_b {
        assert forall|i: int| 0 <= i < a.len() implies a[i] == b[i] by {
            if i > 0 {
                assert(rest_a[i - 1] == rest_b[i - 1]);
            }
        }
        assert(a =~= b);
    }
    if a.len() == 1 {
        if b.len() == 1 {
            assert(a[0] == b[0]);
            assert(a =~= b);
        }
        if found && s[p].slot is Point {
            assert(t == s);
        } else {
            lemma_lookup_placed(s, ka, Entry { key: ka, slot: Slot::Value(val) });
            assert(lookup_point(t, ka) is None);
        }
    } else if found {
        match s[p].slot {
            Slot::Value(_) => {
                assert(t =~= s);
            },
            Slot::Point(q) => {
                let q2 = put_result(q, rest_a, val).0;
                lemma_lookup_placed(s, ka, Entry { key: ka, slot: Slot::Point(q2) });
                assert(lookup(t, ka) == Some(Slot::Point(q2)));
                if b.len() >= 2 {
                    assert(slot_sorted(s[p].slot));
                    law_put_leaves_other_paths(q, rest_a, rest_b, val);
                }
            },
        }
    } else {
        let q2 = put_result(empty, rest_a, val).0;
        lemma_lookup_placed(s, ka, Entry { key: ka, slot: Slot::Point(q2) });
        assert(lookup(t, ka) == Some(Slot::Point(q2)));
        if b.len() >= 2 {
            assert(tree_sorted(empty));
            law_put_leaves_other_paths(empty, rest_a, rest_b, val);
            lemma_get_path_empty(rest_b);
        }
    }
}

/// Whether a put under `name` (an ASCII name) would hit the first-entry case
/// of `first_key_clash`.
pub open spec fn name_first_key_clash(s: Seq<Entry>, name: Seq<char>) -> bool {
    vstd::utf8::is_ascii_chars(name) && first_key_clash(s, ascii_bytes(name))
}

/// Whether a put under the one-character name `a` stores at the key that
/// reading the one-character name `b` looks up (its byte).
pub open spec fn raw_byte_meets(a: Seq<char>, b: Seq<char>) -> bool {
    &&& vstd::utf8::is_ascii_chars(a)
    &&& vstd::utf8::is_ascii_chars(b)
    &&& a.len() == 1
    &&& b.len() == 1
    &&& char_index(a[0] as u8) == Some(b[0] as u8)
}

/// Distinct ASCII names have distinct bytes.
proof fn lemma_ascii_bytes_injective(a: Seq<char>, b: Seq<char>)
    requires
        vstd::utf8::is_ascii_chars(a),
        vstd::utf8::is_ascii_chars(b),
        ascii_bytes(a) == ascii_bytes(b),
    ensures
        a == b,
{
    assert(a.len() == ascii_bytes(a).len());
    assert forall|i: int| 0 <= i < a.len() implies a[i] == b[i] by {
        assert(ascii_bytes(a)[i] == ascii_bytes(b)[i]);
        assert('\0' <= a[i] <= '\u{7f}');
        assert('\0' <= b[i] <= '\u{7f}');
        assert(a[i] as int == (a[i] as u8) as int);
        assert(b[i] as int == (b[i] as u8) as int);
        assert(ascii_bytes(a)[i] == a[i] as u8);
        assert(ascii_bytes(b)[i] == b[i] as u8);
        assert(a[i] as int == b[i] as int);
    }
    assert(a =~= b);
}

/// A put under name `a` leaves the value read under every other name `b`,
/// except when the put meets the first-entry case of `first_key_clash`, and
/// when both names have one character and the byte of `b` is the index of
/// the character of `a`.
pub proof fn law_put_leaves_other_names(s: Seq<Entry>, a: Seq<char>, b: Seq<char>, val: Seq<char>)
    requires
        tree_sorted(s),
        a != b,
        b.len() >= 1,
        !name_first_key_clash(s, a),
        !raw_byte_meets(a, b),
    ensures
        get_name_result(put_name_result(s, a, val).0, b) == get_name_result(s, b),
{
    if !vstd::utf8::is_ascii_chars(a) || !vstd::utf8::is_ascii_chars(b) {
        return;
    }
    let ab = ascii_bytes(a);
    let bb = ascii_bytes(b);
    if ab == bb {
        lemma_ascii_bytes_injective(a, b);
    }
    if b.len() >= 2 {
        law_put_leaves_other_paths(s, ab, bb, val);
        return;
    }
    if a.len() == 0 {
        return;
    }
    let ka = match char_index(ab[0]) {
        Some(k) => k,
        None => {
            return;
        },
    };
    let key = bb[0];
    let t = put_result(s, ab, val).0;
    lemma_lower_bound(s, ka);
    lemma_lookup_sorted(s, ka);
    let p = lower_bound(s, ka);
    let found = p < s.len() && s[p].key == ka;
    let rest_a = ab.drop_first();
    let empty = Seq::<Entry>::empty();
    if key != ka {
        if a.len() == 1 {
            lemma_lookup_other(s, ka, p, Entry { key: ka, slot: Slot::Value(val) }, key);
        } else if found {
            let e = Entry { key: ka, slot: descend(s[p].slot, rest_a, val).0 };
            lemma_lookup_other(s, ka, p, e, key);
        } else {
            let e = Entry { key: ka, slot: descend(Slot::Point(empty), rest_a, val).0 };
            lemma_lookup_other(s, ka, p, e, key);
        }
        assert(lookup_value(t, key) == lookup_value(s, key));
    } else if a.len() >= 2 {
        if found {
            match s[p].slot {
                Slot::Value(_) => {
                    assert(t =~= s);
                },
                Slot::Point(q) => {
                    let e = Entry { key: ka, slot: Slot::Point(put_result(q, rest_a, val).0) };
                    lemma_lookup_placed(s, ka, e);
                },
            }
        } else {
            let e = Entry { key: ka, slot: Slot::Point(put_result(empty, rest_a, val).0) };
            lemma_lookup_placed(s, ka, e);
        }
    }
}

/// The keys of a level.
pub open spec fn level_keys(s: Seq<Entry>) -> Set<u8> {
    Set::new(|k: u8| exists|i: int| 0 <= i < s.len() && s[i].key == k)
}

proof fn lemma_keys_insert(s: Seq<Entry>, p: int, e: Entry)
    requires
        0 <= p <= s.len(),
    ensures
        level_keys(s.insert(p, e)) == level_keys(s).insert(e.key),
{
    let t = s.insert(p, e);
    assert forall|k: u8| #[trigger]
        level_keys(t).contains(k) == level_keys(s).insert(e.key).contains(k) by {
        if level_keys(t).contains(k) {
            let i = choose|i: int| 0 <= i < t.len() && t[i].key == k;
            if i < p {
                assert(s[i].key == k);
            } else if i > p {
                assert(s[i - 1].key == k);
            }
        }
        if level_keys(s).contains(k) {
            let i = choose|i: int| 0 <= i < s.len() && s[i].key == k;
            if i < p {
                assert(t[i].key == k);
            } else {
                assert(t[i + 1].key == k);
            }
        }
        if k == e.key {
            assert(t[p].key == k);
        }
    }
    assert(level_keys(t) =~= level_keys(s).insert(e.key));
}

proof fn lemma_keys_update(s: Seq<Entry>, p: int, e: Entry)
    requires
        0 <= p < s.len(),
        s[p].key == e.key,
    ensures
        level_keys(s.update(p, e)) == level_keys(s),
        keys_increasing(s) ==> keys_increasing(s.update(p, e)),
        level_keys(s).contains(e.key),
{
    let t = s.update(p, e);
    assert forall|k: u8| #[trigger] level_keys(t).contains(k) == level_keys(s).contains(k) by {
        if level_keys(t).contains(k) {
            let i = choose|i: int| 0 <= i < t.len() && t[i].key == k;
            assert(s[i].key == k);
        }
        if level_keys(s).contains(k) {
            let i = choose|i: int| 0 <= i < s.len() && s[i].key == k;
            assert(t[i].key == k);
        }
    }
    assert(level_keys(t) =~= level_keys(s));
    assert(s[p].key == e.key);
    if keys_increasing(s) {
        assert forall|i: int, j: int| 0 <= i < j < t.len() implies t[i].key < t[j].key by {
            assert(t[i].key == s[i].key);
            assert(t[j].key == s[j].key);
        }
    }
}

/// Putting a value into one level keeps its keys strictly increasing; when
/// the put succeeds the keys are the former ones and `k`, and when it fails
/// they are unchanged.
pub proof fn law_put_value_keys(s: Seq<Entry>, k: u8, val: Seq<char>)
    requires
        keys_increasing(s),
    ensures
        keys_increasing(put_value_result(s, k, val).0),
        level_keys(put_value_result(s, k, val).0) == if put_value_result(s, k, val).1 {
            level_keys(s).insert(k)
        } else {
            level_keys(s)
        },
{
    lemma_lower_bound(s, k);
    let p = lower_bound(s, k);
    let e = Entry { key: k, slot: Slot::Value(val) };
    if s.len() > 0 && s[0].key == k {
        lemma_keys_update(s, 0, Entry { key: k, slot: s[0].slot });
        if s.len() > 1 && s[1].slot is Value {
            lemma_keys_update(s, 1, Entry { key: s[1].key, slot: Slot::Value(val) });
        }
        assert(level_keys(s).insert(k) =~= level_keys(s));
    } else if p < s.len() && s[p].key == k {
        lemma_keys_update(s, p, e);
        assert(level_keys(s).insert(k) =~= level_keys(s));
    } else {
        lemma_insert_keeps_increasing(s, e);
        lemma_keys_insert(s, p, e);
    }
}

/// The level step of a put keeps the keys strictly increasing and adds `k` to
/// them (where a value already sits at `k`, the keys hold it already); when
/// no value sat at `k`, a level sits there afterwards.
pub proof fn law_put_point_keys(s: Seq<Entry>, k: u8, rest: Seq<u8>, val: Seq<char>)
    requires
        keys_increasing(s),
    ensures
        keys_increasing(put_point_result(s, k, rest, val).0),
        level_keys(put_point_result(s, k, rest, val).0) == level_keys(s).insert(k),
        lookup_value(s, k) is None ==> lookup_point(put_point_result(s, k, rest, val).0, k) is Some,
{
    lemma_lower_bound(s, k);
    lemma_lookup_sorted(s, k);
    let p = lower_bound(s, k);
    if p < s.len() && s[p].key == k {
        let e = Entry { key: k, slot: descend(s[p].slot, rest, val).0 };
        lemma_keys_update(s, p, e);
        assert(level_keys(s).insert(k) =~= level_keys(s));
        lemma_lookup_placed(s, k, e);
    } else {
        let e = Entry { key: k, slot: descend(Slot::Point(Seq::empty()), rest, val).0 };
        lemma_insert_keeps_increasing(s, e);
        lemma_keys_insert(s, p, e);
        lemma_lookup_placed(s, k, e);
    }
}

/// Every index is below `SLOT_LEN`.
pub proof fn law_index_range(s: u8)
    ensures
        char_index(s) matches Some(i) ==> i < SLOT_LEN,
{
}

/// Distinct bytes have distinct indices.
pub proof fn law_index_injective(s: u8, t: u8)
    requires
        char_index(s) is Some,
        char_index(s) == char_index(t),
    ensures
        s == t,
{
}

/// The byte whose index is `i`.
pub open spec fn index_byte(i: u8) -> u8 {
    if i < 26 {
        (97 + i) as u8
    } else if i < 52 {
        (65 + i - 26) as u8
    } else if i < 62 {
        (48 + i - 52) as u8
    } else if i == 62 {
        46
    } else if i == 63 {
        95
    } else {
        45
    }
}

/// Every index below `SLOT_LEN` is the index of some byte.
pub proof fn law_index_onto(i: u8)
    requires
        i < SLOT_LEN,
    ensures
        char_index(index_byte(i)) == Some(i),
        exists|s: u8| char_index(s) == Some(i),
{
    assert(char_index(index_byte(i)) == Some(i));
}

/// Letters `a`-`z` and the characters `.`, `_`, `-` are shown as the very
/// character whose index they have.
pub proof fn law_index_round_trip(i: u8)
    requires
        i <= 25 || 62 <= i <= 64,
    ensures
        index_char(i) is Some,
        char_index(index_char(i).unwrap() as u8) == Some(i),
{
}

/// Nothing is read from an empty tree, whatever the name.
pub proof fn law_get_from_empty(name: Seq<char>)
    ensures
        get_name_result(Seq::empty(), name) is None,
{
    lemma_get_path_empty(ascii_bytes(name));
}

/// A name that is not ASCII reads nothing.
pub proof fn law_get_non_ascii(s: Seq<Entry>, name: Seq<char>)
    requires
        !vstd::utf8::is_ascii_chars(name),
    ensures
        get_name_result(s, name) is None,
{
}

/// A path holding a byte that has no index leads nowhere.
proof fn lemma_get_path_unindexed(s: Seq<Entry>, b: Seq<u8>, i: int)
    requires
        0 <= i < b.len(),
        char_index(b[i]) is None,
    ensures
        get_path(s, b) is None,
    decreases b.len(),
{
    if i > 0 && b.len() > 1 {
        if let Some(k) = char_index(b[0]) {
            if let Some(q) = lookup_point(s, k) {
                assert(b.drop_first()[i - 1] == b[i]);
                lemma_get_path_unindexed(q, b.drop_first(), i - 1);
            }
        }
    }
}

/// A name of two or more characters with a character that has no index
/// reads nothing, in every tree.
pub proof fn law_get_unindexed(s: Seq<Entry>, name: Seq<char>, i: int)
    requires
        name.len() >= 2,
        0 <= i < name.len(),
        char_index(name[i] as u8) is None,
    ensures
        get_name_result(s, name) is None,
{
    if vstd::utf8::is_ascii_chars(name) {
        assert(ascii_bytes(name)[i] == name[i] as u8);
        lemma_get_path_unindexed(s, ascii_bytes(name), i);
    }
}

/// Replacing a value by a value keeps, for every key, whether a value or a
/// level is found, and which level.
proof fn lemma_lookup_update_value(s: Seq<Entry>, p: int, v: Seq<char>, x: u8)
    requires
        0 <= p < s.len(),
        s[p].slot is Value,
    ensures
        lookup_value(s, x) is Some ==> lookup_value(
            s.update(p, Entry { key: s[p].key, slot: Slot::Value(v) }),
            x,
        ) is Some,
        lookup_point(s.update(p, Entry { key: s[p].key, slot: Slot::Value(v) }), x)
            == lookup_point(s, x),
    decreases s.len(),
{
    let t = s.update(p, Entry { key: s[p].key, slot: Slot::Value(v) });
    if p == 0 {
        assert(t.drop_first() =~= s.drop_first());
    } else {
        lemma_lookup_update_value(s.drop_first(), p - 1, v, x);
        assert(t.drop_first() =~= s.drop_first().update(
            p - 1,
            Entry { key: s[p].key, slot: Slot::Value(v) },
        ));
    }
}

/// The effect of a put on the first level, key by key: a value found stays
/// found, a level found under another key (or under any key, for a put of a
/// single byte) stays the same, and the level under the put's own key
/// becomes that level with the rest of the put applied.
proof fn lemma_put_first_level(s: Seq<Entry>, a: Seq<u8>, val: Seq<char>, x: u8)
    requires
        keys_increasing(s),
    ensures
        lookup_value(s, x) is Some ==> lookup_value(put_result(s, a, val).0, x) is Some,
        lookup_point(s, x) is Some && (a.len() <= 1 || char_index(a[0]) != Some(x))
            ==> lookup_point(put_result(s, a, val).0, x) == lookup_point(s, x),
        a.len() >= 2 && char_index(a[0]) == Some(x) && lookup_point(s, x) is Some
            ==> lookup_point(put_result(s, a, val).0, x) == Some(
            put_result(lookup_point(s, x).unwrap(), a.drop_first(), val).0,
        ),
{
    if a.len() == 0 {
        return;
    }
    let ka = match char_index(a[0]) {
        Some(k) => k,
        None => {
            return;
        },
    };
    let t = put_result(s, a, val).0;
    lemma_lower_bound(s, ka);
    lemma_lookup_sorted(s, ka);
    let p = lower_bound(s, ka);
    let found = p < s.len() && s[p].key == ka;
    let rest_a = a.drop_first();
    if a.len() == 1 {
        if s.len() > 0 && s[0].key == ka {
            if s.len() > 1 && s[1].slot is Value {
                lemma_lookup_update_value(s, 1, val, x);
            }
        } else if found {
            if s[p].slot is Value {
                lemma_lookup_update_value(s, p, val, x);
            }
        } else if x != ka {
            lemma_lookup_other(s, ka, p, Entry { key: ka, slot: Slot::Value(val) }, x);
        }
    } else if found {
        match s[p].slot {
            Slot::Value(_) => {
                assert(t =~= s);
            },
            Slot::Point(q) => {
                let e = Entry { key: ka, slot: Slot::Point(put_result(q, rest_a, val).0) };
                if x != ka {
                    lemma_lookup_other(s, ka, p, e, x);
                } else {
                    lemma_lookup_placed(s, ka, e);
                }
            },
        }
    } else if x != ka {
        let e = Entry {
            key: ka,
            slot: descend(Slot::Point(Seq::<Entry>::empty()), rest_a, val).0,
        };
        lemma_lookup_other(s, ka, p, e, x);
    }
}

/// The level found under a key of a sorted tree is itself sorted.
proof fn lemma_lookup_point_sorted(s: Seq<Entry>, x: u8)
    requires
        tree_sorted(s),
        lookup_point(s, x) is Some,
    ensures
        tree_sorted(lookup_point(s, x).unwrap()),
{
    lemma_lookup_sorted(s, x);
    lemma_lower_bound(s, x);
    let p = lower_bound(s, x);
    assert(slot_sorted(s[p].slot));
}

/// A put never takes away a value: every path that led to a value before a
/// put, whatever the put's path, still leads to a value after it.
pub proof fn law_put_keeps_stored_paths(s: Seq<Entry>, a: Seq<u8>, b: Seq<u8>, val: Seq<char>)
    requires
        tree_sorted(s),
        get_path(s, b) is Some,
    ensures
        get_path(put_result(s, a, val).0, b) is Some,
    decreases a.len(),
{
    let kb = char_index(b[0]).unwrap();
    let t = put_result(s, a, val).0;
    lemma_put_first_level(s, a, val, kb);
    if b.len() >= 2 {
        let qb = lookup_point(s, kb).unwrap();
        if a.len() >= 2 && char_index(a[0]) == Some(kb) {
            lemma_lookup_point_sorted(s, kb);
            law_put_keeps_stored_paths(qb, a.drop_first(), b.drop_first(), val);
        }
    }
}

/// A put never takes away a value: every name that read a value before a
/// put, whatever name the put is under, still reads a value after it.
pub proof fn law_put_keeps_stored_names(s: Seq<Entry>, a: Seq<char>, b: Seq<char>, val: Seq<char>)
    requires
        tree_sorted(s),
        get_name_result(s, b) is Some,
    ensures
        get_name_result(put_name_result(s, a, val).0, b) is Some,
{
    if !vstd::utf8::is_ascii_chars(a) {
        return;
    }
    let bb = ascii_bytes(b);
    if b.len() == 1 {
        lemma_put_first_level(s, ascii_bytes(a), val, bb[0]);
    } else {
        law_put_keeps_stored_paths(s, ascii_bytes(a), bb, val);
    }
}

/// A successful put under a one-character name (that did not meet the
/// first-entry case) is read back under the one-character name whose byte is
/// the index of that character.
pub proof fn law_put_then_get_by_byte(s: Seq<Entry>, a: Seq<char>, b: Seq<char>, val: Seq<char>)
    requires
        a.len() == 1,
        put_name_result(s, a, val).1,
        !name_first_key_clash(s, a),
        b.len() == 1,
        vstd::utf8::is_ascii_chars(b),
        char_index(a[0] as u8) == Some(b[0] as u8),
    ensures
        get_name_result(put_name_result(s, a, val).0, b) == Some(val),
{
    law_put_then_get_path(s, ascii_bytes(a), val);
    assert(ascii_bytes(a)[0] == a[0] as u8);
    assert(ascii_bytes(b)[0] == b[0] as u8);
}

} // verus!
