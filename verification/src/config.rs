//! A configuration tree keyed by names made of `a`-`z`, `A`-`Z`, `0`-`9`,
//! `.`, `_` and `-`.
//!
//! Each level (`ConfigPoint`) keeps a list of nodes ordered by the index of
//! one name character. A node holds either a value or the next level.
use std::rc::Rc;
use vstd::prelude::*;
use vstd::string::StringExecFns;
use vstd::string::StringExecFnsIsAscii;
use crate::config_laws::{law_put_keeps_sorted, tree_sorted};
use crate::config_model::{
    ascii_bytes, char_index, descend, descend_second, get_name_result, get_path, index_char, lookup,
    lookup_point, lookup_value, lower_bound, lemma_lower_bound, put_name_result, put_point_result, put_result,
    put_value_result, set_second_value, store_value, Entry, Slot, SLOT_LEN, key_text, level_text,
    slot_text,
};

verus! {

/// A stored value.
struct ConfigValue {
    value: Rc<String>,
}

/// What a node holds: a value, or the next level of the tree.
enum ConfigType {
    ConfigTypeValue(ConfigValue),
    ConfigTypePoint(Box<ConfigPoint>),
}

/// A node of a level's list; `list` is the node that follows it.
struct ConfigNode {
    v: u8,
    list: Option<Box<ConfigNode>>,
    next: ConfigType,
}

/// One level of the configuration tree.
pub struct ConfigPoint {
    list: Option<Box<ConfigNode>>,
}

/// The entries of a list starting at `o`.
spec fn opt_entries(o: Option<Box<ConfigNode>>) -> Seq<Entry>
    decreases o,
{
    match o {
        None => Seq::empty(),
        Some(n) => node_entries(*n),
    }
}

/// The entries of the list starting at node `n`.
spec fn node_entries(n: ConfigNode) -> Seq<Entry>
    decreases n,
{
    seq![Entry { key: n.v, slot: slot_of(n.next) }] + opt_entries(n.list)
}

/// The model of what a node holds.
spec fn slot_of(t: ConfigType) -> Slot
    decreases t,
{
    match t {
        ConfigType::ConfigTypeValue(cv) => Slot::Value(cv.value@),
        ConfigType::ConfigTypePoint(cp) => Slot::Point(opt_entries(cp.list)),
    }
}

impl View for ConfigPoint {
    type V = Seq<Entry>;

    closed spec fn view(&self) -> Seq<Entry> {
        opt_entries(self.list)
    }
}

proof fn lemma_node_entries(n: ConfigNode)
    ensures
        node_entries(n).len() == 1 + opt_entries(n.list).len(),
        node_entries(n)[0] == (Entry { key: n.v, slot: slot_of(n.next) }),
        node_entries(n).drop_first() == opt_entries(n.list),
        forall|j: int|
            0 <= j < opt_entries(n.list).len() ==> node_entries(n)[j + 1] == opt_entries(
                n.list,
            )[j],
{
    assert(node_entries(n).drop_first() =~= opt_entries(n.list));
}

/// Storing into a list whose first key is below `k` leaves that first entry
/// and stores into the rest.
proof fn lemma_store_value_shift(s: Seq<Entry>, k: u8, val: Seq<char>)
    requires
        s.len() > 0,
        s[0].key < k,
    ensures
        store_value(s, k, val).0 == seq![s[0]] + store_value(s.drop_first(), k, val).0,
        store_value(s, k, val).1 == store_value(s.drop_first(), k, val).1,
{
    let d = s.drop_first();
    let p = lower_bound(d, k);
    lemma_lower_bound(d, k);
    if p < d.len() && d[p].key == k {
        assert(s.update(p + 1, Entry { key: k, slot: Slot::Value(val) }) =~= seq![s[0]] + d.update(
            p,
            Entry { key: k, slot: Slot::Value(val) },
        ));
        assert(s =~= seq![s[0]] + d);
    } else {
        assert(s.insert(p + 1, Entry { key: k, slot: Slot::Value(val) }) =~= seq![s[0]] + d.insert(
            p,
            Entry { key: k, slot: Slot::Value(val) },
        ));
    }
}

/// Putting below key `k` of a list whose first key is below `k` leaves that
/// first entry and puts into the rest.
proof fn lemma_put_point_shift(s: Seq<Entry>, k: u8, rest: Seq<u8>, val: Seq<char>)
    requires
        s.len() > 0,
        s[0].key < k,
    ensures
        put_point_result(s, k, rest, val).0 == seq![s[0]] + put_point_result(
            s.drop_first(),
            k,
            rest,
            val,
        ).0,
        put_point_result(s, k, rest, val).1 == put_point_result(s.drop_first(), k, rest, val).1,
{
    let d = s.drop_first();
    let p = lower_bound(d, k);
    lemma_lower_bound(d, k);
    if p < d.len() && d[p].key == k {
        let (slot2, r) = descend(d[p].slot, rest, val);
        assert(s.update(p + 1, Entry { key: k, slot: slot2 }) =~= seq![s[0]] + d.update(
            p,
            Entry { key: k, slot: slot2 },
        ));
    } else {
        let (slot2, r) = descend(Slot::Point(Seq::empty()), rest, val);
        assert(s.insert(p + 1, Entry { key: k, slot: slot2 }) =~= seq![s[0]] + d.insert(
            p,
            Entry { key: k, slot: slot2 },
        ));
    }
}

/// Calls `Rc::clone`: the result is a new handle to the same string, so it
/// is claimed equal to the handle it was cloned from.
#[verifier::external_body]
fn rc_string_clone(value: &Rc<String>) -> (res: Rc<String>)
    ensures
        res == *value,
{
    Rc::clone(value)
}

fn new_config_value(value: &String) -> (cv: ConfigValue)
    ensures
        cv.value@ == value@,
{
    ConfigValue { value: Rc::new(value.clone()) }
}

fn new_config_node_point(index: u8) -> (cn: ConfigNode)
    ensures
        cn.v == index,
        cn.list is None,
        slot_of(cn.next) == Slot::Point(Seq::empty()),
{
    let cp = new_config_point();
    ConfigNode { v: index, next: ConfigType::ConfigTypePoint(Box::new(cp)), list: None }
}

fn new_config_node_value(index: u8, value: &String) -> (cn: ConfigNode)
    ensures
        cn.v == index,
        cn.list is None,
        slot_of(cn.next) == Slot::Value(value@),
{
    let cv = new_config_value(value);
    ConfigNode { v: index, list: None, next: ConfigType::ConfigTypeValue(cv) }
}

/// Creates an empty configuration tree.
pub fn new_config_point() -> (cp: ConfigPoint)
    ensures
        cp@ == Seq::<Entry>::empty(),
        tree_sorted(cp@),
{
    ConfigPoint { list: None }
}

/// Inserts, right after `prelist`, a new node holding a fresh level into which
/// `rest = value` is put; returns whether that put succeeded.
fn add_after_node_point(prelist: &mut ConfigNode, index: u8, rest: &[u8], value: &String) -> (r:
    bool)
    ensures
        node_entries(*final(prelist)) == node_entries(*old(prelist)).insert(
            1,
            Entry { key: index, slot: descend(Slot::Point(Seq::empty()), rest@, value@).0 },
        ),
        r == descend(Slot::Point(Seq::empty()), rest@, value@).1,
    decreases rest@.len() + 1, 2nat, 0nat,
{
    let mut cn = new_config_node_point(index);
    let r = add_check_node(&mut cn, rest, value);
    cn.list = prelist.list.take();
    prelist.list = Some(Box::new(cn));
    proof {
        lemma_node_entries(*old(prelist));
        lemma_node_entries(*final(prelist));
        lemma_node_entries(cn);
        assert(node_entries(*prelist) =~= node_entries(*old(prelist)).insert(
            1,
            Entry { key: index, slot: descend(Slot::Point(Seq::empty()), rest@, value@).0 },
        ));
    }
    r
}

/// Inserts, right after `prelist`, a new node holding `value`.
fn add_after_node_value(prelist: &mut ConfigNode, index: u8, value: &String) -> (r: bool)
    ensures
        node_entries(*final(prelist)) == node_entries(*old(prelist)).insert(
            1,
            Entry { key: index, slot: Slot::Value(value@) },
        ),
        r,
{
    let mut cn = new_config_node_value(index, value);
    cn.list = prelist.list.take();
    prelist.list = Some(Box::new(cn));
    proof {
        lemma_node_entries(*old(prelist));
        lemma_node_entries(*final(prelist));
        lemma_node_entries(cn);
        assert(node_entries(*prelist) =~= node_entries(*old(prelist)).insert(
            1,
            Entry { key: index, slot: Slot::Value(value@) },
        ));
    }
    true
}

/// Puts `rest = value` below the node that follows `prelist`.
fn add_check_node_pre(prelist: &mut ConfigNode, rest: &[u8], value: &String) -> (r: bool)
    ensures
        (node_entries(*final(prelist)), r) == descend_second(
            node_entries(*old(prelist)),
            rest@,
            value@,
        ),
    decreases rest@.len() + 1, 2nat, 0nat,
{
    proof {
        lemma_node_entries(*prelist);
    }
    match prelist.list.take() {
        Some(mut node) => {
            proof {
                lemma_node_entries(*node);
            }
            let r = add_check_node(&mut *node, rest, value);
            prelist.list = Some(node);
            proof {
                lemma_node_entries(*prelist);
                lemma_node_entries(*node);
                let s = node_entries(*old(prelist));
                assert(node_entries(*prelist) =~= s.update(
                    1,
                    Entry { key: s[1].key, slot: descend(s[1].slot, rest@, value@).0 },
                ));
            }
            r
        },
        None => {
            prelist.list = None;
            false
        },
    }
}

/// Puts `rest = value` below node `list`: a node holding a level receives it;
/// a node holding a value refuses it.
fn add_check_node(list: &mut ConfigNode, rest: &[u8], value: &String) -> (r: bool)
    ensures
        final(list).v == old(list).v,
        final(list).list == old(list).list,
        (slot_of(final(list).next), r) == descend(slot_of(old(list).next), rest@, value@),
    decreases rest@.len() + 1, 1nat, 0nat,
{
    match &mut list.next {
        ConfigType::ConfigTypePoint(cp) => cp._put(rest, value),
        ConfigType::ConfigTypeValue(_) => false,
    }
}

/// Stores `value` in the node that follows `prelist`, if that node holds a value.
fn add_check_node_value(prelist: &mut ConfigNode, value: &String) -> (r: bool)
    ensures
        (node_entries(*final(prelist)), r) == set_second_value(node_entries(*old(prelist)), value@),
{
    proof {
        lemma_node_entries(*prelist);
    }
    match prelist.list.take() {
        Some(mut node) => {
            proof {
                lemma_node_entries(*node);
            }
            let r = match &node.next {
                ConfigType::ConfigTypeValue(_) => {
                    node.next = ConfigType::ConfigTypeValue(new_config_value(value));
                    true
                },
                _ => false,
            };
            prelist.list = Some(node);
            proof {
                lemma_node_entries(*prelist);
                lemma_node_entries(*node);
                let s = node_entries(*old(prelist));
                if r {
                    assert(node_entries(*prelist) =~= s.update(
                        1,
                        Entry { key: s[1].key, slot: Slot::Value(value@) },
                    ));
                } else {
                    assert(node_entries(*prelist) =~= s);
                }
            }
            r
        },
        None => {
            prelist.list = None;
            false
        },
    }
}

/// The search for key `index` past node `prelist`, whose key is below it:
/// puts `rest = value` under the entry with that key, inserting one if needed.
fn put_point_after(prelist: &mut ConfigNode, index: u8, rest: &[u8], value: &String) -> (r: bool)
    requires
        old(prelist).v < index,
    ensures
        (node_entries(*final(prelist)), r) == put_point_result(
            node_entries(*old(prelist)),
            index,
            rest@,
            value@,
        ),
    decreases rest@.len() + 1, 3nat, node_entries(*old(prelist)).len(),
{
    proof {
        lemma_node_entries(*prelist);
    }
    let ghost s = node_entries(*prelist);
    let v = match &prelist.list {
        None => {
            assert(lower_bound(s.drop_first(), index) == 0);
            return add_after_node_point(prelist, index, rest, value);
        },
        Some(node) => {
            proof {
                lemma_node_entries(**node);
            }
            node.v
        },
    };
    if index == v {
        assert(lower_bound(s.drop_first(), index) == 0);
        add_check_node_pre(prelist, rest, value)
    } else if index < v {
        assert(lower_bound(s.drop_first(), index) == 0);
        add_after_node_point(prelist, index, rest, value)
    } else {
        let mut node = prelist.list.take().unwrap();
        proof {
            lemma_node_entries(*node);
        }
        let r = put_point_after(&mut *node, index, rest, value);
        prelist.list = Some(node);
        proof {
            lemma_node_entries(*prelist);
            lemma_put_point_shift(s, index, rest@, value@);
            assert(node_entries(*prelist) =~= seq![s[0]] + node_entries(*node));
        }
        r
    }
}

/// The search for key `index` past node `prelist`, whose key is below it:
/// stores `value` under that key, inserting an entry if needed.
fn put_value_after(prelist: &mut ConfigNode, index: u8, value: &String) -> (r: bool)
    requires
        old(prelist).v < index,
    ensures
        (node_entries(*final(prelist)), r) == store_value(
            node_entries(*old(prelist)),
            index,
            value@,
        ),
    decreases node_entries(*old(prelist)).len(),
{
    proof {
        lemma_node_entries(*prelist);
    }
    let ghost s = node_entries(*prelist);
    let v = match &prelist.list {
        None => {
            assert(lower_bound(s.drop_first(), index) == 0);
            return add_after_node_value(prelist, index, value);
        },
        Some(node) => {
            proof {
                lemma_node_entries(**node);
            }
            node.v
        },
    };
    if index == v {
        assert(lower_bound(s.drop_first(), index) == 0);
        add_check_node_value(prelist, value)
    } else if index < v {
        assert(lower_bound(s.drop_first(), index) == 0);
        add_after_node_value(prelist, index, value)
    } else {
        let mut node = prelist.list.take().unwrap();
        proof {
            lemma_node_entries(*node);
        }
        let r = put_value_after(&mut *node, index, value);
        prelist.list = Some(node);
        proof {
            lemma_node_entries(*prelist);
            lemma_store_value_shift(s, index, value@);
            assert(node_entries(*prelist) =~= seq![s[0]] + node_entries(*node));
        }
        r
    }
}

/// The index of a name byte (see `char_index`).
fn get_index(s: u8) -> (r: Option<u8>)
    ensures
        r == char_index(s),
{
    if 97u8 /* 'a' */ <= s && s <= 122u8 /* 'z' */ {
        Some(s - 97u8 /* 'a' */)
    } else if 65u8 /* 'A' */ <= s && s <= 90u8 /* 'Z' */ {
        Some((s - 65u8 /* 'A' */) + 26)
    } else if 48u8 /* '0' */ <= s && s <= 57u8 /* '9' */ {
        Some((s - 48u8 /* '0' */) + 52)
    } else if s == 46u8 /* '.' */ {
        Some(SLOT_LEN - 3)
    } else if s == 95u8 /* '_' */ {
        Some(SLOT_LEN - 2)
    } else if s == 45u8 /* '-' */ {
        Some(SLOT_LEN - 1)
    } else {
        None
    }
}

/// The character printed for an index (see `index_char`).
fn from_index(index: u8) -> (r: Option<char>)
    ensures
        r == index_char(index),
{
    if index <= 25 {
        Some((97u8 /* 'a' */ + index) as char)
    } else if index >= 26 && index <= 51 {
        Some((65u8 /* 'A' */ + index) as char)
    } else if index == (SLOT_LEN - 3) {
        Some('.')
    } else if index == (SLOT_LEN - 2) {
        Some('_')
    } else if index == (SLOT_LEN - 1) {
        Some('-')
    } else {
        None
    }
}

/// Calls `String::push`: the string afterwards is claimed to hold its former
/// characters followed by `c`.
#[verifier::external_body]
fn push_char(out: &mut String, c: char)
    ensures
        final(out)@ == old(out)@.push(c),
{
    out.push(c);
}

impl ConfigValue {
    /// Appends `=`, the value and a newline.
    fn show(&self, out: &mut String)
        ensures
            final(out)@ == old(out)@ + slot_text(Slot::Value(self.value@)),
    {
        push_char(out, '=');
        out.append(self.value.as_str());
        push_char(out, '\n');
        assert(out@ =~= old(out)@ + slot_text(Slot::Value(self.value@)));
    }
}

impl ConfigNode {
    /// Appends the text of the list starting at this node: the nodes that
    /// follow it first, then this node's character and what it holds.
    fn show(&self, out: &mut String)
        ensures
            final(out)@ == old(out)@ + level_text(node_entries(*self)),
        decreases *self,
    {
        proof {
            lemma_node_entries(*self);
        }
        let ghost start = out@;
        match &self.list {
            Some(t) => {
                t.show(out);
            },
            None => {},
        }
        assert(out@ == start + level_text(opt_entries(self.list)));
        match from_index(self.v) {
            Some(t) => {
                push_char(out, t);
            },
            None => {
                out.append("ConfigNode index err.");
            },
        }
        assert(out@ =~= start + level_text(opt_entries(self.list)) + key_text(self.v));
        let ghost mid = out@;
        match &self.next {
            ConfigType::ConfigTypePoint(cp) => {
                cp.show_into(out);
            },
            ConfigType::ConfigTypeValue(cv) => {
                cv.show(out);
            },
        }
        assert(out@ =~= mid + slot_text(slot_of(self.next)));
        assert(out@ =~= start + level_text(node_entries(*self)));
    }
}

impl ConfigPoint {
    /// Appends the text of this level.
    fn show_into(&self, out: &mut String)
        ensures
            final(out)@ == old(out)@ + level_text(self@),
        decreases *self,
    {
        match &self.list {
            None => {
                assert(out@ =~= old(out)@ + level_text(self@));
            },
            Some(t) => {
                t.show(out);
            },
        }
    }

    /// The text that shows the whole tree (see `level_text`).
    pub fn show_text(&self) -> (r: String)
        ensures
            r@ == level_text(self@),
    {
        let mut out = String::new();
        self.show_into(&mut out);
        assert(out@ =~= level_text(self@));
        out
    }

    /// Looking a level up by name is not offered: the answer is always `None`.
    pub fn get_point(&self, _name: &String) -> (r: Option<&ConfigPoint>)
        ensures
            r is None,
    {
        None
    }

    /// The level under key `index` of this level, if a level sits there.
    fn get_point_next(&self, index: u8) -> (r: Option<&ConfigPoint>)
        ensures
            match r {
                Some(cp) => lookup_point(self@, index) == Some(cp@),
                None => lookup_point(self@, index) is None,
            },
    {
        let mut list: &ConfigNode = match &self.list {
            Some(t) => &**t,
            None => {
                return None;
            },
        };
        loop
            invariant
                lookup(self@, index) == lookup(node_entries(*list), index),
            decreases node_entries(*list).len(),
        {
            proof {
                lemma_node_entries(*list);
            }
            if list.v == index {
                return match &list.next {
                    ConfigType::ConfigTypePoint(cp) => Some(&**cp),
                    ConfigType::ConfigTypeValue(_) => None,
                };
            }
            match &list.list {
                Some(node) => {
                    list = &**node;
                },
                None => {
                    assert(lookup(node_entries(*list).drop_first(), index) is None);
                    return None;
                },
            }
        }
    }

    /// The value under key `index` of this level, if a value sits there.
    fn get_value(&self, index: u8) -> (r: Option<Rc<String>>)
        ensures
            match r {
                Some(v) => lookup_value(self@, index) == Some(v@),
                None => lookup_value(self@, index) is None,
            },
    {
        let mut list: &ConfigNode = match &self.list {
            Some(t) => &**t,
            None => {
                return None;
            },
        };
        loop
            invariant
                lookup(self@, index) == lookup(node_entries(*list), index),
            decreases node_entries(*list).len(),
        {
            proof {
                lemma_node_entries(*list);
            }
            if list.v == index {
                return match &list.next {
                    ConfigType::ConfigTypePoint(_) => None,
                    ConfigType::ConfigTypeValue(cv) => Some(rc_string_clone(&cv.value)),
                };
            }
            match &list.list {
                Some(node) => {
                    list = &**node;
                },
                None => {
                    assert(lookup(node_entries(*list).drop_first(), index) is None);
                    return None;
                },
            }
        }
    }

    /// Puts `rest = value` under key `index` of this level, making a node
    /// holding a fresh level there when there is none.
    fn put_point(&mut self, index: u8, rest: &[u8], value: &String) -> (r: bool)
        ensures
            (final(self)@, r) == put_point_result(old(self)@, index, rest@, value@),
        decreases rest@.len() + 1, 4nat, 0nat,
    {
        match self.list.take() {
            None => {
                let mut cn = new_config_node_point(index);
                let r = add_check_node(&mut cn, rest, value);
                self.list = Some(Box::new(cn));
                proof {
                    lemma_node_entries(cn);
                    assert(self@ =~= old(self)@.insert(
                        0,
                        Entry { key: index, slot: slot_of(cn.next) },
                    ));
                }
                r
            },
            Some(mut head) => {
                proof {
                    lemma_node_entries(*head);
                }
                if index == head.v {
                    let r = add_check_node(&mut *head, rest, value);
                    self.list = Some(head);
                    proof {
                        lemma_node_entries(*head);
                        assert(self@ =~= old(self)@.update(
                            0,
                            Entry { key: index, slot: slot_of(head.next) },
                        ));
                    }
                    r
                } else if index < head.v {
                    let mut cn = new_config_node_point(index);
                    let r = add_check_node(&mut cn, rest, value);
                    cn.list = Some(head);
                    self.list = Some(Box::new(cn));
                    proof {
                        lemma_node_entries(cn);
                        assert(self@ =~= old(self)@.insert(
                            0,
                            Entry { key: index, slot: slot_of(cn.next) },
                        ));
                    }
                    r
                } else {
                    let r = put_point_after(&mut *head, index, rest, value);
                    self.list = Some(head);
                    r
                }
            },
        }
    }

    /// Puts `value` under key `index` of this level.
    fn put_value(&mut self, index: u8, value: &String) -> (r: bool)
        ensures
            (final(self)@, r) == put_value_result(old(self)@, index, value@),
    {
        match self.list.take() {
            None => {
                let cn = new_config_node_value(index, value);
                self.list = Some(Box::new(cn));
                proof {
                    lemma_node_entries(cn);
                    assert(self@ =~= old(self)@.insert(
                        0,
                        Entry { key: index, slot: Slot::Value(value@) },
                    ));
                }
                true
            },
            Some(mut head) => {
                proof {
                    lemma_node_entries(*head);
                }
                if index == head.v {
                    let r = add_check_node_value(&mut *head, value);
                    self.list = Some(head);
                    r
                } else if index < head.v {
                    let mut cn = new_config_node_value(index, value);
                    cn.list = Some(head);
                    self.list = Some(Box::new(cn));
                    proof {
                        lemma_node_entries(cn);
                        assert(self@ =~= old(self)@.insert(
                            0,
                            Entry { key: index, slot: Slot::Value(value@) },
                        ));
                    }
                    true
                } else {
                    let r = put_value_after(&mut *head, index, value);
                    self.list = Some(head);
                    r
                }
            },
        }
    }

    /// Puts `value` at the path of name bytes `name`.
    fn _put(&mut self, name: &[u8], value: &String) -> (r: bool)
        ensures
            (final(self)@, r) == put_result(old(self)@, name@, value@),
        decreases name@.len(), 5nat, 0nat,
    {
        if name.len() == 0 {
            return false;
        }
        let index = match get_index(name[0]) {
            Some(t) => t,
            None => {
                return false;
            },
        };
        if name.len() == 1 {
            return self.put_value(index, value);
        }
        let rest = &name[1..name.len()];
        assert(rest@ =~= name@.drop_first());
        self.put_point(index, rest, value)
    }

    /// Stores `value` under `name`; returns whether it was stored
    /// (see `put_name_result`).
    pub fn put(&mut self, name: &String, value: &String) -> (r: bool)
        ensures
            (final(self)@, r) == put_name_result(old(self)@, name@, value@),
            tree_sorted(old(self)@) ==> tree_sorted(final(self)@),
    {
        if !name.is_ascii() {
            return false;
        }
        let name_str = name.as_str();
        let name_bytes = name_str.as_bytes();
        proof {
            vstd::string::is_ascii_spec_bytes(name_str);
            assert(name_bytes@ =~= ascii_bytes(name@));
            if tree_sorted(self@) {
                law_put_keeps_sorted(self@, name_bytes@, value@);
            }
        }
        self._put(name_bytes, value)
    }

    /// Reads the value stored under `name` (see `get_name_result`).
    pub fn get(&self, name: &String) -> (r: Option<Rc<String>>)
        requires
            name@.len() > 0,
        ensures
            match r {
                Some(v) => get_name_result(self@, name@) == Some(v@),
                None => get_name_result(self@, name@) is None,
            },
    {
        if !name.is_ascii() {
            return None;
        }
        let name_str = name.as_str();
        let name_bytes = name_str.as_bytes();
        proof {
            vstd::string::is_ascii_spec_bytes(name_str);
            assert(name_bytes@ =~= ascii_bytes(name@));
        }
        if name_bytes.len() == 1 {
            return self.get_value(name_bytes[0]);
        }
        let index = match get_index(name_bytes[0]) {
            Some(t) => t,
            None => {
                return None;
            },
        };
        let mut list_config_point = self.get_point_next(index);
        let mut pos: usize = 1;
        assert(name_bytes@.drop_first() =~= name_bytes@.skip(1));
        loop
            invariant
                1 <= pos < name_bytes@.len(),
                name_bytes@ == ascii_bytes(name@),
                get_name_result(self@, name@) == match list_config_point {
                    None => None,
                    Some(cp) => get_path(cp@, name_bytes@.skip(pos as int)),
                },
            decreases name_bytes@.len() - pos,
        {
            let cp = match list_config_point {
                Some(cp) => cp,
                None => {
                    return None;
                },
            };
            let ghost tail = name_bytes@.skip(pos as int);
            assert(tail.drop_first() =~= name_bytes@.skip(pos + 1));
            if name_bytes.len() - pos == 1 {
                let index = match get_index(name_bytes[pos]) {
                    Some(t) => t,
                    None => {
                        return None;
                    },
                };
                return cp.get_value(index);
            }
            let index = match get_index(name_bytes[pos]) {
                Some(t) => t,
                None => {
                    return None;
                },
            };
            list_config_point = cp.get_point_next(index);
            pos = pos + 1;
        }
    }
}

} // verus!
