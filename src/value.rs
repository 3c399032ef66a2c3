use vstd::prelude::*;
use crate::chars::string_from_chars;
use crate::numeric::Decimal;
use crate::text::{push_decimal_number, push_integer, push_quoted, push_word, ser, ser_items, ser_members};
use crate::lexer::{false_word, null_word, true_word};

verus! {

/// A JSON value as a mathematical object. Object members keep the order in
/// which they were added.
pub enum JsonData {
    Object(Seq<(Seq<char>, JsonData)>),
    Array(Seq<JsonData>),
    Number(i64),
    Float(Decimal),
    Bool(bool),
    Str(Seq<char>),
    Null,
}

/// The position of the first member named `k`, or -1.
pub open spec fn key_position(entries: Seq<(Seq<char>, JsonData)>, k: Seq<char>) -> int
    decreases entries.len(),
{
    if entries.len() == 0 {
        -1
    } else {
        let p = key_position(entries.drop_last(), k);
        if p >= 0 {
            p
        } else if entries.last().0 == k {
            entries.len() - 1
        } else {
            -1
        }
    }
}

/// The value of the member named `k`.
pub open spec fn lookup(entries: Seq<(Seq<char>, JsonData)>, k: Seq<char>) -> Option<JsonData> {
    let p = key_position(entries, k);
    if p >= 0 {
        Some(entries[p].1)
    } else {
        None
    }
}

/// Sets member `k` to `v`: in place when it exists, else appended.
pub open spec fn upsert(entries: Seq<(Seq<char>, JsonData)>, k: Seq<char>, v: JsonData) -> Seq<
    (Seq<char>, JsonData),
> {
    let p = key_position(entries, k);
    if p >= 0 {
        entries.update(p, (k, v))
    } else {
        entries.push((k, v))
    }
}

/// The members `rest` set one after another into `acc`, as a parser reads
/// them: a repeated key keeps its first place and takes its last value.
pub open spec fn upsert_all(
    acc: Seq<(Seq<char>, JsonData)>,
    rest: Seq<(Seq<char>, JsonData)>,
) -> Seq<(Seq<char>, JsonData)>
    decreases rest.len(),
{
    if rest.len() == 0 {
        acc
    } else {
        upsert_all(upsert(acc, rest[0].0, rest[0].1), rest.drop_first())
    }
}

pub open spec fn keys_unique(entries: Seq<(Seq<char>, JsonData)>) -> bool {
    forall|i: int, j: int|
        0 <= i < entries.len() && 0 <= j < entries.len() && i != j ==> entries[i].0
            != entries[j].0
}

/// Two values are equal as JSON: objects by their member names and the
/// values under them, whatever their order; arrays item by item.
pub open spec fn equiv(a: JsonData, b: JsonData) -> bool
    decreases a,
{
    match a {
        JsonData::Object(ea) => match b {
            JsonData::Object(eb) => ea.len() == eb.len() && forall|i: int|
                0 <= i < ea.len() ==> (lookup(eb, #[trigger] ea[i].0) matches Some(w) && equiv(
                    ea[i].1,
                    w,
                )),
            _ => false,
        },
        JsonData::Array(ia) => match b {
            JsonData::Array(ib) => ia.len() == ib.len() && forall|i: int|
                0 <= i < ia.len() ==> equiv(#[trigger] ia[i], ib[i]),
            _ => false,
        },
        _ => a == b,
    }
}

/// Every object in `v` has unique keys, and every decimal is normalized.
pub open spec fn valid(v: JsonData) -> bool
    decreases v,
{
    match v {
        JsonData::Object(entries) => keys_unique(entries) && forall|i: int|
            0 <= i < entries.len() ==> valid(#[trigger] entries[i].1),
        JsonData::Array(items) => forall|i: int| 0 <= i < items.len() ==> valid(#[trigger] items[i]),
        JsonData::Float(d) => d.normalized(),
        _ => true,
    }
}

pub proof fn lemma_key_position(entries: Seq<(Seq<char>, JsonData)>, k: Seq<char>)
    ensures
        -1 <= key_position(entries, k) < entries.len(),
        key_position(entries, k) >= 0 ==> entries[key_position(entries, k)].0 == k,
        key_position(entries, k) >= 0 ==> forall|i: int|
            0 <= i < key_position(entries, k) ==> #[trigger] entries[i].0 != k,
        key_position(entries, k) < 0 ==> forall|i: int|
            0 <= i < entries.len() ==> #[trigger] entries[i].0 != k,
    decreases entries.len(),
{
    if entries.len() > 0 {
        let d = entries.drop_last();
        lemma_key_position(d, k);
        let p = key_position(entries, k);
        if key_position(d, k) >= 0 {
            assert forall|i: int| 0 <= i < p implies #[trigger] entries[i].0 != k by {
                assert(entries[i] == d[i]);
            }
        } else {
            assert forall|i: int| 0 <= i < entries.len() - 1 implies #[trigger] entries[i].0 != k by {
                assert(entries[i] == d[i]);
            }
        }
    }
}

pub proof fn lemma_upsert(entries: Seq<(Seq<char>, JsonData)>, k: Seq<char>, v: JsonData)
    ensures
        keys_unique(entries) ==> keys_unique(upsert(entries, k, v)),
        lookup(upsert(entries, k, v), k) == Some(v),
        key_position(entries, k) >= 0 ==> upsert(entries, k, v).len() == entries.len(),
        key_position(entries, k) < 0 ==> upsert(entries, k, v).len() == entries.len() + 1,
{
    lemma_key_position(entries, k);
    let u = upsert(entries, k, v);
    lemma_key_position(u, k);
    let p = key_position(entries, k);
    if p >= 0 {
        assert(u[p].0 == k);
        assert forall|i: int| 0 <= i < p implies #[trigger] u[i].0 != k by {
            assert(u[i] == entries[i]);
        }
    } else {
        assert(u[entries.len() as int].0 == k);
        assert forall|i: int| 0 <= i < entries.len() implies #[trigger] u[i].0 != k by {
            assert(u[i] == entries[i]);
        }
    }
    if key_position(u, k) >= 0 {
        if p >= 0 {
            assert(key_position(u, k) == p);
        } else {
            assert(key_position(u, k) == entries.len());
        }
    }
}

/// A scalar held in a tree node.
#[derive(Debug, Clone, PartialEq)]
pub struct JsonValue<T: PartialEq + Clone> {
    value: T,
}

impl<T: PartialEq + Clone> JsonValue<T> {
    pub closed spec fn spec_get(&self) -> T {
        self.value
    }

    pub fn new(value: T) -> (r: JsonValue<T>)
        ensures
            r.spec_get() == value,
    {
        JsonValue { value }
    }
}

/// Reading and writing the scalar a node holds.
pub trait JsonValueOps<T: PartialEq + Clone> {
    spec fn held(&self) -> T;

    fn set(&mut self, value: T)
        ensures
            final(self).held() == value,
    ;

    fn get_mut(&mut self) -> (r: &mut T)
        ensures
            *r == old(self).held(),
            final(self).held() == *final(r),
    ;

    fn get(&self) -> (r: &T)
        ensures
            *r == self.held(),
    ;
}

impl<T: PartialEq + Clone> JsonValueOps<T> for JsonValue<T> {
    closed spec fn held(&self) -> T {
        self.value
    }

    fn set(&mut self, value: T) {
        self.value = value;
    }

    fn get_mut(&mut self) -> (r: &mut T) {
        &mut self.value
    }

    fn get(&self) -> (r: &T) {
        &self.value
    }
}

/// A JSON object: named members, each name once.
#[derive(Debug)]
pub struct JsonObject {
    sub_nodes: Vec<(String, JsonNode)>,
}

/// A JSON array.
#[derive(Debug)]
pub struct JsonArray {
    sub_nodes: Vec<JsonNode>,
}

/// A node of a JSON tree.
#[derive(Debug)]
pub enum JsonNode {
    Object(JsonObject),
    Array(JsonArray),
    Number(JsonValue<i64>),
    Float(JsonValue<Decimal>),
    Bool(JsonValue<bool>),
    String(JsonValue<String>),
    Null,
}

pub open spec fn node_view(n: JsonNode) -> JsonData
    decreases n,
{
    match n {
        JsonNode::Object(o) => JsonData::Object(o.entries_spec()),
        JsonNode::Array(a) => JsonData::Array(a.items_spec()),
        JsonNode::Number(v) => JsonData::Number(v.spec_get()),
        JsonNode::Float(v) => JsonData::Float(v.spec_get()),
        JsonNode::Bool(v) => JsonData::Bool(v.spec_get()),
        JsonNode::String(v) => JsonData::Str(v.spec_get()@),
        JsonNode::Null => JsonData::Null,
    }
}

pub open spec fn entries_view(s: Seq<(String, JsonNode)>) -> Seq<(Seq<char>, JsonData)>
    decreases s,
{
    if s.len() == 0 {
        Seq::empty()
    } else {
        entries_view(s.drop_last()).push((s.last().0@, node_view(s.last().1)))
    }
}

pub open spec fn items_view(s: Seq<JsonNode>) -> Seq<JsonData>
    decreases s,
{
    if s.len() == 0 {
        Seq::empty()
    } else {
        items_view(s.drop_last()).push(node_view(s.last()))
    }
}

impl JsonObject {
    pub closed spec fn entries_spec(self) -> Seq<(Seq<char>, JsonData)>
        decreases self,
    {
        entries_view(self.sub_nodes@)
    }
}

impl JsonArray {
    pub closed spec fn items_spec(self) -> Seq<JsonData>
        decreases self,
    {
        items_view(self.sub_nodes@)
    }
}

impl View for JsonNode {
    type V = JsonData;

    open spec fn view(&self) -> JsonData {
        node_view(*self)
    }
}

impl View for JsonObject {
    type V = Seq<(Seq<char>, JsonData)>;

    open spec fn view(&self) -> Seq<(Seq<char>, JsonData)> {
        self.entries_spec()
    }
}

impl View for JsonArray {
    type V = Seq<JsonData>;

    open spec fn view(&self) -> Seq<JsonData> {
        self.items_spec()
    }
}


pub proof fn lemma_entries_view(s: Seq<(String, JsonNode)>)
    ensures
        entries_view(s).len() == s.len(),
        forall|i: int|
            0 <= i < s.len() ==> #[trigger] entries_view(s)[i] == (s[i].0@, node_view(s[i].1)),
    decreases s.len(),
{
    if s.len() > 0 {
        lemma_entries_view(s.drop_last());
        assert forall|i: int| 0 <= i < s.len() implies #[trigger] entries_view(s)[i] == (
            s[i].0@,
            node_view(s[i].1),
        ) by {
            if i < s.len() - 1 {
                assert(s.drop_last()[i] == s[i]);
            }
        }
    }
}

pub proof fn lemma_items_view(s: Seq<JsonNode>)
    ensures
        items_view(s).len() == s.len(),
        forall|i: int| 0 <= i < s.len() ==> #[trigger] items_view(s)[i] == node_view(s[i]),
    decreases s.len(),
{
    if s.len() > 0 {
        lemma_items_view(s.drop_last());
        assert forall|i: int| 0 <= i < s.len() implies #[trigger] items_view(s)[i] == node_view(
            s[i],
        ) by {
            if i < s.len() - 1 {
                assert(s.drop_last()[i] == s[i]);
            }
        }
    }
}

pub proof fn lemma_entries_view_all()
    ensures
        forall|s: Seq<(String, JsonNode)>| #[trigger] entries_view(s).len() == s.len(),
        forall|s: Seq<(String, JsonNode)>, i: int|
            0 <= i < s.len() ==> #[trigger] entries_view(s)[i] == (s[i].0@, node_view(s[i].1)),
{
    assert forall|s: Seq<(String, JsonNode)>| #[trigger] entries_view(s).len() == s.len() by {
        lemma_entries_view(s);
    }
    assert forall|s: Seq<(String, JsonNode)>, i: int|
        0 <= i < s.len() implies #[trigger] entries_view(s)[i] == (s[i].0@, node_view(s[i].1)) by {
        lemma_entries_view(s);
    }
}

pub proof fn lemma_items_view_all()
    ensures
        forall|s: Seq<JsonNode>| #[trigger] items_view(s).len() == s.len(),
        forall|s: Seq<JsonNode>, i: int|
            0 <= i < s.len() ==> #[trigger] items_view(s)[i] == node_view(s[i]),
{
    assert forall|s: Seq<JsonNode>| #[trigger] items_view(s).len() == s.len() by {
        lemma_items_view(s);
    }
    assert forall|s: Seq<JsonNode>, i: int|
        0 <= i < s.len() implies #[trigger] items_view(s)[i] == node_view(s[i]) by {
        lemma_items_view(s);
    }
}

pub proof fn lemma_entries_view_update(s: Seq<(String, JsonNode)>, i: int)
    requires
        0 <= i < s.len(),
    ensures
        forall|x: (String, JsonNode)| #[trigger]
            entries_view(s.update(i, x)) == entries_view(s).update(i, (x.0@, node_view(x.1))),
{
    assert forall|x: (String, JsonNode)| #[trigger]
        entries_view(s.update(i, x)) == entries_view(s).update(i, (x.0@, node_view(x.1))) by {
        lemma_entries_view(s);
        lemma_entries_view(s.update(i, x));
        assert(entries_view(s.update(i, x)) =~= entries_view(s).update(i, (x.0@, node_view(x.1))));
    }
}

pub proof fn lemma_items_view_update(s: Seq<JsonNode>, i: int)
    requires
        0 <= i < s.len(),
    ensures
        forall|x: JsonNode| #[trigger]
            items_view(s.update(i, x)) == items_view(s).update(i, node_view(x)),
{
    assert forall|x: JsonNode| #[trigger]
        items_view(s.update(i, x)) == items_view(s).update(i, node_view(x)) by {
        lemma_items_view(s);
        lemma_items_view(s.update(i, x));
        assert(items_view(s.update(i, x)) =~= items_view(s).update(i, node_view(x)));
    }
}

impl Default for JsonObject {
    fn default() -> (r: Self)
        ensures
            r@ == Seq::<(Seq<char>, JsonData)>::empty(),
    {
        JsonObject::new()
    }
}

impl Default for JsonArray {
    fn default() -> (r: Self)
        ensures
            r@ == Seq::<JsonData>::empty(),
    {
        JsonArray::new()
    }
}

impl JsonObject {
    /// Each name stands once.
    pub open spec fn wf(&self) -> bool {
        keys_unique(self@)
    }

    pub fn new() -> (r: JsonObject)
        ensures
            r@ == Seq::<(Seq<char>, JsonData)>::empty(),
            r.wf(),
    {
        let r = JsonObject { sub_nodes: Vec::new() };
        proof {
            lemma_entries_view(r.sub_nodes@);
            assert(r@ =~= Seq::<(Seq<char>, JsonData)>::empty());
        }
        r
    }

    /// The position of the member named `name`.
    fn find(&self, name: &str) -> (r: Option<usize>)
        ensures
            match r {
                Some(i) => i == key_position(self@, name@) && i < self.sub_nodes@.len(),
                None => key_position(self@, name@) < 0,
            },
            self@.len() == self.sub_nodes@.len(),
    {
        let key = name.to_owned();
        proof {
            lemma_entries_view(self.sub_nodes@);
            lemma_key_position(self@, name@);
        }
        let mut i: usize = 0;
        while i < self.sub_nodes.len()
            invariant
                i <= self.sub_nodes@.len(),
                self@.len() == self.sub_nodes@.len(),
                key@ == name@,
                forall|j: int| 0 <= j < i ==> #[trigger] self@[j].0 != name@,
                forall|j: int|
                    0 <= j < self.sub_nodes@.len() ==> #[trigger] self@[j] == (
                        self.sub_nodes@[j].0@,
                        node_view(self.sub_nodes@[j].1),
                    ),
                -1 <= key_position(self@, name@) < self@.len(),
                key_position(self@, name@) >= 0 ==> self@[key_position(self@, name@)].0
                    == name@,
                key_position(self@, name@) >= 0 ==> forall|j: int|
                    0 <= j < key_position(self@, name@) ==> #[trigger] self@[j].0 != name@,
                key_position(self@, name@) < 0 ==> forall|j: int|
                    0 <= j < self@.len() ==> #[trigger] self@[j].0 != name@,
            decreases self.sub_nodes@.len() - i,
        {
            if self.sub_nodes[i].0 == key {
                proof {
                    assert(self@[i as int].0 == name@);
                    let kp = key_position(self@, name@);
                    if kp >= 0 {
                        if kp < i {
                            assert(self@[kp].0 != name@);
                        }
                        if kp > i {
                            assert(self@[i as int].0 != name@);
                        }
                    } else {
                        assert(self@[i as int].0 != name@);
                    }
                }
                return Some(i);
            }
            i = i + 1;
        }
        None
    }

    /// Sets the member `name` to `node`, replacing the value it had.
    pub fn add(&mut self, name: &str, node: JsonNode)
        ensures
            final(self)@ == upsert(old(self)@, name@, node@),
            old(self).wf() ==> final(self).wf(),
    {
        proof {
            lemma_upsert(old(self)@, name@, node@);
            lemma_entries_view(old(self).sub_nodes@);
        }
        match self.find(name) {
            Some(i) => {
                self.sub_nodes.set(i, (name.to_owned(), node));
                proof {
                    lemma_entries_view(self.sub_nodes@);
                    assert(self@ =~= upsert(old(self)@, name@, node@));
                }
            },
            None => {
                self.sub_nodes.push((name.to_owned(), node));
                proof {
                    lemma_entries_view(self.sub_nodes@);
                    assert(self@ =~= upsert(old(self)@, name@, node@));
                }
            },
        }
    }

    /// Removes the member `name` and hands back its value.
    pub fn remove(&mut self, name: &str) -> (r: Option<JsonNode>)
        ensures
            key_position(old(self)@, name@) >= 0 ==> (r matches Some(n) && n@ == old(self)@[key_position(
                old(self)@,
                name@,
            )].1 && final(self)@ == old(self)@.remove(key_position(old(self)@, name@))),
            key_position(old(self)@, name@) < 0 ==> r is None && final(self)@ == old(self)@,
            old(self).wf() ==> final(self).wf(),
    {
        proof {
            lemma_entries_view(old(self).sub_nodes@);
        }
        match self.find(name) {
            Some(i) => {
                let (_, node) = self.sub_nodes.remove(i);
                proof {
                    lemma_entries_view(self.sub_nodes@);
                    assert(self@ =~= old(self)@.remove(i as int));
                    assert(self.wf() <== old(self).wf()) by {
                        if old(self).wf() {
                            assert forall|a: int, b: int|
                                0 <= a < self@.len() && 0 <= b < self@.len() && a != b implies self@[a].0
                                != self@[b].0 by {
                                let a2 = if a < i { a } else { a + 1 };
                                let b2 = if b < i { b } else { b + 1 };
                                assert(self@[a] == old(self)@[a2]);
                                assert(self@[b] == old(self)@[b2]);
                            }
                        }
                    }
                }
                Some(node)
            },
            None => None,
        }
    }

    /// The value of the member `name`.
    pub fn get(&self, name: &str) -> (r: Option<&JsonNode>)
        ensures
            match r {
                Some(n) => lookup(self@, name@) == Some(n@),
                None => lookup(self@, name@) is None,
            },
    {
        proof {
            lemma_entries_view(self.sub_nodes@);
        }
        match self.find(name) {
            Some(i) => Some(&self.sub_nodes[i].1),
            None => None,
        }
    }

    /// The value of the member `name`, to change in place.
    pub fn get_mut(&mut self, name: &str) -> (r: Option<&mut JsonNode>)
        ensures
            key_position(old(self)@, name@) < 0 ==> r is None && final(self)@ == old(self)@,
            key_position(old(self)@, name@) >= 0 ==> r is Some && (*r.unwrap())@ == old(
                self,
            )@[key_position(old(self)@, name@)].1 && final(self)@ =~= old(self)@.update(
                key_position(old(self)@, name@),
                (name@, (*final(r.unwrap()))@),
            ),
            old(self).wf() ==> final(self).wf(),
    {
        proof {
            lemma_entries_view(old(self).sub_nodes@);
            lemma_key_position(old(self)@, name@);
            assert forall|e: Seq<(Seq<char>, JsonData)>, i: int, x: JsonData|
                0 <= i < e.len() && keys_unique(e) implies #[trigger] keys_unique(
                e.update(i, (e[i].0, x)),
            ) by {
                let u = e.update(i, (e[i].0, x));
                assert forall|a: int, b: int|
                    0 <= a < u.len() && 0 <= b < u.len() && a != b implies u[a].0 != u[b].0 by {
                    assert(u[a].0 == e[a].0);
                    assert(u[b].0 == e[b].0);
                }
            }
        }
        match self.find(name) {
            Some(i) => Some(self.value_mut(i)),
            None => None,
        }
    }

    fn value_mut(&mut self, i: usize) -> (r: &mut JsonNode)
        requires
            i < old(self)@.len(),
        ensures
            (*r)@ == old(self)@[i as int].1,
            final(self).sub_nodes@ == old(self).sub_nodes@.update(
                i as int,
                (old(self).sub_nodes@[i as int].0, *final(r)),
            ),
            entries_view(final(self).sub_nodes@) == entries_view(old(self).sub_nodes@).update(
                i as int,
                (old(self).sub_nodes@[i as int].0@, (*final(r))@),
            ),
            final(self).entries_spec() == entries_view(final(self).sub_nodes@),
            final(self)@ =~= old(self)@.update(i as int, (old(self)@[i as int].0, (*final(r))@)),
    {
        proof {
            lemma_entries_view(self.sub_nodes@);
            lemma_entries_view_update(self.sub_nodes@, i as int);
            lemma_entries_view_all();
        }
        let entry = &mut self.sub_nodes[i];
        &mut entry.1
    }

    /// The number of members.
    pub fn size(&self) -> (r: usize)
        ensures
            r == self@.len(),
    {
        proof {
            lemma_entries_view(self.sub_nodes@);
        }
        self.sub_nodes.len()
    }

    pub fn contains_key(&self, name: &str) -> (r: bool)
        ensures
            r == (lookup(self@, name@) is Some),
    {
        self.find(name).is_some()
    }

    /// The member names, in order.
    pub fn keys(&self) -> (r: Vec<String>)
        ensures
            r@.len() == self@.len(),
            forall|i: int| 0 <= i < r@.len() ==> #[trigger] r@[i]@ == self@[i].0,
    {
        proof {
            lemma_entries_view(self.sub_nodes@);
        }
        let mut r: Vec<String> = Vec::new();
        let mut i: usize = 0;
        while i < self.sub_nodes.len()
            invariant
                i <= self.sub_nodes@.len(),
                r@.len() == i,
                self@.len() == self.sub_nodes@.len(),
                forall|j: int|
                    0 <= j < self.sub_nodes@.len() ==> #[trigger] self@[j] == (
                        self.sub_nodes@[j].0@,
                        node_view(self.sub_nodes@[j].1),
                    ),
                forall|j: int| 0 <= j < i ==> #[trigger] r@[j]@ == self@[j].0,
            decreases self.sub_nodes@.len() - i,
        {
            r.push(self.sub_nodes[i].0.clone());
            i = i + 1;
        }
        r
    }
}

impl JsonArray {
    pub fn new() -> (r: JsonArray)
        ensures
            r@ == Seq::<JsonData>::empty(),
    {
        let r = JsonArray { sub_nodes: Vec::new() };
        proof {
            lemma_items_view(r.sub_nodes@);
            assert(r@ =~= Seq::<JsonData>::empty());
        }
        r
    }

    /// Appends `node`.
    pub fn add(&mut self, node: JsonNode)
        ensures
            final(self)@ == old(self)@.push(node@),
    {
        self.sub_nodes.push(node);
        proof {
            lemma_items_view(old(self).sub_nodes@);
            lemma_items_view(self.sub_nodes@);
            assert(self@ =~= old(self)@.push(node@));
        }
    }

    pub fn get(&self, index: usize) -> (r: Option<&JsonNode>)
        ensures
            index < self@.len() ==> (r matches Some(n) && n@ == self@[index as int]),
            index >= self@.len() ==> r is None,
    {
        proof {
            lemma_items_view(self.sub_nodes@);
        }
        if index < self.sub_nodes.len() {
            Some(&self.sub_nodes[index])
        } else {
            None
        }
    }

    pub fn get_mut(&mut self, index: usize) -> (r: Option<&mut JsonNode>)
        ensures
            index >= old(self)@.len() ==> r is None && final(self)@ == old(self)@,
            index < old(self)@.len() ==> r is Some,
            index < old(self)@.len() ==> (*r.unwrap())@ == old(self)@[index as int],
            index < old(self)@.len() ==> final(self)@ =~= old(self)@.update(index as int, (*final(r.unwrap()))@),
    {
        proof {
            lemma_items_view(old(self).sub_nodes@);
        }
        if index < self.sub_nodes.len() {
            Some(self.item_mut(index))
        } else {
            None
        }
    }

    fn item_mut(&mut self, index: usize) -> (r: &mut JsonNode)
        requires
            index < old(self)@.len(),
        ensures
            (*r)@ == old(self)@[index as int],
            final(self).sub_nodes@ == old(self).sub_nodes@.update(index as int, *final(r)),
            items_view(final(self).sub_nodes@) == items_view(old(self).sub_nodes@).update(index as int, (*final(r))@),
            final(self).items_spec() == items_view(final(self).sub_nodes@),
            final(self)@ =~= old(self)@.update(index as int, (*final(r))@),
    {
        proof {
            lemma_items_view(self.sub_nodes@);
            lemma_items_view_update(self.sub_nodes@, index as int);
            lemma_items_view_all();
        }
        &mut self.sub_nodes[index]
    }

    /// Removes the item at `index` and hands it back.
    pub fn remove(&mut self, index: usize) -> (r: Option<JsonNode>)
        ensures
            index < old(self)@.len() ==> (r matches Some(n) && n@ == old(self)@[index as int]
                && final(self)@ == old(self)@.remove(index as int)),
            index >= old(self)@.len() ==> r is None && final(self)@ == old(self)@,
    {
        proof {
            lemma_items_view(old(self).sub_nodes@);
        }
        if index < self.size() {
            let n = self.sub_nodes.remove(index);
            proof {
                lemma_items_view(self.sub_nodes@);
                assert(self@ =~= old(self)@.remove(index as int));
            }
            Some(n)
        } else {
            None
        }
    }

    pub fn size(&self) -> (r: usize)
        ensures
            r == self@.len(),
    {
        proof {
            lemma_items_view(self.sub_nodes@);
        }
        self.sub_nodes.len()
    }
}


impl JsonNode {
    /// Appends the compact JSON text of this node.
    pub fn write_to(&self, out: &mut Vec<char>)
        ensures
            final(out)@ == old(out)@ + ser(self@),
        decreases self,
    {
        match self {
            JsonNode::Object(obj) => obj.write_to(out),
            JsonNode::Array(arr) => arr.write_to(out),
            JsonNode::Number(v) => push_integer(out, *v.get()),
            JsonNode::Float(v) => push_decimal_number(out, *v.get()),
            JsonNode::Bool(v) => {
                if *v.get() {
                    let w = vec!['t', 'r', 'u', 'e'];
                    proof {
                        assert(w@ == true_word());
                    }
                    push_word(out, &w);
                } else {
                    let w = vec!['f', 'a', 'l', 's', 'e'];
                    proof {
                        assert(w@ == false_word());
                    }
                    push_word(out, &w);
                }
            },
            JsonNode::String(v) => push_quoted(out, v.get().as_str()),
            JsonNode::Null => {
                let w = vec!['n', 'u', 'l', 'l'];
                proof {
                    assert(w@ == null_word());
                }
                push_word(out, &w);
            },
        }
    }

    /// The compact JSON text of this node.
    #[allow(clippy::inherent_to_string)]
    pub fn to_string(&self) -> (r: String)
        ensures
            r@ == ser(self@),
    {
        let mut out: Vec<char> = Vec::new();
        self.write_to(&mut out);
        proof {
            assert(out@ =~= ser(self@));
        }
        string_from_chars(&out)
    }
}

impl JsonObject {
    /// Appends the compact JSON text of this object.
    pub fn write_to(&self, out: &mut Vec<char>)
        ensures
            final(out)@ == old(out)@ + ser(JsonData::Object(self@)),
        decreases self,
    {
        proof {
            lemma_entries_view(self.sub_nodes@);
        }
        out.push('{');
        let ghost start = out@;
        let mut i: usize = 0;
        while i < self.sub_nodes.len()
            invariant
                i <= self.sub_nodes@.len(),
                self@.len() == self.sub_nodes@.len(),
                forall|j: int|
                    0 <= j < self.sub_nodes@.len() ==> #[trigger] self@[j] == (
                        self.sub_nodes@[j].0@,
                        node_view(self.sub_nodes@[j].1),
                    ),
                out@ == start + ser_members(self@.subrange(0, i as int)),
            decreases self.sub_nodes@.len() - i,
        {
            let ghost before = out@;
            if i > 0 {
                out.push(',');
            }
            let entry = &self.sub_nodes[i];
            push_quoted(out, entry.0.as_str());
            out.push(':');
            proof {
                assert(decreases_to!(self => self.sub_nodes));
                assert(decreases_to!(self.sub_nodes => self.sub_nodes@));
                assert(decreases_to!(self.sub_nodes@ => self.sub_nodes@[i as int]));
                assert(decreases_to!(self.sub_nodes@[i as int] => self.sub_nodes@[i as int].1));
            }
            entry.1.write_to(out);
            proof {
                let pre = self@.subrange(0, i as int);
                let next = self@.subrange(0, i + 1);
                assert(next.drop_last() =~= pre);
                if i == 0 {
                    assert(pre =~= Seq::<(Seq<char>, JsonData)>::empty());
                }
                assert(out@ =~= start + ser_members(next));
            }
            i = i + 1;
        }
        out.push('}');
        proof {
            assert(self@.subrange(0, self@.len() as int) =~= self@);
            assert(final(out)@ =~= old(out)@ + ser(JsonData::Object(self@)));
        }
    }

    /// The compact JSON text of this object.
    #[allow(clippy::inherent_to_string)]
    pub fn to_string(&self) -> (r: String)
        ensures
            r@ == ser(JsonData::Object(self@)),
    {
        let mut out: Vec<char> = Vec::new();
        self.write_to(&mut out);
        proof {
            assert(out@ =~= ser(JsonData::Object(self@)));
        }
        string_from_chars(&out)
    }
}

impl JsonArray {
    /// Appends the compact JSON text of this array.
    pub fn write_to(&self, out: &mut Vec<char>)
        ensures
            final(out)@ == old(out)@ + ser(JsonData::Array(self@)),
        decreases self,
    {
        proof {
            lemma_items_view(self.sub_nodes@);
        }
        out.push('[');
        let ghost start = out@;
        let mut i: usize = 0;
        while i < self.sub_nodes.len()
            invariant
                i <= self.sub_nodes@.len(),
                self@.len() == self.sub_nodes@.len(),
                forall|j: int|
                    0 <= j < self.sub_nodes@.len() ==> #[trigger] self@[j] == node_view(
                        self.sub_nodes@[j],
                    ),
                out@ == start + ser_items(self@.subrange(0, i as int)),
            decreases self.sub_nodes@.len() - i,
        {
            if i > 0 {
                out.push(',');
            }
            proof {
                assert(decreases_to!(self => self.sub_nodes));
                assert(decreases_to!(self.sub_nodes => self.sub_nodes@));
                assert(decreases_to!(self.sub_nodes@ => self.sub_nodes@[i as int]));
            }
            self.sub_nodes[i].write_to(out);
            proof {
                let pre = self@.subrange(0, i as int);
                let next = self@.subrange(0, i + 1);
                assert(next.drop_last() =~= pre);
                if i == 0 {
                    assert(pre =~= Seq::<JsonData>::empty());
                }
                assert(out@ =~= start + ser_items(next));
            }
            i = i + 1;
        }
        out.push(']');
        proof {
            assert(self@.subrange(0, self@.len() as int) =~= self@);
            assert(final(out)@ =~= old(out)@ + ser(JsonData::Array(self@)));
        }
    }

    /// The compact JSON text of this array.
    #[allow(clippy::inherent_to_string)]
    pub fn to_string(&self) -> (r: String)
        ensures
            r@ == ser(JsonData::Array(self@)),
    {
        let mut out: Vec<char> = Vec::new();
        self.write_to(&mut out);
        proof {
            assert(out@ =~= ser(JsonData::Array(self@)));
        }
        string_from_chars(&out)
    }
}


impl JsonNode {
    /// Whether the two trees are equal as JSON (see `equiv`).
    pub fn equals(&self, other: &JsonNode) -> (r: bool)
        ensures
            r == equiv(self@, other@),
        decreases self,
    {
        match (self, other) {
            (JsonNode::Object(a), JsonNode::Object(b)) => a.equals(b),
            (JsonNode::Array(a), JsonNode::Array(b)) => a.equals(b),
            (JsonNode::Number(a), JsonNode::Number(b)) => *a.get() == *b.get(),
            (JsonNode::Float(a), JsonNode::Float(b)) => *a.get() == *b.get(),
            (JsonNode::Bool(a), JsonNode::Bool(b)) => *a.get() == *b.get(),
            (JsonNode::String(a), JsonNode::String(b)) => *a.get() == *b.get(),
            (JsonNode::Null, JsonNode::Null) => true,
            _ => false,
        }
    }
}

impl JsonObject {
    /// Whether the two objects hold the same names, with equal values.
    pub fn equals(&self, other: &JsonObject) -> (r: bool)
        ensures
            r == equiv(JsonData::Object(self@), JsonData::Object(other@)),
        decreases self,
    {
        proof {
            lemma_entries_view(self.sub_nodes@);
        }
        if self.size() != other.size() {
            return false;
        }
        let mut i: usize = 0;
        while i < self.sub_nodes.len()
            invariant
                i <= self.sub_nodes@.len(),
                self@.len() == self.sub_nodes@.len(),
                self@.len() == other@.len(),
                forall|j: int|
                    0 <= j < self.sub_nodes@.len() ==> #[trigger] self@[j] == (
                        self.sub_nodes@[j].0@,
                        node_view(self.sub_nodes@[j].1),
                    ),
                forall|j: int|
                    0 <= j < i ==> (lookup(other@, #[trigger] self@[j].0) matches Some(w) && equiv(
                        self@[j].1,
                        w,
                    )),
            decreases self.sub_nodes@.len() - i,
        {
            let entry = &self.sub_nodes[i];
            proof {
                assert(decreases_to!(self => self.sub_nodes));
                assert(decreases_to!(self.sub_nodes => self.sub_nodes@));
                assert(decreases_to!(self.sub_nodes@ => self.sub_nodes@[i as int]));
                assert(decreases_to!(self.sub_nodes@[i as int] => self.sub_nodes@[i as int].1));
            }
            match other.get(entry.0.as_str()) {
                Some(w) => {
                    if !entry.1.equals(w) {
                        proof {
                            assert(self@[i as int].0 == entry.0@);
                            assert(!(lookup(other@, self@[i as int].0) matches Some(x) && equiv(
                                self@[i as int].1,
                                x,
                            )));
                        }
                        return false;
                    }
                },
                None => {
                    proof {
                        assert(self@[i as int].0 == entry.0@);
                        assert(lookup(other@, self@[i as int].0) is None);
                    }
                    return false;
                },
            }
            i = i + 1;
        }
        true
    }
}

impl JsonArray {
    /// Whether the two arrays hold equal items in the same order.
    pub fn equals(&self, other: &JsonArray) -> (r: bool)
        ensures
            r == equiv(JsonData::Array(self@), JsonData::Array(other@)),
        decreases self,
    {
        proof {
            lemma_items_view(self.sub_nodes@);
            lemma_items_view(other.sub_nodes@);
        }
        if self.sub_nodes.len() != other.sub_nodes.len() {
            return false;
        }
        let mut i: usize = 0;
        while i < self.sub_nodes.len()
            invariant
                i <= self.sub_nodes@.len(),
                self@.len() == self.sub_nodes@.len(),
                other@.len() == other.sub_nodes@.len(),
                self@.len() == other@.len(),
                forall|j: int|
                    0 <= j < self.sub_nodes@.len() ==> #[trigger] self@[j] == node_view(
                        self.sub_nodes@[j],
                    ),
                forall|j: int|
                    0 <= j < other.sub_nodes@.len() ==> #[trigger] other@[j] == node_view(
                        other.sub_nodes@[j],
                    ),
                forall|j: int| 0 <= j < i ==> equiv(#[trigger] self@[j], other@[j]),
            decreases self.sub_nodes@.len() - i,
        {
            proof {
                assert(decreases_to!(self => self.sub_nodes));
                assert(decreases_to!(self.sub_nodes => self.sub_nodes@));
                assert(decreases_to!(self.sub_nodes@ => self.sub_nodes@[i as int]));
            }
            if !self.sub_nodes[i].equals(&other.sub_nodes[i]) {
                proof {
                    assert(!equiv(self@[i as int], other@[i as int]));
                }
                return false;
            }
            i = i + 1;
        }
        true
    }
}

impl PartialEq for JsonNode {
    fn eq(&self, other: &JsonNode) -> (r: bool) {
        self.equals(other)
    }
}

impl vstd::std_specs::cmp::PartialEqSpecImpl for JsonNode {
    open spec fn obeys_eq_spec() -> bool {
        true
    }

    open spec fn eq_spec(&self, other: &JsonNode) -> bool {
        equiv(self@, other@)
    }
}

impl PartialEq for JsonObject {
    fn eq(&self, other: &JsonObject) -> (r: bool) {
        self.equals(other)
    }
}

impl vstd::std_specs::cmp::PartialEqSpecImpl for JsonObject {
    open spec fn obeys_eq_spec() -> bool {
        true
    }

    open spec fn eq_spec(&self, other: &JsonObject) -> bool {
        equiv(JsonData::Object(self@), JsonData::Object(other@))
    }
}

impl PartialEq for JsonArray {
    fn eq(&self, other: &JsonArray) -> (r: bool) {
        self.equals(other)
    }
}

impl vstd::std_specs::cmp::PartialEqSpecImpl for JsonArray {
    open spec fn obeys_eq_spec() -> bool {
        true
    }

    open spec fn eq_spec(&self, other: &JsonArray) -> bool {
        equiv(JsonData::Array(self@), JsonData::Array(other@))
    }
}

} // verus!
