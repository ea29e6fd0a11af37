//! JSON documents as plain values.

use vstd::prelude::*;
use crate::geo::Real;
use crate::text::same_text;
#[allow(unused_imports)]
use crate::text::{digit_char, joined, texts};

verus! {

/// A JSON document.
pub enum Json {
    Null,
    Bool(bool),
    /// A number: as an integer where it is one that fits, and as a real.
    Number(Option<i64>, Option<Real>),
    Text(String),
    List(Vec<Json>),
    /// The fields in the order of their names.
    Object(Vec<(String, Json)>),
}

/// The model of a JSON document.
pub enum Tree {
    Null,
    Bool(bool),
    Number(Option<i64>, Option<Real>),
    Text(Seq<char>),
    List(Seq<Tree>),
    Object(Seq<(Seq<char>, Tree)>),
}

impl Json {
    pub open spec fn tree(&self) -> Tree
        decreases self,
    {
        match self {
            Json::Null => Tree::Null,
            Json::Bool(b) => Tree::Bool(*b),
            Json::Number(i, r) => Tree::Number(*i, *r),
            Json::Text(s) => Tree::Text(s@),
            Json::List(v) => Tree::List(
                Seq::new(
                    v@.len(),
                    |i: int|
                        if 0 <= i < v@.len() {
                            v@[i].tree()
                        } else {
                            Tree::Null
                        },
                ),
            ),
            Json::Object(v) => Tree::Object(
                Seq::new(
                    v@.len(),
                    |i: int|
                        if 0 <= i < v@.len() {
                            (v@[i].0@, v@[i].1.tree())
                        } else {
                            (Seq::empty(), Tree::Null)
                        },
                ),
            ),
        }
    }
}

impl Tree {
    /// The position of the field `key`.
    pub open spec fn has_field_at(self, key: Seq<char>, i: int) -> bool {
        &&& self is Object
        &&& 0 <= i < self->Object_0.len()
        &&& self->Object_0[i].0 == key
        &&& forall|j: int| 0 <= j < i ==> (#[trigger] self->Object_0[j]).0 != key
    }

    /// The field `key` of an object; other documents have none.
    pub open spec fn field(self, key: Seq<char>) -> Option<Tree> {
        if exists|i: int| self.has_field_at(key, i) {
            Some(self->Object_0[choose|i: int| self.has_field_at(key, i)].1)
        } else {
            None
        }
    }

    pub open spec fn as_text(self) -> Option<Seq<char>> {
        match self {
            Tree::Text(s) => Some(s),
            _ => None,
        }
    }

    pub open spec fn as_real(self) -> Option<Real> {
        match self {
            Tree::Number(_, r) => r,
            _ => None,
        }
    }

    pub open spec fn as_int(self) -> Option<i64> {
        match self {
            Tree::Number(i, _) => i,
            _ => None,
        }
    }

    pub open spec fn as_bool(self) -> Option<bool> {
        match self {
            Tree::Bool(b) => Some(b),
            _ => None,
        }
    }

    /// The text in the field `key`.
    pub open spec fn text_at(self, key: Seq<char>) -> Option<Seq<char>> {
        match self.field(key) {
            Some(t) => t.as_text(),
            None => None,
        }
    }

    /// The real number in the field `key`.
    pub open spec fn real_at(self, key: Seq<char>) -> Option<Real> {
        match self.field(key) {
            Some(t) => t.as_real(),
            None => None,
        }
    }

    /// The integer in the field `key`.
    pub open spec fn int_at(self, key: Seq<char>) -> Option<i64> {
        match self.field(key) {
            Some(t) => t.as_int(),
            None => None,
        }
    }

    /// The truth value in the field `key`.
    pub open spec fn bool_at(self, key: Seq<char>) -> Option<bool> {
        match self.field(key) {
            Some(t) => t.as_bool(),
            None => None,
        }
    }

    /// The texts of a list in order, without its other items.
    pub open spec fn texts_in(self) -> Seq<Seq<char>> {
        match self {
            Tree::List(v) => texts_of(v),
            _ => Seq::empty(),
        }
    }

    /// The names of an object's fields in order.
    pub open spec fn names_in(self) -> Seq<Seq<char>> {
        match self {
            Tree::Object(v) => Seq::new(v.len(), |i: int| v[i].0),
            _ => Seq::empty(),
        }
    }
}

/// The document is an object whose only field `key` holds `v`.
pub open spec fn holds(t: Tree, key: Seq<char>, v: Tree) -> bool {
    t matches Tree::Object(f) && exists|i: int| #[trigger] is_only_field(f, key, v, i)
}

/// Field `i` is the only one named `key`, and holds `v`.
pub open spec fn is_only_field(f: Seq<(Seq<char>, Tree)>, key: Seq<char>, v: Tree, i: int) -> bool {
    0 <= i < f.len() && f[i] == (key, v) && forall|j: int|
        0 <= j < f.len() && j != i ==> (#[trigger] f[j]).0 != key
}

/// The document has no field `key`.
pub open spec fn lacks(t: Tree, key: Seq<char>) -> bool {
    t matches Tree::Object(f) ==> forall|j: int| 0 <= j < f.len() ==> (#[trigger] f[j]).0 != key
}

/// A field is found by its name, and a missing one is not.
pub proof fn law_fields_are_found(t: Tree, key: Seq<char>, v: Tree)
    ensures
        holds(t, key, v) ==> t.field(key) == Some(v),
        lacks(t, key) ==> t.field(key) is None,
{
    if holds(t, key, v) {
        let f = t->Object_0;
        let i = choose|i: int| #[trigger] is_only_field(f, key, v, i);
        assert(t.has_field_at(key, i));
        let c = choose|c: int| t.has_field_at(key, c);
        assert(t.has_field_at(key, c));
        assert(c == i);
    }
    if lacks(t, key) {
        assert forall|c: int| !t.has_field_at(key, c) by {
            if t.has_field_at(key, c) {
                assert(t->Object_0[c].0 == key);
            }
        }
    }
}

/// Of the items of a list its texts are read, all of them and nothing else, in
/// the order in which they stand.
pub proof fn law_texts_are_read(items: Seq<Tree>, x: Seq<char>, more: Tree)
    ensures
        texts_of(items).contains(x) <==> items.contains(Tree::Text(x)),
        texts_of(items.push(Tree::Text(x))) == texts_of(items).push(x),
        !(more is Text) ==> texts_of(items.push(more)) == texts_of(items),
    decreases items.len(),
{
    assert(items.push(Tree::Text(x)).drop_last() =~= items);
    assert(items.push(more).drop_last() =~= items);
    if items.len() > 0 {
        let rest = items.drop_last();
        law_texts_are_read(rest, x, more);
        let (head, all) = (texts_of(rest), texts_of(items));
        assert(items[items.len() - 1] == items.last());
        if head.contains(x) {
            let i = choose|i: int| 0 <= i < rest.len() && rest[i] == Tree::Text(x);
            assert(items[i] == Tree::Text(x));
            let k = choose|k: int| 0 <= k < head.len() && head[k] == x;
            assert(all[k] == x);
        }
        if all.contains(x) && !head.contains(x) {
            let k = choose|k: int| 0 <= k < all.len() && all[k] == x;
            if k < head.len() {
                assert(head[k] == x);
            }
            assert(items[items.len() - 1] == Tree::Text(x));
        }
        if items.contains(Tree::Text(x)) && !head.contains(x) {
            let i = choose|i: int| 0 <= i < items.len() && items[i] == Tree::Text(x);
            if i < rest.len() {
                assert(rest[i] == Tree::Text(x));
            }
            assert(all[all.len() - 1] == x);
        }
    }
}

/// The texts among `items`, in order.
pub open spec fn texts_of(items: Seq<Tree>) -> Seq<Seq<char>>
    decreases items.len(),
{
    if items.len() == 0 {
        Seq::empty()
    } else {
        match items.last() {
            Tree::Text(s) => texts_of(items.drop_last()).push(s),
            _ => texts_of(items.drop_last()),
        }
    }
}

impl Json {
    /// The field `key` of an object; other documents have none.
    pub fn get(&self, key: &str) -> (r: Option<&Json>)
        ensures
            match r {
                Some(j) => self.tree().field(key@) == Some(j.tree()),
                None => self.tree().field(key@) is None,
            },
    {
        match self {
            Json::Object(v) => {
                let mut i: usize = 0;
                while i < v.len()
                    invariant
                        *self == Json::Object(*v),
                        i <= v@.len(),
                        forall|j: int| 0 <= j < i ==> (#[trigger] v@[j]).0@ != key@,
                    decreases v@.len() - i,
                {
                    let ghost fields = self.tree()->Object_0;
                    if same_text(v[i].0.as_str(), key) {
                        proof {
                            assert forall|j: int| 0 <= j < i implies (#[trigger] fields[j]).0
                                != key@ by {
                                assert(v@[j].0@ != key@);
                            }
                            assert(self.tree().has_field_at(key@, i as int));
                            let c = choose|c: int| self.tree().has_field_at(key@, c);
                            assert(self.tree().has_field_at(key@, c));
                            if c < i {
                                assert(v@[c].0@ != key@);
                            } else if i < c {
                                assert(fields[i as int].0 != key@);
                            }
                        }
                        return Some(&v[i].1);
                    }
                    i = i + 1;
                }
                proof {
                    assert forall|c: int| !self.tree().has_field_at(key@, c) by {
                        if self.tree().has_field_at(key@, c) {
                            assert(v@[c].0@ == key@);
                        }
                    }
                }
                None
            },
            _ => None,
        }
    }

    /// The text in the field `key`.
    pub fn text_at(&self, key: &str) -> (r: Option<String>)
        ensures
            match r {
                Some(s) => self.tree().text_at(key@) == Some(s@),
                None => self.tree().text_at(key@) is None,
            },
    {
        match self.get(key) {
            Some(Json::Text(s)) => Some(s.clone()),
            _ => None,
        }
    }

    /// The real number in the field `key`.
    pub fn real_at(&self, key: &str) -> (r: Option<Real>)
        ensures
            r == self.tree().real_at(key@),
    {
        match self.get(key) {
            Some(Json::Number(_, r)) => *r,
            _ => None,
        }
    }

    /// The integer in the field `key`.
    pub fn int_at(&self, key: &str) -> (r: Option<i64>)
        ensures
            r == self.tree().int_at(key@),
    {
        match self.get(key) {
            Some(Json::Number(i, _)) => *i,
            _ => None,
        }
    }

    /// The truth value in the field `key`.
    pub fn bool_at(&self, key: &str) -> (r: Option<bool>)
        ensures
            r == self.tree().bool_at(key@),
    {
        match self.get(key) {
            Some(Json::Bool(b)) => Some(*b),
            _ => None,
        }
    }

    /// The texts of a list in order, without its other items.
    pub fn texts_in(&self) -> (r: Vec<String>)
        ensures
            texts(r@) == self.tree().texts_in(),
    {
        let mut out: Vec<String> = Vec::new();
        if let Json::List(v) = self {
            let ghost items = self.tree()->List_0;
            let mut i: usize = 0;
            while i < v.len()
                invariant
                    *self == Json::List(*v),
                    items == self.tree()->List_0,
                    i <= v@.len(),
                    texts(out@) == texts_of(items.take(i as int)),
                decreases v@.len() - i,
            {
                assert(items.take(i + 1).drop_last() =~= items.take(i as int));
                assert(items.take(i + 1).last() == v@[i as int].tree());
                if let Json::Text(s) = &v[i] {
                    out.push(s.clone());
                    assert(texts(out@) =~= texts_of(items.take(i as int)).push(s@));
                }
                i = i + 1;
            }
            assert(items.take(v@.len() as int) =~= items);
        } else {
            assert(texts(out@) =~= Seq::empty());
        }
        out
    }

    /// The names of an object's fields in order.
    pub fn names_in(&self) -> (r: Vec<String>)
        ensures
            texts(r@) == self.tree().names_in(),
    {
        let mut out: Vec<String> = Vec::new();
        if let Json::Object(v) = self {
            let mut i: usize = 0;
            while i < v.len()
                invariant
                    *self == Json::Object(*v),
                    i <= v@.len(),
                    texts(out@) == self.tree().names_in().take(i as int),
                decreases v@.len() - i,
            {
                let ghost names = self.tree().names_in();
                let ghost before = out@;
                out.push(v[i].0.clone());
                assert(names[i as int] == v@[i as int].0@);
                assert(texts(out@) =~= texts(before).push(v@[i as int].0@));
                assert(names.take(i + 1) =~= names.take(i as int).push(names[i as int]));
                i = i + 1;
            }
            assert(texts(out@) =~= self.tree().names_in());
        } else {
            assert(texts(out@) =~= Seq::empty());
        }
        out
    }
}

/// A document as `serde_json` holds it, passed on unread.
#[verifier::external_type_specification]
#[verifier::external_body]
pub struct ExValue(serde_json::Value);

/// The error of `serde_json`, passed on unread.
#[verifier::external_type_specification]
#[verifier::external_body]
pub struct ExError(serde_json::Error);

/// What a `serde_json::Value` holds.
pub uninterp spec fn value_tree(v: serde_json::Value) -> Tree;

/// The document that `serde_json::from_slice` reads from a text, where it
/// reads one.
pub uninterp spec fn parsed(text: Seq<u8>) -> Option<Tree>;

/// `serde_json::from_slice` into a `Value`. Which texts are documents, and
/// which document each one is, is named [`parsed`]: the JSON grammar is not
/// written out here.
#[verifier::external_body]
fn value_from_slice(text: &[u8]) -> (r: Result<serde_json::Value, serde_json::Error>)
    ensures
        match r {
            Ok(v) => parsed(text@) == Some(value_tree(v)),
            Err(_) => parsed(text@) is None,
        },
{
    serde_json::from_slice::<serde_json::Value>(text)
}

/// One level of a `serde_json::Value`.
enum Layer {
    Null,
    Bool(bool),
    Number(Option<i64>, Option<Real>),
    Text(String),
    List(Vec<serde_json::Value>),
    Object(Vec<(String, serde_json::Value)>),
}

impl Layer {
    spec fn tree(self) -> Tree {
        match self {
            Layer::Null => Tree::Null,
            Layer::Bool(b) => Tree::Bool(b),
            Layer::Number(i, r) => Tree::Number(i, r),
            Layer::Text(s) => Tree::Text(s@),
            Layer::List(v) => Tree::List(v@.map_values(|x: serde_json::Value| value_tree(x))),
            Layer::Object(v) => Tree::Object(
                v@.map_values(|x: (String, serde_json::Value)| (x.0@, value_tree(x.1))),
            ),
        }
    }
}

/// The variants of `serde_json::Value` one for one; a number by
/// `Number::as_i64` and `Number::as_f64`, the latter by its bits; the fields
/// of an object in the order of its `Map`.
#[verifier::external_body]
fn layer_of(v: serde_json::Value) -> (r: Layer)
    ensures
        r.tree() == value_tree(v),
{
    match v {
        serde_json::Value::Null => Layer::Null,
        serde_json::Value::Bool(b) => Layer::Bool(b),
        serde_json::Value::Number(n) => {
            Layer::Number(n.as_i64(), n.as_f64().map(|x| Real { bits: x.to_bits() }))
        },
        serde_json::Value::String(s) => Layer::Text(s),
        serde_json::Value::Array(a) => Layer::List(a),
        serde_json::Value::Object(o) => Layer::Object(o.into_iter().collect()),
    }
}

fn json_of(v: serde_json::Value) -> (r: Json)
    ensures
        r.tree() == value_tree(v),
    decreases value_tree(v),
{
    let ghost top = value_tree(v);
    match layer_of(v) {
        Layer::Null => Json::Null,
        Layer::Bool(b) => Json::Bool(b),
        Layer::Number(i, r) => Json::Number(i, r),
        Layer::Text(s) => Json::Text(s),
        Layer::List(items) => {
            let ghost full = items@;
            let ghost want = top->List_0;
            let mut items = items;
            let mut back: Vec<Json> = Vec::new();
            while items.len() > 0
                invariant
                    top == Tree::List(want),
                    top == value_tree(v),
                    want == full.map_values(|x: serde_json::Value| value_tree(x)),
                    items@ == full.take(items@.len() as int),
                    items@.len() + back@.len() == full.len(),
                    forall|j: int|
                        0 <= j < back@.len() ==> (#[trigger] back@[j]).tree() == want[full.len() - 1
                            - j],
                decreases items@.len(),
            {
                let ghost n = items@.len() - 1;
                let x = items.pop().unwrap();
                assert(x == full[n]);
                assert(value_tree(x) == want[n]);
                assert(decreases_to!(top => top->List_0));
                assert(decreases_to!(top->List_0 => top->List_0[n]));
                assert(items@ =~= full.take(n));
                back.push(json_of(x));
            }
            let mut list: Vec<Json> = Vec::new();
            while back.len() > 0
                invariant
                    top == Tree::List(want),
                    back@.len() + list@.len() == want.len(),
                    want.len() == full.len(),
                    forall|j: int|
                        0 <= j < back@.len() ==> (#[trigger] back@[j]).tree() == want[full.len() - 1
                            - j],
                    forall|j: int| 0 <= j < list@.len() ==> (#[trigger] list@[j]).tree() == want[j],
                decreases back@.len(),
            {
                let ghost was = back@;
                let x = back.pop().unwrap();
                assert(x == was[was.len() - 1]);
                list.push(x);
            }
            let r = Json::List(list);
            assert(r.tree()->List_0 =~= want);
            r
        },
        Layer::Object(fields) => {
            let ghost full = fields@;
            let ghost want = top->Object_0;
            let mut fields = fields;
            let mut back: Vec<(String, Json)> = Vec::new();
            while fields.len() > 0
                invariant
                    top == Tree::Object(want),
                    top == value_tree(v),
                    want == full.map_values(
                        |x: (String, serde_json::Value)| (x.0@, value_tree(x.1)),
                    ),
                    fields@ == full.take(fields@.len() as int),
                    fields@.len() + back@.len() == full.len(),
                    forall|j: int|
                        0 <= j < back@.len() ==> (
                            (#[trigger] back@[j]).0@,
                            back@[j].1.tree(),
                        ) == want[full.len() - 1 - j],
                decreases fields@.len(),
            {
                let ghost n = fields@.len() - 1;
                let (name, x) = fields.pop().unwrap();
                assert((name, x) == full[n]);
                assert((name@, value_tree(x)) == want[n]);
                assert(decreases_to!(top => top->Object_0));
                assert(decreases_to!(top->Object_0 => top->Object_0[n]));
                assert(decreases_to!(top->Object_0[n] => top->Object_0[n].1));
                assert(fields@ =~= full.take(n));
                back.push((name, json_of(x)));
            }
            let mut list: Vec<(String, Json)> = Vec::new();
            while back.len() > 0
                invariant
                    top == Tree::Object(want),
                    back@.len() + list@.len() == want.len(),
                    want.len() == full.len(),
                    forall|j: int|
                        0 <= j < back@.len() ==> (
                            (#[trigger] back@[j]).0@,
                            back@[j].1.tree(),
                        ) == want[full.len() - 1 - j],
                    forall|j: int|
                        0 <= j < list@.len() ==> ((#[trigger] list@[j]).0@, list@[j].1.tree())
                            == want[j],
                decreases back@.len(),
            {
                let ghost was = back@;
                let x = back.pop().unwrap();
                assert(x == was[was.len() - 1]);
                list.push(x);
            }
            let r = Json::Object(list);
            assert(r.tree()->Object_0 =~= want);
            r
        },
    }
}

/// Reads a JSON document.
pub fn read_json(text: &[u8]) -> (r: Option<Json>)
    ensures
        match r {
            Some(j) => parsed(text@) == Some(j.tree()),
            None => parsed(text@) is None,
        },
{
    match value_from_slice(text) {
        Ok(v) => Some(json_of(v)),
        Err(_) => None,
    }
}

/// A character inside a JSON string.
pub open spec fn escaped(c: char) -> Seq<char> {
    if c == '"' || c == '\\' {
        seq!['\\', c]
    } else if c == '\u{8}' {
        seq!['\\', 'b']
    } else if c == '\t' {
        seq!['\\', 't']
    } else if c == '\n' {
        seq!['\\', 'n']
    } else if c == '\u{c}' {
        seq!['\\', 'f']
    } else if c == '\r' {
        seq!['\\', 'r']
    } else if (c as u32) < 32 {
        seq!['\\', 'u', '0', '0', digit_char((c as u32 / 16) as nat), digit_char((c as u32 % 16) as nat)]
    } else {
        seq![c]
    }
}

/// A JSON string.
pub open spec fn quoted(s: Seq<char>) -> Seq<char> {
    seq!['"'] + s.map_values(|c: char| escaped(c)).flatten() + seq!['"']
}

/// A JSON list of strings, without white space.
pub open spec fn quoted_list(list: Seq<Seq<char>>) -> Seq<char> {
    seq!['['] + joined(list.map_values(|s: Seq<char>| quoted(s)), seq![',']) + seq![']']
}

/// `serde_json::to_string` of a list of strings: the strings in order, each
/// quoted and escaped, in brackets and with commas. It cannot fail: strings
/// always serialise and the text is written to memory.
#[verifier::external_body]
pub(crate) fn list_to_string(list: &Vec<String>) -> (r: String)
    ensures
        r@ == quoted_list(texts(list@)),
{
    serde_json::to_string(list).unwrap_or_default()
}

} // verus!
