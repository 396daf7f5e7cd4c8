//! The value tree: kinds, typed readers and writers, adders, appenders and
//! auto-vivifying access.
use vstd::prelude::*;
use crate::chars::chars_of;
use crate::chars::string_of;
use crate::model::Json;
use crate::model::is_scalar;
use crate::model::payload;
use crate::model::elems_of;
use crate::model::entries_of;
use crate::model::insert_entry;
use crate::model::key_pos;
use crate::model::lemma_key_pos;
use crate::model::unique_keys;
use crate::number::int_of;
use crate::number::int_text;
use crate::number::parse_int;
use crate::number::push_int_text;

verus! {

pub(crate) enum Kind {
    Str,
    Int,
    Decimal,
    Bool,
    Array,
    Object,
    Null,
    Undefined,
}

/// A JSON value. A new one is Undefined; setters, adders, appenders and
/// indexed writes change its kind.
pub struct JsonValue {
    pub(crate) kind: Kind,
    pub(crate) text: String,
    pub(crate) items: Vec<JsonValue>,
    pub(crate) fields: Vec<(String, JsonValue)>,
}

/// The models of a sequence of values.
pub open spec fn views(s: Seq<JsonValue>) -> Seq<Json> {
    Seq::new(s.len(), |i: int| s[i]@)
}

/// The models of a sequence of entries.
pub open spec fn entry_views(s: Seq<(String, JsonValue)>) -> Seq<(Seq<char>, Json)> {
    Seq::new(s.len(), |i: int| (s[i].0@, s[i].1@))
}

impl View for JsonValue {
    type V = Json;

    open spec fn view(&self) -> Json {
        self.model()
    }
}

impl JsonValue {
    /// The model of this value; see `Json`.
    pub closed spec fn model(&self) -> Json
        decreases self,
    {
        match self.kind {
            Kind::Str => Json::Str(self.text@),
            Kind::Int => Json::Int(self.text@),
            Kind::Decimal => Json::Decimal(self.text@),
            Kind::Bool => Json::Bool(self.text@),
            Kind::Array => Json::Array(
                Seq::new(
                    self.items@.len(),
                    |i: int|
                        if 0 <= i < self.items@.len() {
                            self.items@[i].model()
                        } else {
                            Json::Undefined
                        },
                ),
            ),
            Kind::Object => Json::Object(
                Seq::new(
                    self.fields@.len(),
                    |i: int|
                        if 0 <= i < self.fields@.len() {
                            (self.fields@[i].0@, self.fields@[i].1.model())
                        } else {
                            (Seq::empty(), Json::Undefined)
                        },
                ),
            ),
            Kind::Null => Json::Null(self.text@),
            Kind::Undefined => Json::Undefined,
        }
    }
}

pub(crate) broadcast proof fn lemma_model(v: &JsonValue)
    ensures
        #![trigger v.model()]
        v.kind is Str ==> v.model() == Json::Str(v.text@),
        v.kind is Int ==> v.model() == Json::Int(v.text@),
        v.kind is Decimal ==> v.model() == Json::Decimal(v.text@),
        v.kind is Bool ==> v.model() == Json::Bool(v.text@),
        v.kind is Array ==> v.model() == Json::Array(views(v.items@)),
        v.kind is Object ==> v.model() == Json::Object(entry_views(v.fields@)),
        v.kind is Null ==> v.model() == Json::Null(v.text@),
        v.kind is Undefined ==> v.model() == Json::Undefined,
{
    if v.kind is Array {
        assert(v.model()->Array_0 =~= views(v.items@));
    }
    if v.kind is Object {
        let a = v.model()->Object_0;
        let b = entry_views(v.fields@);
        assert forall|i: int| 0 <= i < a.len() implies a[i] == b[i] by {
            assert(a[i] == (v.fields@[i].0@, v.fields@[i].1@));
        }
        assert(a =~= b);
    }
}

/// No two entries share a key.
pub open spec fn distinct_keys(s: Seq<(String, JsonValue)>) -> bool {
    forall|a: int, b: int| 0 <= a < b < s.len() ==> s[a].0@ != s[b].0@
}

impl JsonValue {
    /// Well-formedness, throughout the tree: the container that the kind does
    /// not use is empty, and no two entries of an object share a key.
    pub closed spec fn wf(&self) -> bool
        decreases self,
    {
        &&& (self.kind is Array || self.items@.len() == 0)
        &&& (self.kind is Object || self.fields@.len() == 0)
        &&& distinct_keys(self.fields@)
        &&& forall|i: int| 0 <= i < self.items@.len() ==> (#[trigger] self.items@[i]).wf()
        &&& forall|i: int| 0 <= i < self.fields@.len() ==> (#[trigger] self.fields@[i]).1.wf()
    }
}

pub(crate) broadcast proof fn lemma_wf(v: &JsonValue)
    ensures
        #[trigger] v.wf() == {
            &&& (v.kind is Array || v.items@.len() == 0)
            &&& (v.kind is Object || v.fields@.len() == 0)
            &&& distinct_keys(v.fields@)
            &&& forall|i: int| 0 <= i < v.items@.len() ==> (#[trigger] v.items@[i]).wf()
            &&& forall|i: int| 0 <= i < v.fields@.len() ==> (#[trigger] v.fields@[i]).1.wf()
        },
{
}

pub(crate) proof fn lemma_distinct_unique(s: Seq<(String, JsonValue)>)
    requires
        distinct_keys(s),
    ensures
        unique_keys(entry_views(s)),
{
    let es = entry_views(s);
    assert forall|a: int, b: int| 0 <= a < b < es.len() implies es[a].0 != es[b].0 by {
        assert(es[a].0 == s[a].0@ && es[b].0 == s[b].0@);
    }
}

pub(crate) broadcast proof fn lemma_views_update(s: Seq<JsonValue>, i: int, v: JsonValue)
    requires
        0 <= i < s.len(),
    ensures
        #[trigger] views(s.update(i, v)) == views(s).update(i, v@),
{
    assert(views(s.update(i, v)) =~= views(s).update(i, v@));
}

pub(crate) broadcast proof fn lemma_entry_views_update(s: Seq<(String, JsonValue)>, i: int, e: (String, JsonValue))
    requires
        0 <= i < s.len(),
    ensures
        #[trigger] entry_views(s.update(i, e)) == entry_views(s).update(i, (e.0@, e.1@)),
{
    assert(entry_views(s.update(i, e)) =~= entry_views(s).update(i, (e.0@, e.1@)));
}

impl JsonValue {
    pub(crate) proof fn lemma_view(&self)
        ensures
            self.kind is Str ==> self@ == Json::Str(self.text@),
            self.kind is Int ==> self@ == Json::Int(self.text@),
            self.kind is Decimal ==> self@ == Json::Decimal(self.text@),
            self.kind is Bool ==> self@ == Json::Bool(self.text@),
            self.kind is Array ==> self@ == Json::Array(views(self.items@)),
            self.kind is Object ==> self@ == Json::Object(entry_views(self.fields@)),
            self.kind is Null ==> self@ == Json::Null(self.text@),
            self.kind is Undefined ==> self@ == Json::Undefined,
    {
        lemma_model(self);
    }

    pub(crate) fn from_parts(kind: Kind, text: String) -> (r: JsonValue)
        ensures
            r.kind == kind,
            r.text@ == text@,
            r.items@.len() == 0,
            r.fields@.len() == 0,
            r.wf(),
    {
        let r = JsonValue { kind, text, items: Vec::new(), fields: Vec::new() };
        proof {
            lemma_wf(&r);
        }
        r
    }

    /// A new value, of kind Undefined.
    pub fn new() -> (r: JsonValue)
        ensures
            r@ == Json::Undefined,
            r.wf(),
    {
        let r = JsonValue::from_parts(Kind::Undefined, String::new());
        proof {
            r.lemma_view();
        }
        r
    }

    pub fn is_undefined(&self) -> (r: bool)
        ensures
            r == self@ is Undefined,
    {
        proof {
            self.lemma_view();
        }
        match self.kind {
            Kind::Undefined => true,
            _ => false,
        }
    }

    pub fn is_null(&self) -> (r: bool)
        ensures
            r == self@ is Null,
    {
        proof {
            self.lemma_view();
        }
        match self.kind {
            Kind::Null => true,
            _ => false,
        }
    }

    pub fn is_object(&self) -> (r: bool)
        ensures
            r == self@ is Object,
    {
        proof {
            self.lemma_view();
        }
        match self.kind {
            Kind::Object => true,
            _ => false,
        }
    }

    pub fn is_array(&self) -> (r: bool)
        ensures
            r == self@ is Array,
    {
        proof {
            self.lemma_view();
        }
        match self.kind {
            Kind::Array => true,
            _ => false,
        }
    }

    /// True for the four scalar kinds: string, integer, decimal and boolean.
    pub fn is_value(&self) -> (r: bool)
        ensures
            r == is_scalar(self@),
    {
        proof {
            self.lemma_view();
        }
        match self.kind {
            Kind::Undefined => false,
            Kind::Array => false,
            Kind::Null => false,
            Kind::Object => false,
            _ => true,
        }
    }

    pub fn is_bool(&self) -> (r: bool)
        ensures
            r == self@ is Bool,
    {
        proof {
            self.lemma_view();
        }
        match self.kind {
            Kind::Bool => true,
            _ => false,
        }
    }

    pub fn is_string(&self) -> (r: bool)
        ensures
            r == self@ is Str,
    {
        proof {
            self.lemma_view();
        }
        match self.kind {
            Kind::Str => true,
            _ => false,
        }
    }

    pub fn is_int(&self) -> (r: bool)
        ensures
            r == self@ is Int,
    {
        proof {
            self.lemma_view();
        }
        match self.kind {
            Kind::Int => true,
            _ => false,
        }
    }

    pub fn is_decimal(&self) -> (r: bool)
        ensures
            r == self@ is Decimal,
    {
        proof {
            self.lemma_view();
        }
        match self.kind {
            Kind::Decimal => true,
            _ => false,
        }
    }

    /// The scalar text, or for a Null the literal it was read from; empty for
    /// the other kinds.
    pub fn as_string(&self) -> (r: &str)
        ensures
            r@ == payload(self@),
    {
        proof {
            self.lemma_view();
        }
        match self.kind {
            Kind::Str | Kind::Int | Kind::Decimal | Kind::Bool | Kind::Null => self.text.as_str(),
            _ => {
                proof {
                    reveal_strlit("");
                }
                ""
            },
        }
    }

    /// True exactly when the scalar text is `true`.
    pub fn as_bool(&self) -> (r: bool)
        ensures
            r == (payload(self@) == seq!['t', 'r', 'u', 'e']),
    {
        let t = chars_of(self.as_string());
        let r = t.len() == 4 && t[0] == 't' && t[1] == 'r' && t[2] == 'u' && t[3] == 'e';
        assert(r ==> t@ =~= seq!['t', 'r', 'u', 'e']);
        r
    }

    /// The scalar text read as a 128-bit integer; zero where it is not one.
    pub fn as_int(&self) -> (r: i128)
        ensures
            r as int == int_of(payload(self@)),
    {
        let t = chars_of(self.as_string());
        parse_int(&t)
    }

    pub fn set_string(&mut self, value: &str)
        ensures
            final(self)@ == Json::Str(value@),
            final(self).wf(),
    {
        *self = JsonValue::from_parts(Kind::Str, value.to_owned());
        proof {
            final(self).lemma_view();
        }
    }

    pub fn set_int(&mut self, value: i128)
        ensures
            final(self)@ == Json::Int(int_text(value as int)),
            final(self).wf(),
    {
        let mut t: Vec<char> = Vec::new();
        push_int_text(&mut t, value);
        assert(t@ =~= int_text(value as int));
        *self = JsonValue::from_parts(Kind::Int, string_of(&t));
        proof {
            final(self).lemma_view();
        }
    }

    /// Makes this a decimal whose text is `text`, such as the display form of a float.
    pub fn set_decimal_text(&mut self, text: &str)
        ensures
            final(self)@ == Json::Decimal(text@),
            final(self).wf(),
    {
        *self = JsonValue::from_parts(Kind::Decimal, text.to_owned());
        proof {
            final(self).lemma_view();
        }
    }

    pub fn set_bool(&mut self, value: bool)
        ensures
            final(self)@ == Json::Bool(bool_text(value)),
            final(self).wf(),
    {
        let t: Vec<char> = if value { vec!['t', 'r', 'u', 'e'] } else { vec!['f', 'a', 'l', 's', 'e'] };
        assert(t@ =~= bool_text(value));
        *self = JsonValue::from_parts(Kind::Bool, string_of(&t));
        proof {
            final(self).lemma_view();
        }
    }
    /// The first entry whose key is `key`.
    fn find_key(fields: &Vec<(String, JsonValue)>, key: &String) -> (r: Option<usize>)
        ensures
            match r {
                Some(p) => p as int == key_pos(entry_views(fields@), key@),
                None => key_pos(entry_views(fields@), key@) == -1,
            },
    {
        let ghost es = entry_views(fields@);
        proof {
            lemma_key_pos(es, key@);
        }
        let mut i: usize = 0;
        while i < fields.len()
            invariant
                i <= fields@.len(),
                es == entry_views(fields@),
                forall|j: int| 0 <= j < i ==> es[j].0 != key@,
            decreases fields@.len() - i,
        {
            if fields[i].0 == *key {
                assert(es[i as int].0 == key@);
                proof {
                    lemma_key_pos(es, key@);
                    let kp = key_pos(es, key@);
                    if kp >= 0 && kp < i {
                        assert(es[kp].0 != key@);
                    }
                    if kp < 0 || kp > i {
                        assert(es[i as int].0 != key@);
                    }
                }
                return Some(i);
            }
            i = i + 1;
        }
        None
    }

    /// Writes `value` under `key`, making this an object first if it is not one.
    pub fn add_json(&mut self, key: &str, value: JsonValue)
        ensures
            final(self)@ == Json::Object(insert_entry(entries_of(old(self)@), key@, value@)),
            old(self).wf() && value.wf() ==> final(self).wf(),
    {
        proof {
            old(self).lemma_view();
            lemma_wf(old(self));
            lemma_wf(&value);
        }
        match self.kind {
            Kind::Object => {},
            _ => {
                self.kind = Kind::Object;
                self.text = String::new();
                self.items = Vec::new();
                self.fields = Vec::new();
            },
        }
        let ghost es = entry_views(self.fields@);
        let ghost f0 = self.fields@;
        assert(es =~= entries_of(old(self)@));
        assert(old(self).wf() ==> self.items@.len() == 0);
        let k = key.to_owned();
        proof {
            lemma_key_pos(es, key@);
        }
        match JsonValue::find_key(&self.fields, &k) {
            Some(p) => {
                self.fields.set(p, (k, value));
                assert(entry_views(self.fields@) =~= es.update(p as int, (key@, value@)));
                assert(es[p as int].0 == f0[p as int].0@);
                assert forall|a: int, b: int| 0 <= a < b < self.fields@.len() && distinct_keys(f0)
                    implies self.fields@[a].0@ != self.fields@[b].0@ by {
                    assert(a != p ==> self.fields@[a] == f0[a]);
                    assert(b != p ==> self.fields@[b] == f0[b]);
                }
                assert forall|i: int| 0 <= i < self.fields@.len() && i != p implies self.fields@[i] == f0[i] by {}
            },
            None => {
                self.fields.push((k, value));
                assert(entry_views(self.fields@) =~= es.push((key@, value@)));
                assert forall|a: int, b: int| 0 <= a < b < self.fields@.len() && distinct_keys(f0)
                    implies self.fields@[a].0@ != self.fields@[b].0@ by {
                    assert(self.fields@[a] == f0[a]);
                    if b < f0.len() {
                        assert(self.fields@[b] == f0[b]);
                    } else {
                        assert(es[a].0 == f0[a].0@);
                    }
                }
                assert forall|i: int| 0 <= i < f0.len() implies self.fields@[i] == f0[i] by {}
            },
        }
        proof {
            final(self).lemma_view();
            lemma_wf(final(self));
        }
    }

    pub fn add_string(&mut self, key: &str, value: &str)
        ensures
            final(self)@ == Json::Object(insert_entry(entries_of(old(self)@), key@, Json::Str(value@))),
            old(self).wf() ==> final(self).wf(),
    {
        let mut v = JsonValue::new();
        v.set_string(value);
        self.add_json(key, v);
    }

    pub fn add_int(&mut self, key: &str, value: i128)
        ensures
            final(self)@ == Json::Object(
                insert_entry(entries_of(old(self)@), key@, Json::Int(int_text(value as int))),
            ),
            old(self).wf() ==> final(self).wf(),
    {
        let mut v = JsonValue::new();
        v.set_int(value);
        self.add_json(key, v);
    }

    /// Writes under `key` a decimal whose text is `text`.
    pub fn add_decimal_text(&mut self, key: &str, text: &str)
        ensures
            final(self)@ == Json::Object(insert_entry(entries_of(old(self)@), key@, Json::Decimal(text@))),
            old(self).wf() ==> final(self).wf(),
    {
        let mut v = JsonValue::new();
        v.set_decimal_text(text);
        self.add_json(key, v);
    }

    pub fn add_bool(&mut self, key: &str, value: bool)
        ensures
            final(self)@ == Json::Object(
                insert_entry(entries_of(old(self)@), key@, Json::Bool(bool_text(value))),
            ),
            old(self).wf() ==> final(self).wf(),
    {
        let mut v = JsonValue::new();
        v.set_bool(value);
        self.add_json(key, v);
    }

    /// Pushes `value` at the end, making this an array first if it is not one.
    pub fn append_json(&mut self, value: JsonValue)
        ensures
            final(self)@ == Json::Array(elems_of(old(self)@).push(value@)),
            old(self).wf() && value.wf() ==> final(self).wf(),
    {
        proof {
            old(self).lemma_view();
            lemma_wf(old(self));
            lemma_wf(&value);
        }
        match self.kind {
            Kind::Array => {},
            _ => {
                self.kind = Kind::Array;
                self.text = String::new();
                self.items = Vec::new();
                self.fields = Vec::new();
            },
        }
        let ghost s = views(self.items@);
        let ghost i0 = self.items@;
        assert(s =~= elems_of(old(self)@));
        assert(old(self).wf() ==> self.fields@.len() == 0);
        self.items.push(value);
        assert(views(self.items@) =~= s.push(value@));
        assert forall|i: int| 0 <= i < i0.len() implies self.items@[i] == i0[i] by {}
        proof {
            final(self).lemma_view();
            lemma_wf(final(self));
        }
    }

    pub fn append_string(&mut self, value: &str)
        ensures
            final(self)@ == Json::Array(elems_of(old(self)@).push(Json::Str(value@))),
            old(self).wf() ==> final(self).wf(),
    {
        let mut v = JsonValue::new();
        v.set_string(value);
        self.append_json(v);
    }

    pub fn append_int(&mut self, value: i128)
        ensures
            final(self)@ == Json::Array(elems_of(old(self)@).push(Json::Int(int_text(value as int)))),
            old(self).wf() ==> final(self).wf(),
    {
        let mut v = JsonValue::new();
        v.set_int(value);
        self.append_json(v);
    }

    /// Pushes a decimal whose text is `text`.
    pub fn append_decimal_text(&mut self, text: &str)
        ensures
            final(self)@ == Json::Array(elems_of(old(self)@).push(Json::Decimal(text@))),
            old(self).wf() ==> final(self).wf(),
    {
        let mut v = JsonValue::new();
        v.set_decimal_text(text);
        self.append_json(v);
    }

    pub fn append_bool(&mut self, value: bool)
        ensures
            final(self)@ == Json::Array(elems_of(old(self)@).push(Json::Bool(bool_text(value)))),
            old(self).wf() ==> final(self).wf(),
    {
        let mut v = JsonValue::new();
        v.set_bool(value);
        self.append_json(v);
    }

    /// The element at `i`, where this is an array that long.
    pub fn get(&self, i: usize) -> (r: Option<&JsonValue>)
        ensures
            r is Some <==> (self@ is Array && i < elems_of(self@).len()),
            r is Some ==> r->0@ == elems_of(self@)[i as int],
            self.wf() && r is Some ==> r->0.wf(),
    {
        proof {
            lemma_wf(self);
            self.lemma_view();
        }
        match self.kind {
            Kind::Array => {
                if i < self.items.len() {
                    Some(&self.items[i])
                } else {
                    None
                }
            },
            _ => None,
        }
    }

    /// The value under `key`, where this is an object that has it.
    pub fn get_field(&self, key: &str) -> (r: Option<&JsonValue>)
        ensures
            r is Some <==> (self@ is Object && key_pos(entries_of(self@), key@) >= 0),
            r is Some ==> r->0@ == entries_of(self@)[key_pos(entries_of(self@), key@)].1,
            self.wf() && r is Some ==> r->0.wf(),
    {
        proof {
            lemma_wf(self);
            self.lemma_view();
        }
        match self.kind {
            Kind::Object => {
                let k = key.to_owned();
                proof {
                    lemma_key_pos(entry_views(self.fields@), key@);
                }
                match JsonValue::find_key(&self.fields, &k) {
                    Some(p) => Some(&self.fields[p].1),
                    None => None,
                }
            },
            _ => None,
        }
    }

    /// The element at `i`, for writing. An array shorter than `i + 1` is padded
    /// with Undefined values; a value of another kind becomes such an array.
    pub fn get_or_create_at(&mut self, i: usize) -> (r: &mut JsonValue)
        requires
            i < usize::MAX,
        ensures
            ({
                let s = padded(elems_of(old(self)@), i as int);
                &&& (*r)@ == s[i as int]
                &&& final(self)@ == Json::Array(s.update(i as int, (*final(r))@))
            }),
            old(self).wf() ==> (*r).wf(),
            old(self).wf() && (*final(r)).wf() ==> final(self).wf(),
    {
        proof {
            old(self).lemma_view();
            lemma_wf(old(self));
        }
        match self.kind {
            Kind::Array => {},
            _ => {
                self.kind = Kind::Array;
                self.text = String::new();
                self.items = Vec::new();
                self.fields = Vec::new();
            },
        }
        let ghost s0 = views(self.items@);
        assert(s0 =~= elems_of(old(self)@));
        while self.items.len() <= i
            invariant
                self.kind is Array,
                i < usize::MAX,
                old(self).wf() ==> self.fields@.len() == 0,
                old(self).wf() ==> forall|j: int| 0 <= j < self.items@.len() ==> (#[trigger] self.items@[j]).wf(),
                forall|j: int| 0 <= j < s0.len() ==> (#[trigger] self.items@[j])@ == s0[j],
                forall|j: int| s0.len() <= j < self.items@.len() ==> (#[trigger] self.items@[j])@ is Undefined,
                self.items@.len() >= s0.len(),
                self.items@.len() <= i + 1 || self.items@.len() == s0.len(),
            decreases i + 1 - self.items@.len(),
        {
            let ghost before = self.items@;
            self.items.push(JsonValue::new());
            assert(forall|j: int| 0 <= j < before.len() ==> self.items@[j] == before[j]);
        }
        let ghost s = views(self.items@);
        assert(s =~= padded(s0, i as int));
        assert(s[i as int] == self.items@[i as int]@);
        proof {
            broadcast use lemma_model, lemma_views_update, lemma_wf;
        }
        &mut self.items[i]
    }

    /// The value under `key`, for writing. A missing key gets an Undefined
    /// value; a value of another kind becomes an object holding just that entry.
    pub fn get_or_create_field(&mut self, key: &str) -> (r: &mut JsonValue)
        ensures
            ({
                let es = with_key(entries_of(old(self)@), key@);
                let p = key_pos(es, key@);
                &&& 0 <= p < es.len()
                &&& (*r)@ == es[p].1
                &&& final(self)@ == Json::Object(es.update(p, (key@, (*final(r))@)))
            }),
            old(self).wf() ==> (*r).wf(),
            old(self).wf() && (*final(r)).wf() ==> final(self).wf(),
    {
        proof {
            old(self).lemma_view();
            lemma_wf(old(self));
        }
        match self.kind {
            Kind::Object => {},
            _ => {
                self.kind = Kind::Object;
                self.text = String::new();
                self.items = Vec::new();
                self.fields = Vec::new();
            },
        }
        let ghost f0 = self.fields@;
        let ghost es0 = entry_views(self.fields@);
        assert(es0 =~= entries_of(old(self)@));
        let k = key.to_owned();
        let p = match JsonValue::find_key(&self.fields, &k) {
            Some(p) => p,
            None => {
                self.fields.push((k, JsonValue::new()));
                assert(entry_views(self.fields@) =~= es0.push((key@, Json::Undefined)));
                proof {
                    lemma_key_pos(es0, key@);
                    lemma_key_pos(entry_views(self.fields@), key@);
                    let es1 = entry_views(self.fields@);
                    let q = key_pos(es1, key@);
                    if q >= 0 && q < es0.len() {
                        assert(es1[q] == es0[q]);
                    }
                    assert(es1[es0.len() as int].0 == key@);
                    assert(q == es0.len());
                    assert forall|a: int, b: int| 0 <= a < b < self.fields@.len() && distinct_keys(f0)
                        implies self.fields@[a].0@ != self.fields@[b].0@ by {
                        assert(self.fields@[a] == f0[a]);
                        if b < f0.len() {
                            assert(self.fields@[b] == f0[b]);
                        } else {
                            assert(es0[a].0 == f0[a].0@);
                            assert(es0[a].0 != key@);
                        }
                    }
                    assert forall|j: int| 0 <= j < f0.len() implies self.fields@[j] == f0[j] by {}
                }
                self.fields.len() - 1
            },
        };
        assert(old(self).wf() ==> self.items@.len() == 0);
        assert(old(self).wf() ==> distinct_keys(self.fields@));
        assert(old(self).wf() ==> forall|j: int| 0 <= j < self.fields@.len() ==> (#[trigger] self.fields@[j]).1.wf());
        let ghost es = entry_views(self.fields@);
        proof {
            lemma_key_pos(es, key@);
        }
        assert(es == with_key(entries_of(old(self)@), key@));
        assert(self.fields@[p as int].0@ == key@);
        assert(0 <= p < es.len());
        assert(p == key_pos(es, key@));
        assert(self.fields@[p as int].1@ == es[p as int].1);
        proof {
            broadcast use lemma_model, lemma_entry_views_update, lemma_wf;
        }
        let e = &mut self.fields[p];
        &mut e.1
    }

    /// The elements, where this is an array.
    pub fn get_array(&self) -> (r: &Vec<JsonValue>)
        ensures
            self@ is Array ==> views(r@) == elems_of(self@),
            self.wf() && !(self@ is Array) ==> r@.len() == 0,
            self.wf() ==> forall|i: int| 0 <= i < r@.len() ==> (#[trigger] r@[i]).wf(),
    {
        proof {
            lemma_wf(self);
            self.lemma_view();
        }
        &self.items
    }

    /// The elements, for writing, where this is an array; for another kind
    /// what is written there is not part of the value.
    pub fn get_array_mut(&mut self) -> (r: &mut Vec<JsonValue>)
        ensures
            old(self)@ is Array ==> views((*r)@) == elems_of(old(self)@),
            old(self)@ is Array ==> final(self)@ == Json::Array(views((*final(r))@)),
            !(old(self)@ is Array) ==> final(self)@ == old(self)@,
            old(self).wf() && !(old(self)@ is Array) ==> (*r)@.len() == 0,
            old(self).wf() ==> forall|i: int| 0 <= i < (*r)@.len() ==> (#[trigger] (*r)@[i]).wf(),
            old(self).wf() ==> (final(self).wf() <==> ((old(self)@ is Array || (*final(r))@.len() == 0) && forall|i: int| 0 <= i < (*final(r))@.len() ==> (#[trigger] (*final(r))@[i]).wf())),
    {
        proof {
            old(self).lemma_view();
            lemma_wf(old(self));
            broadcast use lemma_model, lemma_wf;
        }
        &mut self.items
    }

    /// The entries, where this is an object.
    pub fn get_object(&self) -> (r: &Vec<(String, JsonValue)>)
        ensures
            self@ is Object ==> entry_views(r@) == entries_of(self@),
            self.wf() && !(self@ is Object) ==> r@.len() == 0,
            self.wf() ==> distinct_keys(r@),
            self.wf() ==> forall|i: int| 0 <= i < r@.len() ==> (#[trigger] r@[i]).1.wf(),
    {
        proof {
            lemma_wf(self);
            self.lemma_view();
        }
        &self.fields
    }

    /// The entries, for writing, where this is an object; for another kind
    /// what is written there is not part of the value.
    pub fn get_object_mut(&mut self) -> (r: &mut Vec<(String, JsonValue)>)
        ensures
            old(self)@ is Object ==> entry_views((*r)@) == entries_of(old(self)@),
            old(self)@ is Object ==> final(self)@ == Json::Object(entry_views((*final(r))@)),
            !(old(self)@ is Object) ==> final(self)@ == old(self)@,
            old(self).wf() && !(old(self)@ is Object) ==> (*r)@.len() == 0,
            old(self).wf() ==> distinct_keys((*r)@),
            old(self).wf() ==> forall|i: int| 0 <= i < (*r)@.len() ==> (#[trigger] (*r)@[i]).1.wf(),
            old(self).wf() ==> (final(self).wf() <==> ((old(self)@ is Object || (*final(r))@.len() == 0) && distinct_keys((*final(r))@) && forall|i: int| 0 <= i < (*final(r))@.len() ==> (#[trigger] (*final(r))@[i]).1.wf())),
    {
        proof {
            old(self).lemma_view();
            lemma_wf(old(self));
            broadcast use lemma_model, lemma_wf;
        }
        &mut self.fields
    }
}

/// The elements after padding with Undefined values up to length `i + 1`.
pub open spec fn padded(s: Seq<Json>, i: int) -> Seq<Json> {
    if i < s.len() { s } else { s + Seq::new((i + 1 - s.len()) as nat, |j: int| Json::Undefined) }
}

/// The entries with an Undefined value added under `k` where `k` is missing.
pub open spec fn with_key(es: Seq<(Seq<char>, Json)>, k: Seq<char>) -> Seq<(Seq<char>, Json)> {
    if key_pos(es, k) >= 0 { es } else { es.push((k, Json::Undefined)) }
}

/// The text `true` or `false`.
pub open spec fn bool_text(b: bool) -> Seq<char> {
    if b { seq!['t', 'r', 'u', 'e'] } else { seq!['f', 'a', 'l', 's', 'e'] }
}

} // verus!
