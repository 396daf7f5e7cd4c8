//! The mathematical model of a JSON value and of its compact text.
use vstd::prelude::*;

verus! {

/// What a `JsonValue` denotes: its kind, with the scalar text or the children.
/// Object entries keep their order of insertion; a key is looked up at its first entry.
pub enum Json {
    Str(Seq<char>),
    Int(Seq<char>),
    Decimal(Seq<char>),
    Bool(Seq<char>),
    Array(Seq<Json>),
    Object(Seq<(Seq<char>, Json)>),
    /// Null, with the literal it was read from (empty where it was not read).
    Null(Seq<char>),
    Undefined,
}

/// Null and Undefined: the kinds that an object leaves out of its text.
pub open spec fn is_absent(j: Json) -> bool {
    j is Null || j is Undefined
}

/// The four kinds that carry a scalar text.
pub open spec fn is_scalar(j: Json) -> bool {
    j is Str || j is Int || j is Decimal || j is Bool
}

/// The scalar text of a value, or the literal a Null was read from; empty for
/// the other kinds.
pub open spec fn payload(j: Json) -> Seq<char> {
    match j {
        Json::Str(t) => t,
        Json::Int(t) => t,
        Json::Decimal(t) => t,
        Json::Bool(t) => t,
        Json::Null(t) => t,
        _ => Seq::empty(),
    }
}

/// The position of the first entry with key `k`, or -1.
pub open spec fn key_pos(es: Seq<(Seq<char>, Json)>, k: Seq<char>) -> int
    decreases es.len(),
{
    if es.len() == 0 {
        -1
    } else if es[0].0 == k {
        0
    } else {
        let p = key_pos(es.drop_first(), k);
        if p < 0 { -1 } else { p + 1 }
    }
}

/// `key_pos` is the first position whose key is `k`, or -1 where there is none.
pub proof fn lemma_key_pos(es: Seq<(Seq<char>, Json)>, k: Seq<char>)
    ensures
        -1 <= key_pos(es, k) < es.len(),
        key_pos(es, k) >= 0 ==> es[key_pos(es, k)].0 == k,
        forall|j: int|
            0 <= j < es.len() && (key_pos(es, k) < 0 || j < key_pos(es, k)) ==> (#[trigger] es[j]).0 != k,
    decreases es.len(),
{
    if es.len() > 0 {
        lemma_key_pos(es.drop_first(), k);
        assert forall|j: int|
            0 <= j < es.len() && (key_pos(es, k) < 0 || j < key_pos(es, k)) implies es[j].0 != k by {
            if j > 0 {
                assert(es[j] == es.drop_first()[j - 1]);
            }
        }
    }
}

/// No two entries share a key.
pub open spec fn unique_keys(es: Seq<(Seq<char>, Json)>) -> bool {
    forall|a: int, b: int| 0 <= a < b < es.len() ==> es[a].0 != es[b].0
}

/// The entries after writing `v` under `k`: the first entry with that key is
/// replaced in place, else a new entry goes at the end.
pub open spec fn insert_entry(es: Seq<(Seq<char>, Json)>, k: Seq<char>, v: Json) -> Seq<(Seq<char>, Json)> {
    let p = key_pos(es, k);
    if p >= 0 { es.update(p, (k, v)) } else { es.push((k, v)) }
}

/// The entries of an object value, or none for any other kind.
pub open spec fn entries_of(j: Json) -> Seq<(Seq<char>, Json)> {
    match j {
        Json::Object(es) => es,
        _ => Seq::empty(),
    }
}

/// The elements of an array value, or none for any other kind.
pub open spec fn elems_of(j: Json) -> Seq<Json> {
    match j {
        Json::Array(s) => s,
        _ => Seq::empty(),
    }
}

/// The two-character escape, or the character itself, that a string's text holds for `c`.
pub open spec fn escape_char(c: char) -> Seq<char> {
    if c == '\n' {
        seq!['\\', 'n']
    } else if c == '\t' {
        seq!['\\', 't']
    } else if c == '\\' {
        seq!['\\', '\\']
    } else {
        seq![c]
    }
}

/// A string's text with newline, tab and backslash written as two-character escapes.
pub open spec fn escape(s: Seq<char>) -> Seq<char>
    decreases s.len(),
{
    if s.len() == 0 {
        Seq::empty()
    } else {
        escape(s.drop_last()) + escape_char(s.last())
    }
}

/// The text `null`.
pub open spec fn null_text() -> Seq<char> {
    seq!['n', 'u', 'l', 'l']
}

/// The compact text of a value.
pub open spec fn ser(j: Json) -> Seq<char>
    decreases j,
{
    match j {
        Json::Str(t) => seq!['"'] + escape(t) + seq!['"'],
        Json::Int(t) => t,
        Json::Decimal(t) => t,
        Json::Bool(t) => t,
        Json::Array(s) => seq!['['] + ser_items(s) + seq![']'],
        Json::Object(es) => seq!['{'] + ser_entries(es) + seq!['}'],
        Json::Null(_) => null_text(),
        Json::Undefined => null_text(),
    }
}

/// The elements' texts joined by commas.
pub open spec fn ser_items(s: Seq<Json>) -> Seq<char>
    decreases s,
{
    if s.len() == 0 {
        Seq::empty()
    } else if s.len() == 1 {
        ser(s[0])
    } else {
        ser_items(s.drop_last()) + seq![','] + ser(s[s.len() - 1])
    }
}

/// The text `"key":value` of one entry, given the value's text.
pub open spec fn entry_text(k: Seq<char>, value_text: Seq<char>) -> Seq<char> {
    seq!['"'] + k + seq!['"', ':'] + value_text
}

/// The texts of the entries whose value is present, joined by commas.
pub open spec fn ser_entries(es: Seq<(Seq<char>, Json)>) -> Seq<char>
    decreases es,
{
    if es.len() == 0 {
        Seq::empty()
    } else {
        let init = ser_entries(es.drop_last());
        let e = es[es.len() - 1];
        if is_absent(e.1) {
            init
        } else if init.len() == 0 {
            entry_text(e.0, ser(e.1))
        } else {
            init + seq![','] + entry_text(e.0, ser(e.1))
        }
    }
}

proof fn lemma_entries_elide(es: Seq<(Seq<char>, Json)>, p: int)
    requires
        0 <= p < es.len(),
        is_absent(es[p].1),
    ensures
        ser_entries(es) == ser_entries(es.remove(p)),
    decreases es.len(),
{
    let r = es.remove(p);
    if p == es.len() - 1 {
        assert(r =~= es.drop_last());
    } else {
        lemma_entries_elide(es.drop_last(), p);
        assert(r.drop_last() =~= es.drop_last().remove(p));
        assert(r[r.len() - 1] == es[es.len() - 1]);
    }
}

/// An entry whose value is Null or Undefined leaves no trace in an object's
/// text: the text is the same with that entry left out.
pub proof fn lemma_absent_entry_elided(es: Seq<(Seq<char>, Json)>, p: int)
    requires
        0 <= p < es.len(),
        is_absent(es[p].1),
    ensures
        ser(Json::Object(es)) == ser(Json::Object(es.remove(p))),
{
    lemma_entries_elide(es, p);
}

/// The entries whose value is neither Null nor Undefined, in order.
pub open spec fn present_entries(es: Seq<(Seq<char>, Json)>) -> Seq<(Seq<char>, Json)> {
    es.filter(|e: (Seq<char>, Json)| !is_absent(e.1))
}

proof fn lemma_entries_present(es: Seq<(Seq<char>, Json)>)
    ensures
        ser_entries(es) == ser_entries(present_entries(es)),
    decreases es.len(),
{
    reveal(Seq::filter);
    if es.len() > 0 {
        let init = es.drop_last();
        let e = es[es.len() - 1];
        lemma_entries_present(init);
        let f = present_entries(init);
        assert(present_entries(es) == if !is_absent(e.1) { f.push(e) } else { f });
        if !is_absent(e.1) {
            assert(f.push(e).drop_last() =~= f);
            assert(f.push(e)[f.len() as int] == e);
        }
    }
}

/// Entries whose value is Null or Undefined leave no trace in an object's
/// text: the text is that of the object holding only its other entries, in
/// order, and `{}` where every entry is Null or Undefined.
pub proof fn lemma_absent_entries_elided(es: Seq<(Seq<char>, Json)>)
    ensures
        ser(Json::Object(es)) == ser(Json::Object(present_entries(es))),
        present_entries(es).len() == 0 ==> ser(Json::Object(es)) == seq!['{', '}'],
{
    lemma_entries_present(es);
    if present_entries(es).len() == 0 {
        assert(present_entries(es) =~= Seq::<(Seq<char>, Json)>::empty());
        assert(ser(Json::Object(es)) =~= seq!['{', '}']);
    }
}

} // verus!
