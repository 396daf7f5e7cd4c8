//! What reading gives back of what writing produced.
use vstd::prelude::*;
use crate::model::Json;
use crate::model::escape;
use crate::model::escape_char;
use crate::model::ser;
use crate::model::ser_items;
use crate::model::ser_entries;
use crate::model::entry_text;
use crate::model::is_absent;
use crate::model::key_pos;
use crate::model::lemma_key_pos;
use crate::model::unique_keys;
use crate::model::lemma_absent_entry_elided;
use crate::parse::ParseError;
use crate::parse::parse_into;
use crate::whitespace::is_ws;
use crate::whitespace::normalize;
use crate::whitespace::strip_from;
use crate::whitespace::lemma_strip_cons;
use crate::parse::insert_all;
use crate::parse::parse_array;
use crate::parse::parse_object;
use crate::parse::scan_key;
use crate::parse::classify;
use crate::parse::parse_value;
use crate::parse::prepend_text;
use crate::parse::prev_at;
use crate::parse::scan_scalar;
use crate::parse::unescape;
use crate::whitespace::toggles;

verus! {

/// `c` ends a scalar's literal.
pub open spec fn is_terminator(c: char) -> bool {
    c == ',' || c == '}' || c == ']'
}

/// A string that the compact text carries through the reader unchanged: no
/// quote, and no backslash at its end.
pub open spec fn is_plain_string(s: Seq<char>) -> bool {
    (forall|i: int| 0 <= i < s.len() ==> #[trigger] s[i] != '"') && (s.len() == 0 || s.last() != '\\')
}

proof fn lemma_escape_concat(a: Seq<char>, b: Seq<char>)
    ensures
        escape(a + b) == escape(a) + escape(b),
    decreases b.len(),
{
    if b.len() == 0 {
        assert(a + b =~= a);
        assert(escape(a) + escape(b) =~= escape(a));
    } else {
        lemma_escape_concat(a, b.drop_last());
        assert((a + b).drop_last() =~= a + b.drop_last());
        assert((a + b).last() == b.last());
        assert(escape(a + b) =~= escape(a) + escape(b));
    }
}

proof fn lemma_escape_front(s: Seq<char>)
    requires
        s.len() > 0,
    ensures
        escape(s) == escape_char(s[0]) + escape(s.drop_first()),
{
    lemma_escape_concat(seq![s[0]], s.drop_first());
    assert(seq![s[0]] + s.drop_first() =~= s);
    assert(seq![s[0]].drop_last() =~= Seq::<char>::empty());
    assert(seq![s[0]].last() == s[0]);
    assert(escape(Seq::<char>::empty()) == Seq::<char>::empty());
    assert(escape(seq![s[0]]) =~= escape_char(s[0]));
}

proof fn lemma_scan_string_body(d: Seq<char>, j: int, s: Seq<char>)
    requires
        is_plain_string(s),
        0 <= j,
        j + escape(s).len() + 1 < d.len(),
        forall|t: int| 0 <= t < escape(s).len() ==> d[j + t] == #[trigger] escape(s)[t],
        d[j + escape(s).len()] == '"',
        is_terminator(d[j + escape(s).len() + 1]),
        j >= 1,
        (if escape(s).len() > 0 { escape(s).last() } else { d[j - 1] }) != '\\',
    ensures
        scan_scalar(d, j, true) == Ok::<(Seq<char>, int), crate::parse::ParseError>(
            (s + seq!['"'], j + escape(s).len() + 1),
        ),
    decreases s.len(),
{
    let e = escape(s);
    if s.len() == 0 {
        assert(e.len() == 0);
        let in2 = true != toggles('"', prev_at(d, j));
        assert(!in2);
        assert(scan_scalar(d, j + 1, in2) == Ok::<(Seq<char>, int), crate::parse::ParseError>((Seq::empty(), j + 1)));
        assert(seq!['"'] + Seq::<char>::empty() =~= s + seq!['"']);
    } else {
        let c = s[0];
        let rest = s.drop_first();
        lemma_escape_front(s);
        let er = escape(rest);
        let h = escape_char(c);
        assert(e == h + er);
        assert forall|i: int| 0 <= i < rest.len() implies #[trigger] rest[i] != '"' by {
            assert(rest[i] == s[i + 1]);
        }
        assert(s[0] != '"');
        if rest.len() > 0 {
            assert(rest.last() == s.last());
        }
        assert(is_plain_string(rest));
        if er.len() > 0 {
            assert(er.last() == e.last());
        } else {
            assert(e =~= h);
            assert(d[j + h.len() - 1] == e[h.len() - 1]);
        }
        assert forall|t: int| 0 <= t < er.len() implies d[(j + h.len()) + t] == #[trigger] er[t] by {
            assert(e[h.len() + t] == er[t]);
            assert(d[j + (h.len() + t)] == e[h.len() + t]);
        }
        lemma_scan_string_body(d, j + h.len(), rest);
        assert(d[j] == e[0]);
        let r = scan_scalar(d, j + h.len(), true);
        if c == '\n' || c == '\t' || c == '\\' {
            assert(d[j] == '\\');
            assert(d[j + 1] == e[1]);
            assert(unescape(d[j + 1]) =~= seq![c]);
            assert(scan_scalar(d, j, true) == prepend_text(seq![c], r));
        } else {
            assert(d[j] == c);
            assert(scan_scalar(d, j, true) == prepend_text(seq![c], r));
        }
        assert(seq![c] + (rest + seq!['"']) =~= s + seq!['"']);
    }
}

/// Reading the compact text of a plain string gives the string back, with each
/// newline, tab and backslash restored from its two-character escape, wherever
/// the text stands before a character that ends a scalar. The string may hold
/// commas and brackets.
pub proof fn lemma_string_round_trip(d: Seq<char>, i: int, s: Seq<char>)
    requires
        is_plain_string(s),
        0 <= i,
        i + ser(Json::Str(s)).len() < d.len(),
        forall|t: int| 0 <= t < ser(Json::Str(s)).len() ==> d[i + t] == #[trigger] ser(Json::Str(s))[t],
        prev_at(d, i) != Some('\\'),
        is_terminator(d[i + ser(Json::Str(s)).len()]),
    ensures
        parse_value(d, i) == Ok::<(Json, int), crate::parse::ParseError>(
            (Json::Str(s), i + ser(Json::Str(s)).len()),
        ),
{
    let e = escape(s);
    let t = ser(Json::Str(s));
    assert(t == seq!['"'] + e + seq!['"']);
    assert(d[i] == t[0]);
    assert forall|k: int| 0 <= k < e.len() implies d[(i + 1) + k] == #[trigger] e[k] by {
        assert(t[1 + k] == e[k]);
        assert(d[i + (1 + k)] == t[1 + k]);
    }
    assert(d[i + (1 + e.len())] == t[1 + e.len() as int]);
    lemma_escape_shape(s);
    if e.len() == 0 {
        assert(d[i] == '"');
    }
    lemma_scan_string_body(d, i + 1, s);
    let lit = seq!['"'] + (s + seq!['"']);
    assert(scan_scalar(d, i, false) == prepend_text(seq!['"'], scan_scalar(d, i + 1, true)));
    assert(lit.subrange(1, lit.len() - 1) =~= s);
    assert(classify(lit) == Ok::<Json, crate::parse::ParseError>(Json::Str(s)));
}

/// `d` holds `t` from position `i` on.
pub open spec fn holds_at(d: Seq<char>, i: int, t: Seq<char>) -> bool {
    0 <= i && i + t.len() <= d.len() && forall|k: int| 0 <= k < t.len() ==> d[i + k] == #[trigger] t[k]
}

proof fn lemma_holds_split(d: Seq<char>, i: int, a: Seq<char>, b: Seq<char>)
    requires
        holds_at(d, i, a + b),
    ensures
        holds_at(d, i, a),
        holds_at(d, i + a.len(), b),
{
    assert forall|k: int| 0 <= k < a.len() implies d[i + k] == #[trigger] a[k] by {
        assert((a + b)[k] == a[k]);
    }
    assert forall|k: int| 0 <= k < b.len() implies d[(i + a.len()) + k] == #[trigger] b[k] by {
        assert((a + b)[a.len() + k] == b[k]);
        assert(d[i + (a.len() + k)] == (a + b)[a.len() + k]);
    }
}

/// A key that the reader gives back unchanged: no quote, and no backslash at its end.
pub open spec fn is_plain_key(k: Seq<char>) -> bool {
    (forall|i: int| 0 <= i < k.len() ==> #[trigger] k[i] != '"') && (k.len() == 0 || k.last() != '\\')
}

/// The literal text of a number or a boolean that the reader gives back
/// unchanged: not empty, not starting with a bracket, with no quote, no
/// whitespace and no character that ends a scalar.
pub open spec fn is_plain_literal(t: Seq<char>) -> bool {
    t.len() > 0 && t[0] != '{' && t[0] != '[' && forall|i: int|
        0 <= i < t.len() ==> !(#[trigger] t[i] == '"' || is_terminator(t[i]) || is_ws(t[i]))
}

/// A tree that the compact text carries through normalizing and reading:
/// plain strings that do not end with a backslash, plain keys and literals, a
/// literal read as its own kind, containers that are not empty, objects with
/// distinct keys, and no Null or Undefined anywhere.
pub open spec fn round_trips(j: Json) -> bool
    decreases j,
{
    match j {
        Json::Str(s) => is_plain_string(s),
        Json::Int(t) => is_plain_literal(t) && classify(t) == Ok::<Json, ParseError>(j),
        Json::Decimal(t) => is_plain_literal(t) && classify(t) == Ok::<Json, ParseError>(j),
        Json::Bool(t) => is_plain_literal(t) && classify(t) == Ok::<Json, ParseError>(j),
        Json::Array(s) => s.len() > 0 && forall|k: int| 0 <= k < s.len() ==> round_trips(#[trigger] s[k]),
        Json::Object(es) => es.len() > 0 && unique_keys(es) && forall|k: int|
            0 <= k < es.len() ==> is_plain_key(#[trigger] es[k].0) && !is_absent(es[k].1) && round_trips(es[k].1),
        _ => false,
    }
}

proof fn lemma_scan_literal(d: Seq<char>, i: int, t: Seq<char>, m: int)
    requires
        holds_at(d, i, t),
        i + t.len() < d.len(),
        is_terminator(d[i + t.len()]),
        forall|k: int| 0 <= k < t.len() ==> !(#[trigger] t[k] == '"' || is_terminator(t[k])),
        0 <= m <= t.len(),
    ensures
        scan_scalar(d, i + m, false) == Ok::<(Seq<char>, int), ParseError>((t.subrange(m, t.len() as int), i + t.len())),
    decreases t.len() - m,
{
    if m == t.len() {
        assert(t.subrange(m, t.len() as int) =~= Seq::<char>::empty());
    } else {
        lemma_scan_literal(d, i, t, m + 1);
        assert(d[i + m] == t[m]);
        assert(seq![t[m]] + t.subrange(m + 1, t.len() as int) =~= t.subrange(m, t.len() as int));
    }
}

proof fn lemma_items_front(s: Seq<Json>)
    requires
        s.len() >= 2,
    ensures
        ser_items(s) == ser(s[0]) + (seq![','] + ser_items(s.drop_first())),
    decreases s.len(),
{
    if s.len() == 2 {
        assert(s.drop_last().len() == 1);
        assert(s.drop_first().len() == 1);
        assert(s.drop_first()[0] == s[1]);
        assert(ser_items(s.drop_first()) == ser(s[1]));
        assert(ser_items(s.drop_last()) == ser(s[0]));
        assert(ser_items(s) =~= ser(s[0]) + (seq![','] + ser_items(s.drop_first())));
    } else {
        lemma_items_front(s.drop_last());
        assert(s.drop_last().drop_first() =~= s.drop_first().drop_last());
        assert(s.drop_first()[s.drop_first().len() - 1] == s[s.len() - 1]);
        assert(ser_items(s) =~= ser(s[0]) + (seq![','] + ser_items(s.drop_first())));
    }
}

proof fn lemma_entries_front(es: Seq<(Seq<char>, Json)>)
    requires
        es.len() >= 1,
        forall|k: int| 0 <= k < es.len() ==> !is_absent(#[trigger] es[k].1),
    ensures
        ser_entries(es).len() > 0,
        es.len() == 1 ==> ser_entries(es) == entry_text(es[0].0, ser(es[0].1)),
        es.len() >= 2 ==> ser_entries(es) == entry_text(es[0].0, ser(es[0].1)) + (seq![','] + ser_entries(es.drop_first())),
    decreases es.len(),
{
    let last = es[es.len() - 1];
    assert(!is_absent(last.1));
    if es.len() == 1 {
        assert(es.drop_last() =~= Seq::<(Seq<char>, Json)>::empty());
        assert(ser_entries(es.drop_last()) == Seq::<char>::empty());
    } else {
        let init = es.drop_last();
        assert forall|k: int| 0 <= k < init.len() implies !is_absent(#[trigger] init[k].1) by {
            assert(init[k] == es[k]);
        }
        lemma_entries_front(init);
        let tail = es.drop_first();
        assert forall|k: int| 0 <= k < tail.len() implies !is_absent(#[trigger] tail[k].1) by {
            assert(tail[k] == es[k + 1]);
        }
        lemma_entries_front(tail);
        assert(tail[tail.len() - 1] == last);
        if es.len() == 2 {
            assert(tail.drop_last() =~= Seq::<(Seq<char>, Json)>::empty());
            assert(init[0] == es[0]);
            assert(ser_entries(es) =~= entry_text(es[0].0, ser(es[0].1)) + (seq![','] + ser_entries(tail)));
        } else {
            assert(init.drop_first() =~= tail.drop_last());
            assert(init[0] == es[0]);
            assert(ser_entries(es) =~= entry_text(es[0].0, ser(es[0].1)) + (seq![','] + ser_entries(tail)));
        }
    }
}

proof fn lemma_scan_key_body(d: Seq<char>, start: int, k: Seq<char>, m: int)
    requires
        is_plain_key(k),
        holds_at(d, start, seq!['"'] + k + seq!['"', ':']),
        0 <= m <= k.len(),
    ensures
        scan_key(d, start + 1 + m, start, true) == Ok::<(Seq<char>, int, bool), ParseError>(
            (k.subrange(m, k.len() as int) + seq!['"'], start + k.len() + 2, false),
        ),
    decreases k.len() - m,
{
    let t = seq!['"'] + k + seq!['"', ':'];
    let p = start + 1 + k.len();
    assert(d[p] == t[1 + k.len() as int]);
    assert(d[p + 1] == t[2 + k.len() as int]);
    if m == k.len() {
        if k.len() > 0 {
            assert(d[p - 1] == t[k.len() as int]);
            assert(t[k.len() as int] == k.last());
        } else {
            assert(d[p - 1] == t[0]);
        }
        assert(scan_key(d, p + 1, start, false) == Ok::<(Seq<char>, int, bool), ParseError>((Seq::empty(), p + 1, false)));
        assert(k.subrange(m, k.len() as int) + seq!['"'] =~= seq!['"'] + Seq::<char>::empty());
    } else {
        lemma_scan_key_body(d, start, k, m + 1);
        assert(d[start + 1 + m] == t[1 + m]);
        assert(t[1 + m] == k[m]);
        assert(seq![k[m]] + (k.subrange(m + 1, k.len() as int) + seq!['"']) =~= k.subrange(m, k.len() as int) + seq!['"']);
    }
}

proof fn lemma_entry_key(d: Seq<char>, i: int, key: Seq<char>)
    requires
        is_plain_key(key),
        holds_at(d, i, seq!['"'] + key + seq!['"', ':']),
        i > 0,
        d[i - 1] == '{' || d[i - 1] == ',',
    ensures
        scan_key(d, i, i, false) == Ok::<(Seq<char>, int, bool), ParseError>(
            (key + seq!['"'], i + key.len() + 2, false),
        ),
        (key + seq!['"']).drop_last() == key,
{
    let head = seq!['"'] + key + seq!['"', ':'];
    assert(d[i] == head[0]);
    assert(prev_at(d, i) == Some(d[i - 1]));
    lemma_scan_key_body(d, i, key, 0);
    assert(key.subrange(0, key.len() as int) =~= key);
    assert((key + seq!['"']).drop_last() =~= key);
}

proof fn lemma_insert_all_unique(es: Seq<(Seq<char>, Json)>)
    requires
        unique_keys(es),
    ensures
        insert_all(Seq::empty(), es) == es,
    decreases es.len(),
{
    if es.len() > 0 {
        let init = es.drop_last();
        let last = es.last();
        assert(unique_keys(init)) by {
            assert forall|a: int, b: int| 0 <= a < b < init.len() implies init[a].0 != init[b].0 by {
                assert(init[a] == es[a] && init[b] == es[b]);
            }
        }
        lemma_insert_all_unique(init);
        lemma_key_pos(init, last.0);
        let kp = key_pos(init, last.0);
        if kp >= 0 {
            assert(init[kp] == es[kp]);
            assert(es[kp].0 != es[es.len() - 1].0);
        }
        assert(init.push(last) =~= es);
    }
}

proof fn lemma_value_reads(d: Seq<char>, i: int, j: Json)
    requires
        round_trips(j),
        holds_at(d, i, ser(j)),
        i + ser(j).len() < d.len(),
        is_terminator(d[i + ser(j).len()]),
        prev_at(d, i) != Some('\\'),
    ensures
        ser(j).len() > 0,
        !is_terminator(ser(j)[0]),
        parse_value(d, i) == Ok::<(Json, int), ParseError>((j, i + ser(j).len())),
    decreases j, 1int,
{
    match j {
        Json::Str(s) => {
            let t = ser(Json::Str(s));
            assert forall|k: int| 0 <= k < t.len() implies d[i + k] == #[trigger] t[k] by {
                assert(d[i + k] == ser(j)[k]);
            }
            lemma_string_round_trip(d, i, s);
            assert(t[0] == '"');
        },
        Json::Int(t) => {
            lemma_scan_literal(d, i, t, 0);
            assert(t.subrange(0, t.len() as int) =~= t);
            assert(d[i] == t[0]);
        },
        Json::Decimal(t) => {
            lemma_scan_literal(d, i, t, 0);
            assert(t.subrange(0, t.len() as int) =~= t);
            assert(d[i] == t[0]);
        },
        Json::Bool(t) => {
            lemma_scan_literal(d, i, t, 0);
            assert(t.subrange(0, t.len() as int) =~= t);
            assert(d[i] == t[0]);
        },
        Json::Array(s) => {
            let body = ser_items(s);
            assert(ser(j) == seq!['['] + body + seq![']']);
            assert(d[i] == ser(j)[0]);
            lemma_holds_split(d, i, seq!['['] + body, seq![']']);
            lemma_holds_split(d, i, seq!['['], body);
            assert(d[i + 1 + body.len()] == ser(j)[1 + body.len() as int]);
            lemma_items_read(d, i + 1, s);
        },
        Json::Object(es) => {
            let body = ser_entries(es);
            assert(ser(j) == seq!['{'] + body + seq!['}']);
            assert(d[i] == ser(j)[0]);
            lemma_holds_split(d, i, seq!['{'] + body, seq!['}']);
            lemma_holds_split(d, i, seq!['{'], body);
            assert(d[i + 1 + body.len()] == ser(j)[1 + body.len() as int]);
            lemma_entries_read(d, i + 1, es);
            lemma_insert_all_unique(es);
        },
        _ => {},
    }
}

proof fn lemma_items_read(d: Seq<char>, i: int, s: Seq<Json>)
    requires
        s.len() > 0,
        forall|k: int| 0 <= k < s.len() ==> round_trips(#[trigger] s[k]),
        holds_at(d, i, ser_items(s)),
        i + ser_items(s).len() < d.len(),
        d[i + ser_items(s).len()] == ']',
        i > 0,
        d[i - 1] == '[' || d[i - 1] == ',',
    ensures
        parse_array(d, i) == Ok::<(Seq<Json>, int), ParseError>((s, i + ser_items(s).len() + 1)),
    decreases s, 0int,
{
    let v = s[0];
    assert(round_trips(v));
    assert(prev_at(d, i) == Some(d[i - 1]));
    if s.len() == 1 {
        assert(ser_items(s) == ser(v));
        lemma_value_reads(d, i, v);
        assert(d[i] == ser(v)[0]);
        let k = i + ser(v).len();
        assert(parse_array(d, k) == Ok::<(Seq<Json>, int), ParseError>((Seq::empty(), k + 1)));
        assert(seq![v] + Seq::<Json>::empty() =~= s);
    } else {
        lemma_items_front(s);
        let rest = s.drop_first();
        assert(ser_items(s) == ser(v) + (seq![','] + ser_items(rest)));
        lemma_holds_split(d, i, ser(v), seq![','] + ser_items(rest));
        lemma_holds_split(d, i + ser(v).len(), seq![','], ser_items(rest));
        assert(d[i + ser(v).len()] == (seq![','] + ser_items(rest))[0]);
        lemma_value_reads(d, i, v);
        assert(d[i] == ser(v)[0]);
        assert forall|k: int| 0 <= k < rest.len() implies round_trips(#[trigger] rest[k]) by {
            assert(rest[k] == s[k + 1]);
        }
        let k = i + ser(v).len();
        assert(d[k + 1 - 1] == ',');
        lemma_items_read(d, k + 1, rest);
        assert(parse_array(d, k) == parse_array(d, k + 1));
        assert(seq![v] + rest =~= s);
    }
}

#[verifier::rlimit(50)]
proof fn lemma_entries_read(d: Seq<char>, i: int, es: Seq<(Seq<char>, Json)>)
    requires
        es.len() > 0,
        forall|k: int|
            0 <= k < es.len() ==> is_plain_key(#[trigger] es[k].0) && !is_absent(es[k].1) && round_trips(es[k].1),
        holds_at(d, i, ser_entries(es)),
        i + ser_entries(es).len() < d.len(),
        d[i + ser_entries(es).len()] == '}',
        i > 0,
        d[i - 1] == '{' || d[i - 1] == ',',
    ensures
        parse_object(d, i, false) == Ok::<(Seq<(Seq<char>, Json)>, int), ParseError>(
            (es, i + ser_entries(es).len() + 1),
        ),
    decreases es, 0int,
{
    let key = es[0].0;
    let v = es[0].1;
    assert(is_plain_key(key) && !is_absent(v) && round_trips(v));
    assert forall|k: int| 0 <= k < es.len() implies !is_absent(#[trigger] es[k].1) by {
        assert(is_plain_key(es[k].0) && !is_absent(es[k].1));
    }
    lemma_entries_front(es);
    let head = seq!['"'] + key + seq!['"', ':'];
    let et = entry_text(key, ser(v));
    assert(et =~= head + ser(v));
    let after = if es.len() == 1 { Seq::<char>::empty() } else { seq![','] + ser_entries(es.drop_first()) };
    assert(ser_entries(es) =~= et + after);
    lemma_holds_split(d, i, et, after);
    lemma_holds_split(d, i, head, ser(v));
    let j = i + head.len();
    let k = j + ser(v).len();
    lemma_entry_key(d, i, key);
    assert(d[i] == head[0]);
    assert(head.len() == key.len() + 3);
    assert(d[j - 1] == head[head.len() - 1]);
    assert(prev_at(d, j) == Some(d[j - 1]));
    if es.len() == 1 {
        assert(d[k] == '}');
    } else {
        assert(d[k] == after[0]);
    }
    lemma_value_reads(d, j, v);
    let k2 = if d[k] == ',' { k + 1 } else { k };
    assert(parse_object(d, i, false) == (match parse_object(d, k2, false) {
        Ok((rest_es, m)) => Ok((seq![(key, v)] + rest_es, m)),
        Err(e) => Err::<(Seq<(Seq<char>, Json)>, int), ParseError>(e),
    }));
    if es.len() == 1 {
        assert(parse_object(d, k, false) == Ok::<(Seq<(Seq<char>, Json)>, int), ParseError>((Seq::empty(), k + 1)));
        assert(seq![(key, v)] + Seq::<(Seq<char>, Json)>::empty() =~= es);
    } else {
        let rest = es.drop_first();
        lemma_holds_split(d, k, seq![','], ser_entries(rest));
        assert forall|m: int|
            0 <= m < rest.len() implies is_plain_key(#[trigger] rest[m].0) && !is_absent(rest[m].1) && round_trips(rest[m].1) by {
            assert(rest[m] == es[m + 1]);
        }
        lemma_entries_read(d, k + 1, rest);
        assert(seq![(key, v)] + rest =~= es);
    }
}

/// Reading the compact text of an object gives the object back, entry for
/// entry, where every string, key and literal in it is plain, no container is
/// empty, no object repeats a key and no value is Null or Undefined.
pub proof fn lemma_object_round_trip(j: Json)
    requires
        j is Object,
        round_trips(j),
    ensures
        parse_object(ser(j), 1, false) == Ok::<(Seq<(Seq<char>, Json)>, int), ParseError>(
            (j->Object_0, ser(j).len() as int),
        ),
{
    let es = j->Object_0;
    let d = ser(j);
    let body = ser_entries(es);
    assert(d == seq!['{'] + body + seq!['}']);
    assert(holds_at(d, 0, d));
    lemma_holds_split(d, 0, seq!['{'] + body, seq!['}']);
    lemma_holds_split(d, 0, seq!['{'], body);
    assert(d[1 + body.len() as int] == '}');
    assert(d[0] == '{');
    lemma_entries_read(d, 1, es);
}

proof fn lemma_strip_chunk(x: Seq<char>, z: Seq<char>, in_str: bool, p: Option<char>)
    requires
        forall|k: int| 0 <= k < x.len() ==> #[trigger] x[k] != '"',
        !in_str ==> forall|k: int| 0 <= k < x.len() ==> !is_ws(#[trigger] x[k]),
    ensures
        strip_from(x + z, in_str, p) == x + strip_from(z, in_str, if x.len() == 0 { p } else { Some(x.last()) }),
    decreases x.len(),
{
    if x.len() == 0 {
        assert(x + z =~= z);
        assert(x + strip_from(z, in_str, p) =~= strip_from(z, in_str, p));
    } else {
        let x1 = x.drop_first();
        assert forall|k: int| 0 <= k < x1.len() implies #[trigger] x1[k] != '"' by {
            assert(x1[k] == x[k + 1]);
        }
        if !in_str {
            assert forall|k: int| 0 <= k < x1.len() implies !is_ws(#[trigger] x1[k]) by {
                assert(x1[k] == x[k + 1]);
            }
        }
        assert(x[0] != '"');
        lemma_strip_chunk(x1, z, in_str, Some(x[0]));
        assert(x + z =~= seq![x[0]] + (x1 + z));
        lemma_strip_cons(x[0], x1 + z, in_str, p);
        if x1.len() > 0 {
            assert(x1.last() == x.last());
        }
        assert(seq![x[0]] + (x1 + strip_from(z, in_str, if x1.len() == 0 { Some(x[0]) } else { Some(x1.last()) }))
            =~= x + strip_from(z, in_str, Some(x.last())));
    }
}

proof fn lemma_escape_shape(s: Seq<char>)
    requires
        is_plain_string(s),
    ensures
        forall|k: int| 0 <= k < escape(s).len() ==> #[trigger] escape(s)[k] != '"',
        escape(s).len() > 0 ==> escape(s).last() != '\\',
{
    lemma_escape_quote_free(s);
    if s.len() > 0 {
        assert(escape(s) == escape(s.drop_last()) + escape_char(s.last()));
    }
}

proof fn lemma_escape_quote_free(s: Seq<char>)
    requires
        forall|i: int| 0 <= i < s.len() ==> #[trigger] s[i] != '"',
    ensures
        forall|k: int| 0 <= k < escape(s).len() ==> #[trigger] escape(s)[k] != '"',
    decreases s.len(),
{
    if s.len() > 0 {
        let init = s.drop_last();
        assert forall|i: int| 0 <= i < init.len() implies #[trigger] init[i] != '"' by {
            assert(init[i] == s[i]);
        }
        lemma_escape_quote_free(init);
        let c = s.last();
        assert(s[s.len() - 1] != '"');
        let e = escape(s);
        assert(e == escape(init) + escape_char(c));
        assert forall|k: int| 0 <= k < e.len() implies #[trigger] e[k] != '"' by {
            if k < escape(init).len() {
                assert(e[k] == escape(init)[k]);
            } else {
                assert(e[k] == escape_char(c)[k - escape(init).len()]);
            }
        }
    }
}

proof fn lemma_quoted_chunk(x: Seq<char>, z: Seq<char>, p: Option<char>)
    requires
        p != Some('\\'),
        forall|k: int| 0 <= k < x.len() ==> #[trigger] x[k] != '"',
        x.len() > 0 ==> x.last() != '\\',
    ensures
        strip_from(seq!['"'] + x + seq!['"'] + z, false, p) == seq!['"'] + x + seq!['"'] + strip_from(z, false, Some('"')),
{
    let q = if x.len() == 0 { Some('"') } else { Some(x.last()) };
    assert(seq!['"'] + x + seq!['"'] + z =~= seq!['"'] + (x + (seq!['"'] + z)));
    lemma_strip_cons('"', x + (seq!['"'] + z), false, p);
    lemma_strip_chunk(x, seq!['"'] + z, true, Some('"'));
    lemma_strip_cons('"', z, true, q);
    assert(seq!['"'] + (x + (seq!['"'] + strip_from(z, false, Some('"')))) =~= seq!['"'] + x + seq!['"'] + strip_from(z, false, Some('"')));
}

proof fn lemma_norm_value(j: Json, y: Seq<char>, p: Option<char>)
    requires
        round_trips(j),
        p != Some('\\'),
    ensures
        ser(j).len() > 0,
        strip_from(ser(j) + y, false, p) == ser(j) + strip_from(y, false, Some(ser(j).last())),
    decreases j, 1int,
{
    match j {
        Json::Str(s) => {
            lemma_escape_shape(s);
            lemma_quoted_chunk(escape(s), y, p);
        },
        Json::Int(t) => {
            lemma_strip_chunk(t, y, false, p);
        },
        Json::Decimal(t) => {
            lemma_strip_chunk(t, y, false, p);
        },
        Json::Bool(t) => {
            lemma_strip_chunk(t, y, false, p);
        },
        Json::Array(s) => {
            let body = ser_items(s);
            lemma_norm_items(s, seq![']'] + y, Some('['));
            assert(ser(j) + y =~= seq!['['] + (body + (seq![']'] + y)));
            lemma_strip_cons('[', body + (seq![']'] + y), false, p);
            lemma_strip_cons(']', y, false, Some(body.last()));
            assert(ser(j) + strip_from(y, false, Some(']')) =~= seq!['['] + (body + (seq![']'] + strip_from(y, false, Some(']')))));
        },
        Json::Object(es) => {
            let body = ser_entries(es);
            lemma_norm_entries(es, seq!['}'] + y, Some('{'));
            assert(ser(j) + y =~= seq!['{'] + (body + (seq!['}'] + y)));
            lemma_strip_cons('{', body + (seq!['}'] + y), false, p);
            lemma_strip_cons('}', y, false, Some(body.last()));
            assert(ser(j) + strip_from(y, false, Some('}')) =~= seq!['{'] + (body + (seq!['}'] + strip_from(y, false, Some('}')))));
        },
        _ => {},
    }
}

proof fn lemma_norm_items(s: Seq<Json>, z: Seq<char>, q: Option<char>)
    requires
        s.len() > 0,
        forall|k: int| 0 <= k < s.len() ==> round_trips(#[trigger] s[k]),
        q != Some('\\'),
    ensures
        ser_items(s).len() > 0,
        strip_from(ser_items(s) + z, false, q) == ser_items(s) + strip_from(z, false, Some(ser_items(s).last())),
    decreases s, 0int,
{
    let v = s[0];
    assert(round_trips(v));
    if s.len() == 1 {
        assert(ser_items(s) == ser(v));
        lemma_norm_value(v, z, q);
    } else {
        lemma_items_front(s);
        let rest = s.drop_first();
        let tail = ser_items(rest);
        assert forall|k: int| 0 <= k < rest.len() implies round_trips(#[trigger] rest[k]) by {
            assert(rest[k] == s[k + 1]);
        }
        lemma_norm_items(rest, z, Some(','));
        lemma_norm_value(v, seq![','] + (tail + z), q);
        lemma_strip_cons(',', tail + z, false, Some(ser(v).last()));
        assert(ser_items(s) + z =~= ser(v) + (seq![','] + (tail + z)));
        assert(ser_items(s).last() == tail.last());
        assert(ser(v) + (seq![','] + (tail + strip_from(z, false, Some(tail.last()))))
            =~= ser_items(s) + strip_from(z, false, Some(tail.last())));
    }
}

#[verifier::rlimit(50)]
proof fn lemma_norm_entries(es: Seq<(Seq<char>, Json)>, z: Seq<char>, q: Option<char>)
    requires
        es.len() > 0,
        forall|k: int|
            0 <= k < es.len() ==> is_plain_key(#[trigger] es[k].0) && !is_absent(es[k].1) && round_trips(es[k].1),
        q != Some('\\'),
    ensures
        ser_entries(es).len() > 0,
        strip_from(ser_entries(es) + z, false, q) == ser_entries(es) + strip_from(z, false, Some(ser_entries(es).last())),
    decreases es, 0int,
{
    let key = es[0].0;
    let v = es[0].1;
    assert(is_plain_key(key) && !is_absent(v) && round_trips(v));
    assert forall|k: int| 0 <= k < es.len() implies !is_absent(#[trigger] es[k].1) by {
        assert(is_plain_key(es[k].0) && !is_absent(es[k].1));
    }
    lemma_entries_front(es);
    let vt = ser(v);
    let et = entry_text(key, vt);
    let after = if es.len() == 1 { Seq::<char>::empty() } else { seq![','] + ser_entries(es.drop_first()) };
    assert(ser_entries(es) =~= et + after);
    let w = if es.len() == 1 { z } else { seq![','] + (ser_entries(es.drop_first()) + z) };
    assert(after + z =~= w);
    // the key and its colon
    lemma_quoted_chunk(key, seq![':'] + (vt + w), q);
    assert(et + w =~= seq!['"'] + key + seq!['"'] + (seq![':'] + (vt + w)));
    lemma_strip_cons(':', vt + w, false, Some('"'));
    lemma_norm_value(v, w, Some(':'));
    assert(vt.len() > 0);
    assert(et.last() == vt.last());
    if es.len() == 1 {
        assert(ser_entries(es) + z =~= et + w);
        assert(seq!['"'] + key + seq!['"'] + (seq![':'] + (vt + strip_from(w, false, Some(vt.last())))) =~= ser_entries(es) + strip_from(z, false, Some(vt.last())));
    } else {
        let rest = es.drop_first();
        let tail = ser_entries(rest);
        assert forall|m: int|
            0 <= m < rest.len() implies is_plain_key(#[trigger] rest[m].0) && !is_absent(rest[m].1) && round_trips(rest[m].1) by {
            assert(rest[m] == es[m + 1]);
            let e1 = es[m + 1];
            assert(is_plain_key(e1.0) && !is_absent(e1.1) && round_trips(e1.1));
        }
        lemma_norm_entries(rest, z, Some(','));
        lemma_strip_cons(',', tail + z, false, Some(vt.last()));
        assert(ser_entries(es) + z =~= et + w);
        assert(ser_entries(es).last() == tail.last());
        assert(seq!['"'] + key + seq!['"'] + (seq![':'] + (vt + (seq![','] + (tail + strip_from(z, false, Some(tail.last()))))))
            =~= ser_entries(es) + strip_from(z, false, Some(tail.last())));
    }
}

/// Parsing the compact text of an object into a new value gives the object
/// back, where every string, key and literal in it is plain, no string ends
/// with a backslash, no container is empty, no object repeats a key and no
/// value is Null or Undefined.
pub proof fn lemma_round_trip(j: Json)
    requires
        j is Object,
        round_trips(j),
    ensures
        parse_into(Json::Undefined, ser(j)) == Ok::<Json, ParseError>(j),
{
    lemma_norm_value(j, Seq::empty(), None);
    assert(ser(j) + Seq::<char>::empty() =~= ser(j));
    assert(strip_from(Seq::<char>::empty(), false, Some(ser(j).last())) == Seq::<char>::empty());
    assert(normalize(ser(j)) == ser(j));
    lemma_object_round_trip(j);
    lemma_insert_all_unique(j->Object_0);
}

/// An entry whose value is Null or Undefined is not read back: parsing the
/// object's text into a new value gives the object without that entry, and,
/// where the object's keys are distinct, without its key, provided the rest of
/// the object carries through as `lemma_round_trip` asks.
pub proof fn lemma_elided_entry_not_recovered(es: Seq<(Seq<char>, Json)>, p: int)
    requires
        0 <= p < es.len(),
        is_absent(es[p].1),
        round_trips(Json::Object(es.remove(p))),
    ensures
        parse_into(Json::Undefined, ser(Json::Object(es))) == Ok::<Json, ParseError>(Json::Object(es.remove(p))),
        unique_keys(es) ==> key_pos(es.remove(p), es[p].0) == -1,
{
    lemma_absent_entry_elided(es, p);
    lemma_round_trip(Json::Object(es.remove(p)));
    let r = es.remove(p);
    lemma_key_pos(r, es[p].0);
    if unique_keys(es) && key_pos(r, es[p].0) >= 0 {
        let q = key_pos(r, es[p].0);
        if q < p {
            assert(r[q] == es[q]);
        } else {
            assert(r[q] == es[q + 1]);
        }
    }
}

} // verus!
