//! The recursive-descent reader.
use vstd::prelude::*;
use crate::chars::chars_of;
use crate::chars::string_of;
use crate::model::Json;
use crate::model::entries_of;
use crate::model::insert_entry;
use crate::model::null_text;
use crate::value::JsonValue;
use crate::value::Kind;
use crate::value::lemma_model;
use crate::value::lemma_wf;
use crate::value::views;
use crate::value::entry_views;
use crate::whitespace::normalize;
use crate::whitespace::normalize_chars;
use crate::whitespace::toggles;

verus! {

/// Why a text could not be read.
#[derive(PartialEq, Eq, Structural, Clone, Copy, Debug)]
pub enum ParseError {
    /// The text ended where more was needed.
    TruncatedInput,
    /// A character where none of its kind can stand, or an empty key.
    UnexpectedToken,
    /// The text ended inside a string literal, or a scalar was a lone quote.
    UnterminatedString,
    /// A bracket that closes a container of the other kind.
    UnbalancedBrackets,
}

/// The character before position `i`, if any.
pub open spec fn prev_at(d: Seq<char>, i: int) -> Option<char> {
    if i <= 0 || i > d.len() { None } else { Some(d[i - 1]) }
}

/// What a backslash followed by `n` stands for inside a string literal.
pub open spec fn unescape(n: char) -> Seq<char> {
    if n == 'n' {
        seq!['\n']
    } else if n == 't' {
        seq!['\t']
    } else if n == '\\' {
        seq!['\\']
    } else {
        Seq::empty()
    }
}

pub open spec fn prepend_text(
    pre: Seq<char>,
    r: Result<(Seq<char>, int), ParseError>,
) -> Result<(Seq<char>, int), ParseError> {
    match r {
        Ok((t, k)) => Ok((pre + t, k)),
        Err(e) => Err(e),
    }
}

/// The literal text of a scalar that starts at `i`, with its escapes expanded,
/// and the position of the `,`, `}` or `]` outside a string literal that ends it.
pub open spec fn scan_scalar(d: Seq<char>, i: int, in_str: bool) -> Result<(Seq<char>, int), ParseError>
    decreases d.len() - i,
{
    if i < 0 || i >= d.len() {
        if in_str { Err(ParseError::UnterminatedString) } else { Err(ParseError::TruncatedInput) }
    } else if !in_str && (d[i] == ',' || d[i] == '}' || d[i] == ']') {
        Ok((Seq::empty(), i))
    } else {
        let c = d[i];
        let in2 = in_str != toggles(c, prev_at(d, i));
        if in2 && c == '\\' {
            if i + 1 >= d.len() {
                Err(ParseError::UnterminatedString)
            } else {
                prepend_text(unescape(d[i + 1]), scan_scalar(d, i + 2, in2))
            }
        } else {
            prepend_text(seq![c], scan_scalar(d, i + 1, in2))
        }
    }
}

/// `t` equals `lower` or `upper` letter by letter.
pub open spec fn matches_either(t: Seq<char>, lower: Seq<char>, upper: Seq<char>) -> bool {
    t.len() == lower.len() && t.len() == upper.len() && forall|i: int|
        0 <= i < t.len() ==> (#[trigger] t[i] == lower[i] || t[i] == upper[i])
}

/// `t` is `true` or `false`, in any case.
pub open spec fn is_bool_literal(t: Seq<char>) -> bool {
    matches_either(t, seq!['t', 'r', 'u', 'e'], seq!['T', 'R', 'U', 'E'])
        || matches_either(t, seq!['f', 'a', 'l', 's', 'e'], seq!['F', 'A', 'L', 'S', 'E'])
}

/// The kind that a scalar's literal text shows: a quote first makes a string
/// (the quotes are dropped), `null` or nothing makes Null (which keeps it), a dot makes a
/// decimal, `true` or `false` in any case makes a boolean, anything else an integer.
pub open spec fn classify(t: Seq<char>) -> Result<Json, ParseError> {
    if t.len() > 0 && t[0] == '"' {
        if t.len() < 2 {
            Err(ParseError::UnterminatedString)
        } else {
            Ok(Json::Str(t.subrange(1, t.len() - 1)))
        }
    } else if t == null_text() || t.len() == 0 {
        Ok(Json::Null(t))
    } else if t.contains('.') {
        Ok(Json::Decimal(t))
    } else if is_bool_literal(t) {
        Ok(Json::Bool(t))
    } else {
        Ok(Json::Int(t))
    }
}

/// The entries written in order over `base`.
pub open spec fn insert_all(base: Seq<(Seq<char>, Json)>, es: Seq<(Seq<char>, Json)>) -> Seq<(Seq<char>, Json)>
    decreases es.len(),
{
    if es.len() == 0 {
        base
    } else {
        insert_entry(insert_all(base, es.drop_last()), es.last().0, es.last().1)
    }
}

/// A fresh value after the entries are written to it in order.
pub open spec fn object_of(es: Seq<(Seq<char>, Json)>) -> Json {
    if es.len() == 0 { Json::Undefined } else { Json::Object(insert_all(Seq::empty(), es)) }
}

/// A fresh value after the elements are appended to it in order.
pub open spec fn array_of(s: Seq<Json>) -> Json {
    if s.len() == 0 { Json::Undefined } else { Json::Array(s) }
}

/// The text of a key from `j` on, the position of the `:` that ends it and
/// whether the scan is then inside a string literal; the character at `start`
/// is left out.
pub open spec fn scan_key(d: Seq<char>, j: int, start: int, in_str: bool) -> Result<(Seq<char>, int, bool), ParseError>
    decreases d.len() - j,
{
    if j < 0 || j >= d.len() {
        Err(ParseError::TruncatedInput)
    } else if d[j] == ':' && !in_str {
        Ok((Seq::empty(), j, in_str))
    } else {
        let in2 = in_str != toggles(d[j], prev_at(d, j));
        match scan_key(d, j + 1, start, in2) {
            Ok((t, e, b)) => Ok(((if j == start { Seq::empty() } else { seq![d[j]] }) + t, e, b)),
            Err(x) => Err(x),
        }
    }
}

/// The value that starts at `i`, and the position after it.
pub open spec fn parse_value(d: Seq<char>, i: int) -> Result<(Json, int), ParseError>
    decreases d.len() - i, 1int,
{
    if i < 0 || i >= d.len() {
        Err(ParseError::TruncatedInput)
    } else if d[i] == '{' {
        match parse_object(d, i + 1, false) {
            Ok((es, k)) => Ok((object_of(es), k)),
            Err(e) => Err(e),
        }
    } else if d[i] == '[' {
        match parse_array(d, i + 1) {
            Ok((s, k)) => Ok((array_of(s), k)),
            Err(e) => Err(e),
        }
    } else {
        match scan_scalar(d, i, false) {
            Ok((t, k)) => match classify(t) {
                Ok(v) => Ok((v, k)),
                Err(e) => Err(e),
            },
            Err(e) => Err(e),
        }
    }
}

/// The elements of an array whose `[` comes just before `i`, and the position
/// after its `]`.
pub open spec fn parse_array(d: Seq<char>, i: int) -> Result<(Seq<Json>, int), ParseError>
    decreases d.len() - i, 2int,
{
    if i < 0 || i >= d.len() {
        Err(ParseError::TruncatedInput)
    } else if d[i] == ']' {
        Ok((Seq::empty(), i + 1))
    } else if d[i] == ',' {
        parse_array(d, i + 1)
    } else if d[i] == '}' {
        Err(ParseError::UnbalancedBrackets)
    } else {
        match parse_value(d, i) {
            Ok((v, k)) => if k <= i || k > d.len() {
                Err(ParseError::UnexpectedToken)
            } else {
                match parse_array(d, k) {
                    Ok((s, m)) => Ok((seq![v] + s, m)),
                    Err(e) => Err(e),
                }
            },
            Err(e) => Err(e),
        }
    }
}

/// The entries, in the order written, of an object whose `{` comes just
/// before `i`, and the position after its `}`.
pub open spec fn parse_object(d: Seq<char>, i: int, in_str: bool) -> Result<(Seq<(Seq<char>, Json)>, int), ParseError>
    decreases d.len() - i, 2int,
{
    if i < 0 || i >= d.len() {
        Err(ParseError::TruncatedInput)
    } else if d[i] == '}' && !in_str {
        Ok((Seq::empty(), i + 1))
    } else if d[i] == ']' && !in_str {
        Err(ParseError::UnbalancedBrackets)
    } else {
        match scan_key(d, i, i, in_str) {
            Ok((raw, end, in2)) => {
                let j = end + 1;
                if raw.len() == 0 || j <= i || j > d.len() {
                    Err(ParseError::UnexpectedToken)
                } else {
                    match parse_value(d, j) {
                        Ok((v, k)) => if k < j || k > d.len() {
                            Err(ParseError::UnexpectedToken)
                        } else if k == d.len() {
                            Err(ParseError::TruncatedInput)
                        } else {
                            let k2 = if d[k] == ',' { k + 1 } else { k };
                            match parse_object(d, k2, in2) {
                                Ok((es, m)) => Ok((seq![(raw.drop_last(), v)] + es, m)),
                                Err(e) => Err(e),
                            }
                        },
                        Err(e) => Err(e),
                    }
                }
            },
            Err(e) => Err(e),
        }
    }
}

/// What reading `text` into a value whose model is `old` gives: the text is
/// normalized and read as the body of an object from its second character on;
/// each entry is then written into the value in order.
pub open spec fn parse_into(old: Json, text: Seq<char>) -> Result<Json, ParseError> {
    match parse_object(normalize(text), 1, false) {
        Ok((es, _)) => Ok(if es.len() == 0 { old } else { Json::Object(insert_all(entries_of(old), es)) }),
        Err(e) => Err(e),
    }
}

pub open spec fn text_result(r: Result<(Vec<char>, usize), ParseError>) -> Result<(Seq<char>, int), ParseError> {
    match r {
        Ok((t, k)) => Ok((t@, k as int)),
        Err(e) => Err(e),
    }
}

fn read_scalar(d: &Vec<char>, i0: usize) -> (r: Result<(Vec<char>, usize), ParseError>)
    ensures
        text_result(r) == scan_scalar(d@, i0 as int, false),
{
    let mut out: Vec<char> = Vec::new();
    let mut i = i0;
    let mut in_str = false;
    while i < d.len() && (in_str || (d[i] != ',' && d[i] != '}' && d[i] != ']'))
        invariant
            i0 <= i,
            scan_scalar(d@, i0 as int, false) == prepend_text(out@, scan_scalar(d@, i as int, in_str)),
        decreases d@.len() - i,
    {
        let c = d[i];
        if c == '"' && (i == 0 || d[i - 1] != '\\') {
            in_str = !in_str;
        }
        if in_str && c == '\\' {
            if i + 1 >= d.len() {
                return Err(ParseError::UnterminatedString);
            }
            let n = d[i + 1];
            let ghost pre = out@;
            if n == 'n' {
                out.push('\n');
            } else if n == 't' {
                out.push('\t');
            } else if n == '\\' {
                out.push('\\');
            }
            assert(out@ =~= pre + unescape(n));
            i = i + 2;
            assert forall|r: Result<(Seq<char>, int), ParseError>|
                prepend_text(pre, prepend_text(unescape(n), r)) == prepend_text(out@, r) by {
                if let Ok((t, k)) = r {
                    assert(pre + (unescape(n) + t) =~= out@ + t);
                }
            }
        } else {
            let ghost pre = out@;
            out.push(c);
            i = i + 1;
            assert forall|r: Result<(Seq<char>, int), ParseError>|
                prepend_text(pre, prepend_text(seq![c], r)) == prepend_text(out@, r) by {
                if let Ok((t, k)) = r {
                    assert(pre + (seq![c] + t) =~= out@ + t);
                }
            }
        }
    }
    if i >= d.len() {
        if in_str {
            return Err(ParseError::UnterminatedString);
        }
        return Err(ParseError::TruncatedInput);
    }
    assert(out@ + Seq::<char>::empty() =~= out@);
    Ok((out, i))
}

fn matches_either_exec(t: &Vec<char>, lower: &Vec<char>, upper: &Vec<char>) -> (r: bool)
    ensures
        r == matches_either(t@, lower@, upper@),
{
    if t.len() != lower.len() || t.len() != upper.len() {
        return false;
    }
    let mut i: usize = 0;
    while i < t.len()
        invariant
            i <= t@.len(),
            t@.len() == lower@.len(),
            t@.len() == upper@.len(),
            forall|j: int| 0 <= j < i ==> (#[trigger] t@[j] == lower@[j] || t@[j] == upper@[j]),
        decreases t@.len() - i,
    {
        if t[i] != lower[i] && t[i] != upper[i] {
            return false;
        }
        i = i + 1;
    }
    true
}

fn value_of(kind: Kind, t: &Vec<char>) -> (r: JsonValue)
    ensures
        r.kind == kind,
        r.text@ == t@,
        r.items@.len() == 0,
        r.fields@.len() == 0,
        r.wf(),
{
    let r = JsonValue { kind, text: string_of(t), items: Vec::new(), fields: Vec::new() };
    proof {
        lemma_wf(&r);
    }
    r
}

fn classify_exec(t: Vec<char>) -> (r: Result<JsonValue, ParseError>)
    ensures
        match r {
            Ok(v) => classify(t@) == Ok::<Json, ParseError>(v@),
            Err(e) => classify(t@) == Err::<Json, ParseError>(e),
        },
        r is Ok ==> r->Ok_0.wf(),
{
    let n = t.len();
    if n > 0 && t[0] == '"' {
        if n < 2 {
            return Err(ParseError::UnterminatedString);
        }
        let mut inner: Vec<char> = Vec::new();
        let mut i: usize = 1;
        while i < n - 1
            invariant
                n == t@.len(),
                n >= 2,
                1 <= i <= n - 1,
                inner@ == t@.subrange(1, i as int),
            decreases n - 1 - i,
        {
            inner.push(t[i]);
            i = i + 1;
            assert(inner@ =~= t@.subrange(1, i as int));
        }
        let v = value_of(Kind::Str, &inner);
        proof {
            lemma_model(&v);
        }
        return Ok(v);
    }
    let is_null = n == 4 && t[0] == 'n' && t[1] == 'u' && t[2] == 'l' && t[3] == 'l';
    assert(is_null == (t@ == null_text())) by {
        if is_null {
            assert(t@ =~= null_text());
        }
    }
    let v = if is_null || n == 0 {
        value_of(Kind::Null, &t)
    } else {
        let mut has_dot = false;
        let mut i: usize = 0;
        while i < n
            invariant
                n == t@.len(),
                i <= n,
                has_dot == (exists|j: int| 0 <= j < i && t@[j] == '.'),
            decreases n - i,
        {
            if t[i] == '.' {
                has_dot = true;
            }
            i = i + 1;
        }
        if has_dot {
            value_of(Kind::Decimal, &t)
        } else if matches_either_exec(&t, &vec!['t', 'r', 'u', 'e'], &vec!['T', 'R', 'U', 'E'])
            || matches_either_exec(&t, &vec!['f', 'a', 'l', 's', 'e'], &vec!['F', 'A', 'L', 'S', 'E']) {
            value_of(Kind::Bool, &t)
        } else {
            value_of(Kind::Int, &t)
        }
    };
    proof {
        lemma_model(&v);
    }
    Ok(v)
}

pub open spec fn key_result(r: Result<(Vec<char>, usize, bool), ParseError>) -> Result<(Seq<char>, int, bool), ParseError> {
    match r {
        Ok((t, k, b)) => Ok((t@, k as int, b)),
        Err(e) => Err(e),
    }
}

pub open spec fn prepend_key(
    pre: Seq<char>,
    r: Result<(Seq<char>, int, bool), ParseError>,
) -> Result<(Seq<char>, int, bool), ParseError> {
    match r {
        Ok((t, k, b)) => Ok((pre + t, k, b)),
        Err(e) => Err(e),
    }
}

fn read_key(d: &Vec<char>, start: usize, in0: bool) -> (r: Result<(Vec<char>, usize, bool), ParseError>)
    ensures
        key_result(r) == scan_key(d@, start as int, start as int, in0),
{
    let mut out: Vec<char> = Vec::new();
    let mut i = start;
    let mut in_str = in0;
    while i < d.len() && (d[i] != ':' || in_str)
        invariant
            start <= i,
            scan_key(d@, start as int, start as int, in0) == prepend_key(out@, scan_key(d@, i as int, start as int, in_str)),
        decreases d@.len() - i,
    {
        let ghost pre = out@;
        let c = d[i];
        if i != start {
            out.push(c);
        }
        if c == '"' && (i == 0 || d[i - 1] != '\\') {
            in_str = !in_str;
        }
        let ghost head = if i == start { Seq::<char>::empty() } else { seq![c] };
        assert(out@ =~= pre + head);
        i = i + 1;
        assert forall|r: Result<(Seq<char>, int, bool), ParseError>|
            prepend_key(pre, match r { Ok((t, e, b)) => Ok((head + t, e, b)), Err(x) => Err(x) })
                == prepend_key(out@, r) by {
            if let Ok((t, e, b)) = r {
                assert(pre + (head + t) =~= out@ + t);
            }
        }
    }
    if i >= d.len() {
        return Err(ParseError::TruncatedInput);
    }
    assert(out@ + Seq::<char>::empty() =~= out@);
    Ok((out, i, in_str))
}

pub open spec fn value_result(r: Result<(JsonValue, usize), ParseError>) -> Result<(Json, int), ParseError> {
    match r {
        Ok((v, k)) => Ok((v@, k as int)),
        Err(e) => Err(e),
    }
}

pub open spec fn items_result(r: Result<(Vec<JsonValue>, usize), ParseError>) -> Result<(Seq<Json>, int), ParseError> {
    match r {
        Ok((s, k)) => Ok((views(s@), k as int)),
        Err(e) => Err(e),
    }
}

pub open spec fn entries_result(
    r: Result<(Vec<(String, JsonValue)>, usize), ParseError>,
) -> Result<(Seq<(Seq<char>, Json)>, int), ParseError> {
    match r {
        Ok((s, k)) => Ok((entry_views(s@), k as int)),
        Err(e) => Err(e),
    }
}

pub open spec fn prepend_items(pre: Seq<Json>, r: Result<(Seq<Json>, int), ParseError>) -> Result<(Seq<Json>, int), ParseError> {
    match r {
        Ok((s, k)) => Ok((pre + s, k)),
        Err(e) => Err(e),
    }
}

pub open spec fn prepend_entries(
    pre: Seq<(Seq<char>, Json)>,
    r: Result<(Seq<(Seq<char>, Json)>, int), ParseError>,
) -> Result<(Seq<(Seq<char>, Json)>, int), ParseError> {
    match r {
        Ok((s, k)) => Ok((pre + s, k)),
        Err(e) => Err(e),
    }
}

fn read_value(d: &Vec<char>, i: usize) -> (r: Result<(JsonValue, usize), ParseError>)
    ensures
        value_result(r) == parse_value(d@, i as int),
        r is Ok ==> r->Ok_0.0.wf(),
    decreases d@.len() - i, 1int,
{
    if i >= d.len() {
        return Err(ParseError::TruncatedInput);
    }
    if d[i] == '{' {
        match read_object(d, i + 1, false) {
            Ok((es, k)) => {
                let mut v = JsonValue::new();
                add_all(&mut v, es);
                Ok((v, k))
            },
            Err(e) => Err(e),
        }
    } else if d[i] == '[' {
        match read_array(d, i + 1) {
            Ok((s, k)) => {
                if s.len() == 0 {
                    Ok((JsonValue::new(), k))
                } else {
                    let v = JsonValue { kind: Kind::Array, text: String::new(), items: s, fields: Vec::new() };
                    proof {
                        lemma_model(&v);
                        lemma_wf(&v);
                    }
                    Ok((v, k))
                }
            },
            Err(e) => Err(e),
        }
    } else {
        match read_scalar(d, i) {
            Ok((t, k)) => match classify_exec(t) {
                Ok(v) => Ok((v, k)),
                Err(e) => Err(e),
            },
            Err(e) => Err(e),
        }
    }
}

fn read_array(d: &Vec<char>, i0: usize) -> (r: Result<(Vec<JsonValue>, usize), ParseError>)
    ensures
        items_result(r) == parse_array(d@, i0 as int),
        r is Ok ==> forall|j: int| 0 <= j < r->Ok_0.0@.len() ==> (#[trigger] r->Ok_0.0@[j]).wf(),
    decreases d@.len() - i0, 2int,
{
    let mut acc: Vec<JsonValue> = Vec::new();
    let mut i = i0;
    assert(views(acc@) =~= Seq::<Json>::empty());
    loop
        invariant
            i0 <= i <= d@.len() || (i0 == i),
            parse_array(d@, i0 as int) == prepend_items(views(acc@), parse_array(d@, i as int)),
            forall|j: int| 0 <= j < acc@.len() ==> (#[trigger] acc@[j]).wf(),
        decreases d@.len() - i,
    {
        if i >= d.len() {
            return Err(ParseError::TruncatedInput);
        }
        if d[i] == ']' {
            assert(views(acc@) + Seq::<Json>::empty() =~= views(acc@));
            return Ok((acc, i + 1));
        }
        if d[i] == '}' {
            return Err(ParseError::UnbalancedBrackets);
        }
        if d[i] == ',' {
            i = i + 1;
        } else {
            match read_value(d, i) {
                Ok((v, k)) => {
                    if k <= i || k > d.len() {
                        return Err(ParseError::UnexpectedToken);
                    }
                    let ghost pre = views(acc@);
                    let ghost vv = v@;
                    let ghost a0 = acc@;
                    acc.push(v);
                    assert(forall|j: int| 0 <= j < a0.len() ==> acc@[j] == a0[j]);
                    assert(views(acc@) =~= pre.push(vv));
                    assert forall|r: Result<(Seq<Json>, int), ParseError>|
                        prepend_items(pre, match r { Ok((s, m)) => Ok((seq![vv] + s, m)), Err(e) => Err(e) })
                            == prepend_items(views(acc@), r) by {
                        if let Ok((s, m)) = r {
                            assert(pre + (seq![vv] + s) =~= views(acc@) + s);
                        }
                    }
                    i = k;
                },
                Err(e) => {
                    return Err(e);
                },
            }
        }
    }
}

fn read_object(d: &Vec<char>, i0: usize, in0: bool) -> (r: Result<(Vec<(String, JsonValue)>, usize), ParseError>)
    ensures
        entries_result(r) == parse_object(d@, i0 as int, in0),
        r is Ok ==> forall|j: int| 0 <= j < r->Ok_0.0@.len() ==> (#[trigger] r->Ok_0.0@[j]).1.wf(),
    decreases d@.len() - i0, 2int,
{
    let mut acc: Vec<(String, JsonValue)> = Vec::new();
    let mut i = i0;
    let mut in_str = in0;
    assert(entry_views(acc@) =~= Seq::<(Seq<char>, Json)>::empty());
    loop
        invariant
            i0 <= i,
            parse_object(d@, i0 as int, in0) == prepend_entries(entry_views(acc@), parse_object(d@, i as int, in_str)),
            forall|j: int| 0 <= j < acc@.len() ==> (#[trigger] acc@[j]).1.wf(),
        decreases d@.len() - i,
    {
        if i >= d.len() {
            return Err(ParseError::TruncatedInput);
        }
        if d[i] == '}' && !in_str {
            assert(entry_views(acc@) + Seq::<(Seq<char>, Json)>::empty() =~= entry_views(acc@));
            return Ok((acc, i + 1));
        }
        if d[i] == ']' && !in_str {
            return Err(ParseError::UnbalancedBrackets);
        }
        let (raw, end, in2) = match read_key(d, i, in_str) {
            Ok(x) => x,
            Err(e) => {
                return Err(e);
            },
        };
        if raw.len() == 0 || end >= d.len() {
            return Err(ParseError::UnexpectedToken);
        }
        let j = end + 1;
        if j <= i {
            return Err(ParseError::UnexpectedToken);
        }
        let (v, k) = match read_value(d, j) {
            Ok(x) => x,
            Err(e) => {
                return Err(e);
            },
        };
        if k < j || k > d.len() {
            return Err(ParseError::UnexpectedToken);
        }
        if k == d.len() {
            return Err(ParseError::TruncatedInput);
        }
        let k2 = if d[k] == ',' { k + 1 } else { k };
        let mut key_chars = raw;
        key_chars.pop();
        let key = string_of(&key_chars);
        let ghost pre = entry_views(acc@);
        let ghost e = (raw@.drop_last(), v@);
        assert(key_chars@ =~= raw@.drop_last());
        let ghost a0 = acc@;
        acc.push((key, v));
        assert(forall|j: int| 0 <= j < a0.len() ==> acc@[j] == a0[j]);
        assert(entry_views(acc@) =~= pre.push(e));
        assert forall|r: Result<(Seq<(Seq<char>, Json)>, int), ParseError>|
            prepend_entries(pre, match r { Ok((s, m)) => Ok((seq![e] + s, m)), Err(x) => Err(x) })
                == prepend_entries(entry_views(acc@), r) by {
            if let Ok((s, m)) = r {
                assert(pre + (seq![e] + s) =~= entry_views(acc@) + s);
            }
        }
        i = k2;
        in_str = in2;
    }
}

/// Writes the entries into `target` in order, as `add_json` does.
fn add_all(target: &mut JsonValue, entries: Vec<(String, JsonValue)>)
    ensures
        final(target)@ == (if entries@.len() == 0 {
            old(target)@
        } else {
            Json::Object(insert_all(entries_of(old(target)@), entry_views(entries@)))
        }),
        old(target).wf() && (forall|j: int| 0 <= j < entries@.len() ==> (#[trigger] entries@[j]).1.wf())
            ==> final(target).wf(),
{
    let ghost ok = old(target).wf() && (forall|j: int| 0 <= j < entries@.len() ==> (#[trigger] entries@[j]).1.wf());
    let ghost all = entry_views(entries@);
    let ghost n = entries@.len();
    let mut es = entries;
    let mut rev: Vec<(String, JsonValue)> = Vec::new();
    while es.len() > 0
        invariant
            all.len() == n,
            es@.len() + rev@.len() == n,
            forall|j: int| 0 <= j < es@.len() ==> (#[trigger] entry_views(es@)[j]) == all[j],
            ok ==> forall|j: int| 0 <= j < es@.len() ==> (#[trigger] es@[j]).1.wf(),
            ok ==> forall|j: int| 0 <= j < rev@.len() ==> (#[trigger] rev@[j]).1.wf(),
            forall|j: int| 0 <= j < rev@.len() ==> (#[trigger] entry_views(rev@)[j]) == all[n - 1 - j],
        decreases es@.len(),
    {
        let ghost last = es@.len() - 1;
        assert(entry_views(es@)[last] == all[last]);
        let ghost olde = es@;
        let ghost oldr = rev@;
        let e = es.pop().unwrap();
        rev.push(e);
        proof {
            assert forall|j: int| 0 <= j < es@.len() implies (#[trigger] entry_views(es@)[j]) == all[j] by {
                assert(es@[j] == olde[j]);
                assert(entry_views(olde)[j] == all[j]);
            }
            assert forall|j: int| 0 <= j < rev@.len() implies (#[trigger] entry_views(rev@)[j]) == all[n - 1 - j] by {
                if j < oldr.len() {
                    assert(rev@[j] == oldr[j]);
                    assert(entry_views(oldr)[j] == all[n - 1 - j]);
                }
            }
            assert forall|j: int| 0 <= j < es@.len() implies es@[j] == olde[j] by {}
            assert forall|j: int| 0 <= j < rev@.len() implies rev@[j] == (if j < oldr.len() { oldr[j] } else { olde[olde.len() - 1] }) by {
            }
        }
    }
    while rev.len() > 0
        invariant
            all.len() == n,
            rev@.len() <= n,
            forall|j: int| 0 <= j < rev@.len() ==> (#[trigger] entry_views(rev@)[j]) == all[n - 1 - j],
            n - rev@.len() == 0 ==> target@ == old(target)@,
            ok ==> target.wf(),
            ok ==> forall|j: int| 0 <= j < rev@.len() ==> (#[trigger] rev@[j]).1.wf(),
            n - rev@.len() > 0 ==> target@ == Json::Object(
                insert_all(entries_of(old(target)@), all.take(n - rev@.len())),
            ),
        decreases rev@.len(),
    {
        let ghost p = n - rev@.len();
        let ghost before = target@;
        let ghost oldr = rev@;
        assert(entry_views(rev@)[rev@.len() - 1] == all[p]);
        let (k, v) = rev.pop().unwrap();
        assert(ok ==> v.wf());
        assert(forall|j: int| 0 <= j < rev@.len() ==> rev@[j] == oldr[j]);
        assert(all[p] == (k@, v@));
        assert forall|j: int| 0 <= j < rev@.len() implies (#[trigger] entry_views(rev@)[j]) == all[n - 1 - j] by {
            assert(rev@[j] == oldr[j]);
            assert(entry_views(oldr)[j] == all[n - 1 - j]);
        }
        target.add_json(k.as_str(), v);
        proof {
            assert(all.take(p + 1).drop_last() =~= all.take(p));
            assert(all.take(p + 1).last() == all[p]);
            let b = entries_of(old(target)@);
            assert(insert_all(b, all.take(p + 1)) == insert_entry(insert_all(b, all.take(p)), all[p].0, all[p].1));
            if p == 0 {
                assert(all.take(0) =~= Seq::<(Seq<char>, Json)>::empty());
                assert(insert_all(b, all.take(0)) == b);
            }
        }
    }
    proof {
        if n > 0 {
            assert(all.take(n as int) =~= all);
        }
    }
}

impl JsonValue {
    /// Reads `data` as the text of an object and writes its entries into this
    /// value in order. The text is normalized first; its first character is
    /// taken to be the opening brace. On an error this value is left as it was.
    pub fn parse(&mut self, data: &str) -> (r: Result<(), ParseError>)
        ensures
            match parse_into(old(self)@, data@) {
                Ok(j) => r is Ok && final(self)@ == j,
                Err(e) => r == Err::<(), ParseError>(e) && final(self)@ == old(self)@,
            },
            old(self).wf() ==> final(self).wf(),
    {
        let raw = chars_of(data);
        let d = normalize_chars(&raw);
        match read_object(&d, 1, false) {
            Ok((es, _)) => {
                add_all(self, es);
                Ok(())
            },
            Err(e) => Err(e),
        }
    }
}

} // verus!
