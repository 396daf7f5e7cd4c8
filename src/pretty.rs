//! The indenting pretty-printer.
use vstd::prelude::*;
use crate::chars::chars_of;
use crate::chars::string_of;
use crate::model::ser;
use crate::serialize::serialize_chars;
use crate::value::JsonValue;
use crate::whitespace::is_ws;
use crate::whitespace::lemma_strip_cons;
use crate::whitespace::lemma_strip_len;
use crate::whitespace::normalize;
use crate::whitespace::strip_from;
use crate::whitespace::toggles;

verus! {

/// Four spaces for each level of `depth`; none at depth zero or below.
pub open spec fn indent(depth: int) -> Seq<char> {
    Seq::new(if depth > 0 { (4 * depth) as nat } else { 0 }, |i: int| ' ')
}

/// A newline followed by the indentation of `depth`.
pub open spec fn line(depth: int) -> Seq<char> {
    seq!['\n'] + indent(depth)
}

/// The pretty rest of a text, given whether the scan is inside a string
/// literal, the character just before and the current depth.
pub open spec fn pretty_from(s: Seq<char>, in_str: bool, prev: char, depth: int) -> Seq<char>
    decreases s.len(),
{
    if s.len() == 0 {
        Seq::empty()
    } else {
        let c = s[0];
        let in2 = in_str != toggles(c, Some(prev));
        let s1 = s.drop_first();
        if in2 {
            seq![c] + pretty_from(s1, in2, c, depth)
        } else if c == '{' || c == '[' {
            let pre = if prev != '[' && prev != '{' && prev != ',' { line(depth) } else { Seq::empty() };
            pre + (seq![c] + (line(depth + 1) + pretty_from(s1, in2, c, depth + 1)))
        } else if c == ':' {
            seq![c] + (seq![' '] + pretty_from(s1, in2, c, depth))
        } else if c == ',' {
            seq![c] + (line(depth) + pretty_from(s1, in2, c, depth))
        } else if c == '}' || c == ']' {
            line(depth - 1) + (seq![c] + pretty_from(s1, in2, c, depth - 1))
        } else {
            seq![c] + pretty_from(s1, in2, c, depth)
        }
    }
}

/// The indented form of a compact text: the first character, then the rest
/// at depth one.
pub open spec fn pretty(s: Seq<char>) -> Seq<char> {
    if s.len() == 0 {
        Seq::empty()
    } else {
        seq![s[0]] + (line(1) + pretty_from(s.drop_first(), false, s[0], 1))
    }
}

proof fn lemma_strip_ws_run(w: Seq<char>, y: Seq<char>, q: Option<char>)
    requires
        forall|i: int| 0 <= i < w.len() ==> is_ws(#[trigger] w[i]),
    ensures
        strip_from(w + y, false, q) == strip_from(y, false, if w.len() == 0 { q } else { Some(w.last()) }),
    decreases w.len(),
{
    if w.len() == 0 {
        assert(w + y =~= y);
    } else {
        let c = w[0];
        lemma_strip_ws_run(w.drop_first(), y, Some(c));
        assert(w + y =~= seq![c] + (w.drop_first() + y));
        lemma_strip_cons(c, w.drop_first() + y, false, q);
        if w.len() > 1 {
            assert(w.drop_first().last() == w.last());
        }
    }
}

proof fn lemma_line_ws(depth: int)
    ensures
        forall|i: int| 0 <= i < line(depth).len() ==> is_ws(#[trigger] line(depth)[i]),
        line(depth).len() > 0,
        line(depth).last() == '\n' || line(depth).last() == ' ',
{
    assert forall|i: int| 0 <= i < line(depth).len() implies is_ws(#[trigger] line(depth)[i]) by {
        if i > 0 {
            assert(line(depth)[i] == indent(depth)[i - 1]);
        }
    }
}

proof fn lemma_pretty_strip(s: Seq<char>, in_str: bool, p: char, q: Option<char>, depth: int)
    requires
        strip_from(s, in_str, Some(p)) == s,
        (p == '\\') == (q == Some('\\')),
    ensures
        strip_from(pretty_from(s, in_str, p, depth), in_str, q) == s,
    decreases s.len(),
{
    if s.len() == 0 {
        return;
    }
    let c = s[0];
    let s1 = s.drop_first();
    let in2 = in_str != toggles(c, Some(p));
    assert(toggles(c, Some(p)) == toggles(c, q));
    let rest = strip_from(s1, in2, Some(c));
    if !(in2 || !is_ws(c)) {
        lemma_strip_len(s1, in2, Some(c));
        assert(false);
    }
    assert(seq![c] + rest == s);
    assert(rest =~= s1) by {
        assert(s =~= seq![c] + s1);
        assert(rest == s.drop_first());
    }
    if in2 {
        lemma_pretty_strip(s1, in2, c, Some(c), depth);
        lemma_strip_cons(c, pretty_from(s1, in2, c, depth), in_str, q);
        assert(seq![c] + s1 =~= s);
    } else if c == '{' || c == '[' {
        let pre = if p != '[' && p != '{' && p != ',' { line(depth) } else { Seq::empty() };
        let y = pretty_from(s1, in2, c, depth + 1);
        lemma_line_ws(depth);
        lemma_line_ws(depth + 1);
        lemma_strip_ws_run(pre, seq![c] + (line(depth + 1) + y), q);
        let q1 = if pre.len() == 0 { q } else { Some(pre.last()) };
        lemma_strip_cons(c, line(depth + 1) + y, false, q1);
        lemma_strip_ws_run(line(depth + 1), y, Some(c));
        lemma_pretty_strip(s1, in2, c, Some(line(depth + 1).last()), depth + 1);
        assert(seq![c] + s1 =~= s);
    } else if c == ':' {
        let y = pretty_from(s1, in2, c, depth);
        lemma_strip_cons(c, seq![' '] + y, false, q);
        lemma_strip_cons(' ', y, false, Some(c));
        lemma_pretty_strip(s1, in2, c, Some(' '), depth);
        assert(seq![c] + s1 =~= s);
    } else if c == ',' {
        let y = pretty_from(s1, in2, c, depth);
        lemma_line_ws(depth);
        lemma_strip_cons(c, line(depth) + y, false, q);
        lemma_strip_ws_run(line(depth), y, Some(c));
        lemma_pretty_strip(s1, in2, c, Some(line(depth).last()), depth);
        assert(seq![c] + s1 =~= s);
    } else if c == '}' || c == ']' {
        let y = pretty_from(s1, in2, c, depth - 1);
        lemma_line_ws(depth - 1);
        lemma_strip_ws_run(line(depth - 1), seq![c] + y, q);
        lemma_strip_cons(c, y, false, Some(line(depth - 1).last()));
        lemma_pretty_strip(s1, in2, c, Some(c), depth - 1);
        assert(seq![c] + s1 =~= s);
    } else {
        let y = pretty_from(s1, in2, c, depth);
        lemma_strip_cons(c, y, in_str, q);
        lemma_pretty_strip(s1, in2, c, Some(c), depth);
        assert(seq![c] + s1 =~= s);
    }
}

/// Removing the whitespace from the pretty form of a normalized text gives the
/// text back, where it does not begin with a quote or a backslash.
pub proof fn lemma_pretty_then_normalize(x: Seq<char>)
    requires
        normalize(x) == x,
        x.len() > 0,
        x[0] != '"',
        x[0] != '\\',
    ensures
        normalize(pretty(x)) == x,
{
    let c = x[0];
    let x1 = x.drop_first();
    let rest = strip_from(x1, false, Some(c));
    if is_ws(c) {
        lemma_strip_len(x1, false, Some(c));
        assert(false);
    }
    assert(rest =~= x1) by {
        assert(x =~= seq![c] + x1);
    }
    let y = pretty_from(x1, false, c, 1);
    lemma_line_ws(1);
    lemma_strip_cons(c, line(1) + y, false, None);
    lemma_strip_ws_run(line(1), y, Some(c));
    lemma_pretty_strip(x1, false, c, Some(line(1).last()), 1);
    assert(seq![c] + x1 =~= x);
}

fn push_line(out: &mut Vec<char>, depth: i128)
    ensures
        final(out)@ == old(out)@ + line(depth as int),
{
    out.push('\n');
    let ghost start = out@;
    let mut k: i128 = 0;
    while k < depth
        invariant
            0 <= k,
            depth > 0 ==> k <= depth,
            depth <= 0 ==> k == 0,
            out@ == start + Seq::new((4 * k) as nat, |i: int| ' '),
        decreases depth - k,
    {
        out.push(' ');
        out.push(' ');
        out.push(' ');
        out.push(' ');
        k = k + 1;
        assert(out@ =~= start + Seq::new((4 * k) as nat, |i: int| ' '));
    }
    assert(out@ =~= old(out)@ + line(depth as int));
}

/// `pretty` on characters.
pub fn add_formatting(data: &Vec<char>) -> (r: Vec<char>)
    ensures
        r@ == pretty(data@),
{
    let mut out: Vec<char> = Vec::new();
    if data.len() == 0 {
        assert(out@ =~= pretty(data@));
        return out;
    }
    out.push(data[0]);
    push_line(&mut out, 1);
    let mut in_str = false;
    let mut depth: i128 = 1;
    let mut i: usize = 1;
    assert(data@.subrange(1, data@.len() as int) =~= data@.drop_first());
    assert(out@ + pretty_from(data@.drop_first(), false, data@[0], 1) =~= pretty(data@));
    while i < data.len()
        invariant
            1 <= i <= data@.len(),
            -(i as int) <= depth <= i as int,
            out@ + pretty_from(data@.subrange(i as int, data@.len() as int), in_str, data@[i - 1], depth as int)
                == pretty(data@),
        decreases data@.len() - i,
    {
        let ghost tail = data@.subrange(i as int, data@.len() as int);
        let ghost before = out@;
        let ghost in0 = in_str;
        let ghost d0 = depth as int;
        assert(tail.drop_first() =~= data@.subrange(i + 1, data@.len() as int));
        let c = data[i];
        let prev = data[i - 1];
        if c == '"' && prev != '\\' {
            in_str = !in_str;
        }
        let ghost rest = pretty_from(data@.subrange(i + 1, data@.len() as int), in_str, c, d0);
        if in_str {
            out.push(c);
            assert(out@ + rest =~= before + (seq![c] + rest));
        } else if c == '{' || c == '[' {
            if prev != '[' && prev != '{' && prev != ',' {
                push_line(&mut out, depth);
            }
            let ghost mid = out@;
            out.push(c);
            depth = depth + 1;
            push_line(&mut out, depth);
            let ghost rest2 = pretty_from(data@.subrange(i + 1, data@.len() as int), in_str, c, d0 + 1);
            assert(out@ + rest2 =~= mid + (seq![c] + (line(d0 + 1) + rest2)));
            assert(out@ + rest2 =~= before + ((mid.subrange(before.len() as int, mid.len() as int)) + (seq![c] + (line(d0 + 1) + rest2))));
            assert(mid.subrange(before.len() as int, mid.len() as int) =~= (if prev != '[' && prev != '{' && prev != ',' { line(d0) } else { Seq::empty() }));
        } else if c == ':' {
            out.push(c);
            out.push(' ');
            assert(out@ + rest =~= before + (seq![c] + (seq![' '] + rest)));
        } else if c == ',' {
            out.push(c);
            push_line(&mut out, depth);
            assert(out@ + rest =~= before + (seq![c] + (line(d0) + rest)));
        } else if c == '}' || c == ']' {
            depth = depth - 1;
            push_line(&mut out, depth);
            out.push(c);
            let ghost rest2 = pretty_from(data@.subrange(i + 1, data@.len() as int), in_str, c, d0 - 1);
            assert(out@ + rest2 =~= before + (line(d0 - 1) + (seq![c] + rest2)));
        } else {
            out.push(c);
            assert(out@ + rest =~= before + (seq![c] + rest));
        }
        i = i + 1;
    }
    assert(data@.subrange(i as int, data@.len() as int) =~= Seq::<char>::empty());
    assert(out@ =~= pretty(data@));
    out
}

impl JsonValue {
    /// The compact text, indented: four spaces for each level, a line break
    /// around each bracket and after each comma, and a space after each colon.
    pub fn to_formatted_string(&self) -> (r: String)
        ensures
            r@ == pretty(ser(self@)),
    {
        let c = serialize_chars(self);
        let p = add_formatting(&c);
        string_of(&p)
    }
}

/// `pretty` on a text.
pub fn format_text(data: &str) -> (r: String)
    ensures
        r@ == pretty(data@),
{
    let d = chars_of(data);
    let p = add_formatting(&d);
    string_of(&p)
}

} // verus!
