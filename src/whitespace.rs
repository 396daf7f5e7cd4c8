//! Removal of insignificant whitespace.
use vstd::prelude::*;
use crate::chars::chars_of;
use crate::chars::string_of;

verus! {

/// Space, tab, carriage return and newline.
pub open spec fn is_ws(c: char) -> bool {
    c == ' ' || c == '\n' || c == '\r' || c == '\t'
}

/// Whether `c`, coming after `prev`, opens or closes a string literal: a quote
/// not directly after a backslash.
pub open spec fn toggles(c: char, prev: Option<char>) -> bool {
    c == '"' && prev != Some('\\')
}

/// The normalized rest of a text, given whether the scan is inside a string
/// literal and the character just before.
pub open spec fn strip_from(s: Seq<char>, in_str: bool, prev: Option<char>) -> Seq<char>
    decreases s.len(),
{
    if s.len() == 0 {
        Seq::empty()
    } else {
        let c = s[0];
        let in2 = in_str != toggles(c, prev);
        let rest = strip_from(s.drop_first(), in2, Some(c));
        if in2 || !is_ws(c) {
            seq![c] + rest
        } else {
            rest
        }
    }
}

/// The text with every whitespace character outside string literals removed.
pub open spec fn normalize(s: Seq<char>) -> Seq<char> {
    strip_from(s, false, None)
}

/// No backslash in `s` is directly followed by whitespace.
pub open spec fn no_backslash_before_ws(s: Seq<char>) -> bool {
    forall|i: int| 0 < i < s.len() && s[i - 1] == '\\' ==> !is_ws(#[trigger] s[i])
}

pub proof fn lemma_strip_cons(c: char, y: Seq<char>, in_str: bool, prev: Option<char>)
    ensures
        strip_from(seq![c] + y, in_str, prev) == (if (in_str != toggles(c, prev)) || !is_ws(c) {
            seq![c] + strip_from(y, in_str != toggles(c, prev), Some(c))
        } else {
            strip_from(y, in_str != toggles(c, prev), Some(c))
        }),
{
    let s = seq![c] + y;
    assert(s[0] == c);
    assert(s.drop_first() =~= y);
}

pub proof fn lemma_strip_len(s: Seq<char>, in_str: bool, prev: Option<char>)
    ensures
        strip_from(s, in_str, prev).len() <= s.len(),
    decreases s.len(),
{
    if s.len() > 0 {
        lemma_strip_len(s.drop_first(), in_str != toggles(s[0], prev), Some(s[0]));
    }
}

proof fn lemma_strip_twice(s: Seq<char>, in_str: bool, p: Option<char>, q: Option<char>)
    requires
        (p == Some('\\')) == (q == Some('\\')),
        no_backslash_before_ws(s),
        p == Some('\\') && s.len() > 0 ==> !is_ws(s[0]),
    ensures
        strip_from(strip_from(s, in_str, p), in_str, q) == strip_from(s, in_str, p),
    decreases s.len(),
{
    if s.len() > 0 {
        let c = s[0];
        let s1 = s.drop_first();
        let in2 = in_str != toggles(c, p);
        assert(toggles(c, p) == toggles(c, q));
        assert forall|i: int| 0 < i < s1.len() && s1[i - 1] == '\\' implies !is_ws(#[trigger] s1[i]) by {
            assert(s[i] == s1[i - 1]);
            assert(s[i + 1] == s1[i]);
        }
        if s1.len() > 0 && c == '\\' {
            assert(s[1] == s1[0]);
        }
        let rest = strip_from(s1, in2, Some(c));
        if in2 || !is_ws(c) {
            lemma_strip_twice(s1, in2, Some(c), Some(c));
            lemma_strip_cons(c, rest, in_str, q);
        } else {
            lemma_strip_twice(s1, in2, Some(c), q);
        }
    }
}

/// Normalizing a second time changes nothing, where no backslash of the text
/// is directly followed by whitespace.
pub proof fn lemma_normalize_idempotent(s: Seq<char>)
    requires
        no_backslash_before_ws(s),
    ensures
        normalize(normalize(s)) == normalize(s),
{
    lemma_strip_twice(s, false, None, None);
}

/// `normalize` on characters.
pub fn normalize_chars(data: &Vec<char>) -> (r: Vec<char>)
    ensures
        r@ == normalize(data@),
{
    let mut out: Vec<char> = Vec::new();
    let mut in_str = false;
    let mut i: usize = 0;
    assert(data@.subrange(0, data@.len() as int) =~= data@);
    assert(out@ + normalize(data@) =~= normalize(data@));
    while i < data.len()
        invariant
            i <= data@.len(),
            out@ + strip_from(
                data@.subrange(i as int, data@.len() as int),
                in_str,
                if i == 0 { None } else { Some(data@[i - 1]) },
            ) == normalize(data@),
        decreases data@.len() - i,
    {
        let ghost tail = data@.subrange(i as int, data@.len() as int);
        assert(tail.drop_first() =~= data@.subrange(i + 1, data@.len() as int));
        let c = data[i];
        if c == '"' && (i == 0 || data[i - 1] != '\\') {
            in_str = !in_str;
        }
        if in_str || !(c == ' ' || c == '\n' || c == '\r' || c == '\t') {
            let ghost before = out@;
            out.push(c);
            assert(out@ + strip_from(data@.subrange(i + 1, data@.len() as int), in_str, Some(c))
                =~= before + (seq![c] + strip_from(data@.subrange(i + 1, data@.len() as int), in_str, Some(c))));
        }
        i = i + 1;
    }
    assert(data@.subrange(i as int, data@.len() as int) =~= Seq::<char>::empty());
    assert(out@ =~= normalize(data@));
    out
}

/// The text with every space, tab, carriage return and newline outside string
/// literals removed. A quote starts or ends a literal unless a backslash comes
/// directly before it.
pub fn remove_formatting(data: &str) -> (r: String)
    ensures
        r@ == normalize(data@),
{
    let d = chars_of(data);
    let n = normalize_chars(&d);
    string_of(&n)
}

} // verus!
