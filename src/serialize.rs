//! The compact writer.
use vstd::prelude::*;
use crate::chars::chars_of;
use crate::chars::string_of;
use crate::model::escape;
use crate::model::ser;
use crate::model::ser_entries;
use crate::model::ser_items;
use crate::value::JsonValue;
use crate::value::Kind;
use crate::value::lemma_model;
use crate::value::views;
use crate::value::entry_views;

verus! {

fn push_str(out: &mut Vec<char>, s: &Vec<char>)
    ensures
        final(out)@ == old(out)@ + s@,
{
    let mut i: usize = 0;
    while i < s.len()
        invariant
            i <= s@.len(),
            out@ == old(out)@ + s@.take(i as int),
        decreases s@.len() - i,
    {
        out.push(s[i]);
        i = i + 1;
        assert(out@ =~= old(out)@ + s@.take(i as int));
    }
    assert(s@.take(i as int) =~= s@);
}

fn push_escaped(out: &mut Vec<char>, s: &Vec<char>)
    ensures
        final(out)@ == old(out)@ + escape(s@),
{
    let mut i: usize = 0;
    while i < s.len()
        invariant
            i <= s@.len(),
            out@ == old(out)@ + escape(s@.take(i as int)),
        decreases s@.len() - i,
    {
        let c = s[i];
        if c == '\n' {
            out.push('\\');
            out.push('n');
        } else if c == '\t' {
            out.push('\\');
            out.push('t');
        } else if c == '\\' {
            out.push('\\');
            out.push('\\');
        } else {
            out.push(c);
        }
        assert(s@.take(i + 1).drop_last() =~= s@.take(i as int));
        i = i + 1;
        assert(out@ =~= old(out)@ + escape(s@.take(i as int)));
    }
    assert(s@.take(i as int) =~= s@);
}

fn write_value(v: &JsonValue, out: &mut Vec<char>)
    ensures
        final(out)@ == old(out)@ + ser(v@),
    decreases v,
{
    proof {
        lemma_model(v);
    }
    match v.kind {
        Kind::Array => {
            out.push('[');
            let ghost s = views(v.items@);
            let ghost start = out@;
            let mut i: usize = 0;
            while i < v.items.len()
                invariant
                    i <= v.items@.len(),
                    s == views(v.items@),
                    out@ == start + ser_items(s.take(i as int)),
                decreases v.items@.len() - i,
            {
                if i > 0 {
                    out.push(',');
                }
                assert(decreases_to!(v => v.items@[i as int]));
                write_value(&v.items[i], out);
                assert(s.take(i + 1).drop_last() =~= s.take(i as int));
                i = i + 1;
                assert(out@ =~= start + ser_items(s.take(i as int)));
            }
            assert(s.take(i as int) =~= s);
            out.push(']');
            assert(out@ =~= old(out)@ + ser(v@));
        },
        Kind::Object => {
            out.push('{');
            let ghost es = entry_views(v.fields@);
            let ghost start = out@;
            let start_len = out.len();
            let mut i: usize = 0;
            while i < v.fields.len()
                invariant
                    i <= v.fields@.len(),
                    es == entry_views(v.fields@),
                    start.len() == start_len,
                    out@ == start + ser_entries(es.take(i as int)),
                decreases v.fields@.len() - i,
            {
                let e = &v.fields[i];
                assert(es.take(i + 1).drop_last() =~= es.take(i as int));
                match e.1.kind {
                    Kind::Null | Kind::Undefined => {
                        proof {
                            lemma_model(&e.1);
                        }
                    },
                    _ => {
                        if out.len() > start_len {
                            out.push(',');
                        }
                        out.push('"');
                        let k = chars_of(e.0.as_str());
                        push_str(out, &k);
                        out.push('"');
                        out.push(':');
                        assert(decreases_to!(v => v.fields@[i as int].1));
                        write_value(&e.1, out);
                        proof {
                            lemma_model(&e.1);
                        }
                    },
                }
                i = i + 1;
                assert(out@ =~= start + ser_entries(es.take(i as int)));
            }
            assert(es.take(i as int) =~= es);
            out.push('}');
            assert(out@ =~= old(out)@ + ser(v@));
        },
        Kind::Null | Kind::Undefined => {
            out.push('n');
            out.push('u');
            out.push('l');
            out.push('l');
            assert(out@ =~= old(out)@ + ser(v@));
        },
        Kind::Str => {
            out.push('"');
            let t = chars_of(v.text.as_str());
            push_escaped(out, &t);
            out.push('"');
            assert(out@ =~= old(out)@ + ser(v@));
        },
        _ => {
            let t = chars_of(v.text.as_str());
            push_str(out, &t);
        },
    }
}

/// The compact text of `v`, as characters.
pub fn serialize_chars(v: &JsonValue) -> (r: Vec<char>)
    ensures
        r@ == ser(v@),
{
    let mut out: Vec<char> = Vec::new();
    write_value(v, &mut out);
    assert(out@ =~= ser(v@));
    out
}

impl JsonValue {
    /// The compact text: no whitespace outside strings, and no object entry
    /// whose value is Null or Undefined.
    pub fn to_string(&self) -> (r: String)
        ensures
            r@ == ser(self@),
    {
        let c = serialize_chars(self);
        string_of(&c)
    }
}

} // verus!
