//! A plainer layout: every key that holds a container becomes a heading one
//! level deeper than its parent's, and every scalar becomes a bullet.
use crate::json::JsonValue;
use crate::render::{entries_nesting, items_nesting, lemma_entries_nesting, lemma_items_nesting, nesting};
use crate::text::{
    collapse_hash_runs, collapsed, no_long_hash_run, push_char, title_case, title_case_of,
};
use vstd::prelude::*;
use vstd::string::*;

verus! {

/// `n` copies of `#`.
pub open spec fn hashes(n: nat) -> Seq<char> {
    Seq::new(n, |_i: int| '#')
}

/// The heading line for `key` at `depth`: a bullet below the top level,
/// then `depth + 1` hashes on both sides of the title-cased key.
pub open spec fn header_chain(depth: nat, key: Seq<char>) -> Seq<char> {
    let lead = if depth > 0 { seq!['*', ' '] } else { Seq::empty() };
    lead + hashes(depth + 1) + seq![' '] + title_case_of(key) + seq![' '] + hashes(depth + 1) + seq!['\n']
}

/// The lowercase hexadecimal digit of `n`, for `0 <= n < 16`.
pub open spec fn hex_digit(n: int) -> char {
    seq!['0', '1', '2', '3', '4', '5', '6', '7', '8', '9', 'a', 'b', 'c', 'd', 'e', 'f'][n]
}

/// How a JSON string writes `c`: a quote and a backslash behind a
/// backslash, the five control characters with a short escape by it, other
/// control characters as `\u00` and two hex digits, anything else as it is.
pub open spec fn escape_char(c: char) -> Seq<char> {
    if c == '"' {
        seq!['\\', '"']
    } else if c == '\\' {
        seq!['\\', '\\']
    } else if c == '\u{8}' {
        seq!['\\', 'b']
    } else if c == '\t' {
        seq!['\\', 't']
    } else if c == '\n' {
        seq!['\\', 'n']
    } else if c == '\u{c}' {
        seq!['\\', 'f']
    } else if c == '\r' {
        seq!['\\', 'r']
    } else if (c as u32) < 0x20 {
        seq!['\\', 'u', '0', '0', hex_digit(((c as u32) / 16) as int), hex_digit(((c as u32) % 16) as int)]
    } else {
        seq![c]
    }
}

/// The characters of `s`, each escaped as a JSON string writes it.
pub open spec fn escaped(s: Seq<char>) -> Seq<char>
    decreases s.len(),
{
    if s.len() == 0 {
        Seq::empty()
    } else {
        escaped(s.subrange(0, s.len() - 1)) + escape_char(s[s.len() - 1])
    }
}

/// `s` as a JSON string literal.
pub open spec fn json_quoted(s: Seq<char>) -> Seq<char> {
    seq!['"'] + escaped(s) + seq!['"']
}

/// The JSON text of a scalar.
pub open spec fn scalar_json(v: JsonValue) -> Seq<char> {
    match v {
        JsonValue::Null => seq!['n', 'u', 'l', 'l'],
        JsonValue::Bool(b) => if b {
            seq!['t', 'r', 'u', 'e']
        } else {
            seq!['f', 'a', 'l', 's', 'e']
        },
        JsonValue::Number(n) => n@,
        JsonValue::Str(s) => json_quoted(s@),
        _ => Seq::empty(),
    }
}

/// Two spaces per level beyond the first.
pub open spec fn tabs(depth: nat) -> Seq<char> {
    Seq::new(if depth > 0 { (2 * (depth - 1)) as nat } else { 0 }, |_i: int| ' ')
}

/// The bullet line of a scalar at `depth`.
pub open spec fn value_chain(v: JsonValue, depth: nat) -> Seq<char> {
    tabs(depth) + seq!['*', ' ', ':', ' '] + scalar_json(v) + seq!['\n']
}

pub open spec fn is_container(v: JsonValue) -> bool {
    v is Object || v is Array
}

/// The outline of `v` at `depth`.
pub open spec fn outline_text(v: JsonValue, depth: nat) -> Seq<char>
    decreases v,
{
    match v {
        JsonValue::Object(es) => outline_entries(es@, depth),
        JsonValue::Array(items) => outline_items(items@, depth),
        _ => Seq::empty(),
    }
}

/// The outline of the entries `es` at `depth`.
pub open spec fn outline_entries(es: Seq<(String, JsonValue)>, depth: nat) -> Seq<char>
    decreases es,
{
    if es.len() == 0 {
        Seq::empty()
    } else {
        let v = es[es.len() - 1].1;
        outline_entries(es.subrange(0, es.len() - 1), depth) + if is_container(v) {
            header_chain(depth, es[es.len() - 1].0@) + outline_text(v, depth + 1)
        } else {
            value_chain(v, depth)
        }
    }
}

/// The outline of the items of a list at `depth`: scalars become bullets,
/// and the members of an object or array stand at the list's own depth.
pub open spec fn outline_items(items: Seq<JsonValue>, depth: nat) -> Seq<char>
    decreases items,
{
    if items.len() == 0 {
        Seq::empty()
    } else {
        let v = items[items.len() - 1];
        outline_items(items.subrange(0, items.len() - 1), depth) + match v {
            JsonValue::Object(es) => outline_entries(es@, depth),
            JsonValue::Array(inner) => outline_items(inner@, depth),
            _ => value_chain(v, depth),
        }
    }
}

/// Relies on serde_json's `Display` for `Value::String`, which writes `s`
/// in quotes with each character escaped by `format_escaped_str_contents`.
#[verifier::external_body]
fn json_string_literal(s: &str) -> (r: String)
    ensures
        r@ == json_quoted(s@),
{
    serde_json::Value::String(s.to_string()).to_string()
}

fn push_repeat(out: &mut String, c: char, n: usize)
    ensures
        final(out)@ == old(out)@ + Seq::new(n as nat, |_i: int| c),
{
    let mut i: usize = 0;
    while i < n
        invariant
            i <= n,
            out@ == old(out)@ + Seq::new(i as nat, |_i: int| c),
        decreases n - i,
    {
        push_char(out, c);
        i = i + 1;
        assert(out@ =~= old(out)@ + Seq::new(i as nat, |_i: int| c));
    }
}

/// The heading line for `value` at `depth`.
pub fn build_header_chain(depth: usize, value: &str) -> (r: String)
    requires
        depth < usize::MAX,
    ensures
        r@ == header_chain(depth as nat, value@),
{
    let mut r = String::new();
    if depth > 0 {
        push_char(&mut r, '*');
        push_char(&mut r, ' ');
    }
    push_repeat(&mut r, '#', depth + 1);
    push_char(&mut r, ' ');
    let title = title_case(value);
    r.append(title.as_str());
    push_char(&mut r, ' ');
    push_repeat(&mut r, '#', depth + 1);
    push_char(&mut r, '\n');
    assert(r@ =~= header_chain(depth as nat, value@));
    r
}

/// The bullet line of the scalar `value` at `depth`.
pub fn build_value_chain(value: &JsonValue, depth: usize) -> (r: String)
    ensures
        r@ == value_chain(*value, depth as nat),
{
    let mut r = String::new();
    if depth > 0 {
        push_repeat(&mut r, ' ', depth - 1);
        push_repeat(&mut r, ' ', depth - 1);
    }
    let ghost lead = r@;
    assert(lead =~= tabs(depth as nat));
    push_char(&mut r, '*');
    push_char(&mut r, ' ');
    push_char(&mut r, ':');
    push_char(&mut r, ' ');
    let ghost mid = r@;
    match value {
        JsonValue::Null => {
            push_char(&mut r, 'n');
            push_char(&mut r, 'u');
            push_char(&mut r, 'l');
            push_char(&mut r, 'l');
        },
        JsonValue::Bool(b) => {
            if *b {
                push_char(&mut r, 't');
                push_char(&mut r, 'r');
                push_char(&mut r, 'u');
                push_char(&mut r, 'e');
            } else {
                push_char(&mut r, 'f');
                push_char(&mut r, 'a');
                push_char(&mut r, 'l');
                push_char(&mut r, 's');
                push_char(&mut r, 'e');
            }
        },
        JsonValue::Number(n) => r.append(n.as_str()),
        JsonValue::Str(s) => {
            let quoted = json_string_literal(s.as_str());
            r.append(quoted.as_str());
        },
        _ => {},
    }
    assert(r@ =~= mid + scalar_json(*value));
    push_char(&mut r, '\n');
    assert(r@ =~= value_chain(*value, depth as nat));
    r
}

/// Appends the heading line for `value` at `depth`.
pub fn add_header(value: &str, depth: usize, markdown: &mut String)
    requires
        depth < usize::MAX,
    ensures
        final(markdown)@ == old(markdown)@ + header_chain(depth as nat, value@),
{
    let chain = build_header_chain(depth, value);
    markdown.append(chain.as_str());
}

/// Appends the bullet line of the scalar `value` at `depth`.
pub fn add_value(value: &JsonValue, depth: usize, markdown: &mut String)
    ensures
        final(markdown)@ == old(markdown)@ + value_chain(*value, depth as nat),
{
    let chain = build_value_chain(value, depth);
    markdown.append(chain.as_str());
}


/// Appends the outline of `json_block` at `depth`: the entries of an object,
/// the items of an array, nothing for a scalar.
pub fn parse_json(json_block: &JsonValue, depth: usize, markdown: &mut String)
    requires
        depth + nesting(*json_block) <= usize::MAX,
    ensures
        final(markdown)@ == old(markdown)@ + outline_text(*json_block, depth as nat),
    decreases *json_block,
{
    match json_block {
        JsonValue::Object(d) => parse_dict(d, depth, markdown),
        JsonValue::Array(l) => parse_list(l, depth, markdown),
        _ => {
            assert(markdown@ =~= old(markdown)@ + outline_text(*json_block, depth as nat));
        },
    }
}

fn parse_dict(d: &Vec<(String, JsonValue)>, depth: usize, markdown: &mut String)
    requires
        depth + entries_nesting(d@) + 1 <= usize::MAX,
    ensures
        final(markdown)@ == old(markdown)@ + outline_entries(d@, depth as nat),
    decreases d@,
{
    let mut i: usize = 0;
    while i < d.len()
        invariant
            i <= d@.len(),
            depth + entries_nesting(d@) + 1 <= usize::MAX,
            markdown@ == old(markdown)@ + outline_entries(d@.subrange(0, i as int), depth as nat),
        decreases d@.len() - i,
    {
        proof {
            lemma_entries_nesting(d@, i as int);
            assert(d@.subrange(0, i + 1).subrange(0, i as int) =~= d@.subrange(0, i as int));
        }
        let (k, v) = (&d[i].0, &d[i].1);
        match v {
            JsonValue::Object(_) | JsonValue::Array(_) => {
                add_header(k.as_str(), depth, markdown);
                parse_json(v, depth + 1, markdown);
            },
            _ => add_value(v, depth, markdown),
        }
        i = i + 1;
    }
    assert(d@.subrange(0, i as int) =~= d@);
}

fn parse_list(l: &Vec<JsonValue>, depth: usize, markdown: &mut String)
    requires
        depth + items_nesting(l@) + 1 <= usize::MAX,
    ensures
        final(markdown)@ == old(markdown)@ + outline_items(l@, depth as nat),
    decreases l@,
{
    let mut i: usize = 0;
    while i < l.len()
        invariant
            i <= l@.len(),
            depth + items_nesting(l@) + 1 <= usize::MAX,
            markdown@ == old(markdown)@ + outline_items(l@.subrange(0, i as int), depth as nat),
        decreases l@.len() - i,
    {
        proof {
            lemma_items_nesting(l@, i as int);
            assert(l@.subrange(0, i + 1).subrange(0, i as int) =~= l@.subrange(0, i as int));
        }
        match &l[i] {
            JsonValue::Object(d) => parse_dict(d, depth, markdown),
            JsonValue::Array(inner) => parse_list(inner, depth, markdown),
            v => add_value(v, depth, markdown),
        }
        i = i + 1;
    }
    assert(l@.subrange(0, i as int) =~= l@);
}

/// The outline document of `json`, with every run of more than six `#`
/// cut to six.
pub fn outline_document(json: &JsonValue) -> (r: String)
    requires
        nesting(*json) <= usize::MAX,
    ensures
        r@ == collapsed(outline_text(*json, 0)),
        no_long_hash_run(r@),
{
    let mut markdown = String::new();
    parse_json(json, 0, &mut markdown);
    assert(markdown@ =~= outline_text(*json, 0));
    collapse_hash_runs(markdown.as_str())
}


/// No character of `s` is a newline.
pub open spec fn no_newline(s: Seq<char>) -> bool {
    forall|k: int| 0 <= k < s.len() ==> s[k] != '\n'
}

proof fn lemma_escape_char_no_newline(c: char)
    ensures
        no_newline(escape_char(c)),
{
    if (c as u32) < 0x20 && c != '\u{8}' && c != '\t' && c != '\n' && c != '\u{c}' && c != '\r' {
        let hi = ((c as u32) / 16) as int;
        let lo = ((c as u32) % 16) as int;
        assert(0 <= hi < 16 && 0 <= lo < 16);
        assert(hex_digit(hi) != '\n');
        assert(hex_digit(lo) != '\n');
    }
}

proof fn lemma_escaped_no_newline(s: Seq<char>)
    ensures
        no_newline(escaped(s)),
    decreases s.len(),
{
    if s.len() > 0 {
        lemma_escaped_no_newline(s.subrange(0, s.len() - 1));
        lemma_escape_char_no_newline(s[s.len() - 1]);
    }
}

/// A scalar's bullet line is one line: it ends in the only newline it
/// holds, where a number's text holds none.
pub proof fn lemma_value_chain_one_line(v: JsonValue, depth: nat)
    requires
        v matches JsonValue::Number(n) ==> no_newline(n@),
    ensures
        value_chain(v, depth).last() == '\n',
        no_newline(value_chain(v, depth).subrange(0, value_chain(v, depth).len() - 1)),
{
    let line = value_chain(v, depth);
    let body = tabs(depth) + seq!['*', ' ', ':', ' '] + scalar_json(v);
    assert(line == body + seq!['\n']);
    assert(line.subrange(0, line.len() - 1) =~= body);
    if let JsonValue::Str(s) = v {
        lemma_escaped_no_newline(s@);
        assert(no_newline(json_quoted(s@)));
    }
    assert(no_newline(scalar_json(v)));
    assert(no_newline(body));
}

} // verus!
