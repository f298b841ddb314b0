use crate::json::JsonValue;
use crate::text::{
    collapse_hash_runs, collapsed, hash_block, lemma_collapse_keeps_head, no_long_hash_run, push_char, push_spaces, reflowed, spaces,
    split_at_period, title_case, title_case_of,
};
use vstd::prelude::*;
use vstd::string::*;

verus! {

/// The structural role of the context a key or value is rendered in.
#[derive(Clone, Copy, Debug, PartialEq, Eq, Structural)]
pub enum RenderStyle {
    /// The document itself.
    Root,
    /// A top-level key: a second-level heading.
    Section,
    /// A key right below a section: a third-level heading.
    Subsection,
    /// A deeper key: a bold bullet.
    ListItem,
    /// A member of a list, or a value after its key.
    NestedItem,
}

/// Renders JSON values as Markdown.
#[derive(Clone, Copy, Debug)]
pub struct MarkdownRenderer {
    /// Number of spaces in one unit of indentation.
    indent_spaces: usize,
    /// Units of indentation added per nesting level below the headings.
    depth_increment: usize,
}

/// Two newlines: the end of a line and a blank line.
pub open spec fn blank() -> Seq<char> {
    seq!['\n', '\n']
}

/// `s` begins with `http`.
pub open spec fn is_link(s: Seq<char>) -> bool {
    s.len() >= 4 && s[0] == 'h' && s[1] == 't' && s[2] == 't' && s[3] == 'p'
}

pub open spec fn is_heading(style: RenderStyle) -> bool {
    style == RenderStyle::Section || style == RenderStyle::Subsection
}

/// A scalar's text: after `": "` where its key was just written, and ended by
/// one newline in a list, by a blank line elsewhere.
pub open spec fn scalar_text(t: Seq<char>, style: RenderStyle, labeled: bool) -> Seq<char> {
    let lead = if labeled { seq![':', ' '] } else { Seq::empty() };
    let end = if style == RenderStyle::ListItem || style == RenderStyle::NestedItem {
        seq!['\n']
    } else {
        blank()
    };
    lead + t + end
}

/// The text of a value that holds no members to render: a scalar, or an
/// empty object or array, which renders as nothing.
pub open spec fn leaf_text(v: JsonValue, style: RenderStyle, labeled: bool) -> Seq<char> {
    match v {
        JsonValue::Null => scalar_text(seq!['N', '/', 'A'], style, labeled),
        JsonValue::Bool(b) => scalar_text(
            if b {
                seq!['t', 'r', 'u', 'e']
            } else {
                seq!['f', 'a', 'l', 's', 'e']
            },
            style,
            labeled,
        ),
        JsonValue::Number(n) => scalar_text(n@, style, labeled),
        JsonValue::Str(s) => scalar_text(s@, style, labeled),
        JsonValue::Array(_) => Seq::empty(),
        JsonValue::Object(_) => Seq::empty(),
    }
}

/// `v` is an object or array with at least one member.
pub open spec fn has_members(v: JsonValue) -> bool {
    match v {
        JsonValue::Array(items) => items@.len() > 0,
        JsonValue::Object(entries) => entries@.len() > 0,
        _ => false,
    }
}

/// How many levels of containers `v` holds, itself included.
pub open spec fn nesting(v: JsonValue) -> nat
    decreases v,
{
    match v {
        JsonValue::Array(items) => 1 + items_nesting(items@),
        JsonValue::Object(entries) => 1 + entries_nesting(entries@),
        _ => 0,
    }
}

/// The greatest nesting among the values of `es`.
pub open spec fn entries_nesting(es: Seq<(String, JsonValue)>) -> nat
    decreases es,
{
    if es.len() == 0 {
        0
    } else {
        let rest = entries_nesting(es.subrange(0, es.len() - 1));
        let last = nesting(es[es.len() - 1].1);
        if rest >= last {
            rest
        } else {
            last
        }
    }
}

/// The greatest nesting among `items`.
pub open spec fn items_nesting(items: Seq<JsonValue>) -> nat
    decreases items,
{
    if items.len() == 0 {
        0
    } else {
        let rest = items_nesting(items.subrange(0, items.len() - 1));
        let last = nesting(items[items.len() - 1]);
        if rest >= last {
            rest
        } else {
            last
        }
    }
}

impl MarkdownRenderer {
    /// Width of one unit of indentation.
    pub closed spec fn indent_unit(self) -> nat {
        self.indent_spaces as nat
    }

    /// Units of indentation per nesting level below the headings.
    pub closed spec fn step(self) -> nat {
        self.depth_increment as nat
    }

    /// The indentation at `depth`.
    pub open spec fn indent(self, depth: int) -> Seq<char> {
        spaces((depth * self.indent_unit()) as nat)
    }

    /// Indentation at depth `d`, and `d` itself, fit in a `usize`.
    pub open spec fn has_room(self, d: int) -> bool {
        d <= usize::MAX && d * self.indent_unit() <= usize::MAX
    }

    /// A bound on how much deeper than its parent a nested container is
    /// indented: one level below a heading, `step` levels elsewhere.
    pub open spec fn stride(self) -> nat {
        self.step() + 1
    }

    /// The indentation that rendering `v` can reach fits in a `usize`; a
    /// value with no members writes no indentation at all.
    pub open spec fn fits(self, v: JsonValue) -> bool {
        has_members(v) ==> self.has_room((nesting(v) * self.stride() + 2) as int)
    }

    /// The style, heading marker and depth step of the entries of an object
    /// met at `depth` in `style`: the first two levels become headings, each
    /// one level deeper than the last, and everything deeper becomes bullets,
    /// `step` levels apart.
    pub open spec fn transition(self, depth: int, style: RenderStyle) -> (
        RenderStyle,
        Seq<char>,
        int,
    ) {
        if depth == 0 && style == RenderStyle::Root {
            (RenderStyle::Section, seq!['#', '#', ' '], 1)
        } else if depth == 1 && style == RenderStyle::Section {
            (RenderStyle::Subsection, seq!['#', '#', '#', ' '], 1)
        } else {
            (RenderStyle::ListItem, Seq::empty(), self.step() as int)
        }
    }

    /// The label written for `key` in an object met at `depth` in `style`.
    pub open spec fn key_label(self, key: Seq<char>, depth: int, style: RenderStyle) -> Seq<char> {
        let (next, marker, _inc) = self.transition(depth, style);
        if is_heading(next) {
            self.indent(depth) + marker + title_case_of(key) + blank()
        } else if next == RenderStyle::ListItem {
            self.indent(depth) + seq!['-', ' ', '*', '*'] + title_case_of(key) + seq!['*', '*']
        } else {
            title_case_of(key)
        }
    }

    /// A string value written below its key: a link as it is, other text
    /// split into paragraphs at its sentence breaks where it has any.
    pub open spec fn string_block(self, s: Seq<char>, depth: int, next: RenderStyle) -> Seq<char> {
        if is_link(s) {
            self.indent(depth) + s
        } else if is_heading(next) {
            match reflowed(s, Seq::empty()) {
                Some(t) => t,
                None => s,
            }
        } else {
            match reflowed(s, self.indent(depth + 2)) {
                Some(t) => t,
                None => self.indent(depth) + s,
            }
        }
    }

    /// The text of one entry of an object met at `depth` in `style`.
    pub open spec fn entry_text(self, key: Seq<char>, v: JsonValue, depth: int, style: RenderStyle) -> Seq<char>
        decreases v,
    {
        let (next, _marker, inc) = self.transition(depth, style);
        self.key_label(key, depth, style) + match v {
            JsonValue::Object(inner) => if inner@.len() > 0 {
                blank() + self.entries_text(inner@, depth + inc, next)
            } else {
                leaf_text(v, RenderStyle::NestedItem, true)
            },
            JsonValue::Array(items) => if items@.len() > 0 {
                blank() + self.items_text(items@, depth + inc, RenderStyle::NestedItem) + blank()
            } else {
                leaf_text(v, RenderStyle::NestedItem, true)
            },
            JsonValue::Str(s) => blank() + self.string_block(s@, depth, next) + seq!['\n'],
            _ => leaf_text(v, RenderStyle::NestedItem, true),
        }
    }

    /// The text of the entries `es` of an object met at `depth` in `style`.
    pub open spec fn entries_text(self, es: Seq<(String, JsonValue)>, depth: int, style: RenderStyle) -> Seq<char>
        decreases es,
    {
        if es.len() == 0 {
            Seq::empty()
        } else {
            self.entries_text(es.subrange(0, es.len() - 1), depth, style) + self.entry_text(
                es[es.len() - 1].0@,
                es[es.len() - 1].1,
                depth,
                style,
            )
        }
    }

    /// The list marker of the items of an array rendered in `style`.
    pub open spec fn marker(style: RenderStyle) -> Seq<char> {
        if style == RenderStyle::NestedItem {
            seq![' ', ' ', '-', ' ']
        } else {
            seq!['-', ' ']
        }
    }

    /// The text of one item of an array met at `depth` in `style`.
    pub open spec fn item_text(self, v: JsonValue, depth: int, style: RenderStyle) -> Seq<char>
        decreases v,
    {
        let bullet = self.indent(depth) + Self::marker(style);
        match v {
            JsonValue::Object(inner) => if inner@.len() > 0 {
                self.entries_text(inner@, depth + self.step(), RenderStyle::NestedItem)
            } else {
                bullet
            },
            JsonValue::Array(items) => if items@.len() > 0 {
                self.items_text(items@, depth + self.step(), RenderStyle::NestedItem)
            } else {
                bullet
            },
            JsonValue::Str(s) => bullet + s@ + seq!['\n'],
            _ => bullet + leaf_text(v, RenderStyle::NestedItem, false),
        }
    }

    /// The text of the items of an array met at `depth` in `style`.
    pub open spec fn items_text(self, items: Seq<JsonValue>, depth: int, style: RenderStyle) -> Seq<char>
        decreases items,
    {
        if items.len() == 0 {
            Seq::empty()
        } else {
            self.items_text(items.subrange(0, items.len() - 1), depth, style) + self.item_text(
                items[items.len() - 1],
                depth,
                style,
            )
        }
    }

    /// The text of `v` met at `depth` in `style`; `labeled` where its key was
    /// written right before it.
    pub open spec fn value_text(self, v: JsonValue, depth: int, style: RenderStyle, labeled: bool) -> Seq<char> {
        match v {
            JsonValue::Object(es) => self.entries_text(es@, depth, style),
            JsonValue::Array(items) => self.items_text(items@, depth, style),
            _ => leaf_text(v, style, labeled),
        }
    }

    /// The Markdown document for `v`.
    pub open spec fn rendered(self, v: JsonValue) -> Seq<char> {
        collapsed(self.value_text(v, 0, RenderStyle::Root, false))
    }
}


pub(crate) proof fn lemma_entries_nesting(es: Seq<(String, JsonValue)>, i: int)
    requires
        0 <= i < es.len(),
    ensures
        nesting(es[i].1) <= entries_nesting(es),
    decreases es.len(),
{
    if i < es.len() - 1 {
        let front = es.subrange(0, es.len() - 1);
        assert(front[i] == es[i]);
        lemma_entries_nesting(front, i);
    }
}

pub(crate) proof fn lemma_items_nesting(items: Seq<JsonValue>, i: int)
    requires
        0 <= i < items.len(),
    ensures
        nesting(items[i]) <= items_nesting(items),
    decreases items.len(),
{
    if i < items.len() - 1 {
        let front = items.subrange(0, items.len() - 1);
        assert(front[i] == items[i]);
        lemma_items_nesting(front, i);
    }
}

/// Appends the characters of `t` to `out`.
fn push_all(out: &mut String, t: &str)
    ensures
        final(out)@ == old(out)@ + t@,
{
    out.append(t);
}

fn push_two(out: &mut String, a: char, b: char)
    ensures
        final(out)@ == old(out)@ + seq![a, b],
{
    push_char(out, a);
    push_char(out, b);
    assert(out@ =~= old(out)@ + seq![a, b]);
}

/// Appends the text of a scalar, as `scalar_text` gives it.
fn format_value(out: &mut String, t: &str, style: RenderStyle, labeled: bool)
    ensures
        final(out)@ == old(out)@ + scalar_text(t@, style, labeled),
{
    let ghost start = out@;
    if labeled {
        push_two(out, ':', ' ');
    }
    push_all(out, t);
    match style {
        RenderStyle::ListItem | RenderStyle::NestedItem => push_char(out, '\n'),
        _ => push_two(out, '\n', '\n'),
    }
    assert(out@ =~= start + scalar_text(t@, style, labeled));
}

/// Appends the text of a value with no members to render.
fn push_leaf(out: &mut String, v: &JsonValue, style: RenderStyle, labeled: bool)
    ensures
        final(out)@ == old(out)@ + leaf_text(*v, style, labeled),
{
    match v {
        JsonValue::Null => {
            let t = String::new();
            let mut t = t;
            push_char(&mut t, 'N');
            push_two(&mut t, '/', 'A');
            assert(t@ =~= seq!['N', '/', 'A']);
            format_value(out, t.as_str(), style, labeled);
        },
        JsonValue::Bool(b) => {
            let mut t = String::new();
            if *b {
                push_two(&mut t, 't', 'r');
                push_two(&mut t, 'u', 'e');
                assert(t@ =~= seq!['t', 'r', 'u', 'e']);
            } else {
                push_two(&mut t, 'f', 'a');
                push_two(&mut t, 'l', 's');
                push_char(&mut t, 'e');
                assert(t@ =~= seq!['f', 'a', 'l', 's', 'e']);
            }
            format_value(out, t.as_str(), style, labeled);
        },
        JsonValue::Number(n) => format_value(out, n.as_str(), style, labeled),
        JsonValue::Str(s) => format_value(out, s.as_str(), style, labeled),
        JsonValue::Array(_) => {
            assert(old(out)@ + leaf_text(*v, style, labeled) =~= out@);
        },
        JsonValue::Object(_) => {
            assert(old(out)@ + leaf_text(*v, style, labeled) =~= out@);
        },
    }
}

/// Whether `s` begins with `http`.
fn starts_with_http(s: &str) -> (r: bool)
    ensures
        r == is_link(s@),
{
    s.unicode_len() >= 4 && s.get_char(0) == 'h' && s.get_char(1) == 't' && s.get_char(2) == 't'
        && s.get_char(3) == 'p'
}

impl MarkdownRenderer {
    /// A renderer with `indent_spaces` spaces per unit of indentation and
    /// `depth_increment` units per nesting level below the headings.
    pub fn new(indent_spaces: usize, depth_increment: usize) -> (r: Self)
        ensures
            r.indent_unit() == indent_spaces,
            r.step() == depth_increment,
    {
        MarkdownRenderer { indent_spaces, depth_increment }
    }

    proof fn lemma_room(self, a: int, b: int)
        requires
            self.has_room(b),
            0 <= a <= b,
        ensures
            self.has_room(a),
    {
        assert(a * self.indent_unit() <= b * self.indent_unit()) by (nonlinear_arith)
            requires
                0 <= a <= b,
                self.indent_unit() >= 0,
        ;
    }

    proof fn lemma_step_mul(self, k: nat, n: nat)
        requires
            k <= n,
        ensures
            k * self.stride() <= n * self.stride(),
            (n + 1) * self.stride() == n * self.stride() + self.stride(),
    {
        assert(k * self.stride() <= n * self.stride()) by (nonlinear_arith)
            requires
                k <= n,
        ;
        assert((n + 1) * self.stride() == n * self.stride() + self.stride()) by (nonlinear_arith);
    }

    fn get_indent(&self, depth: usize) -> (r: String)
        requires
            self.has_room(depth as int),
        ensures
            r@ == self.indent(depth as int),
    {
        let mut r = String::new();
        push_spaces(&mut r, depth * self.indent_spaces);
        assert(r@ =~= self.indent(depth as int));
        r
    }

    fn push_indent(&self, out: &mut String, depth: usize)
        requires
            self.has_room(depth as int),
        ensures
            final(out)@ == old(out)@ + self.indent(depth as int),
    {
        push_spaces(out, depth * self.indent_spaces);
    }

    fn push_label(&self, out: &mut String, key: &String, depth: usize, style: RenderStyle)
        requires
            self.has_room(depth as int),
        ensures
            final(out)@ == old(out)@ + self.key_label(key@, depth as int, style),
    {
        let ghost start = out@;
        let title = title_case(key.as_str());
        if depth == 0 && style == RenderStyle::Root {
            self.push_indent(out, depth);
            push_two(out, '#', '#');
            push_char(out, ' ');
            push_all(out, title.as_str());
            push_two(out, '\n', '\n');
        } else if depth == 1 && style == RenderStyle::Section {
            self.push_indent(out, depth);
            push_two(out, '#', '#');
            push_two(out, '#', ' ');
            push_all(out, title.as_str());
            push_two(out, '\n', '\n');
        } else {
            self.push_indent(out, depth);
            push_two(out, '-', ' ');
            push_two(out, '*', '*');
            push_all(out, title.as_str());
            push_two(out, '*', '*');
        }
        assert(out@ =~= start + self.key_label(key@, depth as int, style));
    }

    fn push_string_block(&self, out: &mut String, s: &String, depth: usize, next: RenderStyle)
        requires
            self.has_room(depth + 2),
        ensures
            final(out)@ == old(out)@ + self.string_block(s@, depth as int, next),
    {
        proof {
            self.lemma_room(depth as int, depth + 2);
        }
        if starts_with_http(s.as_str()) {
            self.push_indent(out, depth);
            push_all(out, s.as_str());
        } else if next == RenderStyle::Section || next == RenderStyle::Subsection {
            let none = String::new();
            match split_at_period(s.as_str(), none.as_str()) {
                Some(t) => push_all(out, t.as_str()),
                None => push_all(out, s.as_str()),
            }
        } else {
            let ind = self.get_indent(depth + 2);
            match split_at_period(s.as_str(), ind.as_str()) {
                Some(t) => push_all(out, t.as_str()),
                None => {
                    self.push_indent(out, depth);
                    push_all(out, s.as_str());
                },
            }
        }
        assert(out@ =~= old(out)@ + self.string_block(s@, depth as int, next));
    }

    #[verifier::rlimit(60)]
    fn render_entry(&self, out: &mut String, key: &String, v: &JsonValue, depth: usize, style: RenderStyle)
        requires
            self.has_room(depth + nesting(*v) * self.stride() + 2),
        ensures
            final(out)@ == old(out)@ + self.entry_text(key@, *v, depth as int, style),
        decreases *v,
    {
        let ghost start = out@;
        proof {
            self.lemma_room(depth as int, depth + nesting(*v) * self.stride() + 2);
        }
        self.push_label(out, key, depth, style);
        let ghost labeled = out@;
        let (next, inc) = if depth == 0 && style == RenderStyle::Root {
            (RenderStyle::Section, 1)
        } else if depth == 1 && style == RenderStyle::Section {
            (RenderStyle::Subsection, 1)
        } else {
            (RenderStyle::ListItem, self.depth_increment)
        };
        match v {
            JsonValue::Object(inner) => {
                if inner.len() > 0 {
                    proof {
                        self.lemma_step_mul(entries_nesting(inner@), entries_nesting(inner@));
                        self.lemma_room(
                            depth + inc + entries_nesting(inner@) * self.stride() + 2,
                            depth + nesting(*v) * self.stride() + 2,
                        );
                    }
                    push_two(out, '\n', '\n');
                    self.render_object(out, inner, depth + inc, next);
                } else {
                    push_leaf(out, v, RenderStyle::NestedItem, true);
                }
            },
            JsonValue::Array(items) => {
                if items.len() > 0 {
                    proof {
                        self.lemma_step_mul(items_nesting(items@), items_nesting(items@));
                        self.lemma_room(
                            depth + inc + items_nesting(items@) * self.stride() + 2,
                            depth + nesting(*v) * self.stride() + 2,
                        );
                    }
                    push_two(out, '\n', '\n');
                    self.render_array(out, items, depth + inc, RenderStyle::NestedItem);
                    push_two(out, '\n', '\n');
                } else {
                    push_leaf(out, v, RenderStyle::NestedItem, true);
                }
            },
            JsonValue::Str(s) => {
                proof {
                    self.lemma_room(depth + 2, depth + nesting(*v) * self.stride() + 2);
                }
                push_two(out, '\n', '\n');
                self.push_string_block(out, s, depth, next);
                push_char(out, '\n');
            },
            _ => push_leaf(out, v, RenderStyle::NestedItem, true),
        }
        assert(out@ =~= start + self.entry_text(key@, *v, depth as int, style));
    }

    fn render_object(&self, out: &mut String, es: &Vec<(String, JsonValue)>, depth: usize, style: RenderStyle)
        requires
            self.has_room(depth + entries_nesting(es@) * self.stride() + 2),
        ensures
            final(out)@ == old(out)@ + self.entries_text(es@, depth as int, style),
        decreases es@,
    {
        let mut i: usize = 0;
        while i < es.len()
            invariant
                i <= es@.len(),
                self.has_room(depth + entries_nesting(es@) * self.stride() + 2),
                out@ == old(out)@ + self.entries_text(es@.subrange(0, i as int), depth as int, style),
            decreases es@.len() - i,
        {
            proof {
                lemma_entries_nesting(es@, i as int);
                self.lemma_step_mul(nesting(es@[i as int].1), entries_nesting(es@));
                self.lemma_room(
                    depth + nesting(es@[i as int].1) * self.stride() + 2,
                    depth + entries_nesting(es@) * self.stride() + 2,
                );
            }
            self.render_entry(out, &es[i].0, &es[i].1, depth, style);
            proof {
                assert(es@.subrange(0, i + 1).subrange(0, i as int) =~= es@.subrange(0, i as int));
            }
            i = i + 1;
        }
        assert(es@.subrange(0, i as int) =~= es@);
    }

    fn render_item(&self, out: &mut String, v: &JsonValue, depth: usize, style: RenderStyle)
        requires
            self.has_room(depth + nesting(*v) * self.stride() + 2),
        ensures
            final(out)@ == old(out)@ + self.item_text(*v, depth as int, style),
        decreases *v,
    {
        let ghost start = out@;
        proof {
            self.lemma_room(depth as int, depth + nesting(*v) * self.stride() + 2);
        }
        match v {
            JsonValue::Object(inner) if inner.len() > 0 => {
                proof {
                    self.lemma_step_mul(entries_nesting(inner@), entries_nesting(inner@));
                    self.lemma_room(
                        depth + self.step() + entries_nesting(inner@) * self.stride() + 2,
                        depth + nesting(*v) * self.stride() + 2,
                    );
                }
                self.render_object(out, inner, depth + self.depth_increment, RenderStyle::NestedItem);
            },
            JsonValue::Array(items) if items.len() > 0 => {
                proof {
                    self.lemma_step_mul(items_nesting(items@), items_nesting(items@));
                    self.lemma_room(
                        depth + self.step() + items_nesting(items@) * self.stride() + 2,
                        depth + nesting(*v) * self.stride() + 2,
                    );
                }
                self.render_array(out, items, depth + self.depth_increment, RenderStyle::NestedItem);
            },
            JsonValue::Str(s) => {
                self.push_bullet(out, depth, style);
                push_all(out, s.as_str());
                push_char(out, '\n');
            },
            _ => {
                self.push_bullet(out, depth, style);
                push_leaf(out, v, RenderStyle::NestedItem, false);
            },
        }
        assert(out@ =~= start + self.item_text(*v, depth as int, style));
    }

    fn push_bullet(&self, out: &mut String, depth: usize, style: RenderStyle)
        requires
            self.has_room(depth as int),
        ensures
            final(out)@ == old(out)@ + self.indent(depth as int) + Self::marker(style),
    {
        self.push_indent(out, depth);
        if style == RenderStyle::NestedItem {
            push_two(out, ' ', ' ');
        }
        push_two(out, '-', ' ');
        assert(out@ =~= old(out)@ + self.indent(depth as int) + Self::marker(style));
    }

    fn render_array(&self, out: &mut String, items: &Vec<JsonValue>, depth: usize, style: RenderStyle)
        requires
            self.has_room(depth + items_nesting(items@) * self.stride() + 2),
        ensures
            final(out)@ == old(out)@ + self.items_text(items@, depth as int, style),
        decreases items@,
    {
        let mut i: usize = 0;
        while i < items.len()
            invariant
                i <= items@.len(),
                self.has_room(depth + items_nesting(items@) * self.stride() + 2),
                out@ == old(out)@ + self.items_text(items@.subrange(0, i as int), depth as int, style),
            decreases items@.len() - i,
        {
            proof {
                lemma_items_nesting(items@, i as int);
                self.lemma_step_mul(nesting(items@[i as int]), items_nesting(items@));
                self.lemma_room(
                    depth + nesting(items@[i as int]) * self.stride() + 2,
                    depth + items_nesting(items@) * self.stride() + 2,
                );
            }
            self.render_item(out, &items[i], depth, style);
            proof {
                assert(items@.subrange(0, i + 1).subrange(0, i as int) =~= items@.subrange(0, i as int));
            }
            i = i + 1;
        }
        assert(items@.subrange(0, i as int) =~= items@);
    }

    fn render_value(&self, out: &mut String, v: &JsonValue, depth: usize, style: RenderStyle, labeled: bool)
        requires
            has_members(*v) ==> self.has_room(depth + nesting(*v) * self.stride() + 2),
        ensures
            final(out)@ == old(out)@ + self.value_text(*v, depth as int, style, labeled),
    {
        match v {
            JsonValue::Object(es) if es.len() > 0 => {
                proof {
                    self.lemma_step_mul(entries_nesting(es@), entries_nesting(es@));
                    self.lemma_room(
                        depth + entries_nesting(es@) * self.stride() + 2,
                        depth + nesting(*v) * self.stride() + 2,
                    );
                }
                self.render_object(out, es, depth, style)
            },
            JsonValue::Array(items) if items.len() > 0 => {
                proof {
                    self.lemma_step_mul(items_nesting(items@), items_nesting(items@));
                    self.lemma_room(
                        depth + items_nesting(items@) * self.stride() + 2,
                        depth + nesting(*v) * self.stride() + 2,
                    );
                }
                self.render_array(out, items, depth, style)
            },
            _ => {
                assert(self.value_text(*v, depth as int, style, labeled) =~= leaf_text(*v, style, labeled));
                push_leaf(out, v, style, labeled);
            },
        }
    }

    /// Renders `json` as a Markdown document where its indentation fits in
    /// memory's address range, and gives `None` otherwise.
    pub fn try_render(&self, json: &JsonValue) -> (r: Option<String>)
        ensures
            r is Some <==> self.fits(*json),
            r matches Some(t) ==> t@ == self.rendered(*json),
    {
        let members = match json {
            JsonValue::Object(es) => es.len() > 0,
            JsonValue::Array(items) => items.len() > 0,
            _ => false,
        };
        if !members {
            return Some(self.render(json));
        }
        match nesting_within(json, usize::MAX) {
            None => {
                assert(nesting(*json) * self.stride() >= nesting(*json)) by (nonlinear_arith)
                    requires
                        self.stride() >= 1,
                ;
                None
            },
            Some(n) => match self.depth_increment.checked_add(1) {
                None => {
                    assert(nesting(*json) * self.stride() >= self.stride()) by (nonlinear_arith)
                        requires
                            self.stride() >= 1,
                            nesting(*json) >= 1,
                    ;
                    None
                },
                Some(stride) => match n.checked_mul(stride) {
                    None => None,
                    Some(p) => match p.checked_add(2) {
                        None => None,
                        Some(deepest) => match deepest.checked_mul(self.indent_spaces) {
                            None => None,
                            Some(_) => Some(self.render(json)),
                        },
                    },
                },
            },
        }
    }

    /// Renders `json` as a Markdown document.
    pub fn render(&self, json: &JsonValue) -> (r: String)
        requires
            self.fits(*json),
        ensures
            r@ == self.rendered(*json),
            no_long_hash_run(r@),
    {
        let mut out = String::new();
        self.render_value(&mut out, json, 0, RenderStyle::Root, false);
        collapse_hash_runs(out.as_str())
    }
}


/// An empty object and an empty array both render to the empty document.
pub proof fn lemma_empty_renders_empty(r: MarkdownRenderer, v: JsonValue)
    requires
        v.is_empty_container(),
    ensures
        r.fits(v),
        r.rendered(v) == Seq::<char>::empty(),
{
    assert(r.value_text(v, 0, RenderStyle::Root, false) =~= Seq::<char>::empty());
}

/// A top-level key renders as a second-level heading of its title-cased
/// form and a blank line, whatever its value.
pub proof fn lemma_top_level_key_heading(r: MarkdownRenderer, key: Seq<char>, v: JsonValue)
    ensures
        (seq!['#', '#', ' '] + title_case_of(key) + blank()).is_prefix_of(
            r.entry_text(key, v, 0, RenderStyle::Root),
        ),
{
    let head = seq!['#', '#', ' '] + title_case_of(key) + blank();
    assert(r.indent(0) =~= Seq::<char>::empty());
    assert(r.key_label(key, 0, RenderStyle::Root) =~= head);
    let whole = r.entry_text(key, v, 0, RenderStyle::Root);
    assert(whole.subrange(0, head.len() as int) =~= head);
}

/// A key of an object met at depth one in a section renders as a
/// third-level heading of its title-cased form and a blank line.
pub proof fn lemma_section_key_heading(r: MarkdownRenderer, key: Seq<char>, v: JsonValue)
    ensures
        (r.indent(1) + seq!['#', '#', '#', ' '] + title_case_of(key) + blank()).is_prefix_of(
            r.entry_text(key, v, 1, RenderStyle::Section),
        ),
{
    let head = r.indent(1) + seq!['#', '#', '#', ' '] + title_case_of(key) + blank();
    assert(r.key_label(key, 1, RenderStyle::Section) =~= head);
    let whole = r.entry_text(key, v, 1, RenderStyle::Section);
    assert(whole.subrange(0, head.len() as int) =~= head);
}

/// The members of a top-level object are rendered at depth one in a
/// section, so each of their keys renders as a third-level heading of its
/// title-cased form and a blank line.
pub proof fn lemma_second_level_key_heading(
    r: MarkdownRenderer,
    key: Seq<char>,
    inner: Vec<(String, JsonValue)>,
)
    requires
        inner@.len() > 0,
    ensures
        r.entry_text(key, JsonValue::Object(inner), 0, RenderStyle::Root) == r.key_label(
            key,
            0,
            RenderStyle::Root,
        ) + blank() + r.entries_text(inner@, 1, RenderStyle::Section),
        forall|i: int|
            0 <= i < inner@.len() ==> (r.indent(1) + seq!['#', '#', '#', ' '] + title_case_of(
                inner@[i].0@,
            ) + blank()).is_prefix_of(#[trigger] r.entry_text(inner@[i].0@, inner@[i].1, 1, RenderStyle::Section)),
{
    assert forall|i: int| 0 <= i < inner@.len() implies (r.indent(1) + seq!['#', '#', '#', ' ']
        + title_case_of(inner@[i].0@) + blank()).is_prefix_of(
        #[trigger] r.entry_text(inner@[i].0@, inner@[i].1, 1, RenderStyle::Section),
    ) by {
        lemma_section_key_heading(r, inner@[i].0@, inner@[i].1);
    }
}

/// Below the two heading levels, a key renders as an indented bullet with
/// its title-cased form in bold.
pub proof fn lemma_deep_key_bullet(
    r: MarkdownRenderer,
    key: Seq<char>,
    v: JsonValue,
    depth: int,
    style: RenderStyle,
)
    requires
        !(depth == 0 && style == RenderStyle::Root),
        !(depth == 1 && style == RenderStyle::Section),
    ensures
        (r.indent(depth) + seq!['-', ' ', '*', '*'] + title_case_of(key) + seq![
            '*',
            '*',
        ]).is_prefix_of(r.entry_text(key, v, depth, style)),
{
    let head = r.indent(depth) + seq!['-', ' ', '*', '*'] + title_case_of(key) + seq!['*', '*'];
    assert(r.key_label(key, depth, style) =~= head);
    let whole = r.entry_text(key, v, depth, style);
    assert(whole.subrange(0, head.len() as int) =~= head);
}

/// `null` renders as `N/A`: alone, and after its key.
pub proof fn lemma_null_renders_na(
    r: MarkdownRenderer,
    key: Seq<char>,
    depth: int,
    style: RenderStyle,
    labeled: bool,
)
    ensures
        r.value_text(JsonValue::Null, depth, style, labeled) == scalar_text(
            seq!['N', '/', 'A'],
            style,
            labeled,
        ),
        r.entry_text(key, JsonValue::Null, depth, style) == r.key_label(key, depth, style) + seq![
            ':',
            ' ',
            'N',
            '/',
            'A',
            '\n',
        ],
{
    assert(scalar_text(seq!['N', '/', 'A'], RenderStyle::NestedItem, true) =~= seq![
        ':',
        ' ',
        'N',
        '/',
        'A',
        '\n',
    ]);
}

/// A key whose value is an empty object renders exactly as one whose value
/// is an empty array: as its label alone.
pub proof fn lemma_empty_value_label_only(
    r: MarkdownRenderer,
    key: Seq<char>,
    a: JsonValue,
    b: JsonValue,
    depth: int,
    style: RenderStyle,
)
    requires
        a.is_empty_container(),
        b.is_empty_container(),
    ensures
        r.entry_text(key, a, depth, style) == r.entry_text(key, b, depth, style),
        r.entry_text(key, a, depth, style) == r.key_label(key, depth, style),
{
    assert(r.entry_text(key, a, depth, style) =~= r.key_label(key, depth, style));
    assert(r.entry_text(key, b, depth, style) =~= r.key_label(key, depth, style));
}

/// A string value that begins with `http` is written whole on one line
/// below its key, never split into paragraphs.
pub proof fn lemma_link_kept_whole(
    r: MarkdownRenderer,
    key: Seq<char>,
    s: String,
    depth: int,
    style: RenderStyle,
)
    requires
        is_link(s@),
    ensures
        r.entry_text(key, JsonValue::Str(s), depth, style) == r.key_label(key, depth, style)
            + blank() + r.indent(depth) + s@ + seq!['\n'],
{
}


impl Default for MarkdownRenderer {
    /// One space per unit of indentation, two units per nesting level.
    fn default() -> (r: Self)
        ensures
            r.indent_unit() == 1,
            r.step() == 2,
    {
        MarkdownRenderer { indent_spaces: 1, depth_increment: 2 }
    }
}

/// The nesting of `v`, or `None` where it exceeds `limit`.
pub fn nesting_within(v: &JsonValue, limit: usize) -> (r: Option<usize>)
    ensures
        match r {
            Some(n) => n == nesting(*v) && n <= limit,
            None => nesting(*v) > limit,
        },
    decreases *v,
{
    match v {
        JsonValue::Object(es) => {
            if limit == 0 {
                return None;
            }
            match entries_nesting_within(es, limit - 1) {
                Some(m) => Some(m + 1),
                None => None,
            }
        },
        JsonValue::Array(items) => {
            if limit == 0 {
                return None;
            }
            match items_nesting_within(items, limit - 1) {
                Some(m) => Some(m + 1),
                None => None,
            }
        },
        _ => Some(0),
    }
}

fn entries_nesting_within(es: &Vec<(String, JsonValue)>, limit: usize) -> (r: Option<usize>)
    ensures
        match r {
            Some(n) => n == entries_nesting(es@) && n <= limit,
            None => entries_nesting(es@) > limit,
        },
    decreases es@,
{
    let mut m: usize = 0;
    let mut i: usize = 0;
    while i < es.len()
        invariant
            i <= es@.len(),
            m == entries_nesting(es@.subrange(0, i as int)),
            m <= limit,
        decreases es@.len() - i,
    {
        proof {
            assert(es@.subrange(0, i + 1).subrange(0, i as int) =~= es@.subrange(0, i as int));
        }
        match nesting_within(&es[i].1, limit) {
            None => {
                proof {
                    lemma_entries_nesting(es@, i as int);
                }
                return None;
            },
            Some(n) => {
                if n > m {
                    m = n;
                }
            },
        }
        i = i + 1;
    }
    assert(es@.subrange(0, i as int) =~= es@);
    Some(m)
}

fn items_nesting_within(items: &Vec<JsonValue>, limit: usize) -> (r: Option<usize>)
    ensures
        match r {
            Some(n) => n == items_nesting(items@) && n <= limit,
            None => items_nesting(items@) > limit,
        },
    decreases items@,
{
    let mut m: usize = 0;
    let mut i: usize = 0;
    while i < items.len()
        invariant
            i <= items@.len(),
            m == items_nesting(items@.subrange(0, i as int)),
            m <= limit,
        decreases items@.len() - i,
    {
        proof {
            assert(items@.subrange(0, i + 1).subrange(0, i as int) =~= items@.subrange(0, i as int));
        }
        match nesting_within(&items[i], limit) {
            None => {
                proof {
                    lemma_items_nesting(items@, i as int);
                }
                return None;
            },
            Some(n) => {
                if n > m {
                    m = n;
                }
            },
        }
        i = i + 1;
    }
    assert(items@.subrange(0, i as int) =~= items@);
    Some(m)
}


proof fn lemma_entries_text_grows(
    r: MarkdownRenderer,
    es: Seq<(String, JsonValue)>,
    m: int,
    depth: int,
    style: RenderStyle,
)
    requires
        0 <= m <= es.len(),
    ensures
        r.entries_text(es.subrange(0, m), depth, style).is_prefix_of(r.entries_text(es, depth, style)),
    decreases es.len() - m,
{
    if m < es.len() {
        lemma_entries_text_grows(r, es, m + 1, depth, style);
        let a = r.entries_text(es.subrange(0, m), depth, style);
        let b = r.entries_text(es.subrange(0, m + 1), depth, style);
        let c = r.entries_text(es, depth, style);
        assert(es.subrange(0, m + 1).subrange(0, m) =~= es.subrange(0, m));
        assert(b.subrange(0, a.len() as int) =~= a);
        assert(c.subrange(0, a.len() as int) =~= b.subrange(0, a.len() as int));
    } else {
        assert(es.subrange(0, m) =~= es);
    }
}

/// A document whose top level is a non-empty object begins with the
/// second-level heading of its first key and a blank line, whatever the
/// values; the heading passes the `#` cleanup unchanged unless the
/// title-cased key itself holds seven `#` in a row.
pub proof fn lemma_document_starts_with_heading(r: MarkdownRenderer, es: Vec<(String, JsonValue)>)
    requires
        es@.len() > 0,
        no_long_hash_run(title_case_of(es@[0].0@)),
    ensures
        (seq!['#', '#', ' '] + title_case_of(es@[0].0@) + blank()).is_prefix_of(
            r.rendered(JsonValue::Object(es)),
        ),
{
    let title = title_case_of(es@[0].0@);
    let head = seq!['#', '#', ' '] + title + blank();
    assert forall|j: int| 0 <= j && j + 7 <= head.len() implies !#[trigger] hash_block(head, j) by {
        if hash_block(head, j) {
            if j <= 2 {
                assert(head[j + (2 - j)] == '#');
            } else if j + 7 <= 3 + title.len() {
                assert forall|k: int| 0 <= k < 7 implies #[trigger] title[(j - 3) + k] == '#' by {
                    assert(head[j + k] == '#');
                }
                assert(hash_block(title, j - 3));
            } else {
                let k = 3 + title.len() - j;
                assert(head[j + k] == '#');
            }
        }
    }
    lemma_top_level_key_heading(r, es@[0].0@, es@[0].1);
    lemma_entries_text_grows(r, es@, 1, 0, RenderStyle::Root);
    let first = r.entry_text(es@[0].0@, es@[0].1, 0, RenderStyle::Root);
    let s1 = es@.subrange(0, 1);
    assert(s1[0] == es@[0]);
    assert(s1.subrange(0, 0).len() == 0);
    assert(r.entries_text(s1.subrange(0, 0), 0, RenderStyle::Root) == Seq::<char>::empty());
    assert(r.entries_text(s1, 0, RenderStyle::Root) =~= first);
    let whole = r.entries_text(es@, 0, RenderStyle::Root);
    assert(whole =~= head + whole.subrange(head.len() as int, whole.len() as int));
    lemma_collapse_keeps_head(head, whole.subrange(head.len() as int, whole.len() as int));
}

} // verus!
