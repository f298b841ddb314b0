use vstd::prelude::*;
use vstd::std_specs::iter::IteratorSpec;
use vstd::string::*;

verus! {

broadcast use vstd::string::group_string_axioms;

/// The characters that carry the Unicode `White_Space` property, which is
/// what `char::is_whitespace` and `str::trim` go by.
pub open spec fn is_ws(c: char) -> bool {
    ('\u{9}' <= c && c <= '\u{d}') || c == ' ' || c == '\u{85}' || c == '\u{a0}'
        || c == '\u{1680}' || ('\u{2000}' <= c && c <= '\u{200a}') || c == '\u{2028}'
        || c == '\u{2029}' || c == '\u{202f}' || c == '\u{205f}' || c == '\u{3000}'
}

pub fn is_space(c: char) -> (r: bool)
    ensures
        r == is_ws(c),
{
    ('\u{9}' <= c && c <= '\u{d}') || c == ' ' || c == '\u{85}' || c == '\u{a0}'
        || c == '\u{1680}' || ('\u{2000}' <= c && c <= '\u{200a}') || c == '\u{2028}'
        || c == '\u{2029}' || c == '\u{202f}' || c == '\u{205f}' || c == '\u{3000}'
}

/// The characters of `s`, one per element.
pub fn chars_of(s: &str) -> (r: Vec<char>)
    ensures
        r@ == s@,
{
    let mut r: Vec<char> = Vec::new();
    for c in it: s.chars()
        invariant
            r@ == it.history(),
    {
        r.push(c);
    }
    assert(r@ =~= s@);
    r
}

/// Relies on `String::push`: appends one character.
#[verifier::external_body]
pub(crate) fn push_char(s: &mut String, c: char)
    ensures
        final(s)@ == old(s)@.push(c),
{
    s.push(c)
}

/// Relies on `inflections::case::to_title_case`: the display form of a key,
/// which depends on the key's characters alone.
#[verifier::external_body]
pub(crate) fn title_case(s: &str) -> (r: String)
    ensures
        r@ == title_case_of(s@),
{
    inflections::case::to_title_case(s)
}

/// What `inflections::case::to_title_case` makes of a key.
pub uninterp spec fn title_case_of(s: Seq<char>) -> Seq<char>;

/// `n` spaces.
pub open spec fn spaces(n: nat) -> Seq<char> {
    Seq::new(n, |_i: int| ' ')
}

/// Appends `n` spaces to `out`.
pub fn push_spaces(out: &mut String, n: usize)
    ensures
        final(out)@ == old(out)@ + spaces(n as nat),
{
    let mut i: usize = 0;
    while i < n
        invariant
            i <= n,
            out@ == old(out)@ + spaces(i as nat),
        decreases n - i,
    {
        push_char(out, ' ');
        i = i + 1;
        assert(out@ =~= old(out)@ + spaces(i as nat));
    }
}

/// `s` without its leading whitespace.
pub open spec fn trim_start(s: Seq<char>) -> Seq<char>
    decreases s.len(),
{
    if s.len() > 0 && is_ws(s[0]) {
        trim_start(s.drop_first())
    } else {
        s
    }
}

/// `s` without its trailing whitespace.
pub open spec fn trim_end(s: Seq<char>) -> Seq<char>
    decreases s.len(),
{
    if s.len() > 0 && is_ws(s.last()) {
        trim_end(s.drop_last())
    } else {
        s
    }
}

/// `s` without whitespace at either end, as `str::trim` gives it.
pub open spec fn trimmed(s: Seq<char>) -> Seq<char> {
    trim_end(trim_start(s))
}

/// The bounds, within `lo..hi`, of the characters of `v[lo..hi]` once trimmed.
pub fn trim_bounds(v: &Vec<char>, lo: usize, hi: usize) -> (r: (usize, usize))
    requires
        lo <= hi <= v@.len(),
    ensures
        lo <= r.0 <= r.1 <= hi,
        v@.subrange(r.0 as int, r.1 as int) == trimmed(v@.subrange(lo as int, hi as int)),
{
    let mut a = lo;
    while a < hi && is_space(v[a])
        invariant
            lo <= a <= hi <= v@.len(),
            trim_start(v@.subrange(lo as int, hi as int)) == trim_start(v@.subrange(a as int, hi as int)),
        decreases hi - a,
    {
        assert(v@.subrange(a as int, hi as int).drop_first() =~= v@.subrange(a + 1, hi as int));
        a = a + 1;
    }
    assert(trim_start(v@.subrange(a as int, hi as int)) == v@.subrange(a as int, hi as int));
    let mut b = hi;
    while b > a && is_space(v[b - 1])
        invariant
            a <= b <= hi <= v@.len(),
            trim_end(v@.subrange(a as int, hi as int)) == trim_end(v@.subrange(a as int, b as int)),
        decreases b - a,
    {
        assert(v@.subrange(a as int, b as int).drop_last() =~= v@.subrange(a as int, b - 1));
        b = b - 1;
    }
    (a, b)
}

/// An ASCII capital letter.
pub open spec fn is_capital(c: char) -> bool {
    'A' <= c && c <= 'Z'
}

/// The first position at or after `k` that holds no whitespace, or the
/// length of `s` where there is none.
pub open spec fn next_word(s: Seq<char>, k: int) -> int
    decreases s.len() - k,
{
    if k >= s.len() {
        s.len() as int
    } else if is_ws(s[k]) {
        next_word(s, k + 1)
    } else {
        k
    }
}

/// The period at `i` ends a sentence: whitespace follows it, and the next
/// word after that whitespace is not a lone capital with a period of its
/// own (as in "U. S.").
pub open spec fn is_break(s: Seq<char>, i: int) -> bool {
    &&& 0 <= i && i + 1 < s.len()
    &&& s[i] == '.'
    &&& is_ws(s[i + 1])
    &&& {
        let j = next_word(s, i + 1);
        !(j + 1 < s.len() && is_capital(s[j]) && s[j + 1] == '.')
    }
}

pub open spec fn has_break(s: Seq<char>) -> bool {
    exists|i: int| is_break(s, i)
}

/// One paragraph: the indentation, the piece trimmed, then a blank line.
pub open spec fn paragraph(indent: Seq<char>, piece: Seq<char>) -> Seq<char> {
    indent + trimmed(piece) + seq!['\n', '\n']
}

/// The paragraphs of `s` from the piece that starts at `start`, where the
/// scan for breaks has reached `i`. Each break ends a piece and is dropped.
pub open spec fn paragraphs_from(s: Seq<char>, indent: Seq<char>, start: int, i: int) -> Seq<char>
    decreases s.len() - i,
{
    if i >= s.len() {
        paragraph(indent, s.subrange(start, s.len() as int))
    } else if is_break(s, i) {
        paragraph(indent, s.subrange(start, i)) + paragraphs_from(s, indent, i + 1, i + 1)
    } else {
        paragraphs_from(s, indent, start, i + 1)
    }
}

/// `s` split into paragraphs at its sentence breaks, or `None` where it has none.
pub open spec fn reflowed(s: Seq<char>, indent: Seq<char>) -> Option<Seq<char>> {
    if has_break(s) {
        Some(paragraphs_from(s, indent, 0, 0))
    } else {
        None
    }
}

fn is_break_at(v: &Vec<char>, i: usize) -> (r: bool)
    requires
        i < v@.len(),
    ensures
        r == is_break(v@, i as int),
{
    if v[i] != '.' || v.len() - i < 2 || !is_space(v[i + 1]) {
        return false;
    }
    let mut j = i + 1;
    while j < v.len() && is_space(v[j])
        invariant
            i < j <= v@.len(),
            next_word(v@, i + 1) == next_word(v@, j as int),
        decreases v@.len() - j,
    {
        j = j + 1;
    }
    !(v.len() - j >= 2 && 'A' <= v[j] && v[j] <= 'Z' && v[j + 1] == '.')
}

fn push_paragraph(out: &mut String, indent: &str, v: &Vec<char>, lo: usize, hi: usize)
    requires
        lo <= hi <= v@.len(),
    ensures
        final(out)@ == old(out)@ + paragraph(indent@, v@.subrange(lo as int, hi as int)),
{
    out.append(indent);
    let (a, b) = trim_bounds(v, lo, hi);
    let mut k = a;
    while k < b
        invariant
            a <= k <= b <= v@.len(),
            out@ == old(out)@ + indent@ + v@.subrange(a as int, k as int),
        decreases b - k,
    {
        push_char(out, v[k]);
        k = k + 1;
        assert(out@ =~= old(out)@ + indent@ + v@.subrange(a as int, k as int));
    }
    push_char(out, '\n');
    push_char(out, '\n');
    assert(out@ =~= old(out)@ + paragraph(indent@, v@.subrange(lo as int, hi as int)));
}

/// Splits `text` into paragraphs at its sentence breaks, each trimmed and
/// led by `indent`; `None` where the text has no break.
pub fn split_at_period(text: &str, indent: &str) -> (r: Option<String>)
    ensures
        r matches Some(t) ==> reflowed(text@, indent@) == Some(t@),
        r is None ==> reflowed(text@, indent@) is None,
{
    let v = chars_of(text);
    let mut out = String::new();
    let mut start: usize = 0;
    let mut i: usize = 0;
    let mut found = false;
    while i < v.len()
        invariant
            start <= i <= v@.len(),
            v@ == text@,
            out@ + paragraphs_from(v@, indent@, start as int, i as int)
                == paragraphs_from(v@, indent@, 0, 0),
            found <==> exists|j: int| 0 <= j < i && is_break(v@, j),
        decreases v@.len() - i,
    {
        if is_break_at(&v, i) {
            push_paragraph(&mut out, indent, &v, start, i);
            assert(out@ + paragraphs_from(v@, indent@, (i + 1) as int, (i + 1) as int)
                =~= paragraphs_from(v@, indent@, 0, 0));
            start = i + 1;
            found = true;
        }
        i = i + 1;
    }
    if !found {
        assert forall|j: int| !is_break(v@, j) by {
            if 0 <= j < v@.len() {
                assert(!is_break(v@, j));
            }
        }
        return None;
    }
    push_paragraph(&mut out, indent, &v, start, i);
    assert(out@ =~= paragraphs_from(v@, indent@, 0, 0));
    Some(out)
}


/// How many `#` immediately precede position `i` of `s`.
pub open spec fn hashes_before(s: Seq<char>, i: int) -> nat
    decreases i,
{
    if 0 < i <= s.len() && s[i - 1] == '#' {
        1 + hashes_before(s, i - 1)
    } else {
        0
    }
}

/// The character at `i` survives the collapse: it is no `#`, or fewer than
/// six `#` stand right before it.
pub open spec fn kept(s: Seq<char>, i: int) -> bool {
    s[i] != '#' || hashes_before(s, i) < 6
}

/// The first `n` characters of `s` with every run of `#` cut to six.
pub open spec fn collapsed_prefix(s: Seq<char>, n: int) -> Seq<char>
    decreases n,
{
    if n <= 0 {
        Seq::empty()
    } else {
        collapsed_prefix(s, n - 1) + if kept(s, n - 1) {
            seq![s[n - 1]]
        } else {
            Seq::empty()
        }
    }
}

/// `s` with every run of more than six `#` cut to six.
pub open spec fn collapsed(s: Seq<char>) -> Seq<char> {
    collapsed_prefix(s, s.len() as int)
}

/// Seven `#` in a row start at `j`.
pub open spec fn hash_block(t: Seq<char>, j: int) -> bool {
    forall|k: int| 0 <= k < 7 ==> #[trigger] t[j + k] == '#'
}

/// No run of seven or more `#` occurs in `t`.
pub open spec fn no_long_hash_run(t: Seq<char>) -> bool {
    forall|j: int| 0 <= j && j + 7 <= t.len() ==> !#[trigger] hash_block(t, j)
}

proof fn lemma_hashes_prefix(s: Seq<char>, t: Seq<char>, i: int)
    requires
        0 <= i <= s.len(),
        i <= t.len(),
        s.subrange(0, i) == t.subrange(0, i),
    ensures
        hashes_before(s, i) == hashes_before(t, i),
    decreases i,
{
    if i > 0 {
        assert(s[i - 1] == s.subrange(0, i)[i - 1]);
        assert(t[i - 1] == t.subrange(0, i)[i - 1]);
        assert(s.subrange(0, i - 1) =~= s.subrange(0, i).subrange(0, i - 1));
        assert(t.subrange(0, i - 1) =~= t.subrange(0, i).subrange(0, i - 1));
        lemma_hashes_prefix(s, t, i - 1);
    }
}

proof fn lemma_hashes_at_least(t: Seq<char>, i: int, m: int)
    requires
        0 <= m <= i <= t.len(),
        forall|p: int| i - m <= p < i ==> #[trigger] t[p] == '#',
    ensures
        hashes_before(t, i) >= m,
    decreases m,
{
    if m > 0 {
        assert(t[i - 1] == '#');
        lemma_hashes_at_least(t, i - 1, m - 1);
    }
}

/// Cuts every run of more than six `#` in `s` to exactly six, the deepest
/// heading Markdown knows.
pub fn collapse_hash_runs(s: &str) -> (r: String)
    ensures
        r@ == collapsed(s@),
        no_long_hash_run(r@),
{
    let v = chars_of(s);
    let mut out = String::new();
    let mut run: usize = 0;
    let mut i: usize = 0;
    while i < v.len()
        invariant
            i <= v@.len(),
            v@ == s@,
            run <= i,
            run == hashes_before(v@, i as int),
            out@ == collapsed_prefix(v@, i as int),
            hashes_before(out@, out@.len() as int) == if run < 6 { run as nat } else { 6 },
            no_long_hash_run(out@),
        decreases v@.len() - i,
    {
        let c = v[i];
        let ghost prev = out@;
        if c != '#' || run < 6 {
            push_char(&mut out, c);
            proof {
                assert(out@.subrange(0, prev.len() as int) =~= prev.subrange(0, prev.len() as int));
                lemma_hashes_prefix(out@, prev, prev.len() as int);
            }
            assert forall|j: int| 0 <= j && j + 7 <= out@.len() implies !#[trigger] hash_block(out@, j) by {
                if j + 7 <= prev.len() {
                    assert(!hash_block(prev, j));
                    let k = choose|k: int| 0 <= k < 7 && #[trigger] prev[j + k] != '#';
                    assert(out@[j + k] == prev[j + k]);
                } else if hash_block(out@, j) {
                    assert forall|p: int| out@.len() - 7 <= p < out@.len() implies #[trigger] out@[p]
                        == '#' by {
                        assert(out@[j + (p - j)] == '#');
                    }
                    lemma_hashes_at_least(out@, out@.len() as int, 7);
                }
            }
        }
        if c == '#' {
            run = run + 1;
        } else {
            run = 0;
        }
        i = i + 1;
    }
    assert(v@.len() == s@.len());
    out
}


proof fn lemma_hashes_before_all_hash(t: Seq<char>, i: int, k: int)
    requires
        0 <= i <= t.len(),
        0 <= k < hashes_before(t, i),
    ensures
        0 <= i - 1 - k,
        t[i - 1 - k] == '#',
    decreases i,
{
    if k > 0 {
        lemma_hashes_before_all_hash(t, i - 1, k - 1);
    }
}

proof fn lemma_collapsed_prefix_depends_on_prefix(s: Seq<char>, t: Seq<char>, n: int)
    requires
        0 <= n <= s.len(),
        n <= t.len(),
        s.subrange(0, n) == t.subrange(0, n),
    ensures
        collapsed_prefix(s, n) == collapsed_prefix(t, n),
    decreases n,
{
    if n > 0 {
        assert(s.subrange(0, n - 1) =~= s.subrange(0, n).subrange(0, n - 1));
        assert(t.subrange(0, n - 1) =~= t.subrange(0, n).subrange(0, n - 1));
        assert(s[n - 1] == s.subrange(0, n)[n - 1]);
        assert(t[n - 1] == t.subrange(0, n)[n - 1]);
        lemma_hashes_prefix(s, t, n - 1);
        lemma_collapsed_prefix_depends_on_prefix(s, t, n - 1);
    }
}

proof fn lemma_collapsed_prefix_grows(s: Seq<char>, m: int, n: int)
    requires
        0 <= m <= n <= s.len(),
    ensures
        collapsed_prefix(s, m).is_prefix_of(collapsed_prefix(s, n)),
    decreases n - m,
{
    if m < n {
        lemma_collapsed_prefix_grows(s, m, n - 1);
        let a = collapsed_prefix(s, m);
        let b = collapsed_prefix(s, n - 1);
        let c = collapsed_prefix(s, n);
        assert(c.subrange(0, b.len() as int) =~= b);
        assert(c.subrange(0, a.len() as int) =~= b.subrange(0, a.len() as int));
    }
}

proof fn lemma_collapsed_identity(s: Seq<char>, n: int)
    requires
        0 <= n <= s.len(),
        no_long_hash_run(s),
    ensures
        collapsed_prefix(s, n) == s.subrange(0, n),
    decreases n,
{
    if n > 0 {
        lemma_collapsed_identity(s, n - 1);
        if s[n - 1] == '#' && hashes_before(s, n - 1) >= 6 {
            assert forall|k: int| 0 <= k < 7 implies #[trigger] s[(n - 7) + k] == '#' by {
                if k < 6 {
                    lemma_hashes_before_all_hash(s, n - 1, 5 - k);
                }
            }
            lemma_hashes_before_all_hash(s, n - 1, 5);
            assert(hash_block(s, n - 7));
            assert(!hash_block(s, n - 7));
        }
        assert(kept(s, n - 1));
        assert(collapsed_prefix(s, n) =~= s.subrange(0, n));
    }
}

/// A text with no run of seven `#` passes the collapse unchanged, also
/// as the start of a longer text.
pub proof fn lemma_collapse_keeps_head(head: Seq<char>, rest: Seq<char>)
    requires
        no_long_hash_run(head),
    ensures
        head.is_prefix_of(collapsed(head + rest)),
{
    let s = head + rest;
    assert(s.subrange(0, head.len() as int) =~= head.subrange(0, head.len() as int));
    lemma_collapsed_prefix_depends_on_prefix(s, head, head.len() as int);
    lemma_collapsed_identity(head, head.len() as int);
    assert(head.subrange(0, head.len() as int) =~= head);
    lemma_collapsed_prefix_grows(s, head.len() as int, s.len() as int);
}

} // verus!
