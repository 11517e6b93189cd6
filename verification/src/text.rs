//! Character-level operations on `String`s, stated over their `Seq<char>` views,
//! and the correspondence between a list of lines and the text they spell out
//! when joined with `'\n'`.
use vstd::prelude::*;
use vstd::string::*;

verus! {

// ── Lines and joined text ─────────────────────────────────────────────────────

/// The text that `t` spells when its lines are joined with `'\n'`.
pub open spec fn join_lines(t: Seq<Seq<char>>) -> Seq<char>
    decreases t.len(),
{
    if t.len() == 0 {
        seq![]
    } else if t.len() == 1 {
        t[0]
    } else {
        join_lines(t.drop_last()) + seq!['\n'] + t.last()
    }
}

/// The pieces of `s` between its `'\n'` characters (`str::split('\n')`):
/// always at least one piece, none of them holding a `'\n'`.
pub open spec fn split_lines(s: Seq<char>) -> Seq<Seq<char>>
    decreases s.len(),
{
    if s.len() == 0 {
        seq![seq![]]
    } else {
        let r = split_lines(s.drop_last());
        if s.last() == '\n' {
            r.push(seq![])
        } else {
            r.update(r.len() - 1, r.last().push(s.last()))
        }
    }
}

/// No character of `s` is a `'\n'`.
pub open spec fn no_newline(s: Seq<char>) -> bool {
    forall|i: int| 0 <= i < s.len() ==> s[i] != '\n'
}

/// Text joined before line `l`, with its separator: what precedes line `l` in `join_lines(t)`.
pub open spec fn text_before(t: Seq<Seq<char>>, l: int) -> Seq<char> {
    if l == 0 {
        seq![]
    } else {
        join_lines(t.take(l)) + seq!['\n']
    }
}

/// What follows line `l` in `join_lines(t)`.
pub open spec fn text_after(t: Seq<Seq<char>>, l: int) -> Seq<char> {
    if l + 1 >= t.len() {
        seq![]
    } else {
        seq!['\n'] + join_lines(t.skip(l + 1))
    }
}

/// The views of a list of strings.
pub open spec fn string_views(v: Seq<String>) -> Seq<Seq<char>> {
    v.map_values(|s: String| s@)
}

/// `s` without one `'\r'` at its end.
pub open spec fn strip_cr(s: Seq<char>) -> Seq<char> {
    if s.len() > 0 && s.last() == '\r' {
        s.drop_last()
    } else {
        s
    }
}

/// The lines of a file's text as `str::lines` yields them: split at each
/// `'\n'`, a `'\r'` just before a `'\n'` dropped, and no line after a final
/// `'\n'`; the empty text has no lines.
pub open spec fn file_lines(c: Seq<char>) -> Seq<Seq<char>> {
    let ps = split_lines(c);
    let init = ps.drop_last().map_values(|p: Seq<char>| strip_cr(p));
    if ps.last().len() == 0 {
        init
    } else {
        init.push(ps.last())
    }
}

/// Whitespace that counts as indentation.
pub open spec fn is_indent_char(c: char) -> bool {
    c == ' ' || c == '\t'
}

/// Index of the first character at or after `i` that is not indentation.
pub open spec fn indent_end_from(s: Seq<char>, i: int) -> int
    decreases s.len() - i,
{
    if 0 <= i < s.len() && is_indent_char(s[i]) {
        indent_end_from(s, i + 1)
    } else {
        i
    }
}

/// Length of the run of spaces and tabs that starts `s`.
pub open spec fn indent_len(s: Seq<char>) -> int {
    indent_end_from(s, 0)
}

/// `n` spaces.
pub open spec fn spaces(n: nat) -> Seq<char> {
    Seq::new(n, |i: int| ' ')
}

pub proof fn lemma_indent_end_bounds(s: Seq<char>, i: int)
    requires
        0 <= i <= s.len(),
    ensures
        i <= indent_end_from(s, i) <= s.len(),
        forall|j: int| i <= j < indent_end_from(s, i) ==> is_indent_char(#[trigger] s[j]),
        indent_end_from(s, i) < s.len() ==> !is_indent_char(s[indent_end_from(s, i)]),
    decreases s.len() - i,
{
    if i < s.len() && is_indent_char(s[i]) {
        lemma_indent_end_bounds(s, i + 1);
    }
}

/// Joining concatenated line lists puts one separator between them.
pub proof fn lemma_join_concat(a: Seq<Seq<char>>, b: Seq<Seq<char>>)
    requires
        a.len() >= 1,
        b.len() >= 1,
    ensures
        join_lines(a + b) == join_lines(a) + seq!['\n'] + join_lines(b),
    decreases b.len(),
{
    if b.len() == 1 {
        assert((a + b).drop_last() =~= a);
        assert((a + b).last() == b[0]);
    } else {
        assert((a + b).drop_last() =~= a + b.drop_last());
        lemma_join_concat(a, b.drop_last());
        assert(join_lines(b) == join_lines(b.drop_last()) + seq!['\n'] + b.last());
        assert(join_lines(a + b) =~= join_lines(a) + seq!['\n'] + join_lines(b));
    }
}

/// The joined text around one line.
pub proof fn lemma_join_at(t: Seq<Seq<char>>, l: int)
    requires
        0 <= l < t.len(),
    ensures
        join_lines(t) == text_before(t, l) + t[l] + text_after(t, l),
{
    let one = seq![t[l]];
    assert(join_lines(one) == t[l]);
    if l == 0 {
        if t.len() == 1 {
            assert(join_lines(t) =~= text_before(t, l) + t[l] + text_after(t, l));
        } else {
            assert(t =~= one + t.skip(1));
            lemma_join_concat(one, t.skip(1));
            assert(join_lines(t) =~= text_before(t, l) + t[l] + text_after(t, l));
        }
    } else {
        if l + 1 == t.len() {
            assert(t =~= t.take(l) + one);
            lemma_join_concat(t.take(l), one);
            assert(join_lines(t) =~= text_before(t, l) + t[l] + text_after(t, l));
        } else {
            assert(t =~= t.take(l) + one + t.skip(l + 1));
            lemma_join_concat(t.take(l), one);
            lemma_join_concat(t.take(l) + one, t.skip(l + 1));
            assert(join_lines(t) =~= text_before(t, l) + t[l] + text_after(t, l));
        }
    }
}

/// The parts around line `l` do not depend on line `l` itself.
pub proof fn lemma_around_update(t: Seq<Seq<char>>, l: int, x: Seq<char>)
    requires
        0 <= l < t.len(),
    ensures
        text_before(t.update(l, x), l) == text_before(t, l),
        text_after(t.update(l, x), l) == text_after(t, l),
        join_lines(t.update(l, x)) == text_before(t, l) + x + text_after(t, l),
{
    assert(t.update(l, x).take(l) =~= t.take(l));
    assert(t.update(l, x).skip(l + 1) =~= t.skip(l + 1));
    lemma_join_at(t.update(l, x), l);
}

/// Each line is no longer than the joined text.
pub proof fn lemma_line_len_le_join(t: Seq<Seq<char>>, l: int)
    requires
        0 <= l < t.len(),
    ensures
        t[l].len() <= join_lines(t).len(),
{
    lemma_join_at(t, l);
}

/// A list of lines has at most one more line than its joined text has characters.
pub proof fn lemma_line_count_le_join(t: Seq<Seq<char>>)
    ensures
        t.len() <= join_lines(t).len() + 1,
    decreases t.len(),
{
    if t.len() > 1 {
        lemma_line_count_le_join(t.drop_last());
    }
}

/// Joining the pieces of a split gives the text back.
pub proof fn lemma_join_split(s: Seq<char>)
    ensures
        split_lines(s).len() >= 1,
        join_lines(split_lines(s)) == s,
        forall|i: int| 0 <= i < split_lines(s).len() ==> no_newline(#[trigger] split_lines(s)[i]),
    decreases s.len(),
{
    if s.len() > 0 {
        let p = s.drop_last();
        lemma_join_split(p);
        let r = split_lines(p);
        if s.last() == '\n' {
            assert(r.push(seq![]).drop_last() =~= r);
            assert(join_lines(r.push(seq![])) =~= s);
        } else {
            let n = r.len() - 1;
            let r2 = r.update(n, r.last().push(s.last()));
            assert(s =~= p.push(s.last()));
            if r.len() == 1 {
                assert(join_lines(r2) =~= s);
            } else {
                assert(r2.drop_last() =~= r.drop_last());
                assert(r2.len() == r.len());
                assert(join_lines(r) == join_lines(r.drop_last()) + seq!['\n'] + r.last());
                assert(join_lines(r2) == join_lines(r2.drop_last()) + seq!['\n'] + r2.last());
                assert(join_lines(r2) =~= s);
            }
            assert forall|i: int| 0 <= i < r2.len() implies no_newline(#[trigger] r2[i]) by {
                if i == n {
                    assert(no_newline(r[n]));
                }
            }
        }
    }
}

/// Splitting the join of newline-free lines gives the lines back.
pub proof fn lemma_split_join(t: Seq<Seq<char>>)
    requires
        t.len() >= 1,
        forall|i: int| 0 <= i < t.len() ==> no_newline(#[trigger] t[i]),
    ensures
        split_lines(join_lines(t)) == t,
    decreases t.len(),
{
    if t.len() == 1 {
        lemma_split_no_newline(t[0]);
    } else {
        let p = t.drop_last();
        lemma_split_join(p);
        lemma_split_append(join_lines(p), t.last());
        assert(split_lines(join_lines(p) + seq!['\n']) == split_lines(join_lines(p)).push(seq![])) by {
            assert((join_lines(p) + seq!['\n']).drop_last() =~= join_lines(p));
        }
        assert(p.push(seq![]).update(p.len() as int, t.last()) =~= t);
    }
}

/// Splitting text without a newline gives the single piece.
pub proof fn lemma_split_no_newline(s: Seq<char>)
    requires
        no_newline(s),
    ensures
        split_lines(s) == seq![s],
    decreases s.len(),
{
    if s.len() == 0 {
        assert(s =~= Seq::<char>::empty());
    } else {
        assert(s[s.len() - 1] != '\n');
        assert(no_newline(s.drop_last())) by {
            assert forall|i: int| 0 <= i < s.drop_last().len() implies s.drop_last()[i] != '\n' by {
                assert(s.drop_last()[i] == s[i]);
            }
        }
        lemma_split_no_newline(s.drop_last());
        assert(s =~= s.drop_last().push(s.last()));
        assert(seq![s.drop_last()].update(0, s.drop_last().push(s.last())) =~= seq![s]);
    }
}

/// Appending newline-free text after a newline extends the last piece.
proof fn lemma_split_append(a: Seq<char>, b: Seq<char>)
    requires
        no_newline(b),
    ensures
        split_lines(a + seq!['\n'] + b) == split_lines(a + seq!['\n']).update(
            split_lines(a + seq!['\n']).len() - 1,
            b,
        ),
        split_lines(a + seq!['\n']).last() == Seq::<char>::empty(),
    decreases b.len(),
{
    let an = a + seq!['\n'];
    assert(an.drop_last() =~= a);
    assert(an.last() == '\n');
    assert(split_lines(an) == split_lines(a).push(seq![]));
    if b.len() == 0 {
        assert(an + b =~= an);
        assert(b =~= Seq::<char>::empty());
        let r = split_lines(an);
        assert(r.update(r.len() - 1, b) =~= r);
    } else {
        assert(b[b.len() - 1] != '\n');
        assert(no_newline(b.drop_last())) by {
            assert forall|i: int| 0 <= i < b.drop_last().len() implies b.drop_last()[i] != '\n' by {
                assert(b.drop_last()[i] == b[i]);
            }
        }
        lemma_split_append(a, b.drop_last());
        assert((an + b).drop_last() =~= an + b.drop_last());
        assert((an + b).last() == b.last());
        assert(b.drop_last().push(b.last()) =~= b);
        let r = split_lines(an);
        let r1 = split_lines(an + b.drop_last());
        assert(r1 == r.update(r.len() - 1, b.drop_last()));
        assert(split_lines(an + b) == r1.update(r1.len() - 1, r1.last().push(b.last())));
        assert(r.update(r.len() - 1, b.drop_last()).update(r.len() - 1, b.drop_last().push(b.last()))
            =~= r.update(r.len() - 1, b));
    }
}

// ── Executable helpers ────────────────────────────────────────────────────────

/// Appends `c` to `s`.
/// Trusted: `String::push` appends the character to the end of the string,
/// as std documents it.
#[verifier::external_body]
pub(crate) fn push_char(s: &mut String, c: char)
    ensures
        final(s)@ == old(s)@.push(c),
{
    s.push(c)
}

/// Number of characters in `s`.
pub fn char_count(s: &str) -> (n: usize)
    ensures
        n == s@.len(),
{
    s.unicode_len()
}

/// The characters of `s` in positions `from..to`, as a new string.
pub fn substring(s: &str, from: usize, to: usize) -> (r: String)
    requires
        from <= to <= s@.len(),
    ensures
        r@ == s@.subrange(from as int, to as int),
{
    s.substring_char(from, to).to_owned()
}

/// The character at position `i` of `s`.
pub fn char_at(s: &str, i: usize) -> (c: char)
    requires
        i < s@.len(),
    ensures
        c == s@[i as int],
{
    s.get_char(i)
}

/// `a` followed by `b`, as a new string.
pub fn concat(a: &str, b: &str) -> (r: String)
    ensures
        r@ == a@ + b@,
{
    let mut r = a.to_owned();
    r.append(b);
    r
}

/// `s` with the characters in positions `from..to` replaced by `mid`.
pub fn replace_range(s: &str, from: usize, to: usize, mid: &str) -> (r: String)
    requires
        from <= to <= s@.len(),
    ensures
        r@ == s@.take(from as int) + mid@ + s@.skip(to as int),
{
    let len = char_count(s);
    let mut r = substring(s, 0, from);
    r.append(mid);
    let tail = substring(s, to, len);
    r.append(tail.as_str());
    proof {
        assert(s@.take(from as int) =~= s@.subrange(0, from as int));
        assert(s@.skip(to as int) =~= s@.subrange(to as int, len as int));
    }
    r
}

/// `s` without the characters in positions `from..to`.
pub fn cut_out(s: &str, from: usize, to: usize) -> (r: String)
    requires
        from <= to <= s@.len(),
    ensures
        r@ == s@.take(from as int) + s@.skip(to as int),
{
    let len = char_count(s);
    let head = substring(s, 0, from);
    let tail = substring(s, to, len);
    proof {
        assert(s@.take(from as int) =~= s@.subrange(0, from as int));
        assert(s@.skip(to as int) =~= s@.subrange(to as int, len as int));
    }
    concat(head.as_str(), tail.as_str())
}

/// A string holding `c` alone.
pub fn char_string(c: char) -> (r: String)
    ensures
        r@ == seq![c],
{
    let mut r = String::new();
    push_char(&mut r, c);
    proof {
        assert(r@ =~= seq![c]);
    }
    r
}

/// The characters of `s`, in order.
pub fn chars_of(s: &str) -> (v: Vec<char>)
    ensures
        v@ == s@,
{
    broadcast use vstd::string::group_string_axioms;

    let mut v: Vec<char> = Vec::new();
    for c in it: s.chars()
        invariant
            v@ == it.seq().take(it.index()),
    {
        v.push(c);
        proof {
            assert(v@ =~= it.seq().take(it.index() + 1));
        }
    }
    proof {
        assert(v@ =~= s@);
    }
    v
}

/// The pieces of `s` between its `'\n'` characters.
pub fn split_newlines(s: &str) -> (v: Vec<String>)
    ensures
        string_views(v@) == split_lines(s@),
{
    let cs = chars_of(s);
    let mut done: Vec<String> = Vec::new();
    let mut cur = String::new();
    let mut i: usize = 0;
    proof {
        assert(s@.take(0) =~= Seq::<char>::empty());
        assert(string_views(done@.push(cur)) =~= split_lines(s@.take(0)));
    }
    while i < cs.len()
        invariant
            cs@ == s@,
            i <= cs.len(),
            string_views(done@.push(cur)) == split_lines(s@.take(i as int)),
        decreases cs.len() - i,
    {
        let c = cs[i];
        let ghost before = string_views(done@.push(cur));
        proof {
            assert(s@.take(i + 1).drop_last() =~= s@.take(i as int));
            assert(s@.take(i + 1).last() == c);
        }
        if c == '\n' {
            done.push(cur);
            cur = String::new();
            proof {
                assert(string_views(done@.push(cur)) =~= before.push(seq![]));
            }
        } else {
            push_char(&mut cur, c);
            proof {
                assert(string_views(done@.push(cur)) =~= before.update(
                    before.len() - 1,
                    before.last().push(c),
                ));
            }
        }
        i = i + 1;
    }
    done.push(cur);
    proof {
        assert(s@.take(cs@.len() as int) =~= s@);
    }
    done
}

/// The lines of `content` as `str::lines` yields them.
pub fn lines_of(content: &str) -> (v: Vec<String>)
    ensures
        string_views(v@) == file_lines(content@),
{
    let pieces = split_newlines(content);
    let ghost ps = string_views(pieces@);
    proof {
        lemma_join_split(content@);
    }
    let n = pieces.len();
    let mut out: Vec<String> = Vec::new();
    let mut i: usize = 0;
    while i + 1 < n
        invariant
            ps == string_views(pieces@),
            ps == split_lines(content@),
            n == pieces.len(),
            n >= 1,
            i + 1 <= n,
            string_views(out@) == ps.take(i as int).map_values(|p: Seq<char>| strip_cr(p)),
        decreases n - i,
    {
        let p = &pieces[i];
        let len = char_count(p.as_str());
        let line = if len > 0 && char_at(p.as_str(), len - 1) == '\r' {
            substring(p.as_str(), 0, len - 1)
        } else {
            p.clone()
        };
        proof {
            assert(p@ == ps[i as int]);
            assert(p@.drop_last() =~= p@.subrange(0, len - 1));
            assert(line@ == strip_cr(ps[i as int]));
        }
        let ghost prev = out@;
        out.push(line);
        proof {
            assert(ps.take(i + 1) =~= ps.take(i as int).push(ps[i as int]));
            assert(string_views(out@) =~= string_views(prev).push(line@));
            assert(ps.take(i + 1).map_values(|p: Seq<char>| strip_cr(p)) =~= ps.take(
                i as int,
            ).map_values(|p: Seq<char>| strip_cr(p)).push(strip_cr(ps[i as int])));
            assert(string_views(out@) =~= ps.take(i + 1).map_values(|p: Seq<char>| strip_cr(p)));
        }
        i = i + 1;
    }
    proof {
        assert(ps.take(i as int) =~= ps.drop_last());
    }
    let last = &pieces[n - 1];
    if char_count(last.as_str()) > 0 {
        out.push(last.clone());
        proof {
            assert(string_views(out@) =~= file_lines(content@));
        }
    }
    out
}

/// The lines `v` joined with `'\n'`.
pub fn join_with_newlines(v: &Vec<String>) -> (r: String)
    ensures
        r@ == join_lines(string_views(v@)),
{
    let mut r = String::new();
    let mut i: usize = 0;
    proof {
        assert(string_views(v@).take(0) =~= Seq::<Seq<char>>::empty());
    }
    while i < v.len()
        invariant
            i <= v.len(),
            r@ == join_lines(string_views(v@).take(i as int)),
        decreases v.len() - i,
    {
        let ghost t = string_views(v@).take(i + 1);
        proof {
            assert(t.drop_last() =~= string_views(v@).take(i as int));
            assert(t.last() == v@[i as int]@);
        }
        if i > 0 {
            push_char(&mut r, '\n');
        }
        r.append(v[i].as_str());
        proof {
            if i == 0 {
                assert(r@ =~= join_lines(t));
            } else {
                assert(r@ =~= join_lines(t));
            }
        }
        i = i + 1;
    }
    proof {
        assert(string_views(v@).take(v@.len() as int) =~= string_views(v@));
    }
    r
}

/// Length of the run of spaces and tabs that starts `s`.
pub fn leading_indent_len(s: &str) -> (n: usize)
    ensures
        n == indent_len(s@),
{
    let len = char_count(s);
    let mut i: usize = 0;
    while i < len
        invariant
            len == s@.len(),
            i <= len,
            indent_end_from(s@, i as int) == indent_end_from(s@, 0),
        ensures
            indent_end_from(s@, 0) == i,
        decreases len - i,
    {
        let c = char_at(s, i);
        if !(c == ' ' || c == '\t') {
            assert(indent_end_from(s@, i as int) == i);
            break;
        }
        i = i + 1;
    }
    i
}

} // verus!
