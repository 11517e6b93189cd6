//! Words of a buffer: splitting text into words, ordering strings, and the
//! word completions offered when no language server answers.
use vstd::prelude::*;
use vstd::utf8::encode_utf8;
use crate::chars::is_alphanumeric;
use crate::model::is_word_char;
use crate::text::{chars_of, push_char, string_views};

verus! {

// ── Splitting into words ──────────────────────────────────────────────────────

/// The pieces of `s` between characters that are not word characters
/// (`str::split` on such characters): at least one piece, possibly empty ones.
pub open spec fn split_words(s: Seq<char>) -> Seq<Seq<char>>
    decreases s.len(),
{
    if s.len() == 0 {
        seq![seq![]]
    } else {
        let r = split_words(s.drop_last());
        if !is_word_char(s.last()) {
            r.push(seq![])
        } else {
            r.update(r.len() - 1, r.last().push(s.last()))
        }
    }
}

/// The pieces of every line, line after line.
pub open spec fn all_words(t: Seq<Seq<char>>) -> Seq<Seq<char>>
    decreases t.len(),
{
    if t.len() == 0 {
        seq![]
    } else {
        all_words(t.drop_last()) + split_words(t.last())
    }
}

/// The pieces of `s` between characters that are not word characters.
pub fn split_words_of(s: &str) -> (v: Vec<String>)
    ensures
        string_views(v@) == split_words(s@),
{
    let cs = chars_of(s);
    let mut done: Vec<String> = Vec::new();
    let mut cur = String::new();
    let mut i: usize = 0;
    proof {
        assert(s@.take(0) =~= Seq::<char>::empty());
        assert(string_views(done@.push(cur)) =~= split_words(s@.take(0)));
    }
    while i < cs.len()
        invariant
            cs@ == s@,
            i <= cs.len(),
            string_views(done@.push(cur)) == split_words(s@.take(i as int)),
        decreases cs.len() - i,
    {
        let c = cs[i];
        let ghost before = string_views(done@.push(cur));
        proof {
            assert(s@.take(i + 1).drop_last() =~= s@.take(i as int));
            assert(s@.take(i + 1).last() == c);
        }
        if !(is_alphanumeric(c) || c == '_') {
            done.push(cur);
            cur = String::new();
            proof {
                assert(string_views(done@.push(cur)) =~= before.push(seq![]));
            }
        } else {
            push_char(&mut cur, c);
            proof {
                assert(string_views(done@.push(cur)) =~= before.update(
                    before.len() - 1,
                    before.last().push(c),
                ));
            }
        }
        i = i + 1;
    }
    done.push(cur);
    proof {
        assert(s@.take(cs@.len() as int) =~= s@);
    }
    done
}

// ── Ordering strings ──────────────────────────────────────────────────────────

/// Lexicographic order of character sequences by code point.
pub open spec fn seq_lt(a: Seq<char>, b: Seq<char>) -> bool
    decreases a.len(),
{
    if a.len() == 0 {
        b.len() > 0
    } else if b.len() == 0 {
        false
    } else if a[0] != b[0] {
        a[0] < b[0]
    } else {
        seq_lt(a.drop_first(), b.drop_first())
    }
}

/// Each sequence comes strictly before the next.
pub open spec fn strictly_sorted(ws: Seq<Seq<char>>) -> bool {
    forall|i: int, j: int| 0 <= i < j < ws.len() ==> seq_lt(#[trigger] ws[i], #[trigger] ws[j])
}

pub proof fn lemma_seq_lt_irreflexive(a: Seq<char>)
    ensures
        !seq_lt(a, a),
    decreases a.len(),
{
    if a.len() > 0 {
        lemma_seq_lt_irreflexive(a.drop_first());
    }
}

pub proof fn lemma_seq_lt_transitive(a: Seq<char>, b: Seq<char>, c: Seq<char>)
    requires
        seq_lt(a, b),
        seq_lt(b, c),
    ensures
        seq_lt(a, c),
    decreases a.len(),
{
    if a.len() > 0 && b.len() > 0 && c.len() > 0 {
        if a[0] == b[0] && b[0] == c[0] {
            lemma_seq_lt_transitive(a.drop_first(), b.drop_first(), c.drop_first());
        }
    }
}

pub proof fn lemma_seq_lt_total(a: Seq<char>, b: Seq<char>)
    requires
        a != b,
    ensures
        seq_lt(a, b) || seq_lt(b, a),
    decreases a.len(),
{
    if a.len() == 0 {
        if b.len() == 0 {
            assert(a =~= b);
        }
    } else if b.len() > 0 {
        if a[0] == b[0] {
            if a.drop_first() == b.drop_first() {
                assert(a =~= seq![a[0]] + a.drop_first());
                assert(b =~= seq![b[0]] + b.drop_first());
            }
            lemma_seq_lt_total(a.drop_first(), b.drop_first());
        }
    }
}

pub proof fn lemma_seq_lt_asymmetric(a: Seq<char>, b: Seq<char>)
    requires
        seq_lt(a, b),
    ensures
        !seq_lt(b, a),
{
    if seq_lt(b, a) {
        lemma_seq_lt_transitive(a, b, a);
        lemma_seq_lt_irreflexive(a);
    }
}

/// Comparing past an equal beginning.
proof fn lemma_seq_lt_skip(a: Seq<char>, b: Seq<char>, i: int)
    requires
        0 <= i <= a.len(),
        i <= b.len(),
        a.take(i) == b.take(i),
    ensures
        seq_lt(a, b) == seq_lt(a.skip(i), b.skip(i)),
    decreases i,
{
    if i > 0 {
        assert(a[0] == a.take(i)[0]);
        assert(b[0] == b.take(i)[0]);
        assert(seq_lt(a, b) == seq_lt(a.drop_first(), b.drop_first()));
        assert(a.drop_first().take(i - 1) =~= a.take(i).drop_first());
        assert(b.drop_first().take(i - 1) =~= b.take(i).drop_first());
        lemma_seq_lt_skip(a.drop_first(), b.drop_first(), i - 1);
        assert(a.drop_first().skip(i - 1) =~= a.skip(i));
        assert(b.drop_first().skip(i - 1) =~= b.skip(i));
    } else {
        assert(a.skip(0) =~= a);
        assert(b.skip(0) =~= b);
    }
}

/// Whether `a` comes strictly before `b`.
pub fn str_less(a: &str, b: &str) -> (r: bool)
    ensures
        r == seq_lt(a@, b@),
{
    let ca = chars_of(a);
    let cb = chars_of(b);
    let mut i: usize = 0;
    while i < ca.len() && i < cb.len() && ca[i] == cb[i]
        invariant
            ca@ == a@,
            cb@ == b@,
            i <= ca.len(),
            i <= cb.len(),
            a@.take(i as int) == b@.take(i as int),
        decreases ca.len() - i,
    {
        proof {
            assert(a@.take(i + 1) =~= a@.take(i as int).push(a@[i as int]));
            assert(b@.take(i + 1) =~= b@.take(i as int).push(b@[i as int]));
        }
        i = i + 1;
    }
    proof {
        lemma_seq_lt_skip(a@, b@, i as int);
    }
    if i == ca.len() {
        i < cb.len()
    } else if i == cb.len() {
        false
    } else {
        proof {
            assert(a@.skip(i as int)[0] == a@[i as int]);
            assert(b@.skip(i as int)[0] == b@[i as int]);
        }
        ca[i] < cb[i]
    }
}

/// Whether `p` begins `s`.
pub fn starts_with(s: &str, p: &str) -> (r: bool)
    ensures
        r == (p@.len() <= s@.len() && s@.take(p@.len() as int) == p@),
{
    let cs = chars_of(s);
    let cp = chars_of(p);
    if cp.len() > cs.len() {
        return false;
    }
    let mut i: usize = 0;
    while i < cp.len()
        invariant
            cs@ == s@,
            cp@ == p@,
            cp.len() <= cs.len(),
            i <= cp.len(),
            s@.take(i as int) == p@.take(i as int),
        decreases cp.len() - i,
    {
        if cs[i] != cp[i] {
            proof {
                assert(s@.take(p@.len() as int)[i as int] == s@[i as int]);
            }
            return false;
        }
        proof {
            assert(s@.take(i + 1) =~= s@.take(i as int).push(s@[i as int]));
            assert(p@.take(i + 1) =~= p@.take(i as int).push(p@[i as int]));
        }
        i = i + 1;
    }
    proof {
        assert(p@.take(p@.len() as int) =~= p@);
    }
    true
}

// ── Completions from the buffer ───────────────────────────────────────────────

/// Lower-case form of `s`, as `str::to_lowercase` maps it.
pub uninterp spec fn lowercase(s: Seq<char>) -> Seq<char>;

/// Trusted: `str::to_lowercase` maps the text by Unicode's lower-case rules
/// (a capital sigma by its neighbours too), which depend on the text alone;
/// its result is named `lowercase(s)`.
#[verifier::external_body]
pub(crate) fn to_lowercase(s: &str) -> (r: String)
    ensures
        r@ == lowercase(s@),
{
    s.to_lowercase()
}

/// Number of bytes in the UTF-8 encoding of `s`, as `str::len` counts it.
pub open spec fn byte_len(s: Seq<char>) -> usize {
    encode_utf8(s).len() as usize
}

/// `w` is offered as a completion of `prefix`: it is longer (in bytes) and
/// begins with it, ignoring case.
pub open spec fn completes(prefix: Seq<char>, w: Seq<char>) -> bool {
    &&& byte_len(w) > byte_len(prefix)
    &&& lowercase(prefix).len() <= lowercase(w).len()
    &&& lowercase(w).take(lowercase(prefix).len() as int) == lowercase(prefix)
}

/// `w` is a word of the lines `t` that completes `prefix`.
pub open spec fn buffer_completion(t: Seq<Seq<char>>, prefix: Seq<char>, w: Seq<char>) -> bool {
    all_words(t).contains(w) && completes(prefix, w)
}

/// The completions offered for `prefix` from the lines `t`: none for a
/// prefix of fewer than two bytes; otherwise the first twenty, in order,
/// of the distinct buffer words that complete it.
pub open spec fn completions_offered(
    t: Seq<Seq<char>>,
    prefix: Seq<char>,
    ws: Seq<Seq<char>>,
) -> bool {
    if byte_len(prefix) < 2 {
        ws.len() == 0
    } else {
        &&& ws.len() <= 20
        &&& strictly_sorted(ws)
        &&& forall|i: int| 0 <= i < ws.len() ==> buffer_completion(t, prefix, #[trigger] ws[i])
        &&& forall|w: Seq<char>|
            buffer_completion(t, prefix, w) && !ws.contains(w) ==> ws.len() == 20 && seq_lt(
                ws[19],
                w,
            )
    }
}

/// Every word of the lines `t`, line after line.
fn collect_words(t: &Vec<String>) -> (v: Vec<String>)
    ensures
        string_views(v@) == all_words(string_views(t@)),
{
    let mut v: Vec<String> = Vec::new();
    let mut l: usize = 0;
    proof {
        assert(string_views(t@).take(0) =~= Seq::<Seq<char>>::empty());
        assert(string_views(v@) =~= all_words(string_views(t@).take(0)));
    }
    while l < t.len()
        invariant
            l <= t.len(),
            string_views(v@) == all_words(string_views(t@).take(l as int)),
        decreases t.len() - l,
    {
        let ws = split_words_of(t[l].as_str());
        let ghost before = string_views(v@);
        let mut k: usize = 0;
        while k < ws.len()
            invariant
                k <= ws.len(),
                string_views(v@) == before + string_views(ws@).take(k as int),
            decreases ws.len() - k,
        {
            let ghost prev = v@;
            v.push(ws[k].clone());
            proof {
                assert(string_views(ws@).take(k + 1) =~= string_views(ws@).take(k as int).push(
                    ws@[k as int]@,
                ));
                assert(string_views(v@) =~= string_views(prev).push(ws@[k as int]@));
                assert(string_views(v@) =~= before + string_views(ws@).take(k + 1));
            }
            k = k + 1;
        }
        proof {
            let tv = string_views(t@);
            assert(tv.take(l + 1).drop_last() =~= tv.take(l as int));
            assert(tv.take(l + 1).last() == t@[l as int]@);
            assert(string_views(ws@).take(ws@.len() as int) =~= string_views(ws@));
        }
        l = l + 1;
    }
    proof {
        assert(string_views(t@).take(t@.len() as int) =~= string_views(t@));
    }
    v
}

/// Inserts `w` into the strictly sorted `out` unless it is there already.
fn insert_sorted(out: &mut Vec<String>, w: String)
    requires
        strictly_sorted(string_views(old(out)@)),
    ensures
        strictly_sorted(string_views(final(out)@)),
        forall|x: Seq<char>|
            string_views(final(out)@).contains(x) <==> (string_views(old(out)@).contains(x) || x
                == w@),
{
    let ghost o = string_views(out@);
    let mut k: usize = 0;
    while k < out.len() && str_less(out[k].as_str(), w.as_str())
        invariant
            out@ == old(out)@,
            o == string_views(out@),
            k <= out.len(),
            forall|j: int| 0 <= j < k ==> seq_lt(#[trigger] o[j], w@),
        decreases out.len() - k,
    {
        k = k + 1;
    }
    if k < out.len() && out[k] == w {
        proof {
            assert(o[k as int] == w@);
        }
        return ;
    }
    proof {
        if k < o.len() {
            assert(!seq_lt(o[k as int], w@));
            assert(o[k as int] != w@);
            lemma_seq_lt_total(o[k as int], w@);
        }
    }
    out.insert(k, w);
    proof {
        let n = string_views(out@);
        assert(n =~= o.insert(k as int, w@));
        assert forall|i: int, j: int| 0 <= i < j < n.len() implies seq_lt(
            #[trigger] n[i],
            #[trigger] n[j],
        ) by {
            if j < k {
                assert(seq_lt(o[i], o[j]));
            } else if j == k {
                assert(seq_lt(o[i], w@));
            } else if i < k {
                assert(seq_lt(o[i], w@));
                if j - 1 > k {
                    assert(seq_lt(o[k as int], o[j - 1]));
                    lemma_seq_lt_transitive(w@, o[k as int], o[j - 1]);
                }
                lemma_seq_lt_transitive(o[i], w@, o[j - 1]);
            } else if i == k {
                if j - 1 > k {
                    assert(seq_lt(o[k as int], o[j - 1]));
                    lemma_seq_lt_transitive(w@, o[k as int], o[j - 1]);
                }
            } else {
                assert(seq_lt(o[i - 1], o[j - 1]));
            }
        }
        assert forall|x: Seq<char>| n.contains(x) <==> (o.contains(x) || x == w@) by {
            if n.contains(x) {
                let i = choose|i: int| 0 <= i < n.len() && n[i] == x;
                if i < k {
                    assert(o[i] == x);
                } else if i > k {
                    assert(o[i - 1] == x);
                }
            }
            if o.contains(x) {
                let i = choose|i: int| 0 <= i < o.len() && o[i] == x;
                if i < k {
                    assert(n[i] == x);
                } else {
                    assert(n[i + 1] == x);
                }
            }
            if x == w@ {
                assert(n[k as int] == x);
            }
        }
    }
}

/// Collect words from the buffer `lines` that start with `prefix`
/// (case-insensitive): the first twenty distinct ones in order.
pub fn word_completions(lines: &Vec<String>, prefix: &str) -> (r: Vec<String>)
    ensures
        completions_offered(string_views(lines@), prefix@, string_views(r@)),
{
    if prefix.len() < 2 {
        return Vec::new();
    }
    let ghost t = string_views(lines@);
    let prefix_lower = to_lowercase(prefix);
    let words = collect_words(lines);
    let ghost aw = string_views(words@);
    let mut results: Vec<String> = Vec::new();
    let mut j: usize = 0;
    while j < words.len()
        invariant
            aw == string_views(words@),
            aw == all_words(t),
            prefix_lower@ == lowercase(prefix@),
            j <= words.len(),
            strictly_sorted(string_views(results@)),
            forall|x: Seq<char>|
                #[trigger] string_views(results@).contains(x) <==> (aw.take(j as int).contains(x)
                    && completes(prefix@, x)),
        decreases words.len() - j,
    {
        let word = &words[j];
        let ghost before = string_views(results@);
        let keep = word.as_str().len() > prefix.len() && starts_with(
            to_lowercase(word.as_str()).as_str(),
            prefix_lower.as_str(),
        );
        proof {
            assert(word@ == aw[j as int]);
            assert(keep == completes(prefix@, word@));
        }
        if keep {
            insert_sorted(&mut results, word.clone());
        }
        proof {
            let now = string_views(results@);
            let t1 = aw.take(j + 1);
            let t0 = aw.take(j as int);
            assert(t1 =~= t0.push(aw[j as int]));
            assert forall|x: Seq<char>| now.contains(x) <==> (t1.contains(x) && completes(
                prefix@,
                x,
            )) by {
                assert(before.contains(x) <==> (t0.contains(x) && completes(prefix@, x)));
                if keep {
                    assert(now.contains(x) <==> (before.contains(x) || x == word@));
                } else {
                    assert(now == before);
                }
                if t1.contains(x) && !t0.contains(x) {
                    let i = choose|i: int| 0 <= i < t1.len() && t1[i] == x;
                    if i < j {
                        assert(t0[i] == x);
                    }
                }
                if t0.contains(x) {
                    let i = choose|i: int| 0 <= i < t0.len() && t0[i] == x;
                    assert(t1[i] == x);
                }
                if x == aw[j as int] {
                    assert(t1[j as int] == x);
                }
            }
        }
        j = j + 1;
    }
    let ghost full = string_views(results@);
    proof {
        assert(aw.take(words@.len() as int) =~= aw);
    }
    results.truncate(20);
    proof {
        let r = string_views(results@);
        assert(r =~= if full.len() <= 20 {
            full
        } else {
            full.take(20)
        });
        assert forall|i: int, j2: int| 0 <= i < j2 < r.len() implies seq_lt(
            #[trigger] r[i],
            #[trigger] r[j2],
        ) by {
            assert(seq_lt(full[i], full[j2]));
        }
        assert forall|i: int| 0 <= i < r.len() implies buffer_completion(t, prefix@, #[trigger] r[i]) by {
            assert(r[i] == full[i]);
            assert(full.contains(full[i]));
        }
        assert forall|w: Seq<char>| buffer_completion(t, prefix@, w) && !r.contains(w) implies r.len()
            == 20 && seq_lt(r[19], w) by {
            assert(full.contains(w));
            let i = choose|i: int| 0 <= i < full.len() && full[i] == w;
            if i < 20 {
                assert(r[i] == w);
            } else {
                assert(seq_lt(full[19], full[i]));
            }
        }
    }
    results
}

} // verus!
