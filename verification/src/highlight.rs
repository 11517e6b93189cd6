//! Incremental syntax highlighting: a per-file cache of highlighted lines and
//! of the parser states between them, re-highlighted from the first line
//! that changed until the parser state matches what it was.
use vstd::prelude::*;
use crate::render::{ColoredText, Rgb, colored_views};
use crate::text::{char_at, char_count, concat, no_newline, string_views, substring};
use syntect::highlighting::{HighlightState, Highlighter as SyntectHighlighter, Theme, ThemeSet};
use syntect::parsing::{ParseState, SyntaxSet};

verus! {

#[verifier::external_type_specification]
#[verifier::external_body]
pub struct ExSyntaxSet(SyntaxSet);

#[verifier::external_type_specification]
#[verifier::external_body]
pub struct ExThemeSet(ThemeSet);

#[verifier::external_type_specification]
#[verifier::external_body]
pub struct ExTheme(Theme);

#[verifier::external_type_specification]
#[verifier::external_body]
pub struct ExParseState(ParseState);

#[verifier::external_type_specification]
#[verifier::external_body]
pub struct ExHighlightState(HighlightState);


// ── Calls into syntect ────────────────────────────────────────────────────────

/// The names of the syntaxes in a syntax set, in its order.
pub uninterp spec fn syntax_set_names(ss: SyntaxSet) -> Seq<Seq<char>>;

/// Trusted: `SyntaxSet::load_defaults_newlines`, the syntaxes bundled with
/// syntect.  syntect documents this set together with its plain-text
/// fallback, a syntax named "Plain Text" that its documentation says should
/// always be present; the contract says that the set has it.
#[verifier::external_body]
fn default_syntaxes() -> (r: SyntaxSet)
    ensures
        syntax_set_names(r).contains("Plain Text"@),
{
    SyntaxSet::load_defaults_newlines()
}

/// The names of the themes in a theme set, in the order of its `themes` map.
pub uninterp spec fn theme_set_names(ts: ThemeSet) -> Seq<Seq<char>>;

/// Trusted: `ThemeSet::load_defaults`, the themes bundled with syntect; its
/// documentation names the keys of the map, which the contract lists.
#[verifier::external_body]
fn default_themes() -> (r: ThemeSet)
    ensures
        theme_set_names(r).contains("base16-ocean.dark"@),
        theme_set_names(r).contains("base16-eighties.dark"@),
        theme_set_names(r).contains("base16-mocha.dark"@),
        theme_set_names(r).contains("base16-ocean.light"@),
        theme_set_names(r).contains("InspiredGitHub"@),
        theme_set_names(r).contains("Solarized (dark)"@),
        theme_set_names(r).contains("Solarized (light)"@),
{
    ThemeSet::load_defaults()
}

/// Trusted: the theme named `name` in the set, looked up in its `themes`
/// map: there is one exactly when the name is a key of the map.
#[verifier::external_body]
fn theme_named<'a>(ts: &'a ThemeSet, name: &str) -> (r: Option<&'a Theme>)
    ensures
        r is Some <==> theme_set_names(*ts).contains(name@),
{
    ts.themes.get(name)
}

/// Trusted: the keys of the set's `themes` map, in its order.
#[verifier::external_body]
fn theme_keys(ts: &ThemeSet) -> (r: Vec<String>)
    ensures
        string_views(r@) == theme_set_names(*ts),
{
    ts.themes.keys().map(|k| k.clone()).collect()
}

/// The tokens, each with its foreground colour, that syntect gives the last
/// of `steps` when, starting from the parser state of the bundled syntax
/// that `SyntaxSet::find_syntax_by_name(syntax)` finds and the highlighting
/// state that a `Highlighter` of the bundled theme named `start_theme`
/// begins with, it parses each step's text in turn and highlights it with a
/// `Highlighter` of the bundled theme that the step names.
pub uninterp spec fn syntect_tokens(
    syntax: Seq<char>,
    start_theme: Seq<char>,
    steps: Seq<(Seq<char>, Seq<char>)>,
) -> Seq<(Rgb, Seq<char>)>;

/// The parser's and the highlighter's state after some lines, with what
/// made them: the syntax's name, the theme the highlighting state began
/// with, and the steps (theme, text) taken since.
pub struct LineStates {
    parse: ParseState,
    highlight: HighlightState,
    syntax: Ghost<Seq<char>>,
    start_theme: Ghost<Seq<char>>,
    steps: Ghost<Seq<(Seq<char>, Seq<char>)>>,
}

/// Trusted: the name of the syntax that `SyntaxSet::find_syntax_for_file`
/// finds, which goes by the file's name and extension and may read its first
/// line from disk (an I/O error counts as no syntax); a syntax it finds is
/// one of the set's.
#[verifier::external_body]
fn syntax_name_for_file(ss: &SyntaxSet, path: &str) -> (r: Option<String>)
    ensures
        r matches Some(n) ==> syntax_set_names(*ss).contains(n@),
{
    ss.find_syntax_for_file(path).ok().flatten().map(|s| s.name.clone())
}

/// Trusted: the states before a file's first line: `ParseState::new` for the
/// syntax that `SyntaxSet::find_syntax_by_name` finds (there is one exactly
/// where a syntax of the set has that name), and `HighlightState::new` with
/// an empty scope stack for a `Highlighter` of the theme named `theme`
/// (which `requires` puts in the set, so that indexing the map cannot panic).
#[verifier::external_body]
fn start_states(ss: &SyntaxSet, syntax: &str, ts: &ThemeSet, theme: &str) -> (r: Option<LineStates>)
    requires
        theme_set_names(*ts).contains(theme@),
    ensures
        r is Some <==> syntax_set_names(*ss).contains(syntax@),
        r matches Some(st) ==> st.syntax@ == syntax@ && st.start_theme@ == theme@ && st.steps@.len() == 0,
{
    let found = ss.find_syntax_by_name(syntax)?;
    let h = SyntectHighlighter::new(&ts.themes[theme]);
    Some(LineStates {
        parse: ParseState::new(found),
        highlight: HighlightState::new(&h, syntect::parsing::ScopeStack::new()),
        syntax: Ghost(syntax@),
        start_theme: Ghost(theme@),
        steps: Ghost(Seq::empty()),
    })
}

/// Trusted: one line through syntect: `ParseState::parse_line` advances
/// the parser over `text` (a parse error counts as no scope changes), and
/// `HighlightIterator`, with a `Highlighter` of the theme named `theme`,
/// turns those changes into tokens of `text`, each with its foreground
/// colour; the tokens are named `syntect_tokens` of the steps so far and
/// this one.  Each token is the text from where the last one ended to the
/// next scope change, so the tokens' texts, one after the other, begin the
/// text.  syntect documents that they make up all of it; its source ends
/// them early where restoring cleared scopes fails, so the contract claims
/// the beginning only.  syntect documents that `parse_line` may panic when
/// given a syntax set other than the one the state was made from: every
/// state here comes from `start_states` on a `Highlighter`'s set, and every
/// `Highlighter` holds the same bundled set.
#[verifier::external_body]
fn highlight_line(st: &mut LineStates, text: &str, ss: &SyntaxSet, ts: &ThemeSet, theme: &str) -> (r: Vec<ColoredText>)
    requires
        theme_set_names(*ts).contains(theme@),
    ensures
        colored_views(r@) == syntect_tokens(
            old(st).syntax@,
            old(st).start_theme@,
            old(st).steps@.push((theme@, text@)),
        ),
        token_text(colored_views(r@)).is_prefix_of(text@),
        final(st).syntax == old(st).syntax,
        final(st).start_theme == old(st).start_theme,
        final(st).steps@ == old(st).steps@.push((theme@, text@)),
{
    let h = SyntectHighlighter::new(&ts.themes[theme]);
    let ops = st.parse.parse_line(text, ss).unwrap_or_default();
    syntect::highlighting::HighlightIterator::new(&mut st.highlight, &ops, text, &h).map(|(style, piece)| ColoredText {
        fg: Rgb { r: style.foreground.r, g: style.foreground.g, b: style.foreground.b },
        text: piece.to_string(),
    }).collect()
}

/// The texts of `steps`, in order.
pub open spec fn step_texts(steps: Seq<(Seq<char>, Seq<char>)>) -> Seq<Seq<char>> {
    steps.map_values(|st: (Seq<char>, Seq<char>)| st.1)
}

/// The parser state, as a number, that syntect's parser reaches from the
/// start of the bundled syntax that `SyntaxSet::find_syntax_by_name(syntax)`
/// finds after parsing `texts` in turn; two such states are equal exactly
/// when their numbers are.
pub uninterp spec fn parse_key(syntax: Seq<char>, texts: Seq<Seq<char>>) -> int;

/// Trusted: `ParseState`'s `==` (derived) on the parser states.  A parser
/// state is what parsing the texts so far from the syntax's start made of
/// it, so the comparison is named by `parse_key` of each side's syntax and
/// texts.
#[verifier::external_body]
fn same_parse_state(a: &LineStates, b: &LineStates) -> (r: bool)
    ensures
        r == (parse_key(a.syntax@, step_texts(a.steps@)) == parse_key(b.syntax@, step_texts(b.steps@))),
{
    a.parse == b.parse
}

/// Trusted: `ParseState`'s and `HighlightState`'s `clone`, which keep the
/// states as they are.
#[verifier::external_body]
fn copy_states(st: &LineStates) -> (r: LineStates)
    ensures
        r.syntax == st.syntax,
        r.start_theme == st.start_theme,
        r.steps == st.steps,
{
    LineStates {
        parse: st.parse.clone(),
        highlight: st.highlight.clone(),
        syntax: Ghost(st.syntax@),
        start_theme: Ghost(st.start_theme@),
        steps: Ghost(st.steps@),
    }
}

// ── What the cache holds ──────────────────────────────────────────────────────

/// The texts of the tokens, one after the other.
pub open spec fn token_text(ts: Seq<(Rgb, Seq<char>)>) -> Seq<char>
    decreases ts.len(),
{
    if ts.len() == 0 {
        seq![]
    } else {
        token_text(ts.drop_last()) + ts.last().1
    }
}

/// `s` without the `'\n'`s at its end (`str::trim_end_matches('\n')`).
pub open spec fn trim_newlines(s: Seq<char>) -> Seq<char>
    decreases s.len(),
{
    if s.len() > 0 && s.last() == '\n' {
        trim_newlines(s.drop_last())
    } else {
        s
    }
}

pub open spec fn trimmed(ts: Seq<(Rgb, Seq<char>)>) -> Seq<(Rgb, Seq<char>)> {
    ts.map_values(|t: (Rgb, Seq<char>)| (t.0, trim_newlines(t.1)))
}

pub open spec fn span_views(v: Seq<Vec<ColoredText>>) -> Seq<Seq<(Rgb, Seq<char>)>> {
    v.map_values(|l: Vec<ColoredText>| colored_views(l@))
}

/// After re-highlighting from line `from`: the lines from `from` to `k`
/// (at least line `from`, where there is one) are
/// freshly highlighted (the spans of each newline-free one spell its beginning), the
/// lines from `k` on keep their old highlighting, which happens only when
/// the number of lines did not change.
pub open spec fn highlighted_until(
    new: Seq<Seq<(Rgb, Seq<char>)>>,
    old: Seq<Seq<(Rgb, Seq<char>)>>,
    lines: Seq<Seq<char>>,
    from: int,
    k: int,
) -> bool {
    &&& (if from < lines.len() { from + 1 } else { lines.len() as int }) <= k <= lines.len()
    &&& forall|j: int|
        from <= j < k && no_newline(lines[j]) ==> token_text(#[trigger] new[j]).is_prefix_of(lines[j])
    &&& forall|j: int| k <= j < lines.len() ==> #[trigger] new[j] == old[j]
    &&& (k < lines.len() ==> lines.len() == old.len())
}

pub struct Highlighter {
    ss: SyntaxSet,
    ts: ThemeSet,
    pub theme_name: String,
}

/// Per-file incremental highlight cache.
/// Stores the highlighted spans and parser states for each line.
pub struct HighlightCache {
    /// Highlighted spans for each line.
    pub spans: Vec<Vec<ColoredText>>,
    /// The states before line 0.
    initial: LineStates,
    /// The states after line i — used to resume from line i+1.
    states: Vec<LineStates>,
}

impl HighlightCache {
    /// The highlighted lines: for each, its pieces with their colours.
    pub closed spec fn lines_view(&self) -> Seq<Seq<(Rgb, Seq<char>)>> {
        span_views(self.spans@)
    }

    /// The name of the syntax it parses with.
    pub closed spec fn syntax(&self) -> Seq<char> {
        self.initial.syntax@
    }

    /// The theme its highlighting began with.
    pub closed spec fn start_theme(&self) -> Seq<char> {
        self.initial.start_theme@
    }

    /// The steps (theme, text) that the parser had taken before line `i`.
    pub closed spec fn steps_before(&self, i: int) -> Seq<(Seq<char>, Seq<char>)> {
        if i <= 0 {
            self.initial.steps@
        } else {
            self.states@[i - 1].steps@
        }
    }

    /// One state after each cached line, all of the same syntax and start.
    pub closed spec fn wf(&self) -> bool {
        &&& self.states@.len() == self.spans@.len()
        &&& self.initial.steps@.len() == 0
        &&& forall|i: int|
            0 <= i < self.states@.len() ==> (#[trigger] self.states@[i]).syntax == self.initial.syntax
                && self.states@[i].start_theme == self.initial.start_theme
    }

    /// Number of cached lines.
    pub fn len(&self) -> (n: usize)
        ensures
            n == self.lines_view().len(),
    {
        self.spans.len()
    }
}

/// The steps of highlighting `lines`, each followed by `'\n'`, with `theme`.
pub open spec fn steps_of(theme: Seq<char>, lines: Seq<Seq<char>>) -> Seq<(Seq<char>, Seq<char>)> {
    lines.map_values(|l: Seq<char>| (theme, l.push('\n')))
}

// ── Proofs about trimming ─────────────────────────────────────────────────────

proof fn lemma_trim_no_newline(s: Seq<char>)
    requires
        no_newline(s),
    ensures
        trim_newlines(s) == s,
{
    if s.len() > 0 {
        assert(s[s.len() - 1] != '\n');
    }
}

/// Tokens of newline-free text are untouched by trimming.
proof fn lemma_trimmed_plain(ts: Seq<(Rgb, Seq<char>)>)
    requires
        no_newline(token_text(ts)),
    ensures
        token_text(trimmed(ts)) == token_text(ts),
    decreases ts.len(),
{
    if ts.len() > 0 {
        let p = ts.drop_last();
        let x = token_text(p);
        let y = ts.last().1;
        assert(token_text(ts) == x + y);
        assert(no_newline(x)) by {
            assert forall|i: int| 0 <= i < x.len() implies x[i] != '\n' by {
                assert((x + y)[i] == x[i]);
            }
        }
        assert(no_newline(y)) by {
            assert forall|i: int| 0 <= i < y.len() implies y[i] != '\n' by {
                assert((x + y)[x.len() + i] == y[i]);
            }
        }
        lemma_trimmed_plain(p);
        lemma_trim_no_newline(y);
        assert(trimmed(ts).drop_last() =~= trimmed(p));
    }
}

/// Tokens that spell a newline-free line followed by `'\n'`, trimmed,
/// spell the line.
proof fn lemma_trimmed_line(ts: Seq<(Rgb, Seq<char>)>, line: Seq<char>)
    requires
        token_text(ts) == line.push('\n'),
        no_newline(line),
    ensures
        token_text(trimmed(ts)) == line,
    decreases ts.len(),
{
    if ts.len() == 0 {
        assert(token_text(ts).len() == 0);
    } else {
        let p = ts.drop_last();
        let y = ts.last().1;
        assert(trimmed(ts).drop_last() =~= trimmed(p));
        assert(token_text(ts) == token_text(p) + y);
        if y.len() == 0 {
            assert(token_text(p) =~= line.push('\n'));
            lemma_trimmed_line(p, line);
            assert(trim_newlines(y) == y);
        } else {
            let x = token_text(p);
            assert(y.last() == '\n') by {
                assert((x + y)[x.len() + y.len() - 1] == y[y.len() - 1]);
            }
            assert(x + y.drop_last() =~= line) by {
                assert((x + y).drop_last() =~= x + y.drop_last());
            }
            assert(no_newline(y.drop_last())) by {
                assert forall|i: int| 0 <= i < y.drop_last().len() implies y.drop_last()[i] != '\n' by {
                    assert(line[x.len() + i] == y.drop_last()[i]);
                }
            }
            assert(no_newline(x)) by {
                assert forall|i: int| 0 <= i < x.len() implies x[i] != '\n' by {
                    assert(line[i] == x[i]);
                }
            }
            lemma_trim_no_newline(y.drop_last());
            assert(trim_newlines(y) == y.drop_last());
            lemma_trimmed_plain(p);
        }
    }
}

/// Tokens that begin a newline-free line followed by `'\n'`, trimmed,
/// begin the line.
proof fn lemma_trimmed_prefix(ts: Seq<(Rgb, Seq<char>)>, line: Seq<char>)
    requires
        token_text(ts).is_prefix_of(line.push('\n')),
        no_newline(line),
    ensures
        token_text(trimmed(ts)).is_prefix_of(line),
{
    let t = token_text(ts);
    if t =~= line.push('\n') {
        lemma_trimmed_line(ts, line);
    } else {
        assert(t.len() <= line.len()) by {
            if t.len() == line.len() + 1 {
                assert(t =~= line.push('\n'));
            }
        }
        assert(t =~= line.subrange(0, t.len() as int)) by {
            assert forall|i: int| 0 <= i < t.len() implies t[i] == line[i] by {
                assert(t[i] == line.push('\n')[i]);
            }
        }
        assert(no_newline(t)) by {
            assert forall|i: int| 0 <= i < t.len() implies t[i] != '\n' by {
                assert(t[i] == line[i]);
            }
        }
        lemma_trimmed_plain(ts);
    }
}

/// The tokens with the `'\n'`s at their ends removed.
fn trim_tokens(toks: Vec<ColoredText>) -> (r: Vec<ColoredText>)
    ensures
        colored_views(r@) == trimmed(colored_views(toks@)),
{
    let mut out: Vec<ColoredText> = Vec::new();
    let mut i: usize = 0;
    while i < toks.len()
        invariant
            i <= toks.len(),
            colored_views(out@) == trimmed(colored_views(toks@)).take(i as int),
        decreases toks.len() - i,
    {
        let t = &toks[i];
        let mut n = char_count(t.text.as_str());
        proof {
            assert(trim_newlines(t.text@) == trim_newlines(t.text@.take(n as int))) by {
                assert(t.text@.take(n as int) =~= t.text@);
            }
        }
        while n > 0 && char_at(t.text.as_str(), n - 1) == '\n'
            invariant
                n <= t.text@.len(),
                trim_newlines(t.text@) == trim_newlines(t.text@.take(n as int)),
            decreases n,
        {
            proof {
                assert(t.text@.take(n as int).drop_last() =~= t.text@.take(n - 1));
            }
            n = n - 1;
        }
        let text = substring(t.text.as_str(), 0, n);
        proof {
            assert(text@ =~= t.text@.take(n as int));
            assert(trim_newlines(text@) == text@);
        }
        let ghost prev = out@;
        out.push(ColoredText { fg: t.fg, text });
        proof {
            let tv = trimmed(colored_views(toks@));
            assert(tv[i as int] == (t.fg, trim_newlines(t.text@)));
            assert(tv.take(i + 1) =~= tv.take(i as int).push(tv[i as int]));
            assert(colored_views(out@) =~= colored_views(prev).push((t.fg, text@)));
        }
        i = i + 1;
    }
    proof {
        assert(trimmed(colored_views(toks@)).take(toks@.len() as int) =~= trimmed(
            colored_views(toks@),
        ));
    }
    out
}

impl Highlighter {
    /// The names of the themes it knows, in order.
    pub closed spec fn themes(&self) -> Seq<Seq<char>> {
        theme_set_names(self.ts)
    }

    /// The name of the theme it uses when it knows it.
    pub closed spec fn configured_theme(&self) -> Seq<char> {
        self.theme_name@
    }

    /// The names of the syntaxes it knows, in order.
    pub closed spec fn syntaxes(&self) -> Seq<Seq<char>> {
        syntax_set_names(self.ss)
    }

    /// It knows at least one theme, and a plain-text syntax.
    pub open spec fn wf(&self) -> bool {
        &&& self.themes().len() > 0
        &&& self.syntaxes().contains("Plain Text"@)
    }

    /// A highlighter with syntect's bundled syntaxes and themes, using the
    /// theme named `theme_name`.
    pub fn new(theme_name: &str) -> (h: Highlighter)
        ensures
            h.configured_theme() == theme_name@,
            h.themes().contains("base16-ocean.dark"@),
            h.themes().contains("base16-eighties.dark"@),
            h.themes().contains("base16-mocha.dark"@),
            h.themes().contains("base16-ocean.light"@),
            h.themes().contains("InspiredGitHub"@),
            h.themes().contains("Solarized (dark)"@),
            h.themes().contains("Solarized (light)"@),
            h.wf(),
    {
        let h = Highlighter {
            ss: default_syntaxes(),
            ts: default_themes(),
            theme_name: theme_name.to_owned(),
        };
        proof {
            assert(h.themes().contains("base16-ocean.dark"@));
        }
        h
    }

    /// The name of the theme in use: the configured one where it knows it,
    /// else its first.
    pub open spec fn theme_in_use(&self) -> Seq<char> {
        if self.themes().contains(self.configured_theme()) {
            self.configured_theme()
        } else {
            self.themes()[0]
        }
    }

    /// The name of the theme in use: the configured theme, else the first one.
    fn theme(&self) -> (r: String)
        requires
            self.wf(),
        ensures
            r@ == self.theme_in_use(),
            self.themes().contains(r@),
    {
        if theme_named(&self.ts, self.theme_name.as_str()).is_some() {
            self.theme_name.as_str().to_owned()
        } else {
            let keys = theme_keys(&self.ts);
            proof {
                assert(string_views(keys@)[0] == keys@[0]@);
            }
            keys[0].as_str().to_owned()
        }
    }

    /// An empty cache for the file at `path`: it parses with the syntax that
    /// syntect finds for the path (by its name and extension, or its first
    /// line on disk), else plain text, and its highlighting begins with the
    /// theme in use.
    pub fn new_cache(&self, path: &str) -> (c: HighlightCache)
        requires
            self.wf(),
        ensures
            c.lines_view().len() == 0,
            c.wf(),
            self.syntaxes().contains(c.syntax()),
            c.start_theme() == self.theme_in_use(),
            c.steps_before(0).len() == 0,
    {
        self.cache_for(syntax_name_for_file(&self.ss, path))
    }

    /// An empty cache that parses with the syntax named `found` where it
    /// knows one of that name, else plain text; its highlighting begins with
    /// the theme in use.
    pub fn cache_for(&self, found: Option<String>) -> (c: HighlightCache)
        requires
            self.wf(),
        ensures
            c.lines_view().len() == 0,
            c.wf(),
            c.syntax() == match found {
                Some(n) => if self.syntaxes().contains(n@) {
                    n@
                } else {
                    "Plain Text"@
                },
                None => "Plain Text"@,
            },
            c.start_theme() == self.theme_in_use(),
            c.steps_before(0).len() == 0,
    {
        let theme = self.theme();
        let plain = "Plain Text";
        let initial = match found {
            Some(name) => match start_states(&self.ss, name.as_str(), &self.ts, theme.as_str()) {
                Some(st) => st,
                None => start_states(&self.ss, plain, &self.ts, theme.as_str()).unwrap(),
            },
            None => start_states(&self.ss, plain, &self.ts, theme.as_str()).unwrap(),
        };
        HighlightCache { spans: Vec::new(), initial, states: Vec::new() }
    }

    /// Names of the available themes, in order.
    pub fn theme_names(&self) -> (r: Vec<String>)
        ensures
            string_views(r@) == self.themes(),
    {
        theme_keys(&self.ts)
    }

    /// Re-highlight lines starting from `from_line`, updating `cache` in place.
    /// Lines before `from_line` are left untouched.
    /// Each re-highlighted line gets syntect's highlighting of it, with the
    /// theme in use, after the steps the parser had taken before
    /// `from_line` and the lines since; its spans are its tokens with the
    /// line break taken off (they spell its beginning where it holds no
    /// `'\n'`).
    /// Stops early when the parser state after a line matches the cached state
    /// (meaning the rest of the file is unaffected): lines from there on keep
    /// their cached highlighting, which happens only when the number of
    /// lines is what the cache holds.
    pub fn highlight_from(&self, lines: &Vec<String>, from_line: usize, cache: &mut HighlightCache)
        requires
            self.wf(),
            old(cache).wf(),
            from_line <= old(cache).lines_view().len(),
        ensures
            final(cache).wf(),
            final(cache).lines_view().len() == lines@.len(),
            final(cache).syntax() == old(cache).syntax(),
            final(cache).start_theme() == old(cache).start_theme(),
            forall|j: int|
                0 <= j < from_line && j < lines@.len() ==> #[trigger] final(cache).lines_view()[j]
                    == old(cache).lines_view()[j],
            exists|k: int|
                #[trigger] highlighted_until(
                    final(cache).lines_view(),
                    old(cache).lines_view(),
                    string_views(lines@),
                    from_line as int,
                    k,
                ) && (forall|j: int|
                    from_line <= j < k ==> #[trigger] final(cache).lines_view()[j] == trimmed(
                        syntect_tokens(
                            old(cache).syntax(),
                            old(cache).start_theme(),
                            old(cache).steps_before(from_line as int) + steps_of(
                                self.theme_in_use(),
                                string_views(lines@).subrange(from_line as int, j + 1),
                            ),
                        ),
                    ) && (j + 1 < k ==> final(cache).steps_before(j + 1) == old(cache).steps_before(
                        from_line as int,
                    ) + steps_of(
                        self.theme_in_use(),
                        string_views(lines@).subrange(from_line as int, j + 1),
                    ))) && (k < lines@.len() ==> parse_key(
                    old(cache).syntax(),
                    step_texts(
                        old(cache).steps_before(from_line as int) + steps_of(
                            self.theme_in_use(),
                            string_views(lines@).subrange(from_line as int, k),
                        ),
                    ),
                ) == parse_key(old(cache).syntax(), step_texts(old(cache).steps_before(k)))),
    {
        // Early exit is only safe when no lines were inserted or deleted.
        let line_count_unchanged = lines.len() == cache.spans.len();
        let theme = self.theme();
        let ghost old_spans = span_views(cache.spans@);
        let ghost s0 = cache.spans@.len();
        let ghost before = cache.steps_before(from_line as int);
        let ghost tn = self.theme_in_use();
        let ghost lv = string_views(lines@);
        // Resume from the states just before from_line
        let mut cur = if from_line == 0 {
            copy_states(&cache.initial)
        } else {
            copy_states(&cache.states[from_line - 1])
        };
        let mut i = from_line;
        proof {
            if from_line <= lv.len() {
                assert(lv.subrange(from_line as int, from_line as int) =~= Seq::<Seq<char>>::empty());
                assert(before + steps_of(tn, lv.subrange(from_line as int, from_line as int)) =~= before);
            }
        }
        while i < lines.len()
            invariant
                cache.wf(),
                from_line <= i,
                from_line <= s0,
                line_count_unchanged == (lines@.len() == s0),
                old_spans.len() == s0,
                old_spans == span_views(old(cache).spans@),
                lv == string_views(lines@),
                tn == self.theme_in_use(),
                theme@ == tn,
                self.wf(),
                self.themes().contains(theme@),
                cache.syntax() == old(cache).syntax(),
                cache.start_theme() == old(cache).start_theme(),
                before == old(cache).steps_before(from_line as int),
                cur.syntax@ == old(cache).syntax(),
                cur.start_theme@ == old(cache).start_theme(),
                i <= lv.len() ==> cur.steps@ == before + steps_of(tn, lv.subrange(from_line as int, i as int)),
                cache.spans@.len() == if i > s0 { i as nat } else { s0 },
                forall|j: int|
                    0 <= j < from_line ==> #[trigger] span_views(cache.spans@)[j] == old_spans[j],
                forall|j: int|
                    from_line <= j < i && no_newline(lines@[j]@) ==> token_text(
                        #[trigger] span_views(cache.spans@)[j],
                    ).is_prefix_of(lines@[j]@),
                forall|j: int|
                    from_line <= j < i ==> #[trigger] span_views(cache.spans@)[j] == trimmed(
                        syntect_tokens(
                            old(cache).syntax(),
                            old(cache).start_theme(),
                            before + steps_of(tn, lv.subrange(from_line as int, j + 1)),
                        ),
                    ),
                forall|j: int|
                    from_line <= j < i ==> (#[trigger] cache.states@[j]).steps@ == before + steps_of(
                        tn,
                        lv.subrange(from_line as int, j + 1),
                    ),
                forall|j: int|
                    i <= j < cache.spans@.len() ==> #[trigger] span_views(cache.spans@)[j]
                        == old_spans[j],
                forall|j: int|
                    i <= j < cache.states@.len() ==> #[trigger] cache.states@[j] == old(cache).states@[j],
            decreases lines.len() - i,
        {
            let line_nl = concat(lines[i].as_str(), "\n");
            let ghost steps0 = cur.steps@;
            let toks = highlight_line(&mut cur, line_nl.as_str(), &self.ss, &self.ts, theme.as_str());
            let spans = trim_tokens(toks);
            proof {
                reveal_strlit("\n");
                assert(line_nl@ =~= lines@[i as int]@.push('\n'));
                assert(lv[i as int] == lines@[i as int]@);
                assert(lv.subrange(from_line as int, i + 1) =~= lv.subrange(from_line as int, i as int).push(lv[i as int]));
                assert(steps_of(tn, lv.subrange(from_line as int, i + 1)) =~= steps_of(tn, lv.subrange(from_line as int, i as int)).push((tn, line_nl@)));
                assert(cur.steps@ =~= before + steps_of(tn, lv.subrange(from_line as int, i + 1)));
                if no_newline(lines@[i as int]@) {
                    lemma_trimmed_prefix(colored_views(toks@), lines@[i as int]@);
                }
            }
            let ghost sv = colored_views(spans@);
            let ghost pv = span_views(cache.spans@);
            let ghost states0 = cache.states@;
            // Update or extend the spans cache
            if i < cache.spans.len() {
                cache.spans.set(i, spans);
                proof {
                    assert(span_views(cache.spans@) =~= pv.update(i as int, sv));
                }
            } else {
                cache.spans.push(spans);
                proof {
                    assert(span_views(cache.spans@) =~= pv.push(sv));
                }
            }
            let ghost nv = span_views(cache.spans@);
            let ghost here = before + steps_of(tn, lv.subrange(from_line as int, i + 1));
            proof {
                assert(nv[i as int] == sv);
                assert forall|j: int| 0 <= j < nv.len() && j != i implies #[trigger] nv[j] == pv[j] by {}
                assert(cur.steps@ == here);
                assert(sv == trimmed(syntect_tokens(old(cache).syntax(), old(cache).start_theme(), here)));
            }
            let new_states = copy_states(&cur);
            // Early exit: if no lines were inserted/deleted and the parse state
            // after this line matches the cached one, the rest is unaffected.
            if line_count_unchanged && i < cache.states.len() && same_parse_state(
                &new_states,
                &cache.states[i],
            ) {
                proof {
                    assert(cache.states@[i as int] == old(cache).states@[i as int]);
                    assert(old(cache).steps_before(i + 1) == old(cache).states@[i as int].steps@);
                    assert(new_states.steps@ == here);
                    assert(lv.subrange(from_line as int, i + 1) == lv.subrange(from_line as int, (i + 1) as int));
                }
                // The cache already holds one entry per line.
                cache.spans.truncate(lines.len());
                cache.states.truncate(lines.len());
                proof {
                    assert(cache.spans@.len() == lines@.len());
                    assert(span_views(cache.spans@) == nv);
                    assert forall|j: int| from_line <= j < i + 1 && no_newline(lv[j]) implies token_text(#[trigger] nv[j]).is_prefix_of(lv[j]) by {
                        assert(lv[j] == lines@[j]@);
                        if j < i {
                            assert(nv[j] == pv[j]);
                        }
                    }
                    assert forall|j: int| i + 1 <= j < lv.len() implies #[trigger] nv[j] == old_spans[j] by {
                        assert(nv[j] == pv[j]);
                    }
                    assert(highlighted_until(nv, old_spans, lv, from_line as int, i + 1));
                    assert forall|j: int| 0 <= j < from_line && j < lines@.len() implies #[trigger] nv[j] == old_spans[j] by {
                        assert(nv[j] == pv[j]);
                    }
                    assert(cache.lines_view() == nv);
                    assert(old(cache).lines_view() == old_spans);
                    assert forall|j: int| from_line <= j < i + 1 implies #[trigger] cache.lines_view()[j] == trimmed(
                        syntect_tokens(
                            old(cache).syntax(),
                            old(cache).start_theme(),
                            before + steps_of(tn, lv.subrange(from_line as int, j + 1)),
                        ),
                    ) && (j < i ==> cache.steps_before(j + 1) == before + steps_of(
                        tn,
                        lv.subrange(from_line as int, j + 1),
                    )) by {
                        if j < i {
                            assert(nv[j] == pv[j]);
                            assert(cache.states@[j] == states0[j]);
                        }
                    }
                    assert(highlighted_until(
                        cache.lines_view(),
                        old(cache).lines_view(),
                        lv,
                        from_line as int,
                        i + 1,
                    ) && (forall|j: int|
                        from_line <= j < i + 1 ==> #[trigger] cache.lines_view()[j] == trimmed(
                            syntect_tokens(
                                old(cache).syntax(),
                                old(cache).start_theme(),
                                old(cache).steps_before(from_line as int) + steps_of(
                                    self.theme_in_use(),
                                    string_views(lines@).subrange(from_line as int, j + 1),
                                ),
                            ),
                        ) && (j + 1 < i + 1 ==> cache.steps_before(j + 1) == old(cache).steps_before(
                            from_line as int,
                        ) + steps_of(
                            self.theme_in_use(),
                            string_views(lines@).subrange(from_line as int, j + 1),
                        ))) && (i + 1 < lines@.len() ==> parse_key(
                        old(cache).syntax(),
                        step_texts(
                            old(cache).steps_before(from_line as int) + steps_of(
                                self.theme_in_use(),
                                string_views(lines@).subrange(from_line as int, i + 1),
                            ),
                        ),
                    ) == parse_key(old(cache).syntax(), step_texts(old(cache).steps_before(i + 1)))));
                }
                return ;
            }
            if i < cache.states.len() {
                cache.states.set(i, new_states);
            } else {
                cache.states.push(new_states);
            }
            proof {
                assert forall|j: int| 0 <= j < from_line implies #[trigger] nv[j] == old_spans[j] by {
                    assert(nv[j] == pv[j]);
                }
                assert forall|j: int| from_line <= j < i + 1 && no_newline(lines@[j]@) implies token_text(#[trigger] nv[j]).is_prefix_of(lines@[j]@) by {
                    if j < i {
                        assert(nv[j] == pv[j]);
                    }
                }
                assert(cache.steps_before(i + 1) == here);
                assert forall|j: int| from_line <= j < i + 1 implies #[trigger] nv[j] == trimmed(
                    syntect_tokens(
                        old(cache).syntax(),
                        old(cache).start_theme(),
                        before + steps_of(tn, lv.subrange(from_line as int, j + 1)),
                    ),
                ) && cache.steps_before(j + 1) == before + steps_of(
                    tn,
                    lv.subrange(from_line as int, j + 1),
                ) by {
                    if j < i {
                        assert(nv[j] == pv[j]);
                        assert(cache.states@[j] == states0[j]);
                    }
                }
                assert forall|j: int| i + 1 <= j < nv.len() implies #[trigger] nv[j] == old_spans[j] by {
                    assert(nv[j] == pv[j]);
                }
                assert forall|j: int| from_line <= j < i + 1 implies #[trigger] span_views(cache.spans@)[j] == trimmed(
                    syntect_tokens(
                        old(cache).syntax(),
                        old(cache).start_theme(),
                        before + steps_of(tn, lv.subrange(from_line as int, j + 1)),
                    ),
                ) && cache.steps_before(j + 1) == before + steps_of(
                    tn,
                    lv.subrange(from_line as int, j + 1),
                ) by {
                    assert(span_views(cache.spans@)[j] == nv[j]);
                    if j < i {
                        assert(nv[j] == pv[j]);
                        assert(cache.states@[j] == states0[j]);
                    } else {
                        assert(cache.states@[j] == new_states);
                    }
                }
            }
            i = i + 1;
        }
        let ghost pv = span_views(cache.spans@);
        let ghost states0 = cache.states@;
        // Truncate to current line count (handles line deletions)
        cache.spans.truncate(lines.len());
        cache.states.truncate(lines.len());
        proof {
            let nv = span_views(cache.spans@);
            assert(nv =~= pv.take(lines@.len() as int));
            assert forall|j: int| from_line <= j < lv.len() && no_newline(lv[j]) implies token_text(#[trigger] nv[j]).is_prefix_of(lv[j]) by {
                assert(lv[j] == lines@[j]@);
                assert(nv[j] == pv[j]);
            }
            assert(highlighted_until(nv, old_spans, lv, from_line as int, lv.len() as int));
            assert forall|j: int| 0 <= j < from_line && j < lines@.len() implies #[trigger] nv[j] == old_spans[j] by {
                assert(nv[j] == pv[j]);
            }
            assert(cache.lines_view() == nv);
            assert(old(cache).lines_view() == old_spans);
            assert forall|j: int| from_line <= j < lv.len() implies #[trigger] cache.lines_view()[j] == trimmed(
                syntect_tokens(
                    old(cache).syntax(),
                    old(cache).start_theme(),
                    before + steps_of(tn, lv.subrange(from_line as int, j + 1)),
                ),
            ) && cache.steps_before(j + 1) == before + steps_of(
                tn,
                lv.subrange(from_line as int, j + 1),
            ) by {
                assert(nv[j] == pv[j]);
                assert(cache.states@[j] == states0[j]);
            }
            assert(highlighted_until(
                cache.lines_view(),
                old(cache).lines_view(),
                lv,
                from_line as int,
                lv.len() as int,
            ) && (forall|j: int|
                from_line <= j < lv.len() ==> #[trigger] cache.lines_view()[j] == trimmed(
                    syntect_tokens(
                        old(cache).syntax(),
                        old(cache).start_theme(),
                        old(cache).steps_before(from_line as int) + steps_of(
                            self.theme_in_use(),
                            string_views(lines@).subrange(from_line as int, j + 1),
                        ),
                    ),
                ) && (j + 1 < lv.len() ==> cache.steps_before(j + 1) == old(cache).steps_before(
                    from_line as int,
                ) + steps_of(
                    self.theme_in_use(),
                    string_views(lines@).subrange(from_line as int, j + 1),
                ))) && (lv.len() < lines@.len() ==> parse_key(
                old(cache).syntax(),
                step_texts(
                    old(cache).steps_before(from_line as int) + steps_of(
                        self.theme_in_use(),
                        string_views(lines@).subrange(from_line as int, lv.len() as int),
                    ),
                ),
            ) == parse_key(old(cache).syntax(), step_texts(old(cache).steps_before(lv.len() as int)))));
        }
    }
}

/// Where highlighting has to start again for a file whose editor marks
/// `dirty` as the first changed line: from the top where there is no cache
/// yet (`cached` is `None`), else from the changed line, but no later than
/// the end of what is cached; nothing where no line changed.
pub fn highlight_start(dirty: Option<usize>, cached: Option<usize>) -> (r: Option<usize>)
    ensures
        r == match cached {
            None => Some(0usize),
            Some(n) => match dirty {
                None => None,
                Some(d) => Some(if d <= n { d } else { n }),
            },
        },
{
    match cached {
        None => Some(0),
        Some(n) => match dirty {
            None => None,
            Some(d) => Some(if d <= n { d } else { n }),
        },
    }
}

} // verus!
