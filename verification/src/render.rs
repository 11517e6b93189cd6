//! The computations behind drawing the screen: which characters of a
//! highlighted line are visible and in what style, where the completion
//! popup goes, and which tab a click lands on.
use vstd::prelude::*;
use crate::editor::Selection;
use crate::model::sat_sub;
use crate::text::{chars_of, push_char};

verus! {

/// A colour.
#[derive(Debug, Clone, Copy, PartialEq, Eq, Structural)]
pub struct Rgb {
    pub r: u8,
    pub g: u8,
    pub b: u8,
}

/// How a piece of text is drawn: selected, or in its highlighting colour.
#[derive(Debug, Clone, Copy, PartialEq, Eq, Structural)]
pub enum SpanStyle {
    Selected,
    Fg(Rgb),
}

/// A piece of a line in one highlighting colour.
pub struct ColoredText {
    pub fg: Rgb,
    pub text: String,
}

/// A piece of the visible part of a line in one style.
pub struct StyledRun {
    pub style: SpanStyle,
    pub text: String,
}

/// The columns of line `abs_line` that the selection covers, `start..end`.
pub open spec fn selected_cols(selection: Option<Selection>, abs_line: int) -> Option<(int, int)> {
    match selection {
        None => None,
        Some(sel) => {
            let (s, e) = sel.ordered();
            if abs_line < s.line || abs_line > e.line {
                None
            } else {
                Some(
                    (
                        if abs_line == s.line { s.col as int } else { 0 },
                        if abs_line == e.line { e.col as int } else { usize::MAX as int },
                    ),
                )
            }
        },
    }
}

/// The columns of line `abs_line` that the selection covers.
pub fn selection_cols(selection: &Option<Selection>, abs_line: usize) -> (r: Option<(usize, usize)>)
    ensures
        match r {
            Some((s, e)) => selected_cols(*selection, abs_line as int) == Some((s as int, e as int)),
            None => selected_cols(*selection, abs_line as int) is None,
        },
{
    match selection {
        None => None,
        Some(sel) => {
            let (start, end) = sel.normalized();
            if abs_line < start.line || abs_line > end.line {
                return None;
            }
            let s = if abs_line == start.line {
                start.col
            } else {
                0
            };
            let e = if abs_line == end.line {
                end.col
            } else {
                usize::MAX
            };
            Some((s, e))
        },
    }
}

/// The characters of the pieces, each with its colour.
pub open spec fn cells(spans: Seq<(Rgb, Seq<char>)>) -> Seq<(Rgb, char)>
    decreases spans.len(),
{
    if spans.len() == 0 {
        seq![]
    } else {
        cells(spans.drop_last()) + spans.last().1.map_values(|c: char| (spans.last().0, c))
    }
}

/// The style of column `col`, in colour `fg`.
pub open spec fn style_at(range: Option<(int, int)>, col: int, fg: Rgb) -> SpanStyle {
    match range {
        Some((s, e)) => if s <= col < e {
            SpanStyle::Selected
        } else {
            SpanStyle::Fg(fg)
        },
        None => SpanStyle::Fg(fg),
    }
}

/// The visible ones among the first `n` cells (columns `scroll..scroll + view`), styled.
pub open spec fn visible_cells(
    cs: Seq<(Rgb, char)>,
    range: Option<(int, int)>,
    scroll: int,
    view: int,
    n: int,
) -> Seq<(SpanStyle, char)>
    decreases n,
{
    if n <= 0 {
        seq![]
    } else {
        let r = visible_cells(cs, range, scroll, view, n - 1);
        if scroll <= n - 1 < scroll + view {
            r.push((style_at(range, n - 1, cs[n - 1].0), cs[n - 1].1))
        } else {
            r
        }
    }
}

/// Consecutive characters of one style grouped into runs.
pub open spec fn runs(cs: Seq<(SpanStyle, char)>) -> Seq<(SpanStyle, Seq<char>)>
    decreases cs.len(),
{
    if cs.len() == 0 {
        seq![]
    } else {
        let g = runs(cs.drop_last());
        let (st, c) = cs.last();
        if g.len() > 0 && g.last().0 == st {
            g.update(g.len() - 1, (st, g.last().1.push(c)))
        } else {
            g.push((st, seq![c]))
        }
    }
}

pub open spec fn colored_views(v: Seq<ColoredText>) -> Seq<(Rgb, Seq<char>)> {
    v.map_values(|t: ColoredText| (t.fg, t.text@))
}

pub open spec fn run_views(v: Seq<StyledRun>) -> Seq<(SpanStyle, Seq<char>)> {
    v.map_values(|r: StyledRun| (r.style, r.text@))
}

proof fn lemma_visible_past_view(
    cs: Seq<(Rgb, char)>,
    range: Option<(int, int)>,
    scroll: int,
    view: int,
    n: int,
)
    requires
        n >= scroll + view,
    ensures
        visible_cells(cs, range, scroll, view, n) == visible_cells(
            cs,
            range,
            scroll,
            view,
            scroll + view,
        ),
    decreases n - (scroll + view),
{
    if n > scroll + view {
        lemma_visible_past_view(cs, range, scroll, view, n - 1);
    }
}

proof fn lemma_visible_before_view(
    cs: Seq<(Rgb, char)>,
    range: Option<(int, int)>,
    scroll: int,
    view: int,
    n: int,
)
    requires
        n <= scroll,
    ensures
        visible_cells(cs, range, scroll, view, n) == Seq::<(SpanStyle, char)>::empty(),
    decreases n,
{
    if n > 0 {
        lemma_visible_before_view(cs, range, scroll, view, n - 1);
    }
}

/// At most the first `n` of `s`.
pub open spec fn at_most<A>(s: Seq<A>, n: int) -> Seq<A> {
    if s.len() <= n {
        s
    } else {
        s.take(n)
    }
}

proof fn lemma_at_most_push<A>(s: Seq<A>, x: A, n: int)
    requires
        0 <= n,
        s.len() < n,
    ensures
        at_most(s.push(x), n) == s.push(x),
        at_most(s, n) == s,
{
}

proof fn lemma_at_most_full<A>(s: Seq<A>, t: Seq<A>, n: int)
    requires
        0 <= n <= s.len(),
    ensures
        at_most(s + t, n) == at_most(s, n),
{
    assert((s + t).take(n) =~= s.take(n));
}

/// The cells of the pieces, up to `limit` of them.
fn cells_upto(spans: &Vec<ColoredText>, limit: usize) -> (v: Vec<(Rgb, char)>)
    ensures
        v@ == at_most(cells(colored_views(spans@)), limit as int),
{
    let ghost sp = colored_views(spans@);
    let mut out: Vec<(Rgb, char)> = Vec::new();
    let mut i: usize = 0;
    proof {
        assert(sp.take(0) =~= Seq::<(Rgb, Seq<char>)>::empty());
    }
    while i < spans.len() && out.len() < limit
        invariant
            sp == colored_views(spans@),
            i <= spans.len(),
            out@ == at_most(cells(sp.take(i as int)), limit as int),
        decreases spans.len() - i,
    {
        let fg = spans[i].fg;
        let chs = chars_of(spans[i].text.as_str());
        let ghost base = cells(sp.take(i as int));
        let ghost piece = sp[i as int].1.map_values(|c: char| (sp[i as int].0, c));
        proof {
            assert(sp[i as int] == (fg, spans@[i as int].text@));
            assert(sp.take(i + 1).drop_last() =~= sp.take(i as int));
            assert(cells(sp.take(i + 1)) == base + piece);
            assert(piece.take(0) =~= Seq::<(Rgb, char)>::empty());
            assert(base + piece.take(0) =~= base);
        }
        let mut j: usize = 0;
        while j < chs.len() && out.len() < limit
            invariant
                chs@ == sp[i as int].1,
                fg == sp[i as int].0,
                piece == sp[i as int].1.map_values(|c: char| (sp[i as int].0, c)),
                j <= chs.len(),
                out@ == at_most(base + piece.take(j as int), limit as int),
            decreases chs.len() - j,
        {
            proof {
                assert(base + piece.take(j + 1) =~= (base + piece.take(j as int)).push((fg, chs@[j as int])));
                lemma_at_most_push(base + piece.take(j as int), (fg, chs@[j as int]), limit as int);
            }
            out.push((fg, chs[j]));
            j = j + 1;
        }
        proof {
            if j == chs.len() {
                assert(piece.take(j as int) =~= piece);
            } else {
                lemma_at_most_full(base + piece.take(j as int), piece.skip(j as int), limit as int);
                assert(base + piece.take(j as int) + piece.skip(j as int) =~= base + piece);
            }
        }
        i = i + 1;
    }
    proof {
        if i < spans.len() {
            let rest = sp.skip(i as int);
            lemma_cells_split(sp, i as int);
            lemma_at_most_full(cells(sp.take(i as int)), cells(sp).skip(cells(sp.take(i as int)).len() as int), limit as int);
            assert(cells(sp.take(i as int)) + cells(sp).skip(cells(sp.take(i as int)).len() as int) =~= cells(sp));
        } else {
            assert(sp.take(i as int) =~= sp);
        }
    }
    out
}

/// The cells of a prefix of the pieces begin the cells of all of them.
proof fn lemma_cells_split(sp: Seq<(Rgb, Seq<char>)>, i: int)
    requires
        0 <= i <= sp.len(),
    ensures
        cells(sp.take(i)).len() <= cells(sp).len(),
        cells(sp).take(cells(sp.take(i)).len() as int) == cells(sp.take(i)),
    decreases sp.len() - i,
{
    if i < sp.len() {
        lemma_cells_split(sp, i + 1);
        assert(sp.take(i + 1).drop_last() =~= sp.take(i));
        let a = cells(sp.take(i));
        let b = cells(sp.take(i + 1));
        assert(b.take(a.len() as int) =~= a);
        assert(cells(sp).take(a.len() as int) =~= cells(sp).take(b.len() as int).take(a.len() as int));
    } else {
        assert(sp.take(i) =~= sp);
    }
}

pub open spec fn current_view(c: Option<(SpanStyle, String)>) -> Seq<(SpanStyle, Seq<char>)> {
    match c {
        Some((st, t)) => seq![(st, t@)],
        None => Seq::<(SpanStyle, Seq<char>)>::empty(),
    }
}

/// Adds one styled character to the runs built so far (`result` and the
/// open run `current`).
fn push_styled(
    result: &mut Vec<StyledRun>,
    current: &mut Option<(SpanStyle, String)>,
    style: SpanStyle,
    ch: char,
    Ghost(cells_so_far): Ghost<Seq<(SpanStyle, char)>>,
)
    requires
        run_views(old(result)@) + current_view(*old(current)) == runs(cells_so_far),
        *old(current) is None ==> old(result)@.len() == 0,
    ensures
        run_views(final(result)@) + current_view(*final(current)) == runs(
            cells_so_far.push((style, ch)),
        ),
        *final(current) is Some,
{
    let ghost before = runs(cells_so_far);
    let ghost rv = run_views(result@);
    proof {
        assert(cells_so_far.push((style, ch)).drop_last() =~= cells_so_far);
    }
    let taken = current.take();
    match taken {
        Some((cur_style, cur_text)) => {
            if cur_style == style {
                let mut t = cur_text;
                push_char(&mut t, ch);
                *current = Some((cur_style, t));
                proof {
                    assert(before.len() > 0);
                    assert(before.last() == (cur_style, t@.drop_last()));
                    assert(t@.drop_last().push(ch) =~= t@);
                    assert(rv + seq![(cur_style, t@)] =~= before.update(
                        before.len() - 1,
                        (cur_style, before.last().1.push(ch)),
                    ));
                }
            } else {
                let ghost run = (cur_style, cur_text@);
                result.push(StyledRun { style: cur_style, text: cur_text });
                let mut t = String::new();
                push_char(&mut t, ch);
                *current = Some((style, t));
                proof {
                    assert(run_views(result@) =~= rv.push(run));
                    assert(before.last() == run);
                    assert(t@ =~= seq![ch]);
                    assert(run_views(result@) + seq![(style, t@)] =~= before.push(
                        (style, seq![ch]),
                    ));
                }
            }
        },
        None => {
            let mut t = String::new();
            push_char(&mut t, ch);
            *current = Some((style, t));
            proof {
                assert(rv + Seq::<(SpanStyle, Seq<char>)>::empty() =~= rv);
                assert(before.len() == 0);
                assert(t@ =~= seq![ch]);
                assert(run_views(result@) + seq![(style, t@)] =~= before.push((style, seq![ch])));
            }
        },
    }
}

/// The visible part of a highlighted line, grouped into runs of one style:
/// columns `scroll_col..scroll_col + view_cols`, selected columns in the
/// selection style, the others in their highlighting colour.
#[verifier::rlimit(40)]
pub fn build_line_runs(
    spans: &Vec<ColoredText>,
    scroll_col: usize,
    view_cols: usize,
    abs_line: usize,
    selection: &Option<Selection>,
) -> (r: Vec<StyledRun>)
    requires
        scroll_col + view_cols <= usize::MAX,
    ensures
        run_views(r@) == runs(
            visible_cells(
                cells(colored_views(spans@)),
                selected_cols(*selection, abs_line as int),
                scroll_col as int,
                view_cols as int,
                cells(colored_views(spans@)).len() as int,
            ),
        ),
{
    let sel_range = selection_cols(selection, abs_line);
    let ghost range = selected_cols(*selection, abs_line as int);
    let ghost cs = cells(colored_views(spans@));
    let limit = scroll_col + view_cols;
    let cv = cells_upto(spans, limit);
    let mut result: Vec<StyledRun> = Vec::new();
    let mut current: Option<(SpanStyle, String)> = None;
    let mut k: usize = scroll_col;
    proof {
        lemma_visible_before_view(cs, range, scroll_col as int, view_cols as int, scroll_col as int);
    }
    if k > cv.len() {
        k = cv.len();
        proof {
            lemma_visible_before_view(cs, range, scroll_col as int, view_cols as int, k as int);
        }
    }
    while k < cv.len()
        invariant
            cs == cells(colored_views(spans@)),
            cv@ == at_most(cs, limit as int),
            range == selected_cols(*selection, abs_line as int),
            match sel_range {
                Some((s, e)) => range == Some((s as int, e as int)),
                None => range is None,
            },
            limit == scroll_col + view_cols,
            k <= cv.len(),
            k >= scroll_col || k == cv.len(),
            run_views(result@) + current_view(current) == runs(
                visible_cells(cs, range, scroll_col as int, view_cols as int, k as int),
            ),
            current is None ==> result@.len() == 0,
        decreases cv.len() - k,
    {
        let (fg, ch) = cv[k];
        proof {
            assert(cs[k as int] == (fg, ch));
        }
        let selected = match sel_range {
            Some((s, e)) => k >= s && k < e,
            None => false,
        };
        let style = if selected {
            SpanStyle::Selected
        } else {
            SpanStyle::Fg(fg)
        };
        let ghost before = visible_cells(cs, range, scroll_col as int, view_cols as int, k as int);
        proof {
            assert(style == style_at(range, k as int, fg));
            let vc = visible_cells(cs, range, scroll_col as int, view_cols as int, k as int);
            assert(visible_cells(cs, range, scroll_col as int, view_cols as int, k + 1) == vc.push((style, ch)));
            assert(vc.push((style, ch)).drop_last() =~= vc);
        }
        push_styled(&mut result, &mut current, style, ch, Ghost(before));
        k = k + 1;
    }
    proof {
        if cs.len() <= limit {
            assert(cv@ == cs);
        } else {
            lemma_visible_past_view(cs, range, scroll_col as int, view_cols as int, cs.len() as int);
        }
    }
    let ghost rv = run_views(result@);
    if let Some((st, t)) = current {
        result.push(StyledRun { style: st, text: t });
        proof {
            assert(run_views(result@) =~= rv.push((st, t@)));
            assert(rv + seq![(st, t@)] =~= rv.push((st, t@)));
        }
    } else {
        proof {
            assert(rv + Seq::<(SpanStyle, Seq<char>)>::empty() =~= rv);
        }
    }
    result
}

// ── Tabs ──────────────────────────────────────────────────────────────────────

/// Column where tab `i` starts: each tab is followed by a one-column divider.
pub open spec fn tab_start(widths: Seq<usize>, i: int) -> int
    decreases i,
{
    if i <= 0 {
        0
    } else {
        tab_start(widths, i - 1) + widths[i - 1] + 1
    }
}

/// The first tab among `0..n` whose right edge lies past column `x`.
pub open spec fn tab_under(widths: Seq<usize>, x: int, n: int) -> Option<int>
    decreases n,
{
    if n <= 0 {
        None
    } else {
        match tab_under(widths, x, n - 1) {
            Some(i) => Some(i),
            None => if x < tab_start(widths, n - 1) + widths[n - 1] {
                Some(n - 1)
            } else {
                None
            },
        }
    }
}

proof fn lemma_tab_start_mono(widths: Seq<usize>, i: int, j: int)
    requires
        0 <= i <= j <= widths.len(),
    ensures
        tab_start(widths, i) <= tab_start(widths, j),
    decreases j - i,
{
    if i < j {
        lemma_tab_start_mono(widths, i, j - 1);
    }
}

/// The tab that a click at column `rel_x` of the tab bar lands on, tabs
/// being `widths` wide.
pub fn tab_at(widths: &Vec<usize>, rel_x: usize) -> (r: Option<usize>)
    requires
        tab_start(widths@, widths@.len() as int) <= usize::MAX,
    ensures
        match r {
            Some(i) => tab_under(widths@, rel_x as int, widths@.len() as int) == Some(i as int),
            None => tab_under(widths@, rel_x as int, widths@.len() as int) is None,
        },
{
    let mut offset: usize = 0;
    let mut i: usize = 0;
    while i < widths.len()
        invariant
            i <= widths.len(),
            tab_start(widths@, widths@.len() as int) <= usize::MAX,
            offset == tab_start(widths@, i as int),
            tab_under(widths@, rel_x as int, i as int) is None,
        decreases widths.len() - i,
    {
        proof {
            lemma_tab_start_mono(widths@, i + 1, widths@.len() as int);
        }
        let tab_w = widths[i];
        if rel_x < offset + tab_w {
            proof {
                assert(tab_under(widths@, rel_x as int, i + 1) == Some(i as int));
                lemma_tab_under_stays(widths@, rel_x as int, i + 1, widths@.len() as int);
            }
            return Some(i);
        }
        offset = offset + tab_w + 1;
        i = i + 1;
    }
    None
}

pub proof fn lemma_tab_under_bound(widths: Seq<usize>, x: int, n: int)
    ensures
        tab_under(widths, x, n) matches Some(i) ==> 0 <= i < n,
    decreases n,
{
    if n > 0 {
        lemma_tab_under_bound(widths, x, n - 1);
    }
}

proof fn lemma_tab_under_stays(widths: Seq<usize>, x: int, i: int, n: int)
    requires
        0 <= i <= n,
        tab_under(widths, x, i) is Some,
    ensures
        tab_under(widths, x, n) == tab_under(widths, x, i),
    decreases n - i,
{
    if i < n {
        lemma_tab_under_stays(widths, x, i, n - 1);
    }
}

// ── Completion popup ──────────────────────────────────────────────────────────

/// Where the completion popup goes: `(x, y, width, height)`.
pub open spec fn popup_rect(
    widest: usize,
    count: int,
    cur_x: int,
    cur_y: int,
    screen_right: int,
    screen_bottom: int,
) -> (int, int, int, int) {
    let rows = if count < 8 { count } else { 8 };
    let max_w = (widest as u16) as int;
    let w0 = if max_w + 2 < 40 { max_w + 2 } else { 40 };
    let w = if w0 > 10 { w0 } else { 10 };
    let h = rows + 2;
    let y = if cur_y + 1 + h <= screen_bottom { cur_y + 1 } else { sat_sub(cur_y, h) };
    let right = sat_sub(screen_right, w);
    let x = if cur_x < right { cur_x } else { right };
    (x, y, w, h)
}

/// The completion popup's rectangle: as wide as its widest label plus two
/// (between 10 and 40 columns), one row per item up to eight plus borders,
/// below the cursor when it fits above the screen's bottom, else above it,
/// and pulled left to end inside the screen.
pub fn completion_popup_rect(
    label_lens: &Vec<usize>,
    cur_x: u16,
    cur_y: u16,
    screen_right: u16,
    screen_bottom: u16,
) -> (r: (u16, u16, u16, u16))
    requires
        label_lens@.len() > 0,
        cur_y + 11 <= u16::MAX,
    ensures
        (r.0 as int, r.1 as int, r.2 as int, r.3 as int) == popup_rect(
            max_of(label_lens@),
            label_lens@.len() as int,
            cur_x as int,
            cur_y as int,
            screen_right as int,
            screen_bottom as int,
        ),
{
    let widest = max_usize(label_lens);
    let count = label_lens.len();
    let rows: u16 = if count < 8 {
        count as u16
    } else {
        8
    };
    let max_w = widest as u16;
    let w0: u16 = if max_w < 38 {
        max_w + 2
    } else {
        40
    };
    let w: u16 = if w0 > 10 {
        w0
    } else {
        10
    };
    let h: u16 = rows + 2;
    let y = if cur_y + 1 + h <= screen_bottom {
        cur_y + 1
    } else {
        cur_y.saturating_sub(h)
    };
    let right_edge = screen_right.saturating_sub(w);
    let x = if cur_x < right_edge {
        cur_x
    } else {
        right_edge
    };
    (x, y, w, h)
}

/// The largest of `s`.
pub open spec fn max_of(s: Seq<usize>) -> usize
    decreases s.len(),
{
    if s.len() == 0 {
        0
    } else if s.len() == 1 {
        s[0]
    } else {
        let m = max_of(s.drop_last());
        if s.last() > m { s.last() } else { m }
    }
}

proof fn lemma_max_of(s: Seq<usize>)
    requires
        s.len() > 0,
    ensures
        exists|i: int| 0 <= i < s.len() && s[i] == max_of(s),
        forall|i: int| 0 <= i < s.len() ==> s[i] <= max_of(s),
    decreases s.len(),
{
    if s.len() > 1 {
        lemma_max_of(s.drop_last());
        let i = choose|i: int| 0 <= i < s.drop_last().len() && s.drop_last()[i] == max_of(s.drop_last());
        if s.last() > max_of(s.drop_last()) {
            assert(s[s.len() - 1] == max_of(s));
        } else {
            assert(s[i] == max_of(s));
        }
        assert forall|j: int| 0 <= j < s.len() implies s[j] <= max_of(s) by {
            if j < s.len() - 1 {
                assert(s[j] == s.drop_last()[j]);
            }
        }
    } else {
        assert(s[0] == max_of(s));
    }
}

/// The largest of `v`.
pub fn max_usize(v: &Vec<usize>) -> (m: usize)
    requires
        v@.len() > 0,
    ensures
        m == max_of(v@),
        forall|i: int| 0 <= i < v@.len() ==> v@[i] <= m,
        exists|i: int| 0 <= i < v@.len() && v@[i] == m,
{
    let mut m = v[0];
    let mut i: usize = 1;
    proof {
        assert(v@.take(1) =~= seq![v@[0]]);
    }
    while i < v.len()
        invariant
            1 <= i <= v.len(),
            m == max_of(v@.take(i as int)),
        decreases v.len() - i,
    {
        proof {
            assert(v@.take(i + 1).drop_last() =~= v@.take(i as int));
        }
        if v[i] > m {
            m = v[i];
        }
        i = i + 1;
    }
    proof {
        assert(v@.take(v@.len() as int) =~= v@);
        lemma_max_of(v@);
    }
    m
}

/// How many of `count` (at least one) popup items are listed, at most
/// eight, and which of them is highlighted: `selected`, or the last item
/// where it is past the end.
pub fn popup_rows(count: usize, selected: usize) -> (r: (usize, usize))
    requires
        count > 0,
    ensures
        r.0 == if count < 8 { count } else { 8 },
        r.1 == if selected < count - 1 { selected } else { (count - 1) as usize },
{
    let shown = if count < 8 { count } else { 8 };
    let sel = if selected < count - 1 { selected } else { count - 1 };
    (shown, sel)
}

} // verus!
