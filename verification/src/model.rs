//! The abstract state of an editor and what each editing operation does to it.
//!
//! An editor is modelled as its lines (each a `Seq<char>`, joined by `'\n'`
//! in the text it stands for), a cursor, an optional selection, a clipboard,
//! a modification flag and the first line whose highlighting is out of date.
use vstd::prelude::*;
use crate::editor::{Pos, Selection};
use crate::text::{
    join_lines, split_lines, text_before, text_after, indent_len, spaces, lemma_join_concat,
    lemma_join_at, lemma_around_update,
};

verus! {

/// The abstract state of an `Editor`.
#[verifier::ext_equal]
pub struct EditorModel {
    pub path: Seq<char>,
    pub lines: Seq<Seq<char>>,
    pub cursor: Pos,
    pub scroll: Pos,
    pub selection: Option<Selection>,
    pub modified: bool,
    pub clipboard: Option<Seq<char>>,
    pub dirty_from_line: Option<usize>,
}

/// `a` comes no later than `b` in the text.
pub open spec fn pos_le(a: Pos, b: Pos) -> bool {
    a.line < b.line || (a.line == b.line && a.col <= b.col)
}

/// The first line to re-highlight after line `line` changed.
pub open spec fn mark(dirty: Option<usize>, line: usize) -> Option<usize> {
    match dirty {
        Some(d) => Some(if d <= line { d } else { line }),
        None => Some(line),
    }
}

/// An opening character followed by the character that closes it.
pub open spec fn matching_pair(open: char, close: char) -> bool {
    (open == '(' && close == ')') || (open == '[' && close == ']') || (open == '{' && close
        == '}') || (open == '"' && close == '"') || (open == '\'' && close == '\'') || (open
        == '`' && close == '`')
}

pub open spec fn min_int(a: int, b: int) -> int {
    if a <= b { a } else { b }
}

/// `a - b`, or 0 where that is negative.
pub open spec fn sat_sub(a: int, b: int) -> int {
    if a >= b { a - b } else { 0 }
}

/// Lines `t` with the text from `s` to `e` taken out (`s` no later than `e`).
pub open spec fn remove_range(t: Seq<Seq<char>>, s: Pos, e: Pos) -> Seq<Seq<char>> {
    t.take(s.line as int) + seq![
        t[s.line as int].take(s.col as int) + t[e.line as int].skip(e.col as int),
    ] + t.skip(e.line + 1)
}

/// The text of lines `t` from `s` to `e` (`s` no later than `e`), lines joined with `'\n'`.
pub open spec fn extract(t: Seq<Seq<char>>, s: Pos, e: Pos) -> Seq<char> {
    if s.line == e.line {
        t[s.line as int].subrange(s.col as int, e.col as int)
    } else {
        join_lines(
            seq![t[s.line as int].skip(s.col as int)] + t.subrange(s.line + 1, e.line as int)
                + seq![t[e.line as int].take(e.col as int)],
        )
    }
}

/// Offset of position `p` in the joined text of `t`.
pub open spec fn offset(t: Seq<Seq<char>>, p: Pos) -> int {
    text_before(t, p.line as int).len() + p.col
}

/// Whether `c` counts as part of a word (alphanumeric or `_`).
pub open spec fn is_word_char(c: char) -> bool {
    crate::chars::alphanumeric(c) || c == '_'
}

/// Column where the word that ends at column `col` of `line` starts.
pub open spec fn word_start(line: Seq<char>, col: int) -> int
    decreases col,
{
    if 0 < col <= line.len() && is_word_char(line[col - 1]) {
        word_start(line, col - 1)
    } else {
        col
    }
}

impl Selection {
    /// The two ends of the selection, earlier first.
    pub open spec fn ordered(self) -> (Pos, Pos) {
        if pos_le(self.anchor, self.cursor) {
            (self.anchor, self.cursor)
        } else {
            (self.cursor, self.anchor)
        }
    }
}

impl EditorModel {
    pub open spec fn valid_pos(self, p: Pos) -> bool {
        p.line < self.lines.len() && p.col <= self.lines[p.line as int].len()
    }

    /// Well-formedness: at least one line, and the cursor and both ends of
    /// the selection point into the text.
    pub open spec fn inv(self) -> bool {
        &&& self.lines.len() >= 1
        &&& self.valid_pos(self.cursor)
        &&& match self.selection {
            Some(s) => self.valid_pos(s.anchor) && self.valid_pos(s.cursor),
            None => true,
        }
    }

    /// The text the lines stand for.
    pub open spec fn text(self) -> Seq<char> {
        join_lines(self.lines)
    }

    pub open spec fn line_len(self, l: int) -> int {
        self.lines[l].len() as int
    }

    pub open spec fn cur_line(self) -> Seq<char> {
        self.lines[self.cursor.line as int]
    }

    pub open spec fn last_pos(self) -> Pos {
        Pos {
            line: (self.lines.len() - 1) as usize,
            col: self.lines[self.lines.len() - 1].len() as usize,
        }
    }

    pub open spec fn with_cursor(self, p: Pos) -> EditorModel {
        EditorModel { cursor: p, ..self }
    }

    /// The selected text, if there is a selection.
    pub open spec fn selected_text(self) -> Option<Seq<char>> {
        match self.selection {
            Some(sel) => Some(extract(self.lines, sel.ordered().0, sel.ordered().1)),
            None => None,
        }
    }

    // ── Editing ──────────────────────────────────────────────────────────────

    /// Removes the selected text, if any; the cursor goes to where it started.
    pub open spec fn delete_selection(self) -> EditorModel {
        match self.selection {
            None => self,
            Some(sel) => {
                let (s, e) = sel.ordered();
                EditorModel {
                    lines: remove_range(self.lines, s, e),
                    cursor: s,
                    selection: None,
                    modified: true,
                    dirty_from_line: mark(self.dirty_from_line, s.line),
                    ..self
                }
            },
        }
    }

    /// Inserts `s` at the cursor, which moves to its end (no selection involved).
    pub open spec fn insert_str(self, s: Seq<char>) -> EditorModel {
        if s.len() == 0 {
            self
        } else {
            let l = self.cursor.line as int;
            let c = self.cursor.col as int;
            let line = self.lines[l];
            EditorModel {
                lines: self.lines.update(l, line.take(c) + s + line.skip(c)),
                cursor: Pos { line: self.cursor.line, col: (c + s.len()) as usize },
                modified: true,
                dirty_from_line: mark(self.dirty_from_line, self.cursor.line),
                ..self
            }
        }
    }

    pub open spec fn insert_char(self, c: char) -> EditorModel {
        self.delete_selection().insert_str(seq![c])
    }

    /// Splits the cursor's line at the cursor; the new line starts with the
    /// indentation of the old one, and the cursor goes after it.
    pub open spec fn break_line(self) -> EditorModel {
        let l = self.cursor.line as int;
        let c = self.cursor.col as int;
        let line = self.lines[l];
        let indent = line.take(indent_len(line));
        EditorModel {
            lines: self.lines.update(l, line.take(c)).insert(l + 1, indent + line.skip(c)),
            cursor: Pos { line: (l + 1) as usize, col: indent.len() as usize },
            modified: true,
            dirty_from_line: mark(self.dirty_from_line, self.cursor.line),
            ..self
        }
    }

    pub open spec fn insert_newline(self) -> EditorModel {
        self.delete_selection().break_line()
    }

    /// Inserts `n` spaces at the cursor; a selection stays as it is.
    pub open spec fn insert_tab(self, n: nat) -> EditorModel {
        let l = self.cursor.line as int;
        let c = self.cursor.col as int;
        let line = self.lines[l];
        EditorModel {
            lines: self.lines.update(l, line.take(c) + spaces(n) + line.skip(c)),
            cursor: Pos { line: self.cursor.line, col: (c + n) as usize },
            modified: true,
            dirty_from_line: mark(self.dirty_from_line, self.cursor.line),
            ..self
        }
    }

    /// Removes `line[from..to]` from the cursor's line; the cursor goes to `from`.
    pub open spec fn cut_in_line(self, from: int, to: int) -> EditorModel {
        let l = self.cursor.line as int;
        let line = self.lines[l];
        EditorModel {
            lines: self.lines.update(l, line.take(from) + line.skip(to)),
            cursor: Pos { line: self.cursor.line, col: from as usize },
            modified: true,
            dirty_from_line: mark(self.dirty_from_line, self.cursor.line),
            ..self
        }
    }

    /// Appends line `l + 1` to line `l`; the cursor goes to the join point.
    pub open spec fn join_with_next(self, l: int) -> EditorModel {
        let a = self.lines[l];
        EditorModel {
            lines: self.lines.update(l, a + self.lines[l + 1]).remove(l + 1),
            cursor: Pos { line: l as usize, col: a.len() as usize },
            modified: true,
            dirty_from_line: mark(self.dirty_from_line, l as usize),
            ..self
        }
    }

    pub open spec fn backspace(self) -> EditorModel {
        if self.selection is Some {
            self.delete_selection()
        } else {
            let l = self.cursor.line as int;
            let c = self.cursor.col as int;
            let line = self.lines[l];
            if c > 0 && c < line.len() && matching_pair(line[c - 1], line[c]) {
                self.cut_in_line(c - 1, c + 1)
            } else if c > 0 {
                self.cut_in_line(c - 1, c)
            } else if l > 0 {
                self.join_with_next(l - 1)
            } else {
                self
            }
        }
    }

    pub open spec fn delete_key(self) -> EditorModel {
        if self.selection is Some {
            self.delete_selection()
        } else {
            let l = self.cursor.line as int;
            let c = self.cursor.col as int;
            if c < self.lines[l].len() {
                self.cut_in_line(c, c + 1)
            } else if l + 1 < self.lines.len() {
                self.join_with_next(l).with_cursor(self.cursor)
            } else {
                self
            }
        }
    }

    /// Inserts `open` and `close` at the cursor, which goes between them.
    pub open spec fn insert_pair(self, open: char, close: char) -> EditorModel {
        let m = self.delete_selection();
        let l = m.cursor.line as int;
        let c = m.cursor.col as int;
        let line = m.lines[l];
        EditorModel {
            lines: m.lines.update(l, line.take(c) + seq![open, close] + line.skip(c)),
            cursor: Pos { line: m.cursor.line, col: (c + 1) as usize },
            modified: true,
            dirty_from_line: mark(m.dirty_from_line, m.cursor.line),
            ..m
        }
    }

    /// Replaces the cursor's line from column `from` to the cursor with `s`
    /// (columns past the end of the line count as its end); the cursor goes
    /// to the end of `s` and the selection is dropped.
    pub open spec fn replace_word(self, from: int, s: Seq<char>) -> EditorModel {
        let l = self.cursor.line as int;
        let line = self.lines[l];
        let a = min_int(from, line.len() as int);
        let b = min_int(self.cursor.col as int, line.len() as int);
        EditorModel {
            lines: self.lines.update(l, line.take(a) + s + line.skip(b)),
            cursor: Pos { line: self.cursor.line, col: (a + s.len()) as usize },
            selection: None,
            modified: true,
            dirty_from_line: mark(self.dirty_from_line, self.cursor.line),
            ..self
        }
    }

    // ── Cursor movement ──────────────────────────────────────────────────────

    /// Starts a selection at the cursor when one is begun and none exists.
    pub open spec fn begin_select(self, selecting: bool) -> EditorModel {
        if selecting && self.selection is None {
            EditorModel {
                selection: Some(Selection { anchor: self.cursor, cursor: self.cursor }),
                ..self
            }
        } else {
            self
        }
    }

    /// After a move: the selection follows the cursor, or is dropped.
    pub open spec fn end_select(self, selecting: bool) -> EditorModel {
        if selecting {
            match self.selection {
                Some(s) => EditorModel {
                    selection: Some(Selection { anchor: s.anchor, cursor: self.cursor }),
                    ..self
                },
                None => self,
            }
        } else {
            EditorModel { selection: None, ..self }
        }
    }

    /// Moves the cursor to `p`, selecting on the way or not.
    pub open spec fn move_to(self, p: Pos, selecting: bool) -> EditorModel {
        self.begin_select(selecting).with_cursor(p).end_select(selecting)
    }

    pub open spec fn left_of(self, p: Pos) -> Pos {
        if p.col > 0 {
            Pos { line: p.line, col: (p.col - 1) as usize }
        } else if p.line > 0 {
            Pos { line: (p.line - 1) as usize, col: self.lines[p.line - 1].len() as usize }
        } else {
            p
        }
    }

    pub open spec fn right_of(self, p: Pos) -> Pos {
        if p.col < self.lines[p.line as int].len() {
            Pos { line: p.line, col: (p.col + 1) as usize }
        } else if p.line + 1 < self.lines.len() {
            Pos { line: (p.line + 1) as usize, col: 0 }
        } else {
            p
        }
    }

    /// Column `col` on line `l`, pulled back to the end of the line.
    pub open spec fn clamped(self, l: int, col: int) -> Pos {
        Pos { line: l as usize, col: min_int(col, self.lines[l].len() as int) as usize }
    }

    pub open spec fn above(self, p: Pos) -> Pos {
        if p.line > 0 {
            self.clamped(p.line - 1, p.col as int)
        } else {
            p
        }
    }

    pub open spec fn below(self, p: Pos) -> Pos {
        if p.line + 1 < self.lines.len() {
            self.clamped(p.line + 1, p.col as int)
        } else {
            p
        }
    }

    pub open spec fn move_left(self, selecting: bool) -> EditorModel {
        self.move_to(self.left_of(self.cursor), selecting)
    }

    pub open spec fn move_right(self, selecting: bool) -> EditorModel {
        self.move_to(self.right_of(self.cursor), selecting)
    }

    pub open spec fn move_up(self, selecting: bool) -> EditorModel {
        self.move_to(self.above(self.cursor), selecting)
    }

    pub open spec fn move_down(self, selecting: bool) -> EditorModel {
        self.move_to(self.below(self.cursor), selecting)
    }

    pub open spec fn move_home(self, selecting: bool) -> EditorModel {
        self.move_to(Pos { line: self.cursor.line, col: 0 }, selecting)
    }

    pub open spec fn move_end(self, selecting: bool) -> EditorModel {
        self.move_to(
            Pos { line: self.cursor.line, col: self.cur_line().len() as usize },
            selecting,
        )
    }

    pub open spec fn page_up(self, n: int) -> EditorModel {
        EditorModel {
            selection: None,
            cursor: self.clamped(sat_sub(self.cursor.line as int, n), self.cursor.col as int),
            ..self
        }
    }

    pub open spec fn page_down(self, n: int) -> EditorModel {
        EditorModel {
            selection: None,
            cursor: self.clamped(
                min_int(self.cursor.line + n, self.lines.len() - 1),
                self.cursor.col as int,
            ),
            ..self
        }
    }

    pub open spec fn select_all(self) -> EditorModel {
        EditorModel {
            cursor: self.last_pos(),
            selection: Some(Selection { anchor: Pos { line: 0, col: 0 }, cursor: self.last_pos() }),
            ..self
        }
    }

    /// The clipboard takes the selected text, if any.
    pub open spec fn copy(self) -> EditorModel {
        match self.selected_text() {
            Some(t) => EditorModel { clipboard: Some(t), ..self },
            None => self,
        }
    }

    /// Copies the selection and deletes it; nothing happens without a selection.
    pub open spec fn cut(self) -> EditorModel {
        self.copy().delete_selection()
    }

    /// Applies the pieces of a pasted text: the first is typed at the cursor,
    /// each further one after a line break.
    pub open spec fn paste_pieces(self, pieces: Seq<Seq<char>>) -> EditorModel
        decreases pieces.len(),
    {
        if pieces.len() == 0 {
            self
        } else {
            let before = self.paste_pieces(pieces.drop_last());
            if pieces.len() == 1 {
                before.insert_str(pieces[0])
            } else {
                before.break_line().insert_str(pieces.last())
            }
        }
    }

    /// Types the clipboard's text at the cursor, in place of the selection;
    /// every `'\n'` in it breaks the line as Enter does, indentation included.
    pub open spec fn paste(self) -> EditorModel {
        match self.clipboard {
            Some(clip) => self.delete_selection().paste_pieces(split_lines(clip)),
            None => self,
        }
    }

    /// While the clipboard is pasted, the text never grows beyond what a
    /// `usize` counts.
    pub open spec fn paste_fits(self) -> bool {
        match self.clipboard {
            Some(clip) => forall|k: int|
                0 <= k <= split_lines(clip).len() ==> #[trigger] self.delete_selection().paste_pieces(
                    split_lines(clip).take(k),
                ).text().len() < usize::MAX,
            None => true,
        }
    }

    /// Scrolls so that the cursor is within a view of `rows` lines and `cols` columns.
    pub open spec fn scroll_to_cursor(self, rows: int, cols: int) -> EditorModel {
        let cl = self.cursor.line as int;
        let cc = self.cursor.col as int;
        let l1 = if cl < self.scroll.line { cl } else { self.scroll.line as int };
        let l2 = if cl >= l1 + rows { sat_sub(cl, sat_sub(rows, 1)) } else { l1 };
        let c1 = if cc < self.scroll.col { cc } else { self.scroll.col as int };
        let c2 = if cc >= c1 + cols { sat_sub(cc, sat_sub(cols, 1)) } else { c1 };
        EditorModel { scroll: Pos { line: l2 as usize, col: c2 as usize }, ..self }
    }

    /// The text position under view cell `(x, y)`, pulled into the text.
    pub open spec fn pos_at(self, x: int, y: int) -> Pos {
        self.clamped(
            min_int(self.scroll.line + y, self.lines.len() - 1),
            self.scroll.col + x,
        )
    }

    pub open spec fn click(self, x: int, y: int) -> EditorModel {
        EditorModel { selection: None, cursor: self.pos_at(x, y), ..self }
    }

    pub open spec fn drag(self, x: int, y: int) -> EditorModel {
        let anchor = match self.selection {
            Some(s) => s.anchor,
            None => self.cursor,
        };
        EditorModel {
            cursor: self.pos_at(x, y),
            selection: Some(Selection { anchor, cursor: self.pos_at(x, y) }),
            ..self
        }
    }

    pub open spec fn scroll_left_cols(self, n: int) -> EditorModel {
        EditorModel {
            selection: None,
            cursor: Pos { line: self.cursor.line, col: sat_sub(self.cursor.col as int, n) as usize },
            ..self
        }
    }

    pub open spec fn scroll_right_cols(self, n: int) -> EditorModel {
        EditorModel {
            selection: None,
            cursor: self.clamped(self.cursor.line as int, self.cursor.col + n),
            ..self
        }
    }
}

// ── The joined text under edits ───────────────────────────────────────────────

/// Joined text of a lines list with at least two lines: first line, the
/// lines between with their separators, last line.
pub open spec fn inner_text(m: Seq<Seq<char>>) -> Seq<char> {
    if m.len() == 0 {
        seq!['\n']
    } else {
        seq!['\n'] + join_lines(m) + seq!['\n']
    }
}

pub proof fn lemma_join_first_last(u: Seq<Seq<char>>)
    requires
        u.len() >= 2,
    ensures
        join_lines(u) == u[0] + inner_text(u.subrange(1, u.len() - 1)) + u.last(),
{
    let m = u.subrange(1, u.len() - 1);
    let first = seq![u[0]];
    let last = seq![u.last()];
    assert(join_lines(first) == u[0]);
    assert(join_lines(last) == u.last());
    if m.len() == 0 {
        assert(u =~= first + last);
        lemma_join_concat(first, last);
        assert(join_lines(u) =~= u[0] + inner_text(m) + u.last());
    } else {
        assert(u =~= first + m + last);
        lemma_join_concat(first, m);
        lemma_join_concat(first + m, last);
        assert(join_lines(u) =~= u[0] + inner_text(m) + u.last());
    }
}

/// The joined text around a block of lines `a..=b`.
pub proof fn lemma_join_block(t: Seq<Seq<char>>, a: int, b: int)
    requires
        0 <= a <= b < t.len(),
    ensures
        join_lines(t) == text_before(t, a) + join_lines(t.subrange(a, b + 1)) + text_after(t, b),
{
    let blk = t.subrange(a, b + 1);
    if a > 0 {
        if b + 1 < t.len() {
            assert(t =~= t.take(a) + blk + t.skip(b + 1));
            lemma_join_concat(t.take(a), blk);
            lemma_join_concat(t.take(a) + blk, t.skip(b + 1));
        } else {
            assert(t =~= t.take(a) + blk);
            lemma_join_concat(t.take(a), blk);
        }
    } else {
        if b + 1 < t.len() {
            assert(t =~= blk + t.skip(b + 1));
            lemma_join_concat(blk, t.skip(b + 1));
        } else {
            assert(t =~= blk);
        }
    }
    assert(join_lines(t) =~= text_before(t, a) + join_lines(blk) + text_after(t, b));
}

/// The joined text around the text from `s` to `e` on one line.
proof fn lemma_join_extract_one_line(t: Seq<Seq<char>>, s: Pos, e: Pos)
    requires
        s.line == e.line,
        s.col <= e.col,
        e.line < t.len(),
        e.col <= t[e.line as int].len(),
    ensures
        join_lines(t) == text_before(t, s.line as int) + t[s.line as int].take(s.col as int)
            + extract(t, s, e) + t[e.line as int].skip(e.col as int) + text_after(
            t,
            e.line as int,
        ),
        join_lines(remove_range(t, s, e)) == text_before(t, s.line as int) + t[s.line as int].take(
            s.col as int,
        ) + t[e.line as int].skip(e.col as int) + text_after(t, e.line as int),
{
    let l = s.line as int;
    let x = t[l];
    let merged = x.take(s.col as int) + x.skip(e.col as int);
    lemma_join_at(t, l);
    assert(x =~= x.take(s.col as int) + x.subrange(s.col as int, e.col as int) + x.skip(
        e.col as int,
    ));
    assert(remove_range(t, s, e) =~= t.update(l, merged));
    lemma_around_update(t, l, merged);
}

/// The joined text around the text from `s` to `e` on different lines.
proof fn lemma_join_extract_lines(t: Seq<Seq<char>>, s: Pos, e: Pos)
    requires
        s.line < e.line < t.len(),
        s.col <= t[s.line as int].len(),
        e.col <= t[e.line as int].len(),
    ensures
        join_lines(t) == text_before(t, s.line as int) + t[s.line as int].take(s.col as int)
            + extract(t, s, e) + t[e.line as int].skip(e.col as int) + text_after(
            t,
            e.line as int,
        ),
{
    let sl = s.line as int;
    let el = e.line as int;
    let x = t[sl];
    let y = t[el];
    let blk = t.subrange(sl, el + 1);
    lemma_join_block(t, sl, el);
    lemma_join_first_last(blk);
    let m = blk.subrange(1, blk.len() - 1);
    assert(m =~= t.subrange(sl + 1, el));
    let u = seq![x.skip(s.col as int)] + t.subrange(sl + 1, el) + seq![y.take(e.col as int)];
    lemma_join_first_last(u);
    assert(u.subrange(1, u.len() - 1) =~= m);
    assert(x =~= x.take(s.col as int) + x.skip(s.col as int));
    assert(y =~= y.take(e.col as int) + y.skip(e.col as int));
    assert(join_lines(t) =~= text_before(t, sl) + x.take(s.col as int) + extract(t, s, e)
        + y.skip(e.col as int) + text_after(t, el));
}

/// Removing the text from `s` to `e` on different lines.
proof fn lemma_join_remove_lines(t: Seq<Seq<char>>, s: Pos, e: Pos)
    requires
        s.line < e.line < t.len(),
    ensures
        join_lines(remove_range(t, s, e)) == text_before(t, s.line as int) + t[s.line as int].take(
            s.col as int,
        ) + t[e.line as int].skip(e.col as int) + text_after(t, e.line as int),
{
    let sl = s.line as int;
    let el = e.line as int;
    let r = remove_range(t, s, e);
    lemma_join_at(r, sl);
    assert(r.take(sl) =~= t.take(sl));
    assert(r.skip(sl + 1) =~= t.skip(el + 1));
    assert(text_before(r, sl) == text_before(t, sl));
    assert(text_after(r, sl) == text_after(t, el));
}

/// The joined text around the text from `s` to `e`: what comes before `s`,
/// the extracted text, and what comes after `e`.
pub proof fn lemma_join_extract(t: Seq<Seq<char>>, s: Pos, e: Pos)
    requires
        pos_le(s, e),
        e.line < t.len(),
        s.col <= t[s.line as int].len(),
        e.col <= t[e.line as int].len(),
    ensures
        join_lines(t) == text_before(t, s.line as int) + t[s.line as int].take(s.col as int)
            + extract(t, s, e) + t[e.line as int].skip(e.col as int) + text_after(
            t,
            e.line as int,
        ),
        join_lines(remove_range(t, s, e)) == text_before(t, s.line as int) + t[s.line as int].take(
            s.col as int,
        ) + t[e.line as int].skip(e.col as int) + text_after(t, e.line as int),
        remove_range(t, s, e).len() == t.len() - (e.line - s.line),
{
    if s.line == e.line {
        lemma_join_extract_one_line(t, s, e);
    } else {
        lemma_join_extract_lines(t, s, e);
        lemma_join_remove_lines(t, s, e);
    }
}

} // verus!
