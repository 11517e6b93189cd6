//! The text buffer of one open file: lines, cursor, selection, clipboard.
//!
//! Every operation is stated as the corresponding transformation of
//! `EditorModel`, the editor's abstract state (see `model.rs`).
use vstd::prelude::*;
use vstd::string::*;
use crate::chars::is_alphanumeric;
use crate::model::{
    EditorModel, pos_le, mark, min_int, matching_pair, remove_range, extract, word_start,
    lemma_join_extract,
};
use crate::text::{
    char_count, substring, char_at, concat, cut_out, replace_range, char_string, push_char,
    leading_indent_len, join_lines, spaces, lemma_line_len_le_join, string_views, split_lines,
    split_newlines, lines_of, join_with_newlines, file_lines,
};

verus! {

/// A position in the text: a line index and a character column.
#[derive(Debug, Clone, Copy, PartialEq, Eq, Structural)]
pub struct Pos {
    pub line: usize,
    pub col: usize,
}

impl Pos {
    pub fn new(line: usize, col: usize) -> (p: Pos)
        ensures
            p == (Pos { line, col }),
    {
        Pos { line, col }
    }
}

/// A selection between the position where it began and the cursor.
#[derive(Debug, Clone, Copy, PartialEq, Eq, Structural)]
pub struct Selection {
    pub anchor: Pos,
    pub cursor: Pos,
}

impl Selection {
    /// Returns (start, end) in normalized (left-to-right) order.
    pub fn normalized(&self) -> (r: (Pos, Pos))
        ensures
            r == self.ordered(),
            pos_le(r.0, r.1),
    {
        let (a, b) = (self.anchor, self.cursor);
        if a.line < b.line || (a.line == b.line && a.col <= b.col) {
            (a, b)
        } else {
            (b, a)
        }
    }
}

pub struct Editor {
    pub path: String,
    pub lines: Vec<String>,
    pub cursor: Pos,
    pub scroll: Pos,
    pub selection: Option<Selection>,
    pub modified: bool,
    pub clipboard: Option<String>,
    /// First line that needs re-highlighting. None = cache is clean.
    pub dirty_from_line: Option<usize>,
}

pub open spec fn opt_string_view(o: Option<String>) -> Option<Seq<char>> {
    match o {
        Some(s) => Some(s@),
        None => None,
    }
}

impl View for Editor {
    type V = EditorModel;

    open spec fn view(&self) -> EditorModel {
        EditorModel {
            path: self.path@,
            lines: string_views(self.lines@),
            cursor: self.cursor,
            scroll: self.scroll,
            selection: self.selection,
            modified: self.modified,
            clipboard: opt_string_view(self.clipboard),
            dirty_from_line: self.dirty_from_line,
        }
    }
}

/// Lines `t` with line `l` replaced by `s`, in view.
proof fn lemma_views_update(t: Seq<String>, l: int, s: String)
    requires
        0 <= l < t.len(),
    ensures
        string_views(t.update(l, s)) == string_views(t).update(l, s@),
{
    assert(string_views(t.update(l, s)) =~= string_views(t).update(l, s@));
}

proof fn lemma_views_remove(t: Seq<String>, l: int)
    requires
        0 <= l < t.len(),
    ensures
        string_views(t.remove(l)) == string_views(t).remove(l),
{
    assert(string_views(t.remove(l)) =~= string_views(t).remove(l));
}

proof fn lemma_views_insert(t: Seq<String>, l: int, s: String)
    requires
        0 <= l <= t.len(),
    ensures
        string_views(t.insert(l, s)) == string_views(t).insert(l, s@),
{
    assert(string_views(t.insert(l, s)) =~= string_views(t).insert(l, s@));
}

/// Removes `n` lines starting at `at`.
fn remove_lines(v: &mut Vec<String>, at: usize, n: usize)
    requires
        at + n <= old(v).len(),
    ensures
        final(v)@ == old(v)@.take(at as int) + old(v)@.skip(at + n),
{
    let mut k: usize = 0;
    while k < n
        invariant
            at + n <= old(v).len(),
            k <= n,
            v@ == old(v)@.take(at as int) + old(v)@.skip(at + k),
        decreases n - k,
    {
        v.remove(at);
        k = k + 1;
        proof {
            assert(v@ =~= old(v)@.take(at as int) + old(v)@.skip(at + k));
        }
    }
    proof {
        assert(v@ =~= old(v)@.take(at as int) + old(v)@.skip(at + n));
    }
}

/// Whether `open` followed by `close` is a bracket or quote pair.
fn is_matching_pair(open: char, close: char) -> (r: bool)
    ensures
        r == matching_pair(open, close),
{
    (open == '(' && close == ')') || (open == '[' && close == ']') || (open == '{' && close
        == '}') || (open == '"' && close == '"') || (open == '\'' && close == '\'') || (open
        == '`' && close == '`')
}

impl Editor {
    /// Create an editor from a pre-built list of lines; an empty list stands for one empty line.
    pub fn from_lines(path: String, lines: Vec<String>) -> (e: Editor)
        ensures
            e@ == (EditorModel {
                path: path@,
                lines: if lines@.len() == 0 {
                    seq![Seq::<char>::empty()]
                } else {
                    string_views(lines@)
                },
                cursor: Pos { line: 0, col: 0 },
                scroll: Pos { line: 0, col: 0 },
                selection: None,
                modified: false,
                clipboard: None,
                dirty_from_line: Some(0),
            }),
            e@.inv(),
    {
        let lines = if lines.len() == 0 {
            let mut v: Vec<String> = Vec::new();
            v.push(String::new());
            proof {
                assert(string_views(v@) =~= seq![Seq::<char>::empty()]);
            }
            v
        } else {
            lines
        };
        let e = Editor {
            path,
            lines,
            cursor: Pos::new(0, 0),
            scroll: Pos::new(0, 0),
            selection: None,
            modified: false,
            clipboard: None,
            dirty_from_line: Some(0),
        };
        e
    }

    /// An editor for a file whose text is `content`, split into lines as
    /// `str::lines` splits it; a file without lines gets one empty line.
    pub fn from_text(path: String, content: &str) -> (e: Editor)
        ensures
            e@ == (EditorModel {
                path: path@,
                lines: if file_lines(content@).len() == 0 {
                    seq![Seq::<char>::empty()]
                } else {
                    file_lines(content@)
                },
                cursor: Pos { line: 0, col: 0 },
                scroll: Pos { line: 0, col: 0 },
                selection: None,
                modified: false,
                clipboard: None,
                dirty_from_line: Some(0),
            }),
            e@.inv(),
    {
        let lines = lines_of(content);
        Self::from_lines(path, lines)
    }

    /// The text to write back to the file: the lines joined with `'\n'`.
    pub fn contents(&self) -> (r: String)
        ensures
            r@ == self@.text(),
    {
        join_with_newlines(&self.lines)
    }

    /// Records that the text has been written out.
    pub fn mark_saved(&mut self)
        ensures
            final(self)@ == (EditorModel { modified: false, ..old(self)@ }),
    {
        self.modified = false;
    }

    /// The file's name: the last component of its path, or "untitled".
    pub fn filename(&self) -> (r: &str)
        ensures
            r@ == match crate::paths::file_name(self.path@) {
                Some(n) => n,
                None => "untitled"@,
            },
    {
        match crate::paths::path_file_name(self.path.as_str()) {
            Some(n) => n,
            None => "untitled",
        }
    }

    pub fn line_count(&self) -> (n: usize)
        ensures
            n == self@.lines.len(),
    {
        self.lines.len()
    }

    // ── Helpers ──────────────────────────────────────────────────────────────

    fn line_char_count(&self, line: usize) -> (n: usize)
        requires
            line < self@.lines.len(),
        ensures
            n == self@.lines[line as int].len(),
    {
        char_count(self.lines[line].as_str())
    }

    fn clamp_col(&self, line: usize, col: usize) -> (c: usize)
        requires
            line < self@.lines.len(),
        ensures
            c == min_int(col as int, self@.lines[line as int].len() as int),
    {
        let n = self.line_char_count(line);
        if col < n {
            col
        } else {
            n
        }
    }

    fn mark_dirty(&mut self, line: usize)
        ensures
            final(self)@ == (EditorModel {
                dirty_from_line: mark(old(self)@.dirty_from_line, line),
                ..old(self)@
            }),
    {
        self.dirty_from_line = Some(
            match self.dirty_from_line {
                Some(existing) => if existing <= line {
                    existing
                } else {
                    line
                },
                None => line,
            },
        );
    }

    /// Replaces line `l`.
    fn set_line(&mut self, l: usize, s: String)
        requires
            l < old(self)@.lines.len(),
        ensures
            final(self)@ == (EditorModel {
                lines: old(self)@.lines.update(l as int, s@),
                ..old(self)@
            }),
    {
        proof {
            lemma_views_update(self.lines@, l as int, s);
        }
        self.lines.set(l, s);
    }

    // ── Cursor movement ──────────────────────────────────────────────────────

    fn update_selection(&mut self, selecting: bool)
        ensures
            final(self)@ == old(self)@.begin_select(selecting),
    {
        if selecting && self.selection.is_none() {
            self.selection = Some(Selection { anchor: self.cursor, cursor: self.cursor });
        }
    }

    fn extend_selection(&mut self)
        ensures
            final(self)@ == old(self)@.end_select(true),
    {
        if let Some(sel) = self.selection {
            self.selection = Some(Selection { anchor: sel.anchor, cursor: self.cursor });
        }
    }

    /// Moves the cursor to `p`, after `update_selection`.
    fn finish_move(&mut self, p: Pos, selecting: bool)
        ensures
            final(self)@ == old(self)@.with_cursor(p).end_select(selecting),
    {
        self.cursor = p;
        if selecting {
            self.extend_selection();
        } else {
            self.selection = None;
        }
        proof {
            assert(self@ =~= old(self)@.with_cursor(p).end_select(selecting));
        }
    }

    pub fn move_left(&mut self, selecting: bool)
        requires
            old(self)@.inv(),
        ensures
            final(self)@ == old(self)@.move_left(selecting),
            final(self)@.inv(),
    {
        self.update_selection(selecting);
        let mut p = self.cursor;
        if p.col > 0 {
            p.col = p.col - 1;
        } else if p.line > 0 {
            p.line = p.line - 1;
            p.col = self.line_char_count(p.line);
        }
        self.finish_move(p, selecting);
    }

    pub fn move_right(&mut self, selecting: bool)
        requires
            old(self)@.inv(),
        ensures
            final(self)@ == old(self)@.move_right(selecting),
            final(self)@.inv(),
    {
        self.update_selection(selecting);
        let mut p = self.cursor;
        let len = self.line_char_count(p.line);
        if p.col < len {
            p.col = p.col + 1;
        } else if p.line < self.lines.len() - 1 {
            p.line = p.line + 1;
            p.col = 0;
        }
        self.finish_move(p, selecting);
    }

    pub fn move_up(&mut self, selecting: bool)
        requires
            old(self)@.inv(),
        ensures
            final(self)@ == old(self)@.move_up(selecting),
            final(self)@.inv(),
    {
        self.update_selection(selecting);
        let mut p = self.cursor;
        if p.line > 0 {
            p.line = p.line - 1;
            p.col = self.clamp_col(p.line, p.col);
        }
        self.finish_move(p, selecting);
    }

    pub fn move_down(&mut self, selecting: bool)
        requires
            old(self)@.inv(),
        ensures
            final(self)@ == old(self)@.move_down(selecting),
            final(self)@.inv(),
    {
        self.update_selection(selecting);
        let mut p = self.cursor;
        if p.line < self.lines.len() - 1 {
            p.line = p.line + 1;
            p.col = self.clamp_col(p.line, p.col);
        }
        self.finish_move(p, selecting);
    }

    pub fn move_home(&mut self, selecting: bool)
        requires
            old(self)@.inv(),
        ensures
            final(self)@ == old(self)@.move_home(selecting),
            final(self)@.inv(),
    {
        self.update_selection(selecting);
        let p = Pos { line: self.cursor.line, col: 0 };
        self.finish_move(p, selecting);
    }

    pub fn move_end(&mut self, selecting: bool)
        requires
            old(self)@.inv(),
        ensures
            final(self)@ == old(self)@.move_end(selecting),
            final(self)@.inv(),
    {
        self.update_selection(selecting);
        let p = Pos { line: self.cursor.line, col: self.line_char_count(self.cursor.line) };
        self.finish_move(p, selecting);
    }

    pub fn page_up(&mut self, lines: usize)
        requires
            old(self)@.inv(),
        ensures
            final(self)@ == old(self)@.page_up(lines as int),
            final(self)@.inv(),
    {
        self.selection = None;
        self.cursor.line = self.cursor.line.saturating_sub(lines);
        self.cursor.col = self.clamp_col(self.cursor.line, self.cursor.col);
        proof {
            assert(self@ =~= old(self)@.page_up(lines as int));
        }
    }

    pub fn page_down(&mut self, lines: usize)
        requires
            old(self)@.inv(),
            old(self).cursor.line + lines <= usize::MAX,
        ensures
            final(self)@ == old(self)@.page_down(lines as int),
            final(self)@.inv(),
    {
        self.selection = None;
        let target = self.cursor.line + lines;
        let last = self.lines.len() - 1;
        self.cursor.line = if target < last {
            target
        } else {
            last
        };
        self.cursor.col = self.clamp_col(self.cursor.line, self.cursor.col);
        proof {
            assert(self@ =~= old(self)@.page_down(lines as int));
        }
    }

    // ── Selection ────────────────────────────────────────────────────────────

    pub fn select_all(&mut self)
        requires
            old(self)@.inv(),
        ensures
            final(self)@ == old(self)@.select_all(),
            final(self)@.inv(),
    {
        let last_line = self.lines.len() - 1;
        let last_col = self.line_char_count(last_line);
        self.cursor = Pos::new(last_line, last_col);
        self.selection = Some(Selection { anchor: Pos::new(0, 0), cursor: self.cursor });
        proof {
            assert(self@ =~= old(self)@.select_all());
        }
    }

    // ── Text input ───────────────────────────────────────────────────────────

    pub fn insert_char(&mut self, c: char)
        requires
            old(self)@.inv(),
            old(self)@.text().len() < usize::MAX,
        ensures
            final(self)@ == old(self)@.insert_char(c),
            final(self)@.inv(),
    {
        if self.selection.is_some() {
            self.delete_selection();
        }
        let ghost m1 = self@;
        let l = self.cursor.line;
        let col = self.cursor.col;
        proof {
            lemma_line_len_le_join(self@.lines, l as int);
        }
        let mid = char_string(c);
        let new = replace_range(self.lines[l].as_str(), col, col, mid.as_str());
        self.set_line(l, new);
        self.cursor.col = col + 1;
        self.modified = true;
        self.mark_dirty(l);
        proof {
            assert(self@ =~= m1.insert_str(seq![c]));
        }
    }

    pub fn insert_newline(&mut self)
        requires
            old(self)@.inv(),
        ensures
            final(self)@ == old(self)@.insert_newline(),
            final(self)@.inv(),
    {
        if self.selection.is_some() {
            self.delete_selection();
        }
        let ghost m1 = self@;
        let l = self.cursor.line;
        let col = self.cursor.col;
        let len = self.line_char_count(l);
        let ind = leading_indent_len(self.lines[l].as_str());
        proof {
            crate::text::lemma_indent_end_bounds(self@.lines[l as int], 0);
        }
        let indent = substring(self.lines[l].as_str(), 0, ind);
        let rest = substring(self.lines[l].as_str(), col, len);
        let new_line = concat(indent.as_str(), rest.as_str());
        let head = substring(self.lines[l].as_str(), 0, col);
        self.set_line(l, head);
        let n = self.lines.len();
        proof {
            assert(n == self@.lines.len());
            lemma_views_insert(self.lines@, l + 1, new_line);
        }
        self.lines.insert(l + 1, new_line);
        self.cursor.line = l + 1;
        self.cursor.col = ind;
        self.modified = true;
        self.mark_dirty(l);
        proof {
            let line = m1.lines[l as int];
            assert(line.take(ind as int) =~= line.subrange(0, ind as int));
            assert(line.skip(col as int) =~= line.subrange(col as int, len as int));
            assert(line.take(col as int) =~= line.subrange(0, col as int));
            assert(self@ =~= m1.break_line());
        }
    }

    pub fn insert_tab(&mut self, tab_size: usize)
        requires
            old(self)@.inv(),
            old(self)@.cur_line().len() + tab_size <= usize::MAX,
        ensures
            final(self)@ == old(self)@.insert_tab(tab_size as nat),
            final(self)@.inv(),
    {
        self.mark_dirty(self.cursor.line);
        let mut sp = String::new();
        let mut k: usize = 0;
        while k < tab_size
            invariant
                k <= tab_size,
                sp@ == spaces(k as nat),
            decreases tab_size - k,
        {
            push_char(&mut sp, ' ');
            k = k + 1;
            proof {
                assert(sp@ =~= spaces(k as nat));
            }
        }
        let l = self.cursor.line;
        let col = self.cursor.col;
        let new = replace_range(self.lines[l].as_str(), col, col, sp.as_str());
        self.set_line(l, new);
        self.cursor.col = col + tab_size;
        self.modified = true;
        proof {
            assert(self@ =~= old(self)@.insert_tab(tab_size as nat));
        }
    }

    // ── Deletion ─────────────────────────────────────────────────────────────

    /// Removes columns `from..to` of the cursor's line; the cursor goes to `from`.
    fn cut_in_line(&mut self, from: usize, to: usize)
        requires
            old(self)@.inv(),
            old(self).selection is None,
            from <= to <= old(self)@.cur_line().len(),
        ensures
            final(self)@ == old(self)@.cut_in_line(from as int, to as int),
            final(self)@.inv(),
    {
        let l = self.cursor.line;
        let new = cut_out(self.lines[l].as_str(), from, to);
        self.set_line(l, new);
        self.cursor.col = from;
        self.modified = true;
        self.mark_dirty(l);
        proof {
            assert(self@ =~= old(self)@.cut_in_line(from as int, to as int));
        }
    }

    /// Appends line `l + 1` to line `l`; the cursor goes to the join point.
    fn join_with_next(&mut self, l: usize)
        requires
            old(self)@.inv(),
            old(self).selection is None,
            l + 1 < old(self)@.lines.len(),
        ensures
            final(self)@ == old(self)@.join_with_next(l as int),
            final(self)@.inv(),
    {
        let a_len = self.line_char_count(l);
        let n = self.lines.len();
        proof {
            assert(n == self@.lines.len());
            lemma_views_remove(self.lines@, l + 1);
        }
        let next = self.lines.remove(l + 1);
        let new = concat(self.lines[l].as_str(), next.as_str());
        self.set_line(l, new);
        self.cursor = Pos::new(l, a_len);
        self.modified = true;
        self.mark_dirty(l);
        proof {
            let t = old(self)@.lines;
            assert(t.remove(l + 1).update(l as int, t[l as int] + t[l + 1]) =~= t.update(
                l as int,
                t[l as int] + t[l + 1],
            ).remove(l + 1));
            assert(self@ =~= old(self)@.join_with_next(l as int));
        }
    }

    pub fn backspace(&mut self)
        requires
            old(self)@.inv(),
        ensures
            final(self)@ == old(self)@.backspace(),
            final(self)@.inv(),
    {
        if self.selection.is_some() {
            self.delete_selection();
            return;
        }
        let l = self.cursor.line;
        let col = self.cursor.col;
        let len = self.line_char_count(l);
        // Delete both brackets/quotes if cursor sits between a matching pair
        if col > 0 && col < len {
            let p = char_at(self.lines[l].as_str(), col - 1);
            let n = char_at(self.lines[l].as_str(), col);
            if is_matching_pair(p, n) {
                self.cut_in_line(col - 1, col + 1);
                return;
            }
        }
        if col > 0 {
            self.cut_in_line(col - 1, col);
        } else if l > 0 {
            self.join_with_next(l - 1);
        }
    }

    pub fn delete_key(&mut self)
        requires
            old(self)@.inv(),
        ensures
            final(self)@ == old(self)@.delete_key(),
            final(self)@.inv(),
    {
        if self.selection.is_some() {
            self.delete_selection();
            return;
        }
        let l = self.cursor.line;
        let col = self.cursor.col;
        let line_len = self.line_char_count(l);
        if col < line_len {
            self.cut_in_line(col, col + 1);
        } else if l < self.lines.len() - 1 {
            let p = self.cursor;
            self.join_with_next(l);
            self.cursor = p;
            proof {
                assert(self@ =~= old(self)@.join_with_next(l as int).with_cursor(p));
            }
        }
    }

    // ── Clipboard ────────────────────────────────────────────────────────────

    pub fn copy(&mut self) -> (r: Option<String>)
        requires
            old(self)@.inv(),
        ensures
            opt_string_view(r) == old(self)@.selected_text(),
            final(self)@ == old(self)@.copy(),
            final(self)@.inv(),
    {
        let sel = match self.selection {
            Some(s) => s,
            None => return None,
        };
        let (start, end) = sel.normalized();
        let text = self.extract_text(start, end);
        self.clipboard = Some(text.clone());
        proof {
            assert(self@ =~= old(self)@.copy());
        }
        Some(text)
    }

    pub fn cut(&mut self) -> (r: Option<String>)
        requires
            old(self)@.inv(),
        ensures
            opt_string_view(r) == old(self)@.selected_text(),
            final(self)@ == old(self)@.cut(),
            final(self)@.inv(),
    {
        let text = self.copy()?;
        self.delete_selection();
        Some(text)
    }

    pub fn paste(&mut self)
        requires
            old(self)@.inv(),
            old(self)@.paste_fits(),
        ensures
            final(self)@ == old(self)@.paste(),
            final(self)@.inv(),
    {
        let text = match &self.clipboard {
            Some(t) => t.clone(),
            None => return ,
        };
        if self.selection.is_some() {
            self.delete_selection();
        }
        let ghost m1 = self@;
        let pieces = split_newlines(text.as_str());
        let ghost ps = string_views(pieces@);
        proof {
            crate::text::lemma_join_split(text@);
            assert(ps.take(0) =~= Seq::<Seq<char>>::empty());
        }
        let mut i: usize = 0;
        while i < pieces.len()
            invariant
                ps == string_views(pieces@),
                ps == split_lines(text@),
                old(self)@.clipboard == Some(text@),
                m1 == old(self)@.delete_selection(),
                old(self)@.paste_fits(),
                m1.selection is None,
                i <= pieces.len(),
                self@ == m1.paste_pieces(ps.take(i as int)),
                self@.inv(),
                self.selection is None,
            decreases pieces.len() - i,
        {
            let ghost after = m1.paste_pieces(ps.take(i + 1));
            let ghost before = self@;
            proof {
                assert(ps.take(i + 1).drop_last() =~= ps.take(i as int));
                assert(ps.take(i + 1).last() == ps[i as int]);
                assert(old(self)@.delete_selection().paste_pieces(
                    split_lines(text@).take(i + 1),
                ).text().len() < usize::MAX);
                assert(after.text().len() < usize::MAX);
                if i == 0 {
                    assert(after == before.insert_str(ps[i as int]));
                } else {
                    assert(after == before.break_line().insert_str(ps[i as int]));
                }
            }
            if i > 0 {
                self.insert_newline();
            }
            proof {
                assert(after == self@.insert_str(ps[i as int]));
                let l = self.cursor.line as int;
                let c = self.cursor.col as int;
                let line = self@.lines[l];
                let piece = ps[i as int];
                assert(piece == pieces@[i as int]@);
                lemma_line_len_le_join(after.lines, l);
                if piece.len() > 0 {
                    assert(after.lines[l] == line.take(c) + piece + line.skip(c));
                } else {
                    assert(after == self@);
                }
            }
            self.insert_text(pieces[i].as_str());
            i = i + 1;
        }
        proof {
            assert(ps.take(pieces@.len() as int) =~= ps);
        }
    }

    /// Types `s` at the cursor (no selection involved).
    fn insert_text(&mut self, s: &str)
        requires
            old(self)@.inv(),
            old(self).selection is None,
            old(self)@.cur_line().len() + s@.len() <= usize::MAX,
        ensures
            final(self)@ == old(self)@.insert_str(s@),
            final(self)@.inv(),
            final(self).selection is None,
    {
        let n = char_count(s);
        if n == 0 {
            return ;
        }
        let l = self.cursor.line;
        let col = self.cursor.col;
        let new = replace_range(self.lines[l].as_str(), col, col, s);
        self.set_line(l, new);
        self.cursor.col = col + n;
        self.modified = true;
        self.mark_dirty(l);
        proof {
            assert(self@ =~= old(self)@.insert_str(s@));
        }
    }

    // ── Internal helpers ─────────────────────────────────────────────────────

    /// The text from `start` to `end`, lines joined with `'\n'`.
    fn extract_text(&self, start: Pos, end: Pos) -> (r: String)
        requires
            self@.inv(),
            pos_le(start, end),
            self@.valid_pos(start),
            self@.valid_pos(end),
        ensures
            r@ == extract(self@.lines, start, end),
    {
        let ghost t = self@.lines;
        if start.line == end.line {
            return substring(self.lines[start.line].as_str(), start.col, end.col);
        }
        let first_len = self.line_char_count(start.line);
        let mut out = substring(self.lines[start.line].as_str(), start.col, first_len);
        let ghost first = t[start.line as int].skip(start.col as int);
        proof {
            assert(out@ =~= first);
            assert(join_lines(seq![first] + t.subrange(start.line + 1, start.line + 1)) =~= first);
        }
        let mut l = start.line + 1;
        while l < end.line
            invariant
                self@.inv(),
                start.line < l <= end.line < t.len(),
                t == self@.lines,
                out@ == join_lines(seq![first] + t.subrange(start.line + 1, l as int)),
            decreases end.line - l,
        {
            push_char(&mut out, '\n');
            out.append(self.lines[l].as_str());
            proof {
                let u = seq![first] + t.subrange(start.line + 1, l + 1);
                assert(u.drop_last() =~= seq![first] + t.subrange(start.line + 1, l as int));
                assert(out@ =~= join_lines(u));
            }
            l = l + 1;
        }
        let last = substring(self.lines[end.line].as_str(), 0, end.col);
        push_char(&mut out, '\n');
        out.append(last.as_str());
        proof {
            let u = seq![first] + t.subrange(start.line + 1, end.line as int) + seq![
                t[end.line as int].take(end.col as int),
            ];
            assert(u.drop_last() =~= seq![first] + t.subrange(start.line + 1, end.line as int));
            assert(t[end.line as int].take(end.col as int) =~= last@);
            assert(out@ =~= join_lines(u));
        }
        out
    }

    fn delete_selection(&mut self)
        requires
            old(self)@.inv(),
        ensures
            final(self)@ == old(self)@.delete_selection(),
            final(self)@.inv(),
            final(self)@.text().len() <= old(self)@.text().len(),
    {
        let sel = match self.selection {
            Some(s) => s,
            None => return ,
        };
        let ghost t = old(self)@.lines;
        self.selection = None;
        let (start, end) = sel.normalized();
        if start.line == end.line {
            let new = cut_out(self.lines[start.line].as_str(), start.col, end.col);
            self.set_line(start.line, new);
        } else {
            let el_len = self.line_char_count(end.line);
            let tail = substring(self.lines[end.line].as_str(), end.col, el_len);
            let head = substring(self.lines[start.line].as_str(), 0, start.col);
            let new = concat(head.as_str(), tail.as_str());
            self.set_line(start.line, new);
            let ghost v1 = self.lines@;
            proof {
                assert(self.lines@.len() == self@.lines.len());
            }
            remove_lines(&mut self.lines, start.line + 1, end.line - start.line);
            proof {
                let merged = t[start.line as int].take(start.col as int) + t[end.line as int].skip(
                    end.col as int,
                );
                assert(t[start.line as int].take(start.col as int) =~= head@);
                assert(t[end.line as int].skip(end.col as int) =~= tail@);
                assert(string_views(v1) == t.update(start.line as int, merged));
                assert(string_views(v1.take(start.line + 1) + v1.skip(end.line + 1))
                    =~= string_views(v1).take(start.line + 1) + string_views(v1).skip(
                    end.line + 1,
                ));
                assert(string_views(v1.take(start.line + 1) + v1.skip(end.line + 1)) =~= t.take(
                    start.line as int,
                ) + seq![merged] + t.skip(end.line + 1));
            }
        }
        self.cursor = start;
        self.modified = true;
        self.mark_dirty(start.line);
        proof {
            assert(self@.lines =~= remove_range(t, start, end));
            assert(self@ =~= old(self)@.delete_selection());
            lemma_join_extract(t, start, end);
        }
    }

    // ── Words and pairs ──────────────────────────────────────────────────────

    /// Column where the current word starts (alphanumeric / underscore chars before cursor).
    pub fn word_start_col(&self) -> (c: usize)
        requires
            self@.inv(),
        ensures
            c == word_start(self@.cur_line(), self.cursor.col as int),
    {
        let line = self.lines[self.cursor.line].as_str();
        let mut col = self.cursor.col;
        while col > 0
            invariant
                col <= self.cursor.col <= line@.len(),
                line@ == self@.cur_line(),
                word_start(line@, col as int) == word_start(line@, self.cursor.col as int),
            ensures
                col == word_start(line@, self.cursor.col as int),
            decreases col,
        {
            let ch = char_at(line, col - 1);
            if !(is_alphanumeric(ch) || ch == '_') {
                assert(word_start(line@, col as int) == col);
                break;
            }
            col = col - 1;
        }
        col
    }

    /// Replace text from `from_col` to current cursor col on the same line, then insert `new_text`.
    pub fn replace_word(&mut self, from_col: usize, new_text: &str)
        requires
            old(self)@.inv(),
            from_col + new_text@.len() <= usize::MAX,
        ensures
            final(self)@ == old(self)@.replace_word(from_col as int, new_text@),
            final(self)@.inv(),
    {
        let l = self.cursor.line;
        let len = self.line_char_count(l);
        let a = if from_col < len {
            from_col
        } else {
            len
        };
        let b = if self.cursor.col < len {
            self.cursor.col
        } else {
            len
        };
        let new = if a <= b {
            replace_range(self.lines[l].as_str(), a, b, new_text)
        } else {
            let before = substring(self.lines[l].as_str(), 0, a);
            let after = substring(self.lines[l].as_str(), b, len);
            let mid = concat(before.as_str(), new_text);
            proof {
                let line = self@.lines[l as int];
                assert(line.take(a as int) =~= before@);
                assert(line.skip(b as int) =~= after@);
            }
            concat(mid.as_str(), after.as_str())
        };
        self.set_line(l, new);
        self.cursor.col = a + char_count(new_text);
        self.selection = None;
        self.modified = true;
        self.mark_dirty(l);
        proof {
            assert(self@ =~= old(self)@.replace_word(from_col as int, new_text@));
        }
    }

    /// Insert an opening bracket and its closing pair, placing the cursor between them.
    pub fn insert_pair(&mut self, open: char, close: char)
        requires
            old(self)@.inv(),
            old(self)@.text().len() < usize::MAX,
        ensures
            final(self)@ == old(self)@.insert_pair(open, close),
            final(self)@.inv(),
    {
        if self.selection.is_some() {
            self.delete_selection();
        }
        let ghost m1 = self@;
        let l = self.cursor.line;
        let col = self.cursor.col;
        proof {
            lemma_line_len_le_join(self@.lines, l as int);
        }
        let mut mid = char_string(open);
        push_char(&mut mid, close);
        let new = replace_range(self.lines[l].as_str(), col, col, mid.as_str());
        self.set_line(l, new);
        self.cursor.col = col + 1;
        self.modified = true;
        self.mark_dirty(l);
        proof {
            assert(mid@ =~= seq![open, close]);
            assert(self@ =~= old(self)@.insert_pair(open, close));
        }
    }

    /// Collect words from the buffer that start with `prefix` (case-insensitive).
    /// Used as a fallback when no LSP is available.
    pub fn buffer_word_completions(&self, prefix: &str) -> (r: Vec<String>)
        ensures
            crate::words::completions_offered(self@.lines, prefix@, string_views(r@)),
    {
        crate::words::word_completions(&self.lines, prefix)
    }

    /// Returns the character immediately after the cursor (on the same line).
    pub fn char_at_cursor(&self) -> (r: Option<char>)
        requires
            self@.inv(),
        ensures
            r == if self.cursor.col < self@.cur_line().len() {
                Some(self@.cur_line()[self.cursor.col as int])
            } else {
                None
            },
    {
        let line = self.lines[self.cursor.line].as_str();
        if self.cursor.col < char_count(line) {
            Some(char_at(line, self.cursor.col))
        } else {
            None
        }
    }

    // ── Scrolling and the mouse ──────────────────────────────────────────────

    pub fn scroll_to_cursor(&mut self, view_lines: usize, view_cols: usize)
        requires
            old(self).scroll.line + view_lines <= usize::MAX,
            old(self).scroll.col + view_cols <= usize::MAX,
        ensures
            final(self)@ == old(self)@.scroll_to_cursor(view_lines as int, view_cols as int),
    {
        if self.cursor.line < self.scroll.line {
            self.scroll.line = self.cursor.line;
        }
        if self.cursor.line >= self.scroll.line + view_lines {
            self.scroll.line = self.cursor.line.saturating_sub(view_lines.saturating_sub(1));
        }
        if self.cursor.col < self.scroll.col {
            self.scroll.col = self.cursor.col;
        }
        if self.cursor.col >= self.scroll.col + view_cols {
            self.scroll.col = self.cursor.col.saturating_sub(view_cols.saturating_sub(1));
        }
        proof {
            assert(self@ =~= old(self)@.scroll_to_cursor(view_lines as int, view_cols as int));
        }
    }

    /// The text position under view cell `(text_x, text_y)`.
    fn pos_at(&self, text_x: usize, text_y: usize) -> (p: Pos)
        requires
            self@.inv(),
            self.scroll.line + text_y <= usize::MAX,
            self.scroll.col + text_x <= usize::MAX,
        ensures
            p == self@.pos_at(text_x as int, text_y as int),
            self@.valid_pos(p),
    {
        let y = self.scroll.line + text_y;
        let last = self.lines.len() - 1;
        let line = if y < last {
            y
        } else {
            last
        };
        let col = self.clamp_col(line, self.scroll.col + text_x);
        Pos::new(line, col)
    }

    /// Move cursor to a mouse click position (accounting for scroll offset).
    pub fn click(&mut self, text_x: usize, text_y: usize)
        requires
            old(self)@.inv(),
            old(self).scroll.line + text_y <= usize::MAX,
            old(self).scroll.col + text_x <= usize::MAX,
        ensures
            final(self)@ == old(self)@.click(text_x as int, text_y as int),
            final(self)@.inv(),
    {
        self.selection = None;
        self.cursor = self.pos_at(text_x, text_y);
        proof {
            assert(self@ =~= old(self)@.click(text_x as int, text_y as int));
        }
    }

    /// Extend selection while the mouse button is held (drag).
    /// The anchor is the position where the Down click occurred.
    pub fn drag(&mut self, text_x: usize, text_y: usize)
        requires
            old(self)@.inv(),
            old(self).scroll.line + text_y <= usize::MAX,
            old(self).scroll.col + text_x <= usize::MAX,
        ensures
            final(self)@ == old(self)@.drag(text_x as int, text_y as int),
            final(self)@.inv(),
    {
        let anchor = match self.selection {
            Some(sel) => sel.anchor,
            None => self.cursor,
        };
        self.cursor = self.pos_at(text_x, text_y);
        self.selection = Some(Selection { anchor, cursor: self.cursor });
        proof {
            assert(self@ =~= old(self)@.drag(text_x as int, text_y as int));
        }
    }

    /// Move cursor left by `n` columns (horizontal mouse scroll).
    pub fn scroll_left_cols(&mut self, n: usize)
        requires
            old(self)@.inv(),
        ensures
            final(self)@ == old(self)@.scroll_left_cols(n as int),
            final(self)@.inv(),
    {
        self.selection = None;
        self.cursor.col = self.cursor.col.saturating_sub(n);
        proof {
            assert(self@ =~= old(self)@.scroll_left_cols(n as int));
        }
    }

    /// Move cursor right by `n` columns (horizontal mouse scroll).
    pub fn scroll_right_cols(&mut self, n: usize)
        requires
            old(self)@.inv(),
            old(self).cursor.col + n <= usize::MAX,
        ensures
            final(self)@ == old(self)@.scroll_right_cols(n as int),
            final(self)@.inv(),
    {
        self.selection = None;
        let max_col = self.line_char_count(self.cursor.line);
        let c = self.cursor.col + n;
        self.cursor.col = if c < max_col {
            c
        } else {
            max_col
        };
        proof {
            assert(self@ =~= old(self)@.scroll_right_cols(n as int));
        }
    }
}

} // verus!
