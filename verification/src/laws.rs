//! Properties that relate several editing operations.
use vstd::prelude::*;
use crate::app::{AppModel, KeyPress, KeyInput, Action, Focus, unsaved_warning};
use crate::completion::{shown, shown_upto, shown_for, refiltered};
use crate::editor::{Pos, Selection};
use crate::file_tree::{
    ChildModel, listed_before, place, ordered_children, listed, hidden, dir_rows, kids_rows,
    tree_rows,
};
use crate::render::selected_cols;
use crate::words::{seq_lt, lemma_seq_lt_irreflexive, lemma_seq_lt_transitive, lowercase};
use crate::model::{
    sat_sub,
    EditorModel, extract, remove_range, offset, matching_pair, pos_le, lemma_join_extract,
};
use crate::text::{
    join_lines, split_lines, no_newline, text_before, text_after, indent_len, file_lines,
    strip_cr, lemma_around_update, lemma_split_no_newline, lemma_join_split,
};

verus! {

/// Typing a character and then pressing Backspace gives back the lines and
/// the cursor, unless the character opens a pair that the next character closes.
pub proof fn law_insert_char_then_backspace(m: EditorModel, c: char)
    requires
        m.inv(),
        m.selection is None,
        m.text().len() < usize::MAX,
        !(m.cursor.col < m.cur_line().len() && matching_pair(c, m.cur_line()[m.cursor.col as int])),
    ensures
        m.insert_char(c).backspace().lines == m.lines,
        m.insert_char(c).backspace().cursor == m.cursor,
{
    let l = m.cursor.line as int;
    let col = m.cursor.col as int;
    let line = m.lines[l];
    crate::text::lemma_line_len_le_join(m.lines, l);
    let m1 = m.insert_char(c);
    assert(m1 == m.insert_str(seq![c]));
    let line1 = line.take(col) + seq![c] + line.skip(col);
    assert(m1.lines[l] == line1);
    assert(line1[col] == c);
    if col < line.len() {
        assert(line1[col + 1] == line[col]);
    }
    assert(line1.take(col) + line1.skip(col + 1) =~= line);
    assert(m1.backspace().lines =~= m.lines);
}

/// Inserting a bracket or quote pair and then pressing Backspace gives back
/// the lines and the cursor.
pub proof fn law_insert_pair_then_backspace(m: EditorModel, open: char, close: char)
    requires
        m.inv(),
        m.selection is None,
        m.text().len() < usize::MAX,
        matching_pair(open, close),
    ensures
        m.insert_pair(open, close).backspace().lines == m.lines,
        m.insert_pair(open, close).backspace().cursor == m.cursor,
{
    let l = m.cursor.line as int;
    let col = m.cursor.col as int;
    let line = m.lines[l];
    crate::text::lemma_line_len_le_join(m.lines, l);
    let m1 = m.insert_pair(open, close);
    let line1 = line.take(col) + seq![open, close] + line.skip(col);
    assert(m1.lines[l] == line1);
    assert(line1[col] == open);
    assert(line1[col + 1] == close);
    assert(line1.take(col) + line1.skip(col + 2) =~= line);
    assert(m1.backspace().lines =~= m.lines);
}

/// Pressing Enter on a line without indentation and then Backspace gives
/// back the lines and the cursor.
pub proof fn law_newline_then_backspace(m: EditorModel)
    requires
        m.inv(),
        m.selection is None,
        indent_len(m.cur_line()) == 0,
        m.text().len() < usize::MAX,
    ensures
        m.insert_newline().backspace().lines == m.lines,
        m.insert_newline().backspace().cursor == m.cursor,
{
    let l = m.cursor.line as int;
    let col = m.cursor.col as int;
    let line = m.lines[l];
    crate::text::lemma_line_count_le_join(m.lines);
    let m1 = m.insert_newline();
    assert(line.take(0) =~= Seq::<char>::empty());
    assert(m1.lines[l + 1] =~= line.skip(col));
    assert(m1.lines[l] == line.take(col));
    assert(m1.cursor == Pos { line: (l + 1) as usize, col: 0 });
    assert(m1.selection is None);
    let m2 = m1.backspace();
    assert(m2 == m1.join_with_next(l));
    assert(line.take(col) + line.skip(col) =~= line);
    assert(m2.lines =~= m.lines);
}

/// Moving right and then left, without selecting, comes back to the same
/// place, except at the very end of the text.
pub proof fn law_right_then_left(m: EditorModel)
    requires
        m.inv(),
        m.text().len() < usize::MAX,
        m.cursor != m.last_pos(),
    ensures
        m.move_right(false).move_left(false).cursor == m.cursor,
        m.move_right(false).move_left(false).selection is None,
{
    let p = m.cursor;
    crate::text::lemma_line_count_le_join(m.lines);
    crate::text::lemma_line_len_le_join(m.lines, p.line as int);
    let q = m.right_of(p);
    let m1 = m.move_right(false);
    assert(m1.cursor == q);
    assert(m1.lines == m.lines);
    if p.col < m.lines[p.line as int].len() {
        assert(m1.left_of(q) == p);
    } else {
        assert(p.line + 1 < m.lines.len());
        assert(q == Pos { line: (p.line + 1) as usize, col: 0 });
        assert(m1.left_of(q) == p);
    }
}

/// Moving around (keys, clicks, drags, select all, copy) never changes the
/// text, nor whether it has unsaved changes.
pub proof fn law_navigation_keeps_text(m: EditorModel, selecting: bool, x: int, y: int)
    ensures
        m.move_left(selecting).lines == m.lines && m.move_left(selecting).modified == m.modified,
        m.move_right(selecting).lines == m.lines && m.move_right(selecting).modified == m.modified,
        m.move_up(selecting).lines == m.lines && m.move_up(selecting).modified == m.modified,
        m.move_down(selecting).lines == m.lines && m.move_down(selecting).modified == m.modified,
        m.move_home(selecting).lines == m.lines && m.move_home(selecting).modified == m.modified,
        m.move_end(selecting).lines == m.lines && m.move_end(selecting).modified == m.modified,
        m.page_up(20).lines == m.lines && m.page_up(20).modified == m.modified,
        m.page_down(20).lines == m.lines && m.page_down(20).modified == m.modified,
        m.click(x, y).lines == m.lines && m.click(x, y).modified == m.modified,
        m.drag(x, y).lines == m.lines && m.drag(x, y).modified == m.modified,
        m.select_all().lines == m.lines && m.select_all().modified == m.modified,
        m.copy().lines == m.lines && m.copy().modified == m.modified,
{
}

/// Every edit marks the text as changed; Backspace at the very start and
/// Delete at the very end, with nothing selected, change nothing at all.
pub proof fn law_edits_mark_modified(m: EditorModel, c: char, open: char, close: char, n: nat)
    requires
        m.inv(),
        m.text().len() < usize::MAX,
    ensures
        m.insert_char(c).modified,
        m.insert_newline().modified,
        m.insert_tab(n).modified,
        m.insert_pair(open, close).modified,
        m.selection is None && m.cursor == (Pos { line: 0, col: 0 }) ==> m.backspace() == m,
        !(m.selection is None && m.cursor == (Pos { line: 0, col: 0 })) ==> m.backspace().modified,
        m.selection is None && m.cursor == m.last_pos() ==> m.delete_key() == m,
        !(m.selection is None && m.cursor == m.last_pos()) ==> m.delete_key().modified,
{
    crate::text::lemma_line_count_le_join(m.lines);
    crate::text::lemma_line_len_le_join(m.lines, m.lines.len() - 1);
    crate::text::lemma_line_len_le_join(m.lines, m.cursor.line as int);
}

/// A click places the cursor and drops the selection; dragging afterwards
/// selects from where the click left the cursor to where the drag is, and
/// later drags keep that anchor; neither changes the text.
pub proof fn law_click_then_drag_selects(m: EditorModel, x0: int, y0: int, x1: int, y1: int, x2: int, y2: int)
    ensures
        m.click(x0, y0).selection is None,
        m.click(x0, y0).drag(x1, y1).selection == Some(
            crate::editor::Selection {
                anchor: m.click(x0, y0).cursor,
                cursor: m.click(x0, y0).drag(x1, y1).cursor,
            },
        ),
        m.click(x0, y0).drag(x1, y1).cursor == m.pos_at(x1, y1),
        m.click(x0, y0).drag(x1, y1).drag(x2, y2).selection == Some(
            crate::editor::Selection { anchor: m.click(x0, y0).cursor, cursor: m.pos_at(x2, y2) },
        ),
        m.click(x0, y0).drag(x1, y1).drag(x2, y2).lines == m.lines,
{
}

/// Scrolling to the cursor puts it inside the view.
pub proof fn law_scroll_shows_cursor(m: EditorModel, rows: int, cols: int)
    requires
        rows >= 1,
        cols >= 1,
    ensures
        m.scroll_to_cursor(rows, cols).scroll.line <= m.cursor.line < m.scroll_to_cursor(
            rows,
            cols,
        ).scroll.line + rows,
        m.scroll_to_cursor(rows, cols).scroll.col <= m.cursor.col < m.scroll_to_cursor(
            rows,
            cols,
        ).scroll.col + cols,
        m.scroll_to_cursor(rows, cols).cursor == m.cursor,
        m.scroll_to_cursor(rows, cols).lines == m.lines,
{
}

/// Select all covers the whole text: copying it gives the text back.
pub proof fn law_select_all_copies_everything(m: EditorModel)
    requires
        m.inv(),
        m.text().len() < usize::MAX,
    ensures
        m.select_all().selected_text() == Some(m.text()),
        m.select_all().copy().clipboard == Some(m.text()),
{
    let t = m.lines;
    let n = t.len() as int;
    let s = Pos { line: 0, col: 0 };
    let e = m.last_pos();
    crate::text::lemma_line_len_le_join(t, n - 1);
    crate::text::lemma_line_count_le_join(t);
    assert(m.select_all().selection == Some(crate::editor::Selection { anchor: s, cursor: e }));
    assert(pos_le(s, e));
    lemma_join_extract(t, s, e);
    assert(text_before(t, 0) =~= Seq::<char>::empty());
    assert(t[0].take(0) =~= Seq::<char>::empty());
    assert(t[n - 1].skip(t[n - 1].len() as int) =~= Seq::<char>::empty());
    assert(text_after(t, n - 1) =~= Seq::<char>::empty());
    assert(extract(t, s, e) =~= m.text());
}

/// Select all and cut leaves one empty line, with the whole text on the clipboard.
pub proof fn law_select_all_then_cut_clears(m: EditorModel)
    requires
        m.inv(),
        m.text().len() < usize::MAX,
    ensures
        m.select_all().cut().lines == seq![Seq::<char>::empty()],
        m.select_all().cut().clipboard == Some(m.text()),
        m.select_all().cut().cursor == (Pos { line: 0, col: 0 }),
{
    law_select_all_copies_everything(m);
    let t = m.lines;
    let e = m.last_pos();
    let n = t.len() as int;
    crate::text::lemma_line_len_le_join(t, n - 1);
    crate::text::lemma_line_count_le_join(t);
    let r = remove_range(t, Pos { line: 0, col: 0 }, e);
    assert(t[n - 1].skip(t[n - 1].len() as int) =~= Seq::<char>::empty());
    assert(t.skip(n) =~= Seq::<Seq<char>>::empty());
    assert(r =~= seq![Seq::<char>::empty()]);
}

/// Cutting removes exactly the selected text from the text, and the text
/// taken is the part of the text between the selection's two ends.
pub proof fn law_cut_removes_selection(m: EditorModel)
    requires
        m.inv(),
        m.selection is Some,
    ensures
        ({
            let (s, e) = m.selection->0.ordered();
            &&& m.selected_text() == Some(m.text().subrange(offset(m.lines, s), offset(m.lines, e)))
            &&& m.cut().text() == m.text().take(offset(m.lines, s)) + m.text().skip(
                offset(m.lines, e),
            )
            &&& m.cut().clipboard == m.selected_text()
        }),
{
    let (s, e) = m.selection->0.ordered();
    let t = m.lines;
    lemma_join_extract(t, s, e);
    let before = text_before(t, s.line as int) + t[s.line as int].take(s.col as int);
    let x = extract(t, s, e);
    let after = t[e.line as int].skip(e.col as int) + text_after(t, e.line as int);
    assert(join_lines(t) =~= before + x + after);
    assert(offset(t, s) == before.len());
    if s.line == e.line {
        assert(x.len() == e.col - s.col);
    }
    assert(offset(t, e) == before.len() + x.len()) by {
        if s.line < e.line {
            let tb = text_before(t, e.line as int);
            crate::text::lemma_join_at(t, e.line as int);
            assert(join_lines(t) =~= tb + t[e.line as int] + text_after(t, e.line as int));
            assert(t[e.line as int] =~= t[e.line as int].take(e.col as int) + t[e.line as int].skip(
                e.col as int,
            ));
            assert((before + x + after).len() == (tb + t[e.line as int] + text_after(
                t,
                e.line as int,
            )).len());
        }
    }
    assert(m.text().subrange(offset(t, s), offset(t, e)) =~= x);
    assert(m.cut().lines == remove_range(t, s, e));
    assert(m.cut().text() =~= m.text().take(offset(t, s)) + m.text().skip(offset(t, e)));
}

/// Pasting text without line breaks, with nothing selected, inserts exactly
/// that text at the cursor.
pub proof fn law_paste_inserts_clipboard(m: EditorModel)
    requires
        m.inv(),
        m.selection is None,
        m.clipboard is Some,
        no_newline(m.clipboard->0),
    ensures
        m.paste().text() == m.text().take(offset(m.lines, m.cursor)) + m.clipboard->0
            + m.text().skip(offset(m.lines, m.cursor)),
        m.paste().lines.len() == m.lines.len(),
{
    let clip = m.clipboard->0;
    lemma_split_no_newline(clip);
    let pieces = split_lines(clip);
    assert(pieces.drop_last() =~= Seq::<Seq<char>>::empty());
    assert(m.delete_selection() == m);
    assert(m.paste_pieces(Seq::<Seq<char>>::empty()) == m);
    assert(m.paste() == m.insert_str(clip));
    let t = m.lines;
    let l = m.cursor.line as int;
    let c = m.cursor.col as int;
    let line = t[l];
    crate::text::lemma_join_at(t, l);
    assert(offset(t, m.cursor) == text_before(t, l).len() + c);
    let txt = m.text();
    assert(txt.take(offset(t, m.cursor)) =~= text_before(t, l) + line.take(c));
    assert(txt.skip(offset(t, m.cursor)) =~= line.skip(c) + text_after(t, l));
    if clip.len() > 0 {
        lemma_around_update(t, l, line.take(c) + clip + line.skip(c));
        assert(m.paste().text() =~= txt.take(offset(t, m.cursor)) + clip + txt.skip(
            offset(t, m.cursor),
        ));
    } else {
        assert(m.paste().text() =~= txt.take(offset(t, m.cursor)) + clip + txt.skip(
            offset(t, m.cursor),
        ));
    }
}

/// Cutting a selection within one line and pasting it back restores the
/// lines; the cursor ends where the selection ended.
pub proof fn law_cut_then_paste_restores(m: EditorModel)
    requires
        m.inv(),
        m.selection is Some,
        m.selection->0.anchor.line == m.selection->0.cursor.line,
        no_newline(m.lines[m.selection->0.anchor.line as int]),
    ensures
        m.cut().paste().lines == m.lines,
        m.cut().paste().cursor == m.selection->0.ordered().1,
{
    let (s, e) = m.selection->0.ordered();
    let t = m.lines;
    let l = s.line as int;
    let line = t[l];
    let clip = line.subrange(s.col as int, e.col as int);
    let m1 = m.cut();
    assert(m1.clipboard == Some(clip));
    assert(m1.lines == t.update(l, line.take(s.col as int) + line.skip(e.col as int))) by {
        assert(remove_range(t, s, e) =~= t.update(
            l,
            line.take(s.col as int) + line.skip(e.col as int),
        ));
    }
    assert(no_newline(clip)) by {
        assert forall|i: int| 0 <= i < clip.len() implies clip[i] != '\n' by {
            assert(clip[i] == line[s.col + i]);
        }
    }
    lemma_split_no_newline(clip);
    assert(split_lines(clip).drop_last() =~= Seq::<Seq<char>>::empty());
    assert(m1.selection is None);
    assert(m1.delete_selection() == m1);
    assert(m1.paste_pieces(Seq::<Seq<char>>::empty()) == m1);
    assert(m1.paste() == m1.insert_str(clip));
    let merged = line.take(s.col as int) + line.skip(e.col as int);
    assert(merged.take(s.col as int) + clip + merged.skip(s.col as int) =~= line);
    if clip.len() == 0 {
        assert(merged =~= line);
    }
    assert(m1.paste().lines =~= t);
}

/// Lines written out and read back are the same lines, as long as none
/// holds a line break, none but the last ends in a carriage return, and the
/// last is not empty (unless it is the only one).
pub proof fn law_saved_lines_read_back(t: Seq<Seq<char>>)
    requires
        t.len() >= 1,
        forall|i: int| 0 <= i < t.len() ==> no_newline(#[trigger] t[i]),
        forall|i: int| 0 <= i < t.len() - 1 ==> strip_cr(#[trigger] t[i]) == t[i],
        t.len() == 1 || t.last().len() > 0,
    ensures
        (if file_lines(join_lines(t)).len() == 0 {
            seq![Seq::<char>::empty()]
        } else {
            file_lines(join_lines(t))
        }) == t,
{
    crate::text::lemma_split_join(t);
    let ps = split_lines(join_lines(t));
    assert(ps.drop_last().map_values(|p: Seq<char>| strip_cr(p)) =~= t.drop_last()) by {
        assert forall|i: int| 0 <= i < t.drop_last().len() implies strip_cr(
            ps.drop_last()[i],
        ) == #[trigger] t.drop_last()[i] by {
            assert(ps.drop_last()[i] == t[i]);
        }
    }
    if t.last().len() == 0 {
        assert(t =~= seq![Seq::<char>::empty()]);
    } else {
        assert(t.drop_last().push(t.last()) =~= t);
    }
}

/// A file's text without carriage returns and without a final line break is
/// written back unchanged.
pub proof fn law_text_round_trip(c: Seq<char>)
    requires
        forall|i: int| 0 <= i < c.len() ==> c[i] != '\r',
        c.len() == 0 || c.last() != '\n',
    ensures
        join_lines(
            if file_lines(c).len() == 0 {
                seq![Seq::<char>::empty()]
            } else {
                file_lines(c)
            },
        ) == c,
{
    lemma_join_split(c);
    lemma_split_lacks(c, '\r');
    let ps = split_lines(c);
    assert(ps.drop_last().map_values(|p: Seq<char>| strip_cr(p)) =~= ps.drop_last()) by {
        assert forall|i: int| 0 <= i < ps.drop_last().len() implies strip_cr(ps.drop_last()[i])
            == ps.drop_last()[i] by {
            let p = ps.drop_last()[i];
            assert(p == ps[i]);
            if p.len() > 0 {
                assert(p[p.len() - 1] != '\r');
            }
        }
    }
    if c.len() == 0 {
        assert(ps =~= seq![Seq::<char>::empty()]);
        assert(join_lines(seq![Seq::<char>::empty()]) =~= c);
    } else {
        if ps.last().len() == 0 {
            lemma_last_piece_empty(c);
        }
        assert(ps.drop_last().push(ps.last()) =~= ps);
    }
}

/// The pieces of a split hold no character that the text lacks.
proof fn lemma_split_lacks(c: Seq<char>, ch: char)
    requires
        forall|k: int| 0 <= k < c.len() ==> c[k] != ch,
    ensures
        forall|i: int, j: int|
            0 <= i < split_lines(c).len() && 0 <= j < split_lines(c)[i].len() ==> split_lines(
                c,
            )[i][j] != ch,
    decreases c.len(),
{
    if c.len() > 0 {
        let p = c.drop_last();
        assert forall|k: int| 0 <= k < p.len() implies p[k] != ch by {
            assert(p[k] == c[k]);
        }
        lemma_split_lacks(p, ch);
        lemma_join_split(p);
        assert(c[c.len() - 1] != ch);
    }
}

/// The last piece of a split is empty only after a final line break.
proof fn lemma_last_piece_empty(c: Seq<char>)
    requires
        c.len() > 0,
        split_lines(c).last().len() == 0,
    ensures
        c.last() == '\n',
{
    if c.last() != '\n' {
        let r = split_lines(c.drop_last());
        lemma_join_split(c.drop_last());
        assert(split_lines(c).last() == r.last().push(c.last()));
    }
}

// ── The application ──────────────────────────────────────────────────────────

pub open spec fn ctrl_q() -> KeyPress {
    KeyPress { code: KeyInput::Char('q'), ctrl: true, shift: false, alt: false }
}

pub open spec fn esc() -> KeyPress {
    KeyPress { code: KeyInput::Esc, ctrl: false, shift: false, alt: false }
}

pub open spec fn plain_key(code: KeyInput) -> KeyPress {
    KeyPress { code, ctrl: false, shift: false, alt: false }
}

/// The model with a pending forced close cancelled, as any key but Ctrl+Q does.
pub open spec fn settled(m: AppModel) -> AppModel {
    if m.pending_force_close {
        AppModel { pending_force_close: false, status: seq![], ..m }
    } else {
        m
    }
}

/// Tab in the editor applies the completion that the popup has selected
/// and closes the popup; without a popup it inserts an indent.
pub proof fn law_tab_applies_completion_or_indents(m: AppModel)
    requires
        m.focus == Focus::Editor,
        m.active is Some,
        m.creating_file is None,
    ensures
        ({
            let i = m.active->0 as int;
            let r = m.key(plain_key(KeyInput::Tab));
            &&& r.1 == Action::Nothing
            &&& r.0.completion is None
            &&& match m.completion {
                Some(c) => c.filtered.len() > 0 ==> r.0.editors == m.editors.update(
                    i,
                    m.editors[i].replace_word(
                        c.word_start,
                        c.filtered[if c.selected < c.filtered.len() - 1 {
                            c.selected
                        } else {
                            c.filtered.len() - 1
                        }].1,
                    ),
                ),
                None => r.0.editors == m.editors.update(i, m.editors[i].insert_tab(m.tab_size)),
            }
        }),
{
}

/// Typing a character with no popup open inserts it and, with automatic
/// completion on, asks the language server for completions.
pub proof fn law_typing_asks_for_completions(m: AppModel, c: char)
    requires
        m.focus == Focus::Editor,
        m.active is Some,
        m.creating_file is None,
        m.completion is None,
        m.auto_complete,
    ensures
        m.key(plain_key(KeyInput::Char(c))) == (
            settled(m).with_editor(
                m.active->0 as int,
                m.editors[m.active->0 as int].insert_char(c),
            ),
            Action::AutoComplete(m.active->0),
        ),
{
}

/// Ctrl+S asks to save the active file, and changes nothing else.
pub proof fn law_ctrl_s_saves_active_file(m: AppModel)
    requires
        m.active is Some,
        m.creating_file is None,
    ensures
        m.key(KeyPress { code: KeyInput::Char('s'), ctrl: true, shift: false, alt: false })
            == (settled(m), Action::Save(m.active->0)),
{
}

/// Page Up and Page Down in the editor move the cursor by twenty lines,
/// staying within the text.
pub proof fn law_page_keys_move_twenty_lines(m: AppModel)
    requires
        m.inv(),
        m.focus == Focus::Editor,
        m.active is Some,
        m.creating_file is None,
        m.completion is None,
        m.editors[m.active->0 as int].cursor.line + 20 <= usize::MAX,
    ensures
        ({
            let i = m.active->0 as int;
            let e = m.editors[i];
            &&& m.key(plain_key(KeyInput::PageUp)).0.editors[i].cursor.line == if e.cursor.line
                >= 20 {
                e.cursor.line - 20
            } else {
                0
            }
            &&& m.key(plain_key(KeyInput::PageDown)).0.editors[i].cursor.line == if e.cursor.line
                + 20 <= e.lines.len() - 1 {
                e.cursor.line + 20
            } else {
                e.lines.len() - 1
            }
        }),
{
    let i = m.active->0 as int;
    assert(m.editors[i].inv());
}

/// Keys and mouse events never open files: the number of open files only
/// grows when a file is opened (at most eight, see `App::open_file_begin`).
pub proof fn law_events_never_add_files(m: AppModel, key: KeyPress, ev: crate::app::MouseInput, width: u16)
    requires
        m.inv(),
    ensures
        m.key(key).0.editors.len() <= m.editors.len(),
        m.mouse(ev, width).0.editors.len() == m.editors.len(),
{
}

/// In the popup, Down and then Up (or Up and then Down) come back to the
/// item that was selected; both wrap around the list's ends.
pub proof fn law_popup_down_then_up(m: AppModel)
    requires
        m.completion is Some,
        0 <= m.completion->0.selected < m.completion->0.filtered.len(),
    ensures
        m.step_completion(true).step_completion(false) == m,
        m.step_completion(false).step_completion(true) == m,
{
    let c = m.completion->0;
    let n = c.filtered.len() as int;
    let k = c.selected as int;
    if k + 1 < n {
        vstd::arithmetic::div_mod::lemma_small_mod((k + 1) as nat, n as nat);
    } else {
        vstd::arithmetic::div_mod::lemma_mod_self_0(n);
    }
    if k == 0 {
        vstd::arithmetic::div_mod::lemma_mod_self_0(n);
    } else {
        vstd::arithmetic::div_mod::lemma_small_mod(k as nat, n as nat);
    }
    assert(m.step_completion(true).step_completion(false) =~= m);
    assert(m.step_completion(false).step_completion(true) =~= m);
}

/// Pressing the left button on the text and dragging selects from the cell
/// where the button went down to the cell under the mouse; the text stays.
pub proof fn law_mouse_drag_selects(m: AppModel, x0: u16, y0: u16, x1: u16, y1: u16, width: u16)
    requires
        m.inv(),
        m.active is Some,
        x0 >= m.tree_width,
        x1 >= m.tree_width,
        m.editors.len() == 1 || (y0 != 1 && y1 != 1),
    ensures
        ({
            let i = m.active->0 as int;
            let g = if m.line_numbers { 5int } else { 0int };
            let down = m.mouse(crate::app::MouseInput::LeftDown { x: x0, y: y0 }, width).0;
            let e = m.editors[i].click(sat_sub(x0 as int, m.tree_width + 1 + g), sat_sub(y0 as int, 2));
            let dragged = down.mouse(crate::app::MouseInput::LeftDrag { x: x1, y: y1 }, width).0;
            &&& down.editors[i] == e
            &&& dragged.editors[i].selection == Some(
                crate::editor::Selection { anchor: e.cursor, cursor: dragged.editors[i].cursor },
            )
            &&& dragged.editors[i].cursor == e.pos_at(
                sat_sub(x1 as int, m.tree_width + 1 + g),
                sat_sub(y1 as int, 2),
            )
            &&& dragged.editors[i].lines == m.editors[i].lines
        }),
{
}

/// A second Ctrl+Q in a row on a file with unsaved changes closes it
/// without writing it: the file goes, the pending close is cleared, and the
/// file before it becomes active.
pub proof fn law_second_ctrl_q_discards(m: AppModel)
    requires
        m.inv(),
        m.active is Some,
        m.editors[m.active->0 as int].modified,
        m.pending_force_close,
    ensures
        m.try_close_editor().editors == m.editors.remove(m.active->0 as int),
        !m.try_close_editor().pending_force_close,
        m.try_close_editor().active == if m.editors.len() == 1 {
            None
        } else {
            Some(sat_sub(m.active->0 as int, 1) as usize)
        },
{
}

/// A file with unsaved changes closes only on the second Ctrl+Q in a row:
/// the first one keeps every file and warns; the second discards the
/// changes and makes the file before it active.
pub proof fn law_unsaved_file_needs_second_ctrl_q(m: AppModel)
    requires
        m.inv(),
        m.active is Some,
        m.editors[m.active->0 as int].modified,
        !m.pending_force_close,
        m.creating_file is None,
    ensures
        m.key(ctrl_q()).0.editors == m.editors,
        m.key(ctrl_q()).0.pending_force_close,
        m.key(ctrl_q()).0.status == unsaved_warning(),
        m.key(ctrl_q()).0.key(ctrl_q()).0.editors == m.editors.remove(m.active->0 as int),
        m.key(ctrl_q()).0.key(ctrl_q()).1 == Action::EditorClosed,
        !m.key(ctrl_q()).0.key(ctrl_q()).0.pending_force_close,
        m.key(ctrl_q()).0.key(ctrl_q()).0.active == if m.editors.len() == 1 {
            None
        } else {
            Some(sat_sub(m.active->0 as int, 1) as usize)
        },
{
    let m1 = m.key(ctrl_q()).0;
    assert(m1.active == m.active);
    assert(m1.editors[m.active->0 as int].modified);
}

/// Ctrl+Q closes a file without unsaved changes at once.
pub proof fn law_saved_file_closes_at_once(m: AppModel)
    requires
        m.inv(),
        m.active is Some,
        !m.editors[m.active->0 as int].modified,
        m.creating_file is None,
    ensures
        m.key(ctrl_q()).0.editors == m.editors.remove(m.active->0 as int),
        !m.key(ctrl_q()).0.pending_force_close,
        m.key(ctrl_q()).1 == Action::EditorClosed,
{
}

/// Ctrl+Q with only the tree open quits.
pub proof fn law_ctrl_q_without_file_quits(m: AppModel)
    requires
        m.active is None,
        m.creating_file is None,
    ensures
        m.key(ctrl_q()).0.should_quit,
        m.key(ctrl_q()).0.editors == m.editors,
{
}

/// Any key but Ctrl+Q cancels a pending forced close.
pub proof fn law_other_key_cancels_force_close(m: AppModel, key: KeyPress)
    requires
        m.inv(),
        m.pending_force_close,
        !(key.ctrl && !key.shift && key.code == KeyInput::Char('q')),
    ensures
        !m.key(key).0.pending_force_close,
{
    let m0 = AppModel { pending_force_close: false, status: seq![], ..m };
    if m0.creating_file is Some {
        assert(!m0.creating_key(key).0.pending_force_close);
    } else if m0.focus == Focus::Tree {
        assert(!m0.tree_key(key).0.pending_force_close);
    } else {
        assert(!m0.editor_key(key).0.pending_force_close);
    }
}

/// Esc in the editor closes the completion popup first, and only then
/// moves the focus to the tree.
pub proof fn law_esc_closes_popup_then_leaves_editor(m: AppModel)
    requires
        m.focus == Focus::Editor,
        m.completion is Some,
        m.creating_file is None,
    ensures
        m.key(esc()).0.completion is None,
        m.key(esc()).0.focus == Focus::Editor,
        m.key(esc()).0.editors == m.editors,
        m.key(esc()).0.key(esc()).0.focus == Focus::Tree,
{
}

/// `sub` is made of elements of `s` picked at the increasing positions `idx`.
pub open spec fn picked_in_order<A>(idx: Seq<int>, sub: Seq<A>, s: Seq<A>) -> bool {
    &&& idx.len() == sub.len()
    &&& forall|k: int| 0 <= k < idx.len() ==> 0 <= #[trigger] idx[k] < s.len() && sub[k] == s[idx[k]]
    &&& forall|k: int, l: int| 0 <= k < l < idx.len() ==> #[trigger] idx[k] < #[trigger] idx[l]
}

/// The popup shows at most twenty items, each matching the typed prefix,
/// in the order the server gave them; while it shows fewer than twenty,
/// it shows every item that matches.
pub proof fn law_popup_items_match(items: Seq<(Seq<char>, Seq<char>)>, prefix: Seq<char>)
    ensures
        shown(items, prefix).len() <= 20,
        forall|i: int|
            0 <= i < shown(items, prefix).len() ==> shown_for(prefix, #[trigger] shown(items, prefix)[i].0),
        exists|idx: Seq<int>| picked_in_order(idx, shown(items, prefix), items),
        shown(items, prefix).len() < 20 ==> forall|j: int|
            0 <= j < items.len() && shown_for(prefix, #[trigger] items[j].0) ==> shown(
                items,
                prefix,
            ).contains(items[j]),
{
    let n = items.len() as int;
    lemma_shown_upto(items, prefix, n);
    let all = shown_upto(items, prefix, n);
    let sh = shown(items, prefix);
    assert forall|i: int| 0 <= i < sh.len() implies shown_for(prefix, #[trigger] sh[i].0) by {
        assert(sh[i] == all[i]);
    }
    let idx = lemma_shown_upto_positions(items, prefix, n);
    let sub_idx = if all.len() <= 20 { idx } else { idx.take(20) };
    assert(picked_in_order(sub_idx, sh, items)) by {
        assert forall|k: int| 0 <= k < sub_idx.len() implies 0 <= #[trigger] sub_idx[k] < items.len() && sh[k] == items[sub_idx[k]] by {
            assert(sub_idx[k] == idx[k]);
            assert(sh[k] == all[k]);
        }
        assert forall|k: int, l: int| 0 <= k < l < sub_idx.len() implies #[trigger] sub_idx[k] < #[trigger] sub_idx[l] by {
            assert(sub_idx[k] == idx[k] && sub_idx[l] == idx[l]);
        }
    }
    if sh.len() < 20 {
        assert(sh == all);
        assert forall|j: int| 0 <= j < items.len() && shown_for(prefix, #[trigger] items[j].0) implies sh.contains(items[j]) by {
            lemma_shown_upto_complete(items, prefix, n, j);
        }
    }
}

/// Where the items shown among the first `n` come from.
proof fn lemma_shown_upto_positions(items: Seq<(Seq<char>, Seq<char>)>, prefix: Seq<char>, n: int) -> (idx: Seq<int>)
    requires
        0 <= n <= items.len(),
    ensures
        picked_in_order(idx, shown_upto(items, prefix, n), items),
        forall|k: int| 0 <= k < idx.len() ==> #[trigger] idx[k] < n,
    decreases n,
{
    if n == 0 {
        seq![]
    } else {
        let p = lemma_shown_upto_positions(items, prefix, n - 1);
        let r = shown_upto(items, prefix, n - 1);
        if shown_for(prefix, items[n - 1].0) {
            let q = p.push(n - 1);
            let rr = r.push(items[n - 1]);
            assert forall|k: int| 0 <= k < q.len() implies 0 <= #[trigger] q[k] < items.len() && rr[k] == items[q[k]] by {
                if k < p.len() {
                    assert(q[k] == p[k] && rr[k] == r[k]);
                }
            }
            assert forall|k: int, l: int| 0 <= k < l < q.len() implies #[trigger] q[k] < #[trigger] q[l] by {
                if l < p.len() {
                    assert(q[k] == p[k] && q[l] == p[l]);
                } else {
                    assert(q[k] == p[k]);
                }
            }
            assert forall|k: int| 0 <= k < q.len() implies #[trigger] q[k] < n by {
                if k < p.len() {
                    assert(q[k] == p[k]);
                }
            }
            q
        } else {
            p
        }
    }
}

/// Every item among the first `n` that matches is shown.
proof fn lemma_shown_upto_complete(items: Seq<(Seq<char>, Seq<char>)>, prefix: Seq<char>, n: int, j: int)
    requires
        0 <= j < n <= items.len(),
        shown_for(prefix, items[j].0),
    ensures
        shown_upto(items, prefix, n).contains(items[j]),
    decreases n,
{
    let r = shown_upto(items, prefix, n - 1);
    if j == n - 1 {
        assert(shown_upto(items, prefix, n) == r.push(items[j]));
        assert(r.push(items[j])[r.len() as int] == items[j]);
    } else {
        lemma_shown_upto_complete(items, prefix, n - 1, j);
        let k = choose|k: int| 0 <= k < r.len() && r[k] == items[j];
        if shown_for(prefix, items[n - 1].0) {
            assert(r.push(items[n - 1])[k] == items[j]);
        }
    }
}

proof fn lemma_shown_upto(items: Seq<(Seq<char>, Seq<char>)>, prefix: Seq<char>, n: int)
    requires
        n <= items.len(),
    ensures
        forall|i: int|
            0 <= i < shown_upto(items, prefix, n).len() ==> shown_for(prefix, #[trigger] shown_upto(items, prefix, n)[i].0)
                && items.contains(shown_upto(items, prefix, n)[i]),
    decreases n,
{
    if n > 0 {
        lemma_shown_upto(items, prefix, n - 1);
        let r = shown_upto(items, prefix, n - 1);
        if shown_for(prefix, items[n - 1].0) {
            assert forall|i: int| 0 <= i < r.push(items[n - 1]).len() implies shown_for(prefix, #[trigger] r.push(items[n - 1])[i].0) && items.contains(r.push(items[n - 1])[i]) by {
                if i == r.len() {
                    assert(items[n - 1] == r.push(items[n - 1])[i]);
                } else {
                    assert(r.push(items[n - 1])[i] == r[i]);
                }
            }
        }
    }
}

// ── The file tree's order ───────────────────────────────────────────────────────

proof fn lemma_listed_before_irreflexive(a: ChildModel)
    ensures
        !listed_before(a, a),
{
    lemma_seq_lt_irreflexive(a.name);
}

proof fn lemma_listed_before_transitive(a: ChildModel, b: ChildModel, c: ChildModel)
    requires
        listed_before(a, b),
        listed_before(b, c),
    ensures
        listed_before(a, c),
{
    if a.is_dir == b.is_dir && b.is_dir == c.is_dir {
        lemma_seq_lt_transitive(a.name, b.name, c.name);
    }
}

/// Nothing is listed before something that comes earlier.
pub open spec fn in_listing_order(s: Seq<ChildModel>) -> bool {
    forall|i: int, j: int| 0 <= i < j < s.len() ==> !listed_before(#[trigger] s[j], #[trigger] s[i])
}

/// Placing `x` inserts it at some position.
proof fn lemma_place_inserts(s: Seq<ChildModel>, x: ChildModel) -> (k: int)
    ensures
        0 <= k <= s.len(),
        place(s, x) == s.insert(k, x),
    decreases s.len(),
{
    if s.len() == 0 {
        assert(place(s, x) =~= s.insert(0, x));
        0
    } else if listed_before(x, s[0]) {
        assert(place(s, x) =~= s.insert(0, x));
        0
    } else {
        let rest = s.drop_first();
        let k = lemma_place_inserts(rest, x);
        assert(place(s, x) =~= s.insert(k + 1, x));
        k + 1
    }
}

/// Placing `x` into an ordered sequence keeps it ordered.
proof fn lemma_place_ordered(s: Seq<ChildModel>, x: ChildModel)
    requires
        in_listing_order(s),
    ensures
        in_listing_order(place(s, x)),
    decreases s.len(),
{
    if s.len() == 0 {
    } else if listed_before(x, s[0]) {
        let r = place(s, x);
        assert(r =~= seq![x] + s);
        assert forall|i: int, j: int| 0 <= i < j < r.len() implies !listed_before(#[trigger] r[j], #[trigger] r[i]) by {
            if i == 0 {
                assert(r[i] == x);
                assert(r[j] == s[j - 1]);
                if listed_before(s[j - 1], x) {
                    lemma_listed_before_transitive(s[j - 1], x, s[0]);
                    if j - 1 == 0 {
                        lemma_listed_before_irreflexive(s[0]);
                    } else {
                        assert(!listed_before(s[j - 1], s[0]));
                    }
                }
            } else {
                assert(r[i] == s[i - 1] && r[j] == s[j - 1]);
            }
        }
    } else {
        let rest = s.drop_first();
        assert(in_listing_order(rest)) by {
            assert forall|i: int, j: int| 0 <= i < j < rest.len() implies !listed_before(#[trigger] rest[j], #[trigger] rest[i]) by {
                assert(rest[i] == s[i + 1] && rest[j] == s[j + 1]);
            }
        }
        lemma_place_ordered(rest, x);
        let p = place(rest, x);
        let k = lemma_place_inserts(rest, x);
        let r = place(s, x);
        assert(r =~= seq![s[0]] + p);
        assert forall|i: int, j: int| 0 <= i < j < r.len() implies !listed_before(#[trigger] r[j], #[trigger] r[i]) by {
            if i == 0 {
                assert(r[i] == s[0]);
                assert(r[j] == p[j - 1]);
                if j - 1 < k {
                    assert(p[j - 1] == rest[j - 1]);
                    assert(rest[j - 1] == s[j]);
                } else if j - 1 > k {
                    assert(p[j - 1] == rest[j - 2]);
                    assert(rest[j - 2] == s[j - 1]);
                } else {
                    assert(p[j - 1] == x);
                }
            } else {
                assert(r[i] == p[i - 1] && r[j] == p[j - 1]);
            }
        }
    }
}

/// The file tree lists a directory's children with directories first,
/// each group in name order, and lists each child exactly as often as the
/// directory holds it.
pub proof fn law_children_listing_order(cs: Seq<ChildModel>)
    ensures
        in_listing_order(ordered_children(cs)),
        forall|i: int, j: int|
            0 <= i < j < ordered_children(cs).len() && (#[trigger] ordered_children(cs)[j]).is_dir
                ==> (#[trigger] ordered_children(cs)[i]).is_dir,
        forall|i: int, j: int|
            0 <= i < j < ordered_children(cs).len() && (#[trigger] ordered_children(cs)[i]).is_dir
                == (#[trigger] ordered_children(cs)[j]).is_dir ==> !seq_lt(
                ordered_children(cs)[j].name,
                ordered_children(cs)[i].name,
            ),
        ordered_children(cs).to_multiset() == cs.to_multiset(),
    decreases cs.len(),
{
    broadcast use vstd::seq_lib::group_to_multiset_ensures;

    if cs.len() == 0 {
        assert(ordered_children(cs) =~= cs);
    } else {
        let init = cs.drop_last();
        law_children_listing_order(init);
        let o = ordered_children(init);
        lemma_place_ordered(o, cs.last());
        let k = lemma_place_inserts(o, cs.last());
        assert(cs =~= init.push(cs.last()));
        assert(ordered_children(cs) == o.insert(k, cs.last()));
    }
    let r = ordered_children(cs);
    assert forall|i: int, j: int| 0 <= i < j < r.len() && (#[trigger] r[j]).is_dir implies (#[trigger] r[i]).is_dir by {
        assert(!listed_before(r[j], r[i]));
    }
    assert forall|i: int, j: int| 0 <= i < j < r.len() && (#[trigger] r[i]).is_dir == (#[trigger] r[j]).is_dir implies !seq_lt(r[j].name, r[i].name) by {
        assert(!listed_before(r[j], r[i]));
    }
}

// ── Enter, paste and the selection on screen ─────────────────────────────────

/// Enter splits the cursor's line at the cursor. The new line starts with
/// the longest run of spaces and tab characters that begins the old line,
/// followed by what stood after the cursor, and the cursor stands right
/// after that run.
pub proof fn law_enter_keeps_indentation(m: EditorModel)
    requires
        m.inv(),
        m.selection is None,
        m.lines.len() <= usize::MAX,
        m.cur_line().len() <= usize::MAX,
    ensures
        ({
            let r = m.insert_newline();
            let l = m.cursor.line as int;
            let c = m.cursor.col as int;
            let line = m.cur_line();
            let k = r.cursor.col as int;
            &&& r.lines.len() == m.lines.len() + 1
            &&& r.cursor.line == l + 1
            &&& r.lines.take(l) == m.lines.take(l)
            &&& r.lines[l] == line.take(c)
            &&& 0 <= k <= line.len()
            &&& r.lines[l + 1] == line.take(k) + line.skip(c)
            &&& r.lines.skip(l + 2) == m.lines.skip(l + 1)
            &&& forall|j: int| 0 <= j < k ==> line[j] == ' ' || line[j] == '\t'
            &&& k < line.len() ==> line[k] != ' ' && line[k] != '\t'
        }),
{
    let line = m.cur_line();
    crate::text::lemma_indent_end_bounds(line, 0);
    let r = m.insert_newline();
    let l = m.cursor.line as int;
    assert(m.delete_selection() == m);
    assert(r.lines.take(l) =~= m.lines.take(l));
    assert(r.lines.skip(l + 2) =~= m.lines.skip(l + 1));
    let k = crate::text::indent_len(line);
    assert(r.cursor.col as int == k);
    assert(r.lines[l + 1] == line.take(k) + line.skip(m.cursor.col as int));
    assert forall|j: int| 0 <= j < k implies line[j] == ' ' || line[j] == '\t' by {
        assert(crate::text::is_indent_char(line[j]));
    }
}

/// The number of line breaks in `s`.
pub open spec fn line_breaks(s: Seq<char>) -> nat
    decreases s.len(),
{
    if s.len() == 0 {
        0
    } else {
        line_breaks(s.drop_last()) + if s.last() == '\n' {
            1nat
        } else {
            0nat
        }
    }
}

/// A text splits into one more piece than it has line breaks.
proof fn lemma_split_count(s: Seq<char>)
    ensures
        split_lines(s).len() == line_breaks(s) + 1,
    decreases s.len(),
{
    if s.len() > 0 {
        lemma_split_count(s.drop_last());
    }
}

/// Applying `pieces` adds one line for each piece after the first.
proof fn lemma_paste_pieces_lines(m: EditorModel, pieces: Seq<Seq<char>>)
    requires
        m.cursor.line < m.lines.len(),
        pieces.len() >= 1,
    ensures
        m.paste_pieces(pieces).lines.len() == m.lines.len() + pieces.len() - 1,
        m.paste_pieces(pieces).cursor.line < m.paste_pieces(pieces).lines.len(),
    decreases pieces.len(),
{
    if pieces.len() == 1 {
        assert(m.paste_pieces(pieces.drop_last()) == m);
    } else {
        lemma_paste_pieces_lines(m, pieces.drop_last());
    }
}

/// Pasting with nothing selected adds exactly one line for each line
/// break in the clipboard, a break at its end or next to another included.
pub proof fn law_paste_adds_a_line_per_break(m: EditorModel)
    requires
        m.inv(),
        m.selection is None,
        m.clipboard is Some,
    ensures
        m.paste().lines.len() == m.lines.len() + line_breaks(m.clipboard->0),
{
    let clip = m.clipboard->0;
    assert(m.delete_selection() == m);
    lemma_split_count(clip);
    lemma_paste_pieces_lines(m, split_lines(clip));
}

/// Filtering the completion popup ignores case: two lines whose typed text,
/// from the word's start to the cursor, lower-cases the same give the same
/// popup (typing "Str" shows what typing "str" shows).
pub proof fn law_refilter_ignores_case(
    all: Seq<(Seq<char>, Seq<char>)>,
    selected: int,
    word_start: int,
    trigger_line: int,
    line1: Seq<char>,
    line2: Seq<char>,
    cursor: Pos,
)
    requires
        0 <= word_start,
        cursor.col <= line1.len(),
        cursor.col <= line2.len(),
        word_start <= cursor.col ==> lowercase(line1.subrange(word_start, cursor.col as int))
            == lowercase(line2.subrange(word_start, cursor.col as int)),
    ensures
        refiltered(all, selected, word_start, trigger_line, line1, cursor) == refiltered(
            all,
            selected,
            word_start,
            trigger_line,
            line2,
            cursor,
        ),
{
}

/// The completion popup is gone once the cursor leaves the line it was
/// opened on or moves before the start of the word it completes.
pub proof fn law_refilter_dismisses_off_word(
    all: Seq<(Seq<char>, Seq<char>)>,
    selected: int,
    word_start: int,
    trigger_line: int,
    line: Seq<char>,
    cursor: Pos,
)
    requires
        cursor.line != trigger_line || cursor.col < word_start,
    ensures
        refiltered(all, selected, word_start, trigger_line, line, cursor) is None,
{
}

/// `(l1, c1)` comes no later than `(l2, c2)`: an earlier line, or the same
/// line and no later column.
pub open spec fn at_or_before(l1: int, c1: int, l2: int, c2: int) -> bool {
    l1 < l2 || (l1 == l2 && c1 <= c2)
}

/// A column of a line is drawn selected exactly when its position lies
/// between the selection's two ends: at or after the earlier one and
/// before the later one, whichever end the cursor is at.
pub proof fn law_selected_columns(sel: Option<Selection>, line: int, col: int)
    requires
        0 <= col < usize::MAX,
    ensures
        (selected_cols(sel, line) matches Some((a, b)) && a <= col < b) <==> (sel matches Some(
            s,
        ) && ((at_or_before(s.anchor.line as int, s.anchor.col as int, line, col)
            && !at_or_before(s.cursor.line as int, s.cursor.col as int, line, col)) || (
        at_or_before(s.cursor.line as int, s.cursor.col as int, line, col) && !at_or_before(
            s.anchor.line as int,
            s.anchor.col as int,
            line,
            col,
        )))),
{
}

// ── Nested directories in the file tree ─────────────────────────────────────

/// Every child a listing names has a longer path than the directory it
/// lists, as a path joined onto its directory has.
pub open spec fn child_paths_extend(ls: Seq<(Seq<char>, Seq<ChildModel>)>) -> bool {
    forall|i: int, j: int|
        0 <= i < ls.len() && 0 <= j < ls[i].1.len() ==> (#[trigger] ls[i].1[j]).path.len()
            > ls[i].0.len()
}

/// How many of the paths in `x` are longer than `n`.
spec fn count_longer(x: Seq<Seq<char>>, n: int) -> nat
    decreases x.len(),
{
    if x.len() == 0 {
        0
    } else {
        count_longer(x.drop_last(), n) + if x.last().len() > n {
            1nat
        } else {
            0nat
        }
    }
}

proof fn lemma_count_longer_le_len(x: Seq<Seq<char>>, n: int)
    ensures
        count_longer(x, n) <= x.len(),
    decreases x.len(),
{
    if x.len() > 0 {
        lemma_count_longer_le_len(x.drop_last(), n);
    }
}

proof fn lemma_count_longer_mono(x: Seq<Seq<char>>, n: int, m: int)
    requires
        n <= m,
    ensures
        count_longer(x, n) >= count_longer(x, m),
    decreases x.len(),
{
    if x.len() > 0 {
        lemma_count_longer_mono(x.drop_last(), n, m);
    }
}

/// A path of `x` longer than `n` is counted above `n` and not above its own length.
proof fn lemma_count_longer_drops(x: Seq<Seq<char>>, n: int, p: Seq<char>)
    requires
        x.contains(p),
        p.len() > n,
    ensures
        count_longer(x, n) >= count_longer(x, p.len() as int) + 1,
    decreases x.len(),
{
    let y = x.drop_last();
    if x.last() == p {
        lemma_count_longer_mono(y, n, p.len() as int);
    } else {
        let j = choose|j: int| 0 <= j < x.len() && x[j] == p;
        assert(y[j] == p);
        lemma_count_longer_drops(y, n, p);
    }
}

/// The children listed for `dir` have longer paths than `dir`.
proof fn lemma_listed_longer(ls: Seq<(Seq<char>, Seq<ChildModel>)>, dir: Seq<char>)
    requires
        child_paths_extend(ls),
    ensures
        forall|k: int|
            0 <= k < listed(ls, dir).len() ==> (#[trigger] listed(ls, dir)[k]).path.len()
                > dir.len(),
    decreases ls.len(),
{
    if ls.len() > 0 {
        if ls[0].0 == dir {
            assert forall|k: int| 0 <= k < listed(ls, dir).len() implies (#[trigger] listed(
                ls,
                dir,
            )[k]).path.len() > dir.len() by {
                assert(ls[0].1[k].path.len() > ls[0].0.len());
            }
        } else {
            let rest = ls.drop_first();
            assert forall|i: int, j: int|
                0 <= i < rest.len() && 0 <= j < rest[i].1.len() implies (#[trigger] rest[i].1[j]).path.len()
                > rest[i].0.len() by {
                assert(rest[i] == ls[i + 1]);
                assert(ls[i + 1].1[j].path.len() > ls[i + 1].0.len());
            }
            lemma_listed_longer(rest, dir);
            assert(listed(ls, dir) == listed(rest, dir));
        }
    }
}

/// Some child of `dir`, in listing order, is shown at `depth`.
spec fn shows_child(ls: Seq<(Seq<char>, Seq<ChildModel>)>, dir: Seq<char>, depth: int) -> bool {
    exists|k: int|
        0 <= k < ordered_children(listed(ls, dir)).len() && !hidden(
            #[trigger] ordered_children(listed(ls, dir))[k],
            depth,
        )
}

/// `kids[k]` is the first of `kids` shown at `depth`.
spec fn first_shown(kids: Seq<ChildModel>, depth: int, k: int) -> bool {
    &&& 0 <= k < kids.len()
    &&& !hidden(kids[k], depth)
    &&& forall|j: int| 0 <= j < k ==> hidden(#[trigger] kids[j], depth)
}

/// `row` is the row of the first of the first `n` of `kids` shown at `depth`.
spec fn row_of_first_shown(kids: Seq<ChildModel>, depth: int, n: int, row: crate::file_tree::EntryModel) -> bool {
    exists|k: int|
        0 <= k < n && first_shown(kids, depth, k) && row.path == (#[trigger] kids[k]).path
            && row.name == kids[k].name && row.depth == depth
}

/// In `rows`, every expanded directory that shows a child is followed by
/// the row of the first child it shows.
spec fn opens_below(ls: Seq<(Seq<char>, Seq<ChildModel>)>, rows: Seq<crate::file_tree::EntryModel>) -> bool {
    forall|i: int|
        0 <= i < rows.len() && (#[trigger] rows[i]).is_expanded && shows_child(
            ls,
            rows[i].path,
            rows[i].depth + 1,
        ) ==> i + 1 < rows.len() && row_of_first_shown(
            ordered_children(listed(ls, rows[i].path)),
            rows[i].depth + 1,
            ordered_children(listed(ls, rows[i].path)).len() as int,
            rows[i + 1],
        )
}

/// In the rows of the first `n` children, every expanded directory that
/// shows a child is followed by the row of that child; no row is shallower
/// than `depth`; and the first row, which there is when one of those
/// children is shown, is that of the first child shown.
proof fn lemma_kids_rows_open(
    ls: Seq<(Seq<char>, Seq<ChildModel>)>,
    dir: Seq<char>,
    kids: Seq<ChildModel>,
    depth: int,
    x: Seq<Seq<char>>,
    fuel: nat,
    n: int,
)
    requires
        child_paths_extend(ls),
        fuel >= count_longer(x, dir.len() as int),
        0 <= n <= kids.len(),
        forall|k: int| 0 <= k < kids.len() ==> (#[trigger] kids[k]).path.len() > dir.len(),
    ensures
        ({
            let rows = kids_rows(ls, kids, depth, x, fuel, n);
            &&& opens_below(ls, rows)
            &&& forall|i: int| 0 <= i < rows.len() ==> (#[trigger] rows[i]).depth >= depth
            &&& rows.len() > 0 ==> row_of_first_shown(kids, depth, n, rows[0])
            &&& (exists|k: int| 0 <= k < n && !hidden(#[trigger] kids[k], depth)) ==> rows.len() > 0
        }),
    decreases fuel, 0int, n,
{
    if n > 0 {
        lemma_kids_rows_open(ls, dir, kids, depth, x, fuel, n - 1);
        let prev = kids_rows(ls, kids, depth, x, fuel, n - 1);
        let rows = kids_rows(ls, kids, depth, x, fuel, n);
        let c = kids[n - 1];
        if prev.len() > 0 {
            let k = choose|k: int|
                0 <= k < n - 1 && first_shown(kids, depth, k) && prev[0].path == (#[trigger] kids[k]).path
                    && prev[0].name == kids[k].name && prev[0].depth == depth;
            assert(rows[0] == prev[0]);
            assert(row_of_first_shown(kids, depth, n, rows[0]));
        }
        if hidden(c, depth) {
            assert(rows == prev);
            if exists|k: int| 0 <= k < n && !hidden(#[trigger] kids[k], depth) {
                let k = choose|k: int| 0 <= k < n && !hidden(#[trigger] kids[k], depth);
                assert(k < n - 1);
            }
        } else {
            let open = c.is_dir && x.contains(c.path);
            let e = row_of(c, depth, open);
            if prev.len() == 0 {
                assert forall|j: int| 0 <= j < n - 1 implies hidden(#[trigger] kids[j], depth) by {
                    if !hidden(kids[j], depth) {
                        assert(exists|k: int| 0 <= k < n - 1 && !hidden(#[trigger] kids[k], depth));
                    }
                }
                assert(first_shown(kids, depth, n - 1));
                assert(rows[0] == e);
                assert(row_of_first_shown(kids, depth, n, rows[0]));
            }
            if open {
                lemma_count_longer_drops(x, dir.len() as int, c.path);
                let child = dir_rows(ls, c.path, depth + 1, x, (fuel - 1) as nat);
                lemma_dir_rows_open(ls, c.path, depth + 1, x, (fuel - 1) as nat);
                assert(rows == prev.push(e) + child);
                assert forall|i: int| 0 <= i < rows.len() implies (#[trigger] rows[i]).depth >= depth by {
                    if i < prev.len() {
                        assert(rows[i] == prev[i]);
                    } else if i > prev.len() {
                        assert(rows[i] == child[i - prev.len() - 1]);
                    }
                }
                assert forall|i: int|
                    0 <= i < rows.len() && (#[trigger] rows[i]).is_expanded && shows_child(
                        ls,
                        rows[i].path,
                        rows[i].depth + 1,
                    ) implies i + 1 < rows.len() && row_of_first_shown(
                        ordered_children(listed(ls, rows[i].path)),
                        rows[i].depth + 1,
                        ordered_children(listed(ls, rows[i].path)).len() as int,
                        rows[i + 1],
                    ) by {
                    if i < prev.len() {
                        assert(rows[i] == prev[i]);
                        assert(rows[i + 1] == prev[i + 1]);
                    } else if i == prev.len() {
                        assert(rows[i] == e);
                        assert(rows[i + 1] == child[0]);
                    } else {
                        let j = i - prev.len() - 1;
                        assert(rows[i] == child[j]);
                        assert(rows[i + 1] == child[j + 1]);
                    }
                }
            } else {
                assert(rows == prev.push(e));
                assert forall|i: int| 0 <= i < rows.len() implies (#[trigger] rows[i]).depth >= depth by {
                    if i < prev.len() {
                        assert(rows[i] == prev[i]);
                    }
                }
                assert forall|i: int|
                    0 <= i < rows.len() && (#[trigger] rows[i]).is_expanded && shows_child(
                        ls,
                        rows[i].path,
                        rows[i].depth + 1,
                    ) implies i + 1 < rows.len() && row_of_first_shown(
                        ordered_children(listed(ls, rows[i].path)),
                        rows[i].depth + 1,
                        ordered_children(listed(ls, rows[i].path)).len() as int,
                        rows[i + 1],
                    ) by {
                    assert(rows[i] == prev[i]);
                    assert(rows[i + 1] == prev[i + 1]);
                }
            }
        }
    }
}

/// The row of child `c` at `depth`, expanded or not.
spec fn row_of(c: ChildModel, depth: int, open: bool) -> crate::file_tree::EntryModel {
    crate::file_tree::EntryModel {
        path: c.path,
        name: c.name,
        depth,
        is_dir: c.is_dir,
        is_expanded: open,
    }
}

/// The rows of `dir` keep the properties of `lemma_kids_rows_open`, as long
/// as the fuel covers the expanded paths longer than `dir`.
proof fn lemma_dir_rows_open(
    ls: Seq<(Seq<char>, Seq<ChildModel>)>,
    dir: Seq<char>,
    depth: int,
    x: Seq<Seq<char>>,
    fuel: nat,
)
    requires
        child_paths_extend(ls),
        fuel >= count_longer(x, dir.len() as int),
    ensures
        ({
            let rows = dir_rows(ls, dir, depth, x, fuel);
            let kids = ordered_children(listed(ls, dir));
            &&& opens_below(ls, rows)
            &&& forall|i: int| 0 <= i < rows.len() ==> (#[trigger] rows[i]).depth >= depth
            &&& rows.len() > 0 ==> row_of_first_shown(kids, depth, kids.len() as int, rows[0])
            &&& shows_child(ls, dir, depth) ==> rows.len() > 0
        }),
    decreases fuel, 1int, 0int,
{
    broadcast use vstd::seq_lib::group_to_multiset_ensures;

    let raw = listed(ls, dir);
    let kids = ordered_children(raw);
    lemma_listed_longer(ls, dir);
    law_children_listing_order(raw);
    assert forall|k: int| 0 <= k < kids.len() implies (#[trigger] kids[k]).path.len() > dir.len() by {
        assert(kids.contains(kids[k]));
        assert(kids.to_multiset().count(kids[k]) > 0);
        assert(raw.contains(kids[k]));
        let j = choose|j: int| 0 <= j < raw.len() && raw[j] == kids[k];
        assert(raw[j].path.len() > dir.len());
    }
    lemma_kids_rows_open(ls, dir, kids, depth, x, fuel, kids.len() as int);
}

/// A name that starts with a dot.
pub open spec fn dot_name(name: Seq<char>) -> bool {
    name.len() > 0 && name[0] == '.'
}

/// In the file tree, every expanded directory that holds a child whose name
/// does not start with a dot is followed directly by that directory's first
/// such child in listing order (directories first, then by name), one level
/// deeper, whatever the directory's own depth: expanded directories open at
/// every level.
pub proof fn law_expanded_dirs_show_children(
    ls: Seq<(Seq<char>, Seq<ChildModel>)>,
    root: Seq<char>,
    expanded: Seq<Seq<char>>,
)
    requires
        child_paths_extend(ls),
    ensures
        ({
            let rows = tree_rows(ls, root, expanded);
            forall|i: int|
                0 <= i < rows.len() && (#[trigger] rows[i]).is_expanded && (exists|k: int|
                    0 <= k < listed(ls, rows[i].path).len() && !dot_name(
                        (#[trigger] listed(ls, rows[i].path)[k]).name,
                    )) ==> {
                    let kids = ordered_children(listed(ls, rows[i].path));
                    &&& i + 1 < rows.len()
                    &&& rows[i + 1].depth == rows[i].depth + 1
                    &&& exists|k: int|
                        0 <= k < kids.len() && rows[i + 1].path == (#[trigger] kids[k]).path
                            && rows[i + 1].name == kids[k].name && !dot_name(kids[k].name)
                            && forall|j: int| 0 <= j < k ==> dot_name((#[trigger] kids[j]).name)
                }
        }),
{
    broadcast use vstd::seq_lib::group_to_multiset_ensures;

    let rows = tree_rows(ls, root, expanded);
    lemma_count_longer_le_len(expanded, root.len() as int);
    lemma_dir_rows_open(ls, root, 0, expanded, expanded.len());
    assert forall|i: int|
        0 <= i < rows.len() && (#[trigger] rows[i]).is_expanded && (exists|k: int|
            0 <= k < listed(ls, rows[i].path).len() && !dot_name(
                (#[trigger] listed(ls, rows[i].path)[k]).name,
            )) implies {
        let kids = ordered_children(listed(ls, rows[i].path));
        &&& i + 1 < rows.len()
        &&& rows[i + 1].depth == rows[i].depth + 1
        &&& exists|k: int|
            0 <= k < kids.len() && rows[i + 1].path == (#[trigger] kids[k]).path && rows[i
                + 1].name == kids[k].name && !dot_name(kids[k].name) && forall|j: int|
                0 <= j < k ==> dot_name((#[trigger] kids[j]).name)
    } by {
        let raw = listed(ls, rows[i].path);
        let kids = ordered_children(raw);
        let d = rows[i].depth + 1;
        assert(d > 0);
        let k = choose|k: int| 0 <= k < raw.len() && !dot_name((#[trigger] raw[k]).name);
        law_children_listing_order(raw);
        assert(raw.contains(raw[k]));
        assert(raw.to_multiset().count(raw[k]) > 0);
        assert(kids.contains(raw[k]));
        let j = choose|j: int| 0 <= j < kids.len() && kids[j] == raw[k];
        assert(!hidden(kids[j], d));
        assert(shows_child(ls, rows[i].path, d));
        let m = choose|m: int|
            0 <= m < kids.len() && first_shown(kids, d, m) && rows[i + 1].path == (#[trigger] kids[m]).path
                && rows[i + 1].name == kids[m].name && rows[i + 1].depth == d;
        assert forall|j: int| 0 <= j < m implies dot_name((#[trigger] kids[j]).name) by {
            assert(hidden(kids[j], d));
        }
    }
}

/// In the rows of the first `n` children: no row deeper than the top level
/// has a dot name, and every one of those children shown at `depth` has a
/// row at `depth`.
proof fn lemma_kids_rows_names(
    ls: Seq<(Seq<char>, Seq<ChildModel>)>,
    kids: Seq<ChildModel>,
    depth: int,
    x: Seq<Seq<char>>,
    fuel: nat,
    n: int,
)
    requires
        0 <= n <= kids.len(),
    ensures
        ({
            let rows = kids_rows(ls, kids, depth, x, fuel, n);
            &&& forall|i: int|
                0 <= i < rows.len() && (#[trigger] rows[i]).depth > 0 ==> !dot_name(rows[i].name)
            &&& forall|k: int|
                0 <= k < n && !hidden(#[trigger] kids[k], depth) ==> exists|i: int|
                    0 <= i < rows.len() && (#[trigger] rows[i]).path == kids[k].path
                        && rows[i].name == kids[k].name && rows[i].depth == depth
        }),
    decreases fuel, 0int, n,
{
    if n > 0 {
        lemma_kids_rows_names(ls, kids, depth, x, fuel, n - 1);
        let prev = kids_rows(ls, kids, depth, x, fuel, n - 1);
        let rows = kids_rows(ls, kids, depth, x, fuel, n);
        let c = kids[n - 1];
        if !hidden(c, depth) {
            let open = c.is_dir && x.contains(c.path);
            let e = row_of(c, depth, open);
            let child = dir_rows(ls, c.path, depth + 1, x, (fuel - 1) as nat);
            if open && fuel > 0 {
                lemma_dir_rows_names(ls, c.path, depth + 1, x, (fuel - 1) as nat);
                assert(rows == prev.push(e) + child);
            } else {
                assert(rows == prev.push(e));
            }
            assert forall|i: int| 0 <= i < rows.len() && (#[trigger] rows[i]).depth > 0 implies !dot_name(
                rows[i].name,
            ) by {
                if i < prev.len() {
                    assert(rows[i] == prev[i]);
                } else if i > prev.len() {
                    assert(rows[i] == child[i - prev.len() - 1]);
                }
            }
            assert forall|k: int| 0 <= k < n && !hidden(#[trigger] kids[k], depth) implies exists|i: int|
                0 <= i < rows.len() && (#[trigger] rows[i]).path == kids[k].path && rows[i].name
                    == kids[k].name && rows[i].depth == depth by {
                if k < n - 1 {
                    let i = choose|i: int|
                        0 <= i < prev.len() && (#[trigger] prev[i]).path == kids[k].path
                            && prev[i].name == kids[k].name && prev[i].depth == depth;
                    assert(rows[i] == prev[i]);
                } else {
                    assert(rows[prev.len() as int] == e);
                }
            }
        }
    }
}

/// The rows of `dir` keep the properties of `lemma_kids_rows_names`.
proof fn lemma_dir_rows_names(
    ls: Seq<(Seq<char>, Seq<ChildModel>)>,
    dir: Seq<char>,
    depth: int,
    x: Seq<Seq<char>>,
    fuel: nat,
)
    ensures
        ({
            let rows = dir_rows(ls, dir, depth, x, fuel);
            let kids = ordered_children(listed(ls, dir));
            &&& forall|i: int|
                0 <= i < rows.len() && (#[trigger] rows[i]).depth > 0 ==> !dot_name(rows[i].name)
            &&& forall|k: int|
                0 <= k < kids.len() && !hidden(#[trigger] kids[k], depth) ==> exists|i: int|
                    0 <= i < rows.len() && (#[trigger] rows[i]).path == kids[k].path
                        && rows[i].name == kids[k].name && rows[i].depth == depth
        }),
    decreases fuel, 1int, 0int,
{
    let kids = ordered_children(listed(ls, dir));
    lemma_kids_rows_names(ls, kids, depth, x, fuel, kids.len() as int);
    let rows = dir_rows(ls, dir, depth, x, fuel);
    assert(rows == kids_rows(ls, kids, depth, x, fuel, kids.len() as int));
    assert forall|k: int| 0 <= k < kids.len() && !hidden(#[trigger] kids[k], depth) implies exists|i: int|
        0 <= i < rows.len() && (#[trigger] rows[i]).path == kids[k].path && rows[i].name
            == kids[k].name && rows[i].depth == depth by {
        assert(0 <= k < kids.len() as int);
    }
}

/// The file tree lists every child of the root at the top level, dot names
/// included, and below the top level shows no name that starts with a dot.
pub proof fn law_tree_hides_dot_names_below_top(
    ls: Seq<(Seq<char>, Seq<ChildModel>)>,
    root: Seq<char>,
    expanded: Seq<Seq<char>>,
)
    ensures
        ({
            let rows = tree_rows(ls, root, expanded);
            let top = listed(ls, root);
            &&& forall|i: int|
                0 <= i < rows.len() && (#[trigger] rows[i]).depth > 0 ==> !dot_name(rows[i].name)
            &&& forall|k: int|
                0 <= k < top.len() ==> exists|i: int|
                    0 <= i < rows.len() && (#[trigger] rows[i]).path == (#[trigger] top[k]).path
                        && rows[i].name == top[k].name && rows[i].depth == 0
        }),
{
    broadcast use vstd::seq_lib::group_to_multiset_ensures;

    let rows = tree_rows(ls, root, expanded);
    let top = listed(ls, root);
    let kids = ordered_children(top);
    lemma_dir_rows_names(ls, root, 0, expanded, expanded.len());
    law_children_listing_order(top);
    assert forall|k: int| 0 <= k < top.len() implies exists|i: int|
        0 <= i < rows.len() && (#[trigger] rows[i]).path == (#[trigger] top[k]).path
            && rows[i].name == top[k].name && rows[i].depth == 0 by {
        assert(top.contains(top[k]));
        assert(top.to_multiset().count(top[k]) > 0);
        assert(kids.contains(top[k]));
        let j = choose|j: int| 0 <= j < kids.len() && kids[j] == top[k];
        assert(!hidden(kids[j], 0));
        let i = choose|i: int|
            0 <= i < rows.len() && (#[trigger] rows[i]).path == kids[j].path && rows[i].name
                == kids[j].name && rows[i].depth == 0;
    }
}

// ── What the completion popup keeps ────────────────────────────────────────

/// `label` begins with `typed`, both lower-cased.
pub open spec fn begins_with_lowered(label: Seq<char>, typed: Seq<char>) -> bool {
    &&& lowercase(typed).len() <= lowercase(label).len()
    &&& lowercase(label).take(lowercase(typed).len() as int) == lowercase(typed)
}

/// While the cursor stays on the word's line at or after its start, the
/// popup keeps, in the server's order and at most twenty of them, the items
/// whose lower-cased label begins with the lower-cased text typed since the
/// word's start (all of them while fewer than twenty match), with the
/// selection kept within the list; it is gone exactly when no item matches.
pub proof fn law_refilter_keeps_matching_items(
    all: Seq<(Seq<char>, Seq<char>)>,
    selected: int,
    word_start: int,
    trigger_line: int,
    line: Seq<char>,
    cursor: Pos,
)
    requires
        0 <= selected,
        0 <= word_start <= cursor.col <= line.len(),
        cursor.line == trigger_line,
    ensures
        ({
            let typed = line.subrange(word_start, cursor.col as int);
            match refiltered(all, selected, word_start, trigger_line, line, cursor) {
                Some((f, sel)) => {
                    &&& 0 < f.len() <= 20
                    &&& 0 <= sel < f.len()
                    &&& (selected < f.len() ==> sel == selected)
                    &&& (selected >= f.len() ==> sel == f.len() - 1)
                    &&& forall|i: int| 0 <= i < f.len() ==> begins_with_lowered(#[trigger] f[i].0, typed)
                    &&& exists|idx: Seq<int>| picked_in_order(idx, f, all)
                    &&& f.len() < 20 ==> forall|j: int|
                        0 <= j < all.len() && begins_with_lowered(#[trigger] all[j].0, typed)
                            ==> f.contains(all[j])
                },
                None => forall|j: int|
                    0 <= j < all.len() ==> !begins_with_lowered(#[trigger] all[j].0, typed),
            }
        }),
{
    let typed = line.subrange(word_start, cursor.col as int);
    let p = lowercase(typed);
    assert(crate::completion::typed_prefix(line, word_start, cursor.col as int) == p);
    law_popup_items_match(all, p);
    let f = shown(all, p);
    assert forall|l: Seq<char>| shown_for(p, l) == begins_with_lowered(l, typed) by {
        if p.len() == 0 {
            assert(lowercase(l).take(0) =~= p);
        }
    }
    if f.len() == 0 {
        assert forall|j: int| 0 <= j < all.len() implies !begins_with_lowered(
            #[trigger] all[j].0,
            typed,
        ) by {
            if begins_with_lowered(all[j].0, typed) {
                assert(shown_for(p, all[j].0));
                assert(f.contains(all[j]));
            }
        }
    } else {
        assert forall|i: int| 0 <= i < f.len() implies begins_with_lowered(#[trigger] f[i].0, typed) by {
            assert(shown_for(p, f[i].0));
        }
    }
}

// ── Pasting several lines ───────────────────────────────────────────────────

/// `s` starts with a space or a tab.
pub open spec fn starts_indented(s: Seq<char>) -> bool {
    s.len() > 0 && (s[0] == ' ' || s[0] == '\t')
}

/// The line that line break `j` of a paste splits, the pieces `p` typed
/// into a line that reads `a` before the cursor and `b` after it: what
/// comes before that break on its line, then `b`.
pub open spec fn line_split_by_break(a: Seq<char>, p: Seq<Seq<char>>, b: Seq<char>, j: int) -> Seq<char> {
    (if j == 0 {
        a + p[0]
    } else {
        p[j]
    }) + b
}

/// The text before line `k + 1` is the text before line `k`, line `k` and a break.
proof fn lemma_text_before_next(t: Seq<Seq<char>>, k: int)
    requires
        0 <= k < t.len(),
    ensures
        text_before(t, k + 1) == text_before(t, k) + t[k] + seq!['\n'],
{
    if k == 0 {
        assert(t.take(1) =~= seq![t[0]]);
    } else {
        assert(t.take(k + 1).drop_last() =~= t.take(k));
        assert(text_before(t, k + 1) =~= text_before(t, k) + t[k] + seq!['\n']);
    }
}

proof fn lemma_line_breaks_le_len(s: Seq<char>)
    ensures
        line_breaks(s) <= s.len(),
    decreases s.len(),
{
    if s.len() > 0 {
        lemma_line_breaks_le_len(s.drop_last());
    }
}

/// After the first `k` pieces of `p` are pasted into `m` (giving `r`), with
/// no indentation added: the cursor is on line `l + k - 1` after the last
/// piece typed, which the rest of the old line follows, and the text before
/// the cursor is the old text before it followed by the pieces joined.
spec fn pasted_so_far(m: EditorModel, p: Seq<Seq<char>>, k: int, r: EditorModel) -> bool {
    let l = m.cursor.line as int;
    let c = m.cursor.col as int;
    let line = m.lines[l];
    let a = line.take(c);
    let b = line.skip(c);
    let cl = l + k - 1;
    let pre = if k == 1 {
        a + p[0]
    } else {
        p[k - 1]
    };
    &&& r.cursor.line == cl
    &&& r.lines.len() == m.lines.len() + k - 1
    &&& r.lines[cl] == pre + b
    &&& r.cursor.col == pre.len()
    &&& text_before(r.lines, cl) + pre == text_before(m.lines, l) + a + join_lines(p.take(k))
    &&& text_after(r.lines, cl) == text_after(m.lines, l)
}

/// One more piece: a line break that adds no indentation, then the piece.
proof fn lemma_paste_step(m: EditorModel, p: Seq<Seq<char>>, k: int, r: EditorModel)
    requires
        m.inv(),
        2 <= k <= p.len(),
        pasted_so_far(m, p, k - 1, r),
        m.cursor.line + k - 1 <= usize::MAX,
        p[k - 1].len() <= usize::MAX,
        !starts_indented(
            line_split_by_break(
                m.cur_line().take(m.cursor.col as int),
                p,
                m.cur_line().skip(m.cursor.col as int),
                k - 2,
            ),
        ),
    ensures
        pasted_so_far(m, p, k, r.break_line().insert_str(p[k - 1])),
{
    let l = m.cursor.line as int;
    let c = m.cursor.col as int;
    let a = m.cur_line().take(c);
    let b = m.cur_line().skip(c);
    let cl = l + k - 2;
    let pre = if k - 1 == 1 {
        a + p[0]
    } else {
        p[k - 2]
    };
    assert(line_split_by_break(a, p, b, k - 2) == pre + b);
    assert(crate::text::indent_len(pre + b) == 0);
    let r1 = r.break_line();
    assert((pre + b).take(0) =~= Seq::<char>::empty());
    assert((pre + b).take(pre.len() as int) =~= pre);
    assert((pre + b).skip(pre.len() as int) =~= b);
    let t1 = r.lines.update(cl, pre).insert(cl + 1, b);
    assert(r1.lines == t1);
    assert(r1.cursor == Pos { line: (cl + 1) as usize, col: 0 });
    let r2 = r1.insert_str(p[k - 1]);
    let t2 = r2.lines;
    assert(t1[cl + 1] == b);
    assert(b.take(0) =~= Seq::<char>::empty());
    assert(b.skip(0) =~= b);
    if p[k - 1].len() > 0 {
        assert(t2 == t1.update(cl + 1, p[k - 1] + b));
    } else {
        assert(t2 == t1);
        assert(p[k - 1] + b =~= b);
    }
    assert(t2.len() == r.lines.len() + 1);
    assert(t2[cl + 1] == p[k - 1] + b);
    assert(t2[cl] == pre);
    assert(t2.take(cl) =~= r.lines.take(cl));
    assert(text_before(t2, cl) == text_before(r.lines, cl));
    lemma_text_before_next(t2, cl);
    assert(t2.skip(cl + 2) =~= r.lines.skip(cl + 1));
    assert(text_after(t2, cl + 1) == text_after(r.lines, cl));
    assert(p.take(k).drop_last() =~= p.take(k - 1));
    assert(join_lines(p.take(k)) == join_lines(p.take(k - 1)) + seq!['\n'] + p[k - 1]);
    assert(text_before(t2, cl + 1) + p[k - 1] =~= text_before(m.lines, l) + a + join_lines(
        p.take(k),
    ));
}

/// Pasting the first `k` pieces, while no split line starts indented.
proof fn lemma_paste_prefix(m: EditorModel, p: Seq<Seq<char>>, k: int)
    requires
        m.inv(),
        1 <= k <= p.len(),
        m.text().len() + join_lines(p).len() < usize::MAX,
        forall|j: int|
            0 <= j < p.len() - 1 ==> !starts_indented(
                #[trigger] line_split_by_break(m.cur_line().take(m.cursor.col as int), p, m.cur_line().skip(m.cursor.col as int), j),
            ),
    ensures
        pasted_so_far(m, p, k, m.paste_pieces(p.take(k))),
    decreases k,
{
    let l = m.cursor.line as int;
    let c = m.cursor.col as int;
    let a = m.cur_line().take(c);
    let b = m.cur_line().skip(c);
    crate::text::lemma_line_len_le_join(m.lines, l);
    crate::text::lemma_line_count_le_join(m.lines);
    crate::text::lemma_line_len_le_join(p, k - 1);
    crate::text::lemma_line_count_le_join(p);
    assert(m.cur_line() =~= a + b);
    if k == 1 {
        let r = m.paste_pieces(p.take(1));
        assert(p.take(1).drop_last() =~= Seq::<Seq<char>>::empty());
        assert(m.paste_pieces(Seq::<Seq<char>>::empty()) == m);
        assert(r == m.insert_str(p[0]));
        assert(join_lines(p.take(1)) == p[0]);
        if p[0].len() > 0 {
            lemma_around_update(m.lines, l, a + p[0] + b);
            assert(r.lines[l] =~= a + p[0] + b);
        } else {
            assert(a + p[0] =~= a);
        }
        assert(r.cursor.line == l);
        assert(r.lines.len() == m.lines.len());
        assert(r.lines[l] == a + p[0] + b);
        assert(r.cursor.col == (a + p[0]).len());
        assert(text_before(r.lines, l) + (a + p[0]) == text_before(m.lines, l) + a + join_lines(p.take(1)));
        assert(text_after(r.lines, l) == text_after(m.lines, l));
        assert(pasted_so_far(m, p, 1, r));
    } else {
        lemma_paste_prefix(m, p, k - 1);
        let r = m.paste_pieces(p.take(k - 1));
        lemma_paste_step(m, p, k, r);
        assert(p.take(k).drop_last() =~= p.take(k - 1));
        assert(p.take(k).last() == p[k - 1]);
        assert(m.paste_pieces(p.take(k)) == r.break_line().insert_str(p[k - 1]));
        assert(pasted_so_far(m, p, k, m.paste_pieces(p.take(k))));
    }
}

/// Pasting with nothing selected inserts exactly the clipboard's text at
/// the cursor, line breaks included, and leaves the cursor right after it,
/// where no line that a break of the paste splits starts with a space or a
/// tab (Enter would carry that indentation onto the next line).
pub proof fn law_paste_inserts_text(m: EditorModel)
    requires
        m.inv(),
        m.selection is None,
        m.clipboard is Some,
        m.text().len() + m.clipboard->0.len() < usize::MAX,
        forall|j: int|
            0 <= j < split_lines(m.clipboard->0).len() - 1 ==> !starts_indented(
                #[trigger] line_split_by_break(
                    m.cur_line().take(m.cursor.col as int),
                    split_lines(m.clipboard->0),
                    m.cur_line().skip(m.cursor.col as int),
                    j,
                ),
            ),
    ensures
        m.paste().text() == m.text().take(offset(m.lines, m.cursor)) + m.clipboard->0
            + m.text().skip(offset(m.lines, m.cursor)),
        offset(m.paste().lines, m.paste().cursor) == offset(m.lines, m.cursor)
            + m.clipboard->0.len(),
{
    let clip = m.clipboard->0;
    let p = split_lines(clip);
    lemma_join_split(clip);
    assert(m.delete_selection() == m);
    let n = p.len() as int;
    assert(p.take(n) =~= p);
    lemma_paste_prefix(m, p, n);
    let r = m.paste();
    assert(r == m.paste_pieces(p.take(n)));
    let t = m.lines;
    let l = m.cursor.line as int;
    let c = m.cursor.col as int;
    let line = t[l];
    let cl = l + n - 1;
    let pre = if n == 1 {
        line.take(c) + p[0]
    } else {
        p[n - 1]
    };
    crate::text::lemma_join_at(t, l);
    crate::text::lemma_join_at(r.lines, cl);
    let txt = m.text();
    assert(txt.take(offset(t, m.cursor)) =~= text_before(t, l) + line.take(c));
    assert(txt.skip(offset(t, m.cursor)) =~= line.skip(c) + text_after(t, l));
    assert(r.text() =~= txt.take(offset(t, m.cursor)) + clip + txt.skip(offset(t, m.cursor)));
}

} // verus!
