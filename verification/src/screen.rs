//! The geometry and the text of the screen around the file's lines: where
//! the editor's parts go, the labels of the tabs and of the tree's rows,
//! the line numbers and the status bar.
use vstd::prelude::*;
use crate::editor::Pos;
use crate::model::sat_sub;
use crate::text::{concat, push_char};

verus! {

/// A rectangle of terminal cells.
#[derive(Debug, Clone, Copy, PartialEq, Eq, Structural)]
pub struct Area {
    pub x: u16,
    pub y: u16,
    pub width: u16,
    pub height: u16,
}

/// Where the parts of the editor panel go.
#[derive(Debug, Clone, Copy, PartialEq, Eq, Structural)]
pub struct EditorLayout {
    /// The tab bar: the first row.
    pub tabs: Area,
    /// The rows between the tab bar and the status bar.
    pub content: Area,
    /// The status bar: the last row.
    pub status: Area,
    /// The content right of the line numbers.
    pub text: Area,
    /// The width of the line numbers.
    pub gutter: u16,
}

/// The parts of an editor panel whose inside is `inner`, with line numbers
/// five columns wide where they are shown; none when fewer than three rows.
pub fn editor_layout(inner: Area, line_numbers: bool) -> (r: Option<EditorLayout>)
    requires
        inner.y + inner.height <= u16::MAX,
        inner.x + (if line_numbers { 5int } else { 0 }) <= u16::MAX,
    ensures
        inner.height < 3 ==> r is None,
        inner.height >= 3 ==> r == Some(
            EditorLayout {
                tabs: Area { height: 1, ..inner },
                content: Area { y: (inner.y + 1) as u16, height: (inner.height - 2) as u16, ..inner },
                status: Area { y: (inner.y + inner.height - 1) as u16, height: 1, ..inner },
                text: Area {
                    x: (inner.x + if line_numbers { 5int } else { 0 }) as u16,
                    y: (inner.y + 1) as u16,
                    width: sat_sub(inner.width as int, if line_numbers { 5int } else { 0 }) as u16,
                    height: (inner.height - 2) as u16,
                },
                gutter: if line_numbers { 5 } else { 0 },
            },
        ),
{
    if inner.height < 3 {
        return None;
    }
    let gutter: u16 = if line_numbers {
        5
    } else {
        0
    };
    let content = Area { y: inner.y + 1, height: inner.height - 2, ..inner };
    let text_width: u16 = if inner.width >= gutter {
        inner.width - gutter
    } else {
        0
    };
    Some(
        EditorLayout {
            tabs: Area { height: 1, ..inner },
            content,
            status: Area { y: inner.y + inner.height - 1, height: 1, ..inner },
            text: Area { x: inner.x + gutter, width: text_width, ..content },
            gutter,
        },
    )
}

/// The cell of the cursor: as far right of the text's left edge, and below
/// the content's top, as the cursor is from the scroll position.
pub fn cursor_cell(text: Area, content: Area, cursor: Pos, scroll: Pos) -> (r: (u16, u16))
    requires
        text.x + sat_sub(cursor.col as int, scroll.col as int) <= u16::MAX,
        content.y + sat_sub(cursor.line as int, scroll.line as int) <= u16::MAX,
    ensures
        r.0 == text.x + sat_sub(cursor.col as int, scroll.col as int),
        r.1 == content.y + sat_sub(cursor.line as int, scroll.line as int),
{
    let dx = cursor.col.saturating_sub(scroll.col);
    let dy = cursor.line.saturating_sub(scroll.line);
    (text.x + dx as u16, content.y + dy as u16)
}

/// The new-file prompt: fifty columns (less on a narrow screen) and five
/// rows, in the middle of `screen`.
pub fn new_file_popup(screen: Area) -> (r: Area)
    requires
        screen.x + screen.width <= u16::MAX,
        screen.y + screen.height <= u16::MAX,
    ensures
        r.width == if 50 <= sat_sub(screen.width as int, 4) {
            50
        } else {
            sat_sub(screen.width as int, 4)
        },
        r.height == 5,
        r.x == screen.x + sat_sub(screen.width as int, r.width as int) / 2,
        r.y == screen.y + sat_sub(screen.height as int, 5) / 2,
{
    let room = screen.width.saturating_sub(4);
    let width: u16 = if 50 <= room {
        50
    } else {
        room
    };
    let x = screen.x + screen.width.saturating_sub(width) / 2;
    let y = screen.y + screen.height.saturating_sub(5) / 2;
    Area { x, y, width, height: 5 }
}

// ── Numbers ───────────────────────────────────────────────────────────────────

/// The character of decimal digit `d`.
pub open spec fn digit_char(d: int) -> char {
    ('0' as int + d) as char
}

/// `n` in decimal, without leading zeros.
pub open spec fn decimal(n: nat) -> Seq<char>
    decreases n,
{
    if n < 10 {
        seq![digit_char(n as int)]
    } else {
        decimal(n / 10).push(digit_char((n % 10) as int))
    }
}

fn digit(d: usize) -> (c: char)
    requires
        d < 10,
    ensures
        c == digit_char(d as int),
{
    if d == 0 {
        '0'
    } else if d == 1 {
        '1'
    } else if d == 2 {
        '2'
    } else if d == 3 {
        '3'
    } else if d == 4 {
        '4'
    } else if d == 5 {
        '5'
    } else if d == 6 {
        '6'
    } else if d == 7 {
        '7'
    } else if d == 8 {
        '8'
    } else {
        '9'
    }
}

/// `n` written in decimal.
pub fn decimal_string(n: usize) -> (r: String)
    ensures
        r@ == decimal(n as nat),
{
    let mut digits: Vec<char> = Vec::new();
    let mut m = n;
    loop
        invariant_except_break
            m > 0 || digits@.len() == 0,
            digits@.len() == 0 ==> m == n,
            m > 0 ==> decimal(n as nat) == decimal(m as nat) + digits@,
        ensures
            decimal(n as nat) == digits@,
        decreases m,
    {
        let ghost before = digits@;
        proof {
            if before.len() == 0 {
                assert(decimal(n as nat) =~= decimal(m as nat) + before);
            }
        }
        let c = digit(m % 10);
        digits.insert(0, c);
        proof {
            assert(digits@ =~= seq![c] + before);
            if m >= 10 {
                assert(decimal(m as nat) == decimal((m / 10) as nat).push(c));
                assert(decimal(m as nat) + before =~= decimal((m / 10) as nat) + digits@);
            } else {
                assert(decimal(m as nat) =~= seq![c]);
            }
        }
        m = m / 10;
        if m == 0 {
            break;
        }
    }
    let mut r = String::new();
    let mut i: usize = 0;
    while i < digits.len()
        invariant
            i <= digits.len(),
            r@ == digits@.take(i as int),
        decreases digits.len() - i,
    {
        push_char(&mut r, digits[i]);
        proof {
            assert(r@ =~= digits@.take(i + 1));
        }
        i = i + 1;
    }
    proof {
        assert(digits@.take(digits@.len() as int) =~= digits@);
    }
    r
}

/// `s` padded with spaces on the left to at least `w` characters.
pub open spec fn pad_left(s: Seq<char>, w: nat) -> Seq<char> {
    crate::text::spaces(sat_sub(w as int, s.len() as int) as nat) + s
}

/// The label in front of line `line` (counted from zero): its number,
/// counted from one, right-aligned in four columns, and a space.
pub fn line_number_label(line: usize) -> (r: String)
    requires
        line < usize::MAX,
    ensures
        r@ == pad_left(decimal((line + 1) as nat), 4).push(' '),
{
    let num = decimal_string(line + 1);
    let n = crate::text::char_count(num.as_str());
    let mut r = String::new();
    let mut k: usize = n;
    while k < 4
        invariant
            n <= k <= 4 || (n > 4 && k == n),
            r@ == crate::text::spaces((k - n) as nat),
        decreases 4 - k,
    {
        push_char(&mut r, ' ');
        proof {
            assert(r@ =~= crate::text::spaces((k + 1 - n) as nat));
        }
        k = k + 1;
    }
    let mut out = concat(r.as_str(), num.as_str());
    push_char(&mut out, ' ');
    proof {
        assert(sat_sub(4, n as int) == k - n);
    }
    out
}

// ── Labels ────────────────────────────────────────────────────────────────────

/// Two spaces per level of depth.
pub open spec fn indent(depth: nat) -> Seq<char>
    decreases depth,
{
    if depth == 0 {
        seq![]
    } else {
        indent((depth - 1) as nat) + seq![' ', ' ']
    }
}

/// The icon in front of a tree row: a triangle for a directory, pointing
/// down when it is expanded, blank for a file.
pub open spec fn tree_icon(is_dir: bool, is_expanded: bool) -> Seq<char> {
    if is_dir {
        if is_expanded {
            seq!['▾', ' ']
        } else {
            seq!['▸', ' ']
        }
    } else {
        seq![' ', ' ']
    }
}

/// The text of a tree row: indentation, icon, name.
pub fn tree_label(depth: usize, is_dir: bool, is_expanded: bool, name: &str) -> (r: String)
    ensures
        r@ == indent(depth as nat) + tree_icon(is_dir, is_expanded) + name@,
{
    let mut r = String::new();
    let mut k: usize = 0;
    while k < depth
        invariant
            k <= depth,
            r@ == indent(k as nat),
        decreases depth - k,
    {
        push_char(&mut r, ' ');
        push_char(&mut r, ' ');
        proof {
            assert(r@ =~= indent((k + 1) as nat));
        }
        k = k + 1;
    }
    if is_dir {
        if is_expanded {
            push_char(&mut r, '▾');
        } else {
            push_char(&mut r, '▸');
        }
    } else {
        push_char(&mut r, ' ');
    }
    push_char(&mut r, ' ');
    let out = concat(r.as_str(), name);
    proof {
        assert(out@ =~= indent(depth as nat) + tree_icon(is_dir, is_expanded) + name@);
    }
    out
}

/// The title of a file's tab: its name between spaces, with a dot when it
/// has unsaved changes.
pub open spec fn tab_title(name: Seq<char>, modified: bool) -> Seq<char> {
    if modified {
        seq![' '] + name + seq![' ', '●', ' ']
    } else {
        seq![' '] + name + seq![' ']
    }
}

pub fn tab_label(name: &str, modified: bool) -> (r: String)
    ensures
        r@ == tab_title(name@, modified),
{
    let mut r = String::new();
    push_char(&mut r, ' ');
    let mut r = concat(r.as_str(), name);
    push_char(&mut r, ' ');
    if modified {
        push_char(&mut r, '●');
        push_char(&mut r, ' ');
    }
    proof {
        assert(r@ =~= tab_title(name@, modified));
    }
    r
}

/// The status bar: whether there are unsaved changes, the cursor's line and
/// column counted from one, the file's extension and the message.
pub open spec fn status_text(
    modified: bool,
    cursor: Pos,
    ext: Seq<char>,
    msg: Seq<char>,
) -> Seq<char> {
    seq![' ', if modified { '●' } else { '·' }] + " | Ln "@ + decimal((cursor.line + 1) as nat)
        + " Col "@ + decimal((cursor.col + 1) as nat) + " | "@ + ext + " | "@ + msg
}

pub fn status_line(modified: bool, cursor: Pos, ext: &str, msg: &str) -> (r: String)
    requires
        cursor.line < usize::MAX,
        cursor.col < usize::MAX,
    ensures
        r@ == status_text(modified, cursor, ext@, msg@),
{
    let mut r = String::new();
    push_char(&mut r, ' ');
    push_char(&mut r, if modified { '●' } else { '·' });
    let r = concat(r.as_str(), " | Ln ");
    let r = concat(r.as_str(), decimal_string(cursor.line + 1).as_str());
    let r = concat(r.as_str(), " Col ");
    let r = concat(r.as_str(), decimal_string(cursor.col + 1).as_str());
    let r = concat(r.as_str(), " | ");
    let r = concat(r.as_str(), ext);
    let r = concat(r.as_str(), " | ");
    let r = concat(r.as_str(), msg);
    proof {
        assert(r@ =~= status_text(modified, cursor, ext@, msg@));
    }
    r
}

} // verus!
