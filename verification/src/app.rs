//! The editor application's state and how it reacts to keys and the mouse:
//! which file is active, where the focus is, the completion popup, closing
//! files with unsaved changes.  What needs the disk, the terminal or a
//! language server is returned as an `Action` for the caller to perform.
use vstd::prelude::*;
use crate::completion::CompletionState;
use crate::editor::Editor;
use crate::file_tree::{FileTree, EntryModel, entry_views};
use crate::lsp::item_views;
use crate::model::{EditorModel, sat_sub};
use crate::text::{char_count, concat};

verus! {

#[derive(Debug, Clone, Copy, PartialEq, Eq, Structural)]
pub enum Focus {
    Tree,
    Editor,
}

/// Settings read from the configuration file.
pub struct Config {
    pub theme: String,
    pub tab_size: usize,
    pub line_numbers: bool,
    pub tree_width: u16,
    pub auto_complete: bool,
}

impl Config {
    /// The settings used when there is no configuration file.
    pub fn defaults() -> (c: Config)
        ensures
            c.theme@ == "base16-ocean.dark"@,
            c.tab_size == 4,
            c.line_numbers,
            c.tree_width == 30,
            c.auto_complete,
    {
        Config {
            theme: "base16-ocean.dark".to_owned(),
            tab_size: 4,
            line_numbers: true,
            tree_width: 30,
            auto_complete: true,
        }
    }
}

/// A key as the application sees it.
#[derive(Debug, Clone, Copy, PartialEq, Eq, Structural)]
pub enum KeyInput {
    Char(char),
    Enter,
    Tab,
    Esc,
    Up,
    Down,
    Left,
    Right,
    Home,
    End,
    PageUp,
    PageDown,
    Backspace,
    Delete,
    Other,
}

/// A key press with its modifiers.
#[derive(Debug, Clone, Copy, PartialEq, Eq, Structural)]
pub struct KeyPress {
    pub code: KeyInput,
    pub ctrl: bool,
    pub shift: bool,
    pub alt: bool,
}

/// A mouse event as the application sees it.
#[derive(Debug, Clone, Copy, PartialEq, Eq, Structural)]
pub enum MouseInput {
    LeftDown { x: u16, y: u16 },
    /// The mouse moved to `(x, y)` with the left button held.
    LeftDrag { x: u16, y: u16 },
    ScrollUp,
    ScrollDown,
    Other,
}

/// What the caller has to do after a key or a click.
#[derive(Debug, Clone, Copy, PartialEq, Eq, Structural)]
pub enum Action {
    Nothing,
    /// Write the editor's text to its file.
    Save(usize),
    /// Activate the tree's selected row (which needs the directory listings).
    ActivateTree,
    /// Click on row `y` of the tree's view (which needs the directory listings).
    ClickTree(usize),
    /// Ask the language server for completions in this editor.
    AutoComplete(usize),
    /// An editor was closed.
    EditorClosed,
    /// Create the file named in `creating_file` (relative to the tree's root) and open it.
    CreateFile,
}

/// What opening a file comes to before the file is read.
#[derive(Debug, Clone, Copy, PartialEq, Eq, Structural)]
pub enum OpenStep {
    /// The file was open already and is now active.
    AlreadyOpen,
    /// Eight files are open; nothing was opened.
    TooMany,
    /// The file has to be read, then handed to `open_file_done`.
    Read,
}

/// The state of the application.
pub struct App {
    pub config: Config,
    pub file_tree: FileTree,
    pub editors: Vec<Editor>,
    pub active_editor: Option<usize>,
    pub focus: Focus,
    pub status_msg: String,
    pub should_quit: bool,
    /// A second Ctrl+Q closes a file with unsaved changes.
    pub pending_force_close: bool,
    pub completion: Option<CompletionState>,
    pub pending_completion_id: Option<i64>,
    /// The path being typed for a new file, while its prompt is open.
    pub creating_file: Option<String>,
}

/// A completion popup, as values.
pub struct CompletionModel {
    pub all: Seq<(Seq<char>, Seq<char>)>,
    pub filtered: Seq<(Seq<char>, Seq<char>)>,
    pub selected: int,
    pub word_start: int,
    pub trigger_line: int,
}

pub open spec fn completion_view(c: CompletionState) -> CompletionModel {
    CompletionModel {
        all: item_views(c.all_items@),
        filtered: item_views(c.filtered@),
        selected: c.selected as int,
        word_start: c.word_start as int,
        trigger_line: c.trigger_line as int,
    }
}

pub open spec fn opt_completion_view(c: Option<CompletionState>) -> Option<CompletionModel> {
    match c {
        Some(s) => Some(completion_view(s)),
        None => None,
    }
}

pub open spec fn editor_views(v: Seq<Editor>) -> Seq<EditorModel> {
    v.map_values(|e: Editor| e@)
}

/// The application's state, as values.
#[verifier::ext_equal]
pub struct AppModel {
    pub theme: Seq<char>,
    pub tab_size: nat,
    pub auto_complete: bool,
    pub line_numbers: bool,
    pub tree_width: int,
    pub tree_root: Seq<char>,
    pub tree_rows: Seq<EntryModel>,
    pub tree_selected: int,
    pub tree_scroll: int,
    pub editors: Seq<EditorModel>,
    pub active: Option<usize>,
    pub focus: Focus,
    pub status: Seq<char>,
    pub should_quit: bool,
    pub pending_force_close: bool,
    pub completion: Option<CompletionModel>,
    pub pending_completion_id: Option<i64>,
    pub creating_file: Option<Seq<char>>,
}

impl View for App {
    type V = AppModel;

    open spec fn view(&self) -> AppModel {
        AppModel {
            theme: self.config.theme@,
            tab_size: self.config.tab_size as nat,
            auto_complete: self.config.auto_complete,
            line_numbers: self.config.line_numbers,
            tree_width: self.config.tree_width as int,
            tree_root: self.file_tree.root@,
            tree_rows: entry_views(self.file_tree.entries@),
            tree_selected: self.file_tree.selected as int,
            tree_scroll: self.file_tree.scroll as int,
            editors: editor_views(self.editors@),
            active: self.active_editor,
            focus: self.focus,
            status: self.status_msg@,
            should_quit: self.should_quit,
            pending_force_close: self.pending_force_close,
            completion: opt_completion_view(self.completion),
            pending_completion_id: self.pending_completion_id,
            creating_file: match self.creating_file {
                Some(s) => Some(s@),
                None => None,
            },
        }
    }
}

pub open spec fn unsaved_warning() -> Seq<char> {
    "Unsaved changes! Ctrl+S to save, Ctrl+Q again to discard"@
}

impl AppModel {
    /// At most eight files are open, every editor is well-formed and the
    /// active one exists.
    pub open spec fn inv(self) -> bool {
        &&& self.editors.len() <= 8
        &&& forall|i: int| 0 <= i < self.editors.len() ==> #[trigger] self.editors[i].inv()
        &&& match self.active {
            Some(i) => i < self.editors.len(),
            None => true,
        }
    }

    pub open spec fn with_editor(self, i: int, e: EditorModel) -> AppModel {
        AppModel { editors: self.editors.update(i, e), ..self }
    }

    /// Closes the active file; with no file open, quits.
    pub open spec fn close_editor(self) -> AppModel {
        match self.active {
            Some(idx) => {
                let eds = self.editors.remove(idx as int);
                AppModel {
                    editors: eds,
                    active: if eds.len() == 0 {
                        None
                    } else {
                        Some(sat_sub(idx as int, 1) as usize)
                    },
                    focus: if eds.len() == 0 {
                        Focus::Tree
                    } else {
                        self.focus
                    },
                    status: seq![],
                    ..self
                }
            },
            None => AppModel { should_quit: true, ..self },
        }
    }

    /// Ctrl+Q: a file with unsaved changes is closed only on the second press in a row.
    pub open spec fn try_close_editor(self) -> AppModel {
        match self.active {
            Some(idx) if self.editors[idx as int].modified => if self.pending_force_close {
                AppModel { pending_force_close: false, ..self }.close_editor()
            } else {
                AppModel { pending_force_close: true, status: unsaved_warning(), ..self }
            },
            _ => AppModel { pending_force_close: false, ..self }.close_editor(),
        }
    }

    /// The popup after the active editor's cursor moved.
    pub open spec fn update_completion_filter(self, idx: int) -> AppModel {
        match self.completion {
            None => self,
            Some(c) => {
                let e = self.editors[idx];
                match crate::completion::refiltered(
                    c.all,
                    c.selected,
                    c.word_start,
                    c.trigger_line,
                    e.lines[e.cursor.line as int],
                    e.cursor,
                ) {
                    None => AppModel { completion: None, ..self },
                    Some((f, sel)) => AppModel {
                        completion: Some(CompletionModel { filtered: f, selected: sel, ..c }),
                        ..self
                    },
                }
            },
        }
    }

    /// Replaces the word being completed with the chosen item; the popup closes.
    pub open spec fn accept_completion(self, idx: int) -> AppModel {
        match self.completion {
            None => self,
            Some(c) => {
                let closed = AppModel { completion: None, ..self };
                if c.filtered.len() == 0 {
                    closed
                } else {
                    let sel = if c.selected < c.filtered.len() - 1 {
                        c.selected
                    } else {
                        c.filtered.len() - 1
                    };
                    closed.with_editor(
                        idx,
                        self.editors[idx].replace_word(c.word_start, c.filtered[sel].1),
                    )
                }
            },
        }
    }

    /// Moves the popup's selection forward (or back), wrapping around.
    pub open spec fn step_completion(self, forward: bool) -> AppModel {
        match self.completion {
            None => self,
            Some(c) => {
                let n = c.filtered.len() as int;
                let sel = if n == 0 {
                    c.selected
                } else if forward {
                    (c.selected + 1) % n
                } else if c.selected == 0 {
                    n - 1
                } else {
                    c.selected - 1
                };
                AppModel { completion: Some(CompletionModel { selected: sel, ..c }), ..self }
            },
        }
    }

    /// Keys for the active editor when it has the focus.
    pub open spec fn editor_key(self, key: KeyPress) -> (AppModel, Action) {
        match self.active {
            None => (self, Action::Nothing),
            Some(i) => {
                let idx = i as int;
                if self.completion is Some && (key.code == KeyInput::Enter || key.code
                    == KeyInput::Tab) {
                    (self.accept_completion(idx), Action::Nothing)
                } else if self.completion is Some && key.code == KeyInput::Down {
                    (self.step_completion(true), Action::Nothing)
                } else if self.completion is Some && key.code == KeyInput::Up {
                    (self.step_completion(false), Action::Nothing)
                } else if self.completion is Some && key.code == KeyInput::Backspace {
                    (
                        self.with_editor(idx, self.editors[idx].backspace()).update_completion_filter(
                            idx,
                        ),
                        Action::Nothing,
                    )
                } else {
                    let m = if self.completion is Some && !(key.code is Char) {
                        AppModel { completion: None, ..self }
                    } else {
                        self
                    };
                    m.editing_key(idx, key)
                }
            },
        }
    }

    /// Typing, moving and clipboard keys in editor `idx`.
    pub open spec fn editing_key(self, idx: int, key: KeyPress) -> (AppModel, Action) {
        let e = self.editors[idx];
        if key.code == KeyInput::Tab && !key.ctrl && !key.shift {
            (self.with_editor(idx, e.insert_tab(self.tab_size)), Action::Nothing)
        } else if key.code is Char && !key.ctrl && !key.alt {
            let m = self.with_editor(idx, e.insert_char(key.code->Char_0));
            if m.completion is Some {
                (m.update_completion_filter(idx), Action::Nothing)
            } else if m.auto_complete {
                (m, Action::AutoComplete(idx as usize))
            } else {
                (m, Action::Nothing)
            }
        } else {
            let s = key.shift;
            let e2 = match key.code {
                KeyInput::Left => e.move_left(s),
                KeyInput::Right => e.move_right(s),
                KeyInput::Up => e.move_up(s),
                KeyInput::Down => e.move_down(s),
                KeyInput::Home => e.move_home(s),
                KeyInput::End => e.move_end(s),
                KeyInput::PageUp => e.page_up(20),
                KeyInput::PageDown => e.page_down(20),
                KeyInput::Backspace => e.backspace(),
                KeyInput::Delete => e.delete_key(),
                KeyInput::Enter => e.insert_newline(),
                KeyInput::Char(c) => if key.ctrl && c == 'a' {
                    e.select_all()
                } else if key.ctrl && (c == 'c' || c == 'C') {
                    e.copy()
                } else if key.ctrl && (c == 'x' || c == 'X') {
                    e.cut()
                } else if key.ctrl && c == 'v' {
                    e.paste()
                } else {
                    e
                },
                _ => e,
            };
            (self.with_editor(idx, e2), Action::Nothing)
        }
    }

    /// Keys for the file tree when it has the focus.
    pub open spec fn tree_key(self, key: KeyPress) -> (AppModel, Action) {
        match key.code {
            KeyInput::Up => (
                AppModel { tree_selected: sat_sub(self.tree_selected, 1), ..self },
                Action::Nothing,
            ),
            KeyInput::Down => (
                AppModel {
                    tree_selected: if self.tree_selected + 1 < self.tree_rows.len() {
                        self.tree_selected + 1
                    } else {
                        self.tree_selected
                    },
                    ..self
                },
                Action::Nothing,
            ),
            KeyInput::Enter => (self, Action::ActivateTree),
            KeyInput::Char(c) => if key.ctrl && c == 'n' {
                (AppModel { creating_file: Some(seq![]), ..self }, Action::Nothing)
            } else {
                (self, Action::Nothing)
            },
            _ => (self, Action::Nothing),
        }
    }

    /// Keys while the new-file prompt is open: typing edits the path, Enter
    /// asks for the file, Esc closes the prompt.
    pub open spec fn creating_key(self, key: KeyPress) -> (AppModel, Action) {
        let p = self.creating_file->0;
        match key.code {
            KeyInput::Enter => (self, Action::CreateFile),
            KeyInput::Esc => (AppModel { creating_file: None, ..self }, Action::Nothing),
            KeyInput::Backspace => (
                AppModel {
                    creating_file: Some(if p.len() > 0 { p.drop_last() } else { p }),
                    ..self
                },
                Action::Nothing,
            ),
            KeyInput::Char(c) => if !key.ctrl && !key.alt {
                (AppModel { creating_file: Some(p.push(c)), ..self }, Action::Nothing)
            } else {
                (self, Action::Nothing)
            },
            _ => (self, Action::Nothing),
        }
    }

    /// What a key press does.
    pub open spec fn key(self, key: KeyPress) -> (AppModel, Action) {
        let is_ctrl_q = key.ctrl && !key.shift && key.code == KeyInput::Char('q');
        // Any key but Ctrl+Q cancels a pending force-close.
        let m = if !is_ctrl_q && self.pending_force_close {
            AppModel { pending_force_close: false, status: seq![], ..self }
        } else {
            self
        };
        if m.creating_file is Some {
            m.creating_key(key)
        } else if is_ctrl_q {
            let closed = m.try_close_editor();
            (
                closed,
                if closed.editors.len() < m.editors.len() {
                    Action::EditorClosed
                } else {
                    Action::Nothing
                },
            )
        } else if key.ctrl && !key.shift && key.code == KeyInput::Char('s') {
            (
                m,
                match m.active {
                    Some(i) => Action::Save(i),
                    None => Action::Nothing,
                },
            )
        } else if key.code == KeyInput::Esc && m.focus == Focus::Editor {
            if m.completion is Some {
                (AppModel { completion: None, ..m }, Action::Nothing)
            } else {
                (AppModel { focus: Focus::Tree, ..m }, Action::Nothing)
            }
        } else {
            match m.focus {
                Focus::Tree => m.tree_key(key),
                Focus::Editor => m.editor_key(key),
            }
        }
    }

    /// The arithmetic of every key's edit fits in a `usize`.
    pub open spec fn key_fits(self) -> bool {
        match self.active {
            Some(i) => {
                let e = self.editors[i as int];
                &&& e.text().len() + self.tab_size < usize::MAX
                &&& e.cursor.line + 20 <= usize::MAX
                &&& e.paste_fits()
                &&& match self.completion {
                    Some(c) => forall|j: int|
                        0 <= j < c.filtered.len() ==> c.word_start + (#[trigger] c.filtered[j]).1.len()
                            <= usize::MAX,
                    None => true,
                }
            },
            None => true,
        }
    }
}

/// Replacing a well-formed editor by a well-formed one keeps the application well-formed.
pub proof fn lemma_inv_with_editor(m: AppModel, idx: int, e: EditorModel)
    requires
        m.inv(),
        0 <= idx < m.editors.len(),
        e.inv(),
    ensures
        m.with_editor(idx, e).inv(),
{
    let n = m.with_editor(idx, e);
    assert forall|i: int| 0 <= i < n.editors.len() implies #[trigger] n.editors[i].inv() by {
        if i != idx {
            assert(n.editors[i] == m.editors[i]);
        }
    }
}

/// Changing what is not an editor keeps the application well-formed.
pub proof fn lemma_inv_same_editors(m: AppModel, n: AppModel)
    requires
        m.inv(),
        n.editors == m.editors,
        n.active == m.active,
    ensures
        n.inv(),
{
    assert forall|i: int| 0 <= i < n.editors.len() implies #[trigger] n.editors[i].inv() by {
        assert(n.editors[i] == m.editors[i]);
    }
}

impl App {
    /// The application with a file tree and no file open.
    pub fn new(config: Config, file_tree: FileTree) -> (app: App)
        ensures
            app@.editors.len() == 0,
            app@.active is None,
            app@.focus == Focus::Tree,
            app@.status.len() == 0,
            !app@.should_quit,
            !app@.pending_force_close,
            app@.completion is None,
            app@.creating_file is None,
            app@.inv(),
            app.file_tree == file_tree,
            app.config == config,
    {
        App {
            config,
            file_tree,
            editors: Vec::new(),
            active_editor: None,
            focus: Focus::Tree,
            status_msg: String::new(),
            should_quit: false,
            pending_force_close: false,
            completion: None,
            pending_completion_id: None,
            creating_file: None,
        }
    }

    /// Takes editor `idx` out to work on it; `put_editor` puts it back.
    fn take_editor(&mut self, idx: usize) -> (e: Editor)
        requires
            idx < old(self).editors@.len(),
        ensures
            e == old(self).editors@[idx as int],
            final(self).editors@ == old(self).editors@.remove(idx as int),
            final(self)@ == (AppModel { editors: old(self)@.editors.remove(idx as int), ..old(self)@ }),
    {
        let e = self.editors.remove(idx);
        proof {
            assert(editor_views(self.editors@) =~= editor_views(old(self).editors@).remove(idx as int));
        }
        e
    }

    fn put_editor(&mut self, idx: usize, e: Editor)
        requires
            idx <= old(self).editors@.len(),
        ensures
            final(self).editors@ == old(self).editors@.insert(idx as int, e),
            final(self)@ == (AppModel { editors: old(self)@.editors.insert(idx as int, e@), ..old(self)@ }),
    {
        self.editors.insert(idx, e);
        proof {
            assert(editor_views(self.editors@) =~= editor_views(old(self).editors@).insert(
                idx as int,
                e@,
            ));
        }
    }

    /// Closes the active file; with no file open, quits.
    fn close_editor(&mut self)
        requires
            old(self)@.inv(),
        ensures
            final(self)@ == old(self)@.close_editor(),
            final(self)@.inv(),
    {
        if let Some(idx) = self.active_editor {
            let _ = self.take_editor(idx);
            if self.editors.len() == 0 {
                self.active_editor = None;
                self.focus = Focus::Tree;
            } else {
                self.active_editor = Some(idx.saturating_sub(1));
            }
            self.status_msg = String::new();
            proof {
                assert(self@ =~= old(self)@.close_editor());
            }
        } else {
            self.should_quit = true;
            proof {
                assert(self@ =~= old(self)@.close_editor());
            }
        }
    }

    fn try_close_editor(&mut self)
        requires
            old(self)@.inv(),
        ensures
            final(self)@ == old(self)@.try_close_editor(),
            final(self)@.inv(),
    {
        if let Some(idx) = self.active_editor {
            if self.editors[idx].modified {
                if self.pending_force_close {
                    // A second Ctrl+Q closes without saving.
                    self.pending_force_close = false;
                    self.close_editor();
                } else {
                    // The first Ctrl+Q warns.
                    self.pending_force_close = true;
                    self.status_msg = "Unsaved changes! Ctrl+S to save, Ctrl+Q again to discard".to_owned();
                    proof {
                        assert(self@ =~= old(self)@.try_close_editor());
                    }
                }
                return ;
            }
        }
        self.pending_force_close = false;
        self.close_editor();
    }

    /// Recompute filtered list based on the word prefix at current cursor position.
    /// Dismisses completion if cursor moved off the trigger line or before word_start.
    pub fn update_completion_filter(&mut self, idx: usize)
        requires
            old(self)@.inv(),
            idx < old(self)@.editors.len(),
        ensures
            final(self)@ == old(self)@.update_completion_filter(idx as int),
            final(self)@.inv(),
    {
        let comp = match self.completion.take() {
            None => return ,
            Some(c) => c,
        };
        let cur = self.editors[idx].cursor;
        proof {
            let e = self.editors@[idx as int]@;
            assert(old(self)@.editors[idx as int] == e);
            assert(e.inv());
            assert(self.editors@[idx as int].lines@.len() == e.lines.len());
            assert(self.editors@[idx as int].lines@[cur.line as int]@ == e.lines[cur.line as int]);
        }
        let r = comp.refilter(self.editors[idx].lines[cur.line].as_str(), cur);
        self.completion = r;
        proof {
            assert(self@ =~= old(self)@.update_completion_filter(idx as int));
        }
    }

    /// Keys while the active editor has the focus.
    fn handle_editor_key(&mut self, key: KeyPress) -> (r: Action)
        requires
            old(self)@.inv(),
            old(self)@.key_fits(),
        ensures
            (final(self)@, r) == old(self)@.editor_key(key),
            final(self)@.inv(),
    {
        let idx = match self.active_editor {
            Some(i) => i,
            None => return Action::Nothing,
        };
        if self.completion.is_some() {
            match key.code {
                // Enter or Tab applies the selected completion
                KeyInput::Enter | KeyInput::Tab => {
                    let comp = self.completion.take().unwrap();
                    match comp.chosen() {
                        Some(item) => {
                            let mut ed = self.take_editor(idx);
                            proof {
                                let c = completion_view(comp);
                                let sel = if c.selected < c.filtered.len() - 1 {
                                    c.selected
                                } else {
                                    c.filtered.len() - 1
                                };
                                assert(c.filtered[sel] == (item.label@, item.insert_text@));
                            }
                            ed.replace_word(comp.word_start, item.insert_text.as_str());
                            let ghost e2 = ed@;
                            self.put_editor(idx, ed);
                            proof {
                                assert(self@.editors =~= old(self)@.editors.update(idx as int, e2));
                                assert forall|i: int| 0 <= i < self@.editors.len() implies #[trigger] self@.editors[i].inv() by {
                                    if i != idx {
                                        assert(self@.editors[i] == old(self)@.editors[i]);
                                    }
                                }
                            }
                        },
                        None => {},
                    }
                    proof {
                        assert(self@ =~= old(self)@.accept_completion(idx as int));
                    }
                    return Action::Nothing;
                },
                KeyInput::Down => {
                    let mut comp = self.completion.take().unwrap();
                    let ghost before = comp;
                    comp.select_next();
                    self.completion = Some(comp);
                    proof {
                        let n = before.filtered@.len();
                        if n > 0 {
                            assert((before.selected + 1) % (n as int) < n);
                        }
                        assert(item_views(comp.filtered@).len() == n);
                        let c0 = completion_view(before);
                        let c1 = completion_view(comp);
                        assert(c1.all == c0.all);
                        assert(c1.filtered == c0.filtered);
                        assert(c1.word_start == c0.word_start);
                        assert(c1.trigger_line == c0.trigger_line);
                        if n > 0 {
                            assert(c1.selected == (c0.selected + 1) % (n as int));
                        }
                        assert(c1 == CompletionModel { selected: c1.selected, ..c0 });
                        assert(self@ =~= old(self)@.step_completion(true));
                    }
                    return Action::Nothing;
                },
                KeyInput::Up => {
                    let mut comp = self.completion.take().unwrap();
                    let ghost before = comp;
                    comp.select_prev();
                    self.completion = Some(comp);
                    proof {
                        assert(item_views(comp.filtered@).len() == before.filtered@.len());
                        assert(self@ =~= old(self)@.step_completion(false));
                    }
                    return Action::Nothing;
                },
                KeyInput::Backspace => {
                    let mut ed = self.take_editor(idx);
                    ed.backspace();
                    self.put_editor(idx, ed);
                    proof {
                        assert(self@ =~= old(self)@.with_editor(
                            idx as int,
                            old(self)@.editors[idx as int].backspace(),
                        ));
                    }
                    self.update_completion_filter(idx);
                    return Action::Nothing;
                },
                // Char: let fall through — handled below with auto-trigger
                KeyInput::Char(_) => {},
                // Esc handled globally; anything else dismisses
                _ => {
                    self.completion = None;
                    proof {
                        assert(self@ =~= (AppModel { completion: None, ..old(self)@ }));
                    }
                },
            }
        }
        self.handle_editing_key(idx, key)
    }

    /// Typing, moving and clipboard keys in editor `idx`.
    fn handle_editing_key(&mut self, idx: usize, key: KeyPress) -> (r: Action)
        requires
            old(self)@.inv(),
            old(self)@.key_fits(),
            old(self)@.active == Some(idx),
            old(self)@.completion is Some ==> key.code is Char,
        ensures
            (final(self)@, r) == old(self)@.editing_key(idx as int, key),
            final(self)@.inv(),
    {
        let ghost m = self@;
        let ghost e0 = m.editors[idx as int];
        proof {
            assert(m.editors[idx as int].inv());
            crate::text::lemma_line_len_le_join(e0.lines, e0.cursor.line as int);
        }
        let mut ed = self.take_editor(idx);
        let tab_size = self.config.tab_size;
        if key.code == KeyInput::Tab && !key.ctrl && !key.shift {
            ed.insert_tab(tab_size);
            self.put_editor(idx, ed);
            proof {
                assert(self@ =~= m.with_editor(idx as int, e0.insert_tab(tab_size as nat)));
            }
            return Action::Nothing;
        }
        if let KeyInput::Char(c) = key.code {
            if !key.ctrl && !key.alt {
                ed.insert_char(c);
                self.put_editor(idx, ed);
                proof {
                    assert(self@ =~= m.with_editor(idx as int, e0.insert_char(c)));
                }
                if self.completion.is_some() {
                    self.update_completion_filter(idx);
                    return Action::Nothing;
                } else if self.config.auto_complete {
                    return Action::AutoComplete(idx);
                }
                return Action::Nothing;
            }
        }
        let s = key.shift;
        match key.code {
            KeyInput::Left => ed.move_left(s),
            KeyInput::Right => ed.move_right(s),
            KeyInput::Up => ed.move_up(s),
            KeyInput::Down => ed.move_down(s),
            KeyInput::Home => ed.move_home(s),
            KeyInput::End => ed.move_end(s),
            KeyInput::PageUp => ed.page_up(20),
            KeyInput::PageDown => ed.page_down(20),
            KeyInput::Backspace => ed.backspace(),
            KeyInput::Delete => ed.delete_key(),
            KeyInput::Enter => ed.insert_newline(),
            KeyInput::Char(c) => {
                if key.ctrl && c == 'a' {
                    ed.select_all();
                } else if key.ctrl && (c == 'c' || c == 'C') {
                    ed.copy();
                } else if key.ctrl && (c == 'x' || c == 'X') {
                    ed.cut();
                } else if key.ctrl && c == 'v' {
                    ed.paste();
                }
            },
            _ => {},
        }
        let ghost e2 = ed@;
        self.put_editor(idx, ed);
        proof {
            assert(self@ =~= m.with_editor(idx as int, e2));
        }
        Action::Nothing
    }

    fn handle_tree_key(&mut self, key: KeyPress) -> (r: Action)
        requires
            old(self)@.inv(),
        ensures
            (final(self)@, r) == old(self)@.tree_key(key),
            final(self)@.inv(),
    {
        match key.code {
            KeyInput::Up => {
                self.file_tree.move_up();
                proof {
                    assert(self@ =~= (AppModel {
                        tree_selected: sat_sub(old(self)@.tree_selected, 1),
                        ..old(self)@
                    }));
                }
                Action::Nothing
            },
            KeyInput::Down => {
                self.file_tree.move_down();
                proof {
                    assert(old(self)@.tree_rows.len() == old(self).file_tree.entries@.len());
                    let o = old(self)@;
                    assert(self@ =~= (AppModel {
                        tree_selected: if o.tree_selected + 1 < o.tree_rows.len() {
                            o.tree_selected + 1
                        } else {
                            o.tree_selected
                        },
                        ..o
                    }));
                }
                Action::Nothing
            },
            KeyInput::Enter => Action::ActivateTree,
            KeyInput::Char(c) => {
                if key.ctrl && c == 'n' {
                    self.creating_file = Some(String::new());
                    proof {
                        assert(self@ =~= (AppModel { creating_file: Some(seq![]), ..old(self)@ }));
                        lemma_inv_same_editors(old(self)@, self@);
                    }
                }
                Action::Nothing
            },
            _ => Action::Nothing,
        }
    }

    /// Keys while the new-file prompt is open.
    fn handle_creating_key(&mut self, key: KeyPress) -> (r: Action)
        requires
            old(self)@.inv(),
            old(self).creating_file is Some,
        ensures
            (final(self)@, r) == old(self)@.creating_key(key),
            final(self)@.inv(),
    {
        let p = self.creating_file.take().unwrap();
        let ghost pv = p@;
        match key.code {
            KeyInput::Enter => {
                self.creating_file = Some(p);
                proof {
                    assert(self@ =~= old(self)@);
                }
                return Action::CreateFile;
            },
            KeyInput::Esc => {
                proof {
                    assert(self@ =~= (AppModel { creating_file: None, ..old(self)@ }));
                    lemma_inv_same_editors(old(self)@, self@);
                }
                return Action::Nothing;
            },
            KeyInput::Backspace => {
                let n = char_count(p.as_str());
                let q = if n > 0 {
                    crate::text::substring(p.as_str(), 0, n - 1)
                } else {
                    p
                };
                proof {
                    if n > 0 {
                        assert(q@ =~= pv.drop_last());
                    }
                }
                self.creating_file = Some(q);
            },
            KeyInput::Char(c) => {
                let mut q = p;
                if !key.ctrl && !key.alt {
                    crate::text::push_char(&mut q, c);
                }
                self.creating_file = Some(q);
            },
            _ => {
                self.creating_file = Some(p);
            },
        }
        proof {
            assert(self@ =~= old(self)@.creating_key(key).0);
            lemma_inv_same_editors(old(self)@, self@);
        }
        Action::Nothing
    }

    /// Reacts to a key press.
    pub fn handle_key(&mut self, key: KeyPress) -> (r: Action)
        requires
            old(self)@.inv(),
            old(self)@.key_fits(),
        ensures
            (final(self)@, r) == old(self)@.key(key),
            final(self)@.inv(),
    {
        let ctrl = key.ctrl;
        let shift = key.shift;
        // Any key but Ctrl+Q cancels a pending force-close
        let is_ctrl_q = ctrl && !shift && key.code == KeyInput::Char('q');
        if !is_ctrl_q && self.pending_force_close {
            self.pending_force_close = false;
            self.status_msg = String::new();
        }
        let ghost m = self@;
        proof {
            assert(m =~= if !is_ctrl_q && old(self)@.pending_force_close {
                AppModel { pending_force_close: false, status: seq![], ..old(self)@ }
            } else {
                old(self)@
            });
        }
        // The new-file prompt takes every key while it is open.
        if self.creating_file.is_some() {
            return self.handle_creating_key(key);
        }
        // Ctrl+Q closes the file (or quits when only the tree is open).
        if is_ctrl_q {
            let before = self.editors.len();
            self.try_close_editor();
            if self.editors.len() < before {
                return Action::EditorClosed;
            }
            return Action::Nothing;
        }
        // Ctrl+S saves.
        if ctrl && !shift && key.code == KeyInput::Char('s') {
            return match self.active_editor {
                Some(i) => Action::Save(i),
                None => Action::Nothing,
            };
        }
        // Escape in the editor closes the popup first, then returns to the tree.
        if key.code == KeyInput::Esc && self.focus == Focus::Editor {
            if self.completion.is_some() {
                self.completion = None;
                proof {
                    assert(self@ =~= (AppModel { completion: None, ..m }));
                }
                return Action::Nothing;
            }
            self.focus = Focus::Tree;
            proof {
                assert(self@ =~= (AppModel { focus: Focus::Tree, ..m }));
            }
            return Action::Nothing;
        }
        match self.focus {
            Focus::Tree => self.handle_tree_key(key),
            Focus::Editor => self.handle_editor_key(key),
        }
    }
}


/// The name shown on an editor's tab.
pub open spec fn tab_name(e: EditorModel) -> Seq<char> {
    match crate::paths::file_name(e.path) {
        Some(n) => n,
        None => "untitled"@,
    }
}

/// Width of an editor's tab.
pub open spec fn tab_width_of(e: EditorModel) -> usize {
    (crate::words::byte_len(tab_name(e)) + if e.modified { 5int } else { 3int }) as usize
}

pub open spec fn tab_widths(es: Seq<EditorModel>) -> Seq<usize> {
    es.map_values(|e: EditorModel| tab_width_of(e))
}

pub open spec fn open_message(shown: Seq<char>) -> Seq<char> {
    "Opened: "@ + shown
}

impl AppModel {
    /// What a mouse event does; `width` is the screen's width.
    pub open spec fn mouse(self, ev: MouseInput, width: u16) -> (AppModel, Action) {
        let tree_w = if self.active is Some { self.tree_width } else { width as int };
        match ev {
            MouseInput::LeftDown { x, y } => {
                if self.active is None || (x as int) < tree_w {
                    (AppModel { focus: Focus::Tree, ..self }, Action::ClickTree(sat_sub(y as int, 1) as usize))
                } else {
                    let m = AppModel { focus: Focus::Editor, ..self };
                    if y == 1 && self.editors.len() > 1 {
                        let rel_x = sat_sub(x as int, tree_w + 1);
                        match crate::render::tab_under(tab_widths(self.editors), rel_x, self.editors.len() as int) {
                            Some(i) => (AppModel { active: Some(i as usize), ..m }, Action::Nothing),
                            None => (m, Action::Nothing),
                        }
                    } else {
                        let idx = self.active->0 as int;
                        let gutter = if self.line_numbers { 5int } else { 0int };
                        let ex = sat_sub(x as int, tree_w + 1 + gutter);
                        let ey = sat_sub(y as int, 2);
                        (m.with_editor(idx, self.editors[idx].click(ex, ey)), Action::Nothing)
                    }
                }
            },
            MouseInput::LeftDrag { x, y } => {
                // Dragging over the text extends the selection from where the
                // button went down; elsewhere it does nothing.
                if self.active is None || (x as int) < tree_w || (y == 1 && self.editors.len() > 1) {
                    (self, Action::Nothing)
                } else {
                    let idx = self.active->0 as int;
                    let gutter = if self.line_numbers { 5int } else { 0int };
                    let ex = sat_sub(x as int, tree_w + 1 + gutter);
                    let ey = sat_sub(y as int, 2);
                    (
                        AppModel { focus: Focus::Editor, ..self }.with_editor(idx, self.editors[idx].drag(ex, ey)),
                        Action::Nothing,
                    )
                }
            },
            MouseInput::ScrollUp => match self.focus {
                Focus::Tree => (AppModel { tree_selected: sat_sub(self.tree_selected, 3), ..self }, Action::Nothing),
                Focus::Editor => match self.active {
                    Some(i) => (
                        self.with_editor(
                            i as int,
                            self.editors[i as int].move_up(false).move_up(false).move_up(false),
                        ),
                        Action::Nothing,
                    ),
                    None => (self, Action::Nothing),
                },
            },
            MouseInput::ScrollDown => match self.focus {
                Focus::Tree => (AppModel { tree_selected: self.tree_down(self.tree_down(self.tree_down(self.tree_selected))), ..self }, Action::Nothing),
                Focus::Editor => match self.active {
                    Some(i) => (
                        self.with_editor(
                            i as int,
                            self.editors[i as int].move_down(false).move_down(false).move_down(false),
                        ),
                        Action::Nothing,
                    ),
                    None => (self, Action::Nothing),
                },
            },
            MouseInput::Other => (self, Action::Nothing),
        }
    }

    /// The tree row below `sel`, if there is one.
    pub open spec fn tree_down(self, sel: int) -> int {
        if sel + 1 < self.tree_rows.len() { sel + 1 } else { sel }
    }

    /// The arithmetic of every click fits.
    pub open spec fn mouse_fits(self) -> bool {
        &&& self.tree_width + 6 <= u16::MAX
        &&& crate::render::tab_start(tab_widths(self.editors), self.editors.len() as int) <= usize::MAX
        &&& forall|i: int| 0 <= i < self.editors.len() ==> crate::words::byte_len(tab_name(#[trigger] self.editors[i])) + 5 <= usize::MAX
        &&& match self.active {
            Some(i) => self.editors[i as int].scroll.line + u16::MAX <= usize::MAX
                && self.editors[i as int].scroll.col + u16::MAX <= usize::MAX,
            None => true,
        }
    }
}

impl App {
    /// Reacts to a mouse event on a screen `width` columns wide.
    pub fn handle_mouse(&mut self, ev: MouseInput, width: u16) -> (r: Action)
        requires
            old(self)@.inv(),
            old(self)@.mouse_fits(),
        ensures
            (final(self)@, r) == old(self)@.mouse(ev, width),
            final(self)@.inv(),
    {
        let ghost m = self@;
        let tree_w = if self.active_editor.is_some() {
            self.config.tree_width
        } else {
            width
        };
        match ev {
            MouseInput::LeftDown { x, y } => {
                if self.active_editor.is_none() || x < tree_w {
                    // A click in the tree (its first row is below the border).
                    self.focus = Focus::Tree;
                    let tree_y = (y as usize).saturating_sub(1);
                    proof {
                        assert(self@ =~= (AppModel { focus: Focus::Tree, ..m }));
                        lemma_inv_same_editors(m, self@);
                    }
                    return Action::ClickTree(tree_y);
                }
                self.handle_editor_click(x, y, tree_w);
                Action::Nothing
            },
            MouseInput::LeftDrag { x, y } => {
                if self.active_editor.is_none() || x < tree_w || (y == 1 && self.editors.len() > 1) {
                    return Action::Nothing;
                }
                let idx = self.active_editor.unwrap();
                let gutter: u16 = if self.config.line_numbers {
                    5
                } else {
                    0
                };
                let editor_x = x.saturating_sub(tree_w + 1 + gutter) as usize;
                let editor_y = (y as usize).saturating_sub(2);
                self.focus = Focus::Editor;
                let ghost m1 = self@;
                proof {
                    assert(m1 =~= (AppModel { focus: Focus::Editor, ..m }));
                    assert(m1.editors[idx as int].inv());
                }
                let mut ed = self.take_editor(idx);
                ed.drag(editor_x, editor_y);
                let ghost e2 = ed@;
                self.put_editor(idx, ed);
                proof {
                    assert(self@ =~= m1.with_editor(idx as int, e2));
                    lemma_inv_with_editor(m1, idx as int, e2);
                }
                Action::Nothing
            },
            MouseInput::ScrollUp => {
                match self.focus {
                    Focus::Tree => {
                        self.file_tree.move_up();
                        self.file_tree.move_up();
                        self.file_tree.move_up();
                        proof {
                            assert(self@ =~= (AppModel { tree_selected: sat_sub(m.tree_selected, 3), ..m }));
                            lemma_inv_same_editors(m, self@);
                        }
                    },
                    Focus::Editor => {
                        if let Some(idx) = self.active_editor {
                            proof {
                                assert(m.editors[idx as int].inv());
                            }
                            let mut ed = self.take_editor(idx);
                            ed.move_up(false);
                            ed.move_up(false);
                            ed.move_up(false);
                            let ghost e2 = ed@;
                            self.put_editor(idx, ed);
                            proof {
                                assert(self@ =~= m.with_editor(idx as int, e2));
                                lemma_inv_with_editor(m, idx as int, e2);
                            }
                        }
                    },
                }
                Action::Nothing
            },
            MouseInput::ScrollDown => {
                match self.focus {
                    Focus::Tree => {
                        self.file_tree.move_down();
                        self.file_tree.move_down();
                        self.file_tree.move_down();
                        proof {
                            assert(m.tree_rows.len() == old(self).file_tree.entries@.len());
                            assert(self@ =~= (AppModel {
                                tree_selected: m.tree_down(m.tree_down(m.tree_down(m.tree_selected))),
                                ..m
                            }));
                            lemma_inv_same_editors(m, self@);
                        }
                    },
                    Focus::Editor => {
                        if let Some(idx) = self.active_editor {
                            proof {
                                assert(m.editors[idx as int].inv());
                            }
                            let mut ed = self.take_editor(idx);
                            ed.move_down(false);
                            ed.move_down(false);
                            ed.move_down(false);
                            let ghost e2 = ed@;
                            self.put_editor(idx, ed);
                            proof {
                                assert(self@ =~= m.with_editor(idx as int, e2));
                                lemma_inv_with_editor(m, idx as int, e2);
                            }
                        }
                    },
                }
                Action::Nothing
            },
            MouseInput::Other => Action::Nothing,
        }
    }

    /// A left click at `(x, y)` right of the tree (`tree_w` wide) with a file open.
    fn handle_editor_click(&mut self, x: u16, y: u16, tree_w: u16)
        requires
            old(self)@.inv(),
            old(self)@.mouse_fits(),
            old(self)@.active is Some,
            tree_w as int == old(self)@.tree_width,
            x >= tree_w,
        ensures
            final(self)@ == old(self)@.mouse(MouseInput::LeftDown { x, y }, 0).0,
            final(self)@.inv(),
    {
        let ghost m = self@;
        self.focus = Focus::Editor;
        let ghost m1 = self@;
        proof {
            assert(m1 =~= (AppModel { focus: Focus::Editor, ..m }));
            lemma_inv_same_editors(m, m1);
        }
        if y == 1 && self.editors.len() > 1 {
            // The tab bar: which tab was clicked?
            let rel_x = x.saturating_sub(tree_w + 1) as usize;
            let widths = self.tab_widths();
            if let Some(i) = crate::render::tab_at(&widths, rel_x) {
                proof {
                    crate::render::lemma_tab_under_bound(widths@, rel_x as int, widths@.len() as int);
                }
                self.active_editor = Some(i);
                proof {
                    assert(self@ =~= (AppModel { active: Some(i), ..m1 }));
                }
            }
        } else if let Some(idx) = self.active_editor {
            // A click in the text.
            let gutter: u16 = if self.config.line_numbers {
                5
            } else {
                0
            };
            let editor_x = x.saturating_sub(tree_w + 1 + gutter) as usize;
            let editor_y = (y as usize).saturating_sub(2);
            proof {
                assert(m1.editors[idx as int].inv());
            }
            let mut ed = self.take_editor(idx);
            ed.click(editor_x, editor_y);
            let ghost e2 = ed@;
            self.put_editor(idx, ed);
            proof {
                assert(self@ =~= m1.with_editor(idx as int, e2));
                lemma_inv_with_editor(m1, idx as int, e2);
            }
        }
    }

    /// The widths of the editors' tabs.
    fn tab_widths(&self) -> (r: Vec<usize>)
        requires
            self@.mouse_fits(),
        ensures
            r@ == tab_widths(self@.editors),
    {
        let mut r: Vec<usize> = Vec::new();
        let mut i: usize = 0;
        while i < self.editors.len()
            invariant
                i <= self.editors.len(),
                self@.mouse_fits(),
                r@ == tab_widths(self@.editors).take(i as int),
            decreases self.editors.len() - i,
        {
            let e = &self.editors[i];
            proof {
                assert(self@.editors[i as int] == e@);
                assert(crate::words::byte_len(tab_name(e@)) + 5 <= usize::MAX);
            }
            let pad: usize = if e.modified {
                5
            } else {
                3
            };
            let w = e.filename().len() + pad;
            r.push(w);
            proof {
                assert(tab_widths(self@.editors).take(i + 1) =~= tab_widths(self@.editors).take(i as int).push(w));
            }
            i = i + 1;
        }
        proof {
            assert(tab_widths(self@.editors).take(self.editors@.len() as int) =~= tab_widths(self@.editors));
        }
        r
    }

    /// The first step of opening the file at `path`: an open file becomes
    /// active; with eight files open nothing happens but a message; otherwise
    /// the file has to be read.
    pub fn open_file_begin(&mut self, path: &str) -> (r: OpenStep)
        requires
            old(self)@.inv(),
        ensures
            final(self)@.inv(),
            r == OpenStep::AlreadyOpen ==> exists|i: int|
                0 <= i < old(self)@.editors.len() && old(self)@.editors[i].path == path@ && (forall|j: int|
                    0 <= j < i ==> old(self)@.editors[j].path != path@) && final(self)@ == (AppModel {
                    active: Some(i as usize),
                    focus: Focus::Editor,
                    ..old(self)@
                }),
            r != OpenStep::AlreadyOpen ==> forall|i: int|
                0 <= i < old(self)@.editors.len() ==> old(self)@.editors[i].path != path@,
            r == OpenStep::TooMany <==> (r != OpenStep::AlreadyOpen && old(self)@.editors.len() >= 8),
            r == OpenStep::TooMany ==> final(self)@ == (AppModel {
                status: "Max 8 files open. Close one with Ctrl+Q first."@,
                ..old(self)@
            }),
            r == OpenStep::Read ==> final(self)@ == old(self)@,
    {
        let mut i: usize = 0;
        while i < self.editors.len()
            invariant
                self@ == old(self)@,
                old(self)@.inv(),
                i <= self.editors.len(),
                forall|j: int| 0 <= j < i ==> old(self)@.editors[j].path != path@,
            decreases self.editors.len() - i,
        {
            proof {
                assert(old(self)@.editors[i as int] == self.editors@[i as int]@);
            }
            if crate::lsp::same_str(self.editors[i].path.as_str(), path) {
                self.active_editor = Some(i);
                self.focus = Focus::Editor;
                proof {
                    assert(self@ =~= (AppModel { active: Some(i), focus: Focus::Editor, ..old(self)@ }));
                    assert(i < old(self)@.editors.len());
                    assert forall|k: int| 0 <= k < self@.editors.len() implies #[trigger] self@.editors[k].inv() by {
                        assert(self@.editors[k] == old(self)@.editors[k]);
                    }
                }
                return OpenStep::AlreadyOpen;
            }
            i = i + 1;
        }
        if self.editors.len() >= 8 {
            self.status_msg = "Max 8 files open. Close one with Ctrl+Q first.".to_owned();
            proof {
                assert(self@ =~= (AppModel {
                    status: "Max 8 files open. Close one with Ctrl+Q first."@,
                    ..old(self)@
                }));
            }
            return OpenStep::TooMany;
        }
        OpenStep::Read
    }

    /// The file has been read into `editor`: it is opened and becomes active;
    /// the message names `shown`.  Returns its index.
    pub fn open_file_done(&mut self, editor: Editor, shown: &str) -> (idx: usize)
        requires
            old(self)@.inv(),
            old(self)@.editors.len() < 8,
            editor@.inv(),
        ensures
            idx == old(self)@.editors.len(),
            final(self)@ == (AppModel {
                editors: old(self)@.editors.push(editor@),
                active: Some(idx),
                focus: Focus::Editor,
                status: open_message(shown@),
                ..old(self)@
            }),
            final(self)@.inv(),
    {
        let ghost ev = editor@;
        self.editors.push(editor);
        let idx = self.editors.len() - 1;
        self.active_editor = Some(idx);
        self.focus = Focus::Editor;
        self.status_msg = concat("Opened: ", shown);
        proof {
            assert(editor_views(self.editors@) =~= old(self)@.editors.push(ev));
            assert(self@ =~= (AppModel {
                editors: old(self)@.editors.push(ev),
                active: Some(idx),
                focus: Focus::Editor,
                status: open_message(shown@),
                ..old(self)@
            }));
        }
        idx
    }

    /// Reading or opening a file failed with `msg`.
    pub fn open_file_failed(&mut self, msg: &str)
        ensures
            final(self)@ == (AppModel { status: "Error: "@ + msg@, ..old(self)@ }),
    {
        self.status_msg = concat("Error: ", msg);
        proof {
            assert(self@ =~= (AppModel { status: "Error: "@ + msg@, ..old(self)@ }));
        }
    }

    /// Editor `idx` has been written to its file.
    pub fn save_done(&mut self, idx: usize)
        requires
            old(self)@.inv(),
            idx < old(self)@.editors.len(),
        ensures
            final(self)@ == (AppModel {
                editors: old(self)@.editors.update(
                    idx as int,
                    EditorModel { modified: false, ..old(self)@.editors[idx as int] },
                ),
                status: "Saved: "@ + tab_name(old(self)@.editors[idx as int]),
                ..old(self)@
            }),
            final(self)@.inv(),
    {
        proof {
            assert(old(self)@.editors[idx as int].inv());
        }
        let mut ed = self.take_editor(idx);
        ed.mark_saved();
        let name = concat("Saved: ", ed.filename());
        let ghost e2 = ed@;
        self.put_editor(idx, ed);
        self.status_msg = name;
        proof {
            assert(self@ =~= (AppModel {
                editors: old(self)@.editors.update(idx as int, e2),
                status: "Saved: "@ + tab_name(old(self)@.editors[idx as int]),
                ..old(self)@
            }));
            lemma_inv_with_editor(old(self)@, idx as int, e2);
        }
    }

    /// Writing a file failed with `msg`.
    pub fn save_failed(&mut self, msg: &str)
        ensures
            final(self)@ == (AppModel { status: "Save error: "@ + msg@, ..old(self)@ }),
    {
        self.status_msg = concat("Save error: ", msg);
        proof {
            assert(self@ =~= (AppModel { status: "Save error: "@ + msg@, ..old(self)@ }));
        }
    }

    /// Whether typing in editor `idx` should ask for completions: there is
    /// a word before the cursor.
    pub fn wants_completion(&self, idx: usize) -> (r: bool)
        requires
            self@.inv(),
            idx < self@.editors.len(),
        ensures
            r == (crate::model::word_start(
                self@.editors[idx as int].cur_line(),
                self@.editors[idx as int].cursor.col as int,
            ) != self@.editors[idx as int].cursor.col),
    {
        proof {
            assert(self@.editors[idx as int].inv());
        }
        self.editors[idx].word_start_col() != self.editors[idx].cursor.col
    }

    /// A language server answered with `items` for editor `idx`: unless
    /// there are none, the popup opens for the word before the cursor,
    /// filtered by what was typed meanwhile.
    pub fn receive_completions(&mut self, idx: usize, items: Vec<crate::lsp::CompletionItem>)
        requires
            old(self)@.inv(),
            idx < old(self)@.editors.len(),
        ensures
            items@.len() == 0 ==> final(self)@ == old(self)@,
            items@.len() > 0 ==> final(self)@ == (AppModel {
                completion: Some(
                    CompletionModel {
                        all: item_views(items@),
                        filtered: item_views(items@),
                        selected: 0,
                        word_start: crate::model::word_start(
                            old(self)@.editors[idx as int].cur_line(),
                            old(self)@.editors[idx as int].cursor.col as int,
                        ),
                        trigger_line: old(self)@.editors[idx as int].cursor.line as int,
                    },
                ),
                pending_completion_id: None,
                status: seq![],
                ..old(self)@
            }).update_completion_filter(idx as int),
            final(self)@.inv(),
    {
        if items.len() == 0 {
            return ;
        }
        proof {
            assert(self@.editors[idx as int].inv());
        }
        let word_start = self.editors[idx].word_start_col();
        let trigger_line = self.editors[idx].cursor.line;
        self.completion = Some(CompletionState::new(items, word_start, trigger_line));
        self.pending_completion_id = None;
        self.status_msg = String::new();
        proof {
            assert(self@ =~= (AppModel {
                completion: Some(
                    CompletionModel {
                        all: item_views(items@),
                        filtered: item_views(items@),
                        selected: 0,
                        word_start: word_start as int,
                        trigger_line: trigger_line as int,
                    },
                ),
                pending_completion_id: None,
                status: seq![],
                ..old(self)@
            }));
        }
        self.update_completion_filter(idx);
    }
}

} // verus!
