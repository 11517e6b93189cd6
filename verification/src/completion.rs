//! The completion popup: the items a language server offered, the ones that
//! still match what has been typed, and which one is selected.
use vstd::prelude::*;
use crate::editor::Pos;
use crate::lsp::{CompletionItem, item_views};
use crate::text::{char_count, substring};
use crate::words::{lowercase, to_lowercase, starts_with};

verus! {

/// An open completion popup.
pub struct CompletionState {
    pub all_items: Vec<CompletionItem>,
    /// Items filtered by current word prefix — this is what the popup shows.
    pub filtered: Vec<CompletionItem>,
    pub selected: usize,
    pub word_start: usize,
    pub trigger_line: usize,
}

/// A copy of `item`.
pub fn copy_item(item: &CompletionItem) -> (r: CompletionItem)
    ensures
        r.label@ == item.label@,
        r.insert_text@ == item.insert_text@,
{
    CompletionItem { label: item.label.clone(), insert_text: item.insert_text.clone() }
}

/// A copy of `items`.
pub fn copy_items(items: &Vec<CompletionItem>) -> (r: Vec<CompletionItem>)
    ensures
        item_views(r@) == item_views(items@),
{
    let mut r: Vec<CompletionItem> = Vec::new();
    let mut i: usize = 0;
    while i < items.len()
        invariant
            i <= items.len(),
            item_views(r@) == item_views(items@).take(i as int),
        decreases items.len() - i,
    {
        let ghost prev = r@;
        r.push(copy_item(&items[i]));
        proof {
            assert(item_views(r@) =~= item_views(prev).push(
                (items@[i as int].label@, items@[i as int].insert_text@),
            ));
            assert(item_views(items@).take(i + 1) =~= item_views(items@).take(i as int).push(
                item_views(items@)[i as int],
            ));
        }
        i = i + 1;
    }
    proof {
        assert(item_views(items@).take(items@.len() as int) =~= item_views(items@));
    }
    r
}

/// An item is shown for `prefix` when the prefix is empty or begins its
/// label, both lower-cased.
pub open spec fn shown_for(prefix: Seq<char>, label: Seq<char>) -> bool {
    prefix.len() == 0 || (prefix.len() <= lowercase(label).len() && lowercase(label).take(
        prefix.len() as int,
    ) == prefix)
}

/// The items among the first `n` that are shown for `prefix`, in order.
pub open spec fn shown_upto(items: Seq<(Seq<char>, Seq<char>)>, prefix: Seq<char>, n: int) -> Seq<
    (Seq<char>, Seq<char>),
>
    decreases n,
{
    if n <= 0 {
        seq![]
    } else {
        let r = shown_upto(items, prefix, n - 1);
        if shown_for(prefix, items[n - 1].0) {
            r.push(items[n - 1])
        } else {
            r
        }
    }
}

/// At most the first twenty of `s`.
pub open spec fn at_most_20<A>(s: Seq<A>) -> Seq<A> {
    if s.len() <= 20 {
        s
    } else {
        s.take(20)
    }
}

/// What the popup shows for `prefix`: the first twenty items shown for it.
pub open spec fn shown(items: Seq<(Seq<char>, Seq<char>)>, prefix: Seq<char>) -> Seq<
    (Seq<char>, Seq<char>),
> {
    at_most_20(shown_upto(items, prefix, items.len() as int))
}

/// The typed prefix that filters the popup: the cursor's line from the
/// word's start to the cursor, lower-cased (both ends taken within the line).
pub open spec fn typed_prefix(line: Seq<char>, word_start: int, col: int) -> Seq<char> {
    let start = if word_start < line.len() {
        word_start
    } else {
        line.len() as int
    };
    let end = if col < line.len() {
        col
    } else {
        line.len() as int
    };
    lowercase(line.subrange(start, end))
}

/// The popup after the cursor moved to `cursor` on a line reading `line`:
/// gone when the cursor left the word's line or went before the word;
/// otherwise the items shown for the typed prefix, gone when none is.
pub open spec fn refiltered(
    all: Seq<(Seq<char>, Seq<char>)>,
    selected: int,
    word_start: int,
    trigger_line: int,
    line: Seq<char>,
    cursor: Pos,
) -> Option<(Seq<(Seq<char>, Seq<char>)>, int)> {
    if cursor.line != trigger_line || cursor.col < word_start {
        None
    } else {
        let f = shown(all, typed_prefix(line, word_start, cursor.col as int));
        if f.len() == 0 {
            None
        } else {
            Some((f, if selected < f.len() - 1 { selected } else { f.len() - 1 }))
        }
    }
}

impl CompletionState {
    /// A popup that shows all of `items`, the first selected.
    pub fn new(items: Vec<CompletionItem>, word_start: usize, trigger_line: usize) -> (s:
        CompletionState)
        ensures
            item_views(s.all_items@) == item_views(items@),
            item_views(s.filtered@) == item_views(items@),
            s.selected == 0,
            s.word_start == word_start,
            s.trigger_line == trigger_line,
    {
        let filtered = copy_items(&items);
        CompletionState { all_items: items, filtered, selected: 0, word_start, trigger_line }
    }

    /// Recompute filtered list based on the word prefix at current cursor position.
    /// Dismisses completion (returns `None`) if cursor moved off the trigger
    /// line or before `word_start`, or if nothing matches.
    pub fn refilter(self, line: &str, cursor: Pos) -> (r: Option<CompletionState>)
        requires
            cursor.col <= line@.len(),
        ensures
            match r {
                Some(s) => refiltered(
                    item_views(self.all_items@),
                    self.selected as int,
                    self.word_start as int,
                    self.trigger_line as int,
                    line@,
                    cursor,
                ) == Some((item_views(s.filtered@), s.selected as int)) && item_views(
                    s.all_items@,
                ) == item_views(self.all_items@) && s.word_start == self.word_start
                    && s.trigger_line == self.trigger_line,
                None => refiltered(
                    item_views(self.all_items@),
                    self.selected as int,
                    self.word_start as int,
                    self.trigger_line as int,
                    line@,
                    cursor,
                ) is None,
            },
    {
        if cursor.line != self.trigger_line || cursor.col < self.word_start {
            return None;
        }
        let len = char_count(line);
        let start = if self.word_start < len {
            self.word_start
        } else {
            len
        };
        let end = if cursor.col < len {
            cursor.col
        } else {
            len
        };
        let prefix = to_lowercase(substring(line, start, end).as_str());
        let ghost all = item_views(self.all_items@);
        let mut out: Vec<CompletionItem> = Vec::new();
        let mut i: usize = 0;
        let pl = char_count(prefix.as_str());
        while i < self.all_items.len()
            invariant
                all == item_views(self.all_items@),
                i <= self.all_items.len(),
                pl == prefix@.len(),
                item_views(out@) == at_most_20(shown_upto(all, prefix@, i as int)),
            decreases self.all_items.len() - i,
        {
            let item = &self.all_items[i];
            let show = pl == 0 || starts_with(
                to_lowercase(item.label.as_str()).as_str(),
                prefix.as_str(),
            );
            let ghost prev = out@;
            if show && out.len() < 20 {
                out.push(copy_item(item));
                proof {
                    assert(item_views(out@) =~= item_views(prev).push(all[i as int]));
                }
            }
            proof {
                let r = shown_upto(all, prefix@, i as int);
                assert(show == shown_for(prefix@, all[i as int].0));
                if show {
                    assert(shown_upto(all, prefix@, i + 1) == r.push(all[i as int]));
                    if r.len() < 20 {
                        assert(at_most_20(r.push(all[i as int])) =~= at_most_20(r).push(
                            all[i as int],
                        ));
                    } else {
                        assert(at_most_20(r.push(all[i as int])) =~= at_most_20(r));
                    }
                }
            }
            i = i + 1;
        }
        if out.len() == 0 {
            return None;
        }
        let sel = if self.selected < out.len() - 1 {
            self.selected
        } else {
            out.len() - 1
        };
        Some(
            CompletionState {
                all_items: self.all_items,
                filtered: out,
                selected: sel,
                word_start: self.word_start,
                trigger_line: self.trigger_line,
            },
        )
    }

    /// Selects the next item, wrapping around.
    pub fn select_next(&mut self)
        ensures
            final(self).selected as int == if old(self).filtered@.len() > 0 {
                (old(self).selected + 1) % (old(self).filtered@.len() as int)
            } else {
                old(self).selected as int
            },
            final(self).filtered == old(self).filtered,
            final(self).all_items == old(self).all_items,
            final(self).word_start == old(self).word_start,
            final(self).trigger_line == old(self).trigger_line,
    {
        let n = self.filtered.len();
        if n > 0 {
            self.selected = ((self.selected as u128 + 1) % (n as u128)) as usize;
        }
    }

    /// Selects the previous item, wrapping around.
    pub fn select_prev(&mut self)
        ensures
            final(self).selected as int == if old(self).filtered@.len() > 0 {
                if old(self).selected == 0 {
                    old(self).filtered@.len() - 1
                } else {
                    old(self).selected - 1
                }
            } else {
                old(self).selected as int
            },
            final(self).filtered == old(self).filtered,
            final(self).all_items == old(self).all_items,
            final(self).word_start == old(self).word_start,
            final(self).trigger_line == old(self).trigger_line,
    {
        let n = self.filtered.len();
        if n > 0 {
            self.selected = if self.selected == 0 {
                n - 1
            } else {
                self.selected - 1
            };
        }
    }

    /// The item to insert: the selected one, or the last when the selection
    /// is past the end; none when the popup is empty.
    pub fn chosen(&self) -> (r: Option<&CompletionItem>)
        ensures
            self.filtered@.len() == 0 ==> r is None,
            self.filtered@.len() > 0 ==> r == Some(
                &self.filtered@[if self.selected < self.filtered@.len() - 1 {
                    self.selected as int
                } else {
                    self.filtered@.len() - 1
                }],
            ),
    {
        let n = self.filtered.len();
        let sel = if self.selected < n.saturating_sub(1) {
            self.selected
        } else {
            n.saturating_sub(1)
        };
        if sel < n {
            Some(&self.filtered[sel])
        } else {
            None
        }
    }
}

} // verus!
