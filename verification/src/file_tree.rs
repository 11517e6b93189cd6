//! The file tree shown beside the editor: the rows it lists, which one is
//! selected, and which directories are expanded.
//!
//! The tree is built from directory listings (what a directory holds, in
//! any order), so that reading the disk stays outside the library.
use vstd::prelude::*;
use crate::lsp::same_str;
use crate::text::{char_at, char_count};
use crate::words::{seq_lt, str_less};

verus! {

/// A row of the tree.
#[derive(Debug, Clone)]
pub struct TreeEntry {
    pub path: String,
    pub name: String,
    pub depth: usize,
    pub is_dir: bool,
    pub is_expanded: bool,
}

/// One thing a directory holds.
pub struct DirChild {
    pub path: String,
    pub name: String,
    pub is_dir: bool,
}

/// What a directory holds, in any order.
pub struct DirListing {
    pub dir: String,
    pub children: Vec<DirChild>,
}

pub struct FileTree {
    pub root: String,
    pub entries: Vec<TreeEntry>,
    pub selected: usize,
    pub scroll: usize,
}

/// A tree row, as values.
pub struct EntryModel {
    pub path: Seq<char>,
    pub name: Seq<char>,
    pub depth: int,
    pub is_dir: bool,
    pub is_expanded: bool,
}

/// A directory's child, as values.
pub struct ChildModel {
    pub path: Seq<char>,
    pub name: Seq<char>,
    pub is_dir: bool,
}

pub open spec fn entry_view(e: TreeEntry) -> EntryModel {
    EntryModel {
        path: e.path@,
        name: e.name@,
        depth: e.depth as int,
        is_dir: e.is_dir,
        is_expanded: e.is_expanded,
    }
}

pub open spec fn entry_views(v: Seq<TreeEntry>) -> Seq<EntryModel> {
    v.map_values(|e: TreeEntry| entry_view(e))
}

pub open spec fn child_view(c: DirChild) -> ChildModel {
    ChildModel { path: c.path@, name: c.name@, is_dir: c.is_dir }
}

pub open spec fn child_views(v: Seq<DirChild>) -> Seq<ChildModel> {
    v.map_values(|c: DirChild| child_view(c))
}

pub open spec fn listing_views(v: Seq<DirListing>) -> Seq<(Seq<char>, Seq<ChildModel>)> {
    v.map_values(|l: DirListing| (l.dir@, child_views(l.children@)))
}

// ── Order and visibility ──────────────────────────────────────────────────────

/// `a` is listed before `b`: directories first, then by name.
pub open spec fn listed_before(a: ChildModel, b: ChildModel) -> bool {
    (a.is_dir && !b.is_dir) || (a.is_dir == b.is_dir && seq_lt(a.name, b.name))
}

/// `x` placed into the ordered `s` after everything not listed after it.
pub open spec fn place(s: Seq<ChildModel>, x: ChildModel) -> Seq<ChildModel>
    decreases s.len(),
{
    if s.len() == 0 {
        seq![x]
    } else if listed_before(x, s[0]) {
        seq![x] + s
    } else {
        seq![s[0]] + place(s.drop_first(), x)
    }
}

/// The children in listing order; children that compare equal keep their order.
pub open spec fn ordered_children(cs: Seq<ChildModel>) -> Seq<ChildModel>
    decreases cs.len(),
{
    if cs.len() == 0 {
        seq![]
    } else {
        place(ordered_children(cs.drop_last()), cs.last())
    }
}

/// Names starting with a dot are hidden below the top level.
pub open spec fn hidden(c: ChildModel, depth: int) -> bool {
    c.name.len() > 0 && c.name[0] == '.' && depth > 0
}

/// The children of `dir` in the listings (the first listing of it), or none.
pub open spec fn listed(ls: Seq<(Seq<char>, Seq<ChildModel>)>, dir: Seq<char>) -> Seq<ChildModel>
    decreases ls.len(),
{
    if ls.len() == 0 {
        seq![]
    } else if ls[0].0 == dir {
        ls[0].1
    } else {
        listed(ls.drop_first(), dir)
    }
}

// ── The rows ──────────────────────────────────────────────────────────────────

/// The rows for directory `dir` at `depth`: its visible children in order,
/// each expanded directory among `expanded` followed by its own rows.
/// At most `fuel` levels are opened, so rows stay finite whatever the
/// listings say.
pub open spec fn dir_rows(
    ls: Seq<(Seq<char>, Seq<ChildModel>)>,
    dir: Seq<char>,
    depth: int,
    expanded: Seq<Seq<char>>,
    fuel: nat,
) -> Seq<EntryModel>
    decreases fuel, 1int, 0int,
{
    let kids = ordered_children(listed(ls, dir));
    kids_rows(ls, kids, depth, expanded, fuel, kids.len() as int)
}

/// The rows for the first `n` of `kids`.
pub open spec fn kids_rows(
    ls: Seq<(Seq<char>, Seq<ChildModel>)>,
    kids: Seq<ChildModel>,
    depth: int,
    expanded: Seq<Seq<char>>,
    fuel: nat,
    n: int,
) -> Seq<EntryModel>
    decreases fuel, 0int, n,
{
    if n <= 0 {
        seq![]
    } else {
        let prev = kids_rows(ls, kids, depth, expanded, fuel, n - 1);
        let c = kids[n - 1];
        if hidden(c, depth) {
            prev
        } else {
            let open = c.is_dir && expanded.contains(c.path);
            let e = EntryModel {
                path: c.path,
                name: c.name,
                depth,
                is_dir: c.is_dir,
                is_expanded: open,
            };
            if open && fuel > 0 {
                prev.push(e) + dir_rows(ls, c.path, depth + 1, expanded, (fuel - 1) as nat)
            } else {
                prev.push(e)
            }
        }
    }
}

/// The paths of the expanded directories among `es`, in order.
pub open spec fn expanded_paths(es: Seq<EntryModel>) -> Seq<Seq<char>>
    decreases es.len(),
{
    if es.len() == 0 {
        seq![]
    } else {
        let r = expanded_paths(es.drop_last());
        if es.last().is_dir && es.last().is_expanded {
            r.push(es.last().path)
        } else {
            r
        }
    }
}

/// The rows of the tree rooted at `root` with the directories `expanded` open.
pub open spec fn tree_rows(
    ls: Seq<(Seq<char>, Seq<ChildModel>)>,
    root: Seq<char>,
    expanded: Seq<Seq<char>>,
) -> Seq<EntryModel> {
    dir_rows(ls, root, 0, expanded, expanded.len())
}

// ── Building the rows ─────────────────────────────────────────────────────────

/// Whether `x` is listed before `y`.
fn is_listed_before(x: &DirChild, y: &DirChild) -> (r: bool)
    ensures
        r == listed_before(child_view(*x), child_view(*y)),
{
    (x.is_dir && !y.is_dir) || (x.is_dir == y.is_dir && str_less(x.name.as_str(), y.name.as_str()))
}

/// Placing before the first child that `x` is listed before.
proof fn lemma_place_at(s: Seq<ChildModel>, x: ChildModel, p: int)
    requires
        0 <= p <= s.len(),
        forall|j: int| 0 <= j < p ==> !listed_before(x, #[trigger] s[j]),
        p < s.len() ==> listed_before(x, s[p]),
    ensures
        place(s, x) == s.insert(p, x),
    decreases s.len(),
{
    if s.len() == 0 {
        assert(s.insert(p, x) =~= seq![x]);
    } else if p == 0 {
        assert(s.insert(0, x) =~= seq![x] + s);
    } else {
        assert forall|j: int| 0 <= j < p - 1 implies !listed_before(x, #[trigger] s.drop_first()[j]) by {
            assert(s.drop_first()[j] == s[j + 1]);
        }
        lemma_place_at(s.drop_first(), x, p - 1);
        assert(s.insert(p, x) =~= seq![s[0]] + s.drop_first().insert(p - 1, x));
    }
}

/// A copy of `c`.
fn copy_child(c: &DirChild) -> (r: DirChild)
    ensures
        child_view(r) == child_view(*c),
{
    DirChild { path: c.path.clone(), name: c.name.clone(), is_dir: c.is_dir }
}

/// The children in listing order.
fn sort_children(cs: &Vec<DirChild>) -> (r: Vec<DirChild>)
    ensures
        child_views(r@) == ordered_children(child_views(cs@)),
{
    let mut out: Vec<DirChild> = Vec::new();
    let mut k: usize = 0;
    proof {
        assert(child_views(cs@).take(0) =~= Seq::<ChildModel>::empty());
        assert(child_views(out@) =~= ordered_children(child_views(cs@).take(0)));
    }
    while k < cs.len()
        invariant
            k <= cs.len(),
            child_views(out@) == ordered_children(child_views(cs@).take(k as int)),
        decreases cs.len() - k,
    {
        let x = &cs[k];
        let ghost o = child_views(out@);
        let mut p: usize = 0;
        while p < out.len() && !is_listed_before(x, &out[p])
            invariant
                o == child_views(out@),
                p <= out.len(),
                forall|j: int| 0 <= j < p ==> !listed_before(child_view(*x), #[trigger] o[j]),
            decreases out.len() - p,
        {
            p = p + 1;
        }
        proof {
            lemma_place_at(o, child_view(*x), p as int);
            let ck = child_views(cs@).take(k + 1);
            assert(ck.drop_last() =~= child_views(cs@).take(k as int));
            assert(ck.last() == child_view(*x));
        }
        out.insert(p, copy_child(x));
        proof {
            assert(child_views(out@) =~= o.insert(p as int, child_view(*x)));
        }
        k = k + 1;
    }
    proof {
        assert(child_views(cs@).take(cs@.len() as int) =~= child_views(cs@));
    }
    out
}

/// The children of `dir` in the listings.
fn find_listing<'a>(listings: &'a Vec<DirListing>, dir: &str) -> (r: Option<&'a Vec<DirChild>>)
    ensures
        match r {
            Some(cs) => child_views(cs@) == listed(listing_views(listings@), dir@),
            None => listed(listing_views(listings@), dir@) == Seq::<ChildModel>::empty(),
        },
{
    let ghost lv = listing_views(listings@);
    let mut i: usize = 0;
    proof {
        assert(lv.skip(0) =~= lv);
    }
    while i < listings.len()
        invariant
            lv == listing_views(listings@),
            i <= listings.len(),
            listed(lv, dir@) == listed(lv.skip(i as int), dir@),
        decreases listings.len() - i,
    {
        proof {
            assert(lv.skip(i as int).drop_first() =~= lv.skip(i + 1));
            assert(lv.skip(i as int)[0] == lv[i as int]);
        }
        if same_str(listings[i].dir.as_str(), dir) {
            return Some(&listings[i].children);
        }
        i = i + 1;
    }
    proof {
        assert(lv.skip(i as int) =~= Seq::<(Seq<char>, Seq<ChildModel>)>::empty());
    }
    None
}

/// Whether `paths` holds `p`.
fn contains_path(paths: &Vec<String>, p: &str) -> (r: bool)
    ensures
        r == paths@.map_values(|s: String| s@).contains(p@),
{
    let ghost pv = paths@.map_values(|s: String| s@);
    let mut i: usize = 0;
    while i < paths.len()
        invariant
            pv == paths@.map_values(|s: String| s@),
            i <= paths.len(),
            forall|j: int| 0 <= j < i ==> pv[j] != p@,
        decreases paths.len() - i,
    {
        if same_str(paths[i].as_str(), p) {
            proof {
                assert(pv[i as int] == p@);
            }
            return true;
        }
        i = i + 1;
    }
    false
}

/// Whether a child's name starts with a dot.
fn is_dot_name(name: &str) -> (r: bool)
    ensures
        r == (name@.len() > 0 && name@[0] == '.'),
{
    char_count(name) > 0 && char_at(name, 0) == '.'
}

/// Appends the rows for directory `dir` at `depth`.
fn collect_dir_rows(
    listings: &Vec<DirListing>,
    dir: &str,
    depth: usize,
    expanded: &Vec<String>,
    fuel: usize,
    out: &mut Vec<TreeEntry>,
)
    requires
        depth + fuel <= usize::MAX,
    ensures
        entry_views(final(out)@) == entry_views(old(out)@) + dir_rows(
            listing_views(listings@),
            dir@,
            depth as int,
            expanded@.map_values(|s: String| s@),
            fuel as nat,
        ),
    decreases fuel, 1int,
{
    let ghost ls = listing_views(listings@);
    let ghost exp = expanded@.map_values(|s: String| s@);
    let ghost start = entry_views(out@);
    let kids = match find_listing(listings, dir) {
        Some(cs) => sort_children(cs),
        None => {
            proof {
                assert(ordered_children(Seq::<ChildModel>::empty()) =~= Seq::<ChildModel>::empty());
            }
            Vec::new()
        },
    };
    let ghost kv = child_views(kids@);
    proof {
        assert(kv == ordered_children(listed(ls, dir@)));
    }
    let mut k: usize = 0;
    proof {
        assert(start + kids_rows(ls, kv, depth as int, exp, fuel as nat, 0) =~= start);
    }
    while k < kids.len()
        invariant
            ls == listing_views(listings@),
            exp == expanded@.map_values(|s: String| s@),
            kv == child_views(kids@),
            kv == ordered_children(listed(ls, dir@)),
            depth + fuel <= usize::MAX,
            k <= kids.len(),
            entry_views(out@) == start + kids_rows(ls, kv, depth as int, exp, fuel as nat, k as int),
        decreases kids.len() - k,
    {
        let c = &kids[k];
        let ghost before = entry_views(out@);
        proof {
            assert(kv[k as int] == child_view(*c));
        }
        let hide = is_dot_name(c.name.as_str()) && depth > 0;
        if !hide {
            let open = c.is_dir && contains_path(expanded, c.path.as_str());
            let ghost prev = out@;
            out.push(
                TreeEntry {
                    path: c.path.clone(),
                    name: c.name.clone(),
                    depth,
                    is_dir: c.is_dir,
                    is_expanded: open,
                },
            );
            proof {
                assert(entry_views(out@) =~= entry_views(prev).push(
                    EntryModel {
                        path: c.path@,
                        name: c.name@,
                        depth: depth as int,
                        is_dir: c.is_dir,
                        is_expanded: open,
                    },
                ));
            }
            if open && fuel > 0 {
                collect_dir_rows(listings, c.path.as_str(), depth + 1, expanded, fuel - 1, out);
            }
        }
        k = k + 1;
    }
}

impl FileTree {
    /// The tree for `root`, whose listing is among `listings`, with no
    /// directory expanded; the first row is selected.
    pub fn new(root: String, listings: &Vec<DirListing>) -> (tree: FileTree)
        ensures
            tree.root@ == root@,
            entry_views(tree.entries@) == tree_rows(
                listing_views(listings@),
                root@,
                Seq::<Seq<char>>::empty(),
            ),
            tree.selected == 0,
            tree.scroll == 0,
    {
        let mut tree = FileTree { root, entries: Vec::new(), selected: 0, scroll: 0 };
        tree.rebuild(listings);
        tree
    }

    /// The entry under the selection, if any.
    pub fn selected_entry(&self) -> (r: Option<&TreeEntry>)
        ensures
            self.selected < self.entries@.len() ==> r == Some(&self.entries@[self.selected as int]),
            self.selected >= self.entries@.len() ==> r is None,
    {
        if self.selected < self.entries.len() {
            Some(&self.entries[self.selected])
        } else {
            None
        }
    }

    pub fn move_up(&mut self)
        ensures
            final(self).selected == if old(self).selected > 0 {
                (old(self).selected - 1) as usize
            } else {
                0
            },
            final(self).entries == old(self).entries,
            final(self).root == old(self).root,
            final(self).scroll == old(self).scroll,
    {
        if self.selected > 0 {
            self.selected -= 1;
        }
    }

    pub fn move_down(&mut self)
        ensures
            final(self).selected as int == if old(self).selected + 1 < old(self).entries@.len() {
                old(self).selected + 1
            } else {
                old(self).selected as int
            },
            final(self).entries == old(self).entries,
            final(self).root == old(self).root,
            final(self).scroll == old(self).scroll,
    {
        if self.selected < self.entries.len() && self.selected + 1 < self.entries.len() {
            self.selected += 1;
        }
    }

    /// The directories whose listings the tree needs before `activate`: the
    /// root, every expanded directory, and the selected one if it is a directory.
    pub fn wanted_listings(&self) -> (r: Vec<String>)
        ensures
            r@.map_values(|s: String| s@) == seq![self.root@] + expanded_paths(
                entry_views(self.entries@),
            ) + if self.selected < self.entries@.len() && self.entries@[self.selected as int].is_dir {
                seq![self.entries@[self.selected as int].path@]
            } else {
                Seq::<Seq<char>>::empty()
            },
    {
        self.wanted_listings_at(self.selected)
    }

    /// The directories whose listings the tree needs before `click_row(y)`:
    /// the root, every expanded directory, and the clicked row's if it is a
    /// directory.
    pub fn wanted_listings_for_click(&self, y: usize) -> (r: Vec<String>)
        requires
            self.scroll + y <= usize::MAX,
        ensures
            r@.map_values(|s: String| s@) == seq![self.root@] + expanded_paths(
                entry_views(self.entries@),
            ) + if self.scroll + y < self.entries@.len() && self.entries@[self.scroll + y].is_dir {
                seq![self.entries@[self.scroll + y].path@]
            } else {
                Seq::<Seq<char>>::empty()
            },
    {
        self.wanted_listings_at(self.scroll + y)
    }

    /// The root, every expanded directory, and row `row` if it is a directory.
    fn wanted_listings_at(&self, row: usize) -> (r: Vec<String>)
        ensures
            r@.map_values(|s: String| s@) == seq![self.root@] + expanded_paths(
                entry_views(self.entries@),
            ) + if row < self.entries@.len() && self.entries@[row as int].is_dir {
                seq![self.entries@[row as int].path@]
            } else {
                Seq::<Seq<char>>::empty()
            },
    {
        let mut r: Vec<String> = Vec::new();
        r.push(self.root.clone());
        let exp = self.expanded();
        let mut i: usize = 0;
        proof {
            assert(r@.map_values(|s: String| s@) =~= seq![self.root@]);
            assert(exp@.map_values(|s: String| s@).take(0) =~= Seq::<Seq<char>>::empty());
        }
        while i < exp.len()
            invariant
                i <= exp.len(),
                r@.map_values(|s: String| s@) == seq![self.root@] + exp@.map_values(
                    |s: String| s@,
                ).take(i as int),
            decreases exp.len() - i,
        {
            let ghost prev = r@;
            r.push(exp[i].clone());
            proof {
                let ev = exp@.map_values(|s: String| s@);
                assert(ev.take(i + 1) =~= ev.take(i as int).push(ev[i as int]));
                assert(r@.map_values(|s: String| s@) =~= prev.map_values(|s: String| s@).push(
                    ev[i as int],
                ));
            }
            i = i + 1;
        }
        proof {
            let ev = exp@.map_values(|s: String| s@);
            assert(ev.take(ev.len() as int) =~= ev);
        }
        if row < self.entries.len() && self.entries[row].is_dir {
            let ghost prev = r@;
            r.push(self.entries[row].path.clone());
            proof {
                assert(r@.map_values(|s: String| s@) =~= prev.map_values(|s: String| s@).push(
                    self.entries@[row as int].path@,
                ));
            }
        } else {
            proof {
                assert(r@.map_values(|s: String| s@) =~= r@.map_values(|s: String| s@)
                    + Seq::<Seq<char>>::empty());
            }
        }
        r
    }

    /// Enter on the selected row: a directory is expanded or collapsed and
    /// the rows rebuilt from `listings`; a file's path is returned.
    pub fn activate(&mut self, listings: &Vec<DirListing>) -> (r: Option<String>)
        ensures
            old(self).selected >= old(self).entries@.len() ==> r is None && final(self).entries
                == old(self).entries,
            old(self).selected < old(self).entries@.len() && !old(self).entries@[old(
                self,
            ).selected as int].is_dir ==> r is Some && r->0@ == old(self).entries@[old(
                self,
            ).selected as int].path@ && final(self).entries == old(self).entries,
            old(self).selected < old(self).entries@.len() && old(self).entries@[old(
                self,
            ).selected as int].is_dir ==> r is None && entry_views(final(self).entries@)
                == tree_rows(
                listing_views(listings@),
                old(self).root@,
                expanded_paths(
                    entry_views(old(self).entries@).update(
                        old(self).selected as int,
                        toggled(entry_views(old(self).entries@)[old(self).selected as int]),
                    ),
                ),
            ),
            final(self).selected == old(self).selected,
            final(self).scroll == old(self).scroll,
            final(self).root == old(self).root,
    {
        if self.selected >= self.entries.len() {
            return None;
        }
        let is_dir = self.entries[self.selected].is_dir;
        if is_dir {
            let sel = self.selected;
            let mut entry = self.entries[sel].clone_entry();
            entry.is_expanded = !entry.is_expanded;
            let ghost old_views = entry_views(self.entries@);
            self.entries.set(sel, entry);
            proof {
                assert(entry_views(self.entries@) =~= old_views.update(
                    sel as int,
                    toggled(old_views[sel as int]),
                ));
            }
            self.rebuild_keeping_state(listings);
            None
        } else {
            Some(self.entries[self.selected].path.clone())
        }
    }

    /// Click on a row (`y` is the position in the visible part of the tree).
    pub fn click_row(&mut self, y: usize, listings: &Vec<DirListing>) -> (r: Option<String>)
        requires
            old(self).scroll + y <= usize::MAX,
        ensures
            old(self).scroll + y >= old(self).entries@.len() ==> r is None && final(self).entries
                == old(self).entries && final(self).selected == old(self).selected,
            old(self).scroll + y < old(self).entries@.len() ==> final(self).selected == old(
                self,
            ).scroll + y,
            old(self).scroll + y < old(self).entries@.len() && !old(self).entries@[old(self).scroll
                + y].is_dir ==> r is Some && r->0@ == old(self).entries@[old(self).scroll
                + y].path@,
            old(self).scroll + y < old(self).entries@.len() && old(self).entries@[old(self).scroll
                + y].is_dir ==> r is None && entry_views(final(self).entries@) == tree_rows(
                listing_views(listings@),
                old(self).root@,
                expanded_paths(
                    entry_views(old(self).entries@).update(
                        old(self).scroll + y,
                        toggled(entry_views(old(self).entries@)[old(self).scroll + y]),
                    ),
                ),
            ),
    {
        let idx = self.scroll + y;
        if idx >= self.entries.len() {
            return None;
        }
        self.selected = idx;
        self.activate(listings)
    }

    pub fn scroll_to_selected(&mut self, view_height: usize)
        ensures
            final(self).selected == old(self).selected,
            final(self).entries == old(self).entries,
            view_height == 0 ==> final(self).scroll == old(self).scroll,
            view_height > 0 ==> final(self).scroll <= final(self).selected < final(self).scroll
                + view_height,
            view_height > 0 && old(self).scroll <= old(self).selected < old(self).scroll
                + view_height ==> final(self).scroll == old(self).scroll,
            view_height > 0 ==> final(self).scroll == if old(self).selected < old(self).scroll {
                old(self).selected as int
            } else if old(self).selected >= old(self).scroll + view_height {
                old(self).selected - (view_height - 1)
            } else {
                old(self).scroll as int
            },
            final(self).root == old(self).root,
    {
        if view_height == 0 {
            return ;
        }
        if self.selected < self.scroll {
            self.scroll = self.selected;
        }
        if self.selected - self.scroll >= view_height {
            self.scroll = self.selected.saturating_sub(view_height - 1);
        }
    }

    /// The rows of the tree with no directory expanded.
    fn rebuild(&mut self, listings: &Vec<DirListing>)
        ensures
            entry_views(final(self).entries@) == tree_rows(
                listing_views(listings@),
                old(self).root@,
                Seq::<Seq<char>>::empty(),
            ),
            final(self).root == old(self).root,
            final(self).selected == old(self).selected,
            final(self).scroll == old(self).scroll,
    {
        let none: Vec<String> = Vec::new();
        proof {
            assert(none@.map_values(|s: String| s@) =~= Seq::<Seq<char>>::empty());
        }
        let mut rows: Vec<TreeEntry> = Vec::new();
        collect_dir_rows(listings, self.root.as_str(), 0, &none, 0, &mut rows);
        proof {
            assert(entry_views(rows@) =~= tree_rows(
                listing_views(listings@),
                self.root@,
                Seq::<Seq<char>>::empty(),
            ));
        }
        self.entries = rows;
    }

    /// The paths of the expanded directories, in row order.
    fn expanded(&self) -> (r: Vec<String>)
        ensures
            r@.map_values(|s: String| s@) == expanded_paths(entry_views(self.entries@)),
    {
        let mut r: Vec<String> = Vec::new();
        let mut i: usize = 0;
        proof {
            assert(entry_views(self.entries@).take(0) =~= Seq::<EntryModel>::empty());
            assert(r@.map_values(|s: String| s@) =~= Seq::<Seq<char>>::empty());
        }
        while i < self.entries.len()
            invariant
                i <= self.entries.len(),
                r@.map_values(|s: String| s@) == expanded_paths(
                    entry_views(self.entries@).take(i as int),
                ),
            decreases self.entries.len() - i,
        {
            let e = &self.entries[i];
            proof {
                let ev = entry_views(self.entries@);
                assert(ev.take(i + 1).drop_last() =~= ev.take(i as int));
                assert(ev.take(i + 1).last() == entry_view(*e));
            }
            if e.is_dir && e.is_expanded {
                let ghost prev = r@;
                r.push(e.path.clone());
                proof {
                    assert(r@.map_values(|s: String| s@) =~= prev.map_values(|s: String| s@).push(
                        e.path@,
                    ));
                }
            }
            i = i + 1;
        }
        proof {
            let ev = entry_views(self.entries@);
            assert(ev.take(ev.len() as int) =~= ev);
        }
        r
    }

    /// Rebuild, keeping expanded directories expanded.
    pub fn rebuild_keeping_state(&mut self, listings: &Vec<DirListing>)
        ensures
            entry_views(final(self).entries@) == tree_rows(
                listing_views(listings@),
                old(self).root@,
                expanded_paths(entry_views(old(self).entries@)),
            ),
            final(self).root == old(self).root,
            final(self).selected == old(self).selected,
            final(self).scroll == old(self).scroll,
    {
        let expanded = self.expanded();
        let fuel = expanded.len();
        let mut rows: Vec<TreeEntry> = Vec::new();
        collect_dir_rows(listings, self.root.as_str(), 0, &expanded, fuel, &mut rows);
        proof {
            assert(entry_views(rows@) =~= tree_rows(
                listing_views(listings@),
                self.root@,
                expanded@.map_values(|s: String| s@),
            ));
        }
        self.entries = rows;
    }
}

/// A row with its expansion flipped.
pub open spec fn toggled(e: EntryModel) -> EntryModel {
    EntryModel { is_expanded: !e.is_expanded, ..e }
}

impl TreeEntry {
    /// A copy of the entry.
    pub fn clone_entry(&self) -> (r: TreeEntry)
        ensures
            entry_view(r) == entry_view(*self),
    {
        TreeEntry {
            path: self.path.clone(),
            name: self.name.clone(),
            depth: self.depth,
            is_dir: self.is_dir,
            is_expanded: self.is_expanded,
        }
    }
}

} // verus!
