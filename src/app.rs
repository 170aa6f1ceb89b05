use vstd::prelude::*;
use vstd::string::*;
use crate::compare::DirectoryComparison;
use crate::node::{FileNode, FileStatus, copy_path, path_view};
use crate::rows::{FilterMode, Row, flatten_tree_with_filter, rows, rows_show};
use crate::expansion::{
    all_dirs_set, expansion_at, expansion_set, find_expansion, restore_expansion_state_safe,
    restored, set_all_folders, set_expansion,
};

verus! {

/// What the screen shows.
#[derive(Clone, Copy, Debug, PartialEq, Eq, Structural)]
pub enum AppMode {
    DirectoryView,
    FileView,
    CopyConfirm,
}

/// A copy the user asked for and has still to confirm.
#[derive(Debug)]
pub struct CopyInfo {
    pub source_path: String,
    pub target_path: String,
    pub file_count: usize,
    pub folder_count: usize,
    pub total_bytes: u64,
    pub from_left_to_right: bool,
}

/// What a directory to be copied holds, counting the directory itself.
#[derive(Clone, Copy, Debug, PartialEq, Eq, Structural)]
pub struct DirStats {
    pub file_count: usize,
    pub folder_count: usize,
    pub total_bytes: u64,
}

/// The part of the screen where the toolbar is drawn.
#[derive(Clone, Copy, Debug, PartialEq, Eq, Structural)]
pub struct Area {
    pub x: u16,
    pub y: u16,
    pub width: u16,
    pub height: u16,
}

/// A key as the navigation logic sees it.
#[derive(Clone, Copy, Debug, PartialEq, Eq, Structural)]
pub enum Key {
    Char(char),
    Esc,
    Left,
    Right,
    Up,
    Down,
    PageUp,
    PageDown,
    Home,
    End,
    F(u8),
    Enter,
    Other,
}

/// A key event: the key, whether Control was held, and whether it was a press.
#[derive(Clone, Copy, Debug, PartialEq, Eq, Structural)]
pub struct KeyInput {
    pub key: Key,
    pub ctrl: bool,
    pub press: bool,
}

/// Outside work that an event asks for.
#[derive(Debug)]
pub enum Action {
    Nothing,
    /// Leave the program.
    Exit,
    /// Run a comparison of the two roots in the background, then hand the
    /// result to `on_refresh_complete` or `on_refresh_error`.
    StartRefresh,
    /// Measure the selected directory and hand the result to `prepare_copy`.
    PrepareCopy,
    /// Copy as described, then call `finish_copy`.
    ExecuteCopy(CopyInfo),
    /// Show the two files of a row side by side (or the one that exists).
    CompareFiles {
        status: FileStatus,
        left_path: String,
        right_path: String,
    },
}

/// What was in effect when a copy began, to be carried over the refresh
/// that follows it.
pub struct SavedState {
    pub left_selection: Option<usize>,
    pub right_selection: Option<usize>,
    pub active_panel: usize,
    pub filter_mode: FilterMode,
    pub left_tree: FileNode,
    pub right_tree: FileNode,
}

/// The state of the two-panel view.
pub struct App {
    pub comparison: DirectoryComparison,
    pub mode: AppMode,
    /// 0 for the left panel, 1 for the right one.
    pub active_panel: usize,
    pub left_selected: Option<usize>,
    pub right_selected: Option<usize>,
    pub left_items: Vec<Row>,
    pub right_items: Vec<Row>,
    pub file_diff: String,
    pub filter_mode: FilterMode,
    pub is_refreshing: bool,
    pub refresh_progress: String,
    pub viewport_height: u16,
    pub toolbar_area: Area,
    pub copy_info: Option<CopyInfo>,
    pub saved: Option<SavedState>,
}

/// `current` moved by `delta` and kept within `0..len`.
pub open spec fn clamp_move(current: int, delta: int, len: int) -> int {
    let t = current + delta;
    if t < 0 {
        0
    } else if t > len - 1 {
        len - 1
    } else {
        t
    }
}

/// `index` kept below `len`.
pub open spec fn clamp_to(index: int, len: int) -> int {
    if index < len {
        index
    } else {
        len - 1
    }
}

/// A saved selection carried into a list of `len` rows: kept when in range,
/// else the first row, else none.
pub open spec fn carried_selection(saved: usize, len: int) -> Option<usize> {
    if (saved as int) < len {
        Some(saved)
    } else if len > 0 {
        Some(0)
    } else {
        None
    }
}

impl App {
    pub open spec fn active_items(&self) -> Seq<Row> {
        if self.active_panel == 0 {
            self.left_items@
        } else {
            self.right_items@
        }
    }

    pub open spec fn other_items(&self) -> Seq<Row> {
        if self.active_panel == 0 {
            self.right_items@
        } else {
            self.left_items@
        }
    }

    pub open spec fn active_selected(&self) -> Option<usize> {
        if self.active_panel == 0 {
            self.left_selected
        } else {
            self.right_selected
        }
    }

    pub open spec fn other_selected(&self) -> Option<usize> {
        if self.active_panel == 0 {
            self.right_selected
        } else {
            self.left_selected
        }
    }

    /// The row lists show the two trees under the current filter.
    pub open spec fn lists_current(&self) -> bool {
        &&& rows_show(self.left_items@, rows(self.comparison.left_tree, 0, self.filter_mode))
        &&& rows_show(self.right_items@, rows(self.comparison.right_tree, 0, self.filter_mode))
    }

    /// `a` and `b` differ at most in their selections.
    pub open spec fn same_but_selection(a: &App, b: &App) -> bool {
        &&& a.comparison == b.comparison
        &&& a.mode == b.mode
        &&& a.active_panel == b.active_panel
        &&& a.left_items == b.left_items
        &&& a.right_items == b.right_items
        &&& a.file_diff == b.file_diff
        &&& a.filter_mode == b.filter_mode
        &&& a.is_refreshing == b.is_refreshing
        &&& a.refresh_progress == b.refresh_progress
        &&& a.viewport_height == b.viewport_height
        &&& a.toolbar_area == b.toolbar_area
        &&& a.copy_info == b.copy_info
        &&& a.saved == b.saved
    }

    /// A view of `comparison`, with the first row of the left panel selected.
    pub fn new(comparison: DirectoryComparison) -> (r: App)
        ensures
            r.comparison == comparison,
            r.mode == AppMode::DirectoryView,
            r.active_panel == 0,
            r.left_selected == Some(0usize),
            r.right_selected is None,
            r.filter_mode == FilterMode::All,
            !r.is_refreshing,
            r.copy_info is None,
            r.saved is None,
            r.lists_current(),
    {
        let left_items = flatten_tree_with_filter(&comparison.left_tree, 0, FilterMode::All);
        let right_items = flatten_tree_with_filter(&comparison.right_tree, 0, FilterMode::All);
        App {
            comparison,
            mode: AppMode::DirectoryView,
            active_panel: 0,
            left_selected: Some(0),
            right_selected: None,
            left_items,
            right_items,
            file_diff: String::new(),
            filter_mode: FilterMode::All,
            is_refreshing: false,
            refresh_progress: String::new(),
            viewport_height: 24,
            toolbar_area: Area { x: 0, y: 0, width: 0, height: 0 },
            copy_info: None,
            saved: None,
        }
    }

    /// Recomputes both row lists from the trees and the filter.
    pub fn update_file_lists(&mut self)
        ensures
            final(self).lists_current(),
            final(self).comparison == old(self).comparison,
            final(self).mode == old(self).mode,
            final(self).active_panel == old(self).active_panel,
            final(self).left_selected == old(self).left_selected,
            final(self).right_selected == old(self).right_selected,
            final(self).filter_mode == old(self).filter_mode,
            final(self).is_refreshing == old(self).is_refreshing,
            final(self).refresh_progress == old(self).refresh_progress,
            final(self).copy_info == old(self).copy_info,
            final(self).saved == old(self).saved,
            final(self).viewport_height == old(self).viewport_height,
            final(self).toolbar_area == old(self).toolbar_area,
            final(self).file_diff == old(self).file_diff,
    {
        self.left_items = flatten_tree_with_filter(&self.comparison.left_tree, 0, self.filter_mode);
        self.right_items = flatten_tree_with_filter(&self.comparison.right_tree, 0, self.filter_mode);
    }

    /// Half the rows that fit below the toolbar and borders, at least one.
    pub open spec fn half_page(viewport_height: u16) -> int {
        if viewport_height >= 7 {
            (viewport_height - 5) / 2
        } else {
            1
        }
    }

    pub fn calculate_half_page(&self) -> (r: i32)
        ensures
            r == App::half_page(self.viewport_height),
    {
        let available: u16 = if self.viewport_height >= 5 { self.viewport_height - 5 } else { 0 };
        let half = (available / 2) as i32;
        if half > 1 { half } else { 1 }
    }

    /// The selected row of the active panel, if the selection is in range.
    pub fn get_selected_item(&self) -> (r: Option<&Row>)
        ensures
            match self.active_selected() {
                Some(i) => if (i as int) < self.active_items().len() {
                    r == Some(&self.active_items()[i as int])
                } else {
                    r is None
                },
                None => r is None,
            },
    {
        let (items, selected) = if self.active_panel == 0 {
            (&self.left_items, self.left_selected)
        } else {
            (&self.right_items, self.right_selected)
        };
        match selected {
            Some(i) => if i < items.len() {
                Some(&items[i])
            } else {
                None
            },
            None => None,
        }
    }

    /// Whether the selected row can be copied to the other side: a real
    /// entry that exists on the active side.
    pub fn can_copy(&self) -> (r: bool)
        ensures
            r == match self.active_selected() {
                Some(i) => (i as int) < self.active_items().len() && {
                    let row = self.active_items()[i as int];
                    &&& row.display@.len() > 0
                    &&& (row.status == FileStatus::LeftOnly ==> self.active_panel == 0)
                    &&& (row.status == FileStatus::RightOnly ==> self.active_panel == 1)
                },
                None => false,
            },
    {
        match self.get_selected_item() {
            Some(row) => {
                if row.display.as_str().is_empty() {
                    return false;
                }
                match row.status {
                    FileStatus::LeftOnly => self.active_panel == 0,
                    FileStatus::RightOnly => self.active_panel == 1,
                    _ => true,
                }
            },
            None => false,
        }
    }

    /// What moving the selection by `delta` rows does: see `move_selection`.
    pub open spec fn moved_by(a: &App, b: &App, delta: int) -> bool {
        &&& App::same_but_selection(b, a)
        &&& a.active_items().len() == 0 ==> b.left_selected == a.left_selected && b.right_selected
            == a.right_selected
        &&& a.active_items().len() > 0 ==> {
            let current = match a.active_selected() {
                Some(i) => i as int,
                None => 0,
            };
            let target = clamp_move(current, delta, a.active_items().len() as int);
            &&& b.active_selected() == Some(target as usize)
            &&& a.other_items().len() > 0 ==> b.other_selected() == Some(
                clamp_to(target, a.other_items().len() as int) as usize,
            )
            &&& a.other_items().len() == 0 ==> b.other_selected() == a.other_selected()
        }
    }

    /// Moves the active panel's selection by `delta` rows, kept within its
    /// rows, and puts the other panel's selection on the same index, kept
    /// within its own rows. Nothing changes when the active panel is empty.
    pub fn move_selection(&mut self, delta: i32)
        ensures
            App::moved_by(&*old(self), &*final(self), delta as int),
    {
        let (len, other_len, current) = if self.active_panel == 0 {
            (self.left_items.len(), self.right_items.len(), self.left_selected)
        } else {
            (self.right_items.len(), self.left_items.len(), self.right_selected)
        };
        if len == 0 {
            return;
        }
        let current: usize = match current {
            Some(i) => i,
            None => 0,
        };
        let last = len - 1;
        let target: usize = if delta > 0 {
            let d = delta as usize;
            if current >= last || d >= last - current {
                last
            } else {
                current + d
            }
        } else {
            let d = (0i64 - delta as i64) as usize;
            let t = if d >= current { 0 } else { current - d };
            if t > last { last } else { t }
        };
        let synced: Option<usize> = if other_len > 0 {
            Some(if target < other_len { target } else { other_len - 1 })
        } else {
            None
        };
        if self.active_panel == 0 {
            self.left_selected = Some(target);
            if synced.is_some() {
                self.right_selected = synced;
            }
        } else {
            self.right_selected = Some(target);
            if synced.is_some() {
                self.left_selected = synced;
            }
        }
    }

    /// What jumping to the first row does: see `scroll_to_top`.
    pub open spec fn jumped_to_top(a: &App, b: &App) -> bool {
        &&& App::same_but_selection(b, a)
        &&& a.active_items().len() == 0 ==> b.left_selected == a.left_selected && b.right_selected
            == a.right_selected
        &&& a.active_items().len() > 0 ==> {
            &&& b.active_selected() == Some(0usize)
            &&& a.other_items().len() > 0 ==> b.other_selected() == Some(0usize)
            &&& a.other_items().len() == 0 ==> b.other_selected() == a.other_selected()
        }
    }

    /// Selects the first row of both panels (of each that has rows), when
    /// the active panel has rows.
    pub fn scroll_to_top(&mut self)
        ensures
            App::jumped_to_top(&*old(self), &*final(self)),
    {
        let (len, other_len) = if self.active_panel == 0 {
            (self.left_items.len(), self.right_items.len())
        } else {
            (self.right_items.len(), self.left_items.len())
        };
        if len == 0 {
            return;
        }
        if self.active_panel == 0 {
            self.left_selected = Some(0);
            if other_len > 0 {
                self.right_selected = Some(0);
            }
        } else {
            self.right_selected = Some(0);
            if other_len > 0 {
                self.left_selected = Some(0);
            }
        }
    }

    /// What jumping to the last row does: see `scroll_to_bottom`.
    pub open spec fn jumped_to_bottom(a: &App, b: &App) -> bool {
        &&& App::same_but_selection(b, a)
        &&& a.active_items().len() == 0 ==> b.left_selected == a.left_selected && b.right_selected
            == a.right_selected
        &&& a.active_items().len() > 0 ==> {
            let last = a.active_items().len() - 1;
            &&& b.active_selected() == Some(last as usize)
            &&& a.other_items().len() > 0 ==> b.other_selected() == Some(
                clamp_to(last, a.other_items().len() as int) as usize,
            )
            &&& a.other_items().len() == 0 ==> b.other_selected() == a.other_selected()
        }
    }

    /// Selects the last row of the active panel, when it has rows, and puts
    /// the other panel's selection on the same index, kept within its rows.
    pub fn scroll_to_bottom(&mut self)
        ensures
            App::jumped_to_bottom(&*old(self), &*final(self)),
    {
        let (len, other_len) = if self.active_panel == 0 {
            (self.left_items.len(), self.right_items.len())
        } else {
            (self.right_items.len(), self.left_items.len())
        };
        if len == 0 {
            return;
        }
        let last = len - 1;
        let mirrored = if last < other_len { last } else if other_len > 0 { other_len - 1 } else { 0 };
        if self.active_panel == 0 {
            self.left_selected = Some(last);
            if other_len > 0 {
                self.right_selected = Some(mirrored);
            }
        } else {
            self.right_selected = Some(last);
            if other_len > 0 {
                self.left_selected = Some(mirrored);
            }
        }
    }

    /// What making `panel` the active one does: see `switch_panel`.
    pub open spec fn switched(a: &App, b: &App, panel: usize) -> bool {
        &&& b.active_panel == panel
        &&& b.comparison == a.comparison
        &&& b.left_items == a.left_items
        &&& b.right_items == a.right_items
        &&& b.filter_mode == a.filter_mode
        &&& b.mode == a.mode
        &&& b.copy_info == a.copy_info
        &&& b.saved == a.saved
        &&& b.is_refreshing == a.is_refreshing
        &&& ({
                let (from, to_sel, to_len) = if panel == 0 {
                    (a.right_selected, a.left_selected, a.left_items@.len())
                } else {
                    (a.left_selected, a.right_selected, a.right_items@.len())
                };
                let new_sel = if panel == 0 {
                    b.left_selected
                } else {
                    b.right_selected
                };
                let other_new = if panel == 0 {
                    b.right_selected
                } else {
                    b.left_selected
                };
                &&& other_new == from
                &&& new_sel == (if a.active_panel == 1 - panel && from is Some && to_len > 0 {
                    Some(clamp_to(from->0 as int, to_len as int) as usize)
                } else {
                    to_sel
                })
            })
    }

    /// Makes `panel` the active one. Coming from the other panel, its
    /// selection carries over by index, kept within the new panel's rows
    /// (when the new panel has none, its selection is left as it was).
    pub fn switch_panel(&mut self, panel: usize)
        requires
            panel < 2,
        ensures
            App::switched(&*old(self), &*final(self), panel),
    {
        if self.active_panel == 1 - panel {
            let (from, to_len) = if panel == 0 {
                (self.right_selected, self.left_items.len())
            } else {
                (self.left_selected, self.right_items.len())
            };
            if let Some(i) = from {
                if to_len > 0 {
                    let j = if i < to_len { i } else { to_len - 1 };
                    if panel == 0 {
                        self.left_selected = Some(j);
                    } else {
                        self.right_selected = Some(j);
                    }
                }
            }
        }
        self.active_panel = panel;
    }
}

/// `c` is a copy of `orig`: every node carries the same fields.
pub open spec fn copy_of(orig: FileNode, c: FileNode) -> bool
    decreases orig,
{
    &&& c.name == orig.name
    &&& c.path@ == orig.path@
    &&& c.is_dir == orig.is_dir
    &&& c.status == orig.status
    &&& c.expanded == orig.expanded
    &&& c.size == orig.size
    &&& c.modified == orig.modified
    &&& c.children@.len() == orig.children@.len()
    &&& forall|i: int|
        #![trigger c.children@[i]]
        0 <= i < orig.children@.len() ==> copy_of(orig.children@[i], c.children@[i])
}

/// A copy of the tree at `n`.
pub fn copy_tree(n: &FileNode) -> (r: FileNode)
    ensures
        copy_of(*n, r),
    decreases *n,
{
    let mut children: Vec<FileNode> = Vec::new();
    let mut i: usize = 0;
    while i < n.children.len()
        invariant
            i <= n.children@.len(),
            children@.len() == i,
            forall|j: int| #![trigger children@[j]] 0 <= j < i ==> copy_of(n.children@[j], children@[j]),
        decreases n.children@.len() - i,
    {
        assert(decreases_to!(*n => n.children@[i as int]));
        children.push(copy_tree(&n.children[i]));
        i = i + 1;
    }
    FileNode {
        name: n.name.clone(),
        path: copy_path(&n.path),
        is_dir: n.is_dir,
        status: n.status,
        children,
        expanded: n.expanded,
        size: n.size,
        modified: n.modified,
    }
}

/// `base` followed by the path component `c`, with a `/` between them
/// unless `base` is empty or already ends in one.
pub open spec fn append_component(base: Seq<char>, c: Seq<char>) -> Seq<char> {
    if base.len() == 0 || base.last() == '/' {
        base + c
    } else {
        base + seq!['/'] + c
    }
}

/// The relative path `rel` below the directory `dir`.
pub open spec fn joined(dir: Seq<char>, rel: Seq<Seq<char>>) -> Seq<char>
    decreases rel.len(),
{
    if rel.len() == 0 {
        dir
    } else {
        append_component(joined(dir, rel.drop_last()), rel.last())
    }
}

/// The relative path `rel` below the directory `dir`.
pub fn join_path(dir: &String, rel: &Vec<String>) -> (r: String)
    ensures
        r@ == joined(dir@, path_view(rel@)),
{
    let mut s = dir.clone();
    let mut i: usize = 0;
    proof {
        reveal_strlit("/");
    }
    while i < rel.len()
        invariant
            i <= rel@.len(),
            s@ == joined(dir@, path_view(rel@).take(i as int)),
            "/"@ == seq!['/'],
        decreases rel@.len() - i,
    {
        let n = s.as_str().unicode_len();
        let needs_sep = n > 0 && s.as_str().get_char(n - 1) != '/';
        if needs_sep {
            s.append("/");
        }
        s.append(rel[i].as_str());
        proof {
            let pv = path_view(rel@);
            assert(pv.take(i + 1).drop_last() =~= pv.take(i as int));
            assert(pv.take(i + 1).last() == rel@[i as int]@);
        }
        i = i + 1;
    }
    proof {
        assert(path_view(rel@).take(rel@.len() as int) =~= path_view(rel@));
    }
    s
}

impl App {
    /// Expands every directory of both trees.
    pub fn expand_all(&mut self)
        ensures
            all_dirs_set(old(self).comparison.left_tree, final(self).comparison.left_tree, true),
            all_dirs_set(old(self).comparison.right_tree, final(self).comparison.right_tree, true),
            final(self).comparison.left_dir == old(self).comparison.left_dir,
            final(self).comparison.right_dir == old(self).comparison.right_dir,
            final(self).lists_current(),
            final(self).left_selected == old(self).left_selected,
            final(self).right_selected == old(self).right_selected,
            final(self).active_panel == old(self).active_panel,
            final(self).filter_mode == old(self).filter_mode,
    {
        set_all_folders(&mut self.comparison.left_tree, true);
        set_all_folders(&mut self.comparison.right_tree, true);
        self.update_file_lists();
    }

    /// Collapses every directory of both trees but the roots, which stay
    /// expanded.
    pub fn collapse_all(&mut self)
        ensures
            exists|l: FileNode, r: FileNode|
                all_dirs_set(old(self).comparison.left_tree, l, false) && all_dirs_set(
                    old(self).comparison.right_tree,
                    r,
                    false,
                ) && final(self).comparison.left_tree == (FileNode { expanded: true, ..l })
                    && final(self).comparison.right_tree == (FileNode { expanded: true, ..r }),
            final(self).comparison.left_dir == old(self).comparison.left_dir,
            final(self).comparison.right_dir == old(self).comparison.right_dir,
            final(self).lists_current(),
            final(self).left_selected == old(self).left_selected,
            final(self).right_selected == old(self).right_selected,
            final(self).active_panel == old(self).active_panel,
            final(self).filter_mode == old(self).filter_mode,
    {
        set_all_folders(&mut self.comparison.left_tree, false);
        set_all_folders(&mut self.comparison.right_tree, false);
        let ghost l = self.comparison.left_tree;
        let ghost r = self.comparison.right_tree;
        self.comparison.left_tree.expanded = true;
        self.comparison.right_tree.expanded = true;
        self.update_file_lists();
        assert(self.comparison.left_tree == (FileNode { expanded: true, ..l }));
        assert(self.comparison.right_tree == (FileNode { expanded: true, ..r }));
    }

    /// What toggling the selected directory does: see `toggle_folder`.
    pub open spec fn folder_toggled(a: &App, b: &App) -> bool {
            ({
            let sel = a.active_selected();
            let tree = if a.active_panel == 0 {
                a.comparison.left_tree
            } else {
                a.comparison.right_tree
            };
            if sel is Some && (sel->0 as int) < a.active_items().len()
                && a.active_items()[sel->0 as int].is_dir
                && expansion_at(tree, path_view(a.active_items()[sel->0 as int].path@)) is Some {
                let p = path_view(a.active_items()[sel->0 as int].path@);
                let v = !expansion_at(tree, p)->0;
                &&& expansion_set(a.comparison.left_tree, b.comparison.left_tree, p, v)
                &&& expansion_set(a.comparison.right_tree, b.comparison.right_tree, p, v)
                &&& b.lists_current()
            } else {
                b.comparison == a.comparison
            }
        })
    }

    /// Every directory of both trees expanded: see `expand_all`.
    pub open spec fn all_expanded(a: &App, b: &App) -> bool {
        &&& all_dirs_set(a.comparison.left_tree, b.comparison.left_tree, true)
        &&& all_dirs_set(a.comparison.right_tree, b.comparison.right_tree, true)
        &&& b.lists_current()
    }

    /// Every directory of both trees collapsed but the roots: see
    /// `collapse_all`.
    pub open spec fn all_folded(a: &App, b: &App) -> bool {
        &&& exists|l: FileNode, r: FileNode|
            all_dirs_set(a.comparison.left_tree, l, false) && all_dirs_set(a.comparison.right_tree, r, false)
                && b.comparison.left_tree == (FileNode { expanded: true, ..l }) && b.comparison.right_tree == (
            FileNode { expanded: true, ..r })
        &&& b.lists_current()
    }

    /// The two sides exchanged: see `swap_panels`.
    pub open spec fn panels_swapped(a: &App, b: &App) -> bool {
        &&& b.comparison.left_dir == a.comparison.right_dir
        &&& b.comparison.right_dir == a.comparison.left_dir
        &&& b.comparison.left_tree == a.comparison.right_tree
        &&& b.comparison.right_tree == a.comparison.left_tree
        &&& b.lists_current()
    }

    /// Opens or closes the selected directory, on both sides alike: the
    /// node at its path in the active tree flips, and every node at that
    /// path in both trees takes the new flag.
    pub fn toggle_folder(&mut self)
        ensures
            App::folder_toggled(&*old(self), &*final(self)),
            final(self).comparison.left_dir == old(self).comparison.left_dir,
            final(self).comparison.right_dir == old(self).comparison.right_dir,
            final(self).left_selected == old(self).left_selected,
            final(self).right_selected == old(self).right_selected,
            final(self).active_panel == old(self).active_panel,
            final(self).filter_mode == old(self).filter_mode,
    {
        let path = match self.get_selected_item() {
            Some(row) => {
                if !row.is_dir {
                    return;
                }
                copy_path(&row.path)
            },
            None => {
                return;
            },
        };
        let found = if self.active_panel == 0 {
            find_expansion(&self.comparison.left_tree, &path)
        } else {
            find_expansion(&self.comparison.right_tree, &path)
        };
        match found {
            Some(e) => {
                set_expansion(&mut self.comparison.left_tree, &path, !e);
                set_expansion(&mut self.comparison.right_tree, &path, !e);
                self.update_file_lists();
            },
            None => {},
        }
    }

    /// Exchanges the two sides: roots and trees.
    pub fn swap_panels(&mut self)
        ensures
            final(self).comparison.left_dir == old(self).comparison.right_dir,
            final(self).comparison.right_dir == old(self).comparison.left_dir,
            final(self).comparison.left_tree == old(self).comparison.right_tree,
            final(self).comparison.right_tree == old(self).comparison.left_tree,
            final(self).lists_current(),
            final(self).left_selected == old(self).left_selected,
            final(self).right_selected == old(self).right_selected,
            final(self).active_panel == old(self).active_panel,
            final(self).filter_mode == old(self).filter_mode,
    {
        std::mem::swap(&mut self.comparison.left_dir, &mut self.comparison.right_dir);
        std::mem::swap(&mut self.comparison.left_tree, &mut self.comparison.right_tree);
        self.update_file_lists();
    }

    /// Sets the filter and recomputes both row lists.
    pub fn set_filter(&mut self, filter: FilterMode)
        ensures
            final(self).filter_mode == filter,
            final(self).comparison == old(self).comparison,
            final(self).lists_current(),
            final(self).left_selected == old(self).left_selected,
            final(self).right_selected == old(self).right_selected,
            final(self).active_panel == old(self).active_panel,
    {
        self.filter_mode = filter;
        self.update_file_lists();
    }

    /// Starts a refresh unless one is running: returns whether the caller
    /// is to run one now.
    pub fn start_refresh(&mut self) -> (r: bool)
        ensures
            r == !old(self).is_refreshing,
            final(self).is_refreshing,
            r ==> final(self).refresh_progress@ == "Starting refresh..."@,
            !r ==> *final(self) == *old(self),
            final(self).comparison == old(self).comparison,
            final(self).saved == old(self).saved,
            final(self).left_selected == old(self).left_selected,
            final(self).right_selected == old(self).right_selected,
    {
        if self.is_refreshing {
            return false;
        }
        self.is_refreshing = true;
        self.refresh_progress = String::from_str("Starting refresh...");
        true
    }

    /// A progress message of the running refresh.
    pub fn on_refresh_progress(&mut self, message: String)
        ensures
            final(self).refresh_progress == message,
            final(self).is_refreshing == old(self).is_refreshing,
            final(self).comparison == old(self).comparison,
    {
        self.refresh_progress = message;
    }

    /// The running refresh failed: the comparison shown stays as it was.
    pub fn on_refresh_error(&mut self, error: &str)
        ensures
            !final(self).is_refreshing,
            final(self).refresh_progress@ == "Refresh failed: "@ + error@ + " (Press F5 to retry)"@,
            final(self).comparison == old(self).comparison,
            final(self).left_selected == old(self).left_selected,
            final(self).right_selected == old(self).right_selected,
    {
        let mut message = String::from_str("Refresh failed: ");
        message.append(error);
        message.append(" (Press F5 to retry)");
        self.refresh_progress = message;
        self.is_refreshing = false;
    }

    /// Records what a copy is to carry over the refresh that follows it.
    pub fn save_current_state(&mut self)
        ensures
            final(self).saved is Some,
            final(self).saved->0.left_selection == old(self).left_selected,
            final(self).saved->0.right_selection == old(self).right_selected,
            final(self).saved->0.active_panel == old(self).active_panel,
            final(self).saved->0.filter_mode == old(self).filter_mode,
            copy_of(old(self).comparison.left_tree, final(self).saved->0.left_tree),
            copy_of(old(self).comparison.right_tree, final(self).saved->0.right_tree),
            final(self).comparison == old(self).comparison,
            final(self).left_selected == old(self).left_selected,
            final(self).right_selected == old(self).right_selected,
            final(self).copy_info == old(self).copy_info,
            final(self).mode == old(self).mode,
    {
        let left_tree = copy_tree(&self.comparison.left_tree);
        let right_tree = copy_tree(&self.comparison.right_tree);
        self.saved = Some(SavedState {
            left_selection: self.left_selected,
            right_selection: self.right_selected,
            active_panel: self.active_panel,
            filter_mode: self.filter_mode,
            left_tree,
            right_tree,
        });
    }

    /// Carries the saved state over to the trees of a finished refresh:
    /// filter and active panel come back, expanded flags come back wherever
    /// a node matches by path and kind, the roots are expanded, and each
    /// saved selection is kept if still in range, else moved to the first
    /// row, else dropped.
    pub fn restore_saved_state_safe(&mut self)
        ensures
            match old(self).saved {
                Some(st) => {
                    &&& final(self).filter_mode == st.filter_mode
                    &&& final(self).active_panel == st.active_panel
                    &&& exists|l: FileNode, r: FileNode|
                        restored(old(self).comparison.left_tree, st.left_tree, l) && restored(
                            old(self).comparison.right_tree,
                            st.right_tree,
                            r,
                        ) && final(self).comparison.left_tree == (FileNode { expanded: true, ..l })
                            && final(self).comparison.right_tree == (FileNode { expanded: true, ..r })
                    &&& final(self).lists_current()
                    &&& final(self).left_selected == match st.left_selection {
                        Some(i) => carried_selection(i, final(self).left_items@.len() as int),
                        None => old(self).left_selected,
                    }
                    &&& final(self).right_selected == match st.right_selection {
                        Some(i) => carried_selection(i, final(self).right_items@.len() as int),
                        None => old(self).right_selected,
                    }
                },
                None => {
                    &&& final(self).comparison.left_tree == (FileNode {
                        expanded: true,
                        ..old(self).comparison.left_tree
                    })
                    &&& final(self).comparison.right_tree == (FileNode {
                        expanded: true,
                        ..old(self).comparison.right_tree
                    })
                    &&& final(self).lists_current()
                },
            },
            final(self).saved is None,
            final(self).comparison.left_dir == old(self).comparison.left_dir,
            final(self).comparison.right_dir == old(self).comparison.right_dir,
            final(self).is_refreshing == old(self).is_refreshing,
            final(self).refresh_progress == old(self).refresh_progress,
            final(self).copy_info == old(self).copy_info,
            final(self).mode == old(self).mode,
    {
        let saved = self.saved.take();
        match saved {
            Some(st) => {
                self.filter_mode = st.filter_mode;
                self.active_panel = st.active_panel;
                restore_expansion_state_safe(&mut self.comparison.left_tree, &st.left_tree);
                restore_expansion_state_safe(&mut self.comparison.right_tree, &st.right_tree);
                let ghost l = self.comparison.left_tree;
                let ghost r = self.comparison.right_tree;
                self.comparison.left_tree.expanded = true;
                self.comparison.right_tree.expanded = true;
                self.update_file_lists();
                assert(self.comparison.left_tree == (FileNode { expanded: true, ..l }));
                assert(self.comparison.right_tree == (FileNode { expanded: true, ..r }));
                if let Some(i) = st.left_selection {
                    let len = self.left_items.len();
                    self.left_selected = if i < len {
                        Some(i)
                    } else if len > 0 {
                        Some(0)
                    } else {
                        None
                    };
                }
                if let Some(i) = st.right_selection {
                    let len = self.right_items.len();
                    self.right_selected = if i < len {
                        Some(i)
                    } else if len > 0 {
                        Some(0)
                    } else {
                        None
                    };
                }
            },
            None => {
                let ghost l = self.comparison.left_tree;
                let ghost r = self.comparison.right_tree;
                self.comparison.left_tree.expanded = true;
                self.comparison.right_tree.expanded = true;
                self.update_file_lists();
                assert(self.comparison.left_tree == (FileNode { expanded: true, ..l }));
                assert(self.comparison.right_tree == (FileNode { expanded: true, ..r }));
            },
        }
    }

    /// The running refresh finished: its comparison replaces the one shown,
    /// whole, and the saved state, if any, is carried over to it.
    pub fn on_refresh_complete(&mut self, comparison: DirectoryComparison)
        ensures
            !final(self).is_refreshing,
            final(self).refresh_progress@.len() == 0,
            final(self).saved is None,
            final(self).comparison.left_dir == comparison.left_dir,
            final(self).comparison.right_dir == comparison.right_dir,
            final(self).comparison.left_tree.expanded,
            final(self).comparison.right_tree.expanded,
            final(self).lists_current(),
            old(self).saved is None ==> final(self).comparison.left_tree == (FileNode {
                expanded: true,
                ..comparison.left_tree
            }) && final(self).comparison.right_tree == (FileNode { expanded: true, ..comparison.right_tree }),
            old(self).saved is Some ==> {
                let st = old(self).saved->0;
                &&& final(self).filter_mode == st.filter_mode
                &&& final(self).active_panel == st.active_panel
                &&& exists|l: FileNode|
                    restored(FileNode { expanded: true, ..comparison.left_tree }, st.left_tree, l)
                        && final(self).comparison.left_tree == (FileNode { expanded: true, ..l })
                &&& exists|r: FileNode|
                    restored(FileNode { expanded: true, ..comparison.right_tree }, st.right_tree, r)
                        && final(self).comparison.right_tree == (FileNode { expanded: true, ..r })
            },
    {
        let ghost cl = comparison.left_tree;
        let ghost cr = comparison.right_tree;
        self.comparison = comparison;
        self.comparison.left_tree.expanded = true;
        self.comparison.right_tree.expanded = true;
        self.update_file_lists();
        self.is_refreshing = false;
        self.refresh_progress = String::new();
        assert(self.comparison.left_tree == (FileNode { expanded: true, ..cl }));
        assert(self.comparison.right_tree == (FileNode { expanded: true, ..cr }));
        self.restore_saved_state_safe();
    }

    /// The paths of the selected row on the active side (the source) and on
    /// the other side (the target), if a row is selected.
    pub fn copy_paths(&self) -> (r: Option<(String, String)>)
        ensures
            match self.active_selected() {
                Some(i) => if (i as int) < self.active_items().len() {
                    let rel = path_view(self.active_items()[i as int].path@);
                    let (src, dst) = if self.active_panel == 0 {
                        (self.comparison.left_dir, self.comparison.right_dir)
                    } else {
                        (self.comparison.right_dir, self.comparison.left_dir)
                    };
                    match r {
                        Some(paths) => paths.0@ == joined(src@, rel) && paths.1@ == joined(dst@, rel),
                        None => false,
                    }
                } else {
                    r is None
                },
                None => r is None,
            },
    {
        match self.get_selected_item() {
            Some(row) => {
                let (src, dst) = if self.active_panel == 0 {
                    (&self.comparison.left_dir, &self.comparison.right_dir)
                } else {
                    (&self.comparison.right_dir, &self.comparison.left_dir)
                };
                Some((join_path(src, &row.path), join_path(dst, &row.path)))
            },
            None => None,
        }
    }

    /// Asks for confirmation of copying the selected row to the other side;
    /// `stats` is what the selected directory holds (unused for a file,
    /// which counts as one file of its size).
    pub fn prepare_copy(&mut self, stats: DirStats)
        ensures
            match old(self).active_selected() {
                Some(i) => (i as int) < old(self).active_items().len() ==> {
                    let row = old(self).active_items()[i as int];
                    &&& final(self).mode == AppMode::CopyConfirm
                    &&& final(self).copy_info is Some
                    &&& final(self).copy_info->0.from_left_to_right == (old(self).active_panel == 0)
                    &&& final(self).copy_info->0.source_path@ == joined(
                        (if old(self).active_panel == 0 {
                            old(self).comparison.left_dir
                        } else {
                            old(self).comparison.right_dir
                        })@,
                        path_view(row.path@),
                    )
                    &&& final(self).copy_info->0.target_path@ == joined(
                        (if old(self).active_panel == 0 {
                            old(self).comparison.right_dir
                        } else {
                            old(self).comparison.left_dir
                        })@,
                        path_view(row.path@),
                    )
                    &&& row.is_dir ==> final(self).copy_info->0.file_count == stats.file_count
                        && final(self).copy_info->0.folder_count == stats.folder_count
                        && final(self).copy_info->0.total_bytes == stats.total_bytes
                    &&& !row.is_dir ==> final(self).copy_info->0.file_count == 1
                        && final(self).copy_info->0.folder_count == 0
                        && final(self).copy_info->0.total_bytes == match row.size {
                        Some(s) => s,
                        None => 0,
                    }
                },
                None => true,
            },
            old(self).get_selected_none() ==> final(self).mode == old(self).mode && final(self).copy_info
                == old(self).copy_info,
            final(self).comparison == old(self).comparison,
            final(self).left_selected == old(self).left_selected,
            final(self).right_selected == old(self).right_selected,
            final(self).active_panel == old(self).active_panel,
    {
        let (is_dir, size) = match self.get_selected_item() {
            Some(row) => (row.is_dir, row.size),
            None => {
                return;
            },
        };
        let (source_path, target_path) = match self.copy_paths() {
            Some(p) => p,
            None => {
                return;
            },
        };
        let from_left_to_right = self.active_panel == 0;
        let (file_count, folder_count, total_bytes) = if is_dir {
            (stats.file_count, stats.folder_count, stats.total_bytes)
        } else {
            (1, 0, match size {
                Some(s) => s,
                None => 0,
            })
        };
        self.copy_info = Some(CopyInfo {
            source_path,
            target_path,
            file_count,
            folder_count,
            total_bytes,
            from_left_to_right,
        });
        self.mode = AppMode::CopyConfirm;
    }

    /// Whether no row of the active panel is selected.
    pub open spec fn get_selected_none(&self) -> bool {
        match self.active_selected() {
            Some(i) => (i as int) >= self.active_items().len(),
            None => true,
        }
    }

    /// Drops the copy awaiting confirmation.
    pub fn cancel_copy(&mut self)
        ensures
            final(self).copy_info is None,
            final(self).mode == AppMode::DirectoryView,
            final(self).comparison == old(self).comparison,
            final(self).left_selected == old(self).left_selected,
            final(self).right_selected == old(self).right_selected,
    {
        self.copy_info = None;
        self.mode = AppMode::DirectoryView;
    }

    /// The confirmed copy is about to run: the current state is saved for
    /// the refresh after it, and the copy to make is handed out (none when
    /// nothing awaits confirmation).
    pub fn begin_copy(&mut self) -> (r: Option<CopyInfo>)
        ensures
            r == old(self).copy_info,
            old(self).copy_info is None ==> final(self).saved == old(self).saved,
            old(self).copy_info is Some ==> {
                &&& final(self).saved is Some
                &&& final(self).saved->0.left_selection == old(self).left_selected
                &&& final(self).saved->0.right_selection == old(self).right_selected
                &&& final(self).saved->0.active_panel == old(self).active_panel
                &&& final(self).saved->0.filter_mode == old(self).filter_mode
                &&& copy_of(old(self).comparison.left_tree, final(self).saved->0.left_tree)
                &&& copy_of(old(self).comparison.right_tree, final(self).saved->0.right_tree)
            },
            final(self).copy_info is None,
            final(self).left_selected == old(self).left_selected,
            final(self).right_selected == old(self).right_selected,
            final(self).mode == old(self).mode,
            final(self).comparison == old(self).comparison,
    {
        match self.copy_info.take() {
            Some(info) => {
                self.save_current_state();
                Some(info)
            },
            None => None,
        }
    }

    /// The copy ran: back to the directory view, and a refresh is started
    /// unless one is running; returns whether the caller is to run one.
    pub fn finish_copy(&mut self) -> (r: bool)
        ensures
            r == !old(self).is_refreshing,
            final(self).is_refreshing,
            final(self).copy_info is None,
            final(self).mode == AppMode::DirectoryView,
            final(self).comparison == old(self).comparison,
            final(self).saved == old(self).saved,
    {
        let r = self.start_refresh();
        self.copy_info = None;
        self.mode = AppMode::DirectoryView;
        r
    }
}

/// What a click at column `relative_x` of the toolbar selects.
#[derive(Clone, Copy, Debug, PartialEq, Eq, Structural)]
pub enum ToolbarItem {
    ShowAll,
    ShowDifferent,
    ShowDiffOnly,
    ExpandAll,
    CollapseAll,
    Refresh,
    Swap,
    Copy,
    Nothing,
}

pub open spec fn toolbar_item_at(relative_x: u16) -> ToolbarItem {
    if relative_x <= 16 {
        ToolbarItem::ShowAll
    } else if relative_x <= 34 {
        ToolbarItem::ShowDifferent
    } else if relative_x <= 52 {
        ToolbarItem::ShowDiffOnly
    } else if relative_x <= 71 {
        ToolbarItem::ExpandAll
    } else if relative_x <= 92 {
        ToolbarItem::CollapseAll
    } else if relative_x <= 109 {
        ToolbarItem::Refresh
    } else if relative_x <= 129 {
        ToolbarItem::Swap
    } else if relative_x <= 143 {
        ToolbarItem::Copy
    } else {
        ToolbarItem::Nothing
    }
}

/// The toolbar entry drawn at column `relative_x` of the toolbar.
pub fn toolbar_item(relative_x: u16) -> (r: ToolbarItem)
    ensures
        r == toolbar_item_at(relative_x),
{
    if relative_x <= 16 {
        ToolbarItem::ShowAll
    } else if relative_x <= 34 {
        ToolbarItem::ShowDifferent
    } else if relative_x <= 52 {
        ToolbarItem::ShowDiffOnly
    } else if relative_x <= 71 {
        ToolbarItem::ExpandAll
    } else if relative_x <= 92 {
        ToolbarItem::CollapseAll
    } else if relative_x <= 109 {
        ToolbarItem::Refresh
    } else if relative_x <= 129 {
        ToolbarItem::Swap
    } else if relative_x <= 143 {
        ToolbarItem::Copy
    } else {
        ToolbarItem::Nothing
    }
}

/// Whether the point is on the toolbar (its last row included).
pub open spec fn on_toolbar(a: Area, x: u16, y: u16) -> bool {
    &&& y >= a.y
    &&& y as int <= a.y as int + a.height as int
    &&& x >= a.x
    &&& (x as int) < a.x as int + a.width as int
}

impl App {
    /// Whether the selected row can be copied: what `can_copy` returns.
    pub open spec fn copy_allowed(&self) -> bool {
        match self.active_selected() {
            Some(i) => (i as int) < self.active_items().len() && {
                let row = self.active_items()[i as int];
                &&& row.display@.len() > 0
                &&& (row.status == FileStatus::LeftOnly ==> self.active_panel == 0)
                &&& (row.status == FileStatus::RightOnly ==> self.active_panel == 1)
            },
            None => false,
        }
    }

    /// A left click at column `x`, row `y`: on the toolbar, does what the
    /// entry under it names.
    pub fn handle_mouse_click(&mut self, x: u16, y: u16) -> (r: Action)
        ensures
            !on_toolbar(old(self).toolbar_area, x, y) ==> r is Nothing && final(self).comparison
                == old(self).comparison && final(self).filter_mode == old(self).filter_mode,
            on_toolbar(old(self).toolbar_area, x, y) ==> {
                let item = toolbar_item_at((x - old(self).toolbar_area.x) as u16);
                &&& item == ToolbarItem::ShowAll ==> final(self).filter_mode == FilterMode::All
                &&& item == ToolbarItem::ShowDifferent ==> final(self).filter_mode == FilterMode::Different
                &&& item == ToolbarItem::ShowDiffOnly ==> final(self).filter_mode
                    == FilterMode::DifferentNotOrphans
                &&& item == ToolbarItem::Refresh ==> (r is StartRefresh <==> !old(self).is_refreshing)
                &&& item == ToolbarItem::Copy ==> (r is PrepareCopy <==> old(self).copy_allowed())
                &&& item != ToolbarItem::Refresh && item != ToolbarItem::Copy ==> r is Nothing
                &&& item == ToolbarItem::Swap ==> App::panels_swapped(&*old(self), &*final(self))
                &&& item == ToolbarItem::ExpandAll ==> App::all_expanded(&*old(self), &*final(self))
                &&& item == ToolbarItem::CollapseAll ==> App::all_folded(&*old(self), &*final(self))
            },
    {
        let a = self.toolbar_area;
        let on = y >= a.y && (y as u32) <= (a.y as u32) + (a.height as u32) && x >= a.x && (x as u32)
            < (a.x as u32) + (a.width as u32);
        if !on {
            return Action::Nothing;
        }
        match toolbar_item(x - a.x) {
            ToolbarItem::ShowAll => {
                self.set_filter(FilterMode::All);
                Action::Nothing
            },
            ToolbarItem::ShowDifferent => {
                self.set_filter(FilterMode::Different);
                Action::Nothing
            },
            ToolbarItem::ShowDiffOnly => {
                self.set_filter(FilterMode::DifferentNotOrphans);
                Action::Nothing
            },
            ToolbarItem::ExpandAll => {
                self.expand_all();
                Action::Nothing
            },
            ToolbarItem::CollapseAll => {
                self.collapse_all();
                Action::Nothing
            },
            ToolbarItem::Refresh => {
                if self.start_refresh() {
                    Action::StartRefresh
                } else {
                    Action::Nothing
                }
            },
            ToolbarItem::Swap => {
                self.swap_panels();
                Action::Nothing
            },
            ToolbarItem::Copy => {
                if self.can_copy() {
                    Action::PrepareCopy
                } else {
                    Action::Nothing
                }
            },
            ToolbarItem::Nothing => Action::Nothing,
        }
    }

    /// A key event: changes the view as the key says and returns the outside
    /// work it asks for. Only presses count.
    pub fn handle_key_event(&mut self, key: KeyInput) -> (r: Action)
        ensures
            !key.press ==> r is Nothing && *final(self) == *old(self),
            r is Exit <==> key.press && (key.key == Key::Char('q') || key.key == Key::Esc)
                && old(self).mode != AppMode::CopyConfirm,
            key.press && (key.key == Key::Char('q') || key.key == Key::Esc) && old(self).mode
                == AppMode::CopyConfirm ==> final(self).mode == AppMode::DirectoryView
                && final(self).copy_info is None,
            r is StartRefresh ==> !old(self).is_refreshing && final(self).is_refreshing,
            r is PrepareCopy ==> key.ctrl && old(self).mode == AppMode::DirectoryView && old(self).copy_allowed(),
            r is ExecuteCopy ==> key.key == Key::Enter && old(self).mode == AppMode::CopyConfirm
                && old(self).copy_info is Some && final(self).saved is Some,
            r is CompareFiles ==> key.key == Key::Enter && old(self).mode == AppMode::DirectoryView,
            key.press && old(self).mode == AppMode::DirectoryView && key.key == Key::Up ==> App::moved_by(
                &*old(self),
                &*final(self),
                -1,
            ),
            key.press && old(self).mode == AppMode::DirectoryView && key.key == Key::Down ==> App::moved_by(
                &*old(self),
                &*final(self),
                1,
            ),
            key.press && old(self).mode == AppMode::DirectoryView && key.key == Key::PageUp ==> App::moved_by(
                &*old(self),
                &*final(self),
                -(App::half_page(old(self).viewport_height)),
            ),
            key.press && old(self).mode == AppMode::DirectoryView && key.key == Key::PageDown ==> App::moved_by(
                &*old(self),
                &*final(self),
                App::half_page(old(self).viewport_height),
            ),
            key.press && key.ctrl && old(self).mode == AppMode::DirectoryView && key.key == Key::Home
                ==> App::jumped_to_top(&*old(self), &*final(self)),
            key.press && key.ctrl && old(self).mode == AppMode::DirectoryView && key.key == Key::End
                ==> App::jumped_to_bottom(&*old(self), &*final(self)),
            key.press && old(self).mode == AppMode::DirectoryView && key.key == Key::Left ==> App::switched(
                &*old(self),
                &*final(self),
                0,
            ),
            key.press && old(self).mode == AppMode::DirectoryView && key.key == Key::Right ==> App::switched(
                &*old(self),
                &*final(self),
                1,
            ),
            key.press && old(self).mode == AppMode::DirectoryView && key.key == Key::F(5) ==> (r is StartRefresh
                <==> !old(self).is_refreshing),
            key.press && key.key == Key::Char('+') ==> App::all_expanded(&*old(self), &*final(self)),
            key.press && key.key == Key::Char('-') ==> App::all_folded(&*old(self), &*final(self)),
            key.press && key.key == Key::Char('s') ==> App::panels_swapped(&*old(self), &*final(self)),
            key.press && key.ctrl && key.key == Key::Char('r') && old(self).mode == AppMode::DirectoryView
                && old(self).active_panel == 0 ==> (r is PrepareCopy <==> old(self).copy_allowed()),
            key.press && key.ctrl && key.key == Key::Char('l') && old(self).mode == AppMode::DirectoryView
                && old(self).active_panel == 1 ==> (r is PrepareCopy <==> old(self).copy_allowed()),
            key.press && key.key == Key::Enter && old(self).mode == AppMode::DirectoryView
                && !old(self).get_selected_none() ==> {
                let row = old(self).active_items()[old(self).active_selected()->0 as int];
                &&& row.is_dir ==> r is Nothing && App::folder_toggled(&*old(self), &*final(self))
                &&& !row.is_dir && row.path@.len() > 0 ==> r == (Action::CompareFiles {
                    status: row.status,
                    left_path: r->left_path,
                    right_path: r->right_path,
                }) && (r->left_path)@ == joined(old(self).comparison.left_dir@, path_view(row.path@))
                    && (r->right_path)@ == joined(old(self).comparison.right_dir@, path_view(row.path@))
            },
            key.press && key.key == Key::Char('1') ==> final(self).filter_mode == FilterMode::All,
            key.press && key.key == Key::Char('2') ==> final(self).filter_mode == FilterMode::Different,
            key.press && key.key == Key::Char('3') ==> final(self).filter_mode == FilterMode::DifferentNotOrphans,
    {
        if !key.press {
            return Action::Nothing;
        }
        let view = self.mode == AppMode::DirectoryView;
        match key.key {
            Key::Char('q') | Key::Esc => {
                if self.mode == AppMode::CopyConfirm {
                    self.cancel_copy();
                    Action::Nothing
                } else {
                    Action::Exit
                }
            },
            Key::Left => {
                if view {
                    self.switch_panel(0);
                }
                Action::Nothing
            },
            Key::Right => {
                if view {
                    self.switch_panel(1);
                }
                Action::Nothing
            },
            Key::Up => {
                if view {
                    self.move_selection(-1);
                }
                Action::Nothing
            },
            Key::Down => {
                if view {
                    self.move_selection(1);
                }
                Action::Nothing
            },
            Key::PageUp => {
                if view {
                    let half = self.calculate_half_page();
                    self.move_selection(-half);
                }
                Action::Nothing
            },
            Key::PageDown => {
                if view {
                    let half = self.calculate_half_page();
                    self.move_selection(half);
                }
                Action::Nothing
            },
            Key::Home => {
                if key.ctrl && view {
                    self.scroll_to_top();
                }
                Action::Nothing
            },
            Key::End => {
                if key.ctrl && view {
                    self.scroll_to_bottom();
                }
                Action::Nothing
            },
            Key::Char('1') => {
                self.set_filter(FilterMode::All);
                Action::Nothing
            },
            Key::Char('2') => {
                self.set_filter(FilterMode::Different);
                Action::Nothing
            },
            Key::Char('3') => {
                self.set_filter(FilterMode::DifferentNotOrphans);
                Action::Nothing
            },
            Key::Char('+') => {
                self.expand_all();
                Action::Nothing
            },
            Key::Char('-') => {
                self.collapse_all();
                Action::Nothing
            },
            Key::Char('s') => {
                self.swap_panels();
                Action::Nothing
            },
            Key::F(5) => {
                if view && self.start_refresh() {
                    Action::StartRefresh
                } else {
                    Action::Nothing
                }
            },
            Key::Char('r') => {
                if key.ctrl && view && self.active_panel == 0 && self.can_copy() {
                    Action::PrepareCopy
                } else {
                    Action::Nothing
                }
            },
            Key::Char('l') => {
                if key.ctrl && view && self.active_panel == 1 && self.can_copy() {
                    Action::PrepareCopy
                } else {
                    Action::Nothing
                }
            },
            Key::Enter => {
                if view {
                    let (is_dir, status, has_path) = match self.get_selected_item() {
                        Some(row) => (row.is_dir, row.status, row.path.len() > 0),
                        None => {
                            return Action::Nothing;
                        },
                    };
                    if is_dir {
                        self.toggle_folder();
                        Action::Nothing
                    } else if has_path {
                        match self.both_paths() {
                            Some((left_path, right_path)) => Action::CompareFiles { status, left_path, right_path },
                            None => Action::Nothing,
                        }
                    } else {
                        Action::Nothing
                    }
                } else if self.mode == AppMode::CopyConfirm {
                    match self.begin_copy() {
                        Some(info) => Action::ExecuteCopy(info),
                        None => Action::Nothing,
                    }
                } else {
                    self.mode = AppMode::DirectoryView;
                    Action::Nothing
                }
            },
            _ => Action::Nothing,
        }
    }

    /// The selected row's path below the left root and below the right root.
    pub fn both_paths(&self) -> (r: Option<(String, String)>)
        ensures
            match self.active_selected() {
                Some(i) => if (i as int) < self.active_items().len() {
                    let rel = path_view(self.active_items()[i as int].path@);
                    match r {
                        Some(paths) => paths.0@ == joined(self.comparison.left_dir@, rel) && paths.1@
                            == joined(self.comparison.right_dir@, rel),
                        None => false,
                    }
                } else {
                    r is None
                },
                None => r is None,
            },
    {
        match self.get_selected_item() {
            Some(row) => Some(
                (join_path(&self.comparison.left_dir, &row.path), join_path(&self.comparison.right_dir, &row.path)),
            ),
            None => None,
        }
    }
}

/// Milliseconds to wait after a copy before the refresh, for the file
/// system's metadata to settle: longer when the copied entry's directory
/// holds more than a thousand entries.
pub fn settle_delay_ms(sibling_count: usize) -> (r: u64)
    ensures
        r == (if sibling_count > 1000 {
            500u64
        } else {
            100u64
        }),
{
    if sibling_count > 1000 {
        500
    } else {
        100
    }
}

} // verus!
