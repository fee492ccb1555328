//! The state of the whole interface and what each key does to it.

use vstd::prelude::*;

use crate::dependency::DependencyTree;
use crate::dependency::TreeView;
use crate::render::frame_output;
use crate::render::frame_state;
use crate::render::RenderContext;
use crate::render::RenderOutput;
use crate::state::moved;
use crate::state::page_step;
use crate::state::settled;
use crate::state::StateView;
use crate::state::TreeWidgetState;
use crate::style::TreeWidgetStyle;
use crate::viewport::Area;
use crate::viewport::Viewport;

verus! {

/// A key press, as far as the interface tells keys apart.
#[derive(Debug, Clone, Copy, PartialEq, Eq, Structural)]
pub enum Key {
    Char(char),
    Backspace,
    Enter,
    Esc,
    Up,
    Down,
    Left,
    Right,
    PageUp,
    PageDown,
    Other,
}

/// Mathematical content of a [`TuiState`].
pub struct TuiView {
    /// Whether the interface goes on.
    pub running: bool,
    pub tree: TreeView,
    pub widget: StateView,
    /// Whether the help is on display.
    pub show_help: bool,
    /// The search text that is being typed, if any.
    pub typing: Option<Seq<char>>,
}

/// The depth that a digit key opens the tree to, `None` for other
/// characters.
pub open spec fn depth_of_digit(c: char) -> Option<usize> {
    if '1' <= c && c <= '9' {
        Some((c as u8 - 48) as usize)
    } else {
        None
    }
}

/// The widget after the selection moved by `delta` visible entries.
pub open spec fn stepped(t: TreeView, w: StateView, delta: int) -> StateView {
    StateView { selected: moved(t.visible(w.open), w.selected, delta), ..w }
}

/// The widget after the tree was opened to `depth` levels.
pub open spec fn opened_to(t: TreeView, w: StateView, depth: usize) -> StateView {
    if depth == 0 {
        w
    } else {
        StateView {
            open: t.within_depth(depth),
            selected: settled(t.visible(t.within_depth(depth)), w.selected),
            ..w
        }
    }
}

/// The interface after a key was pressed outside of search entry.
pub open spec fn after_command(v: TuiView, key: Key) -> TuiView {
    let t = v.tree;
    let w = v.widget;
    match key {
        Key::Char(c) => if c == 'q' {
            TuiView { running: false, ..v }
        } else if c == '?' {
            TuiView { show_help: true, ..v }
        } else if c == 'p' {
            TuiView { widget: StateView { selected: t.parent_moved(w.selected), ..w }, ..v }
        } else if c == ']' {
            TuiView { widget: StateView { selected: t.sibling_moved(w.selected, 1), ..w }, ..v }
        } else if c == '[' {
            TuiView { widget: StateView { selected: t.sibling_moved(w.selected, -1), ..w }, ..v }
        } else if c == '/' {
            TuiView { typing: Some(Seq::empty()), widget: t.searched(w, Seq::empty()), ..v }
        } else if c == 'c' {
            TuiView { widget: t.searched(w, Seq::empty()), ..v }
        } else {
            match depth_of_digit(c) {
                Some(depth) => TuiView { widget: opened_to(t, w, depth), ..v },
                None => v,
            }
        },
        Key::Down => TuiView { widget: stepped(t, w, 1), ..v },
        Key::Up => TuiView { widget: stepped(t, w, -1), ..v },
        Key::PageDown => TuiView { widget: stepped(t, w, page_step(w.viewport.height)), ..v },
        Key::PageUp => TuiView { widget: stepped(t, w, -page_step(w.viewport.height)), ..v },
        Key::Right => TuiView { widget: t.expanded(w), ..v },
        Key::Left => TuiView { widget: t.collapsed(w), ..v },
        _ => v,
    }
}

/// The text after its last character was removed; an empty text stays.
pub open spec fn without_last(text: Seq<char>) -> Seq<char> {
    if text.len() > 0 {
        text.drop_last()
    } else {
        text
    }
}

/// The interface after a key was pressed. Any key closes the help. While a
/// search is typed, characters extend the text, backspace shortens it, and
/// each change searches anew for the text as it stands; enter keeps what was
/// found and escape drops it. Every other key is a command: one key, one
/// operation.
pub open spec fn after_key(v: TuiView, key: Key) -> TuiView {
    let closed = TuiView { show_help: false, ..v };
    match v.typing {
        Some(text) => match key {
            Key::Char(c) => TuiView {
                typing: Some(text.push(c)),
                widget: v.tree.searched(v.widget, text.push(c)),
                ..closed
            },
            Key::Backspace => TuiView {
                typing: Some(without_last(text)),
                widget: v.tree.searched(v.widget, without_last(text)),
                ..closed
            },
            Key::Enter => TuiView { typing: None, ..closed },
            Key::Esc => TuiView {
                typing: None,
                widget: v.tree.searched(v.widget, Seq::empty()),
                ..closed
            },
            _ => after_command(closed, key),
        },
        None => after_command(closed, key),
    }
}

/// Returns the depth that a digit key opens the tree to.
pub fn digit_depth(c: char) -> (r: Option<usize>)
    ensures
        r == depth_of_digit(c),
{
    if '1' <= c && c <= '9' {
        Some((c as u8 - 48u8) as usize)
    } else {
        None
    }
}

/// The state of the interface: the forest, the navigation over it, and what
/// else the keys toggle.
pub struct TuiState {
    running: bool,
    dependency_tree: DependencyTree,
    tree_widget_state: TreeWidgetState,
    show_help: bool,
    search_query: Option<Vec<char>>,
}

impl View for TuiState {
    type V = TuiView;

    closed spec fn view(&self) -> TuiView {
        TuiView {
            running: self.running,
            tree: self.dependency_tree@,
            widget: self.tree_widget_state@,
            show_help: self.show_help,
            typing: match self.search_query {
                Some(text) => Some(text@),
                None => None,
            },
        }
    }
}

impl TuiState {
    /// Whether the navigation state fits the forest. It does from
    /// [`TuiState::new`] on: no operation of the interface breaks it.
    pub closed spec fn wf(&self) -> bool {
        self.tree_widget_state.wf(self.dependency_tree@)
    }

    /// Creates the state of an interface that shows `dependency_tree` with
    /// every node expanded and the first root selected.
    pub fn new(dependency_tree: DependencyTree) -> (r: TuiState)
        ensures
            r.wf(),
            r@ == (TuiView {
                running: true,
                tree: dependency_tree@,
                widget: StateView {
                    open: dependency_tree@.parents(),
                    selected: settled(dependency_tree@.preorder(), None),
                    viewport: Viewport::blank(),
                    query: None,
                    matches: Seq::empty(),
                },
                show_help: false,
                typing: None,
            }),
    {
        let mut tree_widget_state = TreeWidgetState::new();
        tree_widget_state.expand_all(&dependency_tree);
        TuiState {
            running: true,
            dependency_tree,
            tree_widget_state,
            show_help: false,
            search_query: None,
        }
    }

    /// Returns whether the navigation state fits the forest.
    pub fn is_sound(&self) -> (r: bool)
        ensures
            r == self.wf(),
    {
        self.tree_widget_state.fits(&self.dependency_tree)
    }

    /// Returns whether the interface goes on.
    pub fn running(&self) -> (r: bool)
        ensures
            r == self@.running,
    {
        self.running
    }

    /// Returns whether the help is on display.
    pub fn show_help(&self) -> (r: bool)
        ensures
            r == self@.show_help,
    {
        self.show_help
    }

    /// Returns the search text that is being typed, if any.
    pub fn search_query(&self) -> (r: Option<&Vec<char>>)
        ensures
            r.is_some() == self@.typing.is_some(),
            r matches Some(text) ==> Some(text@) == self@.typing,
    {
        self.search_query.as_ref()
    }

    /// Returns the forest.
    pub fn dependency_tree(&self) -> (r: &DependencyTree)
        ensures
            r@ == self@.tree,
    {
        &self.dependency_tree
    }

    /// Returns the navigation state.
    pub fn tree_widget_state(&self) -> (r: &TreeWidgetState)
        ensures
            r@ == self@.widget,
            self.wf() ==> r.wf(self@.tree),
    {
        &self.tree_widget_state
    }

    /// Applies one key press.
    pub fn handle_key_event(&mut self, key: Key)
        requires
            old(self).wf(),
        ensures
            final(self).wf(),
            final(self)@ == after_key(old(self)@, key),
    {
        self.show_help = false;
        let nothing: Vec<char> = Vec::new();
        if self.search_query.is_some() {
            match key {
                Key::Char(c) => {
                    let mut text = match self.search_query.take() {
                        Some(text) => text,
                        None => Vec::new(),
                    };
                    text.push(c);
                    self.tree_widget_state.set_query_chars(&self.dependency_tree, &text);
                    self.search_query = Some(text);
                    return;
                },
                Key::Backspace => {
                    let mut text = match self.search_query.take() {
                        Some(text) => text,
                        None => Vec::new(),
                    };
                    let ghost before = text@;
                    text.pop();
                    assert(text@ =~= without_last(before));
                    self.tree_widget_state.set_query_chars(&self.dependency_tree, &text);
                    self.search_query = Some(text);
                    return;
                },
                Key::Enter => {
                    self.search_query = None;
                    return;
                },
                Key::Esc => {
                    self.search_query = None;
                    self.tree_widget_state.set_query_chars(&self.dependency_tree, &nothing);
                    return;
                },
                _ => {},
            }
        }
        match key {
            Key::Char(c) => {
                if c == 'q' {
                    self.running = false;
                } else if c == '?' {
                    self.show_help = true;
                } else if c == 'p' {
                    self.tree_widget_state.select_parent(&self.dependency_tree);
                } else if c == ']' {
                    self.tree_widget_state.select_next_sibling(&self.dependency_tree);
                } else if c == '[' {
                    self.tree_widget_state.select_previous_sibling(&self.dependency_tree);
                } else if c == '/' {
                    self.search_query = Some(Vec::new());
                    self.tree_widget_state.set_query_chars(&self.dependency_tree, &nothing);
                } else if c == 'c' {
                    self.tree_widget_state.set_query_chars(&self.dependency_tree, &nothing);
                } else if let Some(depth) = digit_depth(c) {
                    self.tree_widget_state.open_to_depth(&self.dependency_tree, depth);
                }
            },
            Key::Down => {
                self.tree_widget_state.select_next(&self.dependency_tree);
            },
            Key::Up => {
                self.tree_widget_state.select_previous(&self.dependency_tree);
            },
            Key::PageDown => {
                self.tree_widget_state.page_down(&self.dependency_tree);
            },
            Key::PageUp => {
                self.tree_widget_state.page_up(&self.dependency_tree);
            },
            Key::Right => {
                self.tree_widget_state.expand(&self.dependency_tree);
            },
            Key::Left => {
                self.tree_widget_state.collapse(&self.dependency_tree);
            },
            _ => {},
        }
    }

    /// Returns the lines of the frame that a widget of `area` shows, and
    /// records the viewport of that frame.
    pub fn render(
        &mut self,
        style: &TreeWidgetStyle,
        root_label: Option<&str>,
        inner: Option<Area>,
        area: Area,
    ) -> (r: RenderOutput)
        requires
            old(self).wf(),
        ensures
            final(self).wf(),
            final(self)@ == (TuiView {
                widget: frame_state(old(self)@.tree, root_label, inner, old(self)@.widget, area),
                ..old(self)@
            }),
            r@ == frame_output(old(self)@.tree, *style, root_label, inner, old(self)@.widget, area),
    {
        let context = RenderContext::new(&self.dependency_tree, style, root_label, inner);
        context.render(&mut self.tree_widget_state, area)
    }
}

} // verus!
