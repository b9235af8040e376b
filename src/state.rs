use vstd::prelude::*;

use crate::index::TreeIndex;
use crate::tree::TreeNode;
use crate::tree::count;
use crate::tree::offset_of;
use crate::view::nearest;
use crate::view::next_relative;
use crate::view::previous_relative;
use crate::view::last_descendant;
use crate::window::get_items_bounds;
use crate::window::visible_window;

verus! {

/// The addresses an optional selection holds.
pub open spec fn selection_view(selected: Option<TreeIndex>) -> Option<Seq<usize>> {
    match selected {
        Some(i) => Some(i@),
        None => None,
    }
}

/// What a tree view keeps between renders: the linear position of the first item shown and
/// the selected node's address, if any.
#[derive(Debug)]
pub struct TreeState {
    pub offset: usize,
    pub selected: Option<TreeIndex>,
}

impl Default for TreeState {
    fn default() -> (r: TreeState)
        ensures
            r.offset == 0,
            r.selected is None,
    {
        TreeState { offset: 0, selected: None }
    }
}

impl TreeState {
    /// A state scrolled to the top with nothing selected.
    pub fn new() -> (r: TreeState)
        ensures
            r.offset == 0,
            r.selected is None,
    {
        TreeState::default()
    }

    /// This state with `selected` selected.
    pub fn with_selected(self, selected: TreeIndex) -> (r: TreeState)
        ensures
            r.offset == self.offset,
            selection_view(r.selected) == Some(selected@),
    {
        let mut state = self;
        state.selected = Some(selected);
        state
    }

    /// Replaces the selection.
    pub fn select(&mut self, selected: Option<TreeIndex>)
        ensures
            final(self).offset == old(self).offset,
            final(self).selected == selected,
    {
        self.selected = selected;
    }

    /// The selection.
    pub fn selected(&self) -> (r: &Option<TreeIndex>)
        ensures
            *r == self.selected,
    {
        &self.selected
    }

    /// The selection, for changing in place.
    pub fn selected_mut(&mut self) -> (r: &mut Option<TreeIndex>)
        ensures
            *r == old(self).selected,
            final(self).selected == *final(r),
            final(self).offset == old(self).offset,
    {
        &mut self.selected
    }
}

impl<T> TreeNode<T> {
    /// Moves the selection to the previous node in pre-order; with nothing selected, selects
    /// the first node. Where there is no such node the selection stays as it was.
    pub fn select_up(&self, selected: &mut Option<TreeIndex>)
        ensures
            (*old(selected)) is None ==> selection_view(*final(selected)) == (if self.children@.len()
                > 0 {
                Some(seq![0usize])
            } else {
                None::<Seq<usize>>
            }),
            (*old(selected)) matches Some(i) ==> selection_view(*final(selected)) == match previous_relative(
                *self,
                i@,
            ) {
                Some(p) => Some(p),
                None => Some(i@),
            },
    {
        match selected {
            None => {
                *selected = match self.find_first_child() {
                    Some((i, _)) => Some(TreeIndex::new_at(i)),
                    None => None,
                };
            },
            Some(index) => {
                match self.find_previous_relative_of(index) {
                    Some((previous, _)) => *index = previous,
                    None => {},
                }
            },
        }
    }

    /// Moves the selection to the next node in pre-order; with nothing selected, selects the
    /// last node. Where there is no such node the selection stays as it was.
    pub fn select_down(&self, selected: &mut Option<TreeIndex>)
        ensures
            (*old(selected)) is None ==> selection_view(*final(selected)) == (if self.children@.len()
                > 0 {
                Some(last_descendant(*self, seq![(self.children@.len() - 1) as usize]))
            } else {
                None::<Seq<usize>>
            }),
            (*old(selected)) matches Some(i) ==> selection_view(*final(selected)) == match next_relative(
                *self,
                i@,
            ) {
                Some(p) => Some(p),
                None => Some(i@),
            },
    {
        match selected {
            None => {
                *selected = match self.find_last_descendant() {
                    Some((i, _)) => Some(i),
                    None => None,
                };
            },
            Some(index) => {
                match self.find_next_relative_of(index) {
                    Some((next, _)) => *index = next,
                    None => {},
                }
            },
        }
    }

    /// Moves the selection to the parent node; with nothing selected, selects the first node.
    /// Where there is no parent below the root the selection stays as it was.
    pub fn select_parent(&self, selected: &mut Option<TreeIndex>)
        ensures
            (*old(selected)) is None ==> selection_view(*final(selected)) == (if self.children@.len()
                > 0 {
                Some(seq![0usize])
            } else {
                None::<Seq<usize>>
            }),
            (*old(selected)) matches Some(i) ==> selection_view(*final(selected)) == (if i@.len() > 1
                && crate::tree::valid(*self, i@.drop_last()) {
                Some(i@.drop_last())
            } else {
                Some(i@)
            }),
    {
        match selected {
            None => {
                *selected = match self.find_first_child() {
                    Some((i, _)) => Some(TreeIndex::new_at(i)),
                    None => None,
                };
            },
            Some(index) => {
                match self.find_parent_of(index.clone()) {
                    Some((parent, _)) => *index = parent,
                    None => {},
                }
            },
        }
    }

    /// `select_up` on the state's selection.
    pub fn select_up_state(&self, state: &mut TreeState)
        ensures
            final(state).offset == old(state).offset,
            old(state).selected is None ==> selection_view(final(state).selected) == (if self.children@.len()
                > 0 {
                Some(seq![0usize])
            } else {
                None::<Seq<usize>>
            }),
            old(state).selected matches Some(i) ==> selection_view(final(state).selected)
                == match previous_relative(*self, i@) {
                Some(p) => Some(p),
                None => Some(i@),
            },
    {
        self.select_up(&mut state.selected);
    }

    /// `select_down` on the state's selection.
    pub fn select_down_state(&self, state: &mut TreeState)
        ensures
            final(state).offset == old(state).offset,
            old(state).selected is None ==> selection_view(final(state).selected) == (if self.children@.len()
                > 0 {
                Some(last_descendant(*self, seq![(self.children@.len() - 1) as usize]))
            } else {
                None::<Seq<usize>>
            }),
            old(state).selected matches Some(i) ==> selection_view(final(state).selected)
                == match next_relative(*self, i@) {
                Some(p) => Some(p),
                None => Some(i@),
            },
    {
        self.select_down(&mut state.selected);
    }

    /// `select_parent` on the state's selection.
    pub fn select_parent_state(&self, state: &mut TreeState)
        ensures
            final(state).offset == old(state).offset,
            old(state).selected is None ==> selection_view(final(state).selected) == (if self.children@.len()
                > 0 {
                Some(seq![0usize])
            } else {
                None::<Seq<usize>>
            }),
            old(state).selected matches Some(i) ==> selection_view(final(state).selected) == (if i@.len()
                > 1 && crate::tree::valid(*self, i@.drop_last()) {
                Some(i@.drop_last())
            } else {
                Some(i@)
            }),
    {
        self.select_parent(&mut state.selected);
    }

    /// Prepares a render of this tree into a viewport of `max_height` rows: repairs the
    /// selection against the tree as it now is, finds its linear position, and computes the
    /// window `[first, last)` of items to draw, whose heights in pre-order are `heights`.
    /// The state keeps `first` as its new scroll offset. An empty tree clears the selection
    /// and shows nothing.
    pub fn compute_visible_window(
        &self,
        state: &mut TreeState,
        heights: &[usize],
        max_height: usize,
        scroll_padding: usize,
    ) -> (r: (usize, usize))
        requires
            heights@.len() == count(*self),
            count(*self) <= usize::MAX,
        ensures
            self.children@.len() == 0 ==> final(state).selected is None && r == (0usize, 0usize)
                && final(state).offset == old(state).offset,
            self.children@.len() > 0 ==> {
                &&& selection_view(final(state).selected) == match old(state).selected {
                    Some(i) => nearest(*self, i@),
                    None => None,
                }
                &&& (r.0 as int, r.1 as int) == visible_window(
                    heights@,
                    match final(state).selected {
                        Some(i) => offset_of(*self, i@),
                        None => None,
                    },
                    old(state).offset as int,
                    max_height as int,
                    scroll_padding as int,
                )
                &&& final(state).offset == r.0
            },
    {
        if self.children.len() == 0 {
            state.selected = None;
            return (0, 0);
        }
        let resolved = match &state.selected {
            Some(index) => match self.find_nearest_to(index) {
                Some((i, _)) => Some(i),
                None => None,
            },
            None => None,
        };
        state.selected = resolved;
        let selected_offset = match &state.selected {
            Some(index) => match self.find_offset_of_index(index) {
                Some((k, _)) => Some(k),
                None => None,
            },
            None => None,
        };
        let bounds = get_items_bounds(
            heights,
            selected_offset,
            state.offset,
            max_height,
            scroll_padding,
        );
        state.offset = bounds.0;
        bounds
    }
}

} // verus!
