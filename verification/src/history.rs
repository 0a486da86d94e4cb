use crate::navigation::Navigation;
use std::collections::VecDeque;
use vstd::std_specs::cmp::PartialEqSpec;
use vstd::prelude::*;

verus! {

broadcast use vstd::std_specs::vecdeque::group_vec_dequeue_axioms;

/// The number of screens a [`Navigation::Stack`] history keeps by default.
pub const DEFAULT_LIMIT: usize = 64;

/// The abstract state of a [`History`]: the root it started at, the screens
/// it holds (oldest first), its navigation model and the number of screens it
/// keeps.
pub struct HistoryView<I> {
    pub root: I,
    pub stack: Seq<I>,
    pub navigation: Navigation,
    pub limit: nat,
}

/// The newest `limit` entries of `s`, or all of `s` when it has no more.
pub open spec fn keep_newest<I>(s: Seq<I>, limit: nat) -> Seq<I> {
    if s.len() > limit {
        s.subrange(s.len() - limit, s.len() as int)
    } else {
        s
    }
}

/// The limit that [`History::with_limit`] stores: 0 becomes 1.
pub open spec fn effective_limit(limit: nat) -> nat {
    if limit == 0 {
        1
    } else {
        limit
    }
}

impl<I> HistoryView<I> {
    /// A history holds at least one screen and at most `limit`, and a
    /// [`Navigation::Switch`] history holds exactly one.
    pub open spec fn wf(self) -> bool {
        &&& 1 <= self.limit
        &&& 1 <= self.stack.len() <= self.limit
        &&& self.navigation == Navigation::Switch ==> self.stack.len() == 1
    }

    /// The screen to show: the newest one.
    pub open spec fn current(self) -> I {
        self.stack.last()
    }

    /// Whether going back changes the current screen.
    pub open spec fn can_go_back(self) -> bool {
        self.navigation == Navigation::Stack && self.stack.len() > 1
    }

    pub open spec fn with_stack(self, stack: Seq<I>) -> Self {
        HistoryView { stack, ..self }
    }

    /// The history after a move to a screen other than the current one.
    pub open spec fn went_to(self, id: I) -> Self {
        match self.navigation {
            Navigation::Stack => self.with_stack(keep_newest(self.stack.push(id), self.limit)),
            Navigation::Switch => self.with_stack(seq![id]),
        }
    }

    /// The history after going back.
    pub open spec fn went_back(self) -> Self {
        self.with_stack(self.stack.drop_last())
    }

    /// The history after the current screen was replaced by `id`.
    pub open spec fn replaced(self, id: I) -> Self {
        self.with_stack(self.stack.update(self.stack.len() - 1, id))
    }

    /// The history with `limit` as its limit, its oldest screens dropped.
    pub open spec fn limited(self, limit: nat) -> Self {
        HistoryView {
            stack: keep_newest(self.stack, effective_limit(limit)),
            limit: effective_limit(limit),
            ..self
        }
    }
}

/// A history of visited screens.
///
/// A `History` always holds at least one screen, so [`History::current`]
/// always has something to return.
#[derive(Debug, Clone, PartialEq)]
pub struct History<I> {
    root: I,
    stack: VecDeque<I>,
    navigation: Navigation,
    limit: usize,
}

impl<I> View for History<I> {
    type V = HistoryView<I>;

    closed spec fn view(&self) -> HistoryView<I> {
        HistoryView {
            root: self.root,
            stack: self.stack@,
            navigation: self.navigation,
            limit: self.limit as nat,
        }
    }
}

/// Drops the oldest entries of `stack` until at most `limit` remain.
fn trim<I>(stack: &mut VecDeque<I>, limit: usize)
    ensures
        final(stack)@ == keep_newest(old(stack)@, limit as nat),
{
    while stack.len() > limit
        invariant
            stack@.len() <= old(stack)@.len(),
            stack@ == old(stack)@.subrange(
                old(stack)@.len() - stack@.len(),
                old(stack)@.len() as int,
            ),
            old(stack)@.len() > limit ==> stack@.len() >= limit,
            old(stack)@.len() <= limit ==> stack@ == old(stack)@,
        decreases stack@.len(),
    {
        stack.pop_front();
    }
}

impl<I: PartialEq + Clone> History<I> {
    /// Creates a [`History`] that starts at `root`.
    ///
    /// The history holds one screen, a clone of `root`.
    pub fn new(root: I, navigation: Navigation) -> (history: Self)
        ensures
            history@.wf(),
            history@.root == root,
            history@.navigation == navigation,
            history@.limit == DEFAULT_LIMIT,
            history@.stack.len() == 1,
            cloned(root, history@.stack[0]),
    {
        let first = root.clone();
        let mut stack = VecDeque::new();
        stack.push_back(first);
        History { root, stack, navigation, limit: DEFAULT_LIMIT }
    }

    /// Sets the number of screens the history keeps.
    ///
    /// When the history grows past `limit`, the oldest screens are dropped.
    /// A limit of 0 becomes 1. [`Navigation::Switch`] ignores this.
    ///
    /// Dropping the oldest screens can remove the root from the history, but
    /// [`History::reset`] still works because the root is stored separately.
    pub fn with_limit(self, limit: usize) -> (history: Self)
        requires
            self@.wf(),
        ensures
            history@.wf(),
            history@ == self@.limited(limit as nat),
            limit > 0 ==> history@.limit == limit,
            limit == 0 ==> history@.limit == 1,
            self@.stack.len() <= limit ==> history@.stack == self@.stack,
    {
        let mut history = self;
        history.limit = if limit == 0 {
            1
        } else {
            limit
        };
        trim(&mut history.stack, history.limit);
        history
    }

    /// The screen to show.
    pub fn current(&self) -> (id: &I)
        requires
            self@.wf(),
        ensures
            *id == self@.current(),
    {
        let last = self.stack.len() - 1;
        &self.stack[last]
    }

    /// The screen the history started at.
    pub fn root(&self) -> (id: &I)
        ensures
            *id == self@.root,
    {
        &self.root
    }

    /// The navigation model of the history.
    pub fn navigation(&self) -> (navigation: Navigation)
        ensures
            navigation == self@.navigation,
    {
        self.navigation
    }

    /// The number of screens in the history. Always 1 or more.
    pub fn depth(&self) -> (depth: usize)
        requires
            self@.wf(),
        ensures
            depth == self@.stack.len(),
            1 <= depth <= self@.limit,
            self@.navigation == Navigation::Switch ==> depth == 1,
    {
        self.stack.len()
    }

    /// Whether [`History::back`] changes the current screen.
    pub fn can_go_back(&self) -> (can: bool)
        ensures
            can == self@.can_go_back(),
    {
        self.navigation == Navigation::Stack && self.stack.len() > 1
    }

    /// The screens in the history, oldest first.
    pub fn iter(&self) -> (screens: std::collections::vec_deque::Iter<'_, I>)
        ensures
            vstd::std_specs::iter::IteratorSpec::remaining(&screens) == self@.stack.as_ref(),
    {
        self.stack.iter()
    }

    /// Whether `id` is one of the screens in the history.
    pub(crate) fn contains(&self, id: &I) -> (found: bool)
        ensures
            I::obeys_eq_spec() ==> (found <==> exists|k: int|
                0 <= k < self@.stack.len() && #[trigger] self@.stack[k].eq_spec(id)),
    {
        let mut k: usize = 0;
        while k < self.stack.len()
            invariant
                k <= self@.stack.len(),
                I::obeys_eq_spec() ==> forall|j: int| 0 <= j < k ==> !#[trigger] self@.stack[j].eq_spec(id),
            decreases self@.stack.len() - k,
        {
            if self.stack[k] == *id {
                return true;
            }
            k = k + 1;
        }
        false
    }

    /// Goes to `id`.
    ///
    /// [`Navigation::Stack`] pushes `id` onto the history.
    /// [`Navigation::Switch`] replaces the history with `id`.
    ///
    /// Returns whether the current screen changed. Going to the current
    /// screen does nothing.
    pub fn go_to(&mut self, id: I) -> (changed: bool)
        requires
            old(self)@.wf(),
        ensures
            final(self)@.wf(),
            I::obeys_eq_spec() ==> (changed <==> !old(self)@.current().eq_spec(&id)),
            changed ==> final(self)@ == old(self)@.went_to(id),
            !changed ==> final(self)@ == old(self)@,
    {
        if *self.current() == id {
            return false;
        }
        match self.navigation {
            Navigation::Stack => {
                self.stack.push_back(id);
                trim(&mut self.stack, self.limit);
            },
            Navigation::Switch => {
                self.stack.clear();
                self.stack.push_back(id);
            },
        }
        true
    }

    /// Goes to the previous screen.
    ///
    /// Returns whether the current screen changed. The root of a
    /// [`Navigation::Stack`] history and every [`Navigation::Switch`] history
    /// stay where they are.
    pub fn back(&mut self) -> (changed: bool)
        requires
            old(self)@.wf(),
        ensures
            final(self)@.wf(),
            changed == old(self)@.can_go_back(),
            changed ==> final(self)@ == old(self)@.went_back(),
            !changed ==> final(self)@ == old(self)@,
    {
        if !self.can_go_back() {
            return false;
        }
        self.stack.pop_back();
        true
    }

    /// Replaces the current screen.
    ///
    /// The depth of the history does not change, so the screen that was
    /// replaced cannot be returned to.
    ///
    /// Returns whether the current screen changed.
    pub fn replace(&mut self, id: I) -> (changed: bool)
        requires
            old(self)@.wf(),
        ensures
            final(self)@.wf(),
            I::obeys_eq_spec() ==> (changed <==> !old(self)@.current().eq_spec(&id)),
            changed ==> final(self)@ == old(self)@.replaced(id),
            !changed ==> final(self)@ == old(self)@,
    {
        if *self.current() == id {
            return false;
        }
        self.stack.pop_back();
        self.stack.push_back(id);
        assert(self@.stack =~= old(self)@.stack.update(old(self)@.stack.len() - 1, id));
        true
    }

    /// Goes back to the root and forgets every other screen.
    ///
    /// Returns whether the current screen changed: going back to the root
    /// from the root returns `false`, though the screens above it are
    /// forgotten all the same.
    pub fn reset(&mut self) -> (changed: bool)
        requires
            old(self)@.wf(),
        ensures
            final(self)@.wf(),
            I::obeys_eq_spec() ==> (changed <==> !old(self)@.current().eq_spec(&old(self)@.root)),
            final(self)@.stack.len() == 1,
            cloned(old(self)@.root, final(self)@.current()),
            final(self)@ == old(self)@.with_stack(final(self)@.stack),
    {
        let changed = !(*self.current() == self.root);
        let first = self.root.clone();
        self.stack.clear();
        self.stack.push_back(first);
        changed
    }
}

} // verus!
