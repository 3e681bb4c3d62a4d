//! The contract between the search and a decision domain: actions, states,
//! and maps from a state's actions to per-action data.

use crate::value::Value;
use std::ops::{Index, IndexMut};
use vstd::prelude::*;

verus! {

/// An action that can be taken from a state: its position among the state's
/// actions.
#[derive(Debug, Copy, Clone, PartialEq, Eq, Hash, PartialOrd, Ord, Structural)]
pub struct Action(pub usize);

impl Action {
    pub fn index(&self) -> (i: usize)
        ensures
            i == self.0,
    {
        self.0
    }
}

/// The actions `Action(0), .., Action(count - 1)`.
pub open spec fn action_seq(count: nat) -> Seq<Action> {
    Seq::new(count, |i: int| Action(i as usize))
}

/// The rows of a square array.
pub open spec fn picture<const D: usize>(array: [[i32; D]; D]) -> Seq<Seq<i32>> {
    Seq::new(D as nat, |i: int| array@[i]@)
}

/// A decision domain. `D` is the side of the square array that pictures a
/// state.
///
/// A state is described by its view; every operation is a function of that
/// view alone.
pub trait State<const D: usize>: View + Sized {
    /// Whether a view is that of a state of the domain. The initial state is
    /// one, and taking an action leads from one to another.
    spec fn inv(v: Self::V) -> bool;

    /// The view of the initial state.
    spec fn spec_init() -> Self::V;

    /// The number of actions that can be taken from a state.
    spec fn spec_action_count(v: Self::V) -> nat;

    /// The state that taking `action` leads to.
    spec fn spec_take(v: Self::V, action: Action) -> Self::V;

    /// The reward of a terminal state, `None` for any other state.
    spec fn spec_reward(v: Self::V) -> Option<Value>;

    /// The value for a state, given the value for the state that `taken`
    /// led to.
    spec fn spec_value(v: Self::V, taken: Action, value: Value) -> Value;

    /// The picture of a state, row by row.
    spec fn spec_as_array(v: Self::V) -> Seq<Seq<i32>>;

    /// The initial state.
    fn init() -> (state: Self)
        ensures
            state@ == Self::spec_init(),
            Self::inv(state@),
    ;

    /// The number of possible actions for this state.
    fn action_count(&self) -> (count: usize)
        requires
            Self::inv(self@),
        ensures
            count == Self::spec_action_count(self@),
    ;

    /// The actions of this state, in order.
    fn action_iter(&self) -> (actions: Vec<Action>)
        requires
            Self::inv(self@),
        ensures
            actions@ == action_seq(Self::spec_action_count(self@)),
            actions@.len() == Self::spec_action_count(self@),
            forall|i: int| 0 <= i < actions@.len() ==> (#[trigger] actions@[i]).0 == i,
    {
        let count = self.action_count();
        let mut actions: Vec<Action> = Vec::new();
        let mut index: usize = 0;
        while index < count
            invariant
                index <= count,
                actions@ == action_seq(index as nat),
                forall|i: int| 0 <= i < actions@.len() ==> (#[trigger] actions@[i]).0 == i,
            decreases count - index,
        {
            actions.push(Action(index));
            assert(actions@ == action_seq((index + 1) as nat));
            index += 1;
        }
        actions
    }

    /// The state resulting from taking the given action.
    fn take(&self, action: Action) -> (next: Self)
        requires
            Self::inv(self@),
            action.0 < Self::spec_action_count(self@),
        ensures
            next@ == Self::spec_take(self@, action),
            Self::inv(next@),
    ;

    /// The reward for a terminal state, `None` for a non-terminal state.
    fn reward(&self) -> (reward: Option<Value>)
        requires
            Self::inv(self@),
        ensures
            reward == Self::spec_reward(self@),
    ;

    /// The value for this state given the value for the state resulting from
    /// taking the given action.
    fn value(&self, taken: Action, value: Value) -> (own: Value)
        requires
            Self::inv(self@),
        ensures
            own == Self::spec_value(self@, taken, value),
    ;

    /// The picture of this state.
    fn as_array(&self) -> (array: [[i32; D]; D])
        requires
            Self::inv(self@),
        ensures
            picture(array) == Self::spec_as_array(self@),
    ;
}

/// Per-action data of one state: one item for each of its actions, in the
/// order of the actions.
pub struct ActionMap<T>(Vec<T>);

impl<T> View for ActionMap<T> {
    type V = Seq<T>;

    closed spec fn view(&self) -> Seq<T> {
        self.0@
    }
}

impl<T> ActionMap<T> {
    pub fn new(items: Vec<T>) -> (map: Self)
        ensures
            map@ == items@,
    {
        ActionMap(items)
    }

    pub fn as_slice(&self) -> (slice: &[T])
        ensures
            slice@ == self@,
    {
        self.0.as_slice()
    }

    pub fn is_empty(&self) -> (empty: bool)
        ensures
            empty == (self@.len() == 0),
    {
        self.0.is_empty()
    }

    pub fn len(&self) -> (len: usize)
        ensures
            len == self@.len(),
    {
        self.0.len()
    }

    /// The items, in the order of the actions.
    pub fn iter(&self) -> (items: Vec<&T>)
        ensures
            items@.len() == self@.len(),
            forall|i: int| 0 <= i < self@.len() ==> *(#[trigger] items@[i]) == self@[i],
    {
        let mut items: Vec<&T> = Vec::new();
        let mut index: usize = 0;
        while index < self.0.len()
            invariant
                index <= self@.len(),
                items@.len() == index,
                forall|i: int| 0 <= i < index ==> *(#[trigger] items@[i]) == self@[i],
            decreases self@.len() - index,
        {
            items.push(&self.0[index]);
            index += 1;
        }
        items
    }

    /// The items, in the order of the actions, to be changed in place.
    pub fn iter_mut(&mut self) -> (items: &mut [T])
        ensures
            items@ == old(self)@,
            final(self)@ == final(items)@,
    {
        self.0.as_mut_slice()
    }

    /// Every action with its item, in the order of the actions.
    pub fn action_value_iter(&self) -> (items: Vec<(Action, &T)>)
        ensures
            items@.len() == self@.len(),
            forall|i: int|
                0 <= i < self@.len() ==> (#[trigger] items@[i]).0 == Action(i as usize)
                    && items@[i].0.0 == i && *items@[i].1 == self@[i],
    {
        let mut items: Vec<(Action, &T)> = Vec::new();
        let mut index: usize = 0;
        while index < self.0.len()
            invariant
                index <= self@.len(),
                items@.len() == index,
                forall|i: int|
                    0 <= i < index ==> (#[trigger] items@[i]).0 == Action(i as usize)
                        && *items@[i].1 == self@[i],
            decreases self@.len() - index,
        {
            items.push((Action(index), &self.0[index]));
            index += 1;
        }
        items
    }

    /// Every action with its item, in the order of the actions, the items to
    /// be changed in place.
    pub fn action_value_iter_mut(&mut self) -> (items: Vec<(Action, &mut T)>)
        ensures
            items@.len() == old(self)@.len(),
            final(self)@.len() == old(self)@.len(),
            forall|i: int|
                0 <= i < old(self)@.len() ==> (#[trigger] items@[i]).0 == Action(i as usize)
                    && items@[i].0.0 == i && *items@[i].1 == old(self)@[i] && final(self)@[i]
                    == *final(items@[i].1),
    {
        let mut items: Vec<(Action, &mut T)> = Vec::new();
        let mut rest: &mut [T] = self.0.as_mut_slice();
        let ghost start = rest@;
        let ghost end = final(rest)@;
        let len = rest.len();
        let mut index: usize = 0;
        while rest.len() > 0
            invariant
                start.len() == len,
                index + rest@.len() == start.len(),
                items@.len() == index,
                rest@ == start.skip(index as int),
                end.len() == index + final(rest)@.len(),
                forall|i: int|
                    0 <= i < index ==> (#[trigger] items@[i]).0 == Action(i as usize)
                        && *items@[i].1 == start[i] && end[i] == *final(items@[i].1),
                forall|i: int| index <= i < end.len() ==> end[i] == final(rest)@[i - index],
            decreases rest@.len(),
        {
            let (head, tail) = rest.split_at_mut(1);
            match head.first_mut() {
                Some(item) => {
                    items.push((Action(index), item));
                },
                None => {},
            }
            rest = tail;
            index += 1;
        }
        items
    }

    pub fn last(&self) -> (last: Option<&T>)
        ensures
            self@.len() == 0 ==> last is None,
            self@.len() > 0 ==> last == Some(&self@.last()),
    {
        let len = self.0.len();
        if len == 0 {
            None
        } else {
            Some(&self.0[len - 1])
        }
    }
}

impl<T> Index<Action> for ActionMap<T> {
    type Output = T;

    fn index(&self, action: Action) -> (item: &T)
        ensures
            *item == self@[action.0 as int],
    {
        &self.0[action.index()]
    }
}

impl<T> vstd::std_specs::core::IndexSpecImpl<Action> for ActionMap<T> {
    open spec fn index_req(&self, action: &Action) -> bool {
        action.0 < self@.len()
    }
}

impl<T> IndexMut<Action> for ActionMap<T> {
    fn index_mut(&mut self, action: Action) -> (item: &mut T)
        requires
            action.0 < old(self)@.len(),
        ensures
            *item == old(self)@[action.0 as int],
            final(self)@ == old(self)@.update(action.0 as int, *final(item)),
    {
        &mut self.0[action.index()]
    }
}

/// Two states with the same view have the same actions: asking a state for
/// its actions again gives the same sequence.
pub proof fn lemma_actions_restart<const D: usize, S: State<D>>(first: S, second: S)
    requires
        first@ == second@,
    ensures
        action_seq(S::spec_action_count(first@)) == action_seq(S::spec_action_count(second@)),
{
}

} // verus!
