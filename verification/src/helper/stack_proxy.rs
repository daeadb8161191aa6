use vstd::prelude::*;

verus! {

/// A stack of states of which only the top is read and written. `push`
/// lays a copy of the top onto the stack, `pop` throws the top away and so
/// brings back the state below it.
pub struct StackProxy<T: Clone> {
    stack: Vec<T>,
}

/// The states after a copy `copy` of the top was pushed.
pub open spec fn after_push<T>(states: Seq<T>, copy: T) -> Seq<T> {
    states.push(copy)
}

/// The states after the top was replaced by `value`.
pub open spec fn after_write<T>(states: Seq<T>, value: T) -> Seq<T> {
    states.update(states.len() - 1, value)
}

/// The states after the top was replaced by each of `values` in turn.
pub open spec fn after_writes<T>(states: Seq<T>, values: Seq<T>) -> Seq<T>
    decreases values.len(),
{
    if values.len() == 0 {
        states
    } else {
        after_write(after_writes(states, values.drop_last()), values.last())
    }
}

/// The states after the top was thrown away.
pub open spec fn after_pop<T>(states: Seq<T>) -> Seq<T> {
    states.drop_last()
}

/// Writes to the top leave the depth and every state below the top alone.
pub proof fn lemma_writes_keep_below<T>(states: Seq<T>, values: Seq<T>)
    requires
        states.len() >= 1,
    ensures
        after_writes(states, values).len() == states.len(),
        after_writes(states, values).drop_last() == states.drop_last(),
    decreases values.len(),
{
    if values.len() > 0 {
        lemma_writes_keep_below(states, values.drop_last());
        let before = after_writes(states, values.drop_last());
        assert(after_write(before, values.last()).drop_last() =~= before.drop_last());
    }
}

/// A push, any number of writes to the top, and a pop bring back exactly
/// the states from before the push, whatever the copy held and whatever
/// was written.
pub proof fn lemma_push_write_pop_restores<T>(states: Seq<T>, copy: T, values: Seq<T>)
    ensures
        after_pop(after_writes(after_push(states, copy), values)) == states,
{
    lemma_writes_keep_below(after_push(states, copy), values);
    assert(after_push(states, copy).drop_last() =~= states);
}

impl<T: Clone> StackProxy<T> {
    /// The states, bottom first.
    pub closed spec fn view(&self) -> Seq<T> {
        self.stack@
    }

    /// The stack holds at least one state.
    pub open spec fn wf(&self) -> bool {
        self.view().len() >= 1
    }

    /// A stack that holds `initial` alone.
    pub fn new(initial: T) -> (s: Self)
        ensures
            s.wf(),
            s.view() == seq![initial],
    {
        let mut stack: Vec<T> = Vec::new();
        stack.push(initial);
        assert(stack@ =~= seq![initial]);
        StackProxy { stack }
    }

    /// Number of states on the stack.
    pub fn depth(&self) -> (d: usize)
        ensures
            d == self.view().len(),
    {
        self.stack.len()
    }

    /// Lays a copy of the top onto the stack.
    pub fn push(&mut self)
        requires
            old(self).wf(),
        ensures
            final(self).wf(),
            cloned(old(self).view().last(), final(self).view().last()),
            final(self).view() == after_push(old(self).view(), final(self).view().last()),
    {
        let top = self.stack[self.stack.len() - 1].clone();
        self.stack.push(top);
    }

    /// Throws the top away. The bottom state cannot be popped.
    pub fn pop(&mut self)
        requires
            old(self).view().len() > 1,
        ensures
            final(self).wf(),
            final(self).view() == after_pop(old(self).view()),
    {
        let _ = self.stack.pop();
    }

    /// The top state.
    pub fn top(&self) -> (t: &T)
        requires
            self.wf(),
        ensures
            *t == self.view().last(),
    {
        &self.stack[self.stack.len() - 1]
    }

    /// The top state, to be written in place.
    pub fn top_mut(&mut self) -> (t: &mut T)
        requires
            old(self).wf(),
        ensures
            *t == old(self).view().last(),
            final(self).view() == after_write(old(self).view(), *final(t)),
    {
        let last = self.stack.len() - 1;
        &mut self.stack[last]
    }
}

impl<T: Clone + Default> Default for StackProxy<T> {
    /// A stack that holds the default state alone.
    fn default() -> (s: Self)
        ensures
            s.wf(),
            s.view().len() == 1,
    {
        StackProxy::new(T::default())
    }
}

} // verus!
