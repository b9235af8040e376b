use vstd::prelude::*;
use std::collections::VecDeque;

verus! {

/// A queue of pending events and the event currently being handled.
///
/// Stepping takes the most recently queued event as the current one and hands back the
/// event it replaces.
pub struct Events<E> {
    next: Option<E>,
    queue: VecDeque<E>,
}

impl<E> Events<E> {
    /// The event currently being handled.
    pub closed spec fn current(&self) -> Option<E> {
        self.next
    }

    /// The events waiting, oldest first.
    pub closed spec fn pending(&self) -> Seq<E> {
        self.queue@
    }

    /// No current event and nothing queued.
    pub fn new() -> (r: Events<E>)
        ensures
            r.current() is None,
            r.pending() == Seq::<E>::empty(),
    {
        Events { next: None, queue: VecDeque::new() }
    }

    /// The event currently being handled.
    pub fn get(&self) -> (r: &Option<E>)
        ensures
            *r == self.current(),
    {
        &self.next
    }

    /// The event currently being handled, for changing in place.
    pub fn get_mut(&mut self) -> (r: &mut Option<E>)
        ensures
            *r == old(self).current(),
            final(self).current() == *final(r),
            final(self).pending() == old(self).pending(),
    {
        &mut self.next
    }

    /// Adds an event to the queue.
    pub fn queue(&mut self, event: E)
        ensures
            final(self).current() == old(self).current(),
            final(self).pending() == old(self).pending().push(event),
    {
        self.queue.push_back(event);
    }

    /// Makes the current event `event` and hands back the one it replaces.
    fn replace(&mut self, event: E) -> (r: Option<E>)
        ensures
            r == old(self).current(),
            final(self).current() == Some(event),
            final(self).pending() == old(self).pending(),
    {
        let previous = self.next.take();
        self.next = Some(event);
        previous
    }

    /// Takes the most recently queued event, if any, as the current one and hands back the
    /// one it replaces; with nothing queued, nothing changes and `None` comes back.
    pub fn step(&mut self) -> (r: Option<E>)
        ensures
            old(self).pending().len() == 0 ==> r is None && final(self).current() == old(
                self,
            ).current() && final(self).pending() == old(self).pending(),
            old(self).pending().len() > 0 ==> r == old(self).current() && final(self).current()
                == Some(old(self).pending().last()) && final(self).pending() == old(
                self,
            ).pending().drop_last(),
    {
        match self.queue.pop_back() {
            Some(event) => self.replace(event),
            None => None,
        }
    }

    /// Takes the most recently queued event as the current one, or `default` with nothing
    /// queued, and hands back the one it replaces.
    pub fn step_or(&mut self, default: E) -> (r: Option<E>)
        ensures
            r == old(self).current(),
            old(self).pending().len() == 0 ==> final(self).current() == Some(default)
                && final(self).pending() == old(self).pending(),
            old(self).pending().len() > 0 ==> final(self).current() == Some(
                old(self).pending().last(),
            ) && final(self).pending() == old(self).pending().drop_last(),
    {
        let event = match self.queue.pop_back() {
            Some(event) => event,
            None => default,
        };
        self.replace(event)
    }

    /// Takes the most recently queued event as the current one, or one that `f` makes with
    /// nothing queued, and hands back the one it replaces.
    pub fn step_or_else<F: FnOnce() -> E>(&mut self, f: F) -> (r: Option<E>)
        requires
            f.requires(()),
        ensures
            r == old(self).current(),
            old(self).pending().len() == 0 ==> (exists|e: E|
                f.ensures((), e) && final(self).current() == Some(e))
                && final(self).pending() == old(self).pending(),
            old(self).pending().len() > 0 ==> final(self).current() == Some(
                old(self).pending().last(),
            ) && final(self).pending() == old(self).pending().drop_last(),
    {
        let event = match self.queue.pop_back() {
            Some(event) => event,
            None => f(),
        };
        self.replace(event)
    }
}

} // verus!
