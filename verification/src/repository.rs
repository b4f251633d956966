//! What the repositories have in common: entities, and the events that a
//! write gives rise to.

use vstd::prelude::*;
use crate::error::RepoError;

verus! {

/// The values among `slots`, in order.
pub open spec fn present<Ev>(slots: Seq<Option<Ev>>) -> Seq<Ev>
    decreases slots.len(),
{
    if slots.len() == 0 {
        Seq::empty()
    } else if slots[0] is Some {
        seq![slots[0]->0] + present(slots.drop_first())
    } else {
        present(slots.drop_first())
    }
}

/// Empty slots at the front count for nothing.
pub proof fn lemma_present_skips_empty<Ev>(slots: Seq<Option<Ev>>, i: int)
    requires
        0 <= i <= slots.len(),
        forall|j: int| 0 <= j < i ==> slots[j] is None,
    ensures
        present(slots) == present(slots.skip(i)),
    decreases i,
{
    if i == 0 {
        assert(slots.skip(0) =~= slots);
    } else {
        assert(slots.drop_first().skip(i - 1) =~= slots.skip(i));
        lemma_present_skips_empty(slots.drop_first(), i - 1);
    }
}

/// Up to `N` events, handed out one by one without allocation.
pub struct Events<Ev, const N: usize>(pub [Option<Ev>; N]);

impl<Ev, const N: usize> Events<Ev, N> {
    /// The events still to come, in order.
    pub open spec fn view(&self) -> Seq<Ev> {
        present(self.0@)
    }

    /// Hands out the next event, if one is left.
    pub fn next(&mut self) -> (r: Option<Ev>)
        ensures
            match r {
                Some(e) => old(self)@.len() > 0 && e == old(self)@[0] && final(self)@ == old(
                    self,
                )@.drop_first(),
                None => old(self)@.len() == 0 && final(self)@.len() == 0,
            },
    {
        let ghost slots = self.0@;
        let mut i: usize = 0;
        while i < N
            invariant
                i <= N,
                N == slots.len(),
                self.0@ == slots,
                old(self).0@ == slots,
                forall|j: int| 0 <= j < i ==> slots[j] is None,
            decreases N - i,
        {
            if self.0[i].is_some() {
                let mut taken: Option<Ev> = None;
                std::mem::swap(&mut self.0[i], &mut taken);
                proof {
                    let after = self.0@;
                    assert(after =~= slots.update(i as int, None));
                    lemma_present_skips_empty(slots, i as int);
                    lemma_present_skips_empty(after, i as int + 1);
                    assert(slots.skip(i as int).drop_first() =~= after.skip(i as int + 1));
                    assert(present(slots) =~= seq![taken->0] + present(after));
                    assert(present(after) =~= present(slots).drop_first());
                }
                return taken;
            }
            i += 1;
        }
        proof {
            lemma_present_skips_empty(slots, N as int);
        }
        None
    }

    /// How many events are still to come.
    pub fn count(&self) -> (n: usize)
        ensures
            n == self@.len(),
    {
        let mut n: usize = 0;
        let mut i: usize = 0;
        assert(self.0@.skip(0) =~= self.0@);
        while i < N
            invariant
                i <= N,
                N == self.0@.len(),
                n <= i,
                self@.len() == n + present(self.0@.skip(i as int)).len(),
            decreases N - i,
        {
            assert(self.0@.skip(i as int).drop_first() =~= self.0@.skip(i + 1));
            if self.0[i].is_some() {
                n += 1;
            }
            i += 1;
        }
        n
    }

    /// The events still to come, in order, as a vector.
    pub fn collect(self) -> (out: Vec<Ev>)
        ensures
            out@ == self@,
    {
        let mut rest = self;
        let mut out: Vec<Ev> = Vec::new();
        loop
            invariant
                self@ == out@ + rest@,
            decreases rest@.len(),
        {
            let ghost before = rest@;
            match rest.next() {
                Some(e) => {
                    out.push(e);
                    assert(self@ =~= out@ + rest@);
                },
                None => {
                    assert(self@ =~= out@);
                    return out;
                },
            }
        }
    }
}

/// Something that can be stored in a repository.
pub trait Entity: Sized {
    /// What a write of such an entity gives rise to.
    type WriteEvent;

    /// The entity together with the events of the write that stored it.
    fn with_events<const N: usize>(self, events: [Option<Self::WriteEvent>; N]) -> (r: Result<
        WithEvents<Self, N>,
        RepoError,
    >)
        ensures
            r is Ok,
            r->Ok_0.entity == self,
            r->Ok_0.events.0 == events,
    {
        Ok(WithEvents { entity: self, events: Events(events) })
    }
}

/// An entity written to a repository, with up to `N` events of the write.
pub struct WithEvents<T: Entity, const N: usize> {
    pub entity: T,
    pub events: Events<T::WriteEvent, N>,
}

impl<T: Entity, const N: usize> WithEvents<T, N> {
    pub fn into_events(self) -> (events: Events<T::WriteEvent, N>)
        ensures
            events == self.events,
    {
        self.events
    }

    pub fn entity(&self) -> (entity: &T)
        ensures
            *entity == self.entity,
    {
        &self.entity
    }
}

impl<T: Entity, const N: usize> core::ops::Deref for WithEvents<T, N> {
    type Target = T;

    fn deref(&self) -> (entity: &T)
        ensures
            *entity == self.entity,
    {
        &self.entity
    }
}

} // verus!
