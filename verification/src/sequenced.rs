//! The decisions of a sequenced reader or writer: who may use the inner value, and when
//! it counts as poisoned.
use vstd::prelude::*;

verus! {

/// Where an instance of a sequenced reader/writer stands, apart from the value itself
/// and the channel it waits on.
#[derive(Debug, Clone, Copy, PartialEq, Eq, Structural)]
pub enum Standing {
    /// It holds the value; a poisoned value may not be used.
    Active { poisoned: bool },
    /// It waits for an instance sequenced before it; a poison status set meanwhile is
    /// kept to apply to the value once it arrives.
    Waiting { poisoned: Option<bool> },
    /// It has nothing: released, taken, or its predecessor went away.
    Empty,
}

/// The standing once the poison status is set to `value`.
pub open spec fn poisoned_as(s: Standing, value: bool) -> Standing {
    match s {
        Standing::Active { .. } => Standing::Active { poisoned: value },
        Standing::Waiting { .. } => Standing::Waiting { poisoned: Some(value) },
        Standing::Empty => Standing::Empty,
    }
}

impl Standing {
    /// Sets the poison status: on the value held, or, while waiting, on the value to come.
    pub fn set_poisoned(&mut self, value: bool)
        ensures
            *final(self) == poisoned_as(*old(self), value),
    {
        match self {
            Standing::Active { poisoned } => *poisoned = value,
            Standing::Waiting { poisoned } => *poisoned = Some(value),
            Standing::Empty => {},
        }
    }

    /// Removes the poison status if set.
    pub fn cure(&mut self)
        ensures
            *final(self) == poisoned_as(*old(self), false),
    {
        self.set_poisoned(false)
    }

    /// Whether the inner value may be used: it is held and not poisoned.
    pub fn usable(&self) -> (r: bool)
        ensures
            r == (*self == Standing::Active { poisoned: false }),
    {
        match self {
            Standing::Active { poisoned } => !*poisoned,
            _ => false,
        }
    }

    /// The standing once the wait is over: `received` is what the predecessor handed on
    /// (`Empty` when it went away without doing so), and a poison status set while
    /// waiting overrides the one it came with.
    pub fn after_wait(kept: Option<bool>, received: Standing) -> (r: Standing)
        ensures
            r == (match kept {
                Some(v) => poisoned_as(received, v),
                None => received,
            }),
    {
        let mut r = received;
        if let Some(v) = kept {
            r.set_poisoned(v);
        }
        r
    }

    /// Whether `amt` bytes may be consumed from the inner reader's buffer: only from a
    /// usable value, except that consuming nothing is always allowed.
    pub fn may_consume(&self, amt: usize) -> (r: bool)
        ensures
            r == (amt == 0 || *self == Standing::Active { poisoned: false }),
    {
        amt == 0 || self.usable()
    }
}

/// Poisoning sticks until cured: once the poison status is set, an instance that holds
/// or waits for the value may not use it, whatever status it had, and a value that
/// arrives after the wait keeps it; curing a held value makes it usable again.
pub proof fn lemma_poison_until_cured(s: Standing, arrived: bool)
    requires
        !(s is Empty),
    ensures
        poisoned_as(s, true) != (Standing::Active { poisoned: false }),
        poisoned_as(Standing::Active { poisoned: arrived }, true) != (Standing::Active {
            poisoned: false,
        }),
        s is Active ==> poisoned_as(poisoned_as(s, true), false) == (Standing::Active {
            poisoned: false,
        }),
{
}

} // verus!
