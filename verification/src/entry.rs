//! Stored entries: one typed value together with one expiry state, and the
//! lazy expiry check.

use vstd::prelude::*;
use crate::value::{TypedValue, ValueModel, convert_model, render_model};

verus! {

/// Expiry of an entry: already observed expired, active until an absolute
/// instant (seconds since the Unix epoch), or none.
#[derive(Clone, Copy, PartialEq, Eq, Structural, Debug)]
pub enum ExpiryState {
    Expired,
    Active(i64),
    NoExpiry,
}

/// Mathematical model of an entry.
pub struct EntryModel {
    pub value: ValueModel,
    pub expiry: ExpiryState,
}

/// One stored unit: a typed value and an expiry state.
pub struct Entry {
    pub value: TypedValue,
    pub expiry: ExpiryState,
}

impl View for Entry {
    type V = EntryModel;

    open spec fn view(&self) -> EntryModel {
        EntryModel { value: self.value@, expiry: self.expiry }
    }
}

/// Expiry state after a lazy check at instant `now`: an active expiry
/// strictly older than `now` becomes `Expired`; every other state is kept.
pub open spec fn ttl_state_at(e: ExpiryState, now: i64) -> ExpiryState {
    match e {
        ExpiryState::Active(exp) => if exp < now {
            ExpiryState::Expired
        } else {
            ExpiryState::Active(exp)
        },
        _ => e,
    }
}

/// Relies on `chrono::Utc::now` and `chrono::DateTime::timestamp`: seconds
/// of the current system time since the Unix epoch. Nothing is promised of
/// the value; the call aborts if the system clock is set before the epoch.
#[verifier::external_body]
fn now_ts() -> i64 {
    chrono::Utc::now().timestamp()
}

impl Entry {
    /// Validity: the value respects the classification invariant.
    pub open spec fn wf(&self) -> bool {
        self.value.wf()
    }

    /// A new entry classifies the text and carries no expiry.
    pub fn new(value: &str) -> (e: Entry)
        ensures
            e@.value == convert_model(value@),
            e@.expiry == ExpiryState::NoExpiry,
            e.wf(),
    {
        Entry { value: TypedValue::convert(value), expiry: ExpiryState::NoExpiry }
    }

    /// Canonical text of the stored value.
    pub fn render(&self) -> (s: String)
        ensures
            s@ == render_model(self@.value),
    {
        self.value.render()
    }

    /// A copy equal to this entry.
    pub fn duplicate(&self) -> (r: Entry)
        ensures
            r == *self,
    {
        Entry { value: self.value.duplicate(), expiry: self.expiry }
    }

    /// The same value with expiry set to the given absolute instant.
    pub fn expires_at(self, deadline: i64) -> (e: Entry)
        ensures
            e@.value == self@.value,
            e@.expiry == ExpiryState::Active(deadline),
            e.wf() == self.wf(),
    {
        Entry { value: self.value, expiry: ExpiryState::Active(deadline) }
    }

    /// Expiry set to the instant "now plus the given seconds". The instant
    /// comes from the system clock, which the model leaves open, so the
    /// contract fixes the shape of the result for every possible reading;
    /// `expires_at` carries the exact transition. The sum saturates at the
    /// ends of the 64-bit range.
    pub fn expires_in(self, expiry_time: i64) -> (e: Entry)
        ensures
            e@.value == self@.value,
            e@.expiry is Active,
            e.wf() == self.wf(),
    {
        let now = now_ts();
        let deadline = match now.checked_add(expiry_time) {
            Some(d) => d,
            None => if expiry_time < 0 {
                i64::MIN
            } else {
                i64::MAX
            },
        };
        self.expires_at(deadline)
    }

    /// Lazy expiry check against the given instant: an active expiry older
    /// than `now` is memoized as `Expired`; the resulting state is returned.
    pub fn ttl_at(&mut self, now: i64) -> (r: ExpiryState)
        ensures
            final(self)@.value == old(self)@.value,
            final(self)@.expiry == ttl_state_at(old(self)@.expiry, now),
            r == final(self)@.expiry,
            final(self).wf() == old(self).wf(),
    {
        match self.expiry {
            ExpiryState::Active(exp) => {
                if exp < now {
                    self.expiry = ExpiryState::Expired;
                }
            },
            _ => {},
        }
        self.expiry
    }

    /// Lazy expiry check against the current clock. Which instant the clock
    /// returns is not modeled, so the contract states what holds for every
    /// instant — in particular that `Expired` and `NoExpiry` never change —
    /// while `ttl_at` carries the exact transition.
    pub fn ttl(&mut self) -> (r: ExpiryState)
        ensures
            final(self)@.value == old(self)@.value,
            r == final(self)@.expiry,
            final(self).wf() == old(self).wf(),
            match old(self)@.expiry {
                ExpiryState::NoExpiry => r == ExpiryState::NoExpiry,
                ExpiryState::Expired => r == ExpiryState::Expired,
                ExpiryState::Active(exp) => r == ExpiryState::Active(exp) || r
                    == ExpiryState::Expired,
            },
    {
        let now = now_ts();
        self.ttl_at(now)
    }
}

/// Model of a sequence of stored entries.
pub open spec fn entries_model(s: Seq<Entry>) -> Seq<EntryModel> {
    s.map_values(|e: Entry| e@)
}

/// Every entry of the sequence respects the value classification.
pub open spec fn entries_wf(s: Seq<Entry>) -> bool {
    forall|i: int| 0 <= i < s.len() ==> (#[trigger] s[i]).wf()
}

/// Taking models commutes with reversing a sequence of entries.
pub proof fn lemma_entries_model_reverse(s: Seq<Entry>)
    ensures
        entries_model(s.reverse()) == entries_model(s).reverse(),
{
    assert(entries_model(s.reverse()) =~= entries_model(s).reverse());
}

/// A copy of the entries between the two positions, element for element.
pub fn duplicate_range(v: &Vec<Entry>, from: usize, to: usize) -> (r: Vec<Entry>)
    requires
        from <= to <= v@.len(),
    ensures
        r@ == v@.subrange(from as int, to as int),
{
    let mut out: Vec<Entry> = Vec::new();
    let mut i: usize = from;
    while i < to
        invariant
            from <= i <= to <= v@.len(),
            out@ =~= v@.subrange(from as int, i as int),
        decreases to - i,
    {
        out.push(v[i].duplicate());
        assert(out@ =~= v@.subrange(from as int, i as int + 1));
        i = i + 1;
    }
    out
}

/// A copy of the whole sequence of entries.
pub fn duplicate_entries(v: &Vec<Entry>) -> (r: Vec<Entry>)
    ensures
        r@ == v@,
{
    let r = duplicate_range(v, 0, v.len());
    assert(v@.subrange(0, v@.len() as int) =~= v@);
    r
}

/// A copy of the entries in reverse order.
pub fn reverse_entries(v: &Vec<Entry>) -> (r: Vec<Entry>)
    ensures
        r@ == v@.reverse(),
{
    let mut out: Vec<Entry> = Vec::new();
    let mut i: usize = v.len();
    while i > 0
        invariant
            0 <= i <= v@.len(),
            out@.len() == v@.len() - i,
            forall|j: int| 0 <= j < out@.len() ==> out@[j] == v@[v@.len() - 1 - j],
        decreases i,
    {
        i = i - 1;
        out.push(v[i].duplicate());
    }
    assert(out@ =~= v@.reverse());
    out
}

} // verus!
