//! The in-memory log shown in the status bar and the log window: it keeps the
//! most recent entries up to a fixed number and forgets older ones.
use vstd::prelude::*;

verus! {

/// The last `max` items of `s` (all of them when there are fewer).
pub open spec fn most_recent<T>(s: Seq<T>, max: nat) -> Seq<T> {
    if s.len() > max {
        s.skip(s.len() - max)
    } else {
        s
    }
}

/// Log entries, oldest first, never more than the buffer's limit.
pub struct LogBuffer<T> {
    entries: Vec<T>,
    max_entries: usize,
}

impl<T> View for LogBuffer<T> {
    type V = Seq<T>;

    closed spec fn view(&self) -> Seq<T> {
        self.entries@
    }
}

/// Keeping the newest entries after each addition is keeping the newest of
/// everything added: adding `entry` to the kept part of `s` keeps what adding
/// it to all of `s` would.
pub proof fn trimming_as_you_go_keeps_the_newest<T>(s: Seq<T>, entry: T, max: nat)
    ensures
        most_recent(most_recent(s, max).push(entry), max) == most_recent(s.push(entry), max),
{
    let all = s.push(entry);
    let kept = most_recent(s, max).push(entry);
    assert(most_recent(kept, max) =~= most_recent(all, max));
}

impl<T> LogBuffer<T> {
    #[verifier::type_invariant]
    spec fn within_limit(&self) -> bool {
        self.entries.len() <= self.max_entries
    }

    /// The most entries the buffer keeps.
    pub closed spec fn limit(&self) -> nat {
        self.max_entries as nat
    }

    /// An empty buffer that keeps at most `max_entries` entries.
    pub fn new(max_entries: usize) -> (b: Self)
        ensures
            b@ == Seq::<T>::empty(),
            b.limit() == max_entries,
    {
        LogBuffer { entries: Vec::new(), max_entries }
    }

    /// Appends `entry` and drops the oldest entries beyond the limit.
    pub fn push(&mut self, entry: T)
        ensures
            final(self)@ == most_recent(old(self)@.push(entry), old(self).limit()),
            final(self).limit() == old(self).limit(),
    {
        proof {
            use_type_invariant(&*self);
        }
        let mut entries = Vec::new();
        std::mem::swap(&mut entries, &mut self.entries);
        let ghost all = entries@.push(entry);
        entries.push(entry);
        if entries.len() > self.max_entries {
            entries.remove(0);
        }
        assert(entries@ =~= most_recent(all, self.max_entries as nat));
        self.entries = entries;
    }

    /// The kept entries, oldest first.
    pub fn entries(&self) -> (r: &Vec<T>)
        ensures
            r@ == self@,
    {
        &self.entries
    }

    /// The newest entry, if any.
    pub fn latest(&self) -> (r: Option<&T>)
        ensures
            r == (if self@.len() == 0 { None } else { Some(&self@.last()) }),
    {
        let n = self.entries.len();
        if n == 0 {
            None
        } else {
            Some(&self.entries[n - 1])
        }
    }

    /// Forgets every entry.
    pub fn clear(&mut self)
        ensures
            final(self)@ == Seq::<T>::empty(),
            final(self).limit() == old(self).limit(),
    {
        self.entries = Vec::new();
    }
}

} // verus!
