use vstd::prelude::*;

use crate::worker::{is_failure, lemma_signal_once, run_phases, WorkerEvent, WorkerPhase};

verus! {

/// The items of `s` whose flag in `flags` (by position) equals `want`, in order.
pub open spec fn select<A>(s: Seq<A>, flags: Seq<bool>, want: bool) -> Seq<A>
    decreases s.len(),
{
    if s.len() == 0 {
        Seq::empty()
    } else {
        let p = select(s.drop_last(), flags, want);
        if flags[s.len() - 1] == want {
            p.push(s.last())
        } else {
            p
        }
    }
}

/// The identities of a list of entries, in order.
pub open spec fn ids_of<H>(es: Seq<(String, H)>) -> Seq<Seq<char>> {
    Seq::new(es.len(), |i: int| es[i].0@)
}

/// No identity appears twice.
pub open spec fn unique_ids<H>(es: Seq<(String, H)>) -> bool {
    forall|i: int, j: int| 0 <= i < j < es.len() ==> es[i].0@ != es[j].0@
}

/// The controllers that currently have a running worker: each identity (the
/// controller's location) with the handle that tells when its worker ended.
pub struct ActiveDevices<H> {
    entries: Vec<(String, H)>,
}

proof fn lemma_select_in<H>(s: Seq<(String, H)>, flags: Seq<bool>, want: bool)
    ensures
        select(s, flags, want).len() <= s.len(),
        forall|k: int|
            0 <= k < select(s, flags, want).len() ==> exists|i: int|
                0 <= i < s.len() && #[trigger] select(s, flags, want)[k] == s[i],
    decreases s.len(),
{
    if s.len() > 0 {
        let t = s.drop_last();
        lemma_select_in(t, flags, want);
        let p = select(t, flags, want);
        assert forall|k: int| 0 <= k < select(s, flags, want).len() implies exists|i: int|
            0 <= i < s.len() && #[trigger] select(s, flags, want)[k] == s[i] by {
            if k < p.len() {
                let i = choose|i: int| 0 <= i < t.len() && p[k] == t[i];
                assert(select(s, flags, want)[k] == s[i]);
            } else {
                assert(select(s, flags, want)[k] == s[s.len() - 1]);
            }
        }
    }
}

proof fn lemma_select_unique<H>(s: Seq<(String, H)>, flags: Seq<bool>, want: bool)
    requires
        unique_ids(s),
    ensures
        unique_ids(select(s, flags, want)),
    decreases s.len(),
{
    if s.len() > 0 {
        let t = s.drop_last();
        assert(unique_ids(t)) by {
            assert forall|i: int, j: int| 0 <= i < j < t.len() implies t[i].0@ != t[j].0@ by {
                assert(t[i] == s[i] && t[j] == s[j]);
            }
        }
        lemma_select_unique(t, flags, want);
        lemma_select_in(t, flags, want);
        let p = select(t, flags, want);
        let r = select(s, flags, want);
        if flags[s.len() - 1] == want {
            assert forall|i: int, j: int| 0 <= i < j < r.len() implies r[i].0@ != r[j].0@ by {
                if j == p.len() {
                    let k = choose|k: int| 0 <= k < t.len() && #[trigger] p[i] == t[k];
                    assert(p[i] == s[k]);
                    assert(r[j] == s[s.len() - 1]);
                } else {
                    assert(r[i] == p[i] && r[j] == p[j]);
                }
            }
        }
    }
}

/// Once an entry's worker has signalled, eviction leaves no entry with its
/// identity, and every entry whose worker has not signalled stays.
pub proof fn lemma_evicted_absent<H>(es: Seq<(String, H)>, flags: Seq<bool>, i: int)
    requires
        unique_ids(es),
        flags.len() >= es.len(),
        0 <= i < es.len(),
    ensures
        flags[i] ==> !ids_of(select(es, flags, false)).contains(es[i].0@),
        !flags[i] ==> ids_of(select(es, flags, false)).contains(es[i].0@),
    decreases es.len(),
{
    let t = es.drop_last();
    assert(unique_ids(t)) by {
        assert forall|a: int, b: int| 0 <= a < b < t.len() implies t[a].0@ != t[b].0@ by {
            assert(t[a] == es[a] && t[b] == es[b]);
        }
    }
    let p = select(t, flags, false);
    let r = select(es, flags, false);
    lemma_select_in(t, flags, false);
    if i < es.len() - 1 {
        lemma_evicted_absent(t, flags, i);
        assert(t[i] == es[i]);
        if flags[i] {
            if ids_of(r).contains(es[i].0@) {
                let k = choose|k: int| 0 <= k < ids_of(r).len() && ids_of(r)[k] == es[i].0@;
                if k < p.len() {
                    assert(ids_of(p)[k] == es[i].0@);
                } else {
                    assert(r[k] == es[es.len() - 1]);
                }
            }
        } else {
            let k = choose|k: int| 0 <= k < ids_of(p).len() && ids_of(p)[k] == es[i].0@;
            assert(ids_of(r)[k] == es[i].0@);
        }
    } else {
        if flags[i] {
            if ids_of(r).contains(es[i].0@) {
                let k = choose|k: int| 0 <= k < ids_of(r).len() && ids_of(r)[k] == es[i].0@;
                assert(r[k] == p[k]);
                let j = choose|j: int| 0 <= j < t.len() && #[trigger] p[k] == t[j];
                assert(t[j] == es[j]);
            }
        } else {
            assert(ids_of(r)[p.len() as int] == es[i].0@);
        }
    }
}

/// Device loss: once a worker started in `Init` meets any failure (an init or
/// command failure, or its input closing), it has sent its completion signal
/// exactly once, and evicting the entries whose workers signalled leaves no
/// entry for that worker's identity.
pub proof fn lemma_device_loss<H>(
    es: Seq<(String, H)>,
    flags: Seq<bool>,
    i: int,
    events: Seq<WorkerEvent>,
)
    requires
        unique_ids(es),
        flags.len() == es.len(),
        0 <= i < es.len(),
        exists|k: int| 0 <= k < events.len() && is_failure(#[trigger] events[k]),
        flags[i] == (run_phases(WorkerPhase::Init, events).1 > 0),
    ensures
        run_phases(WorkerPhase::Init, events) == (WorkerPhase::Done, 1nat),
        !ids_of(select(es, flags, false)).contains(es[i].0@),
{
    lemma_signal_once(WorkerPhase::Init, events);
    lemma_evicted_absent(es, flags, i);
}

impl<H> ActiveDevices<H> {
    /// The entries, in the order they were added.
    pub closed spec fn entries(&self) -> Seq<(String, H)> {
        self.entries@
    }

    /// The identities of the entries, in the order they were added.
    pub open spec fn ids(&self) -> Seq<Seq<char>> {
        ids_of(self.entries())
    }

    /// One entry per identity at most.
    pub open spec fn wf(&self) -> bool {
        unique_ids(self.entries())
    }

    pub fn new() -> (r: ActiveDevices<H>)
        ensures
            r.wf(),
            r.entries().len() == 0,
    {
        ActiveDevices { entries: Vec::new() }
    }

    pub fn len(&self) -> (n: usize)
        ensures
            n == self.entries().len(),
    {
        self.entries.len()
    }

    /// The identity of entry `i`.
    pub fn id(&self, i: usize) -> (r: &String)
        requires
            i < self.entries().len(),
        ensures
            *r == self.entries()[i as int].0,
    {
        &self.entries[i].0
    }

    /// The handle of entry `i`.
    pub fn handle(&self, i: usize) -> (r: &H)
        requires
            i < self.entries().len(),
        ensures
            *r == self.entries()[i as int].1,
    {
        &self.entries[i].1
    }

    /// The position of the entry for `id`, if there is one.
    pub fn position(&self, id: &String) -> (r: Option<usize>)
        ensures
            match r {
                Some(i) => i < self.entries().len() && self.entries()[i as int].0@ == id@,
                None => !self.ids().contains(id@),
            },
    {
        let mut i: usize = 0;
        while i < self.entries.len()
            invariant
                i <= self.entries@.len(),
                forall|k: int| 0 <= k < i ==> self.entries@[k].0@ != id@,
            decreases self.entries@.len() - i,
        {
            if self.entries[i].0 == *id {
                return Some(i);
            }
            i = i + 1;
        }
        assert(!self.ids().contains(id@)) by {
            if self.ids().contains(id@) {
                let k = choose|k: int| 0 <= k < self.ids().len() && self.ids()[k] == id@;
                assert(self.entries@[k].0@ == id@);
            }
        }
        None
    }

    /// Whether `id` has an entry.
    pub fn contains(&self, id: &String) -> (r: bool)
        ensures
            r == self.ids().contains(id@),
    {
        match self.position(id) {
            Some(i) => {
                assert(self.ids()[i as int] == id@);
                true
            },
            None => false,
        }
    }

    /// The positions in `locations` of the controllers that have no entry yet,
    /// in increasing order: those a poll should try to start a worker for.
    pub fn unclaimed(&self, locations: &Vec<String>) -> (r: Vec<usize>)
        ensures
            forall|k: int| 0 <= k < r@.len() ==> #[trigger] r@[k] < locations@.len(),
            forall|a: int, b: int| 0 <= a < b < r@.len() ==> r@[a] < r@[b],
            forall|j: int|
                0 <= j < locations@.len() ==> (r@.contains(j as usize) <==> !self.ids().contains(
                    #[trigger] locations@[j]@,
                )),
    {
        let mut r: Vec<usize> = Vec::new();
        let mut j: usize = 0;
        while j < locations.len()
            invariant
                j <= locations@.len(),
                forall|k: int| 0 <= k < r@.len() ==> #[trigger] r@[k] < j,
                forall|a: int, b: int| 0 <= a < b < r@.len() ==> r@[a] < r@[b],
                forall|x: int|
                    0 <= x < j ==> (r@.contains(x as usize) <==> !self.ids().contains(
                        #[trigger] locations@[x]@,
                    )),
            decreases locations@.len() - j,
        {
            let ghost before = r@;
            if !self.contains(&locations[j]) {
                r.push(j);
                assert forall|x: int| 0 <= x < j implies (r@.contains(x as usize) <==> #[trigger] before.contains(x as usize)) by {
                    if before.contains(x as usize) {
                        let k = choose|k: int| 0 <= k < before.len() && before[k] == x as usize;
                        assert(r@[k] == x as usize);
                    }
                }
                assert(r@[before.len() as int] == j);
            } else {
                assert(!r@.contains(j));
            }
            j = j + 1;
        }
        r
    }

    /// Registers a started worker. An identity that already has an entry keeps
    /// its place and takes the new handle.
    pub fn insert(&mut self, id: String, handle: H)
        requires
            old(self).wf(),
        ensures
            final(self).wf(),
            old(self).ids().contains(id@) ==> exists|i: int|
                0 <= i < old(self).entries().len() && old(self).entries()[i].0@ == id@
                    && final(self).entries() == old(self).entries().update(i, (id, handle)),
            !old(self).ids().contains(id@) ==> final(self).entries() == old(self).entries().push(
                (id, handle),
            ),
    {
        match self.position(&id) {
            Some(i) => {
                assert(old(self).ids()[i as int] == id@);
                self.entries.set(i, (id, handle));
                assert(self.wf()) by {
                    assert forall|a: int, b: int|
                        0 <= a < b < self.entries@.len() implies self.entries@[a].0@
                        != self.entries@[b].0@ by {
                        if a != i && b != i {
                            assert(self.entries@[a] == old(self).entries@[a]);
                            assert(self.entries@[b] == old(self).entries@[b]);
                        }
                    }
                }
            },
            None => {
                self.entries.push((id, handle));
                assert(self.wf()) by {
                    assert forall|a: int, b: int|
                        0 <= a < b < self.entries@.len() implies self.entries@[a].0@
                        != self.entries@[b].0@ by {
                        if b == self.entries@.len() - 1 {
                            assert(old(self).ids()[a] == self.entries@[a].0@);
                        }
                    }
                }
            },
        }
    }

    /// Drops every entry whose worker has signalled that it ended
    /// (`signaled[i]` for entry `i`), keeping the others in order, and returns
    /// the identities dropped, in order.
    pub fn evict(&mut self, signaled: &Vec<bool>) -> (r: Vec<String>)
        requires
            old(self).wf(),
            signaled@.len() == old(self).entries().len(),
        ensures
            final(self).wf(),
            final(self).entries() == select(old(self).entries(), signaled@, false),
            Seq::new(r@.len(), |k: int| r@[k]@) == ids_of(
                select(old(self).entries(), signaled@, true),
            ),
    {
        let ghost start = self.entries@;
        let n = self.entries.len();
        let mut removed: Vec<String> = Vec::new();
        let mut i: usize = 0;
        let mut j: usize = 0;
        assert(start.take(0) =~= Seq::<(String, H)>::empty());
        assert(self.entries@ =~= start.skip(0));
        while i < n
            invariant
                j <= i <= n,
                n == start.len(),
                signaled@.len() == n,
                j == select(start.take(i as int), signaled@, false).len(),
                self.entries@ == select(start.take(i as int), signaled@, false) + start.skip(
                    i as int,
                ),
                Seq::new(removed@.len(), |k: int| removed@[k]@) == ids_of(
                    select(start.take(i as int), signaled@, true),
                ),
            decreases n - i,
        {
            let ghost t = start.take(i + 1);
            assert(t.drop_last() =~= start.take(i as int));
            assert(t.last() == start[i as int]);
            assert(self.entries@[j as int] == start[i as int]);
            if signaled[i] {
                let ghost before = removed@;
                let (id, _h) = self.entries.remove(j);
                assert(id == start[i as int].0);
                removed.push(id);
                let ghost prev_sel = select(start.take(i as int), signaled@, true);
                assert(select(t, signaled@, true) == prev_sel.push(start[i as int]));
                assert(ids_of(select(t, signaled@, true)) =~= ids_of(prev_sel).push(
                    start[i as int].0@,
                ));
                assert(Seq::new(before.len(), |k: int| before[k]@) == ids_of(prev_sel));
                assert(Seq::new(removed@.len(), |k: int| removed@[k]@) =~= Seq::new(
                    before.len(),
                    |k: int| before[k]@,
                ).push(start[i as int].0@));
                assert(self.entries@ =~= select(t, signaled@, false) + start.skip(i + 1));
            } else {
                j = j + 1;
                assert(self.entries@ =~= select(t, signaled@, false) + start.skip(i + 1));
            }
            i = i + 1;
        }
        assert(start.take(n as int) =~= start);
        assert(self.entries@ =~= select(start, signaled@, false));
        proof {
            lemma_select_unique(start, signaled@, false);
        }
        removed
    }
}

} // verus!
