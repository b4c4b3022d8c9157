//! Connection registry.
//!
//! A registry tracks the identities of the live peer connections. All
//! mutation goes through `register`, `unregister` and `remove_failed`;
//! `snapshot` and `broadcast_targets` hand out point-in-time copies so that
//! callers never iterate the shared state while it changes. The writes of a
//! broadcast happen outside this crate, against such a snapshot; a failed
//! write is reported back through `remove_failed`, which treats the failing
//! peer as disconnected without disturbing the others.

use vstd::prelude::*;

verus! {

/// Why a registry operation was refused.
#[derive(Debug, Clone, Copy, PartialEq, Eq, Structural)]
pub enum RegistryError {
    /// The registry is shutting down and accepts no new connections.
    RegistryClosed,
}

/// The set of live connection identities, in registration order.
pub struct Registry {
    conns: Vec<u64>,
    closed: bool,
}

/// No identity occurs twice.
pub open spec fn unique(s: Seq<u64>) -> bool {
    forall|i: int, j: int| 0 <= i < j < s.len() ==> s[i] != s[j]
}

/// The identities left after removing `id`, order kept.
pub open spec fn spec_without(ids: Seq<u64>, id: u64) -> Seq<u64>
    decreases ids.len(),
{
    if ids.len() == 0 {
        Seq::empty()
    } else {
        let rest = spec_without(ids.drop_last(), id);
        if ids.last() == id {
            rest
        } else {
            rest.push(ids.last())
        }
    }
}

/// The recipients of a broadcast sent by `from`: everyone registered but the
/// sender itself.
pub open spec fn spec_targets(ids: Seq<u64>, from: u64) -> Seq<u64> {
    spec_without(ids, from)
}

/// The identities left after every member of `failed` is removed, order kept.
pub open spec fn spec_surviving(ids: Seq<u64>, failed: Seq<u64>) -> Seq<u64>
    decreases ids.len(),
{
    if ids.len() == 0 {
        Seq::empty()
    } else {
        let rest = spec_surviving(ids.drop_last(), failed);
        if failed.contains(ids.last()) {
            rest
        } else {
            rest.push(ids.last())
        }
    }
}

/// What `spec_without` holds: exactly the other identities.
pub proof fn lemma_without_contains(ids: Seq<u64>, id: u64, x: u64)
    ensures
        spec_without(ids, id).contains(x) <==> (ids.contains(x) && x != id),
    decreases ids.len(),
{
    if ids.len() == 0 {
    } else {
        let t = ids.drop_last();
        let last = ids.last();
        lemma_without_contains(t, id, x);
        let w = spec_without(ids, id);
        let wt = spec_without(t, id);
        if ids.contains(x) && x != id {
            let i = choose|i: int| 0 <= i < ids.len() && ids[i] == x;
            if i < ids.len() - 1 {
                assert(t[i] == x);
                assert(t.contains(x));
                let j = choose|j: int| 0 <= j < wt.len() && wt[j] == x;
                assert(w[j] == x);
            } else {
                assert(last == x);
                assert(w[w.len() - 1] == x);
            }
            assert(w.contains(x));
        }
        if w.contains(x) {
            let j = choose|j: int| 0 <= j < w.len() && w[j] == x;
            if last == id {
                assert(wt.contains(x));
                let i = choose|i: int| 0 <= i < t.len() && t[i] == x;
                assert(ids[i] == x);
            } else {
                if j < w.len() - 1 {
                    assert(wt[j] == x);
                    assert(wt.contains(x));
                    let i = choose|i: int| 0 <= i < t.len() && t[i] == x;
                    assert(ids[i] == x);
                } else {
                    assert(x == last);
                    assert(ids[ids.len() - 1] == x);
                }
            }
            assert(ids.contains(x) && x != id);
        }
    }
}

/// What `spec_surviving` holds: exactly the identities not removed.
pub proof fn lemma_surviving_contains(ids: Seq<u64>, failed: Seq<u64>, x: u64)
    ensures
        spec_surviving(ids, failed).contains(x) <==> (ids.contains(x) && !failed.contains(x)),
    decreases ids.len(),
{
    if ids.len() == 0 {
    } else {
        let t = ids.drop_last();
        let last = ids.last();
        lemma_surviving_contains(t, failed, x);
        let w = spec_surviving(ids, failed);
        let wt = spec_surviving(t, failed);
        if ids.contains(x) && !failed.contains(x) {
            let i = choose|i: int| 0 <= i < ids.len() && ids[i] == x;
            if i < ids.len() - 1 {
                assert(t[i] == x);
                assert(t.contains(x));
                let j = choose|j: int| 0 <= j < wt.len() && wt[j] == x;
                assert(w[j] == x);
            } else {
                assert(last == x);
                assert(w[w.len() - 1] == x);
            }
            assert(w.contains(x));
        }
        if w.contains(x) {
            let j = choose|j: int| 0 <= j < w.len() && w[j] == x;
            if failed.contains(last) {
                assert(wt.contains(x));
                let i = choose|i: int| 0 <= i < t.len() && t[i] == x;
                assert(ids[i] == x);
            } else {
                if j < w.len() - 1 {
                    assert(wt[j] == x);
                    assert(wt.contains(x));
                    let i = choose|i: int| 0 <= i < t.len() && t[i] == x;
                    assert(ids[i] == x);
                } else {
                    assert(x == last);
                    assert(ids[ids.len() - 1] == x);
                }
            }
            assert(ids.contains(x) && !failed.contains(x));
        }
    }
}

/// Removal keeps a unique sequence unique.
proof fn lemma_without_unique(ids: Seq<u64>, id: u64)
    requires
        unique(ids),
    ensures
        unique(spec_without(ids, id)),
    decreases ids.len(),
{
    if ids.len() == 0 {
    } else {
        let t = ids.drop_last();
        let last = ids.last();
        assert(forall|i: int| 0 <= i < t.len() ==> t[i] == ids[i]);
        lemma_without_unique(t, id);
        let wt = spec_without(t, id);
        if last != id {
            assert forall|i: int| 0 <= i < wt.len() implies wt[i] != last by {
                assert(wt.contains(wt[i]));
                lemma_without_contains(t, id, wt[i]);
                let j = choose|j: int| 0 <= j < t.len() && t[j] == wt[i];
                assert(ids[j] == wt[i]);
            }
        }
    }
}

/// Removing a group keeps a unique sequence unique.
proof fn lemma_surviving_unique(ids: Seq<u64>, failed: Seq<u64>)
    requires
        unique(ids),
    ensures
        unique(spec_surviving(ids, failed)),
    decreases ids.len(),
{
    if ids.len() == 0 {
    } else {
        let t = ids.drop_last();
        let last = ids.last();
        assert(forall|i: int| 0 <= i < t.len() ==> t[i] == ids[i]);
        lemma_surviving_unique(t, failed);
        let wt = spec_surviving(t, failed);
        if !failed.contains(last) {
            assert forall|i: int| 0 <= i < wt.len() implies wt[i] != last by {
                assert(wt.contains(wt[i]));
                lemma_surviving_contains(t, failed, wt[i]);
                let j = choose|j: int| 0 <= j < t.len() && t[j] == wt[i];
                assert(ids[j] == wt[i]);
            }
        }
    }
}

/// Whether `v` holds `x`.
fn vec_contains(v: &Vec<u64>, x: u64) -> (r: bool)
    ensures
        r == v@.contains(x),
{
    let mut i: usize = 0;
    while i < v.len()
        invariant
            i <= v.len(),
            forall|j: int| 0 <= j < i ==> v@[j] != x,
        decreases v.len() - i,
    {
        if v[i] == x {
            return true;
        }
        i = i + 1;
    }
    false
}

impl Registry {
    /// The identities the registry currently holds, in registration order.
    pub closed spec fn ids(self) -> Seq<u64> {
        self.conns@
    }

    /// Whether the registry refuses new registrations.
    pub closed spec fn is_closed(self) -> bool {
        self.closed
    }

    /// Well-formedness: a connection identity is registered at most once.
    pub open spec fn wf(self) -> bool {
        unique(self.ids())
    }

    /// Whether `id` is currently registered.
    pub open spec fn has(self, id: u64) -> bool {
        self.ids().contains(id)
    }

    /// An empty, open registry.
    pub fn new() -> (r: Registry)
        ensures
            r.ids() == Seq::<u64>::empty(),
            !r.is_closed(),
            r.wf(),
    {
        Registry { conns: Vec::new(), closed: false }
    }

    /// Adds a connection. Succeeds whenever the registry is not shutting
    /// down; registering an identity twice leaves the registry unchanged.
    pub fn register(&mut self, id: u64) -> (r: Result<(), RegistryError>)
        requires
            old(self).wf(),
        ensures
            final(self).wf(),
            final(self).is_closed() == old(self).is_closed(),
            old(self).is_closed() ==> r == Err::<(), RegistryError>(RegistryError::RegistryClosed)
                && final(self).ids() == old(self).ids(),
            !old(self).is_closed() ==> r == Ok::<(), RegistryError>(()) && final(self).ids() == (
            if old(self).has(id) {
                old(self).ids()
            } else {
                old(self).ids().push(id)
            }),
    {
        if self.closed {
            return Err(RegistryError::RegistryClosed);
        }
        if !vec_contains(&self.conns, id) {
            proof {
                assert(forall|i: int| 0 <= i < self.conns@.len() ==> self.conns@[i] != id);
            }
            self.conns.push(id);
        }
        Ok(())
    }

    /// Removes `id` if present; removing an absent identity is a no-op, so
    /// the operation is idempotent and never an error.
    pub fn unregister(&mut self, id: u64)
        ensures
            final(self).ids() == spec_without(old(self).ids(), id),
            final(self).is_closed() == old(self).is_closed(),
            old(self).wf() ==> final(self).wf(),
    {
        let mut kept: Vec<u64> = Vec::new();
        let mut i: usize = 0;
        while i < self.conns.len()
            invariant
                i <= self.conns@.len(),
                kept@ == spec_without(self.conns@.subrange(0, i as int), id),
            decreases self.conns.len() - i,
        {
            let c = self.conns[i];
            proof {
                let s = self.conns@.subrange(0, i as int);
                let s1 = self.conns@.subrange(0, i + 1 as int);
                assert(s1 =~= s.push(c));
                assert(s1.drop_last() =~= s);
                assert(s1.last() == c);
            }
            if c != id {
                kept.push(c);
            }
            i = i + 1;
        }
        proof {
            assert(self.conns@.subrange(0, self.conns@.len() as int) =~= self.conns@);
            if old(self).wf() {
                lemma_without_unique(self.conns@, id);
            }
        }
        self.conns = kept;
    }

    /// Marks the registry as shutting down; the connections it holds are
    /// untouched, but `register` refuses from now on.
    pub fn close(&mut self)
        ensures
            final(self).ids() == old(self).ids(),
            final(self).is_closed(),
    {
        self.closed = true;
    }

    /// A consistent point-in-time copy of the registered identities, for
    /// iteration without holding the registry while doing I/O.
    pub fn snapshot(&self) -> (r: Vec<u64>)
        ensures
            r@ == self.ids(),
    {
        let mut r: Vec<u64> = Vec::new();
        let mut i: usize = 0;
        while i < self.conns.len()
            invariant
                i <= self.conns@.len(),
                r@ == self.conns@.subrange(0, i as int),
            decreases self.conns.len() - i,
        {
            r.push(self.conns[i]);
            proof {
                assert(self.conns@.subrange(0, i + 1 as int) =~= self.conns@.subrange(
                    0,
                    i as int,
                ).push(self.conns@[i as int]));
            }
            i = i + 1;
        }
        proof {
            assert(self.conns@.subrange(0, self.conns@.len() as int) =~= self.conns@);
        }
        r
    }

    /// The recipients of a broadcast sent by `from`: every registered
    /// connection except the sender itself, in registration order.
    pub fn broadcast_targets(&self, from: u64) -> (r: Vec<u64>)
        ensures
            r@ == spec_targets(self.ids(), from),
    {
        let mut r: Vec<u64> = Vec::new();
        let mut i: usize = 0;
        while i < self.conns.len()
            invariant
                i <= self.conns@.len(),
                r@ == spec_without(self.conns@.subrange(0, i as int), from),
            decreases self.conns.len() - i,
        {
            let c = self.conns[i];
            proof {
                let s = self.conns@.subrange(0, i as int);
                let s1 = self.conns@.subrange(0, i + 1 as int);
                assert(s1 =~= s.push(c));
                assert(s1.drop_last() =~= s);
                assert(s1.last() == c);
            }
            if c != from {
                r.push(c);
            }
            i = i + 1;
        }
        proof {
            assert(self.conns@.subrange(0, self.conns@.len() as int) =~= self.conns@);
        }
        r
    }

    /// Removes every identity in `failed` — the peers whose broadcast writes
    /// failed — treating each as disconnected. Nobody else is touched.
    pub fn remove_failed(&mut self, failed: &Vec<u64>)
        ensures
            final(self).ids() == spec_surviving(old(self).ids(), failed@),
            final(self).is_closed() == old(self).is_closed(),
            old(self).wf() ==> final(self).wf(),
    {
        let mut kept: Vec<u64> = Vec::new();
        let mut i: usize = 0;
        while i < self.conns.len()
            invariant
                i <= self.conns@.len(),
                kept@ == spec_surviving(self.conns@.subrange(0, i as int), failed@),
            decreases self.conns.len() - i,
        {
            let c = self.conns[i];
            proof {
                let s = self.conns@.subrange(0, i as int);
                let s1 = self.conns@.subrange(0, i + 1 as int);
                assert(s1 =~= s.push(c));
                assert(s1.drop_last() =~= s);
                assert(s1.last() == c);
            }
            if !vec_contains(failed, c) {
                kept.push(c);
            }
            i = i + 1;
        }
        proof {
            assert(self.conns@.subrange(0, self.conns@.len() as int) =~= self.conns@);
            if old(self).wf() {
                lemma_surviving_unique(self.conns@, failed@);
            }
        }
        self.conns = kept;
    }

    /// How many connections are registered.
    pub fn len(&self) -> (r: usize)
        ensures
            r == self.ids().len(),
    {
        self.conns.len()
    }

    /// Whether `id` is registered right now.
    pub fn contains(&self, id: u64) -> (r: bool)
        ensures
            r == self.has(id),
    {
        vec_contains(&self.conns, id)
    }
}

/// Broadcast exclusion: the targets of a broadcast sent by `from` are exactly
/// the registered identities other than `from`, and never `from` itself.
pub proof fn lemma_broadcast_exclusion(ids: Seq<u64>, from: u64)
    ensures
        !spec_targets(ids, from).contains(from),
        forall|id: u64|
            id != from ==> (spec_targets(ids, from).contains(id) <==> ids.contains(id)),
{
    lemma_without_contains(ids, from, from);
    assert forall|id: u64|
        id != from implies (spec_targets(ids, from).contains(id) <==> ids.contains(id)) by {
        lemma_without_contains(ids, from, id);
    }
}

/// Disconnect isolation: when some targets' writes fail during a broadcast
/// sent by `from`, every other target still receives the message, the failed
/// peers are removed, and no later broadcast targets them again.
pub proof fn lemma_disconnect_isolation(ids: Seq<u64>, from: u64, failed: Seq<u64>)
    ensures
        forall|id: u64|
            ids.contains(id) && id != from && !failed.contains(id) ==> spec_surviving(
                spec_targets(ids, from),
                failed,
            ).contains(id),
        forall|id: u64|
            failed.contains(id) ==> !spec_surviving(spec_targets(ids, from), failed).contains(id),
        forall|id: u64| failed.contains(id) ==> !spec_surviving(ids, failed).contains(id),
        forall|id: u64, from2: u64|
            failed.contains(id) ==> !spec_targets(spec_surviving(ids, failed), from2).contains(id),
{
    let targets = spec_targets(ids, from);
    assert forall|id: u64|
        ids.contains(id) && id != from && !failed.contains(id) implies spec_surviving(
        targets,
        failed,
    ).contains(id) by {
        lemma_without_contains(ids, from, id);
        lemma_surviving_contains(targets, failed, id);
    }
    assert forall|id: u64| failed.contains(id) implies !spec_surviving(targets, failed).contains(
        id,
    ) by {
        lemma_surviving_contains(targets, failed, id);
    }
    assert forall|id: u64| failed.contains(id) implies !spec_surviving(ids, failed).contains(
        id,
    ) by {
        lemma_surviving_contains(ids, failed, id);
    }
    assert forall|id: u64, from2: u64| failed.contains(id) implies !spec_targets(
        spec_surviving(ids, failed),
        from2,
    ).contains(id) by {
        lemma_surviving_contains(ids, failed, id);
        lemma_without_contains(spec_surviving(ids, failed), from2, id);
    }
}

/// Idempotent unregister: removing the same identity twice leaves exactly the
/// state that removing it once leaves — and `unregister` raises no error.
pub proof fn lemma_unregister_idempotent(ids: Seq<u64>, id: u64)
    ensures
        spec_without(spec_without(ids, id), id) == spec_without(ids, id),
    decreases ids.len(),
{
    if ids.len() == 0 {
    } else {
        let t = ids.drop_last();
        let last = ids.last();
        lemma_unregister_idempotent(t, id);
        if last != id {
            let wt = spec_without(t, id);
            assert(wt.push(last).drop_last() =~= wt);
            assert(wt.push(last).last() == last);
        }
    }
}

} // verus!
