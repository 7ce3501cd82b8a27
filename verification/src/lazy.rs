//! Deferred activation. Each package that declared lazy conditions owns
//! one registry entry holding its pending triggers' cancel handles and
//! its activation state. The first trigger that fires moves the entry to
//! `Activating` and asks for the shared loader to run exactly once; when
//! the loader has returned, completing the entry hands back every
//! sibling's cancel handle and clears the entry.

pub mod event;

use vstd::prelude::*;

verus! {

/// Where a lazily declared package stands.
pub enum ActivationState {
    /// At least one pending trigger; the loader has not run.
    Registered,
    /// Some trigger fired; the loader is running.
    Activating,
}

/// One package's pending triggers: the cancel handles of every trigger
/// registered for it, and its activation state.
pub struct PackageEntry {
    pub state: ActivationState,
    pub stops: Vec<u64>,
}

/// What a firing trigger must do.
pub enum FireAction {
    /// Run the shared loader, then call `complete`.
    Load,
    /// Another trigger already fired for this package: do nothing.
    Ignore,
}

/// The per-package trigger registry.
pub struct LazyRegistry {
    entries: Vec<(String, PackageEntry)>,
}

/// A registry entry as mathematics: the state and the cancel handles.
pub struct EntryView {
    pub state: ActivationState,
    pub stops: Seq<u64>,
}

pub open spec fn entry_view(e: PackageEntry) -> EntryView {
    EntryView { state: e.state, stops: e.stops@ }
}

pub open spec fn reg_view(m: Seq<(String, PackageEntry)>) -> Seq<(Seq<char>, EntryView)> {
    Seq::new(m.len(), |i: int| (m[i].0@, entry_view(m[i].1)))
}

/// The entry for a package id: the first one that bears it.
pub open spec fn find_entry(m: Seq<(Seq<char>, EntryView)>, id: Seq<char>) -> Option<
    EntryView,
>
    decreases m.len(),
{
    if m.len() == 0 {
        None
    } else if m[0].0 == id {
        Some(m[0].1)
    } else {
        find_entry(m.drop_first(), id)
    }
}

/// The registry with the first entry for `id` replaced by `e`.
pub open spec fn replace_entry(
    m: Seq<(Seq<char>, EntryView)>,
    id: Seq<char>,
    e: EntryView,
) -> Seq<(Seq<char>, EntryView)>
    decreases m.len(),
{
    if m.len() == 0 {
        m
    } else if m[0].0 == id {
        seq![(id, e)] + m.drop_first()
    } else {
        seq![m[0]] + replace_entry(m.drop_first(), id, e)
    }
}

/// The registry without any entry for `id`.
pub open spec fn remove_entry(m: Seq<(Seq<char>, EntryView)>, id: Seq<char>) -> Seq<
    (Seq<char>, EntryView),
>
    decreases m.len(),
{
    if m.len() == 0 {
        m
    } else if m[0].0 == id {
        remove_entry(m.drop_first(), id)
    } else {
        seq![m[0]] + remove_entry(m.drop_first(), id)
    }
}

/// What firing a trigger for `id` does to the registry, and what it asks
/// the caller to do: the first fire loads, every later one is ignored.
pub open spec fn spec_fire(m: Seq<(Seq<char>, EntryView)>, id: Seq<char>) -> (
    Seq<(Seq<char>, EntryView)>,
    FireAction,
) {
    match find_entry(m, id) {
        Some(e) => if e.state is Registered {
            (
                replace_entry(m, id, EntryView { state: ActivationState::Activating, stops: e.stops }),
                FireAction::Load,
            )
        } else {
            (m, FireAction::Ignore)
        },
        None => (m, FireAction::Ignore),
    }
}

/// No two entries bear the same package id.
pub open spec fn unique_ids(m: Seq<(Seq<char>, EntryView)>) -> bool {
    forall|i: int, j: int|
        0 <= i < j < m.len() ==> (#[trigger] m[i]).0 != (#[trigger] m[j]).0
}

/// Replacing the entry at its position is what `replace_entry` does.
proof fn lemma_replace_at(m: Seq<(Seq<char>, EntryView)>, id: Seq<char>, i: int, e: EntryView)
    requires
        0 <= i < m.len(),
        m[i].0 == id,
        forall|j: int| 0 <= j < i ==> (#[trigger] m[j]).0 != id,
    ensures
        replace_entry(m, id, e) == m.update(i, (id, e)),
    decreases i,
{
    if i == 0 {
        assert(replace_entry(m, id, e) =~= m.update(0, (id, e)));
    } else {
        assert(m[0].0 != id);
        let t = m.drop_first();
        assert forall|j: int| 0 <= j < i - 1 implies (#[trigger] t[j]).0 != id by {
            assert(t[j] == m[j + 1]);
        }
        assert(t[i - 1] == m[i]);
        lemma_replace_at(t, id, i - 1, e);
        assert(replace_entry(m, id, e) =~= m.update(i, (id, e)));
    }
}

/// Removing the entry at its position is what `remove_entry` does when
/// ids are unique.
proof fn lemma_remove_at(m: Seq<(Seq<char>, EntryView)>, id: Seq<char>, i: int)
    requires
        0 <= i < m.len(),
        m[i].0 == id,
        forall|j: int| 0 <= j < m.len() && j != i ==> (#[trigger] m[j]).0 != id,
    ensures
        remove_entry(m, id) == m.remove(i),
    decreases m.len(),
{
    if i == 0 {
        let t = m.drop_first();
        assert forall|j: int| 0 <= j < t.len() implies (#[trigger] t[j]).0 != id by {
            assert(t[j] == m[j + 1]);
        }
        lemma_remove_absent(t, id);
        assert(remove_entry(m, id) =~= m.remove(0));
    } else {
        assert(m[0].0 != id);
        let t = m.drop_first();
        assert forall|j: int| 0 <= j < t.len() && j != i - 1 implies (#[trigger] t[j]).0
            != id by {
            assert(t[j] == m[j + 1]);
        }
        assert(t[i - 1] == m[i]);
        lemma_remove_at(t, id, i - 1);
        assert(remove_entry(m, id) =~= m.remove(i));
    }
}

/// Removing an id that no entry bears changes nothing.
proof fn lemma_remove_absent(m: Seq<(Seq<char>, EntryView)>, id: Seq<char>)
    requires
        forall|j: int| 0 <= j < m.len() ==> (#[trigger] m[j]).0 != id,
    ensures
        remove_entry(m, id) == m,
    decreases m.len(),
{
    if m.len() != 0 {
        let t = m.drop_first();
        assert forall|j: int| 0 <= j < t.len() implies (#[trigger] t[j]).0 != id by {
            assert(t[j] == m[j + 1]);
        }
        lemma_remove_absent(t, id);
        assert(remove_entry(m, id) =~= m);
    }
}

proof fn lemma_find_replace(m: Seq<(Seq<char>, EntryView)>, id: Seq<char>, e: EntryView)
    requires
        find_entry(m, id) is Some,
    ensures
        find_entry(replace_entry(m, id, e), id) == Some(e),
    decreases m.len(),
{
    if m.len() == 0 {
    } else if m[0].0 == id {
        let r = replace_entry(m, id, e);
        assert(r[0] == (id, e));
        assert(r.drop_first() =~= m.drop_first());
    } else {
        let r = replace_entry(m, id, e);
        assert(r[0] == m[0]);
        assert(r.drop_first() =~= replace_entry(m.drop_first(), id, e));
        lemma_find_replace(m.drop_first(), id, e);
    }
}

/// A trigger's loader runs at most once: once a fire has asked for the
/// load, every further fire for the same package id is ignored.
pub proof fn lemma_fire_once(m: Seq<(Seq<char>, EntryView)>, id: Seq<char>)
    ensures
        spec_fire(m, id).1 is Load ==> spec_fire(spec_fire(m, id).0, id).1 is Ignore,
{
    if spec_fire(m, id).1 is Load {
        let e = find_entry(m, id)->0;
        lemma_find_replace(
            m,
            id,
            EntryView { state: ActivationState::Activating, stops: e.stops },
        );
    }
}

impl LazyRegistry {
    pub closed spec fn view_of(&self) -> Seq<(Seq<char>, EntryView)> {
        reg_view(self.entries@)
    }

    /// No package id owns more than one entry.
    pub closed spec fn wf(&self) -> bool {
        unique_ids(self.view_of())
    }

    pub fn new() -> (r: LazyRegistry)
        ensures
            r.wf(),
            r.view_of() == Seq::<(Seq<char>, EntryView)>::empty(),
    {
        let r = LazyRegistry { entries: Vec::new() };
        proof {
            assert(r.view_of() =~= Seq::<(Seq<char>, EntryView)>::empty());
        }
        r
    }

    fn position_of(&self, id: &String) -> (r: Option<usize>)
        ensures
            r is Some <==> find_entry(self.view_of(), id@) is Some,
            r matches Some(i) ==> i < self.entries@.len() && self.view_of()[i as int].0
                == id@ && find_entry(self.view_of(), id@) == Some(
                self.view_of()[i as int].1,
            ) && forall|j: int| 0 <= j < i ==> (#[trigger] self.view_of()[j]).0 != id@,
    {
        let ghost mv = self.view_of();
        let n = self.entries.len();
        let mut i: usize = 0;
        proof {
            assert(mv.skip(0) =~= mv);
        }
        while i < n
            invariant
                0 <= i <= n,
                n == self.entries@.len(),
                mv == self.view_of(),
                find_entry(mv, id@) == find_entry(mv.skip(i as int), id@),
                forall|j: int| 0 <= j < i ==> (#[trigger] mv[j]).0 != id@,
            decreases n - i,
        {
            proof {
                assert(mv.skip(i as int)[0] == mv[i as int]);
                assert(mv.skip(i as int).drop_first() =~= mv.skip(i + 1));
            }
            if self.entries[i].0 == *id {
                proof {
                    assert(mv[i as int].0 == id@);
                    assert(find_entry(mv.skip(i as int), id@) == Some(mv[i as int].1));
                }
                return Some(i);
            }
            proof {
                assert(mv[i as int] == (self.entries@[i as int].0@, entry_view(
                    self.entries@[i as int].1,
                )));
            }
            i = i + 1;
        }
        proof {
            assert(mv.skip(n as int) =~= Seq::<(Seq<char>, EntryView)>::empty());
        }
        None
    }

    /// Records one more trigger's cancel handle for a package id. A
    /// package without an entry gets a fresh one in the `Registered`
    /// state; an existing entry keeps its state and gains the handle.
    pub fn register(&mut self, id: &String, stop: u64)
        requires
            old(self).wf(),
        ensures
            final(self).wf(),
            match find_entry(old(self).view_of(), id@) {
                None => final(self).view_of() == old(self).view_of().push(
                    (
                        id@,
                        EntryView {
                            state: ActivationState::Registered,
                            stops: seq![stop],
                        },
                    ),
                ),
                Some(e) => final(self).view_of() == replace_entry(
                    old(self).view_of(),
                    id@,
                    EntryView { state: e.state, stops: e.stops.push(stop) },
                ),
            },
    {
        let ghost pre = self.view_of();
        match self.position_of(id) {
            None => {
                let mut stops: Vec<u64> = Vec::new();
                stops.push(stop);
                let entry = PackageEntry { state: ActivationState::Registered, stops };
                self.entries.push((id.clone(), entry));
                proof {
                    let added = (
                        id@,
                        EntryView {
                            state: ActivationState::Registered,
                            stops: seq![stop],
                        },
                    );
                    assert(self.view_of() =~= pre.push(added));
                    assert forall|i: int, j: int|
                        0 <= i < j < self.view_of().len() implies (
                    #[trigger] self.view_of()[i]).0 != (#[trigger] self.view_of()[j]).0 by {
                        if j < pre.len() {
                            assert(self.view_of()[i] == pre[i] && self.view_of()[j]
                                == pre[j]);
                        } else {
                            assert(self.view_of()[i] == pre[i]);
                            assert(self.view_of()[j].0 == id@);
                            lemma_find_skip_absent(pre, id@, i);
                        }
                    }
                }
            },
            Some(i) => {
                let ghost e = pre[i as int].1;
                let ghost up = EntryView { state: e.state, stops: e.stops.push(stop) };
                self.entries[i].1.stops.push(stop);
                proof {
                    assert(self.view_of() =~= pre.update(i as int, (id@, up)));
                    lemma_replace_at(pre, id@, i as int, up);
                    assert forall|a: int, b: int|
                        0 <= a < b < self.view_of().len() implies (
                    #[trigger] self.view_of()[a]).0 != (#[trigger] self.view_of()[b]).0 by {
                        assert(self.view_of()[a].0 == pre[a].0);
                        assert(self.view_of()[b].0 == pre[b].0);
                    }
                }
            },
        }
    }

    /// Fires a trigger for a package id. The first fire asks for the
    /// loader to run; any further fire, and a fire for an unknown id,
    /// is a no-op.
    pub fn fire(&mut self, id: &String) -> (r: FireAction)
        requires
            old(self).wf(),
        ensures
            final(self).wf(),
            (final(self).view_of(), r) == spec_fire(old(self).view_of(), id@),
    {
        let ghost pre = self.view_of();
        match self.position_of(id) {
            None => FireAction::Ignore,
            Some(i) => {
                let registered = match self.entries[i].1.state {
                    ActivationState::Registered => true,
                    ActivationState::Activating => false,
                };
                proof {
                    assert(pre[i as int] == (self.entries@[i as int].0@, entry_view(
                        self.entries@[i as int].1,
                    )));
                }
                if registered {
                    let ghost e = pre[i as int].1;
                    let ghost up = EntryView {
                        state: ActivationState::Activating,
                        stops: e.stops,
                    };
                    self.entries[i].1.state = ActivationState::Activating;
                    proof {
                        assert(self.view_of() =~= pre.update(i as int, (id@, up)));
                        lemma_replace_at(pre, id@, i as int, up);
                        assert forall|a: int, b: int|
                            0 <= a < b < self.view_of().len() implies (
                        #[trigger] self.view_of()[a]).0 != (#[trigger] self.view_of()[b]).0 by {
                            assert(self.view_of()[a].0 == pre[a].0);
                            assert(self.view_of()[b].0 == pre[b].0);
                        }
                    }
                    FireAction::Load
                } else {
                    FireAction::Ignore
                }
            },
        }
    }

    /// Ends an activation: hands back every sibling trigger's cancel
    /// handle and clears the package's entry. For an id without an
    /// entry there is nothing to cancel.
    pub fn complete(&mut self, id: &String) -> (r: Vec<u64>)
        requires
            old(self).wf(),
        ensures
            final(self).wf(),
            final(self).view_of() == remove_entry(old(self).view_of(), id@),
            match find_entry(old(self).view_of(), id@) {
                None => r@ == Seq::<u64>::empty(),
                Some(e) => r@ == e.stops,
            },
    {
        let ghost pre = self.view_of();
        match self.position_of(id) {
            None => {
                proof {
                    assert forall|j: int| 0 <= j < pre.len() implies (#[trigger] pre[j]).0
                        != id@ by {
                        lemma_find_skip_absent(pre, id@, j);
                    }
                    lemma_remove_absent(pre, id@);
                }
                Vec::new()
            },
            Some(i) => {
                proof {
                    assert forall|j: int|
                        0 <= j < pre.len() && j != i implies (#[trigger] pre[j]).0
                        != id@ by {
                        if j > i as int {
                            assert(pre[i as int].0 == id@);
                        }
                    }
                    lemma_remove_at(pre, id@, i as int);
                }
                let pair = self.entries.remove(i);
                proof {
                    assert(self.view_of() =~= pre.remove(i as int));
                    assert forall|a: int, b: int|
                        0 <= a < b < self.view_of().len() implies (
                    #[trigger] self.view_of()[a]).0 != (#[trigger] self.view_of()[b]).0 by {
                        let pa = if a < i as int { a } else { a + 1 };
                        let pb = if b < i as int { b } else { b + 1 };
                        assert(self.view_of()[a].0 == pre[pa].0);
                        assert(self.view_of()[b].0 == pre[pb].0);
                    }
                    assert(pre[i as int] == (old(self).entries@[i as int].0@, entry_view(
                        old(self).entries@[i as int].1,
                    )));
                }
                pair.1.stops
            },
        }
    }
}

/// A package id that `find_entry` misses is borne by no entry.
proof fn lemma_find_skip_absent(m: Seq<(Seq<char>, EntryView)>, id: Seq<char>, j: int)
    requires
        find_entry(m, id) is None,
        0 <= j < m.len(),
    ensures
        m[j].0 != id,
    decreases m.len(),
{
    if m.len() != 0 {
        if j > 0 {
            assert(m.drop_first()[j - 1] == m[j]);
            lemma_find_skip_absent(m.drop_first(), id, j - 1);
        }
    }
}

} // verus!
