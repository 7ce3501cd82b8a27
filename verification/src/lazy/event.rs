//! Event-class triggers, and the replay rule that runs after a lazy
//! load: the host finalized its callback list before the trigger ran,
//! so callbacks that the just-loaded package registered for the very
//! event that triggered it must be fired synthetically - and only
//! those.

use vstd::prelude::*;

verus! {

/// A host event callback registration, as plain values: its identifier,
/// its group membership, and a handle standing for the callback itself.
pub struct AutoCommand {
    pub id: Option<i64>,
    pub group: Option<i64>,
    pub callback: u64,
}

/// An event-class trigger: the event names and patterns it watches, and
/// the host registration ids it holds while pending.
pub struct Event {
    pub event: Vec<String>,
    pub pattern: Vec<String>,
    pub autocmd_ids: Vec<i64>,
}

/// What an event trigger asks the host to register: its events and
/// patterns, one-shot.
pub struct AutocmdRequest {
    pub event: Vec<String>,
    pub pattern: Vec<String>,
    pub once: bool,
}

impl Event {
    /// A trigger for the given events. A missing pattern list means
    /// every pattern.
    pub fn new(event: Vec<String>, pattern: Option<Vec<String>>) -> (r: Event)
        ensures
            r.event == event,
            match pattern {
                Some(p) => r.pattern == p,
                None => r.pattern.deep_view() == seq!["*"@],
            },
            r.autocmd_ids@ == Seq::<i64>::empty(),
    {
        let pat = match pattern {
            Some(p) => p,
            None => {
                let mut p: Vec<String> = Vec::new();
                p.push("*".to_owned());
                proof {
                    assert(p.deep_view() =~= seq!["*"@]);
                }
                p
            },
        };
        Event { event, pattern: pat, autocmd_ids: Vec::new() }
    }

    /// What to hand the host to arm this trigger: a one-shot
    /// registration for its events and patterns.
    pub fn start(&self) -> (r: AutocmdRequest)
        ensures
            r.event.deep_view() == self.event.deep_view(),
            r.pattern.deep_view() == self.pattern.deep_view(),
            r.once,
    {
        let mut ev: Vec<String> = Vec::new();
        let mut i: usize = 0;
        while i < self.event.len()
            invariant
                0 <= i <= self.event@.len(),
                ev.deep_view() =~= self.event.deep_view().take(i as int),
            decreases self.event.len() - i,
        {
            let ghost pre = ev;
            ev.push(self.event[i].clone());
            proof {
                crate::text::lemma_vec_string_push_deep_view(pre, ev, self.event@[i as int]);
                assert(ev.deep_view() =~= self.event.deep_view().take(i + 1));
            }
            i = i + 1;
        }
        let mut pat: Vec<String> = Vec::new();
        let mut j: usize = 0;
        while j < self.pattern.len()
            invariant
                0 <= j <= self.pattern@.len(),
                pat.deep_view() =~= self.pattern.deep_view().take(j as int),
            decreases self.pattern.len() - j,
        {
            let ghost pre = pat;
            pat.push(self.pattern[j].clone());
            proof {
                crate::text::lemma_vec_string_push_deep_view(
                    pre,
                    pat,
                    self.pattern@[j as int],
                );
                assert(pat.deep_view() =~= self.pattern.deep_view().take(j + 1));
            }
            j = j + 1;
        }
        proof {
            assert(self.event.deep_view().take(self.event@.len() as int)
                =~= self.event.deep_view());
            assert(self.pattern.deep_view().take(self.pattern@.len() as int)
                =~= self.pattern.deep_view());
        }
        AutocmdRequest { event: ev, pattern: pat, once: true }
    }

    /// Records the host registration id the request came back with.
    pub fn started(&mut self, id: i64)
        ensures
            final(self).autocmd_ids@ == old(self).autocmd_ids@.push(id),
            final(self).event == old(self).event,
            final(self).pattern == old(self).pattern,
    {
        self.autocmd_ids.push(id);
    }

    /// Cancels the trigger: hands back every held registration id for
    /// deletion and forgets them.
    pub fn stop(&mut self) -> (r: Vec<i64>)
        ensures
            r@ == old(self).autocmd_ids@,
            final(self).autocmd_ids@ == Seq::<i64>::empty(),
            final(self).event == old(self).event,
            final(self).pattern == old(self).pattern,
    {
        let mut out: Vec<i64> = Vec::new();
        let mut i: usize = 0;
        while i < self.autocmd_ids.len()
            invariant
                0 <= i <= self.autocmd_ids@.len(),
                self.autocmd_ids@ == old(self).autocmd_ids@,
                self.event == old(self).event,
                self.pattern == old(self).pattern,
                out@ =~= self.autocmd_ids@.take(i as int),
            decreases self.autocmd_ids.len() - i,
        {
            out.push(self.autocmd_ids[i]);
            proof {
                assert(out@ =~= self.autocmd_ids@.take(i + 1));
            }
            i = i + 1;
        }
        proof {
            assert(self.autocmd_ids@.take(self.autocmd_ids@.len() as int)
                =~= self.autocmd_ids@);
        }
        self.autocmd_ids.clear();
        out
    }
}

/// Some callback in `s` carries this identifier.
pub open spec fn contains_id(s: Seq<AutoCommand>, id: i64) -> bool {
    exists|i: int| 0 <= i < s.len() && s[i].id == Some(id)
}

/// Some callback in `s` belongs to this group.
pub open spec fn contains_group(s: Seq<AutoCommand>, g: i64) -> bool {
    exists|i: int| 0 <= i < s.len() && s[i].group == Some(g)
}

/// Some callback in `s` is structurally identical to `a`.
pub open spec fn contains_ac(s: Seq<AutoCommand>, a: AutoCommand) -> bool {
    exists|i: int| 0 <= i < s.len() && s[i] == a
}

/// The callbacks of `after` to fire synthetically, walking `after` in
/// order with the groups already taken so far. A callback is skipped
/// when its identifier was already registered before the load, when its
/// group was seen before the load or is already taken, or when it is
/// structurally identical to a callback seen before the load; a fresh
/// group is taken the moment it is examined, duplicate or not.
pub open spec fn spec_replay_rec(
    before: Seq<AutoCommand>,
    after: Seq<AutoCommand>,
    taken: Set<i64>,
) -> Seq<AutoCommand>
    decreases after.len(),
{
    if after.len() == 0 {
        Seq::<AutoCommand>::empty()
    } else {
        let a = after[0];
        let rest = after.drop_first();
        if (a.id matches Some(i) && contains_id(before, i)) {
            spec_replay_rec(before, rest, taken)
        } else {
            match a.group {
                Some(g) => {
                    if contains_group(before, g) || taken.contains(g) {
                        spec_replay_rec(before, rest, taken)
                    } else {
                        if contains_ac(before, a) {
                            spec_replay_rec(before, rest, taken.insert(g))
                        } else {
                            seq![a] + spec_replay_rec(before, rest, taken.insert(g))
                        }
                    }
                },
                None => {
                    if contains_ac(before, a) {
                        spec_replay_rec(before, rest, taken)
                    } else {
                        seq![a] + spec_replay_rec(before, rest, taken)
                    }
                },
            }
        }
    }
}

/// The callbacks registered during the load that the original event
/// must still reach.
pub open spec fn spec_replay(before: Seq<AutoCommand>, after: Seq<AutoCommand>) -> Seq<
    AutoCommand,
> {
    spec_replay_rec(before, after, Set::<i64>::empty())
}

/// A callback that existed before the load is never replayed, whatever
/// the callback lists are.
pub proof fn lemma_replay_skips_existing(
    before: Seq<AutoCommand>,
    after: Seq<AutoCommand>,
    taken: Set<i64>,
)
    ensures
        forall|j: int|
            0 <= j < spec_replay_rec(before, after, taken).len() ==> !contains_ac(
                before,
                #[trigger] spec_replay_rec(before, after, taken)[j],
            ),
    decreases after.len(),
{
    if after.len() != 0 {
        let a = after[0];
        let rest = after.drop_first();
        lemma_replay_skips_existing(before, rest, taken);
        if a.group is Some {
            lemma_replay_skips_existing(before, rest, taken.insert(a.group->0));
        }
        let res = spec_replay_rec(before, after, taken);
        assert forall|j: int| 0 <= j < res.len() implies !contains_ac(
            before,
            #[trigger] res[j],
        ) by {
            if (a.id matches Some(i) && contains_id(before, i)) {
                assert(res[j] == spec_replay_rec(before, rest, taken)[j]);
            } else {
                match a.group {
                    Some(g) => {
                        if contains_group(before, g) || taken.contains(g) {
                            assert(res[j] == spec_replay_rec(before, rest, taken)[j]);
                        } else {
                            let sub = spec_replay_rec(before, rest, taken.insert(g));
                            if contains_ac(before, a) {
                                assert(res[j] == sub[j]);
                            } else {
                                if j == 0 {
                                    assert(res[0] == a);
                                } else {
                                    assert(res[j] == sub[j - 1]);
                                }
                            }
                        }
                    },
                    None => {
                        let sub = spec_replay_rec(before, rest, taken);
                        if contains_ac(before, a) {
                            assert(res[j] == sub[j]);
                        } else {
                            if j == 0 {
                                assert(res[0] == a);
                            } else {
                                assert(res[j] == sub[j - 1]);
                            }
                        }
                    },
                }
            }
        }
    }
}

/// Each group fires at most one representative: every group taken on
/// entry stays absent from the replayed callbacks.
pub proof fn lemma_replay_one_per_group(
    before: Seq<AutoCommand>,
    after: Seq<AutoCommand>,
    taken: Set<i64>,
    g: i64,
)
    requires
        taken.contains(g),
    ensures
        forall|j: int|
            0 <= j < spec_replay_rec(before, after, taken).len() ==> (
            #[trigger] spec_replay_rec(before, after, taken)[j]).group != Some(g),
    decreases after.len(),
{
    if after.len() != 0 {
        let a = after[0];
        let rest = after.drop_first();
        lemma_replay_one_per_group(before, rest, taken, g);
        if a.group is Some {
            lemma_replay_one_per_group(before, rest, taken.insert(a.group->0), g);
        }
        let res = spec_replay_rec(before, after, taken);
        assert forall|j: int| 0 <= j < res.len() implies (#[trigger] res[j]).group != Some(
            g,
        ) by {
            if (a.id matches Some(i) && contains_id(before, i)) {
                assert(res[j] == spec_replay_rec(before, rest, taken)[j]);
            } else {
                match a.group {
                    Some(h) => {
                        if contains_group(before, h) || taken.contains(h) {
                            assert(res[j] == spec_replay_rec(before, rest, taken)[j]);
                        } else {
                            let sub = spec_replay_rec(before, rest, taken.insert(h));
                            if contains_ac(before, a) {
                                assert(res[j] == sub[j]);
                            } else {
                                if j == 0 {
                                    assert(res[0] == a);
                                    assert(h != g);
                                } else {
                                    assert(res[j] == sub[j - 1]);
                                }
                            }
                        }
                    },
                    None => {
                        let sub = spec_replay_rec(before, rest, taken);
                        if contains_ac(before, a) {
                            assert(res[j] == sub[j]);
                        } else {
                            if j == 0 {
                                assert(res[0] == a);
                            } else {
                                assert(res[j] == sub[j - 1]);
                            }
                        }
                    },
                }
            }
        }
    }
}

/// A genuinely new registration is delivered: a callback of `after`
/// that carries no pre-existing identifier, belongs to no group, and is
/// structurally distinct from every callback seen before the load is
/// among the replayed callbacks.
pub proof fn lemma_replay_delivers_new(
    before: Seq<AutoCommand>,
    after: Seq<AutoCommand>,
    taken: Set<i64>,
    k: int,
)
    requires
        0 <= k < after.len(),
        after[k].id matches Some(i) ==> !contains_id(before, i),
        after[k].group is None,
        !contains_ac(before, after[k]),
    ensures
        spec_replay_rec(before, after, taken).contains(after[k]),
    decreases after.len(),
{
    let a = after[0];
    let rest = after.drop_first();
    if k == 0 {
        let res = spec_replay_rec(before, after, taken);
        assert(res[0] == a);
        assert(res.contains(after[k]));
    } else {
        assert(rest[k - 1] == after[k]);
        if (a.id matches Some(i) && contains_id(before, i)) {
            lemma_replay_delivers_new(before, rest, taken, k - 1);
        } else {
            match a.group {
                Some(g) => {
                    if contains_group(before, g) || taken.contains(g) {
                        lemma_replay_delivers_new(before, rest, taken, k - 1);
                    } else {
                        lemma_replay_delivers_new(before, rest, taken.insert(g), k - 1);
                        if !contains_ac(before, a) {
                            let sub = spec_replay_rec(before, rest, taken.insert(g));
                            let w = choose|w: int|
                                0 <= w < sub.len() && sub[w] == after[k];
                            assert(spec_replay_rec(before, after, taken)[w + 1] == after[k]);
                        }
                    }
                },
                None => {
                    lemma_replay_delivers_new(before, rest, taken, k - 1);
                    if !contains_ac(before, a) {
                        let sub = spec_replay_rec(before, rest, taken);
                        let w = choose|w: int| 0 <= w < sub.len() && sub[w] == after[k];
                        assert(spec_replay_rec(before, after, taken)[w + 1] == after[k]);
                    }
                },
            }
        }
    }
}

fn opt_i64_eq(a: &Option<i64>, b: &Option<i64>) -> (r: bool)
    ensures
        r == (*a == *b),
{
    match (a, b) {
        (None, None) => true,
        (Some(x), Some(y)) => *x == *y,
        _ => false,
    }
}

fn autocmd_eq(a: &AutoCommand, b: &AutoCommand) -> (r: bool)
    ensures
        r == (*a == *b),
{
    opt_i64_eq(&a.id, &b.id) && opt_i64_eq(&a.group, &b.group) && a.callback == b.callback
}

fn list_contains_id(s: &Vec<AutoCommand>, id: i64) -> (r: bool)
    ensures
        r == contains_id(s@, id),
{
    let mut i: usize = 0;
    while i < s.len()
        invariant
            0 <= i <= s@.len(),
            forall|j: int| 0 <= j < i ==> s@[j].id != Some(id),
        decreases s.len() - i,
    {
        if let Some(x) = s[i].id {
            if x == id {
                return true;
            }
        }
        i = i + 1;
    }
    false
}

fn list_contains_group(s: &Vec<AutoCommand>, g: i64) -> (r: bool)
    ensures
        r == contains_group(s@, g),
{
    let mut i: usize = 0;
    while i < s.len()
        invariant
            0 <= i <= s@.len(),
            forall|j: int| 0 <= j < i ==> s@[j].group != Some(g),
        decreases s.len() - i,
    {
        if let Some(x) = s[i].group {
            if x == g {
                return true;
            }
        }
        i = i + 1;
    }
    false
}

fn list_contains_ac(s: &Vec<AutoCommand>, a: &AutoCommand) -> (r: bool)
    ensures
        r == contains_ac(s@, *a),
{
    let mut i: usize = 0;
    while i < s.len()
        invariant
            0 <= i <= s@.len(),
            forall|j: int| 0 <= j < i ==> s@[j] != *a,
        decreases s.len() - i,
    {
        if autocmd_eq(&s[i], a) {
            return true;
        }
        i = i + 1;
    }
    false
}

fn ids_contain(s: &Vec<i64>, g: i64) -> (r: bool)
    ensures
        r == s@.contains(g),
{
    let mut i: usize = 0;
    while i < s.len()
        invariant
            0 <= i <= s@.len(),
            forall|j: int| 0 <= j < i ==> s@[j] != g,
        decreases s.len() - i,
    {
        if s[i] == g {
            return true;
        }
        i = i + 1;
    }
    proof {
        assert(!s@.contains(g));
    }
    false
}

/// The set of groups a list of group ids stands for.
pub open spec fn group_set(s: Seq<i64>) -> Set<i64> {
    Set::new(|g: i64| s.contains(g))
}

/// Decides which callbacks the original event must still be delivered
/// to after a lazy load: exactly those that are new registrations, one
/// representative per fresh group.
pub fn replay_candidates(before: &Vec<AutoCommand>, after: &Vec<AutoCommand>) -> (r: Vec<
    AutoCommand,
>)
    ensures
        r@ == spec_replay(before@, after@),
{
    let mut r: Vec<AutoCommand> = Vec::new();
    let mut taken: Vec<i64> = Vec::new();
    let mut i: usize = 0;
    proof {
        assert(group_set(taken@) =~= Set::<i64>::empty());
        assert(after@.skip(0) =~= after@);
    }
    while i < after.len()
        invariant
            0 <= i <= after@.len(),
            spec_replay(before@, after@) == r@ + spec_replay_rec(
                before@,
                after@.skip(i as int),
                group_set(taken@),
            ),
        decreases after.len() - i,
    {
        proof {
            assert(after@.skip(i as int)[0] == after@[i as int]);
            assert(after@.skip(i as int).drop_first() =~= after@.skip(i + 1));
        }
        let a = &after[i];
        let mut skip = false;
        if let Some(id) = a.id {
            if list_contains_id(before, id) {
                skip = true;
            }
        }
        if !skip {
            match a.group {
                Some(g) => {
                    if list_contains_group(before, g) || ids_contain(&taken, g) {
                    } else {
                        let ghost taken_pre = taken@;
                        taken.push(g);
                        proof {
                            assert(group_set(taken@) =~= group_set(taken_pre).insert(g)) by {
                                assert forall|x: i64|
                                    group_set(taken@).contains(x) == group_set(
                                    taken_pre,
                                ).insert(g).contains(x) by {
                                    if x == g {
                                        assert(taken@.contains(g)) by {
                                            assert(taken@[taken_pre.len() as int] == g);
                                        }
                                    } else {
                                        assert(taken@.contains(x) == taken_pre.contains(x))
                                            by {
                                            if taken_pre.contains(x) {
                                                let w = choose|w: int|
                                                    0 <= w < taken_pre.len()
                                                        && taken_pre[w] == x;
                                                assert(taken@[w] == x);
                                            } else if taken@.contains(x) {
                                                let w = choose|w: int|
                                                    0 <= w < taken@.len() && taken@[w]
                                                        == x;
                                                assert(taken_pre[w] == x);
                                            }
                                        }
                                    }
                                }
                            }
                        }
                        if !list_contains_ac(before, a) {
                            let ghost rpre = r@;
                            let ghost tail = spec_replay_rec(
                                before@,
                                after@.skip(i + 1),
                                group_set(taken@),
                            );
                            r.push(after[i].clone_ac());
                            proof {
                                assert(rpre + (seq![after@[i as int]] + tail) =~= r@
                                    + tail);
                            }
                        }
                    }
                },
                None => {
                    if !list_contains_ac(before, a) {
                        let ghost rpre = r@;
                        let ghost tail = spec_replay_rec(
                            before@,
                            after@.skip(i + 1),
                            group_set(taken@),
                        );
                        r.push(after[i].clone_ac());
                        proof {
                            assert(rpre + (seq![after@[i as int]] + tail) =~= r@ + tail);
                        }
                    }
                },
            }
        }
        i = i + 1;
    }
    proof {
        assert(after@.skip(after@.len() as int) =~= Seq::<AutoCommand>::empty());
        assert(r@ + Seq::<AutoCommand>::empty() =~= r@);
    }
    r
}

impl AutoCommand {
    fn clone_ac(&self) -> (r: AutoCommand)
        ensures
            r == *self,
    {
        AutoCommand { id: self.id, group: self.group, callback: self.callback }
    }
}

} // verus!
