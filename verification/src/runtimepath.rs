//! The ordered search-path accumulator. A `RuntimePath` is one ordered list
//! of path entries, partitioned into a *primary* region and an *overlay*
//! region; overlay entries are conventionally loaded after every primary
//! entry has been processed.
//!
//! ```text
//! &rtp = /foo/bar , /baz/foobar , /foo/bar/after , /baz/foobar/after
//!       |______________________|____________________________________|
//!        primary                overlay
//! ```

use vstd::prelude::*;
use vstd::string::StrSliceExecFns;
use vstd::string::StringExecFns;

use crate::OPT_SEP;
use crate::text::has_suffix;
use crate::text::is_suffix_of;
use crate::text::join_with;
use crate::text::push_char;
use crate::text::spec_join;
use crate::text::spec_split;
use crate::text::split_on;
use crate::text::str_eq;

verus! {

/// A structure to manage the editor's search path option.
pub struct RuntimePath {
    entries: Vec<String>,
    /// Number of leading entries that form the primary region.
    split: usize,
}

/// An entry that belongs to the overlay region when parsed back from the
/// serialized option value.
pub open spec fn is_after_entry(e: Seq<char>) -> bool {
    is_suffix_of("/after"@, e) || is_suffix_of("\\after"@, e)
}

/// Index of the first overlay-looking entry, or the length when none is.
pub open spec fn spec_first_after(entries: Seq<Seq<char>>) -> int
    decreases entries.len(),
{
    if entries.len() == 0 {
        0
    } else if is_after_entry(entries[0]) {
        0
    } else {
        1 + spec_first_after(entries.drop_first())
    }
}

proof fn lemma_first_after_at(entries: Seq<Seq<char>>, i: int)
    requires
        0 <= i <= entries.len(),
        forall|j: int| 0 <= j < i ==> !is_after_entry(entries[j]),
        i < entries.len() ==> is_after_entry(entries[i]),
    ensures
        spec_first_after(entries) == i,
    decreases i,
{
    if i == 0 {
    } else {
        assert(!is_after_entry(entries[0]));
        let rest = entries.drop_first();
        assert forall|j: int| 0 <= j < i - 1 implies !is_after_entry(rest[j]) by {
            assert(rest[j] == entries[j + 1]);
        }
        assert(i - 1 < rest.len() ==> is_after_entry(rest[i - 1]));
        lemma_first_after_at(rest, i - 1);
    }
}

impl RuntimePath {
    /// The two-region split is within bounds.
    pub closed spec fn wf(&self) -> bool {
        self.split <= self.entries@.len()
    }

    /// Every entry, primary region first.
    pub closed spec fn entries_view(&self) -> Seq<Seq<char>> {
        self.entries.deep_view()
    }

    /// The entries of the primary region, in order.
    pub closed spec fn primary(&self) -> Seq<Seq<char>> {
        self.entries.deep_view().take(self.split as int)
    }

    /// The entries of the overlay region, in order.
    pub closed spec fn overlay(&self) -> Seq<Seq<char>> {
        self.entries.deep_view().skip(self.split as int)
    }

    pub proof fn lemma_regions(&self)
        requires
            self.wf(),
        ensures
            self.entries_view() == self.primary() + self.overlay(),
            self.primary().len() == self.split_idx(),
            self.primary() == self.entries_view().take(self.split_idx()),
            self.overlay() == self.entries_view().skip(self.split_idx()),
    {
        assert(self.entries_view() =~= self.primary() + self.overlay());
    }

    /// Number of entries in the primary region.
    pub closed spec fn split_idx(&self) -> int {
        self.split as int
    }

    /// An empty accumulator: no entries in either region.
    pub fn new_empty() -> (r: Self)
        ensures
            r.wf(),
            r.entries_view() == Seq::<Seq<char>>::empty(),
            r.primary() == Seq::<Seq<char>>::empty(),
            r.overlay() == Seq::<Seq<char>>::empty(),
            r.split_idx() == 0,
    {
        let r = RuntimePath { entries: Vec::new(), split: 0 };
        proof {
            assert(r.entries_view() =~= Seq::<Seq<char>>::empty());
            assert(r.primary() =~= Seq::<Seq<char>>::empty());
            assert(r.overlay() =~= Seq::<Seq<char>>::empty());
        }
        r
    }

    /// Parses the serialized option value. Entries are cut at the
    /// separator; the primary region ends at the first entry that looks
    /// like an overlay directory.
    pub fn new(rtp: &str) -> (r: Self)
        ensures
            r.wf(),
            rtp@.len() == 0 ==> r.entries_view() == Seq::<Seq<char>>::empty(),
            rtp@.len() > 0 ==> r.entries_view() == spec_split(rtp@, OPT_SEP),
            r.split_idx() == spec_first_after(r.entries_view()),
    {
        if rtp.unicode_len() == 0 {
            return Self::new_empty();
        }
        let entries = split_on(rtp, OPT_SEP);
        let mut split: usize = 0;
        let mut found = false;
        let n = entries.len();
        while !found && split < n
            invariant
                0 <= split <= n,
                n == entries@.len(),
                forall|j: int| 0 <= j < split ==> !is_after_entry(entries.deep_view()[j]),
                found ==> split < n && is_after_entry(entries.deep_view()[split as int]),
            decreases n - split + (if found {
                0int
            } else {
                1int
            }),
        {
            let e = &entries[split];
            if has_suffix(e.as_str(), "/after") || has_suffix(e.as_str(), "\\after") {
                found = true;
            } else {
                assert(!is_after_entry(entries.deep_view()[split as int]));
                split = split + 1;
            }
        }
        proof {
            lemma_first_after_at(entries.deep_view(), split as int);
        }
        RuntimePath { entries, split }
    }

    /// Inserts a non-empty entry: ahead of the primary region, or at the
    /// very end of the overlay region. An empty entry is never inserted.
    pub fn push(&mut self, path: &str, after: bool)
        requires
            old(self).wf(),
        ensures
            final(self).wf(),
            path@.len() == 0 ==> final(self).primary() == old(self).primary()
                && final(self).overlay() == old(self).overlay(),
            path@.len() > 0 && !after ==> final(self).primary() == seq![path@]
                + old(self).primary() && final(self).overlay() == old(self).overlay(),
            path@.len() > 0 && after ==> final(self).primary() == old(self).primary()
                && final(self).overlay() == old(self).overlay().push(path@),
    {
        if path.unicode_len() == 0 {
            return ;
        }
        if after {
            let ghost pre = *self;
            self.entries.push(path.to_owned());
            proof {
                assert(self.primary() =~= pre.primary());
                assert(self.overlay() =~= pre.overlay().push(path@));
            }
        } else {
            let ghost pre = *self;
            self.entries.insert(0, path.to_owned());
            let m = self.entries.len();
            assert(self.split < m);
            self.split = self.split + 1;
            proof {
                assert(self.primary() =~= seq![path@] + pre.primary());
                assert(self.overlay() =~= pre.overlay());
            }
        }
    }

    /// Merges another accumulator into this one: the other's primary
    /// entries take priority (they go ahead of ours), and its overlay
    /// entries run last (they go after ours).
    pub fn merge(&mut self, other: &RuntimePath)
        requires
            old(self).wf(),
            other.wf(),
        ensures
            final(self).wf(),
            final(self).primary() == other.primary() + old(self).primary(),
            final(self).overlay() == old(self).overlay() + other.overlay(),
    {
        let ghost pre = *self;
        let mut merged: Vec<String> = Vec::new();
        let mut i: usize = 0;
        while i < other.split
            invariant
                other.wf(),
                0 <= i <= other.split,
                merged.deep_view() =~= other.entries.deep_view().take(i as int),
            decreases other.split - i,
        {
            let ghost m0 = merged;
            merged.push(other.entries[i].clone());
            proof {
                crate::text::lemma_vec_string_push_deep_view(m0, merged, other.entries@[i as int]);
                assert(merged.deep_view() =~= other.entries.deep_view().take(i + 1));
            }
            i = i + 1;
        }
        let mut j: usize = 0;
        while j < self.entries.len()
            invariant
                other.wf(),
                0 <= j <= self.entries@.len(),
                *self == pre,
                merged.deep_view() =~= other.entries.deep_view().take(other.split as int)
                    + self.entries.deep_view().take(j as int),
            decreases self.entries.len() - j,
        {
            let ghost m0 = merged;
            merged.push(self.entries[j].clone());
            proof {
                crate::text::lemma_vec_string_push_deep_view(m0, merged, self.entries@[j as int]);
                assert(merged.deep_view() =~= other.entries.deep_view().take(other.split as int)
                    + self.entries.deep_view().take(j + 1));
            }
            j = j + 1;
        }
        let mut k: usize = other.split;
        while k < other.entries.len()
            invariant
                other.wf(),
                other.split <= k <= other.entries@.len(),
                *self == pre,
                merged.deep_view() =~= other.entries.deep_view().take(other.split as int)
                    + self.entries.deep_view() + other.entries.deep_view().subrange(
                    other.split as int,
                    k as int,
                ),
            decreases other.entries.len() - k,
        {
            let ghost m0 = merged;
            merged.push(other.entries[k].clone());
            proof {
                crate::text::lemma_vec_string_push_deep_view(m0, merged, other.entries@[k as int]);
                assert(merged.deep_view() =~= other.entries.deep_view().take(other.split as int)
                    + self.entries.deep_view() + other.entries.deep_view().subrange(
                    other.split as int,
                    k + 1,
                ));
            }
            k = k + 1;
        }
        let total = merged.len();
        proof {
            assert(merged.deep_view().len() == total);
            assert(other.split + self.split <= total);
        }
        let new_split = other.split + self.split;
        self.entries = merged;
        self.split = new_split;
        proof {
            assert(other.entries.deep_view().take(other.split as int) == other.primary());
            assert(other.entries.deep_view().subrange(
                other.split as int,
                other.entries@.len() as int,
            ) =~= other.overlay());
            assert(self.primary() =~= other.primary() + pre.primary());
            assert(self.overlay() =~= pre.overlay() + other.overlay());
        }
    }

    /// The serialized option value: every entry in order, separated.
    pub fn render(&self) -> (r: String)
        ensures
            r@ == spec_join(self.entries_view(), OPT_SEP),
    {
        join_with(&self.entries, OPT_SEP)
    }

    /// Character position where the overlay region starts in the
    /// serialized form (just before its leading separator).
    pub fn split_pos(&self) -> (r: usize)
        requires
            self.wf(),
        ensures
            r as nat == spec_join(self.primary(), OPT_SEP).len(),
    {
        let mut prim: Vec<String> = Vec::new();
        let mut i: usize = 0;
        while i < self.split
            invariant
                self.wf(),
                0 <= i <= self.split,
                prim.deep_view() =~= self.entries.deep_view().take(i as int),
            decreases self.split - i,
        {
            let ghost m0 = prim;
            prim.push(self.entries[i].clone());
            proof {
                crate::text::lemma_vec_string_push_deep_view(m0, prim, self.entries@[i as int]);
                assert(prim.deep_view() =~= self.entries.deep_view().take(i + 1));
            }
            i = i + 1;
        }
        let joined = join_with(&prim, OPT_SEP);
        joined.as_str().unicode_len()
    }

    /// Rebuilds an accumulator from its entries and region boundary, as
    /// read back from a persisted image. A boundary past the end is
    /// rejected.
    pub fn from_parts(entries: Vec<String>, split: usize) -> (r: Option<RuntimePath>)
        ensures
            r is Some <==> split <= entries@.len(),
            r matches Some(rp) ==> rp.wf() && rp.entries_view() == entries.deep_view()
                && rp.split_idx() == split as int,
    {
        if split <= entries.len() {
            Some(RuntimePath { entries, split })
        } else {
            None
        }
    }

    /// Number of entries in the primary region.
    pub fn split_len(&self) -> (r: usize)
        ensures
            r as int == self.split_idx(),
    {
        self.split
    }

    /// Every entry in order, primary region first.
    pub fn entries(&self) -> (r: Vec<String>)
        ensures
            r.deep_view() == self.entries_view(),
    {
        let mut r: Vec<String> = Vec::new();
        let mut i: usize = 0;
        while i < self.entries.len()
            invariant
                0 <= i <= self.entries@.len(),
                r.deep_view() =~= self.entries.deep_view().take(i as int),
            decreases self.entries.len() - i,
        {
            let ghost m0 = r;
            r.push(self.entries[i].clone());
            proof {
                crate::text::lemma_vec_string_push_deep_view(m0, r, self.entries@[i as int]);
                assert(r.deep_view() =~= self.entries.deep_view().take(i + 1));
            }
            i = i + 1;
        }
        proof {
            assert(self.entries.deep_view().take(self.entries@.len() as int)
                =~= self.entries_view());
        }
        r
    }
}

impl Clone for RuntimePath {
    fn clone(&self) -> (r: Self)
        ensures
            r.wf() == self.wf(),
            r.entries_view() == self.entries_view(),
            r.primary() == self.primary(),
            r.overlay() == self.overlay(),
            r.split_idx() == self.split_idx(),
    {
        let e = self.entries();
        let r = RuntimePath { entries: e, split: self.split };
        proof {
            assert(r.primary() =~= self.primary());
            assert(r.overlay() =~= self.overlay());
        }
        r
    }
}

impl Default for RuntimePath {
    fn default() -> (r: Self)
        ensures
            r.wf(),
            r.primary() == Seq::<Seq<char>>::empty(),
            r.overlay() == Seq::<Seq<char>>::empty(),
    {
        Self::new_empty()
    }
}

/// A separator as the path logic sees it: backslashes count as slashes.
pub open spec fn norm_sep_char(c: char) -> char {
    if c == '\\' {
        '/'
    } else {
        c
    }
}

pub open spec fn norm_seps(s: Seq<char>) -> Seq<char> {
    s.map_values(|c: char| norm_sep_char(c))
}

/// Rewrites every backslash to a slash so that one separator remains.
fn normalize_seps(s: &str) -> (r: String)
    ensures
        r@ == norm_seps(s@),
{
    let n = s.unicode_len();
    let mut r = String::new();
    let mut i: usize = 0;
    while i < n
        invariant
            0 <= i <= n,
            n == s@.len(),
            r@ =~= norm_seps(s@).take(i as int),
        decreases n - i,
    {
        let c = s.get_char(i);
        if c == '\\' {
            push_char(&mut r, '/');
        } else {
            push_char(&mut r, c);
        }
        proof {
            assert(r@ =~= norm_seps(s@).take(i + 1));
        }
        i = i + 1;
    }
    proof {
        assert(norm_seps(s@).take(n as int) =~= norm_seps(s@));
    }
    r
}

/// A path component that carries no name of its own and is normalized
/// away before any shape check: empty runs of separators, the current
/// directory, a verbatim-prefix marker, and (when asked) the parent
/// directory.
pub open spec fn component_skipped(e: Seq<char>, drop_parent: bool) -> bool {
    e.len() == 0 || e == "."@ || e == "?"@ || (drop_parent && e == ".."@)
}

pub open spec fn normalized_components(parts: Seq<Seq<char>>, drop_parent: bool) -> Seq<
    Seq<char>,
>
    decreases parts.len(),
{
    if parts.len() == 0 {
        Seq::<Seq<char>>::empty()
    } else {
        let rest = normalized_components(parts.drop_first(), drop_parent);
        if component_skipped(parts[0], drop_parent) {
            rest
        } else {
            seq![parts[0]] + rest
        }
    }
}

/// The named components of `p`, in order, with both separator styles
/// accepted and the skippable components normalized away.
pub open spec fn spec_components(p: Seq<char>, drop_parent: bool) -> Seq<Seq<char>> {
    normalized_components(spec_split(norm_seps(p), '/'), drop_parent)
}

fn component_is_skipped(e: &String, drop_parent: bool) -> (r: bool)
    ensures
        r == component_skipped(e@, drop_parent),
{
    e.as_str().unicode_len() == 0 || str_eq(e.as_str(), ".") || str_eq(e.as_str(), "?") || (
    drop_parent && str_eq(e.as_str(), ".."))
}

fn components_of(p: &str, drop_parent: bool) -> (r: Vec<String>)
    ensures
        r.deep_view() == spec_components(p@, drop_parent),
{
    let norm = normalize_seps(p);
    let parts = split_on(norm.as_str(), '/');
    let ghost all = parts.deep_view();
    let mut r: Vec<String> = Vec::new();
    let mut i: usize = 0;
    proof {
        assert(all.skip(0) =~= all);
        assert(r.deep_view() + normalized_components(all, drop_parent)
            =~= normalized_components(all, drop_parent));
    }
    while i < parts.len()
        invariant
            0 <= i <= parts@.len(),
            all == parts.deep_view(),
            normalized_components(all, drop_parent) == r.deep_view() + normalized_components(
                all.skip(i as int),
                drop_parent,
            ),
        decreases parts.len() - i,
    {
        proof {
            assert(all.skip(i as int).drop_first() =~= all.skip(i + 1));
            assert(all.skip(i as int)[0] == all[i as int]);
        }
        let e = &parts[i];
        if !component_is_skipped(e, drop_parent) {
            let ghost pre = r;
            r.push(e.clone());
            proof {
                crate::text::lemma_vec_string_push_deep_view(pre, r, parts@[i as int]);
                assert(r.deep_view() + normalized_components(all.skip(i + 1), drop_parent)
                    =~= pre.deep_view() + (seq![all[i as int]] + normalized_components(
                    all.skip(i + 1),
                    drop_parent,
                )));
            }
        }
        i = i + 1;
    }
    proof {
        assert(all.skip(parts@.len() as int) =~= Seq::<Seq<char>>::empty());
        assert(r.deep_view() + Seq::<Seq<char>>::empty() =~= r.deep_view());
    }
    r
}

/// The fixed shapes a start-package directory may take, checked by the
/// position of each component: `start/*`, `start/*/after`,
/// `pack/*/start/*` and `pack/*/start/*/after`, with `start` also
/// allowed to read `pack` or `after` exactly where those shapes put it.
pub open spec fn components_ok(cs: Seq<Seq<char>>) -> bool {
    cs.len() <= 5 && (cs.len() >= 1 ==> cs[0] == "start"@ || cs[0] == "pack"@) && (cs.len()
        >= 3 ==> cs[2] == "start"@ || cs[2] == "after"@) && (cs.len() >= 5 ==> cs[4]
        == "after"@)
}

pub open spec fn spec_package_filter(relative_path: Seq<char>) -> bool {
    components_ok(spec_components(relative_path, true))
}

/// Whether a path relative to a package root has one of the recognized
/// start-package shapes. Traversal components are normalized away first,
/// so a stray link cannot smuggle an arbitrary path in.
pub fn package_filter(relative_path: &str) -> (r: bool)
    ensures
        r == spec_package_filter(relative_path@),
{
    let cs = components_of(relative_path, true);
    let n = cs.len();
    if n > 5 {
        return false;
    }
    if n >= 1 && !(str_eq(cs[0].as_str(), "start") || str_eq(cs[0].as_str(), "pack")) {
        return false;
    }
    if n >= 3 && !(str_eq(cs[2].as_str(), "start") || str_eq(cs[2].as_str(), "after")) {
        return false;
    }
    if n >= 5 && !str_eq(cs[4].as_str(), "after") {
        return false;
    }
    true
}

/// The components of `p` left after removing those of `prefix`, or
/// nothing when `prefix` does not lead `p`.
pub open spec fn spec_strip_prefix(p: Seq<char>, prefix: Seq<char>) -> Option<
    Seq<Seq<char>>,
> {
    let pc = spec_components(p, false);
    let qc = spec_components(prefix, false);
    if qc.len() <= pc.len() && pc.take(qc.len() as int) == qc {
        Some(pc.skip(qc.len() as int))
    } else {
        None
    }
}

/// Strips `prefix` from `path` by named components, ignoring separator
/// style and verbatim markers, so that a verbatim spelling of either
/// side still matches the other.
pub fn strip_prefix(path: &str, prefix: &str) -> (r: Option<String>)
    ensures
        r is Some <==> spec_strip_prefix(path@, prefix@) is Some,
        r matches Some(rest) ==> rest@ == spec_join(
            spec_strip_prefix(path@, prefix@)->0,
            '/',
        ),
{
    let pc = components_of(path, false);
    let qc = components_of(prefix, false);
    if qc.len() > pc.len() {
        return None;
    }
    let mut i: usize = 0;
    while i < qc.len()
        invariant
            0 <= i <= qc@.len() <= pc@.len(),
            pc.deep_view() == spec_components(path@, false),
            qc.deep_view() == spec_components(prefix@, false),
            forall|j: int| 0 <= j < i ==> pc.deep_view()[j] == qc.deep_view()[j],
        decreases qc.len() - i,
    {
        if !str_eq(pc[i].as_str(), qc[i].as_str()) {
            proof {
                assert(pc.deep_view().take(qc@.len() as int)[i as int] != qc.deep_view()[
                i as int]);
            }
            return None;
        }
        i = i + 1;
    }
    proof {
        assert(pc.deep_view().take(qc@.len() as int) =~= qc.deep_view());
    }
    let mut rest: Vec<String> = Vec::new();
    let mut k: usize = qc.len();
    while k < pc.len()
        invariant
            qc@.len() <= k <= pc@.len(),
            pc.deep_view() == spec_components(path@, false),
            qc.deep_view() == spec_components(prefix@, false),
            rest.deep_view() =~= pc.deep_view().subrange(qc@.len() as int, k as int),
        decreases pc.len() - k,
    {
        let ghost pre = rest;
        rest.push(pc[k].clone());
        proof {
            crate::text::lemma_vec_string_push_deep_view(pre, rest, pc@[k as int]);
            assert(rest.deep_view() =~= pc.deep_view().subrange(qc@.len() as int, k + 1));
        }
        k = k + 1;
    }
    proof {
        assert(rest.deep_view() =~= pc.deep_view().skip(qc@.len() as int));
    }
    Some(join_with(&rest, '/'))
}

/// Whether a walked entry contributes to the search path: a directory
/// below `dir` whose relative shape is a recognized start-package form.
pub open spec fn package_entry_accepted(e: crate::walk::WalkEntry, dir: Seq<char>) -> bool {
    e.ok() && e.is_dir && e.path_view().len() > 0 && spec_strip_prefix(e.path_view(), dir)
        is Some && spec_package_filter(
        spec_join(spec_strip_prefix(e.path_view(), dir)->0, '/'),
    )
}

/// What one walked entry does to the region pair: an accepted entry named
/// `after` joins the overlay region, any other accepted entry takes the
/// front of the primary region.
pub open spec fn spec_push_package_step(
    rp: (Seq<Seq<char>>, Seq<Seq<char>>),
    e: crate::walk::WalkEntry,
    dir: Seq<char>,
) -> (Seq<Seq<char>>, Seq<Seq<char>>) {
    if package_entry_accepted(e, dir) {
        if e.name_view() == "after"@ {
            (rp.0, rp.1.push(e.path_view()))
        } else {
            (seq![e.path_view()] + rp.0, rp.1)
        }
    } else {
        rp
    }
}

pub open spec fn spec_push_walked(
    rp: (Seq<Seq<char>>, Seq<Seq<char>>),
    entries: Seq<crate::walk::WalkEntry>,
    dir: Seq<char>,
) -> (Seq<Seq<char>>, Seq<Seq<char>>)
    decreases entries.len(),
{
    if entries.len() == 0 {
        rp
    } else {
        spec_push_walked(spec_push_package_step(rp, entries[0], dir), entries.drop_first(), dir)
    }
}

impl RuntimePath {
    /// Folds a list of walked entries into the accumulator, keeping
    /// exactly those with a recognized start-package shape under `dir`.
    pub fn push_walked(&mut self, dir: &str, entries: &Vec<crate::walk::WalkEntry>)
        requires
            old(self).wf(),
        ensures
            final(self).wf(),
            (final(self).primary(), final(self).overlay()) == spec_push_walked(
                (old(self).primary(), old(self).overlay()),
                entries@,
                dir@,
            ),
    {
        let ghost orig = (old(self).primary(), old(self).overlay());
        let mut i: usize = 0;
        proof {
            assert(entries@.skip(0) =~= entries@);
        }
        while i < entries.len()
            invariant
                0 <= i <= entries@.len(),
                self.wf(),
                spec_push_walked(orig, entries@, dir@) == spec_push_walked(
                    (self.primary(), self.overlay()),
                    entries@.skip(i as int),
                    dir@,
                ),
            decreases entries.len() - i,
        {
            proof {
                assert(entries@.skip(i as int).drop_first() =~= entries@.skip(i + 1));
                assert(entries@.skip(i as int)[0] == entries@[i as int]);
            }
            let ghost cur = (self.primary(), self.overlay());
            let ghost e_spec = entries@[i as int];
            let e = &entries[i];
            if e.is_dir {
                if let Some(p) = &e.path {
                    if let Some(f) = &e.file_name {
                        if let Some(rel) = strip_prefix(p.as_str(), dir) {
                            if package_filter(rel.as_str()) {
                                let after = str_eq(f.as_str(), "after");
                                self.push(p.as_str(), after);
                            }
                        }
                    }
                }
            }
            proof {
                assert((self.primary(), self.overlay()) == spec_push_package_step(
                    cur,
                    e_spec,
                    dir@,
                ));
            }
            i = i + 1;
        }
        proof {
            assert(entries@.skip(entries@.len() as int) =~= Seq::<crate::walk::WalkEntry>::empty());
        }
    }

    /// Adds the start packages found under the package directory `dir`:
    /// whatever the walk of the disk yields, only entries of the
    /// recognized shapes are folded in, `after` directories as overlay.
    pub fn push_package(&mut self, dir: &str)
        requires
            old(self).wf(),
        ensures
            final(self).wf(),
            exists|es: Seq<crate::walk::WalkEntry>|
                (final(self).primary(), final(self).overlay()) == spec_push_walked(
                    (old(self).primary(), old(self).overlay()),
                    es,
                    dir@,
                ),
    {
        if !crate::walk::path_exists(dir) {
            proof {
                let es = Seq::<crate::walk::WalkEntry>::empty();
                assert((self.primary(), self.overlay()) == spec_push_walked(
                    (self.primary(), self.overlay()),
                    es,
                    dir@,
                ));
            }
            return ;
        }
        let entries = crate::walk::walk_dir(dir, 2, 5);
        self.push_walked(dir, &entries);
    }
}

/// One region pair as the merge operation sees it.
pub open spec fn merge_frag(
    a: (Seq<Seq<char>>, Seq<Seq<char>>),
    b: (Seq<Seq<char>>, Seq<Seq<char>>),
) -> (Seq<Seq<char>>, Seq<Seq<char>>) {
    (b.0 + a.0, a.1 + b.1)
}

/// Priority ordering of repeated merges: merging B then C into A places
/// C's primary entries ahead of B's and A's, and C's overlay entries
/// after B's and A's, whatever the entries are.
pub proof fn lemma_merge_priority_order(
    a: (Seq<Seq<char>>, Seq<Seq<char>>),
    b: (Seq<Seq<char>>, Seq<Seq<char>>),
    c: (Seq<Seq<char>>, Seq<Seq<char>>),
)
    ensures
        merge_frag(merge_frag(a, b), c).0 == c.0 + b.0 + a.0,
        merge_frag(merge_frag(a, b), c).1 == a.1 + b.1 + c.1,
{
    assert(merge_frag(merge_frag(a, b), c).0 =~= c.0 + b.0 + a.0);
    assert(merge_frag(merge_frag(a, b), c).1 =~= a.1 + b.1 + c.1);
}

} // verus!
