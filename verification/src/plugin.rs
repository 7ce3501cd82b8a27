//! One declared extension package: its root path, its optional lazy
//! trigger conditions, and its optional installer. Scanning the
//! package's directories for loadable script files lives here too.

use vstd::prelude::*;
use vstd::string::StrSliceExecFns;
use vstd::string::StringExecFns;

use crate::cache::Cache;
use crate::cache::File;
use crate::cache::FileLoader;
use crate::cache::FileView;
use crate::cache::RtpView;
use crate::cache::file_view;
use crate::cache::files_view;
use crate::cache::find_rtp;
use crate::cache::rtp_map_view;
use crate::cache::rv_overlay;
use crate::cache::rv_primary;
use crate::install::git::Git;
use crate::lazy::event::Event;
use crate::runtimepath::RuntimePath;
use crate::text::is_suffix_of;
use crate::walk::WalkEntry;
use crate::walk::path_exists;
use crate::walk::walk_dir;

verus! {

/// The two script file kinds the editor loads.
pub open spec fn spec_is_vim_or_lua(p: Seq<char>) -> bool {
    is_suffix_of(".lua"@, p) || is_suffix_of(".vim"@, p)
}

fn is_vim_or_lua(path: &str) -> (r: bool)
    ensures
        r == spec_is_vim_or_lua(path@),
{
    crate::text::has_suffix(path, ".lua") || crate::text::has_suffix(path, ".vim")
}

/// The load directive for a script file: execute it from its path.
pub open spec fn loader_script_for(p: Seq<char>) -> Seq<char> {
    "source "@ + p + "\n"@
}

fn make_loader(path: &str) -> (r: FileLoader)
    ensures
        r.script_view() == loader_script_for(path@),
{
    let mut s = "source ".to_owned();
    s.append(path);
    s.append("\n");
    FileLoader::Script(s)
}

/// The position of the final dot of a file name, scanning from the end.
pub open spec fn spec_last_dot(name: Seq<char>) -> Option<int>
    decreases name.len(),
{
    if name.len() == 0 {
        None
    } else if name.last() == '.' {
        Some(name.len() - 1)
    } else {
        spec_last_dot(name.drop_last())
    }
}

/// A file name without its extension: everything before the final dot,
/// or the whole name when there is no dot past the first position.
pub open spec fn spec_stem(name: Seq<char>) -> Seq<char> {
    match spec_last_dot(name) {
        Some(i) => if i > 0 {
            name.take(i)
        } else {
            name
        },
        None => name,
    }
}

proof fn lemma_last_dot_bounds(name: Seq<char>)
    ensures
        spec_last_dot(name) matches Some(i) ==> 0 <= i < name.len(),
    decreases name.len(),
{
    if name.len() != 0 && name.last() != '.' {
        lemma_last_dot_bounds(name.drop_last());
    }
}

fn stem_of(name: &str) -> (r: String)
    ensures
        r@ == spec_stem(name@),
{
    let n = name.unicode_len();
    let mut k: usize = n;
    proof {
        assert(name@.take(n as int) =~= name@);
    }
    while k > 0
        invariant
            0 <= k <= n,
            n == name@.len(),
            spec_last_dot(name@) == spec_last_dot(name@.take(k as int)),
        decreases k,
    {
        proof {
            assert(name@.take(k as int).last() == name@[k - 1]);
            assert(name@.take(k as int).drop_last() =~= name@.take(k - 1));
        }
        if name.get_char(k - 1) == '.' {
            proof {
                lemma_last_dot_bounds(name@);
            }
            if k - 1 > 0 {
                return name.substring_char(0, k - 1).to_owned();
            } else {
                return name.to_owned();
            }
        }
        k = k - 1;
    }
    proof {
        assert(name@.take(0) =~= Seq::<char>::empty());
    }
    name.to_owned()
}

/// Whether a walked entry is a loadable script file.
pub open spec fn plugin_file_accepted(e: WalkEntry) -> bool {
    e.ok() && !e.is_dir && spec_is_vim_or_lua(e.path_view())
}

/// The loadable files among walked entries, in walk order. A name tag
/// is attached only when scanning the host's own built-in package root,
/// so a filter can disable built-in defaults by name.
pub open spec fn spec_collect_files(entries: Seq<WalkEntry>, is_default: bool) -> Seq<
    FileView,
>
    decreases entries.len(),
{
    if entries.len() == 0 {
        Seq::<FileView>::empty()
    } else {
        let e = entries[0];
        let rest = spec_collect_files(entries.drop_first(), is_default);
        if plugin_file_accepted(e) {
            seq![
                FileView {
                    script: loader_script_for(e.path_view()),
                    name: if is_default {
                        Some(spec_stem(e.name_view()))
                    } else {
                        None
                    },
                },
            ] + rest
        } else {
            rest
        }
    }
}

/// Builds the loadable-file list from a walk's entries.
pub fn collect_files(entries: &Vec<WalkEntry>, is_default: bool) -> (r: Vec<File>)
    ensures
        files_view(r@) == spec_collect_files(entries@, is_default),
{
    let mut r: Vec<File> = Vec::new();
    let mut i: usize = 0;
    proof {
        assert(entries@.skip(0) =~= entries@);
        assert(files_view(r@) =~= Seq::<FileView>::empty());
    }
    while i < entries.len()
        invariant
            0 <= i <= entries@.len(),
            spec_collect_files(entries@, is_default) == files_view(r@)
                + spec_collect_files(entries@.skip(i as int), is_default),
        decreases entries.len() - i,
    {
        proof {
            assert(entries@.skip(i as int)[0] == entries@[i as int]);
            assert(entries@.skip(i as int).drop_first() =~= entries@.skip(i + 1));
        }
        let e = &entries[i];
        let mut accepted = false;
        if !e.is_dir {
            if let Some(p) = &e.path {
                if e.file_name.is_some() {
                    if is_vim_or_lua(p.as_str()) {
                        accepted = true;
                    }
                }
            }
        }
        if accepted {
            let p = match &e.path {
                Some(p) => p.clone(),
                None => String::new(),
            };
            let name = if is_default {
                match &e.file_name {
                    Some(f) => Some(stem_of(f.as_str())),
                    None => None,
                }
            } else {
                None
            };
            let ghost pre = r@;
            let ghost fv = FileView {
                script: loader_script_for(entries@[i as int].path_view()),
                name: if is_default {
                    Some(spec_stem(entries@[i as int].name_view()))
                } else {
                    None
                },
            };
            let ghost tail = spec_collect_files(entries@.skip(i + 1), is_default);
            r.push(File { loader: make_loader(p.as_str()), name });
            proof {
                assert(files_view(r@) =~= files_view(pre).push(fv));
                assert(files_view(pre) + (seq![fv] + tail) =~= files_view(r@) + tail);
            }
        }
        i = i + 1;
    }
    proof {
        assert(entries@.skip(entries@.len() as int) =~= Seq::<WalkEntry>::empty());
        assert(files_view(r@) + Seq::<FileView>::empty() =~= files_view(r@));
    }
    r
}

/// `dir` extended by one component.
fn sub_dir(dir: &str, name: &str) -> (r: String)
    ensures
        r@ == dir@ + "/"@ + name@,
{
    let mut s = dir.to_owned();
    s.append("/");
    s.append(name);
    s
}

/// Every loadable script under the package's `plugin` directory,
/// whatever depth it sits at. What is found depends on the disk; the
/// selection rule over the walked entries is exact.
pub fn get_plugin_files(dir: &str, is_default: bool) -> (r: Vec<File>)
    ensures
        exists|es: Seq<WalkEntry>|
            files_view(r@) == spec_collect_files(es, is_default),
{
    let sub = sub_dir(dir, "plugin");
    if !path_exists(sub.as_str()) {
        let r: Vec<File> = Vec::new();
        proof {
            assert(files_view(r@) =~= spec_collect_files(
                Seq::<WalkEntry>::empty(),
                is_default,
            ));
        }
        return r;
    }
    let entries = walk_dir(sub.as_str(), 1, usize::MAX);
    let r = collect_files(&entries, is_default);
    proof {
        assert(files_view(r@) == spec_collect_files(entries@, is_default));
    }
    r
}

/// Loadable scripts directly under the package's `ftdetect` directory,
/// one level deep, never name-tagged.
pub fn get_ftdetect_files(dir: &str) -> (r: Vec<File>)
    ensures
        exists|es: Seq<WalkEntry>| files_view(r@) == spec_collect_files(es, false),
{
    let sub = sub_dir(dir, "ftdetect");
    if !path_exists(sub.as_str()) {
        let r: Vec<File> = Vec::new();
        proof {
            assert(files_view(r@) =~= spec_collect_files(Seq::<WalkEntry>::empty(), false));
        }
        return r;
    }
    let entries = walk_dir(sub.as_str(), 1, 1);
    let r = collect_files(&entries, false);
    proof {
        assert(files_view(r@) == spec_collect_files(entries@, false));
    }
    r
}

/// The search-path fragment a package directory contributes: the root
/// itself ahead of the primary region, and its `after` subdirectory at
/// the end of the overlay region, each only while it exists on disk.
pub open spec fn spec_local_rtp(path: Seq<char>, root_exists: bool, after_exists: bool) -> (
    Seq<Seq<char>>,
    Seq<Seq<char>>,
) {
    (
        if root_exists && path.len() > 0 {
            seq![path]
        } else {
            Seq::<Seq<char>>::empty()
        },
        if root_exists && after_exists {
            seq![path + "/"@ + "after"@]
        } else {
            Seq::<Seq<char>>::empty()
        },
    )
}

fn get_rtp(path: &str) -> (r: RuntimePath)
    ensures
        r.wf(),
        exists|b1: bool, b2: bool|
            (r.primary(), r.overlay()) == spec_local_rtp(path@, b1, b2),
{
    let mut rtp = RuntimePath::new_empty();
    if path_exists(path) {
        rtp.push(path, false);
        proof {
            if path@.len() > 0 {
                assert(rtp.primary() =~= seq![path@]);
            } else {
                assert(rtp.primary() =~= Seq::<Seq<char>>::empty());
            }
        }
        let after = sub_dir(path, "after");
        if path_exists(after.as_str()) {
            proof {
                reveal_strlit("/");
                assert(after@.len() > 0);
            }
            rtp.push(after.as_str(), true);
            proof {
                assert(rtp.overlay() =~= seq![path@ + "/"@ + "after"@]);
                assert((rtp.primary(), rtp.overlay()) == spec_local_rtp(path@, true, true));
            }
        } else {
            proof {
                assert((rtp.primary(), rtp.overlay()) == spec_local_rtp(
                    path@,
                    true,
                    false,
                ));
            }
        }
    } else {
        proof {
            assert((rtp.primary(), rtp.overlay()) == spec_local_rtp(path@, false, false));
        }
    }
    rtp
}

/// Everything a lazy package's loader must do once its trigger fires:
/// the fragment to merge into the live search path, and the files to
/// execute.
pub struct LoaderPlan {
    pub runtimepath: RuntimePath,
    pub files: Vec<File>,
}

/// One declared extension package.
pub struct Plugin {
    /// The package's root directory; also its identity.
    pub path: String,
    /// Lazy trigger conditions; a package without any loads eagerly.
    pub lazy: Option<Vec<Event>>,
    /// How to fetch the package when its directory is absent.
    pub install: Option<Git>,
}

impl Plugin {
    pub fn new(path: String, lazy: Option<Vec<Event>>, install: Option<Git>) -> (r: Plugin)
        ensures
            r.path == path,
            r.lazy == lazy,
            r.install == install,
    {
        Plugin { path, lazy, install }
    }

    /// The package's lazy trigger conditions, if it declared any.
    pub fn get_lazy_handlers(&self) -> (r: &Option<Vec<Event>>)
        ensures
            r == &self.lazy,
    {
        &self.lazy
    }

    /// Prepares the package's installer and reports whether an install
    /// is needed: only a package with an installer whose target
    /// directory is absent needs one. The disk decides the answer.
    pub fn setup_installer(&mut self) -> (r: bool)
        ensures
            final(self).path == old(self).path,
            final(self).lazy == old(self).lazy,
            old(self).install is None ==> r == false && final(self).install == old(
                self,
            ).install,
            old(self).install matches Some(g) ==> final(self).install matches Some(g2)
                && g2.path_view() == Some(old(self).path@) && g2.url_view() == g.url_view()
                && g2.is_running() == g.is_running(),
    {
        let path = self.path.clone();
        match &mut self.install {
            None => false,
            Some(g) => {
                let already = g.setup(path.as_str());
                !already
            },
        }
    }

    /// Folds this package's search-path fragment into the accumulator.
    /// A valid cache answers from its stored fragment and stays as it
    /// is; otherwise the directory is probed afresh, the fragment is
    /// stored, and the whole cache becomes invalid.
    pub fn add_to_rtp(&self, runtimepath: &mut RuntimePath, cache: &mut Cache)
        requires
            old(runtimepath).wf(),
            old(cache).wf(),
        ensures
            final(runtimepath).wf(),
            final(cache).wf(),
            (old(cache).is_valid && find_rtp(
                rtp_map_view(old(cache).inner.runtimepaths@),
                self.path@,
            ) matches Some(v)) ==> ({
                let v = find_rtp(
                    rtp_map_view(old(cache).inner.runtimepaths@),
                    self.path@,
                )->0;
                &&& final(runtimepath).primary() == rv_primary(v) + old(
                    runtimepath,
                ).primary()
                &&& final(runtimepath).overlay() == old(runtimepath).overlay()
                    + rv_overlay(v)
                &&& *final(cache) == *old(cache)
            }),
            !(old(cache).is_valid && find_rtp(
                rtp_map_view(old(cache).inner.runtimepaths@),
                self.path@,
            ) is Some) ==> exists|b1: bool, b2: bool|
                #![trigger spec_local_rtp(self.path@, b1, b2)]
                ({
                    let frag = spec_local_rtp(self.path@, b1, b2);
                    &&& final(runtimepath).primary() == frag.0 + old(runtimepath).primary()
                    &&& final(runtimepath).overlay() == old(runtimepath).overlay() + frag.1
                    &&& !final(cache).is_valid
                    &&& rtp_map_view(final(cache).inner.runtimepaths@) == seq![
                        (
                            self.path@,
                            RtpView {
                                entries: frag.0 + frag.1,
                                split: frag.0.len() as int,
                            },
                        ),
                    ] + crate::cache::drop_key_rtp(
                        rtp_map_view(old(cache).inner.runtimepaths@),
                        self.path@,
                    )
                }),
    {
        if cache.is_valid {
            let hit = cache.get_runtimepath(&self.path);
            if let Some(cached) = hit {
                proof {
                    cached.lemma_regions();
                }
                runtimepath.merge(cached);
                return ;
            }
        }
        let fresh = get_rtp(self.path.as_str());
        runtimepath.merge(&fresh);
        cache.invalidate();
        proof {
            fresh.lemma_regions();
        }
        cache.insert_runtimepath(self.path.clone(), fresh);
    }

    /// What loading this package on demand does: merge its fragment
    /// into the search path and execute its `plugin` and `ftdetect`
    /// scripts, in that order.
    pub fn get_loader(&self) -> (r: LoaderPlan)
        ensures
            r.runtimepath.wf(),
            exists|b1: bool, b2: bool|
                (r.runtimepath.primary(), r.runtimepath.overlay()) == spec_local_rtp(
                    self.path@,
                    b1,
                    b2,
                ),
            exists|es1: Seq<WalkEntry>, es2: Seq<WalkEntry>|
                files_view(r.files@) == spec_collect_files(es1, false)
                    + spec_collect_files(es2, false),
    {
        let rtp = get_rtp(self.path.as_str());
        let mut files = get_plugin_files(self.path.as_str(), false);
        let ghost es1 = choose|es: Seq<WalkEntry>|
            files_view(files@) == spec_collect_files(es, false);
        let ghost n1 = files@.len();
        let more = get_ftdetect_files(self.path.as_str());
        let ghost es2 = choose|es: Seq<WalkEntry>|
            files_view(more@) == spec_collect_files(es, false);
        let mut j: usize = 0;
        while j < more.len()
            invariant
                0 <= j <= more@.len(),
                files@.len() == n1 + j,
                files_view(files@) =~= spec_collect_files(es1, false) + files_view(
                    more@.take(j as int),
                ),
                files_view(more@) == spec_collect_files(es2, false),
            decreases more.len() - j,
        {
            let ghost pre = files@;
            files.push(more[j].clone_file());
            proof {
                assert(files_view(files@) =~= files_view(pre).push(file_view(
                    more@[j as int],
                )));
                assert(files_view(more@.take(j + 1)) =~= files_view(more@.take(
                    j as int,
                )).push(file_view(more@[j as int])));
                assert(files_view(pre).push(file_view(more@[j as int]))
                    =~= spec_collect_files(es1, false) + files_view(more@.take(j + 1)));
            }
            j = j + 1;
        }
        proof {
            assert(more@.take(more@.len() as int) =~= more@);
            assert(files_view(files@) == spec_collect_files(es1, false)
                + spec_collect_files(es2, false));
        }
        LoaderPlan { runtimepath: rtp, files }
    }
}

impl File {
    /// A structural copy.
    pub fn clone_file(&self) -> (r: File)
        ensures
            file_view(r) == file_view(*self),
    {
        let loader = match &self.loader {
            FileLoader::Script(s) => FileLoader::Script(s.clone()),
        };
        let name = match &self.name {
            Some(n) => Some(n.clone()),
            None => None,
        };
        let r = File { loader, name };
        proof {
            assert(file_view(r) == file_view(*self));
        }
        r
    }
}

/// The per-name switches of the filter configuration; the first entry
/// for a name decides.
pub open spec fn filter_view(m: Seq<(String, bool)>) -> Seq<(Seq<char>, bool)> {
    Seq::new(m.len(), |i: int| (m[i].0@, m[i].1))
}

pub open spec fn find_flag(f: Seq<(Seq<char>, bool)>, n: Seq<char>) -> Option<bool>
    decreases f.len(),
{
    if f.len() == 0 {
        None
    } else if f[0].0 == n {
        Some(f[0].1)
    } else {
        find_flag(f.drop_first(), n)
    }
}

/// A file is withheld only when a filter is given, the file bears a
/// name, and the filter maps that name to `false`.
pub open spec fn spec_filter_denies(
    filter: Option<Seq<(Seq<char>, bool)>>,
    name: Option<Seq<char>>,
) -> bool {
    match (filter, name) {
        (Some(f), Some(n)) => find_flag(f, n) == Some(false),
        _ => false,
    }
}

/// The script that loads the given files in order, those the filter
/// withholds left out.
pub open spec fn spec_load_script(
    files: Seq<FileView>,
    filter: Option<Seq<(Seq<char>, bool)>>,
) -> Seq<char>
    decreases files.len(),
{
    if files.len() == 0 {
        Seq::<char>::empty()
    } else {
        let h = files[0];
        let rest = spec_load_script(files.drop_first(), filter);
        if spec_filter_denies(filter, h.name) {
            rest
        } else {
            h.script + rest
        }
    }
}

fn lookup_flag(filter: &Vec<(String, bool)>, name: &String) -> (r: Option<bool>)
    ensures
        r == find_flag(filter_view(filter@), name@),
{
    let ghost fv = filter_view(filter@);
    let mut i: usize = 0;
    proof {
        assert(fv.skip(0) =~= fv);
    }
    while i < filter.len()
        invariant
            0 <= i <= filter@.len(),
            fv == filter_view(filter@),
            find_flag(fv, name@) == find_flag(fv.skip(i as int), name@),
        decreases filter.len() - i,
    {
        proof {
            assert(fv.skip(i as int)[0] == fv[i as int]);
            assert(fv.skip(i as int).drop_first() =~= fv.skip(i + 1));
        }
        if filter[i].0 == *name {
            proof {
                assert(fv[i as int] == (filter@[i as int].0@, filter@[i as int].1));
            }
            return Some(filter[i].1);
        }
        proof {
            assert(fv[i as int] == (filter@[i as int].0@, filter@[i as int].1));
        }
        i = i + 1;
    }
    proof {
        assert(fv.skip(filter@.len() as int) =~= Seq::<(Seq<char>, bool)>::empty());
    }
    None
}

/// Concatenates the load directives of the files the filter admits;
/// the caller hands the resulting script to the host for execution.
pub fn load_files(files: &Vec<File>, filter: Option<&Vec<(String, bool)>>) -> (r: String)
    ensures
        r@ == spec_load_script(
            files_view(files@),
            match filter {
                Some(f) => Some(filter_view(f@)),
                None => None,
            },
        ),
{
    let ghost fv = match filter {
        Some(f) => Some(filter_view(f@)),
        None => None,
    };
    let ghost all = files_view(files@);
    let mut script = String::new();
    let mut i: usize = 0;
    proof {
        assert(all.skip(0) =~= all);
        assert(script@ + spec_load_script(all, fv) =~= spec_load_script(all, fv));
    }
    while i < files.len()
        invariant
            0 <= i <= files@.len(),
            all == files_view(files@),
            fv == (match filter {
                Some(f) => Some(filter_view(f@)),
                None => None,
            }),
            spec_load_script(all, fv) == script@ + spec_load_script(all.skip(i as int), fv),
        decreases files.len() - i,
    {
        proof {
            assert(all.skip(i as int)[0] == all[i as int]);
            assert(all.skip(i as int).drop_first() =~= all.skip(i + 1));
            assert(all[i as int] == file_view(files@[i as int]));
        }
        let f = &files[i];
        let denied = match (filter, &f.name) {
            (Some(flt), Some(n)) => match lookup_flag(flt, n) {
                Some(false) => true,
                _ => false,
            },
            _ => false,
        };
        if !denied {
            let ghost pre = script@;
            let ghost tail = spec_load_script(all.skip(i + 1), fv);
            script.append(f.loader.script().as_str());
            proof {
                assert(pre + (all[i as int].script + tail) =~= script@ + tail);
            }
        }
        i = i + 1;
    }
    proof {
        assert(all.skip(files@.len() as int) =~= Seq::<FileView>::empty());
        assert(script@ + Seq::<char>::empty() =~= script@);
    }
    script
}

} // verus!
