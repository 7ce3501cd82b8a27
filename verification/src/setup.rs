//! The orchestrator: reads the cache, splits the declared packages into
//! lazy and eager ones, folds the eager fragments and the start-package
//! fragment into the host's search path, derives the load script for
//! every search-path entry, and leaves the cache ready to commit.
//!
//! The host calls around this - option reads and writes, script
//! execution, trigger registration, the cache file itself - stay with
//! the caller.

use vstd::prelude::*;

use crate::OPT_SEP;
use crate::cache::Cache;
use crate::cache::FileView;
use crate::cache::RtpView;
use crate::cache::find_files;
use crate::cache::find_rtp;
use crate::cache::inner_view;
use crate::cache::plugin_map_view;
use crate::cache::read_valid;
use crate::cache::read_view;
use crate::cache::rtp_map_view;
use crate::cache::rv_overlay;
use crate::cache::rv_primary;
use crate::lazy::event::Event;
use crate::plugin::Plugin;
use crate::plugin::filter_view;
use crate::plugin::load_files;
use crate::plugin::spec_collect_files;
use crate::plugin::spec_load_script;
use crate::plugin::spec_local_rtp;
use crate::runtimepath::RuntimePath;
use crate::runtimepath::spec_first_after;
use crate::runtimepath::spec_push_walked;
use crate::text::spec_join;
use crate::text::spec_split;
use crate::text::str_eq;
use crate::walk::WalkEntry;

verus! {

/// Everything the host must apply after orchestration: the merged
/// search path, the lazy packages to arm (each with its triggers), and
/// one load script per search-path entry, in order.
pub struct SetupPlan {
    pub rtp: String,
    pub lazy: Vec<(String, Vec<Event>)>,
    pub scripts: Vec<String>,
}

/// The lazy packages among the declared ones, in declaration order,
/// each with its trigger conditions; its root path is its identity.
pub open spec fn spec_lazy_of(plugins: Seq<Plugin>) -> Seq<(Seq<char>, Seq<Event>)>
    decreases plugins.len(),
{
    if plugins.len() == 0 {
        Seq::<(Seq<char>, Seq<Event>)>::empty()
    } else {
        let p = plugins[0];
        let rest = spec_lazy_of(plugins.drop_first());
        match p.lazy {
            Some(evs) => seq![(p.path@, evs@)] + rest,
            None => rest,
        }
    }
}

pub open spec fn lazy_plan_view(l: Seq<(String, Vec<Event>)>) -> Seq<
    (Seq<char>, Seq<Event>),
> {
    Seq::new(l.len(), |i: int| (l[i].0@, l[i].1@))
}

/// The region pair after one package scan per directory of the split
/// option value, folded in order.
pub open spec fn spec_packpath_fold(
    rp: (Seq<Seq<char>>, Seq<Seq<char>>),
    dirs: Seq<Seq<char>>,
    walks: Seq<Seq<WalkEntry>>,
) -> (Seq<Seq<char>>, Seq<Seq<char>>)
    decreases dirs.len(),
{
    if dirs.len() == 0 {
        rp
    } else {
        spec_packpath_fold(
            spec_push_walked(rp, walks[0], dirs[0]),
            dirs.drop_first(),
            walks.drop_first(),
        )
    }
}

proof fn lemma_packpath_fold_snoc(
    rp: (Seq<Seq<char>>, Seq<Seq<char>>),
    dirs: Seq<Seq<char>>,
    walks: Seq<Seq<WalkEntry>>,
    d: Seq<char>,
    es: Seq<WalkEntry>,
)
    requires
        walks.len() == dirs.len(),
    ensures
        spec_packpath_fold(rp, dirs.push(d), walks.push(es)) == spec_push_walked(
            spec_packpath_fold(rp, dirs, walks),
            es,
            d,
        ),
    decreases dirs.len(),
{
    if dirs.len() == 0 {
        assert(dirs.push(d)[0] == d);
        assert(walks.push(es)[0] == es);
        assert(dirs.push(d).drop_first() =~= Seq::<Seq<char>>::empty());
        assert(walks.push(es).drop_first() =~= Seq::<Seq<WalkEntry>>::empty());
        assert(spec_packpath_fold(
            spec_push_walked(rp, es, d),
            Seq::<Seq<char>>::empty(),
            Seq::<Seq<WalkEntry>>::empty(),
        ) == spec_push_walked(rp, es, d));
    } else {
        assert(dirs.push(d)[0] == dirs[0]);
        assert(walks.push(es)[0] == walks[0]);
        assert(dirs.push(d).drop_first() =~= dirs.drop_first().push(d));
        assert(walks.push(es).drop_first() =~= walks.drop_first().push(es));
        lemma_packpath_fold_snoc(
            spec_push_walked(rp, walks[0], dirs[0]),
            dirs.drop_first(),
            walks.drop_first(),
            d,
            es,
        );
    }
}

/// The host's own search path as a region pair, as parsing the option
/// value yields it.
pub open spec fn host_regions(rtp: Seq<char>) -> (Seq<Seq<char>>, Seq<Seq<char>>) {
    let es = if rtp.len() == 0 {
        Seq::<Seq<char>>::empty()
    } else {
        spec_split(rtp, OPT_SEP)
    };
    let k = spec_first_after(es);
    (es.take(k), es.skip(k))
}

/// What an eager package's fragment may be: the one a valid initial
/// cache stored for its root, or the shape of a fresh directory probe
/// (the root, and its overlay subdirectory, each only while present).
pub open spec fn eager_frag_ok(
    frag: (Seq<Seq<char>>, Seq<Seq<char>>),
    path: Seq<char>,
    valid0: bool,
    map0: Seq<(Seq<char>, RtpView)>,
) -> bool {
    ||| (valid0 && find_rtp(map0, path) is Some && frag == (
        rv_primary(find_rtp(map0, path)->0),
        rv_overlay(find_rtp(map0, path)->0),
    ))
    ||| exists|b1: bool, b2: bool| frag == spec_local_rtp(path, b1, b2)
}

/// The search path after folding each eager package's fragment in
/// declaration order; a lazily declared package contributes nothing.
pub open spec fn spec_eager_fold(
    rp: (Seq<Seq<char>>, Seq<Seq<char>>),
    plugins: Seq<Plugin>,
    frags: Seq<(Seq<Seq<char>>, Seq<Seq<char>>)>,
) -> (Seq<Seq<char>>, Seq<Seq<char>>)
    decreases plugins.len(),
{
    if plugins.len() == 0 {
        rp
    } else {
        let step = if plugins[0].lazy is Some {
            rp
        } else {
            (frags[0].0 + rp.0, rp.1 + frags[0].1)
        };
        spec_eager_fold(step, plugins.drop_first(), frags.drop_first())
    }
}

proof fn lemma_eager_fold_snoc(
    rp: (Seq<Seq<char>>, Seq<Seq<char>>),
    plugins: Seq<Plugin>,
    frags: Seq<(Seq<Seq<char>>, Seq<Seq<char>>)>,
    p: Plugin,
    f: (Seq<Seq<char>>, Seq<Seq<char>>),
)
    requires
        frags.len() == plugins.len(),
    ensures
        spec_eager_fold(rp, plugins.push(p), frags.push(f)) == (if p.lazy is Some {
            spec_eager_fold(rp, plugins, frags)
        } else {
            (
                f.0 + spec_eager_fold(rp, plugins, frags).0,
                spec_eager_fold(rp, plugins, frags).1 + f.1,
            )
        }),
    decreases plugins.len(),
{
    if plugins.len() == 0 {
        assert(plugins.push(p)[0] == p);
        assert(frags.push(f)[0] == f);
        assert(plugins.push(p).drop_first() =~= Seq::<Plugin>::empty());
        assert(frags.push(f).drop_first() =~= Seq::<(Seq<Seq<char>>, Seq<Seq<char>>)>::empty());
        let step = if p.lazy is Some {
            rp
        } else {
            (f.0 + rp.0, rp.1 + f.1)
        };
        assert(spec_eager_fold(
            step,
            Seq::<Plugin>::empty(),
            Seq::<(Seq<Seq<char>>, Seq<Seq<char>>)>::empty(),
        ) == step);
    } else {
        assert(plugins.push(p)[0] == plugins[0]);
        assert(frags.push(f)[0] == frags[0]);
        assert(plugins.push(p).drop_first() =~= plugins.drop_first().push(p));
        assert(frags.push(f).drop_first() =~= frags.drop_first().push(f));
        let step = if plugins[0].lazy is Some {
            rp
        } else {
            (frags[0].0 + rp.0, rp.1 + frags[0].1)
        };
        lemma_eager_fold_snoc(step, plugins.drop_first(), frags.drop_first(), p, f);
    }
}

/// What the start-package fragment merged last may be: the one a valid
/// initial cache stored under the same option value, or a fresh
/// per-directory package scan of the option's directories.
pub open spec fn pkg_frag_ok(
    pkg: (Seq<Seq<char>>, Seq<Seq<char>>),
    packpath: Seq<char>,
    valid0: bool,
    key0: Seq<char>,
    rv0: RtpView,
) -> bool {
    ||| (valid0 && key0 == packpath && pkg == (rv_primary(rv0), rv_overlay(rv0)))
    ||| ({
        let dirs = spec_split(packpath, OPT_SEP);
        exists|walks: Seq<Seq<WalkEntry>>|
            #![trigger spec_packpath_fold((Seq::<Seq<char>>::empty(), Seq::<Seq<char>>::empty()), dirs, walks)]
            walks.len() == dirs.len() && pkg == spec_packpath_fold(
                (Seq::<Seq<char>>::empty(), Seq::<Seq<char>>::empty()),
                dirs,
                walks,
            )
    })
}

/// What one entry's load script may be: derived from the file list a
/// valid initial cache stored for it, or from a fresh scan of the
/// entry, name-tagged exactly when the entry is the built-in root
/// (`is_default`) - with the filter applied either way.
pub open spec fn script_ok(
    script: Seq<char>,
    dir: Seq<char>,
    is_default: bool,
    fv: Option<Seq<(Seq<char>, bool)>>,
    valid0: bool,
    files0: Seq<(Seq<char>, Seq<FileView>)>,
) -> bool {
    ||| (valid0 && find_files(files0, dir) is Some && script == spec_load_script(
        find_files(files0, dir)->0,
        fv,
    ))
    ||| exists|es: Seq<WalkEntry>|
        #![trigger spec_collect_files(es, is_default)]
        script == spec_load_script(spec_collect_files(es, is_default), fv)
}

/// The filter configuration as mathematics.
pub open spec fn filter_opt_view(filter: Option<&Vec<(String, bool)>>) -> Option<
    Seq<(Seq<char>, bool)>,
> {
    match filter {
        Some(f) => Some(filter_view(f@)),
        None => None,
    }
}

/// The search-path fragment derived from the package directory option.
/// A valid cache keyed by the same option value answers from its stored
/// fragment; anything else rescans every directory the option names,
/// stores the fragment under the new key, and invalidates the cache.
pub fn get_rtp_in_packpath<'a>(cache: &'a mut Cache, packpath: &str) -> (r:
    &'a RuntimePath)
    requires
        old(cache).wf(),
    ensures
        final(cache).wf(),
        r == &final(cache).inner.package.runtimepath,
        r.wf(),
        old(cache).is_valid && old(cache).inner.package.packpath@ == packpath@
            ==> *final(cache) == *old(cache),
        !(old(cache).is_valid && old(cache).inner.package.packpath@ == packpath@) ==> {
            &&& !final(cache).is_valid
            &&& final(cache).inner.package.packpath@ == packpath@
            &&& final(cache).inner.id == old(cache).inner.id
            &&& final(cache).inner.runtimepaths == old(cache).inner.runtimepaths
            &&& final(cache).inner.plugins == old(cache).inner.plugins
            &&& exists|walks: Seq<Seq<WalkEntry>>|
                #![trigger spec_packpath_fold((Seq::<Seq<char>>::empty(), Seq::<Seq<char>>::empty()), spec_split(packpath@, OPT_SEP), walks)]
                walks.len() == spec_split(packpath@, OPT_SEP).len() && (
                final(cache).inner.package.runtimepath.primary(),
                final(cache).inner.package.runtimepath.overlay(),
                ) == spec_packpath_fold(
                    (Seq::<Seq<char>>::empty(), Seq::<Seq<char>>::empty()),
                    spec_split(packpath@, OPT_SEP),
                    walks,
                )
        },
{
    let same_key = str_eq(cache.inner.package.packpath.as_str(), packpath);
    if !cache.is_valid || !same_key {
        let ghost rp0 = (Seq::<Seq<char>>::empty(), Seq::<Seq<char>>::empty());
        let mut rtp = RuntimePath::new_empty();
        let dirs = crate::text::split_on(packpath, OPT_SEP);
        let ghost dv = dirs.deep_view();
        let ghost mut walks = Seq::<Seq<WalkEntry>>::empty();
        let mut i: usize = 0;
        proof {
            assert(dv.take(0) =~= Seq::<Seq<char>>::empty());
            assert((rtp.primary(), rtp.overlay()) == spec_packpath_fold(
                rp0,
                dv.take(0),
                walks,
            ));
        }
        while i < dirs.len()
            invariant
                rtp.wf(),
                0 <= i <= dv.len(),
                dv == dirs.deep_view(),
                walks.len() == i,
                (rtp.primary(), rtp.overlay()) == spec_packpath_fold(
                    rp0,
                    dv.take(i as int),
                    walks,
                ),
            decreases dirs.len() - i,
        {
            let ghost pre = rtp;
            proof {
                assert(dv[i as int] == dirs@[i as int]@);
            }
            rtp.push_package(dirs[i].as_str());
            proof {
                let es = choose|es: Seq<WalkEntry>|
                    (rtp.primary(), rtp.overlay()) == spec_push_walked(
                        (pre.primary(), pre.overlay()),
                        es,
                        dv[i as int],
                    );
                lemma_packpath_fold_snoc(rp0, dv.take(i as int), walks, dv[i as int], es);
                assert(dv.take(i + 1) =~= dv.take(i as int).push(dv[i as int]));
                walks = walks.push(es);
            }
            i = i + 1;
        }
        proof {
            assert(dv.take(dv.len() as int) =~= dv);
            assert(dv == spec_split(packpath@, OPT_SEP));
        }
        cache.is_valid = false;
        cache.inner.package.packpath = packpath.to_owned();
        cache.inner.package.runtimepath = rtp;
    }
    &cache.inner.package.runtimepath
}

/// The load script for one search-path entry. A valid cache answers
/// from its stored file list; otherwise the directory is scanned
/// afresh, the list is stored, and the cache becomes invalid. The
/// filter then withholds disabled names either way.
pub fn load_dir_files(
    cache: &mut Cache,
    dir: &String,
    is_default: bool,
    filter: Option<&Vec<(String, bool)>>,
) -> (r: String)
    requires
        old(cache).wf(),
    ensures
        final(cache).wf(),
        (old(cache).is_valid && find_files(
            plugin_map_view(old(cache).inner.plugins@),
            dir@,
        ) matches Some(fs)) ==> r@ == spec_load_script(
            find_files(plugin_map_view(old(cache).inner.plugins@), dir@)->0,
            match filter {
                Some(f) => Some(filter_view(f@)),
                None => None,
            },
        ) && *final(cache) == *old(cache),
        !(old(cache).is_valid && find_files(
            plugin_map_view(old(cache).inner.plugins@),
            dir@,
        ) is Some) ==> exists|es: Seq<WalkEntry>|
            #![trigger spec_collect_files(es, is_default)]
            ({
                let files = spec_collect_files(es, is_default);
                &&& r@ == spec_load_script(
                    files,
                    match filter {
                        Some(f) => Some(filter_view(f@)),
                        None => None,
                    },
                )
                &&& !final(cache).is_valid
                &&& plugin_map_view(final(cache).inner.plugins@) == seq![(dir@, files)]
                    + crate::cache::drop_key_files(
                    plugin_map_view(old(cache).inner.plugins@),
                    dir@,
                )
            }),
{
    if cache.is_valid {
        let hit = cache.get_files(dir);
        if let Some(files) = hit {
            return load_files(files, filter);
        }
    }
    let scanned = crate::plugin::get_plugin_files(dir.as_str(), is_default);
    let script = load_files(&scanned, filter);
    cache.invalidate();
    cache.insert_files(dir.clone(), scanned);
    script
}

/// Sequences a startup once any needed installs have completed: the
/// cache is restored from the given bytes, lazy packages are set aside
/// for the caller to arm and contribute nothing to the path or the
/// scripts, eager packages' fragments are folded into the search path
/// read from the host in declaration order, the start-package fragment
/// goes in last, and one load script is derived per entry of the final
/// path, in order.
///
/// The resulting serialized path holds, in order: the start-package
/// entries, then the eagerly declared packages' fragments (the latest
/// declaration first), then the host's own previous entries, followed
/// by the overlay regions in mirror image - the host's own, then the
/// declared packages', and the start packages' last.
pub fn setup(
    plugins: Vec<Plugin>,
    config: Option<&Vec<(String, bool)>>,
    rtp: &str,
    packpath: &str,
    cache_bytes: Option<&Vec<u8>>,
    build_id: &Vec<u8>,
    vimruntime: &str,
) -> (r: (SetupPlan, Cache))
    ensures
        r.1.wf(),
        lazy_plan_view(r.0.lazy@) == spec_lazy_of(plugins@),
        exists|
            frags: Seq<(Seq<Seq<char>>, Seq<Seq<char>>)>,
            pkg: (Seq<Seq<char>>, Seq<Seq<char>>),
        |
            #![trigger spec_eager_fold(host_regions(rtp@), plugins@, frags), pkg_frag_ok(pkg, packpath@, read_valid(cache_bytes, build_id@), read_view(cache_bytes).packpath, read_view(cache_bytes).package_rtp)]
            ({
                let folded = spec_eager_fold(host_regions(rtp@), plugins@, frags);
                let all = (pkg.0 + folded.0) + (folded.1 + pkg.1);
                &&& frags.len() == plugins@.len()
                &&& forall|k: int|
                    0 <= k < plugins@.len() && (#[trigger] plugins@[k]).lazy is None
                        ==> eager_frag_ok(
                        frags[k],
                        plugins@[k].path@,
                        read_valid(cache_bytes, build_id@),
                        read_view(cache_bytes).runtimepaths,
                    )
                &&& pkg_frag_ok(
                    pkg,
                    packpath@,
                    read_valid(cache_bytes, build_id@),
                    read_view(cache_bytes).packpath,
                    read_view(cache_bytes).package_rtp,
                )
                &&& r.0.rtp@ == spec_join(all, OPT_SEP)
                &&& r.0.scripts@.len() == all.len()
                &&& forall|k: int|
                    0 <= k < all.len() ==> script_ok(
                        (#[trigger] r.0.scripts@[k])@,
                        all[k],
                        all[k] == vimruntime@,
                        filter_opt_view(config),
                        read_valid(cache_bytes, build_id@),
                        read_view(cache_bytes).plugins,
                    )
            }),
{
    let mut cache = Cache::read(cache_bytes, build_id);
    let ghost cache0 = cache;
    let ghost valid0 = cache0.is_valid;
    let ghost map0 = rtp_map_view(cache0.inner.runtimepaths@);
    let ghost files0 = plugin_map_view(cache0.inner.plugins@);
    proof {
        assert(valid0 == read_valid(cache_bytes, build_id@));
        assert(inner_view(cache0.inner) == read_view(cache_bytes));
        assert(map0 == read_view(cache_bytes).runtimepaths);
        assert(files0 == read_view(cache_bytes).plugins);
        assert(cache0.inner.package.packpath@ == read_view(cache_bytes).packpath);
        assert(crate::cache::rtp_view(cache0.inner.package.runtimepath) == read_view(
            cache_bytes,
        ).package_rtp);
    }
    let mut acc = RuntimePath::new(rtp);
    let ghost host0 = (acc.primary(), acc.overlay());
    proof {
        acc.lemma_regions();
        assert(acc.primary() =~= host_regions(rtp@).0);
        assert(acc.overlay() =~= host_regions(rtp@).1);
    }
    let mut lazy: Vec<(String, Vec<Event>)> = Vec::new();
    let mut rest = plugins;
    let ghost mut frags = Seq::<(Seq<Seq<char>>, Seq<Seq<char>>)>::empty();
    proof {
        assert(lazy_plan_view(lazy@) =~= Seq::<(Seq<char>, Seq<Event>)>::empty());
        assert(plugins@.skip(0) =~= plugins@);
        assert(plugins@.take(0) =~= Seq::<Plugin>::empty());
    }
    while rest.len() > 0
        invariant
            acc.wf(),
            cache.wf(),
            valid0 == cache0.is_valid,
            map0 == rtp_map_view(cache0.inner.runtimepaths@),
            spec_lazy_of(plugins@) == lazy_plan_view(lazy@) + spec_lazy_of(rest@),
            frags.len() + rest@.len() == plugins@.len(),
            plugins@.skip(frags.len() as int) == rest@,
            cache.is_valid ==> cache == cache0,
            (acc.primary(), acc.overlay()) == spec_eager_fold(
                host0,
                plugins@.take(frags.len() as int),
                frags,
            ),
            forall|k: int|
                0 <= k < frags.len() && (#[trigger] plugins@[k]).lazy is None
                    ==> eager_frag_ok(frags[k], plugins@[k].path@, valid0, map0),
        decreases rest.len(),
    {
        let ghost k = frags.len() as int;
        proof {
            assert(rest@.drop_first() =~= rest@.remove(0));
            assert(plugins@.skip(k)[0] == plugins@[k]);
            assert(plugins@.skip(k).drop_first() =~= plugins@.skip(k + 1));
            assert(plugins@.take(k + 1) =~= plugins@.take(k).push(plugins@[k]));
        }
        let p = rest.remove(0);
        let ghost pspec = p;
        proof {
            assert(pspec == plugins@[k]);
        }
        match p.lazy {
            Some(evs) => {
                let ghost pre = lazy@;
                let ghost kv = (p.path@, evs@);
                lazy.push((p.path, evs));
                proof {
                    assert(lazy_plan_view(lazy@) =~= lazy_plan_view(pre).push(kv));
                    assert(lazy_plan_view(pre) + (seq![kv] + spec_lazy_of(rest@))
                        =~= lazy_plan_view(lazy@) + spec_lazy_of(rest@));
                    let f = (Seq::<Seq<char>>::empty(), Seq::<Seq<char>>::empty());
                    lemma_eager_fold_snoc(host0, plugins@.take(k), frags, plugins@[k], f);
                    frags = frags.push(f);
                }
            },
            None => {
                let eager = Plugin { path: p.path, lazy: None, install: p.install };
                let ghost acc_pre = acc;
                let ghost cache_pre = cache;
                eager.add_to_rtp(&mut acc, &mut cache);
                proof {
                    let path = plugins@[k].path@;
                    assert(eager.path@ == path);
                    let hit = cache_pre.is_valid && find_rtp(
                        rtp_map_view(cache_pre.inner.runtimepaths@),
                        path,
                    ) is Some;
                    let f = if hit {
                        let v = find_rtp(
                            rtp_map_view(cache_pre.inner.runtimepaths@),
                            path,
                        )->0;
                        (rv_primary(v), rv_overlay(v))
                    } else {
                        let (b1, b2) = choose|b1: bool, b2: bool|
                            #![trigger spec_local_rtp(eager.path@, b1, b2)]
                            ({
                                let frag = spec_local_rtp(eager.path@, b1, b2);
                                &&& acc.primary() == frag.0 + acc_pre.primary()
                                &&& acc.overlay() == acc_pre.overlay() + frag.1
                                &&& !cache.is_valid
                                &&& rtp_map_view(cache.inner.runtimepaths@) == seq![
                                    (
                                        eager.path@,
                                        RtpView {
                                            entries: frag.0 + frag.1,
                                            split: frag.0.len() as int,
                                        },
                                    ),
                                ] + crate::cache::drop_key_rtp(
                                    rtp_map_view(cache_pre.inner.runtimepaths@),
                                    eager.path@,
                                )
                            });
                        spec_local_rtp(path, b1, b2)
                    };
                    if hit {
                        assert(cache_pre == cache0);
                        assert(eager_frag_ok(f, path, valid0, map0));
                    } else {
                        assert(eager_frag_ok(f, path, valid0, map0));
                    }
                    assert(acc.primary() == f.0 + acc_pre.primary());
                    assert(acc.overlay() == acc_pre.overlay() + f.1);
                    lemma_eager_fold_snoc(host0, plugins@.take(k), frags, plugins@[k], f);
                    frags = frags.push(f);
                }
            },
        }
        proof {
            assert forall|j: int|
                0 <= j < frags.len() && (#[trigger] plugins@[j]).lazy is None
                    implies eager_frag_ok(frags[j], plugins@[j].path@, valid0, map0) by {
                if j < k {
                    assert(frags[j] == frags.take(k)[j]);
                }
            }
        }
    }
    proof {
        assert(spec_lazy_of(rest@) =~= Seq::<(Seq<char>, Seq<Event>)>::empty());
        assert(lazy_plan_view(lazy@) + spec_lazy_of(rest@) =~= lazy_plan_view(lazy@));
        assert(plugins@.take(frags.len() as int) =~= plugins@);
    }
    let ghost folded = (acc.primary(), acc.overlay());
    let ghost cache_pre2 = cache;
    let packages = get_rtp_in_packpath(&mut cache, packpath);
    let pkg_rtp = packages.clone();
    let ghost pkg = (pkg_rtp.primary(), pkg_rtp.overlay());
    proof {
        if cache_pre2.is_valid && cache_pre2.inner.package.packpath@ == packpath@ {
            assert(cache_pre2 == cache0);
            assert(cache == cache0);
            cache0.inner.package.runtimepath.lemma_regions();
            assert(pkg == (
                rv_primary(read_view(cache_bytes).package_rtp),
                rv_overlay(read_view(cache_bytes).package_rtp),
            ));
            assert(pkg_frag_ok(
                pkg,
                packpath@,
                valid0,
                read_view(cache_bytes).packpath,
                read_view(cache_bytes).package_rtp,
            ));
        } else {
            let rp0 = (Seq::<Seq<char>>::empty(), Seq::<Seq<char>>::empty());
            let walks = choose|walks: Seq<Seq<WalkEntry>>|
                #![trigger spec_packpath_fold((Seq::<Seq<char>>::empty(), Seq::<Seq<char>>::empty()), spec_split(packpath@, OPT_SEP), walks)]
                walks.len() == spec_split(packpath@, OPT_SEP).len() && (
                cache.inner.package.runtimepath.primary(),
                cache.inner.package.runtimepath.overlay(),
                ) == spec_packpath_fold(rp0, spec_split(packpath@, OPT_SEP), walks);
            assert(pkg == spec_packpath_fold(rp0, spec_split(packpath@, OPT_SEP), walks));
            assert(pkg_frag_ok(
                pkg,
                packpath@,
                valid0,
                read_view(cache_bytes).packpath,
                read_view(cache_bytes).package_rtp,
            ));
        }
        if cache.is_valid {
            assert(cache == cache0);
        }
    }
    acc.merge(&pkg_rtp);
    let rtp_out = acc.render();
    let dirs = acc.entries();
    let ghost allv = acc.primary() + acc.overlay();
    proof {
        acc.lemma_regions();
        assert(dirs.deep_view() == allv);
        assert(allv == (pkg.0 + folded.0) + (folded.1 + pkg.1));
    }
    let ghost fvopt = filter_opt_view(config);
    let mut scripts: Vec<String> = Vec::new();
    let mut i: usize = 0;
    while i < dirs.len()
        invariant
            cache.wf(),
            0 <= i <= dirs@.len(),
            scripts@.len() == i,
            valid0 == cache0.is_valid,
            files0 == plugin_map_view(cache0.inner.plugins@),
            fvopt == filter_opt_view(config),
            dirs.deep_view() == allv,
            cache.is_valid ==> cache == cache0,
            forall|k: int|
                0 <= k < i ==> script_ok(
                    (#[trigger] scripts@[k])@,
                    allv[k],
                    allv[k] == vimruntime@,
                    fvopt,
                    valid0,
                    files0,
                ),
        decreases dirs.len() - i,
    {
        let dir = &dirs[i];
        proof {
            assert(dir@ == dirs.deep_view()[i as int]);
        }
        let is_default = str_eq(dir.as_str(), vimruntime);
        let ghost cache_pre = cache;
        let script = load_dir_files(&mut cache, dir, is_default, config);
        proof {
            if cache_pre.is_valid && find_files(
                plugin_map_view(cache_pre.inner.plugins@),
                dir@,
            ) is Some {
                assert(cache_pre == cache0);
                assert(script_ok(script@, allv[i as int], is_default, fvopt, valid0, files0));
            } else {
                let es = choose|es: Seq<WalkEntry>|
                    #![trigger spec_collect_files(es, is_default)]
                    ({
                        let files = spec_collect_files(es, is_default);
                        &&& script@ == spec_load_script(
                            files,
                            match config {
                                Some(f) => Some(filter_view(f@)),
                                None => None,
                            },
                        )
                        &&& !cache.is_valid
                        &&& plugin_map_view(cache.inner.plugins@) == seq![(dir@, files)]
                            + crate::cache::drop_key_files(
                            plugin_map_view(cache_pre.inner.plugins@),
                            dir@,
                        )
                    });
                assert(script@ == spec_load_script(
                    spec_collect_files(es, is_default),
                    fvopt,
                ));
                assert(script_ok(script@, allv[i as int], is_default, fvopt, valid0, files0));
            }
        }
        scripts.push(script);
        proof {
            assert forall|k: int|
                0 <= k < i + 1 implies script_ok(
                (#[trigger] scripts@[k])@,
                allv[k],
                allv[k] == vimruntime@,
                fvopt,
                valid0,
                files0,
            ) by {
                if k == i as int {
                    assert(scripts@[k] == script);
                    assert((allv[k] == vimruntime@) == is_default);
                }
            }
        }
        i = i + 1;
    }
    proof {
        let folded2 = spec_eager_fold(host_regions(rtp@), plugins@, frags);
        assert(host0 == host_regions(rtp@));
        assert(folded == folded2);
        let all = (pkg.0 + folded2.0) + (folded2.1 + pkg.1);
        assert(all == allv);
        assert(rtp_out@ == spec_join(allv, OPT_SEP)) by {
            assert(acc.entries_view() =~= allv);
        }
        assert(scripts@.len() == all.len());
        assert(pkg_frag_ok(
            pkg,
            packpath@,
            read_valid(cache_bytes, build_id@),
            read_view(cache_bytes).packpath,
            read_view(cache_bytes).package_rtp,
        ));
        assert(spec_eager_fold(host_regions(rtp@), plugins@, frags) == folded2);
    }
    (SetupPlan { rtp: rtp_out, lazy, scripts }, cache)
}

} // verus!
