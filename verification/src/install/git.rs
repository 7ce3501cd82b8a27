//! The one built-in fetch tool: cloning a package with git. The
//! process itself is the caller's to spawn; this module decides what to
//! run and how to read its progress.

use vstd::prelude::*;
use vstd::string::StrSliceExecFns;
use vstd::string::StringExecFns;

use crate::install::Progress;
use crate::walk::path_exists;

verus! {

/// A pending git clone of one package.
pub struct Git {
    url: String,
    path: Option<String>,
    /// Whether the clone process has been started and not yet observed
    /// finished.
    running: bool,
}

impl Git {
    pub closed spec fn url_view(&self) -> Seq<char> {
        self.url@
    }

    pub closed spec fn path_view(&self) -> Option<Seq<char>> {
        self.path.deep_view()
    }

    pub closed spec fn is_running(&self) -> bool {
        self.running
    }

    pub fn new(url: String) -> (r: Git)
        ensures
            r.url_view() == url@,
            r.path_view() is None,
            !r.is_running(),
    {
        Git { url, path: None, running: false }
    }

    /// Binds the clone to its target path and reports whether that path
    /// already exists on disk - an existing target needs no install.
    /// The answer depends on the disk, so nothing is promised of it.
    pub fn setup(&mut self, path: &str) -> (r: bool)
        ensures
            final(self).path_view() == Some(path@),
            final(self).url_view() == old(self).url_view(),
            final(self).is_running() == old(self).is_running(),
    {
        let exists = path_exists(path);
        self.path = Some(path.to_owned());
        exists
    }

    /// Starts the clone: hands back the argument list for the `git`
    /// process, or nothing when a clone is already under way.
    pub fn install(&mut self) -> (r: Option<Vec<String>>)
        requires
            old(self).path_view() is Some,
        ensures
            final(self).url_view() == old(self).url_view(),
            final(self).path_view() == old(self).path_view(),
            old(self).is_running() ==> r is None && !final(self).is_running()
                == !old(self).is_running(),
            !old(self).is_running() ==> final(self).is_running() && (r matches Some(args)
                ==> args.deep_view() == seq![
                "clone"@,
                old(self).url_view(),
                old(self).path_view()->0,
            ]) && r is Some,
    {
        if self.running {
            return None;
        }
        self.running = true;
        let mut args: Vec<String> = Vec::new();
        args.push(String::from_str("clone"));
        args.push(self.url.clone());
        match &self.path {
            Some(p) => args.push(p.clone()),
            None => (),
        }
        proof {
            assert(args.deep_view() =~= seq![
                "clone"@,
                self.url_view(),
                self.path_view()->0,
            ]);
        }
        Some(args)
    }

    /// Turns what the caller observed of the clone process - whether it
    /// has exited, and the latest output line - into a progress report.
    /// A clone that was never started counts as finished.
    pub fn progress(&mut self, process_finished: bool, last_log: Option<String>) -> (r:
        Progress)
        ensures
            final(self).url_view() == old(self).url_view(),
            final(self).path_view() == old(self).path_view(),
            r.title@ == "git clone"@,
            old(self).is_running() ==> r.is_finished == process_finished && r.log
                == last_log && final(self).is_running() == !process_finished,
            !old(self).is_running() ==> r.is_finished && r.log is None
                && !final(self).is_running(),
    {
        if self.running {
            if process_finished {
                self.running = false;
            }
            Progress {
                title: String::from_str("git clone"),
                log: last_log,
                is_finished: process_finished,
            }
        } else {
            Progress {
                title: String::from_str("git clone"),
                log: None,
                is_finished: true,
            }
        }
    }
}

} // verus!
