use vlur::install::InstallScheduler;
use vlur::install::git::Git;

// InstallScheduler with concurrency limit 2 and 5 tasks: at no polling
// instant are more than 2 tasks running, and all 5 reach finished.
#[test]
fn scheduler_respects_limit_and_finishes_all() {
    let mut pool = InstallScheduler::new(5, 2);
    let mut running: Vec<usize> = Vec::new();
    let mut finished = 0;
    let mut instants = 0;
    while !pool.done() {
        // Admit as the polling loop would: one task per instant at most.
        if let Some(i) = pool.start_next() {
            running.push(i);
        }
        assert!(pool.running_count() <= 2);
        // Every other instant, the oldest running task completes.
        instants += 1;
        if instants % 2 == 0 && !running.is_empty() {
            let i = running.remove(0);
            pool.finish(i);
            finished += 1;
        }
        assert!(pool.running_count() <= 2);
        assert!(instants < 100);
    }
    assert_eq!(finished, 5);
    assert!(running.is_empty());
}

#[test]
fn scheduler_admits_in_declaration_order() {
    let mut pool = InstallScheduler::new(3, 2);
    assert_eq!(pool.start_next(), Some(0));
    assert_eq!(pool.start_next(), Some(1));
    // The pool is full: nothing is admitted.
    assert_eq!(pool.start_next(), None);
    pool.finish(0);
    assert_eq!(pool.start_next(), Some(2));
    assert_eq!(pool.start_next(), None);
    pool.finish(1);
    pool.finish(2);
    assert!(pool.done());
}

#[test]
fn scheduler_with_no_tasks_is_done() {
    let pool = InstallScheduler::new(0, 2);
    assert!(pool.done());
}

#[test]
fn git_plans_a_clone() {
    let mut git = Git::new("https://example.invalid/repo".to_string());
    let needs_install = {
        // The target path does not exist, so an install is needed.
        let exists = git.setup("no/such/dir/vlur-target");
        !exists
    };
    assert!(needs_install);
    let args = git.install().expect("first start yields the arguments");
    assert_eq!(args.len(), 3);
    assert_eq!(args[0].as_str(), "clone");
    assert_eq!(args[1].as_str(), "https://example.invalid/repo");
    assert_eq!(args[2].as_str(), "no/such/dir/vlur-target");
    // A second start while running hands nothing back.
    assert!(git.install().is_none());
}

#[test]
fn git_progress_reports() {
    let mut git = Git::new("u".to_string());
    git.setup("no/such/dir/vlur-target");
    git.install();
    let p = git.progress(false, Some("Cloning...".to_string()));
    assert_eq!(p.title.as_str(), "git clone");
    assert!(!p.is_finished);
    assert_eq!(p.log.as_deref(), Some("Cloning..."));
    let p = git.progress(true, None);
    assert!(p.is_finished);
    // Once observed finished, the clone no longer counts as running.
    let p = git.progress(false, None);
    assert!(p.is_finished);
    assert!(p.log.is_none());
}
