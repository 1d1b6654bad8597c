use energy_bench::app::{sort_results, tally, Action, App, Display, Mode};
use energy_bench::benchmark::{Export, Task};

fn task(language: &str, name: &str) -> Task {
    Task::new(format!("b/{}/{}", language, name), language.to_string(), name.to_string())
}

fn export(language: &str, name: &str, energy: f64) -> Export {
    Export { language: language.into(), task: name.into(), duration: 1, energy_bits: energy.to_bits() }
}

fn sample_tasks() -> Vec<Task> {
    vec![task("rust", "fib"), task("c", "fib"), task("rust", "nbody")]
}

#[test]
fn new_session_in_order() {
    let app = App::new(sample_tasks(), Mode::Run { runs: 2, ordered: true, cooldown: 3 });
    assert!(app.running);
    assert_eq!((app.runs, app.ordered, app.cooldown, app.curr_task), (2, true, 3, 0));
    assert_eq!(app.display_mode, Display::Percent);
    assert_eq!(app.status_text, "");
    assert!(app.results.is_empty());
    let names: Vec<(String, u64)> = app.tasks.iter().map(|t| (t.language.clone() + "/" + &t.name, 0)).collect();
    assert_eq!(
        names.iter().map(|x| x.0.as_str()).collect::<Vec<_>>(),
        vec!["rust/fib", "rust/fib", "c/fib", "c/fib", "rust/nbody", "rust/nbody"]
    );
    let tc: Vec<(String, u64)> = app.task_count.iter().map(|c| (c.key.clone(), c.count)).collect();
    assert_eq!(tc, vec![("fib".to_string(), 2), ("nbody".to_string(), 1)]);
    let lc: Vec<(String, u64)> = app.lang_count.iter().map(|c| (c.key.clone(), c.count)).collect();
    assert_eq!(lc, vec![("rust".to_string(), 2), ("c".to_string(), 1)]);
    assert_eq!(app.status.len(), 3);
    assert!(app.status.iter().all(|p| p.done == 0));
    assert_eq!(app.progress_of(&"c".to_string(), &"fib".to_string()), Some(0));
    assert_eq!(app.progress_of(&"c".to_string(), &"nbody".to_string()), None);
}

#[test]
fn compile_mode_uses_one_run() {
    let app = App::new(sample_tasks(), Mode::Compile);
    assert_eq!((app.runs, app.ordered, app.cooldown), (1, true, 0));
    assert_eq!(app.tasks, sample_tasks());
}

#[test]
fn shuffled_session_runs_each_task_runs_times() {
    let app = App::new(sample_tasks(), Mode::Run { runs: 5, ordered: false, cooldown: 0 });
    assert_eq!(app.tasks.len(), 15);
    for t in sample_tasks() {
        assert_eq!(app.tasks.iter().filter(|x| **x == t).count(), 5);
    }
}

#[test]
fn duplicate_tasks_share_one_progress_entry() {
    let tasks = vec![task("rust", "fib"), task("rust", "fib")];
    let app = App::new(tasks, Mode::Run { runs: 1, ordered: true, cooldown: 0 });
    assert_eq!(app.status.len(), 1);
    let tc: Vec<(String, u64)> = app.task_count.iter().map(|c| (c.key.clone(), c.count)).collect();
    assert_eq!(tc, vec![("fib".to_string(), 2)]);
}

#[test]
fn a_whole_run_session() {
    let tasks = vec![task("rust", "fib"), task("c", "fib")];
    let mut app = App::new(tasks, Mode::Run { runs: 2, ordered: true, cooldown: 3 });
    match app.iterate() {
        Action::Run { task: t, pause, status } => {
            assert_eq!(t, task("rust", "fib"));
            assert!(pause.is_none());
            assert_eq!(status, "Running rust fib - 1/2");
        }
        other => panic!("unexpected {:?}", other),
    }
    match app.done(export("rust", "fib", 10.0)) {
        Action::Run { task: t, pause, status } => {
            assert_eq!(t, task("rust", "fib"));
            let p = pause.unwrap();
            assert_eq!((p.message.as_str(), p.seconds), ("Cooling down for 3 second(s)", 3));
            assert_eq!(status, "Running rust fib - 2/2");
        }
        other => panic!("unexpected {:?}", other),
    }
    assert_eq!(app.curr_task, 1);
    assert_eq!(app.progress_of(&"rust".to_string(), &"fib".to_string()), Some(1));
    app.status("Cooling down".to_string());
    assert_eq!(app.status_text, "Cooling down");
    match app.done(export("rust", "fib", 11.0)) {
        Action::Run { task: t, status, .. } => {
            assert_eq!(t, task("c", "fib"));
            assert_eq!(status, "Running c fib - 1/2");
        }
        other => panic!("unexpected {:?}", other),
    }
    assert!(matches!(app.done(export("c", "fib", 5.0)), Action::Run { .. }));
    assert!(matches!(app.done(export("c", "fib", 6.0)), Action::Finished));
    assert_eq!(app.status_text, "Done!");
    assert_eq!(app.curr_task, 4);
    assert_eq!(app.progress_of(&"rust".to_string(), &"fib".to_string()), Some(2));
    assert_eq!(app.progress_of(&"c".to_string(), &"fib".to_string()), Some(2));
    let order: Vec<(String, f64)> =
        app.results.iter().map(|e| (e.language.clone(), f64::from_bits(e.energy_bits))).collect();
    assert_eq!(order.iter().map(|x| x.0.as_str()).collect::<Vec<_>>(), vec!["c", "c", "rust", "rust"]);
}

#[test]
fn compile_session_moves_with_next() {
    let mut app = App::new(sample_tasks(), Mode::Compile);
    match app.iterate() {
        Action::Compile { task: t } => assert_eq!(t, task("rust", "fib")),
        other => panic!("unexpected {:?}", other),
    }
    assert!(matches!(app.next(("rust".into(), "fib".into())), Action::Compile { .. }));
    assert!(matches!(app.next(("c".into(), "fib".into())), Action::Compile { .. }));
    assert!(matches!(app.next(("rust".into(), "nbody".into())), Action::Finished));
    assert_eq!(app.status_text, "Done!");
    assert!(app.results.is_empty());
}

#[test]
fn next_with_unknown_task_counts_nothing() {
    let mut app = App::new(sample_tasks(), Mode::Compile);
    app.next(("go".into(), "fib".into()));
    assert_eq!(app.curr_task, 1);
    assert!(app.status.iter().all(|p| p.done == 0));
}

#[test]
fn empty_session_finishes_at_once() {
    let mut app = App::new(vec![], Mode::Run { runs: 3, ordered: false, cooldown: 1 });
    assert!(matches!(app.iterate(), Action::Finished));
    assert_eq!(app.status_text, "Done!");
}

#[test]
fn toggle_twice_restores_display() {
    let mut app = App::new(sample_tasks(), Mode::Compile);
    app.toggle_display_mode();
    assert_eq!(app.display_mode, Display::Fraction);
    app.toggle_display_mode();
    assert_eq!(app.display_mode, Display::Percent);
    app.tick();
    app.quit();
    assert!(!app.running);
}

#[test]
fn results_sort_by_language_then_task() {
    let v = vec![
        export("rust", "nbody", 1.0),
        export("c", "fib", 2.0),
        export("rust", "fib", 3.0),
        export("c", "fib", 4.0),
        export("C", "zzz", 5.0),
    ];
    let sorted = sort_results(&v);
    let keys: Vec<(String, String)> = sorted.iter().map(|e| (e.language.clone(), e.task.clone())).collect();
    let mut expected: Vec<(String, String)> = v.iter().map(|e| (e.language.clone(), e.task.clone())).collect();
    expected.sort();
    assert_eq!(keys, expected);
    let mut energies: Vec<u64> = sorted.iter().map(|e| e.energy_bits).collect();
    energies.sort();
    let mut before: Vec<u64> = v.iter().map(|e| e.energy_bits).collect();
    before.sort();
    assert_eq!(energies, before);
}

#[test]
fn tally_counts_in_first_seen_order() {
    let keys: Vec<String> = ["b", "a", "b", "c", "b"].iter().map(|s| s.to_string()).collect();
    let t: Vec<(String, u64)> = tally(&keys).into_iter().map(|c| (c.key, c.count)).collect();
    assert_eq!(t, vec![("b".to_string(), 3), ("a".to_string(), 1), ("c".to_string(), 1)]);
}
