use energy_bench::benchmark::{list_all, mean_energy_delta, select_tasks, Export, Sampler, Task};

fn task(path: &str, language: &str, name: &str) -> Task {
    Task::new(path.to_string(), language.to_string(), name.to_string())
}

#[test]
fn list_all_reads_language_and_name_from_path() {
    let dirs = vec![
        "./benchmarks/rust/fib".to_string(),
        "./benchmarks/javascript/node_modules".to_string(),
        "./benchmarks/c/nbody".to_string(),
        "lang/task".to_string(),
        "odd/dir/".to_string(),
    ];
    let tasks = list_all(&dirs);
    assert_eq!(
        tasks,
        vec![
            task("./benchmarks/rust/fib", "rust", "fib"),
            task("./benchmarks/c/nbody", "c", "nbody"),
            task("lang/task", "lang", "task"),
            task("odd/dir/", "dir", ""),
        ]
    );
}

#[test]
fn list_all_of_nothing() {
    assert!(list_all(&vec![]).is_empty());
}

#[test]
fn select_tasks_ignores_case() {
    let tasks = vec![
        task("b/Rust/Fib", "Rust", "Fib"),
        task("b/rust/nbody", "rust", "nbody"),
        task("b/C/fib", "C", "fib"),
    ];
    let by_lang = select_tasks(tasks.clone(), &Some("RUST".to_string()), &None);
    assert_eq!(by_lang, vec![tasks[0].clone(), tasks[1].clone()]);
    let by_name = select_tasks(tasks.clone(), &None, &Some("fib".to_string()));
    assert_eq!(by_name, vec![tasks[0].clone(), tasks[2].clone()]);
    let both = select_tasks(tasks.clone(), &Some("c".to_string()), &Some("FIB".to_string()));
    assert_eq!(both, vec![tasks[2].clone()]);
    assert_eq!(select_tasks(tasks.clone(), &None, &None), tasks);
    assert!(select_tasks(tasks, &Some("go".to_string()), &None).is_empty());
}

#[test]
fn sampler_reads_the_counter_range() {
    let s = Sampler::from_max_energy_range("262143328850\n").unwrap();
    assert_eq!(s.max, 262143328850);
    assert!(Sampler::from_max_energy_range("not a number").is_none());
    assert!(Sampler::from_max_energy_range("").is_none());
    assert!(Sampler::from_max_energy_range("-5").is_none());
}

#[test]
fn sample_end_handles_wrap_around() {
    let s = Sampler { max: 1000 };
    assert_eq!(s.sample_end(100, 350), 250);
    assert_eq!(s.sample_end(900, 100), 200);
    assert_eq!(s.sample_end(5, 5), 0);
    // the energy reported, added to the first reading, gives the second modulo the range
    for (prev, curr) in [(0u64, 1000u64), (999, 0), (400, 399), (1, 2)] {
        let d = s.sample_end(prev, curr);
        assert!(d <= 1000);
        assert_eq!((prev + d) % 1000, curr % 1000);
    }
}

#[test]
fn mean_energy_of_runs() {
    assert_eq!(mean_energy_delta(&vec![(10, 20), (5, 8), (0, 0)]), 4);
    assert_eq!(mean_energy_delta(&vec![(7, 107)]), 100);
}

#[test]
fn duplicates_are_equal() {
    let t = task("x/y/z", "y", "z");
    assert_eq!(t.duplicate(), t);
    let e = Export { language: "c".into(), task: "fib".into(), duration: 12, energy_bits: 3.5f64.to_bits() };
    let d = e.duplicate();
    assert_eq!((d.language, d.task, d.duration, f64::from_bits(d.energy_bits)), ("c".to_string(), "fib".to_string(), 12, 3.5));
}
