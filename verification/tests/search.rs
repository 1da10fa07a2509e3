use std::collections::HashMap;

use wiki_path::pool::WorkerState;
use wiki_path::search::{Outcome, Search, Verdict, DEFAULT_CAP};

fn graph(edges: &[(&str, &[&str])]) -> HashMap<String, Vec<String>> {
    let mut g = HashMap::new();
    for (page, links) in edges {
        g.insert(page.to_string(), links.iter().map(|l| l.to_string()).collect());
    }
    g
}

fn names(path: &[String]) -> Vec<&str> {
    path.iter().map(|s| s.as_str()).collect()
}

/// Runs a search to its end on a graph held in memory. Every worker answers
/// at the first poll after it was given its page; `bad` names a page whose
/// fetch fails; `reversed` polls and feeds the workers from the last to the
/// first. `fetched` counts how often each page was handed out.
fn run(
    g: &HashMap<String, Vec<String>>,
    source: &str,
    target: &str,
    workers: usize,
    cap: usize,
    bad: Option<&str>,
    reversed: bool,
    fetched: &mut HashMap<String, usize>,
) -> Vec<String> {
    let mut s = Search::new(source, target, workers, cap);
    if let Some(path) = s.trivial_path() {
        return path;
    }
    let order: Vec<usize> =
        if reversed { (0..workers).rev().collect() } else { (0..workers).collect() };
    let mut in_flight: Vec<Option<String>> = vec![None; workers];
    let mut rounds = 0usize;
    loop {
        rounds += 1;
        assert!(rounds < 1_000_000, "the search does not end");
        match s.poll() {
            Verdict::Exhausted | Verdict::Stalled | Verdict::Overflow => return vec![],
            Verdict::LevelDone => {
                assert!(s.advance_level());
                continue;
            }
            Verdict::Work => {}
        }
        for &i in &order {
            if s.worker_state(i) == Some(WorkerState::Processing) {
                let page = in_flight[i].take().unwrap();
                if bad == Some(page.as_str()) {
                    assert!(s.on_failure(i));
                    continue;
                }
                let links = g.get(&page).cloned().unwrap_or_default();
                match s.on_links(i, &links) {
                    Outcome::Found(path) => return path,
                    Outcome::Overflow => return vec![],
                    Outcome::Continue => {}
                    Outcome::Rejected => panic!("a processing worker was rejected"),
                }
            }
        }
        for &i in &order {
            if let Some(task) = s.assign(i) {
                *fetched.entry(task.clone()).or_insert(0) += 1;
                in_flight[i] = Some(task);
            }
        }
    }
}

fn find(g: &HashMap<String, Vec<String>>, source: &str, target: &str, workers: usize) -> Vec<String> {
    run(g, source, target, workers, DEFAULT_CAP, None, false, &mut HashMap::new())
}

fn chain() -> HashMap<String, Vec<String>> {
    graph(&[("A", &["B"]), ("B", &["C"]), ("C", &["D"]), ("D", &[])])
}

fn diamond() -> HashMap<String, Vec<String>> {
    graph(&[("A", &["B", "C"]), ("B", &["D"]), ("C", &["D"]), ("D", &[])])
}

fn web() -> HashMap<String, Vec<String>> {
    graph(&[
        ("A", &["B", "C", "D", "A"]),
        ("B", &["E", "A", "C"]),
        ("C", &["F", "B"]),
        ("D", &["G", "C", "D"]),
        ("E", &["H", "A"]),
        ("F", &["H", "I"]),
        ("G", &["I", "A"]),
        ("H", &["J"]),
        ("I", &["J", "K"]),
        ("J", &["Z", "A"]),
        ("K", &["Z"]),
    ])
}

#[test]
fn source_equal_to_target_is_one_page() {
    for n in [1usize, 2, 4, 50] {
        let s = Search::new("A", "A", n, DEFAULT_CAP);
        let path = s.trivial_path().unwrap();
        assert_eq!(names(&path), vec!["A"]);
        for i in 0..n {
            assert_eq!(s.worker_state(i), Some(WorkerState::Idle));
        }
        let mut fetched = HashMap::new();
        let path = run(&chain(), "A", "A", n, DEFAULT_CAP, None, false, &mut fetched);
        assert_eq!(names(&path), vec!["A"]);
        assert!(fetched.is_empty());
    }
}

#[test]
fn distinct_source_and_target_have_no_trivial_path() {
    let s = Search::new("A", "B", 1, DEFAULT_CAP);
    assert!(s.trivial_path().is_none());
}

#[test]
fn linear_chain_with_one_worker() {
    let path = find(&chain(), "A", "D", 1);
    assert_eq!(names(&path), vec!["A", "B", "C", "D"]);
}

#[test]
fn diamond_gives_one_branch() {
    for k in [1usize, 2, 4] {
        for reversed in [false, true] {
            let path =
                run(&diamond(), "A", "D", k, DEFAULT_CAP, None, reversed, &mut HashMap::new());
            assert_eq!(path.len(), 3);
            let got = names(&path);
            assert!(got == vec!["A", "B", "D"] || got == vec!["A", "C", "D"], "{:?}", got);
        }
    }
}

#[test]
fn diamond_with_one_worker_takes_first_branch() {
    let path = find(&diamond(), "A", "D", 1);
    assert_eq!(names(&path), vec!["A", "B", "D"]);
}

#[test]
fn path_length_does_not_depend_on_worker_count() {
    let g = web();
    let one = find(&g, "A", "Z", 1);
    assert_eq!(one.len(), 6);
    for n in [2usize, 3, 4, 8, 50] {
        for reversed in [false, true] {
            let path = run(&g, "A", "Z", n, DEFAULT_CAP, None, reversed, &mut HashMap::new());
            assert_eq!(path.len(), one.len());
            assert_eq!(path.first().map(|s| s.as_str()), Some("A"));
            assert_eq!(path.last().map(|s| s.as_str()), Some("Z"));
            for pair in path.windows(2) {
                assert!(g[&pair[0]].contains(&pair[1]));
            }
        }
    }
}

#[test]
fn no_page_is_handed_out_twice() {
    let g = web();
    for n in [1usize, 2, 4, 50] {
        for target in ["Z", "K", "nowhere"] {
            let mut fetched = HashMap::new();
            run(&g, "A", target, n, DEFAULT_CAP, None, false, &mut fetched);
            assert!(!fetched.is_empty());
            for (page, count) in &fetched {
                assert_eq!(*count, 1, "{} was handed out {} times", page, count);
            }
        }
    }
}

#[test]
fn frontier_over_its_bound_ends_the_search() {
    let g = graph(&[
        ("A", &["B", "C", "D", "E", "F"]),
        ("B", &["G"]),
        ("C", &["H"]),
        ("G", &["Z"]),
    ]);
    for n in [1usize, 2, 4, 50] {
        let path = run(&g, "A", "Z", n, 3, None, false, &mut HashMap::new());
        assert!(path.is_empty());
        let path = run(&g, "A", "Z", n, 4, None, false, &mut HashMap::new());
        assert!(path.is_empty());
        let path = run(&g, "A", "Z", n, 5, None, false, &mut HashMap::new());
        assert_eq!(names(&path), vec!["A", "B", "G", "Z"]);
    }
}

#[test]
fn poll_gives_up_over_the_bound() {
    let mut s = Search::new("A", "Z", 1, 1);
    assert_eq!(s.poll(), Verdict::Work);
    assert_eq!(s.assign(0).as_deref(), Some("A"));
    assert_eq!(s.poll(), Verdict::Work);
    assert!(matches!(
        s.on_links(0, &vec!["B".to_string(), "C".to_string()]),
        Outcome::Continue
    ));
    assert_eq!(s.poll(), Verdict::LevelDone);
    assert!(s.advance_level());
    assert_eq!(s.poll(), Verdict::Overflow);
    assert_eq!(s.assign(0).as_deref(), Some("B"));
    assert_eq!(s.poll(), Verdict::Work);
}

#[test]
fn overflow_leaves_the_search_unchanged() {
    let mut s = Search::new("A", "Z", 1, 1);
    assert_eq!(s.assign(0).as_deref(), Some("A"));
    let links = vec!["B".to_string(), "C".to_string()];
    assert!(matches!(s.on_links(0, &links), Outcome::Continue));
    assert_eq!(s.frontier_size(), 2);
    assert_eq!(s.poll(), Verdict::LevelDone);
    assert!(s.advance_level());
    assert_eq!(s.assign(0).as_deref(), Some("B"));
    assert_eq!(s.frontier_size(), 1);
    assert!(matches!(s.on_links(0, &vec!["D".to_string(), "E".to_string()]), Outcome::Continue));
    assert_eq!(s.frontier_size(), 3);
    assert_eq!(s.assign(0).as_deref(), Some("C"));
    assert!(matches!(s.on_links(0, &vec!["Z".to_string()]), Outcome::Overflow));
    assert_eq!(s.worker_state(0), Some(WorkerState::Processing));
    assert_eq!(s.frontier_size(), 2);
}

#[test]
fn failing_page_is_a_dead_end() {
    for n in [1usize, 2, 4] {
        let path = run(&diamond(), "A", "D", n, DEFAULT_CAP, Some("B"), false, &mut HashMap::new());
        assert_eq!(names(&path), vec!["A", "C", "D"]);
    }
    let path = run(&chain(), "A", "D", 2, DEFAULT_CAP, Some("B"), false, &mut HashMap::new());
    assert!(path.is_empty());
}

#[test]
fn unreachable_target_exhausts_the_search() {
    let path = find(&chain(), "A", "nowhere", 3);
    assert!(path.is_empty());
}

#[test]
fn new_search_waits_with_idle_workers() {
    let s = Search::new("A", "B", 3, 7);
    assert_eq!(s.worker_count(), 3);
    assert_eq!(s.frontier_size(), 1);
    assert_eq!(s.poll(), Verdict::Work);
    assert_eq!(s.worker_state(2), Some(WorkerState::Idle));
    assert_eq!(s.worker_state(3), None);
    assert_eq!(DEFAULT_CAP, 100_000);
}

#[test]
fn assign_takes_the_head_for_an_idle_worker_only() {
    let mut s = Search::new("A", "Z", 2, DEFAULT_CAP);
    assert_eq!(s.assign(5), None);
    assert_eq!(s.assign(0).as_deref(), Some("A"));
    assert_eq!(s.worker_state(0), Some(WorkerState::Processing));
    assert_eq!(s.assign(0), None);
    assert_eq!(s.assign(1), None);
    assert_eq!(s.worker_state(1), Some(WorkerState::Idle));
    assert_eq!(s.poll(), Verdict::Work);
    assert!(!s.advance_level());
}

#[test]
fn links_from_a_worker_at_rest_are_rejected() {
    let mut s = Search::new("A", "Z", 2, DEFAULT_CAP);
    let links = vec!["Z".to_string()];
    assert!(matches!(s.on_links(0, &links), Outcome::Rejected));
    assert!(matches!(s.on_links(9, &links), Outcome::Rejected));
    assert!(!s.on_failure(0));
    assert_eq!(s.frontier_size(), 1);
}

#[test]
fn scan_stops_at_the_target() {
    let mut s = Search::new("A", "T", 1, DEFAULT_CAP);
    assert_eq!(s.assign(0).as_deref(), Some("A"));
    let links = vec!["B".to_string(), "B".to_string(), "T".to_string(), "C".to_string()];
    match s.on_links(0, &links) {
        Outcome::Found(path) => assert_eq!(names(&path), vec!["A", "T"]),
        other => panic!("{:?}", other),
    }
    assert_eq!(s.frontier_size(), 1);
    assert_eq!(s.worker_state(0), Some(WorkerState::Processing));
}

#[test]
fn lost_worker_is_never_fed_again() {
    let mut s = Search::new("A", "Z", 2, DEFAULT_CAP);
    assert!(s.on_disconnect(1));
    assert!(!s.on_disconnect(2));
    assert_eq!(s.worker_state(1), Some(WorkerState::Error));
    assert_eq!(s.assign(1), None);
    assert_eq!(s.poll(), Verdict::Work);
    assert_eq!(s.assign(0).as_deref(), Some("A"));
    assert!(matches!(
        s.on_links(0, &vec!["B".to_string(), "C".to_string()]),
        Outcome::Continue
    ));
    assert_eq!(s.poll(), Verdict::LevelDone);
    assert!(s.on_disconnect(0));
    assert_eq!(s.poll(), Verdict::Stalled);
    assert!(s.advance_level());
    assert_eq!(s.assign(0), None);
    assert_eq!(s.poll(), Verdict::Stalled);
}

#[test]
fn search_without_workers_is_stalled() {
    let s = Search::new("A", "Z", 0, DEFAULT_CAP);
    assert_eq!(s.poll(), Verdict::Stalled);
}

#[test]
fn lost_worker_shrinks_the_pool_but_not_the_search() {
    let g = diamond();
    let mut s = Search::new("A", "D", 2, DEFAULT_CAP);
    assert!(s.on_disconnect(0));
    assert_eq!(s.assign(0), None);
    assert_eq!(s.assign(1).as_deref(), Some("A"));
    assert!(matches!(s.on_links(1, &g["A"]), Outcome::Continue));
    assert!(s.advance_level());
    assert_eq!(s.assign(1).as_deref(), Some("B"));
    match s.on_links(1, &g["B"]) {
        Outcome::Found(path) => assert_eq!(names(&path), vec!["A", "B", "D"]),
        other => panic!("{:?}", other),
    }
}
