use testgen::runner::{run_partial_solution, RunResult};
use testgen::{Error, PlannedTest, Subtask, Task};

/// Synthesizes a finished run for every planned test, echoing one line.
fn echo_results(plan: &Vec<Vec<PlannedTest>>, line: &str) -> Vec<Vec<RunResult>> {
    plan.iter()
        .map(|sub| {
            sub.iter()
                .map(|_| RunResult::Finished(1, String::from(line)))
                .collect()
        })
        .collect()
}

fn contents(plan: &Vec<Vec<PlannedTest>>, master: usize) -> Vec<String> {
    plan[master].iter().map(|e| e.content.clone()).collect()
}

#[test]
fn create_with_subtasks() {
    let mut task = Task::new("Test task");
    task.solution_source = String::from("int main() { return 0; }");

    let subtask1 = Subtask::new();
    let subtask2 = Subtask::new();
    let subtask3 = Subtask::new();

    task.add_subtask(subtask1);
    task.add_subtask(subtask2);
    task.add_subtask(subtask3);

    for _ in 0..10 {
        let plan = task.create_tests().unwrap();
        assert_eq!(plan.len(), 3);
        assert!(plan.iter().all(|sub| sub.is_empty()));
    }
}

#[test]
fn create_with_tests() {
    let mut task = Task::new("Test task");
    task.solution_source = String::from("int main() { return 0; }");

    let mut subtask1 = Subtask::new();
    subtask1.add_test_str("1\n");
    subtask1.add_test_str("2\n");
    subtask1.add_test_str("3\n");
    let mut subtask2 = Subtask::new();
    subtask2.add_test_str("1\n");
    subtask2.add_test_str("2\n");
    subtask2.add_test_str("3\n");
    let mut subtask3 = Subtask::new();
    subtask3.add_test_str("1\n");
    subtask3.add_test_str("2\n");

    task.add_subtask(subtask1);
    task.add_subtask(subtask2);
    task.add_subtask(subtask3);

    for _ in 0..10 {
        let plan = task.create_tests().unwrap();
        assert_eq!(contents(&plan, 0), vec!["1\n", "2\n", "3\n"]);
        assert_eq!(contents(&plan, 1), vec!["1\n", "2\n", "3\n"]);
        assert_eq!(contents(&plan, 2), vec!["1\n", "2\n"]);
    }
}

#[test]
fn create_with_dependencies() {
    let mut task = Task::new("Test task");
    task.solution_source = String::from("int main() { return 0; }");

    let mut subtask1 = Subtask::new();
    subtask1.add_test_str("1\n");
    subtask1.add_test_str("2\n");
    subtask1.add_test_str("3\n");
    let mut subtask2 = Subtask::new();
    subtask2.add_test_str("4\n");
    subtask2.add_test_str("5\n");
    subtask2.add_test_str("6\n");
    let mut subtask3 = Subtask::new();
    subtask3.add_test_str("7\n");
    subtask3.add_test_str("8\n");
    subtask3.add_test_str("9\n");

    let subtask1 = task.add_subtask(subtask1);
    let subtask2 = task.add_subtask(subtask2);
    let subtask3 = task.add_subtask(subtask3);

    task.add_subtask_dependency(subtask3, subtask1);
    task.add_subtask_dependency(subtask3, subtask2);

    for _ in 0..10 {
        let plan = task.create_tests().unwrap();
        // subtask 3 expands to exactly nine files, its dependencies' tests
        // first, in registration order, its own tests last
        assert_eq!(plan[2].len(), 9);
        assert_eq!(
            contents(&plan, 2),
            vec!["1\n", "2\n", "3\n", "4\n", "5\n", "6\n", "7\n", "8\n", "9\n"]
        );
        assert_eq!(contents(&plan, 0), vec!["1\n", "2\n", "3\n"]);
        assert_eq!(contents(&plan, 1), vec!["4\n", "5\n", "6\n"]);
        // global numbering and default names
        assert_eq!(plan[0][0].test_id, 0);
        assert_eq!(plan[0][0].input_name, "test.01.001.in");
        assert_eq!(plan[0][0].output_name, "test.01.001.out");
        assert_eq!(plan[2][0].test_id, 6);
        assert_eq!(plan[2][0].test_id_in_subtask, 0);
        assert_eq!(plan[2][0].input_name, "test.03.007.in");
        assert_eq!(plan[2][8].test_id, 14);
        assert_eq!(plan[2][8].input_name, "test.03.015.in");
    }
}

#[test]
fn test_complicated_dependencies() {
    let mut task = Task::new("Test task");
    task.solution_source = String::from("int main() { return 0; }");

    let mut subs = Vec::new();
    for s in 1..=5 {
        let mut subtask = Subtask::new();
        for t in 1..=3 {
            subtask.add_test_str(&format!("{} {}\n", s, t));
        }
        subs.push(task.add_subtask(subtask));
    }

    task.add_subtask_dependency(subs[1], subs[0]);
    task.add_subtask_dependency(subs[2], subs[0]);
    task.add_subtask_dependency(subs[2], subs[1]);
    task.add_subtask_dependency(subs[3], subs[0]);
    task.add_subtask_dependency(subs[3], subs[1]);
    task.add_subtask_dependency(subs[3], subs[2]);
    task.add_subtask_dependency(subs[4], subs[0]);
    task.add_subtask_dependency(subs[4], subs[1]);
    task.add_subtask_dependency(subs[4], subs[2]);
    task.add_subtask_dependency(subs[4], subs[3]);

    for _ in 0..10 {
        let plan = task.create_tests().unwrap();
        // every dependency appears exactly once in each expansion
        assert_eq!(plan[0].len(), 3);
        assert_eq!(plan[1].len(), 6);
        assert_eq!(plan[2].len(), 9);
        assert_eq!(plan[3].len(), 12);
        assert_eq!(plan[4].len(), 15);
        assert_eq!(
            contents(&plan, 4),
            vec![
                "1 1\n", "1 2\n", "1 3\n", "2 1\n", "2 2\n", "2 3\n", "3 1\n", "3 2\n", "3 3\n",
                "4 1\n", "4 2\n", "4 3\n", "5 1\n", "5 2\n", "5 3\n"
            ]
        );
    }
}

#[test]
fn test_fails_without_solution() {
    let mut task = Task::new("Test task");
    for _ in 0..10 {
        assert!(matches!(task.create_tests(), Err(Error::MissingSolution)));
        assert!(matches!(task.create_tests(), Err(Error::MissingSolution)));
    }
}

#[test]
fn test_times_out() {
    // a reference solution that exceeds the limit on the only test aborts
    // the run before any partial-solution auditing
    let mut task = Task::new("Test task");
    task.solution_source = String::from("int main() { for (;;); }");
    task.time_limit_ms = 100;

    let mut subtask1 = Subtask::new();
    subtask1.add_test_str("1\n");
    task.add_subtask(subtask1);

    for _ in 0..3 {
        let plan = task.create_tests().unwrap();
        let results = vec![vec![RunResult::TimedOut]];
        let err = task.generate_test_solutions(&plan, &results).unwrap_err();
        match err {
            Error::SolutionTimedOut { test_path } => {
                assert_eq!(test_path, "test.01.001.in");
            }
            _ => panic!("expected a timeout error"),
        }
    }
}

#[test]
fn solution_crash_is_fatal() {
    let mut task = Task::new("Test task");
    task.solution_source = String::from("int main() { return 1; }");
    let mut subtask1 = Subtask::new();
    subtask1.add_test_str("1\n");
    subtask1.add_test_str("2\n");
    task.add_subtask(subtask1);

    let plan = task.create_tests().unwrap();
    let results = vec![vec![
        RunResult::Finished(3, String::from("1\n")),
        RunResult::Crashed,
    ]];
    let err = task.generate_test_solutions(&plan, &results).unwrap_err();
    match err {
        Error::SolutionFailed { test_path } => assert_eq!(test_path, "test.01.002.in"),
        _ => panic!("expected a crash error"),
    }
}

#[test]
fn reference_outputs_are_collected() {
    let mut task = Task::new("Test task");
    task.solution_source = String::from("int main() { return 0; }");
    let mut subtask1 = Subtask::new();
    subtask1.add_test_str("1\n");
    subtask1.add_test_str("2\n");
    task.add_subtask(subtask1);

    let plan = task.create_tests().unwrap();
    let results = vec![vec![
        RunResult::Finished(3, String::from("a\n")),
        RunResult::Finished(9, String::from("b\n")),
    ]];
    let (outs, max_ms) = task.generate_test_solutions(&plan, &results).unwrap();
    assert_eq!(outs, vec![vec![String::from("a\n"), String::from("b\n")]]);
    assert_eq!(max_ms, 9);
}

#[test]
fn materialization_is_deterministic() {
    // a random test included by two masters through the dependency closure
    // is generated once and copied byte-identically
    let mut task = Task::new("Test task");
    task.solution_source = String::from("int main() { return 0; }");

    let mut subtask1 = Subtask::new();
    subtask1.add_test(3, testgen::array_generator(5, 10, 1, 1000));
    let mut subtask2 = Subtask::new();
    subtask2.add_test_str("fixed\n");

    let s1 = task.add_subtask(subtask1);
    let s2 = task.add_subtask(subtask2);
    task.add_subtask_dependency(s2, s1);

    let plan = task.create_tests().unwrap();
    assert_eq!(plan[0].len(), 3);
    assert_eq!(plan[1].len(), 4);
    for k in 0..3 {
        assert_eq!(plan[0][k].content, plan[1][k].content);
    }
    // a fresh run re-rolls the randomness but stays coherent within itself
    let plan2 = task.create_tests().unwrap();
    for k in 0..3 {
        assert_eq!(plan2[0][k].content, plan2[1][k].content);
    }
}

#[test]
fn test_partial_solution() {
    // the partial solution overflows on the big-value tier: correct on the
    // first subtask, wrong on the second subtask's own tests — and it is
    // declared that way, so the audit passes
    let mut task = Task::new("Test task");
    task.solution_source = String::from("int main() { return 0; }");

    let mut subtask1 = Subtask::new();
    subtask1.points = 50;
    subtask1.add_test(5, testgen::array_generator(1, 100, 1, 100));
    let mut subtask2 = Subtask::new();
    subtask2.points = 50;
    subtask2.add_test(5, testgen::array_generator(1, 100, 1, 1_000_000_000));

    let subtask1 = task.add_subtask(subtask1);
    let subtask2 = task.add_subtask(subtask2);
    task.add_subtask_dependency(subtask2, subtask1);
    task.add_partial_solution("solution1.cpp", &vec![subtask1]);

    let plan = task.create_tests().unwrap();
    let expected: Vec<Vec<String>> = plan
        .iter()
        .map(|sub| sub.iter().map(|_| String::from("sum\n")).collect())
        .collect();
    // correct on subtask 1's five tests; on subtask 2's expansion the five
    // inherited tests are still correct, its own five overflow
    let mut results = echo_results(&plan, "sum\n");
    for k in 5..10 {
        results[1][k] = RunResult::Finished(1, String::from("overflowed\n"));
    }
    let passed = run_partial_solution(&results, &expected);
    assert_eq!(passed, vec![true, false]);
    task.check_partial_solutions(&vec![passed]).unwrap();
}

#[test]
fn test_partial_solution_wrong_subtask() {
    // declared to pass both subtasks, but fails the second: the audit names
    // partial solution 1 and subtask 2
    let mut task = Task::new("Test task");
    task.solution_source = String::from("int main() { return 0; }");

    let mut subtask1 = Subtask::new();
    subtask1.add_test_str("1\n");
    let mut subtask2 = Subtask::new();
    subtask2.add_test_str("2\n");

    let subtask1 = task.add_subtask(subtask1);
    let subtask2 = task.add_subtask(subtask2);
    task.add_partial_solution("solution1.cpp", &vec![subtask1, subtask2]);

    let plan = task.create_tests().unwrap();
    let expected: Vec<Vec<String>> = plan
        .iter()
        .map(|sub| sub.iter().map(|_| String::from("1\n")).collect())
        .collect();
    let mut results = echo_results(&plan, "1\n");
    results[1][0] = RunResult::Finished(1, String::from("2\n"));
    let passed = run_partial_solution(&results, &expected);
    let err = task.check_partial_solutions(&vec![passed]).unwrap_err();
    assert!(matches!(
        err,
        Error::PartialSolutionFailsSubtask { subtask_number: 2, partial_number: 1 }
    ));
}

#[test]
fn test_partial_solution_wa() {
    // a wrong answer on an undeclared subtask is consistent with the
    // declaration, but passing an undeclared subtask is not
    let mut task = Task::new("Test task");
    task.solution_source = String::from("int main() { return 0; }");

    let mut subtask1 = Subtask::new();
    subtask1.add_test_str("1\n");
    let mut subtask2 = Subtask::new();
    subtask2.add_test_str("2\n");

    let subtask1 = task.add_subtask(subtask1);
    let subtask2 = task.add_subtask(subtask2);
    let _ = subtask2;
    task.add_partial_solution("solution1.cpp", &vec![subtask1]);

    let plan = task.create_tests().unwrap();
    let expected: Vec<Vec<String>> = plan
        .iter()
        .map(|sub| sub.iter().map(|_| String::from("1\n")).collect())
        .collect();
    // it passes everything it should not: the audit reports the extra pass
    let results = echo_results(&plan, "1\n");
    let passed = run_partial_solution(&results, &expected);
    let err = task.check_partial_solutions(&vec![passed]).unwrap_err();
    assert!(matches!(
        err,
        Error::PartialSolutionPassesExtraSubtask { subtask_number: 2, partial_number: 1 }
    ));
}

#[test]
fn test_partial_solution_tle() {
    // a timeout on an undeclared subtask: consistent with the declaration
    let mut task = Task::new("Test task");
    task.solution_source = String::from("int main() { return 0; }");

    let mut subtask1 = Subtask::new();
    subtask1.add_test_str("1\n");
    let mut subtask2 = Subtask::new();
    subtask2.add_test_str("2\n");

    let subtask1 = task.add_subtask(subtask1);
    let _subtask2 = task.add_subtask(subtask2);
    task.add_partial_solution("solution1.cpp", &vec![subtask1]);

    let plan = task.create_tests().unwrap();
    let expected: Vec<Vec<String>> = plan
        .iter()
        .map(|sub| sub.iter().map(|_| String::from("1\n")).collect())
        .collect();
    let mut results = echo_results(&plan, "1\n");
    results[1][0] = RunResult::TimedOut;
    let passed = run_partial_solution(&results, &expected);
    assert_eq!(passed, vec![true, false]);
    task.check_partial_solutions(&vec![passed]).unwrap();
}

#[test]
fn test_partial_solution_crash() {
    // a crash on an undeclared subtask: consistent with the declaration
    let mut task = Task::new("Test task");
    task.solution_source = String::from("int main() { return 0; }");

    let mut subtask1 = Subtask::new();
    subtask1.add_test_str("1\n");
    let mut subtask2 = Subtask::new();
    subtask2.add_test_str("2\n");

    let subtask1 = task.add_subtask(subtask1);
    let _subtask2 = task.add_subtask(subtask2);
    task.add_partial_solution("solution1.cpp", &vec![subtask1]);

    let plan = task.create_tests().unwrap();
    let expected: Vec<Vec<String>> = plan
        .iter()
        .map(|sub| sub.iter().map(|_| String::from("1\n")).collect())
        .collect();
    let mut results = echo_results(&plan, "1\n");
    results[1][0] = RunResult::Crashed;
    let passed = run_partial_solution(&results, &expected);
    assert_eq!(passed, vec![true, false]);
    task.check_partial_solutions(&vec![passed]).unwrap();
}

#[test]
fn test_partial_solution_tle2() {
    // a declared subtask that times out: the audit reports the failure
    let mut task = Task::new("Test task");
    task.solution_source = String::from("int main() { return 0; }");

    let mut subtask1 = Subtask::new();
    subtask1.add_test_str("1\n");
    let subtask1 = task.add_subtask(subtask1);
    task.add_partial_solution("solution1.cpp", &vec![subtask1]);

    let plan = task.create_tests().unwrap();
    let expected = vec![vec![String::from("1\n")]];
    let results = vec![vec![RunResult::TimedOut]];
    let passed = run_partial_solution(&results, &expected);
    let err = task.check_partial_solutions(&vec![passed]).unwrap_err();
    assert!(matches!(
        err,
        Error::PartialSolutionFailsSubtask { subtask_number: 1, partial_number: 1 }
    ));
}

#[test]
fn cps_package_data() {
    let mut task = Task::new("Test task");
    task.solution_source = String::from("int main() { return 0; }");

    let mut subtask1 = Subtask::new();
    subtask1.points = 10;
    subtask1.add_test_str("1\n");
    let mut subtask2 = Subtask::new();
    subtask2.points = 20;
    subtask2.add_test_str("2\n");
    let mut subtask3 = Subtask::new();
    subtask3.points = 30;
    subtask3.add_test_str("3\n");

    let s1 = task.add_subtask(subtask1);
    let s2 = task.add_subtask(subtask2);
    let s3 = task.add_subtask(subtask3);
    task.add_subtask_dependency(s2, s1);
    task.add_subtask_dependency(s3, s1);
    task.add_subtask_dependency(s3, s2);

    let plan = task.create_tests().unwrap();
    let results = echo_results(&plan, "ok\n");
    let (outputs, _) = task.generate_test_solutions(&plan, &results).unwrap();
    let cps = task.generate_cps_data(&plan, &outputs);

    assert_eq!(cps.subtask_points, vec![10, 20, 30]);
    assert_eq!(
        cps.tests,
        vec![
            (String::from("1\n"), String::from("ok\n")),
            (String::from("2\n"), String::from("ok\n")),
            (String::from("3\n"), String::from("ok\n")),
        ]
    );
    // each list concatenates its direct dependencies' lists, duplicates
    // kept, then its own new indices
    assert_eq!(cps.subtask_tests, vec![
        vec![0],
        vec![0, 1],
        vec![0, 0, 1, 2],
    ]);
}

#[test]
fn acyclic_by_construction() {
    // dependencies point strictly downward: the closure is finite and the
    // subtask itself always comes last
    let mut task = Task::new("Test task");
    task.solution_source = String::from("int main() { return 0; }");
    let mut a = Subtask::new();
    a.add_test_str("a\n");
    let mut b = Subtask::new();
    b.add_test_str("b\n");
    let ia = task.add_subtask(a);
    let ib = task.add_subtask(b);
    task.add_subtask_dependency(ib, ia);
    let closure = task.get_all_dependencies(ib);
    assert_eq!(closure, vec![ia, ib]);
    let closure = task.get_all_dependencies(ia);
    assert_eq!(closure, vec![ia]);
    assert_eq!(task.get_total_tests(ib), 2);
    assert_eq!(task.get_num_all_tests(), 3);
}

#[test]
fn create_empty() {
    let mut task = Task::new("Test task");
    task.solution_source = String::from("int main() { return 0; }");
    for _ in 0..10 {
        let plan = task.create_tests().unwrap();
        assert!(plan.is_empty());
    }
}
