use testgen::runner::{
    classify_compile, classify_run, run_partial_solution, CppRunner, Gcc, GccOptimization,
    GccStandard, RunResult, TestResult,
};

#[test]
fn test_gcc_new() {
    let gcc = Gcc::new();
    assert!(gcc.is_ok());
}

#[test]
fn gcc_flags() {
    assert_eq!(GccStandard::Cpp17.as_str(), "c++17");
    assert_eq!(GccStandard::Cpp20.as_str(), "c++20");
    assert_eq!(GccOptimization::Level2.as_str(), "2");
    assert_eq!(GccOptimization::Fast.as_str(), "fast");
    let mut gcc = Gcc::new().unwrap();
    gcc.standard = Some(GccStandard::Cpp17);
    gcc.optimization = Some(GccOptimization::Level2);
    let args = gcc.compile_args("main.cpp", "main");
    assert_eq!(args, vec!["-std=c++17", "-O2", "main.cpp", "-o", "main"]);
}

#[test]
fn compile_outcomes() {
    assert!(classify_compile(true, String::new(), String::new(), true).is_ok());
    let err = classify_compile(false, String::from("boom"), String::from("log"), true);
    assert!(matches!(err, Err(testgen::Error::CompilerError { .. })));
    let err = classify_compile(true, String::new(), String::new(), false);
    match err {
        Err(testgen::Error::CompilerError { stderr, stdout }) => {
            assert_eq!(stderr, "Output file was not created");
            assert_eq!(stdout, "");
        }
        _ => panic!("expected a compiler error"),
    }
}

#[test]
fn run_outcomes() {
    // the harness signals a timeout with exit code 1
    assert_eq!(
        classify_run(Some(1), false, "", String::new(), 1000),
        RunResult::TimedOut
    );
    // any other failing exit is a crash
    assert_eq!(
        classify_run(Some(139), false, "", String::new(), 1000),
        RunResult::Crashed
    );
    assert_eq!(
        classify_run(None, false, "", String::new(), 1000),
        RunResult::Crashed
    );
    // a clean exit carries the elapsed milliseconds on the diagnostic stream
    assert_eq!(
        classify_run(Some(0), true, "123", String::from("ok\n"), 1000),
        RunResult::Finished(123, String::from("ok\n"))
    );
    // a clean exit that still exceeded the limit is a timeout
    assert_eq!(
        classify_run(Some(0), true, "1200", String::from("ok\n"), 1000),
        RunResult::TimedOut
    );
}

#[test]
fn test_runner_new() {
    let runner = CppRunner::new();
    assert_eq!(runner.num_programs(), 0);
    assert_eq!(runner.num_tasks(), 0);
}

#[test]
fn test_runner_add_program() {
    let mut runner = CppRunner::new();
    let first = runner.add_program("int main() { return 0; }");
    let second = runner.add_program("int main() { return 0; }");
    assert_eq!(first.id, second.id);
    assert_eq!(runner.num_programs(), 1);
    let third = runner.add_program("int main() { return 1; }");
    assert_ne!(first.id, third.id);
    assert_eq!(runner.num_programs(), 2);
}

#[test]
fn test_same_program_100_times() {
    let mut runner = CppRunner::new();
    let first = runner.add_program("int main() { return 0; }");
    for _ in 0..100 {
        let again = runner.add_program("int main() { return 0; }");
        assert_eq!(first.id, again.id);
    }
    assert_eq!(runner.num_programs(), 1);
}

#[test]
fn runner_queue_round_trip() {
    let mut runner = CppRunner::new();
    let program = runner.add_program("int main() { return 0; }");
    let task = runner.add_task(program, String::from("5\n"), 2000);
    assert_eq!(runner.num_tasks(), 1);
    assert_eq!(runner.task_input(task), "5\n");
    assert_eq!(runner.task_time_limit_ms(task), 2000);
    assert_eq!(runner.task_program(task).id, program.id);
    runner.set_result(task, RunResult::Finished(10, String::from("25\n")));
    let got = runner.get_result(task);
    assert_eq!(got, RunResult::Finished(10, String::from("25\n")));
    runner.clear_tasks();
    assert_eq!(runner.num_tasks(), 0);
    assert_eq!(runner.num_programs(), 1);
}

#[test]
fn verdicts_from_run_results() {
    assert_eq!(
        TestResult::from(&RunResult::Finished(3, String::from("x"))),
        TestResult::Passed
    );
    assert_eq!(TestResult::from(&RunResult::TimedOut), TestResult::TimedOut);
    assert_eq!(TestResult::from(&RunResult::Crashed), TestResult::Crashed);
}

#[test]
fn partial_pass_sets() {
    // one subtask fully correct, one with a wrong answer, one with a crash
    let results = vec![
        vec![
            RunResult::Finished(5, String::from("3\n")),
            RunResult::Finished(6, String::from(" 3 ")),
        ],
        vec![
            RunResult::Finished(5, String::from("3 4")),
        ],
        vec![RunResult::Crashed],
    ];
    let expected = vec![
        vec![String::from("3"), String::from("3")],
        vec![String::from("4 3")],
        vec![String::from("0")],
    ];
    let passed = run_partial_solution(&results, &expected);
    assert_eq!(passed, vec![true, false, false]);
}
