use testgen::{array_generator, Checker, Error, GenRule, Input, Subtask, Task, Test, TestGenerator};

/// Expects `n x1 .. xn`, `n` in `[min_n, max_n]`, each value in
/// `[min_x, max_x]`.
struct ArrayChecker {
    min_n: i32,
    max_n: i32,
    min_x: i32,
    max_x: i32,
}

impl Checker for ArrayChecker {
    fn check(&self, mut input: Input) -> Result<(), Error> {
        let array = input.get_array()?;
        input.expect_end()?;
        let n = array.len() as i32;
        if !(self.min_n..=self.max_n).contains(&n) {
            return Err(Error::CustomError {
                message: String::from("n is out of range"),
            });
        }
        for x in array {
            if !(self.min_x..=self.max_x).contains(&x) {
                return Err(Error::CustomError {
                    message: String::from("an array value is out of range"),
                });
            }
        }
        Ok(())
    }
}

#[test]
fn test_array_generator() {
    let mut task = Task::new("Test task");
    task.solution_source = String::from("int main() { return 0; }");

    let mut subtask1 = Subtask::new();
    subtask1.set_checker(Box::new(ArrayChecker { min_n: 1, max_n: 100, min_x: 1, max_x: 100 }));
    subtask1.add_test(5, array_generator(1, 100, 1, 100));
    subtask1.add_test(5, array_generator(1, 100, 1, 1));
    subtask1.add_test(5, array_generator(100, 100, 1, 100));
    subtask1.add_test(5, array_generator(100, 100, 1, 1));
    subtask1.add_test(1, array_generator(100, 100, 1, 1));

    // n must be exactly 42
    let mut subtask2 = Subtask::new();
    subtask2.set_checker(Box::new(ArrayChecker { min_n: 42, max_n: 42, min_x: 1, max_x: 100 }));
    subtask2.add_test(5, array_generator(42, 42, 1, 100));
    subtask2.add_test(5, array_generator(42, 42, 1, 1));
    subtask2.add_test(5, array_generator(42, 42, 100, 100));

    // all values must be 47
    let mut subtask3 = Subtask::new();
    subtask3.set_checker(Box::new(ArrayChecker { min_n: 1, max_n: 100, min_x: 47, max_x: 47 }));
    subtask3.add_test(5, array_generator(1, 100, 47, 47));
    subtask3.add_test(5, array_generator(100, 100, 47, 47));
    subtask3.add_test(5, array_generator(1, 1, 47, 47));

    let subtask1 = task.add_subtask(subtask1);
    let subtask2 = task.add_subtask(subtask2);
    task.add_subtask(subtask3);

    for _ in 0..10 {
        let plan = task.create_tests().unwrap();
        task.check_tests(&plan).unwrap();
    }

    // subtask 1's arbitrary-length tests flow into subtask 2, whose checker
    // demands exactly 42 values
    task.add_subtask_dependency(subtask2, subtask1);

    for _ in 0..10 {
        let plan = task.create_tests().unwrap();
        assert!(matches!(
            task.check_tests(&plan).unwrap_err(),
            Error::CustomError { .. }
        ));
    }
}

#[test]
fn generated_arrays_stay_in_bounds() {
    for _ in 0..50 {
        let gen = array_generator(3, 7, -20, 20);
        let text = gen.generate();
        let mut input = Input::new(&text);
        let array = input.get_array().unwrap();
        input.expect_end().unwrap();
        assert!((3..=7).contains(&(array.len() as i32)));
        for x in array {
            assert!((-20..=20).contains(&x));
        }
    }
}

#[test]
fn fixed_generator_repeats_exactly() {
    let gen = TestGenerator::new(GenRule::Fixed(String::from("7 1\n")));
    assert_eq!(gen.generate(), "7 1\n");
    assert_eq!(gen.generate(), "7 1\n");
}

#[test]
fn test_cache_is_one_shot() {
    let mut test = Test::new(TestGenerator::new(GenRule::RandomArray {
        min_n: 50,
        max_n: 100,
        min_x: 0,
        max_x: 1_000_000,
    }));
    let first = test.generate_input();
    let again = test.generate_input();
    assert_eq!(first, again);
    test.reset_input_file();
    let fresh = test.generate_input();
    assert_eq!(fresh, test.generate_input());
}
