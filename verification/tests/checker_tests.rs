use testgen::{Checker, Error, Input, Subtask, Task};

/// Expects `a b` with `a == b`, both in `[1, 100]`.
struct EqualPair;

impl Checker for EqualPair {
    fn check(&self, mut input: Input) -> Result<(), Error> {
        let a = input.get_int()?;
        let b = input.get_int()?;
        input.expect_end()?;
        if a != b {
            return Err(Error::CustomError {
                message: String::from("a should be equal to b"),
            });
        }
        if !(1..=100).contains(&a) {
            return Err(Error::CustomError {
                message: String::from("a and b should be in range [1, 100]"),
            });
        }
        Ok(())
    }
}

/// Expects `a b` with both in `[1, 100]`.
struct PairInRange;

impl Checker for PairInRange {
    fn check(&self, mut input: Input) -> Result<(), Error> {
        let a = input.get_int()?;
        let b = input.get_int()?;
        input.expect_end()?;
        if !(1..=100).contains(&a) {
            return Err(Error::CustomError {
                message: String::from("a should be in range [1, 100]"),
            });
        }
        if !(1..=100).contains(&b) {
            return Err(Error::CustomError {
                message: String::from("b should be in range [1, 100]"),
            });
        }
        Ok(())
    }
}

/// Expects `a b` with `b == 1` and `a` in `[1, 100]`.
struct SecondIsOne;

impl Checker for SecondIsOne {
    fn check(&self, mut input: Input) -> Result<(), Error> {
        let a = input.get_int()?;
        let b = input.get_int()?;
        input.expect_end()?;
        if b != 1 {
            return Err(Error::CustomError {
                message: String::from("b should be equal to 1"),
            });
        }
        if !(1..=100).contains(&a) {
            return Err(Error::CustomError {
                message: String::from("a should be in range [1, 100]"),
            });
        }
        Ok(())
    }
}

fn generate_and_check(task: &mut Task) -> Result<(), Error> {
    let plan = task.create_tests()?;
    task.check_tests(&plan)
}

#[test]
fn test_checker2() {
    let mut task = Task::new("Test task");
    task.solution_source = String::from("int main() { return 0; }");

    let mut subtask1 = Subtask::new();
    subtask1.points = 20;
    subtask1.set_checker(Box::new(EqualPair));
    subtask1.add_test_str("1 1");
    subtask1.add_test_str("2 2");
    subtask1.add_test_str("3 3");
    task.add_subtask(subtask1);

    for _ in 0..10 {
        generate_and_check(&mut task).unwrap();
    }
}

#[test]
fn test_checker_fail2() {
    let mut task = Task::new("Test task");
    task.solution_source = String::from("int main() { return 0; }");

    let mut subtask1 = Subtask::new();
    subtask1.points = 20;
    subtask1.set_checker(Box::new(EqualPair));
    subtask1.add_test_str("1 1");
    subtask1.add_test_str("2 3");
    subtask1.add_test_str("3 3");
    task.add_subtask(subtask1);

    for _ in 0..10 {
        assert!(matches!(
            generate_and_check(&mut task).unwrap_err(),
            Error::CustomError { .. }
        ));
    }
}

#[test]
fn test_checker_fail3() {
    let mut task = Task::new("Test task");
    task.solution_source = String::from("int main() { return 0; }");

    let mut subtask1 = Subtask::new();
    subtask1.points = 20;
    subtask1.set_checker(Box::new(EqualPair));
    subtask1.add_test_str("1 1");
    subtask1.add_test_str("2 2");
    subtask1.add_test_str("3");
    subtask1.add_test_str("5 5");
    task.add_subtask(subtask1);

    for _ in 0..10 {
        assert!(matches!(
            generate_and_check(&mut task).unwrap_err(),
            Error::InputExpectedInteger { .. }
        ));
    }
}

#[test]
fn test_checker_fail4() {
    let mut task = Task::new("Test task");
    task.solution_source = String::from("int main() { return 0; }");

    let mut subtask1 = Subtask::new();
    subtask1.points = 20;
    subtask1.set_checker(Box::new(EqualPair));
    subtask1.add_test_str("1 1");
    subtask1.add_test_str("2 2");
    subtask1.add_test_str("3 3 3");
    subtask1.add_test_str("5 5");
    task.add_subtask(subtask1);

    for _ in 0..10 {
        assert!(matches!(
            generate_and_check(&mut task).unwrap_err(),
            Error::InputExpectedEnd { .. }
        ));
    }
}

#[test]
fn test_checker3() {
    let mut task = Task::new("Test task");
    task.solution_source = String::from("int main() { return 0; }");

    let mut subtask1 = Subtask::new();
    subtask1.points = 20;
    subtask1.set_checker(Box::new(EqualPair));
    subtask1.add_test_str("1 1");
    subtask1.add_test_str("2 2");
    subtask1.add_test_str("3 3");

    let mut subtask2 = Subtask::new();
    subtask2.points = 80;
    subtask2.set_checker(Box::new(PairInRange));
    subtask2.add_test_str("1 1");
    subtask2.add_test_str("2 4");
    subtask2.add_test_str("3 5");
    subtask2.add_test_str("4 6");
    subtask2.add_test_str("100 100");

    let mut subtask3 = Subtask::new();
    subtask3.points = 100;
    subtask3.set_checker(Box::new(SecondIsOne));
    subtask3.add_test_str("1 1");
    subtask3.add_test_str("2 1");
    subtask3.add_test_str("3 1");
    subtask3.add_test_str("4 1");
    subtask3.add_test_str("100 1");

    let subtask1 = task.add_subtask(subtask1);
    let subtask2 = task.add_subtask(subtask2);
    task.add_subtask(subtask3);

    task.add_subtask_dependency(subtask2, subtask1);

    for _ in 0..10 {
        generate_and_check(&mut task).unwrap();
    }
}

#[test]
fn test_checker_fail5() {
    let mut task = Task::new("Test task");
    task.solution_source = String::from("int main() { return 0; }");

    let mut subtask1 = Subtask::new();
    subtask1.points = 20;
    subtask1.set_checker(Box::new(EqualPair));
    subtask1.add_test_str("1 1");
    subtask1.add_test_str("2 2");
    subtask1.add_test_str("3 3");

    let mut subtask2 = Subtask::new();
    subtask2.points = 80;
    subtask2.set_checker(Box::new(PairInRange));
    subtask2.add_test_str("1 1");
    subtask2.add_test_str("2 4");
    subtask2.add_test_str("3 5");
    subtask2.add_test_str("4 6");
    subtask2.add_test_str("100 100");

    let mut subtask3 = Subtask::new();
    subtask3.points = 100;
    subtask3.set_checker(Box::new(SecondIsOne));
    subtask3.add_test_str("1 1");
    subtask3.add_test_str("2 1");
    subtask3.add_test_str("3 1");
    subtask3.add_test_str("4 1");
    subtask3.add_test_str("100 1");

    task.add_subtask(subtask1);
    let subtask2 = task.add_subtask(subtask2);
    let subtask3 = task.add_subtask(subtask3);

    for _ in 0..10 {
        generate_and_check(&mut task).unwrap();
    }

    // with subtask 2 as a dependency, its tests flow into subtask 3's
    // expansion and violate subtask 3's checker
    task.add_subtask_dependency(subtask3, subtask2);

    for _ in 0..10 {
        assert!(matches!(
            generate_and_check(&mut task).unwrap_err(),
            Error::CustomError { .. }
        ));
    }
}
