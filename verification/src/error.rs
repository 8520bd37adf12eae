//! The error taxonomy of the crate: environment errors, authoring errors,
//! execution errors and contract errors. Every fatal pipeline outcome is one
//! of these variants.
use vstd::prelude::*;

verus! {

/// One error of the pipeline. Variants that wrap a failure of an embedding
/// layer (I/O, archiving, encoding) carry its message as text.
#[derive(Debug)]
pub enum Error {
    CustomError { message: String },
    IOError { err: String, file: String },
    SnapError { err: String },
    BincodeError { err: String },
    ZipError { err: String },
    TestAlreadyExists { path: String },
    InputExpectedInteger,
    InputExpectedFloat,
    InputExpectedString,
    InputExpectedEnd,
    ExpectedIntegers { n: i32 },
    CompilerNotFound,
    CompilerError { stderr: String, stdout: String },
    SolutionTimedOut { test_path: String },
    SolutionFailed { test_path: String },
    PartialSolutionPassesExtraSubtask { subtask_number: usize, partial_number: usize },
    PartialSolutionFailsSubtask { subtask_number: usize, partial_number: usize },
    MissingSolution,
}

impl Error {
    /// A human-readable line describing the error.
    pub fn message(&self) -> String {
        let mut s = String::new();
        match self {
            Error::CustomError { message } => {
                s.append(message.as_str());
            },
            Error::IOError { err, file } => {
                s.append("IO Error: ");
                s.append(err.as_str());
                s.append(" with file: ");
                s.append(file.as_str());
            },
            Error::SnapError { err } => {
                s.append("Snap Error: ");
                s.append(err.as_str());
            },
            Error::BincodeError { err } => {
                s.append("Bincode Error: ");
                s.append(err.as_str());
            },
            Error::ZipError { err } => {
                s.append("Zip Error: ");
                s.append(err.as_str());
            },
            Error::TestAlreadyExists { path } => {
                s.append("Test file ");
                s.append(path.as_str());
                s.append(" already exists");
            },
            Error::InputExpectedInteger => {
                s.append("Expected integer in input");
            },
            Error::InputExpectedFloat => {
                s.append("Expected float in input");
            },
            Error::InputExpectedString => {
                s.append("Expected string in input");
            },
            Error::InputExpectedEnd => {
                s.append("Expected end of input");
            },
            Error::ExpectedIntegers { n } => {
                s.append("Expected ");
                crate::decimal::push_i32_dec(&mut s, *n);
                s.append(" integers");
            },
            Error::CompilerNotFound => {
                s.append(
                    "C++ compiler is not found. Make sure to install it first. If it is already installed, specify the path to compiler with the GCC_PATH environment variable.",
                );
            },
            Error::CompilerError { stderr, stdout } => {
                s.append("Compiler error: ");
                s.append(stderr.as_str());
                s.append("\n");
                s.append(stdout.as_str());
            },
            Error::SolutionTimedOut { test_path } => {
                s.append("Solution timed out on test ");
                s.append(test_path.as_str());
            },
            Error::SolutionFailed { test_path } => {
                s.append("Solution crashed on test ");
                s.append(test_path.as_str());
            },
            Error::PartialSolutionPassesExtraSubtask { subtask_number, partial_number } => {
                s.append("Partial solution ");
                crate::decimal::push_u64_dec(&mut s, *partial_number as u64);
                s.append(" passes extra subtask ");
                crate::decimal::push_u64_dec(&mut s, *subtask_number as u64);
            },
            Error::PartialSolutionFailsSubtask { subtask_number, partial_number } => {
                s.append("Partial solution ");
                crate::decimal::push_u64_dec(&mut s, *partial_number as u64);
                s.append(" does not pass subtask ");
                crate::decimal::push_u64_dec(&mut s, *subtask_number as u64);
                s.append(".");
            },
            Error::MissingSolution => {
                s.append("Missing solution");
            },
        }
        s
    }
}

} // verus!
