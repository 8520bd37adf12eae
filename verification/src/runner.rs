//! The program cache and run model: compiled programs are keyed by their
//! source text, queued runs hold an input and a time limit, and raw process
//! outcomes are classified into verdicts. Process spawning itself is left to
//! the embedding program; every decision about its outcome is made here.
use vstd::prelude::*;
use vstd::pervasive::VecAdditionalExecFns;
use crate::decimal::{int_token_val, parses_as_i32};
use crate::error::Error;
use crate::text::tokens_of;

verus! {

/// The outcome of one run of a program on one input.
#[derive(Clone, PartialEq, Eq, Debug)]
pub enum RunResult {
    /// Finished in time: elapsed milliseconds and captured output.
    Finished(i32, String),
    TimedOut,
    Crashed,
}

/// A verdict for one test of a partial solution.
#[derive(Clone, Copy, Debug, PartialEq, Eq, Hash, PartialOrd, Ord)]
pub enum TestResult {
    Passed,
    TimedOut,
    Crashed,
    WrongAnswer,
}

impl TestResult {
    /// The verdict matching a raw run outcome; output comparison may still
    /// turn an `Ok` into `WrongAnswer`.
    pub fn from(result: &RunResult) -> (r: TestResult)
        ensures
            r is Passed <==> result is Finished,
            r is TimedOut <==> result is TimedOut,
            r is Crashed <==> result is Crashed,
    {
        match result {
            RunResult::Finished(_, _) => TestResult::Passed,
            RunResult::TimedOut => TestResult::TimedOut,
            RunResult::Crashed => TestResult::Crashed,
        }
    }
}

/// Classifies the outcome of the timing harness around one run.
///
/// The harness exits with code 1 on timeout; any other unsuccessful exit is a
/// crash of the target. On a successful exit the harness reports the elapsed
/// milliseconds on its diagnostic stream, and an in-time exit whose reported
/// time still exceeds the limit counts as a timeout.
pub fn classify_run(
    exit_code: Option<i32>,
    success: bool,
    stderr: &str,
    output: String,
    time_limit_ms: i32,
) -> (r: RunResult)
    requires
        (exit_code != Some(1i32) && success) ==> parses_as_i32(stderr@),
    ensures
        exit_code == Some(1i32) ==> r is TimedOut,
        exit_code != Some(1i32) && !success ==> r is Crashed,
        exit_code != Some(1i32) && success ==> {
            if int_token_val(stderr@) > time_limit_ms {
                r is TimedOut
            } else {
                r == RunResult::Finished(int_token_val(stderr@) as i32, output)
            }
        },
{
    let timed_out_code = match exit_code {
        Some(c) => c == 1,
        None => false,
    };
    if timed_out_code {
        return RunResult::TimedOut;
    }
    if !success {
        return RunResult::Crashed;
    }
    let elapsed = match crate::decimal::parse_i32_str(stderr) {
        Some(v) => v,
        None => {
            proof {
                assert(false);
            }
            0
        },
    };
    if elapsed > time_limit_ms {
        return RunResult::TimedOut;
    }
    RunResult::Finished(elapsed, output)
}

/// One test of one subtask is passed when the run finished in time and its
/// output matches the reference output up to whitespace.
pub open spec fn test_passed(r: RunResult, expected: Seq<char>) -> bool {
    match r {
        RunResult::Finished(_, out) => tokens_of(out@) == tokens_of(expected),
        _ => false,
    }
}

/// A subtask is passed when every test of its expansion is passed.
pub open spec fn subtask_passed(rs: Seq<RunResult>, expected: Seq<String>) -> bool {
    rs.len() == expected.len() && forall|i: int|
        0 <= i < rs.len() ==> test_passed(#[trigger] rs[i], expected[i]@)
}

/// Computes, for each subtask, whether a partial solution passed it: every
/// test must have finished in time with output equal to the reference output
/// up to whitespace.
pub fn run_partial_solution(results: &Vec<Vec<RunResult>>, expected: &Vec<Vec<String>>) -> (passed:
    Vec<bool>)
    requires
        results@.len() == expected@.len(),
        forall|s: int| 0 <= s < results@.len() ==> (#[trigger] results@[s])@.len() == expected@[s]@.len(),
    ensures
        passed@.len() == results@.len(),
        forall|s: int|
            0 <= s < results@.len() ==> (#[trigger] passed@[s] == subtask_passed(
                results@[s]@,
                expected@[s]@,
            )),
{
    let mut passed: Vec<bool> = Vec::new();
    let n = results.len();
    let mut s: usize = 0;
    while s < n
        invariant
            n == results@.len(),
            n == expected@.len(),
            forall|j: int|
                0 <= j < n ==> (#[trigger] results@[j])@.len() == expected@[j]@.len(),
            s <= n,
            passed@.len() == s as int,
            forall|j: int|
                0 <= j < s ==> (#[trigger] passed@[j] == subtask_passed(
                    results@[j]@,
                    expected@[j]@,
                )),
        decreases n - s,
    {
        let rs = &results[s];
        let es = &expected[s];
        let m = rs.len();
        let mut all_ok = true;
        let mut i: usize = 0;
        while i < m
            invariant
                m == rs@.len(),
                m == es@.len(),
                i <= m,
                all_ok == (forall|k: int| 0 <= k < i ==> test_passed(#[trigger] rs@[k], es@[k]@)),
            decreases m - i,
        {
            match &rs[i] {
                RunResult::Finished(_, out) => {
                    if !crate::text::are_outputs_equal(out.as_str(), es[i].as_str()) {
                        all_ok = false;
                    }
                },
                _ => {
                    all_ok = false;
                },
            }
            i = i + 1;
        }
        passed.push(all_ok);
        s = s + 1;
    }
    passed
}

/// Relies on which::which: `Ok` carries the path of an executable of that
/// name found on the search path.
#[verifier::external_body]
fn which_compiler(name: &str) -> (r: Option<String>) {
    match which::which(name) {
        Ok(p) => Some(p.to_string_lossy().into_owned()),
        Err(_) => None,
    }
}

/// The language standard handed to the compiler.
#[derive(Debug, Clone, Copy, PartialEq, Eq)]
pub enum GccStandard {
    Cpp98,
    Cpp11,
    Cpp14,
    Cpp17,
    Cpp20,
    Cpp23,
}

impl GccStandard {
    /// The text of this standard as it appears in a `-std=` flag.
    pub fn as_str(&self) -> (r: &str)
        ensures
            self is Cpp98 ==> r@ == "c++98"@,
            self is Cpp11 ==> r@ == "c++11"@,
            self is Cpp14 ==> r@ == "c++14"@,
            self is Cpp17 ==> r@ == "c++17"@,
            self is Cpp20 ==> r@ == "c++20"@,
            self is Cpp23 ==> r@ == "c++23"@,
    {
        match self {
            GccStandard::Cpp98 => "c++98",
            GccStandard::Cpp11 => "c++11",
            GccStandard::Cpp14 => "c++14",
            GccStandard::Cpp17 => "c++17",
            GccStandard::Cpp20 => "c++20",
            GccStandard::Cpp23 => "c++23",
        }
    }
}

/// The optimization level handed to the compiler.
#[derive(Debug, Clone, Copy, PartialEq, Eq)]
pub enum GccOptimization {
    Level1,
    Level2,
    Level3,
    Small,
    Fast,
}

impl GccOptimization {
    /// The text of this level as it appears in an `-O` flag.
    pub fn as_str(&self) -> (r: &str)
        ensures
            self is Level1 ==> r@ == "1"@,
            self is Level2 ==> r@ == "2"@,
            self is Level3 ==> r@ == "3"@,
            self is Small ==> r@ == "s"@,
            self is Fast ==> r@ == "fast"@,
    {
        match self {
            GccOptimization::Level1 => "1",
            GccOptimization::Level2 => "2",
            GccOptimization::Level3 => "3",
            GccOptimization::Small => "s",
            GccOptimization::Fast => "fast",
        }
    }
}

/// A located native compiler together with the configuration it is invoked
/// with.
pub struct Gcc {
    pub path: String,
    pub standard: Option<GccStandard>,
    pub optimization: Option<GccOptimization>,
}

/// The argument list `compile_args` builds: the optional standard flag, the
/// optional optimization flag, then the source path, `-o` and the output path.
pub open spec fn gcc_args(
    standard: Option<GccStandard>,
    optimization: Option<GccOptimization>,
    source: Seq<char>,
    output: Seq<char>,
) -> Seq<Seq<char>> {
    (match standard {
        Some(st) => seq![
            "-std="@ + (match st {
                GccStandard::Cpp98 => "c++98"@,
                GccStandard::Cpp11 => "c++11"@,
                GccStandard::Cpp14 => "c++14"@,
                GccStandard::Cpp17 => "c++17"@,
                GccStandard::Cpp20 => "c++20"@,
                GccStandard::Cpp23 => "c++23"@,
            }),
        ],
        None => Seq::empty(),
    }) + (match optimization {
        Some(opt) => seq![
            "-O"@ + (match opt {
                GccOptimization::Level1 => "1"@,
                GccOptimization::Level2 => "2"@,
                GccOptimization::Level3 => "3"@,
                GccOptimization::Small => "s"@,
                GccOptimization::Fast => "fast"@,
            }),
        ],
        None => Seq::empty(),
    }) + seq![source, "-o"@, output]
}

impl Gcc {
    /// Locates a compiler on the search path. A path override from the
    /// environment is the embedding program's concern: it may fill in `path`
    /// itself instead.
    pub fn new() -> (r: Result<Gcc, Error>)
        ensures
            r matches Ok(g) ==> g.standard is None && g.optimization is None,
            r matches Err(e) ==> e is CompilerNotFound,
    {
        match which_compiler("g++") {
            Some(path) => Ok(Gcc { path, standard: None, optimization: None }),
            None => Err(Error::CompilerNotFound),
        }
    }

    /// Builds the exact compiler argument list for one source file and one
    /// output file, from the configured standard and optimization level.
    pub fn compile_args(&self, source_file: &str, output_file: &str) -> (args: Vec<String>)
        ensures
            args@.map_values(|a: String| a@) == gcc_args(
                self.standard,
                self.optimization,
                source_file@,
                output_file@,
            ),
    {
        let mut args: Vec<String> = Vec::new();
        match &self.standard {
            Some(st) => {
                let mut flag = String::new();
                flag.append("-std=");
                flag.append(st.as_str());
                args.push(flag);
            },
            None => {},
        }
        match &self.optimization {
            Some(opt) => {
                let mut flag = String::new();
                flag.append("-O");
                flag.append(opt.as_str());
                args.push(flag);
            },
            None => {},
        }
        let mut src = String::new();
        src.append(source_file);
        args.push(src);
        let mut dash_o = String::new();
        dash_o.append("-o");
        args.push(dash_o);
        let mut out = String::new();
        out.append(output_file);
        args.push(out);
        proof {
            assert(args@.map_values(|a: String| a@) =~= gcc_args(
                self.standard,
                self.optimization,
                source_file@,
                output_file@,
            ));
        }
        args
    }
}

/// Classifies the outcome of one compiler invocation: a failed exit carries
/// the captured streams, a successful exit without the expected artifact is
/// still an error, and otherwise the compilation stands.
pub fn classify_compile(success: bool, stderr: String, stdout: String, artifact_exists: bool) -> (r:
    Result<(), Error>)
    ensures
        !success ==> r == Err::<(), Error>(
            Error::CompilerError { stderr: stderr, stdout: stdout },
        ),
        success && !artifact_exists ==> (r matches Err(e) && e matches Error::CompilerError {
            stderr: s,
            stdout: o,
        } && s@ == "Output file was not created"@ && o@ == Seq::<char>::empty()),
        success && artifact_exists ==> r is Ok,
{
    if !success {
        return Err(Error::CompilerError { stderr, stdout });
    }
    if !artifact_exists {
        let mut msg = String::new();
        msg.append("Output file was not created");
        return Err(Error::CompilerError { stderr: msg, stdout: String::new() });
    }
    Ok(())
}

/// A handle to a program in the cache.
#[derive(Clone, Copy)]
pub struct ProgramHandle {
    pub id: usize,
}

/// A handle to one queued run.
#[derive(Clone, Copy)]
pub struct TaskHandle {
    pub id: usize,
}

/// One queued run: a program, the input fed to it, and its time limit.
struct QueuedRun {
    program: ProgramHandle,
    input: String,
    time_limit_ms: i32,
}

/// The run coordinator: a program store keyed by source text, a queue of
/// runs, and one result slot per queued run. The embedding program compiles
/// each stored source once, executes the queued runs, and deposits each
/// outcome in its slot; all bookkeeping is decided here.
pub struct CppRunner {
    programs: Vec<String>,
    tasks: Vec<QueuedRun>,
    results: Vec<Option<RunResult>>,
}

impl CppRunner {
    /// The coordinator's well-formedness: one result slot per queued run,
    /// and every queued run names a stored program. Constructors establish
    /// it and every method preserves it.
    pub closed spec fn wf(self) -> bool {
        &&& self.results@.len() == self.tasks@.len()
        &&& forall|i: int| 0 <= i < self.tasks@.len() ==> (#[trigger] self.tasks@[i]).program.id
            < self.programs@.len()
    }

    /// The stored program sources, in submission order.
    pub closed spec fn programs_view(self) -> Seq<Seq<char>> {
        self.programs@.map_values(|s: String| s@)
    }

    /// The queued runs as (program id, input, time limit) triples.
    pub closed spec fn tasks_view(self) -> Seq<(int, Seq<char>, int)> {
        self.tasks@.map_values(|t: QueuedRun| (t.program.id as int, t.input@, t.time_limit_ms as int))
    }

    /// The result slot of each queued run.
    pub closed spec fn results_view(self) -> Seq<Option<RunResult>> {
        self.results@
    }

    /// An empty coordinator with no stored programs and no queued runs.
    pub fn new() -> (r: CppRunner)
        ensures
            r.wf(),
            r.programs_view() == Seq::<Seq<char>>::empty(),
            r.tasks_view() == Seq::<(int, Seq<char>, int)>::empty(),
    {
        let r = CppRunner { programs: Vec::new(), tasks: Vec::new(), results: Vec::new() };
        proof {
            assert(r.programs_view() =~= Seq::<Seq<char>>::empty());
            assert(r.tasks_view() =~= Seq::<(int, Seq<char>, int)>::empty());
        }
        r
    }

    /// Stores a program source and returns its handle. A source already in
    /// the store yields the handle it got the first time, and the store is
    /// left unchanged — so each distinct source is compiled exactly once.
    pub fn add_program(&mut self, source_code: &str) -> (h: ProgramHandle)
        requires
            old(self).wf(),
        ensures
            final(self).wf(),
            final(self).tasks_view() == old(self).tasks_view(),
            final(self).results_view() == old(self).results_view(),
            h.id < final(self).programs_view().len(),
            final(self).programs_view()[h.id as int] == source_code@,
            (exists|j: int|
                0 <= j < old(self).programs_view().len() && old(self).programs_view()[j]
                    == source_code@) ==> final(self).programs_view() == old(self).programs_view()
                && old(self).programs_view()[h.id as int] == source_code@,
            !(exists|j: int|
                0 <= j < old(self).programs_view().len() && old(self).programs_view()[j]
                    == source_code@) ==> final(self).programs_view() == old(
                self,
            ).programs_view().push(source_code@) && h.id == old(self).programs_view().len(),
    {
        let mut owned = String::new();
        owned.append(source_code);
        let n = self.programs.len();
        let mut j: usize = 0;
        while j < n
            invariant
                self == old(self),
                self.wf(),
                n == self.programs@.len(),
                owned@ == source_code@,
                j <= n,
                forall|k: int| 0 <= k < j ==> self.programs_view()[k] != source_code@,
            decreases n - j,
        {
            if self.programs[j].eq(&owned) {
                return ProgramHandle { id: j };
            }
            j = j + 1;
        }
        self.programs.push(owned);
        proof {
            assert(final(self).programs_view() =~= old(self).programs_view().push(source_code@));
        }
        ProgramHandle { id: n }
    }

    /// The source text stored for a program handle.
    pub fn program_source(&self, h: ProgramHandle) -> (r: &String)
        requires
            h.id < self.programs_view().len(),
        ensures
            r@ == self.programs_view()[h.id as int],
    {
        &self.programs[h.id]
    }

    /// How many programs the store holds.
    pub fn num_programs(&self) -> (r: usize)
        ensures
            r == self.programs_view().len(),
    {
        self.programs.len()
    }

    /// Queues a run of a stored program on an input under a time limit; the
    /// run's result slot starts empty.
    pub fn add_task(&mut self, program: ProgramHandle, input: String, time_limit_ms: i32) -> (h:
        TaskHandle)
        requires
            old(self).wf(),
            program.id < old(self).programs_view().len(),
        ensures
            final(self).wf(),
            final(self).programs_view() == old(self).programs_view(),
            final(self).tasks_view() == old(self).tasks_view().push(
                (program.id as int, input@, time_limit_ms as int),
            ),
            final(self).results_view() == old(self).results_view().push(None),
            h.id == old(self).tasks_view().len(),
    {
        let h = TaskHandle { id: self.tasks.len() };
        self.tasks.push(QueuedRun { program, input, time_limit_ms });
        self.results.push(None);
        proof {
            assert(final(self).tasks_view() =~= old(self).tasks_view().push(
                (program.id as int, input@, time_limit_ms as int),
            ));
        }
        h
    }

    /// How many runs are queued.
    pub fn num_tasks(&self) -> (r: usize)
        ensures
            r == self.tasks_view().len(),
    {
        self.tasks.len()
    }

    /// The program handle of one queued run.
    pub fn task_program(&self, h: TaskHandle) -> (r: ProgramHandle)
        requires
            self.wf(),
            h.id < self.tasks_view().len(),
        ensures
            r.id as int == self.tasks_view()[h.id as int].0,
            r.id < self.programs_view().len(),
    {
        self.tasks[h.id].program
    }

    /// The input text of one queued run.
    pub fn task_input(&self, h: TaskHandle) -> (r: &String)
        requires
            h.id < self.tasks_view().len(),
        ensures
            r@ == self.tasks_view()[h.id as int].1,
    {
        &self.tasks[h.id].input
    }

    /// The time limit of one queued run, in milliseconds.
    pub fn task_time_limit_ms(&self, h: TaskHandle) -> (r: i32)
        requires
            h.id < self.tasks_view().len(),
        ensures
            r as int == self.tasks_view()[h.id as int].2,
    {
        self.tasks[h.id].time_limit_ms
    }

    /// Deposits the outcome of one run in its slot.
    pub fn set_result(&mut self, h: TaskHandle, result: RunResult)
        requires
            old(self).wf(),
            h.id < old(self).tasks_view().len(),
        ensures
            final(self).wf(),
            final(self).programs_view() == old(self).programs_view(),
            final(self).tasks_view() == old(self).tasks_view(),
            final(self).results_view() == old(self).results_view().update(
                h.id as int,
                Some(result),
            ),
    {
        self.results.set(h.id, Some(result));
    }

    /// Takes the stored result of one run out of its slot. The slot must be
    /// filled, and is emptied: asking twice for the same run is ruled out.
    pub fn get_result(&mut self, h: TaskHandle) -> (r: RunResult)
        requires
            old(self).wf(),
            h.id < old(self).results_view().len(),
            old(self).results_view()[h.id as int] is Some,
        ensures
            final(self).wf(),
            final(self).programs_view() == old(self).programs_view(),
            final(self).tasks_view() == old(self).tasks_view(),
            final(self).results_view() == old(self).results_view().update(h.id as int, None),
            Some(r) == old(self).results_view()[h.id as int],
    {
        let mut slot: Option<RunResult> = None;
        self.results.set_and_swap(h.id, &mut slot);
        match slot {
            Some(r) => r,
            None => {
                proof {
                    assert(false);
                }
                RunResult::Crashed
            },
        }
    }

    /// Drops every queued run and its result slot; stored programs stay.
    pub fn clear_tasks(&mut self)
        requires
            old(self).wf(),
        ensures
            final(self).wf(),
            final(self).programs_view() == old(self).programs_view(),
            final(self).tasks_view() == Seq::<(int, Seq<char>, int)>::empty(),
            final(self).results_view() == Seq::<Option<RunResult>>::empty(),
    {
        self.tasks = Vec::new();
        self.results = Vec::new();
        proof {
            assert(final(self).tasks_view() =~= Seq::<(int, Seq<char>, int)>::empty());
        }
    }
}

} // verus!
