//! Subtasks and their tests. A test holds a generator and a one-shot cache
//! of the content it has materialized, so that every later request within
//! the same generation run reproduces the identical text.
use vstd::prelude::*;
use crate::error::Error;
use crate::gen::{content_matches, rule_like, rule_wf, GenRule, TestGenerator};
use crate::input::Input;

verus! {

/// A validation gate over one generated test input: the embedding program or
/// the task author implements it and registers it on a subtask.
pub trait Checker {
    /// Returns an error exactly when the input violates the subtask's
    /// constraints.
    fn check(&self, input: Input) -> Result<(), Error>;
}

/// One slot in a subtask's test list: a generator and the content it has
/// already produced in this generation run, if any.
pub struct Test {
    pub generator: TestGenerator,
    pub input_content: Option<String>,
}

impl Test {
    /// The cached content of this test, as text.
    pub open spec fn cached(self) -> Option<Seq<char>> {
        match self.input_content {
            Some(c) => Some(c@),
            None => None,
        }
    }

    /// The generator's rule.
    pub open spec fn rule(self) -> GenRule {
        self.generator.rule
    }

    /// A fresh, unmaterialized test over a generator.
    pub fn new(generator: TestGenerator) -> (r: Test)
        ensures
            r.rule() == generator.rule,
            r.cached() is None,
    {
        Test { generator, input_content: None }
    }

    /// Materializes this test's content. The first request runs the
    /// generator and caches its text; every later request returns the cached
    /// text unchanged. This is what makes a test byte-identical everywhere
    /// it appears within one generation run.
    pub fn generate_input(&mut self) -> (r: String)
        requires
            rule_wf(old(self).rule()),
        ensures
            final(self).rule() == old(self).rule(),
            final(self).cached() == Some(r@),
            old(self).cached() matches Some(c) ==> r@ == c,
            old(self).cached() is None ==> content_matches(old(self).rule(), r@),
    {
        match &self.input_content {
            Some(c) => c.clone(),
            None => {
                let content = self.generator.generate();
                self.input_content = Some(content.clone());
                content
            },
        }
    }

    /// Clears the cache, so the next request generates anew. Every
    /// generation run starts by resetting each test.
    pub fn reset_input_file(&mut self)
        ensures
            final(self).rule() == old(self).rule(),
            final(self).cached() is None,
    {
        self.input_content = None;
    }
}

/// A constraint tier: an ordered list of tests, the indices of earlier
/// subtasks it depends on, an optional checker, and a point value.
pub struct Subtask {
    pub number: usize,
    pub tests: Vec<Test>,
    pub dependencies: Vec<usize>,
    pub checker: Option<Box<dyn Checker>>,
    /// The points this tier is worth in the exported package.
    pub points: i32,
}

impl Subtask {
    /// The index this subtask got when it was registered.
    pub open spec fn spec_number(self) -> int {
        self.number as int
    }

    /// The rules of this subtask's tests, in order.
    pub open spec fn test_rules(self) -> Seq<GenRule> {
        self.tests@.map_values(|t: Test| t.rule())
    }

    /// The cached content of each test.
    pub open spec fn test_caches(self) -> Seq<Option<Seq<char>>> {
        self.tests@.map_values(|t: Test| t.cached())
    }

    /// The dependency indices, in registration order.
    pub open spec fn deps(self) -> Seq<usize> {
        self.dependencies@
    }

    /// Whether a checker is registered.
    pub open spec fn spec_has_checker(self) -> bool {
        self.checker is Some
    }

    /// True when every test's generator is ready to draw.
    pub open spec fn tests_wf(self) -> bool {
        forall|i: int| 0 <= i < self.test_rules().len() ==> rule_wf(#[trigger] self.test_rules()[i])
    }

    /// An empty subtask with no tests, no dependencies and no checker.
    pub fn new() -> (r: Subtask)
        ensures
            r.spec_number() == 0,
            r.test_rules() == Seq::<GenRule>::empty(),
            r.deps() == Seq::<usize>::empty(),
            !r.spec_has_checker(),
            r.points == 0,
    {
        let r = Subtask {
            number: 0,
            tests: Vec::new(),
            dependencies: Vec::new(),
            checker: None,
            points: 0,
        };
        proof {
            assert(r.test_rules() =~= Seq::<GenRule>::empty());
        }
        r
    }

    /// Appends `number` tests that share one generator rule; each test still
    /// materializes independently.
    pub fn add_test(&mut self, number: i32, generator: TestGenerator)
        requires
            rule_wf(generator.rule),
        ensures
            final(self).spec_number() == old(self).spec_number(),
            final(self).deps() == old(self).deps(),
            final(self).spec_has_checker() == old(self).spec_has_checker(),
            final(self).points == old(self).points,
            final(self).test_rules().len() == old(self).test_rules().len() + (if number >= 0 {
                number as int
            } else {
                0
            }),
            final(self).test_rules().take(old(self).test_rules().len() as int) == old(
                self,
            ).test_rules(),
            final(self).test_caches().take(old(self).test_caches().len() as int) == old(
                self,
            ).test_caches(),
            forall|i: int|
                old(self).test_rules().len() <= i < final(self).test_rules().len() ==> rule_like(
                    #[trigger] final(self).test_rules()[i],
                    generator.rule,
                ) && rule_wf(final(self).test_rules()[i]) && final(self).test_caches()[i] is None,
    {
        let mut k: i32 = 0;
        if number <= 0 {
            proof {
                assert(final(self).test_rules().take(old(self).test_rules().len() as int) =~= old(
                    self,
                ).test_rules());
                assert(final(self).test_caches().take(old(self).test_caches().len() as int) =~= old(
                    self,
                ).test_caches());
            }
            return ;
        }
        while k < number
            invariant
                0 <= k <= number,
                rule_wf(generator.rule),
                self.number == old(self).number,
                self.dependencies == old(self).dependencies,
                self.checker == old(self).checker,
                self.points == old(self).points,
                self.test_rules().len() == old(self).test_rules().len() + k as int,
                self.test_rules().take(old(self).test_rules().len() as int) == old(
                    self,
                ).test_rules(),
                self.test_caches().take(old(self).test_caches().len() as int) == old(
                    self,
                ).test_caches(),
                forall|i: int|
                    old(self).test_rules().len() <= i < self.test_rules().len() ==> rule_like(
                        #[trigger] self.test_rules()[i],
                        generator.rule,
                    ) && rule_wf(self.test_rules()[i]) && self.test_caches()[i] is None,
            decreases number - k,
        {
            let ghost pre_rules = self.test_rules();
            let ghost pre_caches = self.test_caches();
            let t = Test::new(generator.duplicate());
            self.tests.push(t);
            k = k + 1;
            proof {
                assert(self.test_rules() =~= pre_rules.push(t.rule()));
                assert(self.test_caches() =~= pre_caches.push(t.cached()));
                assert(self.test_rules().take(old(self).test_rules().len() as int) =~= old(
                    self,
                ).test_rules());
                assert(self.test_caches().take(old(self).test_caches().len() as int) =~= old(
                    self,
                ).test_caches());
            }
        }
    }

    /// Appends one test whose content is exactly the given text.
    pub fn add_test_str(&mut self, input: &str)
        ensures
            final(self).spec_number() == old(self).spec_number(),
            final(self).deps() == old(self).deps(),
            final(self).spec_has_checker() == old(self).spec_has_checker(),
            final(self).points == old(self).points,
            final(self).test_rules().len() == old(self).test_rules().len() + 1,
            final(self).test_rules().take(old(self).test_rules().len() as int) == old(
                self,
            ).test_rules(),
            final(self).test_rules().last() matches GenRule::Fixed(s) && s@ == input@,
            rule_wf(final(self).test_rules().last()),
            final(self).test_caches() == old(self).test_caches().push(None),
    {
        let mut owned = String::new();
        owned.append(input);
        let t = Test::new(TestGenerator::new(GenRule::Fixed(owned)));
        self.tests.push(t);
        proof {
            assert(final(self).test_caches() =~= old(self).test_caches().push(None));
            assert(final(self).test_rules().take(old(self).test_rules().len() as int) =~= old(
                self,
            ).test_rules());
        }
    }

    /// Registers the validation gate for this subtask's generated inputs.
    pub fn set_checker(&mut self, checker: Box<dyn Checker>)
        ensures
            final(self).spec_number() == old(self).spec_number(),
            final(self).deps() == old(self).deps(),
            final(self).test_rules() == old(self).test_rules(),
            final(self).test_caches() == old(self).test_caches(),
            final(self).points == old(self).points,
            final(self).spec_has_checker(),
    {
        self.checker = Some(checker);
    }
}

} // verus!
