//! The task orchestrator: subtask registration, the dependency closure, test
//! materialization plans, reference-output collection, the partial-solution
//! audit and the packaged-test data. The dependency relation is acyclic by
//! construction: a dependency's index is always below its subtask's index.
use vstd::prelude::*;
use crate::error::Error;
use crate::runner::{subtask_passed, RunResult};
use crate::subtask::Subtask;

verus! {

/// Well-formed dependency lists: every dependency of subtask `i` has an
/// index strictly below `i`. This is what rules out cycles.
pub open spec fn deps_wf(deps: Seq<Seq<usize>>) -> bool {
    forall|i: int, j: int|
        0 <= i < deps.len() && 0 <= j < deps[i].len() ==> (#[trigger] deps[i][j]) < i
}

/// Transitive dependency: `b` is reachable from `a` along dependency edges
/// in one or more steps.
pub open spec fn tdep(deps: Seq<Seq<usize>>, a: int, b: int) -> bool
    decreases a,
    when deps_wf(deps) && 0 <= a < deps.len()
{
    exists|j: int|
        0 <= j < deps[a].len() && ((#[trigger] deps[a][j]) == b || tdep(
            deps,
            deps[a][j] as int,
            b,
        ))
}

/// The visited-set DFS that computes a subtask's closure: visits each
/// dependency's own dependencies first, each subtask at most once, the
/// subtask itself last. `visit` handles one subtask, `visit_list` one
/// dependency list from position `i` on; both thread the visited set.
pub open spec fn visit(deps: Seq<Seq<usize>>, n: int, vis: Set<int>) -> (Seq<int>, Set<int>)
    decreases n, 1int, 0int,
    when deps_wf(deps) && 0 <= n < deps.len()
{
    if vis.contains(n) {
        (Seq::empty(), vis)
    } else {
        let (r, v2) = visit_list(deps, n, 0, vis.insert(n));
        (r.push(n), v2)
    }
}

/// See `visit`.
pub open spec fn visit_list(deps: Seq<Seq<usize>>, n: int, i: int, vis: Set<int>) -> (
    Seq<int>,
    Set<int>,
)
    decreases n, 0int, deps[n].len() - i,
    when deps_wf(deps) && 0 <= n < deps.len() && 0 <= i
{
    if i >= deps[n].len() {
        (Seq::empty(), vis)
    } else {
        let (r1, v1) = visit(deps, deps[n][i] as int, vis);
        let (r2, v2) = visit_list(deps, n, i + 1, v1);
        (r1 + r2, v2)
    }
}

/// The closure of one subtask: its transitive dependencies in depth-first
/// order, deduplicated, the subtask itself last.
pub open spec fn closure(deps: Seq<Seq<usize>>, n: int) -> Seq<int> {
    visit(deps, n, Set::empty()).0
}

/// True when no value occurs twice.
pub open spec fn no_dup(r: Seq<int>) -> bool {
    forall|i: int, j: int| 0 <= i < j < r.len() ==> r[i] != r[j]
}

proof fn lemma_visit(deps: Seq<Seq<usize>>, n: int, vis: Set<int>)
    requires
        deps_wf(deps),
        0 <= n < deps.len(),
        forall|m: int|
            vis.contains(m) && 0 <= m < n ==> (forall|b: int|
                tdep(deps, m, b) ==> #[trigger] vis.contains(b)),
        vis.contains(n) ==> (forall|b: int| tdep(deps, n, b) ==> #[trigger] vis.contains(b)),
    ensures
        ({
            let (r, v2) = visit(deps, n, vis);
            &&& forall|x: int| #[trigger] v2.contains(x) <==> (vis.contains(x) || r.contains(x))
            &&& no_dup(r)
            &&& forall|i: int| 0 <= i < r.len() ==> !vis.contains(#[trigger] r[i])
            &&& forall|i: int|
                0 <= i < r.len() ==> 0 <= #[trigger] r[i] <= n && (r[i] == n || tdep(
                    deps,
                    n,
                    r[i],
                ))
            &&& v2.contains(n)
            &&& forall|b: int| tdep(deps, n, b) ==> #[trigger] v2.contains(b)
            &&& forall|i: int, b: int|
                0 <= i < r.len() && tdep(deps, #[trigger] r[i], b) ==> #[trigger] v2.contains(b)
            &&& !vis.contains(n) ==> r.len() > 0 && r.last() == n
            &&& vis.contains(n) ==> r.len() == 0
        }),
    decreases n, 1int, 0int,
{
    if vis.contains(n) {
    } else {
        let vis1 = vis.insert(n);
        lemma_visit_list(deps, n, 0, vis1);
        let (r, v2) = visit_list(deps, n, 0, vis1);
        assert(visit(deps, n, vis).0 == r.push(n));
        assert(forall|i: int| 0 <= i < r.len() ==> !vis1.contains(#[trigger] r[i]));
        assert(forall|i: int| 0 <= i < r.push(n).len() ==> !vis.contains(#[trigger] r.push(n)[i]));
        assert(forall|i: int|
            0 <= i < r.len() ==> 0 <= #[trigger] r[i] < n && tdep(deps, n, r[i]));
        assert(no_dup(r.push(n))) by {
            assert(forall|i: int| 0 <= i < r.len() ==> #[trigger] r[i] != n) by {
                assert(forall|i: int| 0 <= i < r.len() ==> #[trigger] r[i] < n);
            }
        }
        assert(forall|x: int| #[trigger] v2.contains(x) <==> (vis.contains(x) || r.push(n).contains(
            x,
        ))) by {
            assert(forall|x: int| #[trigger] v2.contains(x) <==> (vis1.contains(x) || r.contains(x)));
            assert(forall|x: int| #[trigger] vis1.contains(x) <==> (vis.contains(x) || x == n));
            assert forall|x: int| #[trigger] r.push(n).contains(x) implies (r.contains(x) || x
                == n) by {
                let i = choose|i: int| 0 <= i < r.push(n).len() && r.push(n)[i] == x;
                if i < r.len() {
                    assert(r[i] == x);
                }
            }
            assert forall|x: int| r.contains(x) || x == n implies #[trigger] r.push(n).contains(
                x,
            ) by {
                if x == n {
                    assert(r.push(n)[r.len() as int] == n);
                } else {
                    let i = choose|i: int| 0 <= i < r.len() && r[i] == x;
                    assert(r.push(n)[i] == x);
                }
            }
        }
    }
}

proof fn lemma_visit_list(deps: Seq<Seq<usize>>, n: int, i: int, vis: Set<int>)
    requires
        deps_wf(deps),
        0 <= n < deps.len(),
        0 <= i,
        forall|m: int|
            vis.contains(m) && 0 <= m < n ==> (forall|b: int|
                tdep(deps, m, b) ==> #[trigger] vis.contains(b)),
    ensures
        ({
            let (r, v2) = visit_list(deps, n, i, vis);
            &&& forall|x: int| #[trigger] v2.contains(x) <==> (vis.contains(x) || r.contains(x))
            &&& no_dup(r)
            &&& forall|k: int| 0 <= k < r.len() ==> !vis.contains(#[trigger] r[k])
            &&& forall|k: int|
                0 <= k < r.len() ==> 0 <= #[trigger] r[k] < n && tdep(deps, n, r[k])
            &&& forall|j: int|
                i <= j < deps[n].len() ==> v2.contains(#[trigger] deps[n][j] as int) && (forall|
                    b: int,
                |
                    tdep(deps, deps[n][j] as int, b) ==> #[trigger] v2.contains(b))
            &&& forall|k: int, b: int|
                0 <= k < r.len() && tdep(deps, #[trigger] r[k], b) ==> #[trigger] v2.contains(b)
            &&& forall|m: int|
                vis.contains(m) && 0 <= m < n ==> (forall|b: int|
                    tdep(deps, m, b) ==> #[trigger] v2.contains(b))
        }),
    decreases n, 0int, deps[n].len() - i,
{
    if i >= deps[n].len() {
    } else {
        let d = deps[n][i] as int;
        assert(0 <= d < n);
        assert(vis.contains(d) ==> (forall|b: int| tdep(deps, d, b) ==> #[trigger] vis.contains(b)));
        lemma_visit(deps, d, vis);
        let (r1, v1) = visit(deps, d, vis);
        assert(forall|m: int|
            v1.contains(m) && 0 <= m < n ==> (forall|b: int|
                tdep(deps, m, b) ==> #[trigger] v1.contains(b))) by {
            assert(forall|m: int| #[trigger] v1.contains(m) ==> vis.contains(m) || r1.contains(m));
            assert(forall|k: int, b: int|
                0 <= k < r1.len() && tdep(deps, #[trigger] r1[k], b) ==> #[trigger] v1.contains(b));
            assert(forall|m: int, b: int|
                r1.contains(m) && tdep(deps, m, b) ==> v1.contains(b)) by {
                assert(forall|m: int| #[trigger] r1.contains(m) ==> exists|k: int|
                    0 <= k < r1.len() && r1[k] == m);
            }
        }
        lemma_visit_list(deps, n, i + 1, v1);
        let (r2, v2) = visit_list(deps, n, i + 1, v1);
        assert(visit_list(deps, n, i, vis).0 == r1 + r2);
        let r = r1 + r2;
        assert(forall|k: int| 0 <= k < r1.len() ==> r[k] == r1[k]);
        assert(forall|k: int| r1.len() <= k < r.len() ==> r[k] == r2[k - r1.len()]);
        // every element of r1 is d or a transitive dependency of d, so a
        // transitive dependency of n; every element of r2 already is one
        assert(forall|k: int| 0 <= k < r1.len() ==> 0 <= #[trigger] r1[k] < n && tdep(deps, n, r1[k]))
            by {
            assert(forall|k: int|
                0 <= k < r1.len() ==> 0 <= #[trigger] r1[k] <= d && (r1[k] == d || tdep(
                    deps,
                    d,
                    r1[k],
                )));
            assert(tdep(deps, n, d)) by {
                assert(deps[n][i] == d);
            }
            assert(forall|b: int| tdep(deps, d, b) ==> tdep(deps, n, b)) by {
                assert(forall|b: int| tdep(deps, d, b) ==> #[trigger] tdep(deps, n, b)) by {
                    assert(0 <= i < deps[n].len() && deps[n][i] == d);
                }
            }
        }
        assert(no_dup(r)) by {
            assert(forall|k: int| 0 <= k < r2.len() ==> !v1.contains(#[trigger] r2[k]));
            assert(forall|k: int| 0 <= k < r1.len() ==> v1.contains(#[trigger] r1[k]));
        }
        assert(forall|k: int| 0 <= k < r.len() ==> !vis.contains(#[trigger] r[k])) by {
            assert(forall|k: int| 0 <= k < r2.len() ==> !v1.contains(#[trigger] r2[k]));
            assert(forall|x: int| vis.contains(x) ==> #[trigger] v1.contains(x));
        }
        assert(forall|x: int| #[trigger] v2.contains(x) <==> (vis.contains(x) || r.contains(x))) by {
            assert(forall|x: int| #[trigger] r.contains(x) <==> (r1.contains(x) || r2.contains(x)))
                by {
                assert(forall|k: int| 0 <= k < r1.len() ==> r[k] == #[trigger] r1[k]);
                assert(forall|k: int|
                    0 <= k < r2.len() ==> r[k + r1.len()] == #[trigger] r2[k]);
            }
        }
        assert(forall|j: int|
            i <= j < deps[n].len() ==> v2.contains(#[trigger] deps[n][j] as int) && (forall|b: int|
                tdep(deps, deps[n][j] as int, b) ==> #[trigger] v2.contains(b))) by {
            assert(v1.contains(d));
            assert(forall|b: int| tdep(deps, d, b) ==> #[trigger] v1.contains(b));
            assert(forall|x: int| v1.contains(x) ==> #[trigger] v2.contains(x));
        }
        assert(forall|k: int, b: int|
            0 <= k < r.len() && tdep(deps, #[trigger] r[k], b) ==> #[trigger] v2.contains(b)) by {
            assert(forall|k: int, b: int|
                0 <= k < r1.len() && tdep(deps, #[trigger] r1[k], b) ==> #[trigger] v1.contains(b));
            assert(forall|x: int| v1.contains(x) ==> #[trigger] v2.contains(x));
        }
    }
}

/// Closure correctness: the closure of a subtask lists the subtask itself,
/// last and exactly once, together with each of its transitive dependencies
/// exactly once, and nothing else.
pub proof fn lemma_closure_correct(deps: Seq<Seq<usize>>, n: int)
    requires
        deps_wf(deps),
        0 <= n < deps.len(),
    ensures
        closure(deps, n).len() > 0,
        closure(deps, n).last() == n,
        no_dup(closure(deps, n)),
        forall|b: int|
            #[trigger] closure(deps, n).contains(b) <==> (b == n || tdep(deps, n, b)),
        forall|i: int| 0 <= i < closure(deps, n).len() ==> 0 <= #[trigger] closure(deps, n)[i] <= n,
{
    lemma_visit(deps, n, Set::empty());
    let (r, v2) = visit(deps, n, Set::empty());
    assert(!Set::<int>::empty().contains(n));
    assert(r.len() > 0 && r.last() == n);
    assert forall|b: int| tdep(deps, n, b) implies #[trigger] r.contains(b) by {
        assert(v2.contains(b));
        assert(!Set::<int>::empty().contains(b));
    }
    assert(r.contains(n)) by {
        assert(r[r.len() - 1] == n);
    }
}

} // verus!

verus! {

/// The visited flags of the executable DFS, as the set the spec threads.
pub open spec fn bits(v: Seq<bool>) -> Set<int> {
    Set::new(|k: int| 0 <= k < v.len() && v[k])
}

/// An entire task: its subtasks, the reference solution, the partial
/// solutions with the subtask sets they claim to pass, and the time limit.
pub struct Task {
    pub name: String,
    /// Wall-clock limit for one run, in milliseconds.
    pub time_limit_ms: i32,
    /// Source text of the reference solution.
    pub solution_source: String,
    pub subtasks: Vec<Subtask>,
    /// Each partial solution's source text and the indices of the subtasks
    /// it is declared to pass.
    pub partial_solutions: Vec<(String, Vec<usize>)>,
}

impl Task {
    /// The dependency lists of all subtasks, in index order.
    pub open spec fn deps_seq(self) -> Seq<Seq<usize>> {
        self.subtasks@.map_values(|s: Subtask| s.dependencies@)
    }

    /// Well-formedness: each subtask carries the index it was registered
    /// under, and every dependency points strictly below its subtask, which
    /// makes the dependency relation acyclic by construction.
    pub open spec fn wf(self) -> bool {
        &&& forall|i: int|
            0 <= i < self.subtasks@.len() ==> (#[trigger] self.subtasks@[i]).number == i
        &&& deps_wf(self.deps_seq())
    }

    /// A new task with no subtasks, no partial solutions, an empty solution
    /// source, and a five-second time limit.
    pub fn new(name: &str) -> (r: Task)
        ensures
            r.wf(),
            r.name@ == name@,
            r.time_limit_ms == 5000,
            r.solution_source@ == Seq::<char>::empty(),
            r.subtasks@.len() == 0,
            r.partial_solutions@.len() == 0,
    {
        let mut owned = String::new();
        owned.append(name);
        Task {
            name: owned,
            time_limit_ms: 5000,
            solution_source: String::new(),
            subtasks: Vec::new(),
            partial_solutions: Vec::new(),
        }
    }

    /// Registers a subtask, assigning it the next index, and returns that
    /// index. The subtask must not carry dependencies yet: they are declared
    /// afterwards, against registered indices.
    pub fn add_subtask(&mut self, subtask: Subtask) -> (r: usize)
        requires
            old(self).wf(),
            subtask.deps() == Seq::<usize>::empty(),
        ensures
            final(self).wf(),
            r == old(self).subtasks@.len(),
            final(self).subtasks@.len() == old(self).subtasks@.len() + 1,
            forall|i: int|
                0 <= i < old(self).subtasks@.len() ==> final(self).subtasks@[i] == old(
                    self,
                ).subtasks@[i],
            final(self).subtasks@.last().number == r,
            final(self).subtasks@.last().test_rules() == subtask.test_rules(),
            final(self).subtasks@.last().test_caches() == subtask.test_caches(),
            final(self).subtasks@.last().deps() == Seq::<usize>::empty(),
            final(self).subtasks@.last().spec_has_checker() == subtask.spec_has_checker(),
            final(self).subtasks@.last().points == subtask.points,
            final(self).subtasks@.last().tests_wf() == subtask.tests_wf(),
            final(self).name == old(self).name,
            final(self).time_limit_ms == old(self).time_limit_ms,
            final(self).solution_source == old(self).solution_source,
            final(self).partial_solutions == old(self).partial_solutions,
    {
        let r = self.subtasks.len();
        let mut subtask = subtask;
        subtask.number = r;
        self.subtasks.push(subtask);
        proof {
            assert(forall|i: int|
                0 <= i < old(self).subtasks@.len() ==> final(self).deps_seq()[i] == #[trigger] old(
                    self,
                ).deps_seq()[i]);
            assert(final(self).deps_seq()[r as int].len() == 0);
            assert forall|i: int, j: int|
                0 <= i < final(self).deps_seq().len() && 0 <= j < final(self).deps_seq()[i].len()
                    implies (#[trigger] final(self).deps_seq()[i][j]) < i by {
                assert(i <= old(self).subtasks@.len());
                if i < old(self).subtasks@.len() {
                    assert(final(self).deps_seq()[i] == old(self).deps_seq()[i]);
                    assert(old(self).deps_seq()[i][j] < i);
                }
            }
        }
        r
    }

    /// Declares that `subtask` depends on `dependency`. The dependency index
    /// must be strictly below the subtask's index — a dependency on an equal
    /// or later subtask is invalid by construction — so cycles cannot arise.
    pub fn add_subtask_dependency(&mut self, subtask: usize, dependency: usize)
        requires
            old(self).wf(),
            subtask < old(self).subtasks@.len(),
            dependency < subtask,
        ensures
            final(self).wf(),
            final(self).subtasks@.len() == old(self).subtasks@.len(),
            forall|i: int|
                0 <= i < old(self).subtasks@.len() && i != subtask ==> final(self).subtasks@[i]
                    == old(self).subtasks@[i],
            final(self).subtasks@[subtask as int].dependencies@ == old(
                self,
            ).subtasks@[subtask as int].dependencies@.push(dependency),
            final(self).subtasks@[subtask as int].number == old(
                self,
            ).subtasks@[subtask as int].number,
            final(self).subtasks@[subtask as int].test_rules() == old(
                self,
            ).subtasks@[subtask as int].test_rules(),
            final(self).subtasks@[subtask as int].test_caches() == old(
                self,
            ).subtasks@[subtask as int].test_caches(),
            final(self).subtasks@[subtask as int].points == old(
                self,
            ).subtasks@[subtask as int].points,
            final(self).name == old(self).name,
            final(self).time_limit_ms == old(self).time_limit_ms,
            final(self).solution_source == old(self).solution_source,
            final(self).partial_solutions == old(self).partial_solutions,
    {
        let mut slot = Subtask::new();
        self.subtasks.set_and_swap(subtask, &mut slot);
        slot.dependencies.push(dependency);
        self.subtasks.set_and_swap(subtask, &mut slot);
        proof {
            assert(final(self).subtasks@ =~= old(self).subtasks@.update(
                subtask as int,
                final(self).subtasks@[subtask as int],
            ));
            assert(forall|i: int|
                0 <= i < final(self).deps_seq().len() && i != subtask ==> final(self).deps_seq()[i]
                    == #[trigger] old(self).deps_seq()[i]);
            assert(final(self).deps_seq()[subtask as int] == old(self).deps_seq()[
                subtask as int
            ].push(dependency));
            assert forall|i: int, j: int|
                0 <= i < final(self).deps_seq().len() && 0 <= j < final(self).deps_seq()[i].len()
                    implies (#[trigger] final(self).deps_seq()[i][j]) < i by {
                if i == subtask {
                    if j < old(self).deps_seq()[i].len() {
                        assert(final(self).deps_seq()[i][j] == old(self).deps_seq()[i][j]);
                        assert(old(self).deps_seq()[i][j] < i);
                    } else {
                        assert(final(self).deps_seq()[i][j] == dependency);
                    }
                } else {
                    assert(old(self).deps_seq()[i][j] < i);
                }
            }
        }
    }

    /// Registers a partial solution: its source text and the exact set of
    /// subtask indices it claims to pass.
    pub fn add_partial_solution(&mut self, solution_source: &str, passes_subtasks: &Vec<usize>)
        ensures
            final(self).partial_solutions@.len() == old(self).partial_solutions@.len() + 1,
            forall|i: int|
                0 <= i < old(self).partial_solutions@.len() ==> final(self).partial_solutions@[i]
                    == old(self).partial_solutions@[i],
            final(self).partial_solutions@.last().0@ == solution_source@,
            final(self).partial_solutions@.last().1@ == passes_subtasks@,
            final(self).name == old(self).name,
            final(self).time_limit_ms == old(self).time_limit_ms,
            final(self).solution_source == old(self).solution_source,
            final(self).subtasks == old(self).subtasks,
    {
        let mut owned = String::new();
        owned.append(solution_source);
        let declared = passes_subtasks.clone();
        self.partial_solutions.push((owned, declared));
    }

    fn get_all_dependencies_inner(&self, subtask_number: usize, visited: &mut Vec<bool>) -> (r: Vec<
        usize,
    >)
        requires
            self.wf(),
            subtask_number < self.subtasks@.len(),
            old(visited)@.len() == self.subtasks@.len(),
        ensures
            final(visited)@.len() == old(visited)@.len(),
            (r@.map_values(|x: usize| x as int), bits(final(visited)@)) == visit(
                self.deps_seq(),
                subtask_number as int,
                bits(old(visited)@),
            ),
        decreases subtask_number,
    {
        let n = subtask_number;
        if visited[n] {
            let r: Vec<usize> = Vec::new();
            proof {
                assert(bits(old(visited)@).contains(n as int));
                assert(r@.map_values(|x: usize| x as int) =~= Seq::<int>::empty());
            }
            return r;
        }
        visited.set(n, true);
        proof {
            assert(bits(visited@) =~= bits(old(visited)@).insert(n as int));
        }
        let ghost vis1 = bits(visited@);
        let mut result: Vec<usize> = Vec::new();
        let deps_len = self.subtasks[n].dependencies.len();
        let ghost dseq = self.deps_seq();
        let mut i: usize = 0;
        #[verifier::loop_isolation(false)]
        while i < deps_len
            invariant
                dseq == self.deps_seq(),
                deps_len == dseq[n as int].len(),
                i <= deps_len,
                visited@.len() == self.subtasks@.len(),
                visit_list(dseq, n as int, 0, vis1).0 =~= result@.map_values(|x: usize| x as int)
                    + visit_list(dseq, n as int, i as int, bits(visited@)).0,
                visit_list(dseq, n as int, 0, vis1).1 == visit_list(
                    dseq,
                    n as int,
                    i as int,
                    bits(visited@),
                ).1,
            decreases deps_len - i,
        {
            let d = self.subtasks[n].dependencies[i];
            proof {
                assert(dseq[n as int][i as int] == d);
                assert(d < n);
            }
            let ghost pre_bits = bits(visited@);
            let mut sub = self.get_all_dependencies_inner(d, visited);
            proof {
                assert(visit_list(dseq, n as int, i as int, pre_bits).0 =~= sub@.map_values(
                    |x: usize| x as int,
                ) + visit_list(dseq, n as int, i + 1, bits(visited@)).0);
            }
            let ghost pre_res = result@;
            let ghost pre_sub = sub@;
            result.append(&mut sub);
            i = i + 1;
            proof {
                assert(result@.map_values(|x: usize| x as int) =~= pre_res.map_values(
                    |x: usize| x as int,
                ) + pre_sub.map_values(|x: usize| x as int)) by {
                    assert(result@ == pre_res + pre_sub);
                }
            }
        }
        proof {
            assert(visit_list(dseq, n as int, deps_len as int, bits(visited@)).0
                =~= Seq::<int>::empty());
        }
        let ghost pre_res = result@;
        result.push(n);
        proof {
            assert(result@.map_values(|x: usize| x as int) =~= pre_res.map_values(
                |x: usize| x as int,
            ).push(n as int));
            assert(pre_res.map_values(|x: usize| x as int) + Seq::<int>::empty() =~= pre_res.map_values(
                |x: usize| x as int,
            ));
        }
        result
    }

    /// Computes the closure of one subtask: every transitive dependency
    /// exactly once, dependencies of a dependency first, the subtask itself
    /// last.
    pub fn get_all_dependencies(&self, subtask_number: usize) -> (r: Vec<usize>)
        requires
            self.wf(),
            subtask_number < self.subtasks@.len(),
        ensures
            r@.map_values(|x: usize| x as int) == closure(self.deps_seq(), subtask_number as int),
            r@.len() > 0,
            r@.last() == subtask_number,
            forall|i: int| 0 <= i < r@.len() ==> #[trigger] r@[i] <= subtask_number,
            forall|i: int, j: int| 0 <= i < j < r@.len() ==> r@[i] != r@[j],
            forall|b: int|
                (exists|i: int| 0 <= i < r@.len() && #[trigger] r@[i] == b) <==> (b
                    == subtask_number || tdep(self.deps_seq(), subtask_number as int, b)),
    {
        let len = self.subtasks.len();
        let mut visited: Vec<bool> = Vec::new();
        let mut k: usize = 0;
        while k < len
            invariant
                k <= len,
                visited@.len() == k as int,
                forall|i: int| 0 <= i < k ==> !(#[trigger] visited@[i]),
            decreases len - k,
        {
            visited.push(false);
            k = k + 1;
        }
        proof {
            assert(bits(visited@) =~= Set::<int>::empty());
        }
        let r = self.get_all_dependencies_inner(subtask_number, &mut visited);
        proof {
            lemma_closure_correct(self.deps_seq(), subtask_number as int);
            let m = r@.map_values(|x: usize| x as int);
            let cl = closure(self.deps_seq(), subtask_number as int);
            assert(r@.len() == m.len());
            assert(m.last() == cl.last());
            assert(r@[r@.len() - 1] as int == m[m.len() - 1]);
            assert(forall|i: int| 0 <= i < r@.len() ==> m[i] == #[trigger] r@[i] as int);
            assert forall|b: int|
                (exists|i: int| 0 <= i < r@.len() && #[trigger] r@[i] == b) <==> (b
                    == subtask_number || tdep(self.deps_seq(), subtask_number as int, b)) by {
                if exists|i: int| 0 <= i < r@.len() && #[trigger] r@[i] == b {
                    let i = choose|i: int| 0 <= i < r@.len() && #[trigger] r@[i] == b;
                    assert(m[i] == b);
                    assert(cl.contains(b));
                }
                if b == subtask_number || tdep(self.deps_seq(), subtask_number as int, b) {
                    assert(cl.contains(b));
                    let i = choose|i: int| 0 <= i < cl.len() && cl[i] == b;
                    assert(r@[i] as int == b);
                    assert(0 <= b);
                    assert(r@[i] == b as usize);
                }
            }
        }
        r
    }
}

} // verus!

verus! {

/// The default input file name: `test.SS.TTT.in` with the one-based subtask
/// number zero-padded to two digits and the one-based global test number to
/// three.
pub open spec fn spec_input_file_name(test_id: int, subtask_id: int) -> Seq<char> {
    "test."@ + crate::decimal::padded_dec((subtask_id + 1) as nat, 2) + "."@
        + crate::decimal::padded_dec((test_id + 1) as nat, 3) + ".in"@
}

/// The default output file name, like the input name but ending in `.out`.
pub open spec fn spec_output_file_name(test_id: int, subtask_id: int) -> Seq<char> {
    "test."@ + crate::decimal::padded_dec((subtask_id + 1) as nat, 2) + "."@
        + crate::decimal::padded_dec((test_id + 1) as nat, 3) + ".out"@
}

fn push_file_name_stem(s: &mut String, test_id: u64, subtask_id: u64)
    requires
        test_id < 0xffff_ffff_ffff_ffff,
        subtask_id < 0xffff_ffff_ffff_ffff,
    ensures
        final(s)@ == old(s)@ + "test."@ + crate::decimal::padded_dec((subtask_id + 1) as nat, 2)
            + "."@ + crate::decimal::padded_dec((test_id + 1) as nat, 3),
{
    s.append("test.");
    crate::decimal::push_padded_dec(s, subtask_id + 1, 2);
    s.append(".");
    crate::decimal::push_padded_dec(s, test_id + 1, 3);
    proof {
        assert(final(s)@ =~= old(s)@ + "test."@ + crate::decimal::padded_dec(
            (subtask_id + 1) as nat,
            2,
        ) + "."@ + crate::decimal::padded_dec((test_id + 1) as nat, 3));
    }
}

/// The default name of one generated input file.
pub fn default_input_file_name(test_id: u64, subtask_id: u64) -> (r: String)
    requires
        test_id < 0xffff_ffff_ffff_ffff,
        subtask_id < 0xffff_ffff_ffff_ffff,
    ensures
        r@ == spec_input_file_name(test_id as int, subtask_id as int),
{
    let mut s = String::new();
    push_file_name_stem(&mut s, test_id, subtask_id);
    s.append(".in");
    proof {
        assert(s@ =~= spec_input_file_name(test_id as int, subtask_id as int));
    }
    s
}

/// The default name of one generated output file.
pub fn default_output_file_name(test_id: u64, subtask_id: u64) -> (r: String)
    requires
        test_id < 0xffff_ffff_ffff_ffff,
        subtask_id < 0xffff_ffff_ffff_ffff,
    ensures
        r@ == spec_output_file_name(test_id as int, subtask_id as int),
{
    let mut s = String::new();
    push_file_name_stem(&mut s, test_id, subtask_id);
    s.append(".out");
    proof {
        assert(s@ =~= spec_output_file_name(test_id as int, subtask_id as int));
    }
    s
}

/// One slot of a generation plan: which subtask's test is materialized, its
/// position in the master subtask's expansion, its numbering, its default
/// file names and its content.
pub struct PlannedTest {
    /// The subtask the content comes from.
    pub subtask: usize,
    /// The test's index within that subtask.
    pub test_index: usize,
    /// The global sequential test number.
    pub test_id: usize,
    /// The test's position within the master subtask's expansion.
    pub test_id_in_subtask: usize,
    pub input_name: String,
    pub output_name: String,
    pub content: String,
}

/// The (subtask, test index) pairs a closure expands to: each closure
/// member's tests in order, in closure order.
pub open spec fn pairs_of(s: int, cnt: int) -> Seq<(int, int)> {
    Seq::new(cnt as nat, |t: int| (s, t))
}

/// See `pairs_of`.
pub open spec fn expansion(sizes: Seq<int>, cl: Seq<int>) -> Seq<(int, int)>
    decreases cl.len(),
{
    if cl.len() == 0 {
        Seq::empty()
    } else {
        pairs_of(cl[0], sizes[cl[0]]) + expansion(sizes, cl.skip(1))
    }
}

/// The number of tests of each subtask.
pub open spec fn subtask_sizes(subtasks: Seq<Subtask>) -> Seq<int> {
    subtasks.map_values(|s: Subtask| s.tests@.len() as int)
}

/// The sum of the listed subtasks' test counts.
pub open spec fn sum_tests(sizes: Seq<int>, cl: Seq<int>) -> int
    decreases cl.len(),
{
    if cl.len() == 0 {
        0
    } else {
        sizes[cl[0]] + sum_tests(sizes, cl.skip(1))
    }
}

proof fn lemma_sum_tests_nonneg(sizes: Seq<int>, cl: Seq<int>)
    requires
        forall|i: int| 0 <= i < cl.len() ==> 0 <= #[trigger] cl[i] < sizes.len(),
        forall|i: int| 0 <= i < sizes.len() ==> #[trigger] sizes[i] >= 0,
    ensures
        sum_tests(sizes, cl) >= 0,
        cl.len() > 0 ==> sum_tests(sizes, cl) >= sum_tests(sizes, cl.skip(1)),
    decreases cl.len(),
{
    if cl.len() > 0 {
        lemma_sum_tests_nonneg(sizes, cl.skip(1));
    }
}

impl Task {
    /// How many test files one subtask's expansion holds: the sum of the
    /// test counts over its closure.
    pub open spec fn spec_total_tests(self, m: int) -> int {
        sum_tests(subtask_sizes(self.subtasks@), closure(self.deps_seq(), m))
    }

    /// Materializes the content of one test of one subtask, caching it; a
    /// test already materialized in this run yields its cached content
    /// unchanged. Everything else about the task is untouched.
    fn materialize_test(&mut self, s: usize, t: usize) -> (r: String)
        requires
            old(self).wf(),
            s < old(self).subtasks@.len(),
            t < old(self).subtasks@[s as int].tests@.len(),
            crate::gen::rule_wf(old(self).subtasks@[s as int].test_rules()[t as int]),
        ensures
            final(self).wf(),
            final(self).subtasks@.len() == old(self).subtasks@.len(),
            forall|i: int|
                0 <= i < old(self).subtasks@.len() && i != s ==> final(self).subtasks@[i] == old(
                    self,
                ).subtasks@[i],
            final(self).subtasks@[s as int].number == old(self).subtasks@[s as int].number,
            final(self).subtasks@[s as int].dependencies@ == old(
                self,
            ).subtasks@[s as int].dependencies@,
            final(self).subtasks@[s as int].points == old(self).subtasks@[s as int].points,
            final(self).subtasks@[s as int].checker == old(self).subtasks@[s as int].checker,
            final(self).subtasks@[s as int].test_rules() == old(
                self,
            ).subtasks@[s as int].test_rules(),
            final(self).subtasks@[s as int].test_caches() == old(
                self,
            ).subtasks@[s as int].test_caches().update(t as int, Some(r@)),
            old(self).subtasks@[s as int].test_caches()[t as int] matches Some(c) ==> r@ == c,
            old(self).subtasks@[s as int].test_caches()[t as int] is None
                ==> crate::gen::content_matches(
                old(self).subtasks@[s as int].test_rules()[t as int],
                r@,
            ),
            final(self).name == old(self).name,
            final(self).time_limit_ms == old(self).time_limit_ms,
            final(self).solution_source == old(self).solution_source,
            final(self).partial_solutions == old(self).partial_solutions,
    {
        let mut slot = Subtask::new();
        self.subtasks.set_and_swap(s, &mut slot);
        let mut tslot = crate::subtask::Test::new(crate::gen::TestGenerator::new(
            crate::gen::GenRule::Fixed(String::new()),
        ));
        slot.tests.set_and_swap(t, &mut tslot);
        let content = tslot.generate_input();
        slot.tests.set_and_swap(t, &mut tslot);
        self.subtasks.set_and_swap(s, &mut slot);
        proof {
            assert(final(self).subtasks@ =~= old(self).subtasks@.update(
                s as int,
                final(self).subtasks@[s as int],
            ));
            assert(final(self).subtasks@[s as int].tests@ =~= old(
                self,
            ).subtasks@[s as int].tests@.update(t as int, final(self).subtasks@[s as int].tests@[t as int]));
            assert(final(self).subtasks@[s as int].test_rules() =~= old(
                self,
            ).subtasks@[s as int].test_rules());
            assert(final(self).subtasks@[s as int].test_caches() =~= old(
                self,
            ).subtasks@[s as int].test_caches().update(t as int, Some(content@)));
            assert(deps_wf(final(self).deps_seq())) by {
                assert(final(self).deps_seq() =~= old(self).deps_seq());
            }
        }
        content
    }
}

} // verus!

verus! {

/// Relates a subtask before and after a cache reset: everything kept but the
/// caches, which are all cleared.
pub open spec fn subtask_reset(a: Subtask, b: Subtask) -> bool {
    &&& b.number == a.number
    &&& b.dependencies@ == a.dependencies@
    &&& b.points == a.points
    &&& b.checker == a.checker
    &&& b.test_rules() == a.test_rules()
    &&& forall|t: int| 0 <= t < b.test_caches().len() ==> #[trigger] b.test_caches()[t] is None
}

/// The number of plan entries before master subtask `m`: the global test
/// counter's value when `m`'s expansion starts.
pub open spec fn flat_before(plan: Seq<Vec<PlannedTest>>, m: int) -> int
    decreases m,
{
    if m <= 0 {
        0
    } else {
        flat_before(plan, m - 1) + plan[m - 1]@.len()
    }
}

proof fn lemma_expansion_len(sizes: Seq<int>, cl: Seq<int>)
    requires
        forall|i: int| 0 <= i < cl.len() ==> 0 <= #[trigger] cl[i] < sizes.len(),
        forall|i: int| 0 <= i < sizes.len() ==> #[trigger] sizes[i] >= 0,
    ensures
        expansion(sizes, cl).len() == sum_tests(sizes, cl),
    decreases cl.len(),
{
    if cl.len() > 0 {
        lemma_expansion_len(sizes, cl.skip(1));
    }
}

impl Task {
    /// The sum of the first `upto` subtasks' expansion sizes.
    pub open spec fn sum_all(self, upto: int) -> int
        decreases upto,
    {
        if upto <= 0 {
            0
        } else {
            self.sum_all(upto - 1) + self.spec_total_tests(upto - 1)
        }
    }

    /// How many test files a full generation run writes: each subtask's
    /// expansion counted separately, shared dependencies included once per
    /// master subtask.
    pub open spec fn spec_num_all_tests(self) -> int {
        self.sum_all(self.subtasks@.len() as int)
    }

    proof fn lemma_total_tests_nonneg(self, m: int)
        requires
            self.wf(),
            0 <= m < self.subtasks@.len(),
        ensures
            self.spec_total_tests(m) >= 0,
    {
        lemma_closure_correct(self.deps_seq(), m);
        lemma_sum_tests_nonneg(subtask_sizes(self.subtasks@), closure(self.deps_seq(), m));
    }

    proof fn lemma_sum_all_mono(self, k: int, upto: int)
        requires
            self.wf(),
            0 <= k <= upto <= self.subtasks@.len(),
        ensures
            self.sum_all(k) <= self.sum_all(upto),
        decreases upto - k,
    {
        if k < upto {
            self.lemma_sum_all_mono(k + 1, upto);
            self.lemma_total_tests_nonneg(k);
        }
    }

    /// The number of tests in one subtask's expansion, dependencies included.
    pub fn get_total_tests(&self, subtask_number: usize) -> (r: usize)
        requires
            self.wf(),
            subtask_number < self.subtasks@.len(),
            self.spec_total_tests(subtask_number as int) <= usize::MAX,
        ensures
            r as int == self.spec_total_tests(subtask_number as int),
    {
        let cl = self.get_all_dependencies(subtask_number);
        let ghost sizes = subtask_sizes(self.subtasks@);
        let ghost clm = cl@.map_values(|x: usize| x as int);
        let n = cl.len();
        proof {
            assert(clm.skip(0) =~= clm);
            assert(forall|j: int| 0 <= j < clm.len() ==> 0 <= #[trigger] clm[j] < sizes.len());
            assert(forall|j: int| 0 <= j < sizes.len() ==> #[trigger] sizes[j] >= 0);
            lemma_sum_tests_nonneg(sizes, clm);
        }
        let mut acc: usize = 0;
        let mut i: usize = 0;
        while i < n
            invariant
                self.wf(),
                subtask_number < self.subtasks@.len(),
                sizes == subtask_sizes(self.subtasks@),
                clm == cl@.map_values(|x: usize| x as int),
                n == cl@.len(),
                forall|j: int| 0 <= j < n ==> #[trigger] cl@[j] < self.subtasks@.len(),
                i <= n,
                acc + sum_tests(sizes, clm.skip(i as int)) == sum_tests(sizes, clm),
                sum_tests(sizes, clm) == self.spec_total_tests(subtask_number as int),
                sum_tests(sizes, clm) <= usize::MAX,
                acc <= sum_tests(sizes, clm),
            decreases n - i,
        {
            let s = cl[i];
            proof {
                assert(clm.skip(i as int)[0] == s as int);
                assert(clm.skip(i as int).skip(1) =~= clm.skip(i + 1));
                assert(forall|j: int|
                    0 <= j < clm.skip(i + 1).len() ==> 0 <= #[trigger] clm.skip(i + 1)[j]
                        < sizes.len()) by {
                    assert(forall|j: int|
                        0 <= j < clm.len() ==> 0 <= #[trigger] clm[j] < sizes.len());
                }
                assert(forall|j: int| 0 <= j < sizes.len() ==> #[trigger] sizes[j] >= 0);
                lemma_sum_tests_nonneg(sizes, clm.skip(i + 1));
            }
            acc = acc + self.subtasks[s].tests.len();
            i = i + 1;
        }
        proof {
            assert(clm.skip(n as int) =~= Seq::<int>::empty());
        }
        acc
    }

    /// How many test files there are in total over every subtask's
    /// expansion; a shared dependency is counted once per master subtask.
    pub fn get_num_all_tests(&self) -> (r: usize)
        requires
            self.wf(),
            self.spec_num_all_tests() <= usize::MAX,
        ensures
            r as int == self.spec_num_all_tests(),
    {
        let n = self.subtasks.len();
        let mut acc: usize = 0;
        let mut m: usize = 0;
        while m < n
            invariant
                self.wf(),
                n == self.subtasks@.len(),
                self.spec_num_all_tests() <= usize::MAX,
                m <= n,
                acc as int == self.sum_all(m as int),
            decreases n - m,
        {
            proof {
                self.lemma_sum_all_mono(m + 1, n as int);
                self.lemma_total_tests_nonneg(m as int);
            }
            let t = self.get_total_tests(m);
            acc = acc + t;
            m = m + 1;
        }
        acc
    }

    /// Clears every test's cache so that the coming run generates anew.
    pub fn reset_tests(&mut self)
        ensures
            old(self).wf() ==> final(self).wf(),
            final(self).subtasks@.len() == old(self).subtasks@.len(),
            forall|s: int|
                0 <= s < old(self).subtasks@.len() ==> subtask_reset(
                    old(self).subtasks@[s],
                    #[trigger] final(self).subtasks@[s],
                ),
            final(self).name == old(self).name,
            final(self).time_limit_ms == old(self).time_limit_ms,
            final(self).solution_source == old(self).solution_source,
            final(self).partial_solutions == old(self).partial_solutions,
    {
        let n = self.subtasks.len();
        let mut s: usize = 0;
        while s < n
            invariant
                n == old(self).subtasks@.len(),
                self.subtasks@.len() == old(self).subtasks@.len(),
                s <= n,
                forall|i: int| s <= i < n ==> self.subtasks@[i] == old(self).subtasks@[i],
                forall|i: int|
                    0 <= i < s ==> subtask_reset(
                        old(self).subtasks@[i],
                        #[trigger] self.subtasks@[i],
                    ),
                self.name == old(self).name,
                self.time_limit_ms == old(self).time_limit_ms,
                self.solution_source == old(self).solution_source,
                self.partial_solutions == old(self).partial_solutions,
            decreases n - s,
        {
            let mut slot = Subtask::new();
            self.subtasks.set_and_swap(s, &mut slot);
            let cnt = slot.tests.len();
            let mut t: usize = 0;
            while t < cnt
                invariant
                    cnt == slot.tests@.len(),
                    t <= cnt,
                    s < n,
                    n == old(self).subtasks@.len(),
                    slot.number == old(self).subtasks@[s as int].number,
                    slot.dependencies@ == old(self).subtasks@[s as int].dependencies@,
                    slot.points == old(self).subtasks@[s as int].points,
                    slot.checker == old(self).subtasks@[s as int].checker,
                    slot.test_rules() == old(self).subtasks@[s as int].test_rules(),
                    forall|k: int| 0 <= k < t ==> #[trigger] slot.test_caches()[k] is None,
                decreases cnt - t,
            {
                let ghost pre_tests = slot.tests@;
                let ghost pre_rules = slot.test_rules();
                let ghost pre_caches = slot.test_caches();
                let mut tslot = crate::subtask::Test::new(crate::gen::TestGenerator::new(
                    crate::gen::GenRule::Fixed(String::new()),
                ));
                slot.tests.set_and_swap(t, &mut tslot);
                tslot.reset_input_file();
                slot.tests.set_and_swap(t, &mut tslot);
                proof {
                    assert(slot.tests@ =~= pre_tests.update(t as int, slot.tests@[t as int]));
                    assert(slot.test_rules() =~= pre_rules);
                    assert(slot.test_caches() =~= pre_caches.update(t as int, None));
                }
                t = t + 1;
            }
            self.subtasks.set_and_swap(s, &mut slot);
            s = s + 1;
            proof {
                assert(subtask_reset(old(self).subtasks@[s - 1], self.subtasks@[s - 1]));
            }
        }
        proof {
            if old(self).wf() {
                let a = old(self).subtasks@;
                let b = final(self).subtasks@;
                assert(final(self).deps_seq() =~= old(self).deps_seq()) by {
                    assert(forall|i: int|
                        0 <= i < a.len() ==> (#[trigger] b[i]).dependencies@ == a[i].dependencies@);
                }
                assert(forall|i: int| 0 <= i < b.len() ==> (#[trigger] b[i]).number == i) by {
                    assert(forall|i: int| 0 <= i < a.len() ==> (#[trigger] a[i]).number == i);
                    assert(forall|i: int| 0 <= i < b.len() ==> (#[trigger] b[i]).number == a[i].number);
                }
            }
        }
    }
}

} // verus!

verus! {

/// Relates a subtask before and after materialization: everything kept, and
/// each cache slot either unchanged or freshly filled with content its rule
/// can produce.
pub open spec fn subtask_evolved(a: Subtask, b: Subtask) -> bool {
    &&& b.number == a.number
    &&& b.dependencies@ == a.dependencies@
    &&& b.points == a.points
    &&& b.checker == a.checker
    &&& b.test_rules() == a.test_rules()
    &&& b.test_caches().len() == a.test_caches().len()
    &&& forall|t: int|
        0 <= t < a.test_caches().len() && a.test_caches()[t] is Some
            ==> #[trigger] b.test_caches()[t] == a.test_caches()[t]
    &&& forall|t: int|
        0 <= t < a.test_caches().len() && a.test_caches()[t] is None && b.test_caches()[t] is Some
            ==> crate::gen::content_matches(
            a.test_rules()[t],
            (#[trigger] b.test_caches()[t])->0,
        )
}

/// One plan entry in order: its coordinates are in range, its content is the
/// cached content of the test it names, and its numbering and default file
/// names follow from its position.
pub open spec fn entry_ok(task: Task, e: PlannedTest, m: int, base: int, k: int) -> bool {
    &&& e.subtask < task.subtasks@.len()
    &&& e.test_index < task.subtasks@[e.subtask as int].tests@.len()
    &&& task.subtasks@[e.subtask as int].test_caches()[e.test_index as int] == Some(e.content@)
    &&& e.test_id_in_subtask == k
    &&& e.test_id == base + k
    &&& e.input_name@ == spec_input_file_name(e.test_id as int, m)
    &&& e.output_name@ == spec_output_file_name(e.test_id as int, m)
}

/// See `entry_ok`: the whole-plan form, with the global counter derived from
/// the sizes of the earlier expansions.
pub open spec fn entry_wf(task: Task, plan: Seq<Vec<PlannedTest>>, m: int, k: int) -> bool {
    entry_ok(task, plan[m]@[k], m, flat_before(plan, m), k)
}

/// Determinism of a plan: wherever the same test of the same subtask is
/// materialized more than once — because several master subtasks include it
/// through their dependency closures — every copy has identical content.
pub open spec fn plan_deterministic(plan: Seq<Vec<PlannedTest>>) -> bool {
    forall|m1: int, k1: int, m2: int, k2: int|
        0 <= m1 < plan.len() && 0 <= k1 < plan[m1]@.len() && 0 <= m2 < plan.len() && 0 <= k2
            < plan[m2]@.len() && (#[trigger] plan[m1]@[k1]).subtask == (#[trigger] plan[m2]@[k2]).subtask
            && plan[m1]@[k1].test_index == plan[m2]@[k2].test_index ==> plan[m1]@[k1].content@
            == plan[m2]@[k2].content@
}

/// Determinism: a plan whose every entry carries the cached content of the
/// test it names repeats a test's content identically everywhere that test
/// appears.
pub proof fn lemma_plan_deterministic(task: Task, plan: Seq<Vec<PlannedTest>>)
    requires
        forall|m: int, k: int|
            0 <= m < plan.len() && 0 <= k < plan[m]@.len() ==> #[trigger] entry_wf(
                task,
                plan,
                m,
                k,
            ),
    ensures
        plan_deterministic(plan),
{
    assert forall|m1: int, k1: int, m2: int, k2: int|
        0 <= m1 < plan.len() && 0 <= k1 < plan[m1]@.len() && 0 <= m2 < plan.len() && 0 <= k2
            < plan[m2]@.len() && (#[trigger] plan[m1]@[k1]).subtask == (#[trigger] plan[m2]@[k2]).subtask
            && plan[m1]@[k1].test_index == plan[m2]@[k2].test_index implies plan[m1]@[k1].content@
        == plan[m2]@[k2].content@ by {
        assert(entry_wf(task, plan, m1, k1));
        assert(entry_wf(task, plan, m2, k2));
    }
}

proof fn lemma_flat_before_push(plan: Seq<Vec<PlannedTest>>, v: Vec<PlannedTest>, j: int)
    requires
        0 <= j <= plan.len(),
    ensures
        flat_before(plan.push(v), j) == flat_before(plan, j),
    decreases j,
{
    if j > 0 {
        lemma_flat_before_push(plan, v, j - 1);
        assert(plan.push(v)[j - 1] == plan[j - 1]);
    }
}

impl Task {
    /// Materializes every subtask's expansion, in subtask order, and returns
    /// the full plan: one entry per written file, carrying the file's
    /// content, numbering and default names. A test shared through
    /// dependency closures is generated once and copied thereafter, so every
    /// entry that names the same test carries identical content.
    pub fn generate_tests(&mut self) -> (plan: Vec<Vec<PlannedTest>>)
        requires
            old(self).wf(),
            forall|s: int|
                0 <= s < old(self).subtasks@.len() ==> (#[trigger] old(
                    self,
                ).subtasks@[s]).tests_wf(),
            old(self).spec_num_all_tests() < usize::MAX,
        ensures
            final(self).wf(),
            final(self).subtasks@.len() == old(self).subtasks@.len(),
            forall|s: int|
                0 <= s < old(self).subtasks@.len() ==> subtask_evolved(
                    old(self).subtasks@[s],
                    #[trigger] final(self).subtasks@[s],
                ),
            final(self).name == old(self).name,
            final(self).time_limit_ms == old(self).time_limit_ms,
            final(self).solution_source == old(self).solution_source,
            final(self).partial_solutions == old(self).partial_solutions,
            plan@.len() == old(self).subtasks@.len(),
            forall|m: int|
                0 <= m < plan@.len() ==> (#[trigger] plan@[m])@.map_values(
                    |e: PlannedTest| (e.subtask as int, e.test_index as int),
                ) == expansion(
                    subtask_sizes(old(self).subtasks@),
                    closure(old(self).deps_seq(), m),
                ),
            forall|m: int, k: int|
                0 <= m < plan@.len() && 0 <= k < plan@[m]@.len() ==> #[trigger] entry_wf(
                    *final(self),
                    plan@,
                    m,
                    k,
                ),
            plan_deterministic(plan@),
    {
        let ghost sizes = subtask_sizes(old(self).subtasks@);
        let ghost dseq0 = old(self).deps_seq();
        let n = self.subtasks.len();
        let mut plan: Vec<Vec<PlannedTest>> = Vec::new();
        let mut curr: usize = 0;
        let mut master: usize = 0;
        while master < n
            invariant
                old(self).wf(),
                forall|s: int|
                    0 <= s < old(self).subtasks@.len() ==> (#[trigger] old(
                        self,
                    ).subtasks@[s]).tests_wf(),
                old(self).spec_num_all_tests() < usize::MAX,
                sizes == subtask_sizes(old(self).subtasks@),
                dseq0 == old(self).deps_seq(),
                n == old(self).subtasks@.len(),
                master <= n,
                self.wf(),
                self.subtasks@.len() == n,
                forall|s: int|
                    0 <= s < n ==> subtask_evolved(
                        old(self).subtasks@[s],
                        #[trigger] self.subtasks@[s],
                    ),
                self.name == old(self).name,
                self.time_limit_ms == old(self).time_limit_ms,
                self.solution_source == old(self).solution_source,
                self.partial_solutions == old(self).partial_solutions,
                plan@.len() == master as int,
                curr as int == old(self).sum_all(master as int),
                flat_before(plan@, master as int) == curr as int,
                forall|j: int|
                    0 <= j < master ==> (#[trigger] plan@[j])@.map_values(
                        |e: PlannedTest| (e.subtask as int, e.test_index as int),
                    ) == expansion(sizes, closure(dseq0, j)),
                forall|j: int, k: int|
                    0 <= j < master && 0 <= k < plan@[j]@.len() ==> #[trigger] entry_ok(
                        *self,
                        plan@[j]@[k],
                        j,
                        flat_before(plan@, j),
                        k,
                    ),
            decreases n - master,
        {
            proof {
                assert(self.deps_seq() =~= dseq0) by {
                    assert(forall|s: int|
                        0 <= s < n ==> (#[trigger] self.subtasks@[s]).dependencies@ == old(
                            self,
                        ).subtasks@[s].dependencies@);
                }
                assert(subtask_sizes(self.subtasks@) =~= sizes) by {
                    assert(forall|s: int|
                        0 <= s < n ==> (#[trigger] self.subtasks@[s]).test_rules().len() == old(
                            self,
                        ).subtasks@[s].test_rules().len());
                }
            }
            let cl = self.get_all_dependencies(master);
            let ghost clm = cl@.map_values(|x: usize| x as int);
            let ghost curr0 = curr as int;
            let mut subplan: Vec<PlannedTest> = Vec::new();
            let mut local: usize = 0;
            let cln = cl.len();
            let mut ci: usize = 0;
            proof {
                assert(clm.skip(0) =~= clm);
                assert(expansion(sizes, clm) =~= subplan@.map_values(
                    |e: PlannedTest| (e.subtask as int, e.test_index as int),
                ) + expansion(sizes, clm.skip(0)));
            }
            while ci < cln
                invariant
                    old(self).wf(),
                    forall|s: int|
                        0 <= s < old(self).subtasks@.len() ==> (#[trigger] old(
                            self,
                        ).subtasks@[s]).tests_wf(),
                    old(self).spec_num_all_tests() < usize::MAX,
                    sizes == subtask_sizes(old(self).subtasks@),
                    dseq0 == old(self).deps_seq(),
                    n == old(self).subtasks@.len(),
                    master < n,
                    self.wf(),
                    self.subtasks@.len() == n,
                    forall|s: int|
                        0 <= s < n ==> subtask_evolved(
                            old(self).subtasks@[s],
                            #[trigger] self.subtasks@[s],
                        ),
                    self.name == old(self).name,
                    self.time_limit_ms == old(self).time_limit_ms,
                    self.solution_source == old(self).solution_source,
                    self.partial_solutions == old(self).partial_solutions,
                    plan@.len() == master as int,
                    curr0 == old(self).sum_all(master as int),
                    flat_before(plan@, master as int) == curr0,
                    forall|j: int|
                        0 <= j < master ==> (#[trigger] plan@[j])@.map_values(
                            |e: PlannedTest| (e.subtask as int, e.test_index as int),
                        ) == expansion(sizes, closure(dseq0, j)),
                    forall|j: int, k: int|
                        0 <= j < master && 0 <= k < plan@[j]@.len() ==> #[trigger] entry_ok(
                            *self,
                            plan@[j]@[k],
                            j,
                            flat_before(plan@, j),
                            k,
                        ),
                    cln == cl@.len(),
                    ci <= cln,
                    clm == cl@.map_values(|x: usize| x as int),
                    clm == closure(dseq0, master as int),
                    forall|j: int| 0 <= j < cln ==> #[trigger] cl@[j] < n,
                    local == subplan@.len(),
                    curr as int == curr0 + local as int,
                    expansion(sizes, clm) =~= subplan@.map_values(
                        |e: PlannedTest| (e.subtask as int, e.test_index as int),
                    ) + expansion(sizes, clm.skip(ci as int)),
                    forall|k: int|
                        0 <= k < subplan@.len() ==> #[trigger] entry_ok(
                            *self,
                            subplan@[k],
                            master as int,
                            curr0,
                            k,
                        ),
                decreases cln - ci,
            {
                let s = cl[ci];
                let cnt = self.subtasks[s].tests.len();
                proof {
                    assert(clm.skip(ci as int)[0] == s as int);
                    assert(clm.skip(ci as int).skip(1) =~= clm.skip(ci + 1));
                    assert(subtask_evolved(old(self).subtasks@[s as int], self.subtasks@[s as int]));
                    assert(cnt as int == sizes[s as int]) by {
                        assert(self.subtasks@[s as int].test_rules().len() == old(
                            self,
                        ).subtasks@[s as int].test_rules().len());
                    }
                    assert(expansion(sizes, clm.skip(ci as int)) =~= pairs_of(s as int, cnt as int)
                        + expansion(sizes, clm.skip(ci + 1)));
                    assert(pairs_of(s as int, cnt as int).skip(0) =~= pairs_of(
                        s as int,
                        cnt as int,
                    ));
                }
                let mut t: usize = 0;
                while t < cnt
                    invariant
                        old(self).wf(),
                        forall|s2: int|
                            0 <= s2 < old(self).subtasks@.len() ==> (#[trigger] old(
                                self,
                            ).subtasks@[s2]).tests_wf(),
                        old(self).spec_num_all_tests() < usize::MAX,
                        sizes == subtask_sizes(old(self).subtasks@),
                        dseq0 == old(self).deps_seq(),
                        n == old(self).subtasks@.len(),
                        master < n,
                        s < n,
                        self.wf(),
                        self.subtasks@.len() == n,
                        forall|s2: int|
                            0 <= s2 < n ==> subtask_evolved(
                                old(self).subtasks@[s2],
                                #[trigger] self.subtasks@[s2],
                            ),
                        self.name == old(self).name,
                        self.time_limit_ms == old(self).time_limit_ms,
                        self.solution_source == old(self).solution_source,
                        self.partial_solutions == old(self).partial_solutions,
                        plan@.len() == master as int,
                        curr0 == old(self).sum_all(master as int),
                        flat_before(plan@, master as int) == curr0,
                        forall|j: int|
                            0 <= j < master ==> (#[trigger] plan@[j])@.map_values(
                                |e: PlannedTest| (e.subtask as int, e.test_index as int),
                            ) == expansion(sizes, closure(dseq0, j)),
                        forall|j: int, k: int|
                            0 <= j < master && 0 <= k < plan@[j]@.len() ==> #[trigger] entry_ok(
                                *self,
                                plan@[j]@[k],
                                j,
                                flat_before(plan@, j),
                                k,
                            ),
                        clm == closure(dseq0, master as int),
                        ci < clm.len(),
                        t <= cnt,
                        cnt as int == sizes[s as int],
                        cnt == self.subtasks@[s as int].tests@.len(),
                        local == subplan@.len(),
                        curr as int == curr0 + local as int,
                        expansion(sizes, clm) =~= subplan@.map_values(
                            |e: PlannedTest| (e.subtask as int, e.test_index as int),
                        ) + pairs_of(s as int, cnt as int).skip(t as int) + expansion(
                            sizes,
                            clm.skip(ci + 1),
                        ),
                        forall|k: int|
                            0 <= k < subplan@.len() ==> #[trigger] entry_ok(
                                *self,
                                subplan@[k],
                                master as int,
                                curr0,
                                k,
                            ),
                    decreases cnt - t,
                {
                    proof {
                        // the plan still grows here, so the global counter is
                        // strictly below the total over all masters
                        lemma_closure_correct(dseq0, master as int);
                        assert(forall|j: int|
                            0 <= j < clm.len() ==> 0 <= #[trigger] clm[j] < sizes.len());
                        assert forall|j: int|
                            0 <= j < clm.skip(ci + 1).len() implies 0 <= #[trigger] clm.skip(
                            ci + 1,
                        )[j] < sizes.len() by {
                            assert(clm.skip(ci + 1)[j] == clm[j + ci + 1]);
                        }
                        assert(forall|j: int| 0 <= j < sizes.len() ==> #[trigger] sizes[j] >= 0);
                        lemma_expansion_len(sizes, clm);
                        lemma_sum_tests_nonneg(sizes, clm.skip(ci + 1));
                        lemma_expansion_len(sizes, clm.skip(ci + 1));
                        assert((subplan@.len() as int) < expansion(sizes, clm).len()) by {
                            assert(pairs_of(s as int, cnt as int).skip(t as int).len() >= 1);
                        }
                        assert(expansion(sizes, clm).len() == old(self).spec_total_tests(
                            master as int,
                        ));
                        assert((curr as int) < curr0 + old(self).spec_total_tests(master as int));
                        assert(curr0 + old(self).spec_total_tests(master as int) == old(
                            self,
                        ).sum_all(master + 1));
                        old(self).lemma_sum_all_mono(master + 1, n as int);
                        old(self).lemma_sum_all_mono(0, master as int);
                        assert((curr as int) < old(self).spec_num_all_tests());
                    }
                    let ghost pre_self = *self;
                    let content = self.materialize_test(s, t);
                    let input_name = default_input_file_name(curr as u64, master as u64);
                    let output_name = default_output_file_name(curr as u64, master as u64);
                    let entry = PlannedTest {
                        subtask: s,
                        test_index: t,
                        test_id: curr,
                        test_id_in_subtask: local,
                        input_name,
                        output_name,
                        content,
                    };
                    proof {
                        // caches keep every value they already had, so every
                        // earlier entry still matches them
                        assert(subtask_evolved(pre_self.subtasks@[s as int], self.subtasks@[s as int]));
                        assert(forall|s2: int|
                            0 <= s2 < n && s2 != s ==> #[trigger] self.subtasks@[s2]
                                == pre_self.subtasks@[s2]);
                        assert(forall|t2: int|
                            0 <= t2 < pre_self.subtasks@[s as int].test_caches().len() && t2 != t
                                ==> #[trigger] self.subtasks@[s as int].test_caches()[t2]
                                == pre_self.subtasks@[s as int].test_caches()[t2]);
                        assert(self.subtasks@[s as int].test_caches()[t as int] == Some(content@));
                        assert forall|j: int, k: int|
                            0 <= j < master && 0 <= k < plan@[j]@.len() implies #[trigger] entry_ok(
                            *self,
                            plan@[j]@[k],
                            j,
                            flat_before(plan@, j),
                            k,
                        ) by {
                            let e = plan@[j]@[k];
                            assert(entry_ok(pre_self, e, j, flat_before(plan@, j), k));
                            if e.subtask == s && e.test_index == t {
                                assert(pre_self.subtasks@[s as int].test_caches()[t as int]
                                    == Some(e.content@));
                                assert(content@ == e.content@);
                            }
                        }
                        assert forall|k: int|
                            0 <= k < subplan@.len() implies #[trigger] entry_ok(
                            *self,
                            subplan@[k],
                            master as int,
                            curr0,
                            k,
                        ) by {
                            let e = subplan@[k];
                            assert(entry_ok(pre_self, e, master as int, curr0, k));
                            if e.subtask == s && e.test_index == t {
                                assert(pre_self.subtasks@[s as int].test_caches()[t as int]
                                    == Some(e.content@));
                                assert(content@ == e.content@);
                            }
                        }
                        assert(entry_ok(*self, entry, master as int, curr0, local as int));
                    }
                    let ghost pre_pairs = subplan@.map_values(
                        |e: PlannedTest| (e.subtask as int, e.test_index as int),
                    );
                    subplan.push(entry);
                    curr = curr + 1;
                    local = local + 1;
                    t = t + 1;
                    proof {
                        assert(subplan@.map_values(
                            |e: PlannedTest| (e.subtask as int, e.test_index as int),
                        ) =~= pre_pairs.push((s as int, t - 1)));
                        assert(pairs_of(s as int, cnt as int).skip(t - 1)[0] == (s as int, t - 1));
                        assert(pairs_of(s as int, cnt as int).skip(t - 1).skip(1) =~= pairs_of(
                            s as int,
                            cnt as int,
                        ).skip(t as int));
                        assert(expansion(sizes, clm) =~= subplan@.map_values(
                            |e: PlannedTest| (e.subtask as int, e.test_index as int),
                        ) + pairs_of(s as int, cnt as int).skip(t as int) + expansion(
                            sizes,
                            clm.skip(ci + 1),
                        ));
                    }
                }
                ci = ci + 1;
                proof {
                    assert(pairs_of(s as int, cnt as int).skip(cnt as int) =~= Seq::<(
                        int,
                        int,
                    )>::empty());
                    assert(expansion(sizes, clm) =~= subplan@.map_values(
                        |e: PlannedTest| (e.subtask as int, e.test_index as int),
                    ) + expansion(sizes, clm.skip(ci as int)));
                }
            }
            proof {
                assert(clm.skip(cln as int) =~= Seq::<int>::empty());
                assert(expansion(sizes, clm.skip(cln as int)) =~= Seq::<(int, int)>::empty());
                assert(expansion(sizes, clm) =~= subplan@.map_values(
                    |e: PlannedTest| (e.subtask as int, e.test_index as int),
                ));
                assert(forall|j: int| 0 <= j < clm.len() ==> 0 <= #[trigger] clm[j] < sizes.len());
                assert(forall|j: int| 0 <= j < sizes.len() ==> #[trigger] sizes[j] >= 0);
                lemma_expansion_len(sizes, clm);
                assert(subplan@.len() == old(self).spec_total_tests(master as int));
            }
            let ghost pre_plan = plan@;
            plan.push(subplan);
            master = master + 1;
            proof {
                assert(forall|j: int| 0 <= j < pre_plan.len() ==> #[trigger] plan@[j] == pre_plan[j]);
                assert(forall|j: int|
                    0 <= j <= pre_plan.len() ==> #[trigger] flat_before(plan@, j) == flat_before(
                        pre_plan,
                        j,
                    )) by {
                    assert forall|j: int|
                        0 <= j <= pre_plan.len() implies #[trigger] flat_before(plan@, j)
                        == flat_before(pre_plan, j) by {
                        lemma_flat_before_push(pre_plan, plan@[plan@.len() - 1], j);
                        assert(plan@ == pre_plan.push(plan@[plan@.len() - 1]));
                    }
                }
                assert(flat_before(plan@, master - 1) == curr0);
                assert(plan@[master - 1]@.len() == subplan@.len());
                assert(flat_before(plan@, master as int) == curr0 + subplan@.len());
                assert(curr as int == old(self).sum_all(master as int));
                assert forall|k: int| 0 <= k < plan@[master - 1]@.len() implies #[trigger] entry_ok(
                    *self,
                    plan@[master - 1]@[k],
                    master - 1,
                    flat_before(plan@, master - 1),
                    k,
                ) by {
                    assert(entry_ok(*self, subplan@[k], master - 1, curr0, k));
                }
            }
        }
        proof {
            assert(forall|m: int, k: int|
                0 <= m < plan@.len() && 0 <= k < plan@[m]@.len() ==> #[trigger] entry_wf(
                    *final(self),
                    plan@,
                    m,
                    k,
                )) by {
                assert(forall|m: int, k: int|
                    0 <= m < plan@.len() && 0 <= k < plan@[m]@.len() ==> #[trigger] entry_ok(
                        *self,
                        plan@[m]@[k],
                        m,
                        flat_before(plan@, m),
                        k,
                    ));
            }
            lemma_plan_deterministic(*final(self), plan@);
        }
        plan
    }

    /// Runs the generation stage: fails exactly when no reference solution
    /// source has been set; otherwise clears every test cache and builds the
    /// full materialization plan, whose every entry carries content its
    /// test's rule can produce, repeated identically wherever the same test
    /// appears.
    pub fn create_tests(&mut self) -> (r: Result<Vec<Vec<PlannedTest>>, Error>)
        requires
            old(self).wf(),
            forall|s: int|
                0 <= s < old(self).subtasks@.len() ==> (#[trigger] old(
                    self,
                ).subtasks@[s]).tests_wf(),
            old(self).spec_num_all_tests() < usize::MAX,
        ensures
            final(self).wf(),
            r is Err <==> old(self).solution_source@.len() == 0,
            r matches Err(e) ==> e is MissingSolution && *final(self) == *old(self),
            final(self).subtasks@.len() == old(self).subtasks@.len(),
            forall|s: int|
                0 <= s < old(self).subtasks@.len() ==> {
                    &&& (#[trigger] final(self).subtasks@[s]).number == old(
                        self,
                    ).subtasks@[s].number
                    &&& final(self).subtasks@[s].dependencies@ == old(
                        self,
                    ).subtasks@[s].dependencies@
                    &&& final(self).subtasks@[s].points == old(self).subtasks@[s].points
                    &&& final(self).subtasks@[s].checker == old(self).subtasks@[s].checker
                    &&& final(self).subtasks@[s].test_rules() == old(
                        self,
                    ).subtasks@[s].test_rules()
                },
            final(self).name == old(self).name,
            final(self).time_limit_ms == old(self).time_limit_ms,
            final(self).solution_source == old(self).solution_source,
            final(self).partial_solutions == old(self).partial_solutions,
            r matches Ok(plan) ==> {
                &&& plan@.len() == old(self).subtasks@.len()
                &&& forall|m: int|
                    0 <= m < plan@.len() ==> (#[trigger] plan@[m])@.map_values(
                        |e: PlannedTest| (e.subtask as int, e.test_index as int),
                    ) == expansion(
                        subtask_sizes(old(self).subtasks@),
                        closure(old(self).deps_seq(), m),
                    )
                &&& forall|m: int, k: int|
                    0 <= m < plan@.len() && 0 <= k < plan@[m]@.len() ==> #[trigger] entry_wf(
                        *final(self),
                        plan@,
                        m,
                        k,
                    )
                &&& forall|m: int, k: int|
                    0 <= m < plan@.len() && 0 <= k < plan@[m]@.len()
                        ==> crate::gen::content_matches(
                        final(self).subtasks@[(#[trigger] plan@[m]@[k]).subtask as int].test_rules()[plan@[m]@[k].test_index as int],
                        plan@[m]@[k].content@,
                    )
                &&& plan_deterministic(plan@)
            },
    {
        if self.solution_source.as_str().is_empty() {
            return Err(Error::MissingSolution);
        }
        let ghost before = *self;
        self.reset_tests();
        let ghost mid = *self;
        proof {
            assert(mid.deps_seq() =~= before.deps_seq()) by {
                assert(forall|s: int|
                    0 <= s < mid.subtasks@.len() ==> (#[trigger] mid.subtasks@[s]).dependencies@
                        == before.subtasks@[s].dependencies@);
            }
            assert(subtask_sizes(mid.subtasks@) =~= subtask_sizes(before.subtasks@)) by {
                assert(forall|s: int|
                    0 <= s < mid.subtasks@.len() ==> (#[trigger] mid.subtasks@[s]).test_rules().len()
                        == before.subtasks@[s].test_rules().len());
            }
            assert(forall|s: int|
                0 <= s < mid.subtasks@.len() ==> (#[trigger] mid.subtasks@[s]).tests_wf()) by {
                assert(forall|s: int|
                    0 <= s < mid.subtasks@.len() ==> (#[trigger] mid.subtasks@[s]).test_rules()
                        == before.subtasks@[s].test_rules());
            }
            lemma_sum_all_same(mid, before, mid.subtasks@.len() as int);
        }
        let plan = self.generate_tests();
        proof {
            assert forall|m: int, k: int|
                0 <= m < plan@.len() && 0 <= k < plan@[m]@.len() implies crate::gen::content_matches(
                final(self).subtasks@[(#[trigger] plan@[m]@[k]).subtask as int].test_rules()[plan@[m]@[k].test_index as int],
                plan@[m]@[k].content@,
            ) by {
                let e = plan@[m]@[k];
                assert(entry_wf(*final(self), plan@, m, k));
                let si = e.subtask as int;
                let ti = e.test_index as int;
                assert(subtask_evolved(mid.subtasks@[si], final(self).subtasks@[si]));
                assert(subtask_reset(before.subtasks@[si], mid.subtasks@[si]));
                assert(mid.subtasks@[si].test_caches()[ti] is None);
                assert(final(self).subtasks@[si].test_caches()[ti] == Some(e.content@));
            }
            assert forall|s: int| 0 <= s < before.subtasks@.len() implies {
                &&& (#[trigger] final(self).subtasks@[s]).number == before.subtasks@[s].number
                &&& final(self).subtasks@[s].dependencies@ == before.subtasks@[s].dependencies@
                &&& final(self).subtasks@[s].points == before.subtasks@[s].points
                &&& final(self).subtasks@[s].checker == before.subtasks@[s].checker
                &&& final(self).subtasks@[s].test_rules() == before.subtasks@[s].test_rules()
            } by {
                assert(subtask_reset(before.subtasks@[s], mid.subtasks@[s]));
                assert(subtask_evolved(mid.subtasks@[s], final(self).subtasks@[s]));
            }
        }
        Ok(plan)
    }
}

/// The per-master totals agree between two tasks whose sizes and dependency
/// lists agree.
proof fn lemma_sum_all_same(a: Task, b: Task, upto: int)
    requires
        subtask_sizes(a.subtasks@) == subtask_sizes(b.subtasks@),
        a.deps_seq() == b.deps_seq(),
    ensures
        a.sum_all(upto) == b.sum_all(upto),
    decreases upto,
{
    if upto > 0 {
        lemma_sum_all_same(a, b, upto - 1);
    }
}

} // verus!

verus! {

/// True when every queued run finished in time.
pub open spec fn all_finished(results: Seq<Vec<RunResult>>) -> bool {
    forall|m: int, k: int|
        0 <= m < results.len() && 0 <= k < results[m]@.len() ==> (#[trigger] results[m]@[k])
            is Finished
}

/// True when every run before position (m, k), in file order, finished.
pub open spec fn finished_before(results: Seq<Vec<RunResult>>, m: int, k: int) -> bool {
    forall|m2: int, k2: int|
        0 <= m2 < results.len() && 0 <= k2 < results[m2]@.len() && (m2 < m || (m2 == m && k2 < k))
            ==> (#[trigger] results[m2]@[k2]) is Finished
}

impl Task {
    /// Runs each subtask's checker over every file of its expansion,
    /// aborting on the first violation. A subtask without a checker is
    /// skipped (the embedding program may warn); with no checkers at all the
    /// stage always succeeds.
    pub fn check_tests(&self, plan: &Vec<Vec<PlannedTest>>) -> (r: Result<(), Error>)
        requires
            plan@.len() == self.subtasks@.len(),
        ensures
            (forall|s: int|
                0 <= s < self.subtasks@.len() ==> !(#[trigger] self.subtasks@[s]).spec_has_checker())
                ==> r is Ok,
            r is Err ==> exists|s: int|
                0 <= s < self.subtasks@.len() && (#[trigger] self.subtasks@[s]).spec_has_checker(),
    {
        let n = self.subtasks.len();
        let mut s: usize = 0;
        while s < n
            invariant
                n == self.subtasks@.len(),
                plan@.len() == n,
                s <= n,
            decreases n - s,
        {
            match &self.subtasks[s].checker {
                Some(checker) => {
                    proof {
                        assert(self.subtasks@[s as int].spec_has_checker());
                    }
                    let cnt = plan[s].len();
                    let mut k: usize = 0;
                    while k < cnt
                        invariant
                            n == self.subtasks@.len(),
                            plan@.len() == n,
                            s < n,
                            self.subtasks@[s as int].spec_has_checker(),
                            cnt == plan@[s as int]@.len(),
                            k <= cnt,
                        decreases cnt - k,
                    {
                        let input = crate::input::Input::new(plan[s][k].content.as_str());
                        match checker.check(input) {
                            Ok(_) => {},
                            Err(e) => {
                                return Err(e);
                            },
                        }
                        k = k + 1;
                    }
                },
                None => {},
            }
            s = s + 1;
        }
        Ok(())
    }

    /// Collects the reference solution's outputs over the whole plan. Fails
    /// exactly when some run did not finish, with the error naming the input
    /// file of the first such run; on success yields the canonical expected
    /// output for every file and the largest observed elapsed time.
    pub fn generate_test_solutions(
        &self,
        plan: &Vec<Vec<PlannedTest>>,
        results: &Vec<Vec<RunResult>>,
    ) -> (r: Result<(Vec<Vec<String>>, i32), Error>)
        requires
            results@.len() == plan@.len(),
            forall|m: int|
                0 <= m < plan@.len() ==> (#[trigger] results@[m])@.len() == plan@[m]@.len(),
        ensures
            r is Ok <==> all_finished(results@),
            r matches Ok(pair) ==> {
                &&& pair.0@.len() == results@.len()
                &&& forall|m: int|
                    0 <= m < results@.len() ==> (#[trigger] pair.0@[m])@.len()
                        == results@[m]@.len()
                &&& forall|m: int, k: int|
                    0 <= m < results@.len() && 0 <= k < results@[m]@.len()
                        ==> ((#[trigger] results@[m]@[k]) matches RunResult::Finished(t, o)
                        ==> pair.0@[m]@[k]@ == o@ && t <= pair.1)
                &&& (pair.1 == 0 || exists|m: int, k: int|
                    0 <= m < results@.len() && 0 <= k < results@[m]@.len()
                        && ((#[trigger] results@[m]@[k]) matches RunResult::Finished(t, _) && t
                        == pair.1))
            },
            r matches Err(e) ==> exists|m: int, k: int|
                0 <= m < results@.len() && 0 <= k < results@[m]@.len()
                    && #[trigger] finished_before(results@, m, k) && !(results@[m]@[k] is Finished) && (
                results@[m]@[k] is TimedOut ==> (e matches Error::SolutionTimedOut { test_path }
                    && test_path@ == plan@[m]@[k].input_name@)) && (results@[m]@[k] is Crashed ==> (
                e matches Error::SolutionFailed { test_path } && test_path@
                    == plan@[m]@[k].input_name@)),
    {
        let n = results.len();
        let mut outs: Vec<Vec<String>> = Vec::new();
        let mut max_elapsed: i32 = 0;
        let mut m: usize = 0;
        while m < n
            invariant
                n == results@.len(),
                plan@.len() == n,
                forall|j: int|
                    0 <= j < n ==> (#[trigger] results@[j])@.len() == plan@[j]@.len(),
                m <= n,
                outs@.len() == m as int,
                forall|j: int|
                    0 <= j < m ==> (#[trigger] outs@[j])@.len() == results@[j]@.len(),
                forall|j: int, k: int|
                    0 <= j < m && 0 <= k < results@[j]@.len() ==> (#[trigger] results@[j]@[k])
                        is Finished,
                forall|j: int, k: int|
                    0 <= j < m && 0 <= k < results@[j]@.len()
                        ==> ((#[trigger] results@[j]@[k]) matches RunResult::Finished(t, o)
                        ==> outs@[j]@[k]@ == o@ && t <= max_elapsed),
                max_elapsed == 0 || exists|j: int, k: int|
                    0 <= j < n && 0 <= k < results@[j]@.len() && ((#[trigger] results@[j]@[k])
                        matches RunResult::Finished(t, _) && t == max_elapsed),
                max_elapsed >= 0,
            decreases n - m,
        {
            let row = &results[m];
            let cnt = row.len();
            let mut row_outs: Vec<String> = Vec::new();
            let mut k: usize = 0;
            while k < cnt
                invariant
                    n == results@.len(),
                    plan@.len() == n,
                    forall|j: int|
                        0 <= j < n ==> (#[trigger] results@[j])@.len() == plan@[j]@.len(),
                    m < n,
                    row == results@[m as int],
                    cnt == row@.len(),
                    k <= cnt,
                    row_outs@.len() == k as int,
                    forall|j: int, k2: int|
                        0 <= j < m && 0 <= k2 < results@[j]@.len() ==> (#[trigger] results@[j]@[k2])
                            is Finished,
                    forall|k2: int| 0 <= k2 < k ==> (#[trigger] row@[k2]) is Finished,
                    forall|k2: int|
                        0 <= k2 < k ==> ((#[trigger] row@[k2]) matches RunResult::Finished(t, o)
                            ==> row_outs@[k2]@ == o@ && t <= max_elapsed),
                    forall|j: int, k2: int|
                        0 <= j < m && 0 <= k2 < results@[j]@.len()
                            ==> ((#[trigger] results@[j]@[k2]) matches RunResult::Finished(t, o)
                            ==> outs@[j]@[k2]@ == o@ && t <= max_elapsed),
                    outs@.len() == m as int,
                    forall|j: int|
                        0 <= j < m ==> (#[trigger] outs@[j])@.len() == results@[j]@.len(),
                    max_elapsed == 0 || exists|j: int, k2: int|
                        0 <= j < n && 0 <= k2 < results@[j]@.len() && ((#[trigger] results@[j]@[k2])
                            matches RunResult::Finished(t, _) && t == max_elapsed),
                    max_elapsed >= 0,
                decreases cnt - k,
            {
                match &row[k] {
                    RunResult::Finished(t, o) => {
                        if *t > max_elapsed {
                            max_elapsed = *t;
                        }
                        row_outs.push(o.clone());
                    },
                    RunResult::TimedOut => {
                        proof {
                            assert(finished_before(results@, m as int, k as int));
                        }
                        let mut path = String::new();
                        path.append(plan[m][k].input_name.as_str());
                        return Err(Error::SolutionTimedOut { test_path: path });
                    },
                    RunResult::Crashed => {
                        proof {
                            assert(finished_before(results@, m as int, k as int));
                        }
                        let mut path = String::new();
                        path.append(plan[m][k].input_name.as_str());
                        return Err(Error::SolutionFailed { test_path: path });
                    },
                }
                k = k + 1;
            }
            outs.push(row_outs);
            m = m + 1;
        }
        Ok((outs, max_elapsed))
    }

    /// Whether partial solution `p` declares that it passes subtask `s`.
    pub open spec fn declared(self, p: int, s: int) -> bool {
        exists|j: int|
            0 <= j < self.partial_solutions@[p].1@.len()
                && (#[trigger] self.partial_solutions@[p].1@[j]) as int == s
    }

    /// The two-sided audit of one partial solution run: succeeds exactly
    /// when, for every partial solution, the set of subtasks it passed
    /// equals the set it declared. A declared subtask that failed and an
    /// undeclared subtask that passed are each reported with the offending
    /// partial solution and subtask, one-based, at the first such pair.
    pub fn check_partial_solutions(&self, passed: &Vec<Vec<bool>>) -> (r: Result<(), Error>)
        requires
            passed@.len() == self.partial_solutions@.len(),
            forall|p: int|
                0 <= p < passed@.len() ==> (#[trigger] passed@[p])@.len()
                    == self.subtasks@.len(),
        ensures
            r is Ok <==> (forall|p: int, s: int|
                0 <= p < passed@.len() && 0 <= s < self.subtasks@.len()
                    ==> ((#[trigger] passed@[p]@[s]) <==> self.declared(p, s))),
            r matches Err(e) ==> exists|p: int, s: int|
                {
                    &&& 0 <= p < passed@.len()
                    &&& 0 <= s < self.subtasks@.len()
                    &&& ((#[trigger] passed@[p]@[s]) != self.declared(p, s))
                    &&& forall|p2: int, s2: int|
                        0 <= p2 < passed@.len() && 0 <= s2 < self.subtasks@.len() && (p2 < p || (p2
                            == p && s2 < s)) ==> ((#[trigger] passed@[p2]@[s2]) <==> self.declared(
                            p2,
                            s2,
                        ))
                    &&& (self.declared(p, s) && !passed@[p]@[s]) ==> (e
                        matches Error::PartialSolutionFailsSubtask { subtask_number, partial_number }
                        && subtask_number == s + 1 && partial_number == p + 1)
                    &&& (!self.declared(p, s) && passed@[p]@[s]) ==> (e
                        matches Error::PartialSolutionPassesExtraSubtask {
                        subtask_number,
                        partial_number,
                    } && subtask_number == s + 1 && partial_number == p + 1)
                },
    {
        let np = self.partial_solutions.len();
        let ns = self.subtasks.len();
        let mut p: usize = 0;
        while p < np
            invariant
                np == self.partial_solutions@.len(),
                ns == self.subtasks@.len(),
                passed@.len() == np,
                forall|j: int| 0 <= j < np ==> (#[trigger] passed@[j])@.len() == ns,
                p <= np,
                forall|p2: int, s2: int|
                    0 <= p2 < p && 0 <= s2 < ns ==> ((#[trigger] passed@[p2]@[s2])
                        <==> self.declared(p2, s2)),
            decreases np - p,
        {
            let mut s: usize = 0;
            while s < ns
                invariant
                    np == self.partial_solutions@.len(),
                    ns == self.subtasks@.len(),
                    passed@.len() == np,
                    forall|j: int| 0 <= j < np ==> (#[trigger] passed@[j])@.len() == ns,
                    p < np,
                    s <= ns,
                    forall|p2: int, s2: int|
                        0 <= p2 < p && 0 <= s2 < ns ==> ((#[trigger] passed@[p2]@[s2])
                            <==> self.declared(p2, s2)),
                    forall|s2: int|
                        0 <= s2 < s ==> ((#[trigger] passed@[p as int]@[s2]) <==> self.declared(
                            p as int,
                            s2,
                        )),
                decreases ns - s,
            {
                let declared_list = &self.partial_solutions[p].1;
                let dn = declared_list.len();
                let mut is_declared = false;
                let mut j: usize = 0;
                while j < dn
                    invariant
                        dn == declared_list@.len(),
                        declared_list == self.partial_solutions@[p as int].1,
                        j <= dn,
                        is_declared == exists|j2: int|
                            0 <= j2 < j && (#[trigger] declared_list@[j2]) == s,
                    decreases dn - j,
                {
                    if declared_list[j] == s {
                        is_declared = true;
                    }
                    j = j + 1;
                }
                proof {
                    assert(is_declared == self.declared(p as int, s as int));
                }
                let subtask_failed = !passed[p][s];
                if subtask_failed && is_declared {
                    return Err(Error::PartialSolutionFailsSubtask {
                        partial_number: p + 1,
                        subtask_number: s + 1,
                    });
                }
                if !subtask_failed && !is_declared {
                    return Err(Error::PartialSolutionPassesExtraSubtask {
                        partial_number: p + 1,
                        subtask_number: s + 1,
                    });
                }
                s = s + 1;
            }
            p = p + 1;
        }
        Ok(())
    }
}

} // verus!

verus! {

/// The compact test-package data: the ordered (input, output) text pairs,
/// each subtask's list of indices into that order, and each subtask's point
/// value. The embedding program encodes and compresses this structure.
pub struct CPSTests {
    pub tests: Vec<(String, String)>,
    pub subtask_tests: Vec<Vec<usize>>,
    pub subtask_points: Vec<i32>,
}

/// Where subtask `s`'s own tests start in the package's test order: the sum
/// of the earlier subtasks' own test counts.
pub open spec fn own_offset(sizes: Seq<int>, s: int) -> int
    decreases s,
{
    if s <= 0 {
        0
    } else {
        own_offset(sizes, s - 1) + sizes[s - 1]
    }
}

/// The package's index list of one subtask: the lists of its direct
/// dependencies in order, concatenated, followed by the indices of its own
/// tests. Shared dependencies are repeated: the package keeps each subtask's
/// list self-contained.
pub open spec fn cps_list(deps: Seq<Seq<usize>>, sizes: Seq<int>, s: int) -> Seq<int>
    decreases s, 1int, 0int,
    when deps_wf(deps) && 0 <= s < deps.len()
{
    cps_list_deps(deps, sizes, s, deps[s].len() as int) + Seq::new(
        sizes[s] as nat,
        |t: int| own_offset(sizes, s) + t,
    )
}

/// See `cps_list`: the concatenation of the lists of the first `i` direct
/// dependencies of `s`.
pub open spec fn cps_list_deps(deps: Seq<Seq<usize>>, sizes: Seq<int>, s: int, i: int) -> Seq<int>
    decreases s, 0int, i,
    when deps_wf(deps) && 0 <= s < deps.len() && i <= deps[s].len()
{
    if i <= 0 {
        Seq::empty()
    } else {
        cps_list_deps(deps, sizes, s, i - 1) + cps_list(deps, sizes, deps[s][i - 1] as int)
    }
}

proof fn lemma_own_offset_nonneg(sizes: Seq<int>, s: int)
    requires
        forall|i: int| 0 <= i < sizes.len() ==> #[trigger] sizes[i] >= 0,
        s <= sizes.len(),
    ensures
        own_offset(sizes, s) >= 0,
        forall|s2: int| 0 <= s2 <= s ==> #[trigger] own_offset(sizes, s2) <= own_offset(sizes, s),
        forall|s2: int| 0 <= s2 <= s ==> #[trigger] own_offset(sizes, s2) >= 0,
    decreases s,
{
    if s > 0 {
        lemma_own_offset_nonneg(sizes, s - 1);
    }
}

proof fn lemma_expansion_last(sizes: Seq<int>, cl: Seq<int>)
    requires
        cl.len() > 0,
    ensures
        expansion(sizes, cl) == expansion(sizes, cl.drop_last()) + pairs_of(
            cl.last(),
            sizes[cl.last()],
        ),
    decreases cl.len(),
{
    if cl.len() == 1 {
        assert(cl.drop_last() =~= Seq::<int>::empty());
        assert(cl.skip(1) =~= Seq::<int>::empty());
        assert(expansion(sizes, cl) =~= expansion(sizes, cl.drop_last()) + pairs_of(
            cl.last(),
            sizes[cl.last()],
        ));
    } else {
        lemma_expansion_last(sizes, cl.skip(1));
        assert(cl.skip(1).drop_last() =~= cl.drop_last().skip(1));
        assert(cl.skip(1).last() == cl.last());
        assert(expansion(sizes, cl) =~= expansion(sizes, cl.drop_last()) + pairs_of(
            cl.last(),
            sizes[cl.last()],
        ));
    }
}

impl Task {
    /// Builds the package data from a generation plan and the collected
    /// reference outputs: each subtask contributes its own materialized
    /// tests, in order, paired with their expected outputs; its index list
    /// concatenates its direct dependencies' lists and then its own new
    /// indices; its points are carried over.
    pub fn generate_cps_data(
        &self,
        plan: &Vec<Vec<PlannedTest>>,
        outputs: &Vec<Vec<String>>,
    ) -> (r: CPSTests)
        requires
            self.wf(),
            plan@.len() == self.subtasks@.len(),
            outputs@.len() == plan@.len(),
            forall|m: int|
                0 <= m < plan@.len() ==> (#[trigger] outputs@[m])@.len() == plan@[m]@.len(),
            forall|m: int|
                0 <= m < plan@.len() ==> (#[trigger] plan@[m])@.map_values(
                    |e: PlannedTest| (e.subtask as int, e.test_index as int),
                ) == expansion(subtask_sizes(self.subtasks@), closure(self.deps_seq(), m)),
            own_offset(subtask_sizes(self.subtasks@), self.subtasks@.len() as int) <= usize::MAX,
        ensures
            r.subtask_points@.len() == self.subtasks@.len(),
            forall|s: int|
                0 <= s < self.subtasks@.len() ==> #[trigger] r.subtask_points@[s]
                    == self.subtasks@[s].points,
            r.subtask_tests@.len() == self.subtasks@.len(),
            forall|s: int|
                0 <= s < self.subtasks@.len() ==> (#[trigger] r.subtask_tests@[s])@.map_values(
                    |x: usize| x as int,
                ) == cps_list(self.deps_seq(), subtask_sizes(self.subtasks@), s),
            r.tests@.len() == own_offset(
                subtask_sizes(self.subtasks@),
                self.subtasks@.len() as int,
            ),
            forall|s: int, t: int|
                0 <= s < self.subtasks@.len() && 0 <= t < subtask_sizes(self.subtasks@)[s] ==> {
                    &&& (#[trigger] r.tests@[own_offset(subtask_sizes(self.subtasks@), s) + t]).0@
                        == plan@[s]@[plan@[s]@.len() - subtask_sizes(self.subtasks@)[s]
                        + t].content@
                    &&& r.tests@[own_offset(subtask_sizes(self.subtasks@), s) + t].1@
                        == outputs@[s]@[plan@[s]@.len() - subtask_sizes(self.subtasks@)[s] + t]@
                },
    {
        let ghost sizes = subtask_sizes(self.subtasks@);
        let ghost dseq = self.deps_seq();
        let n = self.subtasks.len();
        let mut tests: Vec<(String, String)> = Vec::new();
        let mut subtask_tests: Vec<Vec<usize>> = Vec::new();
        let mut subtask_points: Vec<i32> = Vec::new();
        let mut s: usize = 0;
        while s < n
            invariant
                self.wf(),
                sizes == subtask_sizes(self.subtasks@),
                dseq == self.deps_seq(),
                n == self.subtasks@.len(),
                plan@.len() == n,
                outputs@.len() == n,
                forall|m: int|
                    0 <= m < n ==> (#[trigger] outputs@[m])@.len() == plan@[m]@.len(),
                forall|m: int|
                    0 <= m < n ==> (#[trigger] plan@[m])@.map_values(
                        |e: PlannedTest| (e.subtask as int, e.test_index as int),
                    ) == expansion(sizes, closure(dseq, m)),
                own_offset(sizes, n as int) <= usize::MAX,
                s <= n,
                subtask_points@.len() == s as int,
                forall|j: int|
                    0 <= j < s ==> #[trigger] subtask_points@[j] == self.subtasks@[j].points,
                subtask_tests@.len() == s as int,
                forall|j: int|
                    0 <= j < s ==> (#[trigger] subtask_tests@[j])@.map_values(|x: usize| x as int)
                        == cps_list(dseq, sizes, j),
                tests@.len() == own_offset(sizes, s as int),
                forall|j: int, t: int|
                    0 <= j < s && 0 <= t < sizes[j] ==> {
                        let pos = plan@[j]@.len() - sizes[j] + t;
                        &&& (#[trigger] tests@[own_offset(sizes, j) + t]).0@
                            == plan@[j]@[pos].content@
                        &&& tests@[own_offset(sizes, j) + t].1@ == outputs@[j]@[pos]@
                    },
            decreases n - s,
        {
            subtask_points.push(self.subtasks[s].points);
            let deps_len = self.subtasks[s].dependencies.len();
            let mut list: Vec<usize> = Vec::new();
            let mut i: usize = 0;
            proof {
                assert(list@.map_values(|x: usize| x as int) =~= cps_list_deps(
                    dseq,
                    sizes,
                    s as int,
                    0,
                ));
            }
            while i < deps_len
                invariant
                    self.wf(),
                    sizes == subtask_sizes(self.subtasks@),
                    dseq == self.deps_seq(),
                    n == self.subtasks@.len(),
                    s < n,
                    deps_len == dseq[s as int].len(),
                    i <= deps_len,
                    subtask_tests@.len() == s as int,
                    forall|j: int|
                        0 <= j < s ==> (#[trigger] subtask_tests@[j])@.map_values(
                            |x: usize| x as int,
                        ) == cps_list(dseq, sizes, j),
                    list@.map_values(|x: usize| x as int) == cps_list_deps(
                        dseq,
                        sizes,
                        s as int,
                        i as int,
                    ),
                decreases deps_len - i,
            {
                let d = self.subtasks[s].dependencies[i];
                proof {
                    assert(dseq[s as int][i as int] == d);
                    assert(d < s);
                }
                let ghost pre = list@;
                let dep_list = &subtask_tests[d];
                list.extend_from_slice(dep_list.as_slice());
                i = i + 1;
                proof {
                    assert(list@ == pre + subtask_tests@[d as int]@);
                    assert(list@.map_values(|x: usize| x as int) =~= pre.map_values(
                        |x: usize| x as int,
                    ) + subtask_tests@[d as int]@.map_values(|x: usize| x as int));
                }
            }
            let cnt = self.subtasks[s].tests.len();
            proof {
                assert(cnt as int == sizes[s as int]);
                assert(forall|j: int| 0 <= j < sizes.len() ==> #[trigger] sizes[j] >= 0);
                lemma_own_offset_nonneg(sizes, n as int);
                lemma_own_offset_nonneg(sizes, s as int);
                assert(own_offset(sizes, s + 1) <= own_offset(sizes, n as int));
                // the plan's expansion for master s ends with s's own tests
                lemma_closure_correct(dseq, s as int);
                let cl = closure(dseq, s as int);
                lemma_expansion_last(sizes, cl);
                assert(cl.last() == s as int);
                assert(plan@[s as int]@.map_values(
                    |e: PlannedTest| (e.subtask as int, e.test_index as int),
                ) == expansion(sizes, cl.drop_last()) + pairs_of(s as int, sizes[s as int]));
            }
            let total = plan[s].len();
            let ghost base = tests@.len() as int;
            let mut t: usize = 0;
            while t < cnt
                invariant
                    self.wf(),
                    sizes == subtask_sizes(self.subtasks@),
                    dseq == self.deps_seq(),
                    n == self.subtasks@.len(),
                    plan@.len() == n,
                    outputs@.len() == n,
                    forall|m: int|
                        0 <= m < n ==> (#[trigger] outputs@[m])@.len() == plan@[m]@.len(),
                    s < n,
                    cnt as int == sizes[s as int],
                    t <= cnt,
                    total == plan@[s as int]@.len(),
                    total >= cnt,
                    plan@[s as int]@.map_values(
                        |e: PlannedTest| (e.subtask as int, e.test_index as int),
                    ).len() == total,
                    0 <= base,
                    base == own_offset(sizes, s as int),
                    base + cnt == own_offset(sizes, s + 1),
                    own_offset(sizes, s + 1) <= own_offset(sizes, n as int),
                    own_offset(sizes, n as int) <= usize::MAX,
                    tests@.len() == base + t,
                    list@.map_values(|x: usize| x as int) == cps_list_deps(
                        dseq,
                        sizes,
                        s as int,
                        dseq[s as int].len() as int,
                    ) + Seq::new(t as nat, |t2: int| own_offset(sizes, s as int) + t2),
                    forall|j: int, t2: int|
                        0 <= j < s && 0 <= t2 < sizes[j] ==> {
                            let pos = plan@[j]@.len() - sizes[j] + t2;
                            &&& (#[trigger] tests@[own_offset(sizes, j) + t2]).0@
                                == plan@[j]@[pos].content@
                            &&& tests@[own_offset(sizes, j) + t2].1@ == outputs@[j]@[pos]@
                        },
                    forall|q: int|
                        base <= q < base + t ==> ((#[trigger] tests@[q]).0@ == plan@[s as int]@[
                            total - cnt + q - base
                        ].content@ && tests@[q].1@ == outputs@[s as int]@[total - cnt + q - base]@),
                decreases cnt - t,
            {
                let pos = total - cnt + t;
                let idx = tests.len();
                let ghost pre_list = list@;
                let ghost pre_tests = tests@;
                list.push(idx);
                let mut input_text = String::new();
                input_text.append(plan[s][pos].content.as_str());
                let mut output_text = String::new();
                output_text.append(outputs[s][pos].as_str());
                proof {
                    assert(input_text@ =~= plan@[s as int]@[pos as int].content@);
                    assert(output_text@ =~= outputs@[s as int]@[pos as int]@);
                }
                tests.push((input_text, output_text));
                t = t + 1;
                proof {
                    assert(list@.map_values(|x: usize| x as int) =~= pre_list.map_values(
                        |x: usize| x as int,
                    ).push(idx as int));
                    assert(list@.map_values(|x: usize| x as int) =~= cps_list_deps(
                        dseq,
                        sizes,
                        s as int,
                        dseq[s as int].len() as int,
                    ) + Seq::new(t as nat, |t2: int| own_offset(sizes, s as int) + t2));
                    assert(tests@[base + (t - 1)].0@ == plan@[s as int]@[total - cnt + (t
                        - 1)].content@);
                    assert(tests@[base + (t - 1)].1@ == outputs@[s as int]@[total - cnt + (t - 1)]@);
                    assert forall|q: int|
                        base <= q < base + t implies ((#[trigger] tests@[q]).0@ == plan@[s as int]@[
                        total - cnt + q - base
                    ].content@ && tests@[q].1@ == outputs@[s as int]@[total - cnt + q - base]@) by {
                        if q < base + (t - 1) {
                            assert(tests@[q] == pre_tests[q]);
                        } else {
                            assert(q == base + (t - 1));
                        }
                    }
                    assert forall|j: int, t2: int|
                        0 <= j < s && 0 <= t2 < sizes[j] implies #[trigger] tests@[own_offset(
                        sizes,
                        j,
                    ) + t2] == pre_tests[own_offset(sizes, j) + t2] by {
                        lemma_own_offset_nonneg(sizes, s as int);
                        assert(own_offset(sizes, j + 1) == own_offset(sizes, j) + sizes[j]);
                        assert(own_offset(sizes, j + 1) <= own_offset(sizes, s as int));
                        assert(own_offset(sizes, j) >= 0);
                        assert(own_offset(sizes, j) + t2 < base);
                    }
                }
            }
            proof {
                assert forall|t2: int| 0 <= t2 < sizes[s as int] implies {
                    &&& (#[trigger] tests@[own_offset(sizes, s as int) + t2]).0@ == plan@[s as int]@[
                        plan@[s as int]@.len() - sizes[s as int] + t2
                    ].content@
                    &&& tests@[own_offset(sizes, s as int) + t2].1@ == outputs@[s as int]@[plan@[
                        s as int
                    ]@.len() - sizes[s as int] + t2]@
                } by {
                    let q = base + t2;
                    assert(tests@[q].0@ == plan@[s as int]@[total - cnt + q - base].content@);
                    assert(tests@[q].1@ == outputs@[s as int]@[total - cnt + q - base]@);
                }
            }
            subtask_tests.push(list);
            s = s + 1;
            proof {
                assert(subtask_tests@[s - 1]@.map_values(|x: usize| x as int) =~= cps_list(
                    dseq,
                    sizes,
                    s - 1,
                ));
            }
        }
        CPSTests { tests, subtask_tests, subtask_points }
    }
}

} // verus!
