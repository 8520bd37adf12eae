//! Test input generators: fixed texts and random arrays, with the random
//! draws behind one trusted wrapper. A generator's output is pinned to the
//! exact text shape it produces.
use vstd::prelude::*;
use crate::decimal::int_rep;

verus! {

/// Relies on rand::random_range: one value drawn from the given range.
#[verifier::external_body]
fn rand_u64_below(n: u64) -> (r: u64)
    requires
        1 <= n,
    ensures
        r < n,
{
    rand::random_range(0..n)
}

/// A random value in `lo..=hi`.
pub fn rand_i32_range(lo: i32, hi: i32) -> (r: i32)
    requires
        lo <= hi,
    ensures
        lo <= r <= hi,
{
    let span: u64 = ((hi as i64) - (lo as i64) + 1) as u64;
    let off = rand_u64_below(span);
    ((lo as i64) + (off as i64)) as i32
}

/// A random index below `n`.
pub fn rand_usize_below(n: usize) -> (r: usize)
    requires
        1 <= n,
    ensures
        r < n,
{
    let r = rand_u64_below(n as u64);
    r as usize
}

/// The text form of an array: the optional element count on its own line,
/// then each element followed by a space, then a newline.
pub open spec fn arr_items(a: Seq<i32>) -> Seq<char>
    decreases a.len(),
{
    if a.len() == 0 {
        Seq::empty()
    } else {
        arr_items(a.drop_last()) + int_rep(a.last() as int) + seq![' ']
    }
}

/// The full text of an array input.
pub open spec fn spec_array_to_string(a: Seq<i32>, include_count: bool) -> Seq<char> {
    (if include_count {
        int_rep(a.len() as int) + seq!['\n']
    } else {
        Seq::<char>::empty()
    }) + arr_items(a) + seq!['\n']
}

/// Renders an array of integers as test input text: with `include_count`,
/// `[1, 2, 3]` becomes `"3\n1 2 3 \n"`; without it, `"1 2 3 \n"`.
pub fn array_to_string(array: &Vec<i32>, include_count: bool) -> (r: String)
    ensures
        r@ == spec_array_to_string(array@, include_count),
{
    let mut r = String::new();
    if include_count {
        crate::decimal::push_u64_dec(&mut r, array.len() as u64);
        crate::text::string_push_char(&mut r, '\n');
    }
    let ghost head = r@;
    let n = array.len();
    let mut i: usize = 0;
    while i < n
        invariant
            n == array@.len(),
            i <= n,
            r@ == head + arr_items(array@.take(i as int)),
        decreases n - i,
    {
        crate::decimal::push_i32_dec(&mut r, array[i]);
        crate::text::string_push_char(&mut r, ' ');
        i = i + 1;
        proof {
            assert(array@.take(i as int).drop_last() =~= array@.take(i - 1));
            assert(r@ =~= head + arr_items(array@.take(i as int)));
        }
    }
    crate::text::string_push_char(&mut r, '\n');
    proof {
        assert(array@.take(n as int) =~= array@);
        assert(r@ =~= spec_array_to_string(array@, include_count));
    }
    r
}

/// How a generator produces its text.
pub enum GenRule {
    /// Always this exact text.
    Fixed(String),
    /// An array of random length in `min_n..=max_n` whose values are drawn
    /// from `min_x..=max_x`, rendered with its count.
    RandomArray { min_n: i32, max_n: i32, min_x: i32, max_x: i32 },
}

/// True of the bounds a random rule must satisfy before it can draw.
pub open spec fn rule_wf(rule: GenRule) -> bool {
    match rule {
        GenRule::Fixed(_) => true,
        GenRule::RandomArray { min_n, max_n, min_x, max_x } => 0 <= min_n <= max_n && min_x
            <= max_x,
    }
}

/// True when two rules describe the same generator.
pub open spec fn rule_like(a: GenRule, b: GenRule) -> bool {
    match (a, b) {
        (GenRule::Fixed(x), GenRule::Fixed(y)) => x@ == y@,
        (
            GenRule::RandomArray { min_n: an, max_n: axn, min_x: ax, max_x: axx },
            GenRule::RandomArray { min_n: bn, max_n: bxn, min_x: bx, max_x: bxx },
        ) => an == bn && axn == bxn && ax == bx && axx == bxx,
        _ => false,
    }
}

/// True when a text is one that the rule can produce.
pub open spec fn content_matches(rule: GenRule, s: Seq<char>) -> bool {
    match rule {
        GenRule::Fixed(f) => s == f@,
        GenRule::RandomArray { min_n, max_n, min_x, max_x } => exists|a: Seq<i32>|
            min_n <= a.len() <= max_n && (forall|i: int| 0 <= i < a.len() ==> min_x <= #[trigger] a[i]
                <= max_x) && s == spec_array_to_string(a, true),
    }
}

/// A test input generator; may be non-deterministic.
pub struct TestGenerator {
    pub rule: GenRule,
}

impl TestGenerator {
    /// Wraps a rule as a generator.
    pub fn new(rule: GenRule) -> (r: TestGenerator)
        ensures
            r.rule == rule,
    {
        TestGenerator { rule }
    }

    /// An independent generator with the same rule.
    pub fn duplicate(&self) -> (r: TestGenerator)
        ensures
            rule_like(r.rule, self.rule),
            rule_wf(self.rule) ==> rule_wf(r.rule),
    {
        match &self.rule {
            GenRule::Fixed(s) => TestGenerator { rule: GenRule::Fixed(s.clone()) },
            GenRule::RandomArray { min_n, max_n, min_x, max_x } => TestGenerator {
                rule: GenRule::RandomArray {
                    min_n: *min_n,
                    max_n: *max_n,
                    min_x: *min_x,
                    max_x: *max_x,
                },
            },
        }
    }

    /// Produces one input text following the rule. A fixed rule yields its
    /// text; a random rule yields a rendered array within its bounds.
    pub fn generate(&self) -> (r: String)
        requires
            rule_wf(self.rule),
        ensures
            content_matches(self.rule, r@),
    {
        match &self.rule {
            GenRule::Fixed(s) => s.clone(),
            GenRule::RandomArray { min_n, max_n, min_x, max_x } => {
                let n = rand_i32_range(*min_n, *max_n);
                let count: usize = n as usize;
                let mut a: Vec<i32> = Vec::new();
                let mut i: usize = 0;
                while i < count
                    invariant
                        *min_x <= *max_x,
                        i <= count,
                        a@.len() == i as int,
                        forall|k: int| 0 <= k < i ==> *min_x <= #[trigger] a@[k] <= *max_x,
                    decreases count - i,
                {
                    a.push(rand_i32_range(*min_x, *max_x));
                    i = i + 1;
                }
                let r = array_to_string(&a, true);
                proof {
                    assert(*min_n <= a@.len() <= *max_n);
                    assert(content_matches(self.rule, r@));
                }
                r
            },
        }
    }
}

/// A generator for arrays of `min_n..=max_n` values drawn from
/// `min_x..=max_x`, rendered with their count.
pub fn array_generator(min_n: i32, max_n: i32, min_x: i32, max_x: i32) -> (r: TestGenerator)
    requires
        0 <= min_n <= max_n,
        min_x <= max_x,
    ensures
        r.rule == (GenRule::RandomArray { min_n, max_n, min_x, max_x }),
        rule_wf(r.rule),
{
    TestGenerator { rule: GenRule::RandomArray { min_n, max_n, min_x, max_x } }
}

} // verus!
