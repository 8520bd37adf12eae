//! Text utilities: whitespace tokenization, decimal formatting and integer
//! parsing. Output comparison and input parsing are defined in terms of the
//! token model given here.
use vstd::prelude::*;

verus! {

/// True of the characters that separate tokens in test input and output text.
pub open spec fn is_ws_char(c: char) -> bool {
    c == ' ' || c == '\t' || c == '\n' || c == '\r'
}

/// Tokenizer state after reading a prefix: the finished tokens and the token
/// still being read (empty when the prefix ended in whitespace).
pub open spec fn tok_state(s: Seq<char>) -> (Seq<Seq<char>>, Seq<char>)
    decreases s.len(),
{
    if s.len() == 0 {
        (Seq::empty(), Seq::empty())
    } else {
        let prev = tok_state(s.drop_last());
        let c = s.last();
        if is_ws_char(c) {
            if prev.1.len() == 0 {
                prev
            } else {
                (prev.0.push(prev.1), Seq::empty())
            }
        } else {
            (prev.0, prev.1.push(c))
        }
    }
}

/// The whitespace-separated tokens of a text, in order.
pub open spec fn tokens_of(s: Seq<char>) -> Seq<Seq<char>> {
    let st = tok_state(s);
    if st.1.len() == 0 {
        st.0
    } else {
        st.0.push(st.1)
    }
}

/// Decides whether a character separates tokens.
pub fn ws_char(c: char) -> (r: bool)
    ensures
        r == is_ws_char(c),
{
    c == ' ' || c == '\t' || c == '\n' || c == '\r'
}

/// Relies on String::push: appends one character at the end.
#[verifier::external_body]
pub(crate) fn string_push_char(s: &mut String, c: char)
    ensures
        final(s)@ == old(s)@.push(c),
{
    s.push(c);
}

/// The characters of a text as a vector.
pub fn chars_of(s: &str) -> (r: Vec<char>)
    ensures
        r@ == s@,
{
    let n = s.unicode_len();
    let mut r: Vec<char> = Vec::new();
    let mut i: usize = 0;
    while i < n
        invariant
            n == s@.len(),
            i <= n,
            r@ == s@.take(i as int),
        decreases n - i,
    {
        r.push(s.get_char(i));
        i = i + 1;
        proof {
            assert(r@ =~= s@.take(i as int));
        }
    }
    proof {
        assert(s@.take(n as int) =~= s@);
    }
    r
}

/// Splits a text into its whitespace-separated tokens.
pub fn tokenize(s: &str) -> (toks: Vec<String>)
    ensures
        toks@.map_values(|t: String| t@) == tokens_of(s@),
{
    let chars = chars_of(s);
    let n = chars.len();
    let mut done: Vec<String> = Vec::new();
    let mut cur: String = String::new();
    let mut i: usize = 0;
    while i < n
        invariant
            n == chars@.len(),
            chars@ == s@,
            i <= n,
            done@.map_values(|t: String| t@) == tok_state(s@.take(i as int)).0,
            cur@ == tok_state(s@.take(i as int)).1,
        decreases n - i,
    {
        let c = chars[i];
        proof {
            assert(s@.take(i + 1).drop_last() =~= s@.take(i as int));
            assert(s@.take(i + 1).last() == c);
        }
        if ws_char(c) {
            if cur.unicode_len() != 0 {
                done.push(cur);
                cur = String::new();
                proof {
                    assert(done@.map_values(|t: String| t@) =~= tok_state(
                        s@.take(i + 1),
                    ).0);
                }
            }
        } else {
            string_push_char(&mut cur, c);
        }
        i = i + 1;
    }
    proof {
        assert(s@.take(n as int) =~= s@);
    }
    if cur.unicode_len() != 0 {
        done.push(cur);
        proof {
            assert(done@.map_values(|t: String| t@) =~= tokens_of(s@));
        }
    } else {
        proof {
            assert(done@.map_values(|t: String| t@) =~= tokens_of(s@));
        }
    }
    done
}

/// Compares two texts token by token, ignoring whitespace: the meaning of
/// "the same output" everywhere in this crate.
pub fn are_outputs_equal(output1: &str, output2: &str) -> (r: bool)
    ensures
        r == (tokens_of(output1@) == tokens_of(output2@)),
{
    let toks1 = tokenize(output1);
    let toks2 = tokenize(output2);
    if toks1.len() != toks2.len() {
        proof {
            assert(tokens_of(output1@).len() != tokens_of(output2@).len());
        }
        return false;
    }
    let n = toks1.len();
    let mut i: usize = 0;
    while i < n
        invariant
            n == toks1@.len(),
            n == toks2@.len(),
            toks1@.map_values(|t: String| t@) == tokens_of(output1@),
            toks2@.map_values(|t: String| t@) == tokens_of(output2@),
            i <= n,
            forall|j: int| 0 <= j < i ==> toks1@[j]@ == toks2@[j]@,
        decreases n - i,
    {
        if !toks1[i].eq(&toks2[i]) {
            proof {
                assert(tokens_of(output1@)[i as int] == toks1@[i as int]@);
                assert(tokens_of(output2@)[i as int] == toks2@[i as int]@);
            }
            return false;
        }
        i = i + 1;
    }
    proof {
        assert(tokens_of(output1@) =~= tokens_of(output2@)) by {
            assert(forall|j: int|
                0 <= j < n ==> tokens_of(output1@)[j] == #[trigger] tokens_of(output2@)[j]) by {
                assert(forall|j: int| 0 <= j < n ==> tokens_of(output1@)[j] == toks1@[j]@);
                assert(forall|j: int| 0 <= j < n ==> tokens_of(output2@)[j] == toks2@[j]@);
            }
        }
    }
    true
}

} // verus!
