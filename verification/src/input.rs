//! Whitespace-delimited input parsing. A checker re-reads a generated test
//! file through this type, token by token.
use vstd::prelude::*;
use crate::decimal::{int_token_val, parses_as_i32};
use crate::error::Error;
use crate::text::tokens_of;

verus! {

/// A stream of whitespace-separated tokens read from an input text.
pub struct Input {
    tokens: Vec<String>,
    pos: usize,
}

impl Input {
    #[verifier::type_invariant]
    spec fn wf(self) -> bool {
        self.pos <= self.tokens@.len()
    }

    /// The tokens not yet consumed, in order.
    pub closed spec fn remaining(self) -> Seq<Seq<char>> {
        self.tokens@.map_values(|t: String| t@).skip(self.pos as int)
    }

    /// Builds an input stream over the whitespace-separated tokens of a text.
    pub fn new(input_str: &str) -> (r: Input)
        ensures
            r.remaining() == tokens_of(input_str@),
    {
        let tokens = crate::text::tokenize(input_str);
        let r = Input { tokens, pos: 0 };
        proof {
            assert(r.remaining() =~= tokens_of(input_str@));
        }
        r
    }

    /// Reads the next token and parses it as an integer. Fails exactly when
    /// no token is left or the token is not an integer that fits in an `i32`;
    /// a present token is consumed either way.
    pub fn get_int(&mut self) -> (r: Result<i32, Error>)
        ensures
            r is Ok <==> (old(self).remaining().len() > 0 && parses_as_i32(
                old(self).remaining()[0],
            )),
            r matches Ok(v) ==> v as int == int_token_val(old(self).remaining()[0]),
            r is Err ==> r->Err_0 is InputExpectedInteger,
            old(self).remaining().len() > 0 ==> final(self).remaining() == old(
                self,
            ).remaining().skip(1),
            old(self).remaining().len() == 0 ==> final(self).remaining() == old(self).remaining(),
    {
        proof {
            use_type_invariant(&*self);
        }
        if self.pos < self.tokens.len() {
            let tok: &String = &self.tokens[self.pos];
            let parsed = crate::decimal::parse_i32_str(tok.as_str());
            self.pos = self.pos + 1;
            proof {
                assert(final(self).remaining() =~= old(self).remaining().skip(1));
            }
            match parsed {
                Some(v) => Ok(v),
                None => Err(Error::InputExpectedInteger),
            }
        } else {
            proof {
                assert(final(self).remaining() =~= old(self).remaining());
            }
            Err(Error::InputExpectedInteger)
        }
    }

    /// Reads the next token as a string. Fails exactly when no token is left.
    pub fn get_string(&mut self) -> (r: Result<String, Error>)
        ensures
            r is Ok <==> old(self).remaining().len() > 0,
            r matches Ok(s) ==> s@ == old(self).remaining()[0],
            r is Err ==> r->Err_0 is InputExpectedString,
            old(self).remaining().len() > 0 ==> final(self).remaining() == old(
                self,
            ).remaining().skip(1),
            old(self).remaining().len() == 0 ==> final(self).remaining() == old(self).remaining(),
    {
        proof {
            use_type_invariant(&*self);
        }
        if self.pos < self.tokens.len() {
            let tok = self.tokens[self.pos].clone();
            self.pos = self.pos + 1;
            proof {
                assert(final(self).remaining() =~= old(self).remaining().skip(1));
            }
            Ok(tok)
        } else {
            proof {
                assert(final(self).remaining() =~= old(self).remaining());
            }
            Err(Error::InputExpectedString)
        }
    }

    /// Succeeds exactly when every token has been consumed; consumes nothing.
    pub fn expect_end(&mut self) -> (r: Result<(), Error>)
        ensures
            r is Ok <==> old(self).remaining().len() == 0,
            r is Err ==> r->Err_0 is InputExpectedEnd,
            final(self).remaining() == old(self).remaining(),
    {
        proof {
            use_type_invariant(&*self);
        }
        if self.pos == self.tokens.len() {
            Ok(())
        } else {
            Err(Error::InputExpectedEnd)
        }
    }

    /// Reads the next `n` tokens as integers. Succeeds exactly when `n`
    /// integer tokens are available next.
    pub fn get_ints(&mut self, n: i32) -> (r: Result<Vec<i32>, Error>)
        ensures
            r is Ok <==> (n <= old(self).remaining().len() && forall|i: int|
                0 <= i < n ==> parses_as_i32(#[trigger] old(self).remaining()[i])),
            r matches Ok(v) ==> {
                &&& v@.len() == if n >= 0 {
                    n as int
                } else {
                    0
                }
                &&& forall|i: int|
                    0 <= i < v@.len() ==> v@[i] as int == int_token_val(
                        #[trigger] old(self).remaining()[i],
                    )
                &&& final(self).remaining() == old(self).remaining().skip(
                    if n >= 0 {
                        n as int
                    } else {
                        0
                    },
                )
            },
            r matches Err(e) ==> e matches Error::CustomError { .. },
    {
        let mut result: Vec<i32> = Vec::new();
        let mut k: i32 = 0;
        if n <= 0 {
            proof {
                assert(final(self).remaining() =~= old(self).remaining().skip(0));
            }
            return Ok(result);
        }
        while k < n
            invariant
                0 <= k <= n,
                result@.len() == k as int,
                k <= old(self).remaining().len(),
                forall|i: int| 0 <= i < k ==> parses_as_i32(#[trigger] old(self).remaining()[i]),
                forall|i: int|
                    0 <= i < k ==> result@[i] as int == int_token_val(
                        #[trigger] old(self).remaining()[i],
                    ),
                self.remaining() == old(self).remaining().skip(k as int),
            decreases n - k,
        {
            let ghost pre = self.remaining();
            let next = self.get_int();
            match next {
                Ok(v) => {
                    result.push(v);
                    k = k + 1;
                    proof {
                        assert(pre[0] == old(self).remaining()[k - 1]);
                        assert(self.remaining() =~= old(self).remaining().skip(k as int));
                    }
                },
                Err(_) => {
                    proof {
                        if pre.len() > 0 {
                            assert(pre[0] == old(self).remaining()[k as int]);
                            assert(!parses_as_i32(old(self).remaining()[k as int]));
                        } else {
                            assert(old(self).remaining().len() == k);
                        }
                    }
                    let mut msg = String::new();
                    msg.append("Expected ");
                    crate::decimal::push_i32_dec(&mut msg, n);
                    msg.append(" integers");
                    return Err(Error::CustomError { message: msg });
                },
            }
        }
        Ok(result)
    }

    /// Reads a count token and then that many integers: the "array" input
    /// form `n x1 .. xn`.
    pub fn get_array(&mut self) -> (r: Result<Vec<i32>, Error>)
        ensures
            r matches Ok(v) ==> {
                &&& old(self).remaining().len() > 0
                &&& parses_as_i32(old(self).remaining()[0])
                &&& v@.len() == if int_token_val(old(self).remaining()[0]) >= 0 {
                    int_token_val(old(self).remaining()[0])
                } else {
                    0
                }
                &&& forall|i: int|
                    0 <= i < v@.len() ==> v@[i] as int == int_token_val(
                        #[trigger] old(self).remaining().skip(1)[i],
                    )
            },
            r is Ok <==> (old(self).remaining().len() > 0 && parses_as_i32(
                old(self).remaining()[0],
            ) && int_token_val(old(self).remaining()[0]) <= old(self).remaining().len() - 1
                && (forall|i: int|
                0 <= i < int_token_val(old(self).remaining()[0]) ==> parses_as_i32(
                    #[trigger] old(self).remaining().skip(1)[i],
                ))),
    {
        let n = self.get_int()?;
        self.get_ints(n)
    }
}

} // verus!
