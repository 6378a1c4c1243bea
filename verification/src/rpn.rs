//! A reverse-polish evaluator over whitespace-separated tokens.
//!
//! The expression is modelled as a stack machine: a number token pushes its
//! value, an operator token pops two operands and pushes the result.  The
//! spec functions below run that machine over mathematical integers; `eval`
//! is proved to compute exactly the same stack.

use vstd::prelude::*;

verus! {

/// An ASCII decimal digit.
pub open spec fn is_digit(c: char) -> bool {
    '0' <= c && c <= '9'
}

/// The value of one digit.
pub open spec fn digit_val(c: char) -> int {
    c as int - '0' as int
}

/// Whether every character of the token is an ASCII decimal digit.
pub open spec fn all_digits(t: Seq<char>) -> bool {
    forall|i: int| 0 <= i < t.len() ==> is_digit(#[trigger] t[i])
}

/// The number a digit string denotes, read in base ten.
pub open spec fn digits_val(t: Seq<char>) -> int
    decreases t.len(),
{
    if t.len() == 0 {
        0
    } else {
        digits_val(t.drop_last()) * 10 + digit_val(t.last())
    }
}

/// One of the four operator characters.
pub open spec fn is_op(c: char) -> bool {
    c == '+' || c == '-' || c == '*' || c == '/'
}

/// Division truncating towards zero, as the machine divides.
pub open spec fn div_trunc(a: int, b: int) -> int {
    if a >= 0 {
        a / b
    } else {
        -((-a) / b)
    }
}

/// What an operator computes from its two operands, `a` below `b` on the
/// stack.
pub open spec fn op_val(c: char, a: int, b: int) -> int {
    if c == '+' {
        a + b
    } else if c == '-' {
        a - b
    } else if c == '*' {
        a * b
    } else {
        div_trunc(a, b)
    }
}

/// Whether one token can be applied to the stack without the evaluator
/// failing: a number must fit the machine word, an operator needs two
/// operands, a nonzero divisor, and a result that fits.
pub open spec fn step_ok(stack: Seq<int>, t: Seq<char>) -> bool {
    &&& t.len() > 0
    &&& if all_digits(t) {
        digits_val(t) <= i16::MAX
    } else {
        &&& is_op(t[0])
        &&& stack.len() >= 2
        &&& (t[0] == '/' ==> stack.last() != 0)
        &&& i16::MIN <= op_val(t[0], stack[stack.len() - 2], stack.last()) <= i16::MAX
    }
}

/// The stack after one token.
pub open spec fn step(stack: Seq<int>, t: Seq<char>) -> Seq<int> {
    if all_digits(t) && t.len() > 0 {
        stack.push(digits_val(t))
    } else {
        stack.drop_last().drop_last().push(
            op_val(t[0], stack[stack.len() - 2], stack.last()),
        )
    }
}

/// The stack after all tokens, applied left to right starting from `init`.
pub open spec fn run(init: Seq<int>, tokens: Seq<Seq<char>>) -> Seq<int>
    decreases tokens.len(),
{
    if tokens.len() == 0 {
        init
    } else {
        step(run(init, tokens.drop_last()), tokens.last())
    }
}

/// Whether every step along the way is possible.
pub open spec fn run_ok(init: Seq<int>, tokens: Seq<Seq<char>>) -> bool
    decreases tokens.len(),
{
    if tokens.len() == 0 {
        true
    } else {
        run_ok(init, tokens.drop_last()) && step_ok(
            run(init, tokens.drop_last()),
            tokens.last(),
        )
    }
}

/// The stored stack as mathematical integers.
pub open spec fn int_stack(s: Seq<i16>) -> Seq<int> {
    s.map_values(|x: i16| x as int)
}

/// The stored tokens as character sequences.
pub open spec fn token_views(ts: Seq<String>) -> Seq<Seq<char>> {
    ts.map_values(|t: String| t@)
}

/// A digit string denotes a nonnegative number.
proof fn lemma_digits_val_nonneg(t: Seq<char>)
    requires
        all_digits(t),
    ensures
        digits_val(t) >= 0,
    decreases t.len(),
{
    if t.len() > 0 {
        assert forall|i: int| 0 <= i < t.drop_last().len() implies is_digit(
            #[trigger] t.drop_last()[i],
        ) by {
            assert(t.drop_last()[i] == t[i]);
        }
        lemma_digits_val_nonneg(t.drop_last());
    }
}

/// A prefix of a digit string denotes no more than the whole string.
proof fn lemma_digits_val_prefix(t: Seq<char>, j: int)
    requires
        all_digits(t),
        0 <= j <= t.len(),
    ensures
        0 <= digits_val(t.take(j)) <= digits_val(t),
    decreases t.len(),
{
    if j == t.len() {
        assert(t.take(j) =~= t);
        lemma_digits_val_nonneg(t);
    } else {
        assert forall|i: int| 0 <= i < t.drop_last().len() implies is_digit(
            #[trigger] t.drop_last()[i],
        ) by {
            assert(t.drop_last()[i] == t[i]);
        }
        assert(t.drop_last().take(j) =~= t.take(j));
        lemma_digits_val_prefix(t.drop_last(), j);
        lemma_digits_val_nonneg(t.drop_last());
    }
}

/// If every step over `tokens` is possible, so is every step over a prefix.
proof fn lemma_run_ok_prefix(init: Seq<int>, tokens: Seq<Seq<char>>, i: int)
    requires
        run_ok(init, tokens),
        0 <= i <= tokens.len(),
    ensures
        run_ok(init, tokens.take(i)),
    decreases tokens.len(),
{
    if i == tokens.len() {
        assert(tokens.take(i) =~= tokens);
    } else {
        assert(tokens.drop_last().take(i) =~= tokens.take(i));
        lemma_run_ok_prefix(init, tokens.drop_last(), i);
    }
}

/// Names the tokens `str::split_whitespace` yields for a given string.
pub uninterp spec fn whitespace_tokens(s: Seq<char>) -> Seq<Seq<char>>;

/// Relies on `str::split_whitespace`: the pieces are the maximal runs of
/// non-whitespace characters of the input, in order, so none of them is
/// empty.
#[verifier::external_body]
fn split_ws(s: &String) -> (r: Vec<String>)
    ensures
        token_views(r@) == whitespace_tokens(s@),
        forall|i: int| 0 <= i < r@.len() ==> (#[trigger] r@[i])@.len() > 0,
{
    s.split_whitespace().map(String::from).collect()
}

/// Reads a digit token as a machine number.
fn parse_digits(t: &String) -> (r: i16)
    requires
        t@.len() > 0,
        all_digits(t@),
        digits_val(t@) <= i16::MAX,
    ensures
        r as int == digits_val(t@),
{
    let s = t.as_str();
    let n = s.unicode_len();
    let mut acc: i16 = 0;
    let mut j: usize = 0;
    while j < n
        invariant
            s@ == t@,
            n == t@.len(),
            j <= n,
            all_digits(t@),
            digits_val(t@) <= i16::MAX,
            acc as int == digits_val(t@.take(j as int)),
        decreases n - j,
    {
        let c = s.get_char(j);
        proof {
            lemma_digits_val_prefix(t@, j + 1);
            assert(t@.take(j + 1).drop_last() =~= t@.take(j as int));
            assert(t@.take(j + 1).last() == t@[j as int]);
        }
        let next: i32 = acc as i32 * 10 + (c as u32 - 48) as i32;
        acc = next as i16;
        j = j + 1;
    }
    proof {
        assert(t@.take(n as int) =~= t@);
    }
    acc
}

/// A reverse-polish expression, tokenized, with its evaluation stack.
pub struct Rpn {
    pub source: Vec<String>,
    pub stack: Vec<i16>,
}

impl Rpn {
    /// Tokenizes the input on whitespace; the stack starts empty.
    pub fn new(source: String) -> (r: Self)
        ensures
            token_views(r.source@) == whitespace_tokens(source@),
            forall|i: int| 0 <= i < r.source@.len() ==> (#[trigger] r.source@[i])@.len() > 0,
            r.stack@ == Seq::<i16>::empty(),
    {
        let source = split_ws(&source);
        Rpn { source, stack: Vec::new() }
    }

    /// Runs the stack machine over the tokens and pops the result.
    ///
    /// The caller owes a token sequence on which every step is possible and
    /// which leaves at least one value on the stack; the evaluator then
    /// returns the top of the final stack and keeps the values below it.
    pub fn eval(&mut self) -> (r: i32)
        requires
            run_ok(int_stack(old(self).stack@), token_views(old(self).source@)),
            run(int_stack(old(self).stack@), token_views(old(self).source@)).len() > 0,
        ensures
            r == run(int_stack(old(self).stack@), token_views(old(self).source@)).last(),
            final(self).source == old(self).source,
            int_stack(final(self).stack@) == run(
                int_stack(old(self).stack@),
                token_views(old(self).source@),
            ).drop_last(),
    {
        let ghost init = int_stack(old(self).stack@);
        let ghost toks = token_views(old(self).source@);
        let n = self.source.len();
        let mut i: usize = 0;
        while i < n
            invariant
                self.source == old(self).source,
                n == self.source@.len(),
                i <= n,
                toks == token_views(old(self).source@),
                init == int_stack(old(self).stack@),
                run_ok(init, toks),
                int_stack(self.stack@) == run(init, toks.take(i as int)),
            decreases n - i,
        {
            let ghost st0 = int_stack(self.stack@);
            proof {
                lemma_run_ok_prefix(init, toks, i + 1);
                assert(toks.take(i + 1).drop_last() =~= toks.take(i as int));
                assert(toks.take(i + 1).last() == toks[i as int]);
                assert(step_ok(st0, toks[i as int]));
            }
            let t = self.source[i].clone();
            proof {
                assert(t@ == toks[i as int]);
            }
            let c0 = t.as_str().get_char(0);
            if c0 == '+' || c0 == '-' || c0 == '*' || c0 == '/' {
                proof {
                    assert(!all_digits(t@)) by {
                        assert(!is_digit(t@[0]));
                    }
                    assert(st0.len() >= 2);
                    assert(self.stack@.len() >= 2);
                }
                let b = self.stack.pop().unwrap();
                let a = self.stack.pop().unwrap();
                proof {
                    assert(a as int == st0[st0.len() - 2]);
                    assert(b as int == st0.last());
                    assert(i16::MIN <= op_val(t@[0], a as int, b as int) <= i16::MAX);
                }
                let v: i16 = if c0 == '+' {
                    a + b
                } else if c0 == '-' {
                    a - b
                } else if c0 == '*' {
                    a * b
                } else {
                    proof {
                        assert(b != 0);
                        assert(!(a == i16::MIN && b == -1)) by {
                            if a == i16::MIN && b == -1 {
                                assert(div_trunc(a as int, b as int) == -((32768int) / (-1int)));
                                assert((32768int) / (-1int) == -32768int);
                            }
                        }
                    }
                    a / b
                };
                self.stack.push(v);
                proof {
                    assert(int_stack(self.stack@) =~= step(st0, toks[i as int]));
                }
            } else {
                proof {
                    assert(all_digits(t@));
                }
                let v = parse_digits(&t);
                self.stack.push(v);
                proof {
                    assert(int_stack(self.stack@) =~= step(st0, toks[i as int]));
                }
            }
            i = i + 1;
        }
        proof {
            assert(toks.take(n as int) =~= toks);
        }
        let res = self.stack.pop().unwrap();
        proof {
            assert(int_stack(self.stack@) =~= run(init, toks).drop_last());
        }
        res as i32
    }
}

} // verus!
