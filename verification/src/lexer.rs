//! Parsing of DIMACS-style CNF input, on lines already read from the file:
//! comment lines are dropped, exactly one problem line is required, and every
//! other line is a clause of whitespace-separated signed integers whose
//! trailing `0` terminator is stripped.

use vstd::prelude::*;
use crate::logic::{cnf_view, lits_view, lemma_cnf_view_push, lemma_lits_view_push};

verus! {

/// The ASCII bytes the format gives a meaning to.
pub const SPACE: u8 = 32;
pub const PLUS: u8 = 43;
pub const MINUS: u8 = 45;
pub const DIGIT_ZERO: u8 = 48;
pub const DIGIT_NINE: u8 = 57;
pub const COMMENT_MARK: u8 = 99;
pub const PROBLEM_MARK: u8 = 112;

/// The view of a vector of byte lines or tokens.
pub open spec fn bytes_view(ts: Seq<Vec<u8>>) -> Seq<Seq<u8>> {
    ts.map_values(|t: Vec<u8>| t@)
}

/// An ASCII decimal digit.
pub open spec fn is_digit(b: u8) -> bool {
    DIGIT_ZERO <= b <= DIGIT_NINE
}

/// Every byte of the token is a digit.
pub open spec fn all_digits(s: Seq<u8>) -> bool {
    forall|j: int| 0 <= j < s.len() ==> is_digit(#[trigger] s[j])
}

/// The value of a digit string, most significant digit first.
pub open spec fn digits_val(s: Seq<u8>) -> int
    decreases s.len(),
{
    if s.len() == 0 {
        0
    } else {
        digits_val(s.drop_last()) * 10 + (s.last() - DIGIT_ZERO)
    }
}

/// What parsing one token as an `isize` yields: an optional sign, at least
/// one digit, nothing else, and a value within the machine range.
pub open spec fn token_value(s: Seq<u8>) -> Option<int> {
    let signed = s.len() > 0 && (s[0] == PLUS || s[0] == MINUS);
    let body = if signed {
        s.drop_first()
    } else {
        s
    };
    let sign: int = if s.len() > 0 && s[0] == MINUS {
        -1
    } else {
        1
    };
    if body.len() > 0 && all_digits(body) {
        let v = sign * digits_val(body);
        if isize::MIN <= v <= isize::MAX {
            Some(v)
        } else {
            None
        }
    } else {
        None
    }
}

/// Splitting a line on single spaces, empty tokens kept: `cur` is the token
/// being read.
pub open spec fn tokens_of(s: Seq<u8>, cur: Seq<u8>) -> Seq<Seq<u8>>
    decreases s.len(),
{
    if s.len() == 0 {
        seq![cur]
    } else if s[0] == SPACE {
        seq![cur] + tokens_of(s.drop_first(), Seq::empty())
    } else {
        tokens_of(s.drop_first(), cur.push(s[0]))
    }
}

/// The values of a token list: defined only when every token parses.
pub open spec fn ints_of(ts: Seq<Seq<u8>>) -> Option<Seq<int>>
    decreases ts.len(),
{
    if ts.len() == 0 {
        Some(Seq::empty())
    } else {
        match (token_value(ts.first()), ints_of(ts.drop_first())) {
            (Some(v), Some(vs)) => Some(seq![v] + vs),
            _ => None,
        }
    }
}

/// A trailing `0` terminator is stripped; a `0` anywhere else stays.
pub open spec fn strip_terminator(vs: Seq<int>) -> Seq<int> {
    if vs.len() > 0 && vs.last() == 0 {
        vs.drop_last()
    } else {
        vs
    }
}

/// The clause a line denotes: its token values, terminator stripped.
pub open spec fn line_value(s: Seq<u8>) -> Option<Seq<int>> {
    match ints_of(tokens_of(s, Seq::empty())) {
        Some(vs) => Some(strip_terminator(vs)),
        None => None,
    }
}

/// A comment line starts with `c`.
pub open spec fn is_comment(line: Seq<u8>) -> bool {
    line.len() > 0 && line[0] == COMMENT_MARK
}

/// The problem line starts with `p`.
pub open spec fn is_problem(line: Seq<u8>) -> bool {
    line.len() > 0 && line[0] == PROBLEM_MARK
}

/// How many problem lines the input holds.
pub open spec fn problem_count(ls: Seq<Seq<u8>>) -> int
    decreases ls.len(),
{
    if ls.len() == 0 {
        0
    } else {
        (if is_problem(ls.first()) {
            1int
        } else {
            0int
        }) + problem_count(ls.drop_first())
    }
}

/// The clause lines: whatever is neither comment nor problem line.
pub open spec fn clause_lines(ls: Seq<Seq<u8>>) -> Seq<Seq<u8>>
    decreases ls.len(),
{
    if ls.len() == 0 {
        Seq::empty()
    } else if is_comment(ls.first()) || is_problem(ls.first()) {
        clause_lines(ls.drop_first())
    } else {
        seq![ls.first()] + clause_lines(ls.drop_first())
    }
}

/// The formula a list of clause lines denotes: defined only when every line
/// parses.
pub open spec fn lines_value(ls: Seq<Seq<u8>>) -> Option<Seq<Seq<int>>>
    decreases ls.len(),
{
    if ls.len() == 0 {
        Some(Seq::empty())
    } else {
        match (line_value(ls.first()), lines_value(ls.drop_first())) {
            (Some(v), Some(vs)) => Some(seq![v] + vs),
            _ => None,
        }
    }
}

/// Why an input was rejected: the problem-line count is not one, or some
/// token is not a signed integer.
#[derive(PartialEq, Eq, Structural, Clone, Copy, Debug)]
pub enum LexError {
    ProblemLineCount,
    InvalidToken,
}

/// The views commute with pushing a token.
proof fn lemma_bytes_view_push(ts: Seq<Vec<u8>>, t: Vec<u8>)
    ensures
        bytes_view(ts.push(t)) == bytes_view(ts).push(t@),
{
    assert(bytes_view(ts.push(t)) =~= bytes_view(ts).push(t@));
}

/// `ints_of` over a concatenation: defined exactly when both parts are, with
/// the values concatenated.
proof fn lemma_ints_append(a: Seq<Seq<u8>>, b: Seq<Seq<u8>>)
    ensures
        ints_of(a + b) == match (ints_of(a), ints_of(b)) {
            (Some(va), Some(vb)) => Some(va + vb),
            _ => None::<Seq<int>>,
        },
    decreases a.len(),
{
    if a.len() == 0 {
        assert(a + b =~= b);
        if ints_of(b).is_some() {
            assert(Seq::<int>::empty() + ints_of(b).unwrap() =~= ints_of(b).unwrap());
        }
    } else {
        lemma_ints_append(a.drop_first(), b);
        assert((a + b).first() == a.first());
        assert((a + b).drop_first() =~= a.drop_first() + b);
        match (token_value(a.first()), ints_of(a.drop_first()), ints_of(b)) {
            (Some(v), Some(vs), Some(vb)) => {
                assert(seq![v] + (vs + vb) =~= (seq![v] + vs) + vb);
            },
            _ => {},
        }
    }
}

/// One `ints_of` step at the back, as loops consume tokens.
proof fn lemma_ints_push(ts: Seq<Seq<u8>>, t: Seq<u8>)
    ensures
        ints_of(ts.push(t)) == match (ints_of(ts), token_value(t)) {
            (Some(vs), Some(v)) => Some(vs.push(v)),
            _ => None::<Seq<int>>,
        },
{
    let s1 = seq![t];
    assert(ts.push(t) =~= ts + s1);
    lemma_ints_append(ts, s1);
    assert(s1.first() == t);
    assert(s1.drop_first() =~= Seq::<Seq<u8>>::empty());
    assert(ints_of(Seq::<Seq<u8>>::empty()) == Some(Seq::<int>::empty()));
    match token_value(t) {
        Some(v) => {
            assert(ints_of(s1) == Some(seq![v] + Seq::<int>::empty()));
            assert(seq![v] + Seq::<int>::empty() =~= seq![v]);
            match ints_of(ts) {
                Some(vs) => {
                    assert(vs + seq![v] =~= vs.push(v));
                },
                None => {},
            }
        },
        None => {},
    }
}

/// `lines_value` over a concatenation.
proof fn lemma_lines_value_append(a: Seq<Seq<u8>>, b: Seq<Seq<u8>>)
    ensures
        lines_value(a + b) == match (lines_value(a), lines_value(b)) {
            (Some(va), Some(vb)) => Some(va + vb),
            _ => None::<Seq<Seq<int>>>,
        },
    decreases a.len(),
{
    if a.len() == 0 {
        assert(a + b =~= b);
        if lines_value(b).is_some() {
            assert(Seq::<Seq<int>>::empty() + lines_value(b).unwrap() =~= lines_value(b).unwrap());
        }
    } else {
        lemma_lines_value_append(a.drop_first(), b);
        assert((a + b).first() == a.first());
        assert((a + b).drop_first() =~= a.drop_first() + b);
        match (line_value(a.first()), lines_value(a.drop_first()), lines_value(b)) {
            (Some(v), Some(vs), Some(vb)) => {
                assert(seq![v] + (vs + vb) =~= (seq![v] + vs) + vb);
            },
            _ => {},
        }
    }
}

/// One `lines_value` step at the back.
proof fn lemma_lines_value_push(ls: Seq<Seq<u8>>, l: Seq<u8>)
    ensures
        lines_value(ls.push(l)) == match (lines_value(ls), line_value(l)) {
            (Some(vs), Some(v)) => Some(vs.push(v)),
            _ => None::<Seq<Seq<int>>>,
        },
{
    let s1 = seq![l];
    assert(ls.push(l) =~= ls + s1);
    lemma_lines_value_append(ls, s1);
    assert(s1.first() == l);
    assert(s1.drop_first() =~= Seq::<Seq<u8>>::empty());
    assert(lines_value(Seq::<Seq<u8>>::empty()) == Some(Seq::<Seq<int>>::empty()));
    match line_value(l) {
        Some(v) => {
            assert(lines_value(s1) == Some(seq![v] + Seq::<Seq<int>>::empty()));
            assert(seq![v] + Seq::<Seq<int>>::empty() =~= seq![v]);
            match lines_value(ls) {
                Some(vs) => {
                    assert(vs + seq![v] =~= vs.push(v));
                },
                None => {},
            }
        },
        None => {},
    }
}

/// Problem-line counting is additive; clause-line filtering distributes.
proof fn lemma_lines_split_append(a: Seq<Seq<u8>>, b: Seq<Seq<u8>>)
    ensures
        problem_count(a + b) == problem_count(a) + problem_count(b),
        clause_lines(a + b) == clause_lines(a) + clause_lines(b),
    decreases a.len(),
{
    if a.len() == 0 {
        assert(a + b =~= b);
        assert(clause_lines(a) + clause_lines(b) =~= clause_lines(b));
    } else {
        lemma_lines_split_append(a.drop_first(), b);
        assert((a + b).first() == a.first());
        assert((a + b).drop_first() =~= a.drop_first() + b);
        if !(is_comment(a.first()) || is_problem(a.first())) {
            assert(seq![a.first()] + (clause_lines(a.drop_first()) + clause_lines(b)) =~= (
            seq![a.first()] + clause_lines(a.drop_first())) + clause_lines(b));
        }
    }
}

/// One classification step at the back.
proof fn lemma_lines_split_push(ls: Seq<Seq<u8>>, l: Seq<u8>)
    ensures
        problem_count(ls.push(l)) == problem_count(ls) + (if is_problem(l) {
            1int
        } else {
            0int
        }),
        clause_lines(ls.push(l)) == if is_comment(l) || is_problem(l) {
            clause_lines(ls)
        } else {
            clause_lines(ls).push(l)
        },
{
    let s1 = seq![l];
    assert(ls.push(l) =~= ls + s1);
    lemma_lines_split_append(ls, s1);
    assert(s1.first() == l);
    assert(s1.drop_first() =~= Seq::<Seq<u8>>::empty());
    assert(problem_count(Seq::<Seq<u8>>::empty()) == 0);
    assert(clause_lines(Seq::<Seq<u8>>::empty()) == Seq::<Seq<u8>>::empty());
    if is_comment(l) || is_problem(l) {
        assert(clause_lines(s1) == Seq::<Seq<u8>>::empty());
        assert(clause_lines(ls) + Seq::<Seq<u8>>::empty() =~= clause_lines(ls));
    } else {
        assert(clause_lines(s1) == seq![l] + Seq::<Seq<u8>>::empty());
        assert(clause_lines(ls) + (seq![l] + Seq::<Seq<u8>>::empty()) =~= clause_lines(ls).push(l));
    }
}

/// What multiplying by a sign means.
proof fn lemma_sign_mul(s: int, x: int)
    requires
        s == 1 || s == -1,
    ensures
        s * x == if s == 1 {
            x
        } else {
            -x
        },
{
    assert(s * x == if s == 1 {
        x
    } else {
        -x
    }) by (nonlinear_arith)
        requires
            s == 1 || s == -1,
    ;
}

/// A digit string has a nonnegative value that its prefixes never exceed.
proof fn lemma_digits_val_mono(s: Seq<u8>, j: int)
    requires
        all_digits(s),
        0 <= j <= s.len(),
    ensures
        digits_val(s) >= 0,
        digits_val(s.take(j)) <= digits_val(s),
    decreases s.len(),
{
    if s.len() == 0 {
        assert(s.take(j) =~= s);
    } else {
        let head = s.drop_last();
        assert(forall|k: int| 0 <= k < head.len() ==> #[trigger] head[k] == s[k]);
        lemma_digits_val_mono(head, if j <= head.len() {
            j
        } else {
            head.len() as int
        });
        assert(is_digit(s.last()));
        if j == s.len() {
            assert(s.take(j) =~= s);
        } else {
            assert(s.take(j) =~= head.take(j));
        }
    }
}

/// An exact copy of a byte vector.
fn clone_bytes(a: &Vec<u8>) -> (r: Vec<u8>)
    ensures
        r@ == a@,
{
    let mut out: Vec<u8> = Vec::new();
    let mut i: usize = 0;
    while i < a.len()
        invariant
            i <= a@.len(),
            out@ == a@.take(i as int),
        decreases a@.len() - i,
    {
        proof {
            assert(a@.take(i as int + 1) =~= a@.take(i as int).push(a@[i as int]));
        }
        out.push(a[i]);
        i = i + 1;
    }
    proof {
        assert(a@.take(a@.len() as int) =~= a@);
    }
    out
}

/// Splits a line on single spaces; empty tokens are kept, as the format's
/// strictness demands.
fn split_tokens(s: &Vec<u8>) -> (r: Vec<Vec<u8>>)
    ensures
        bytes_view(r@) == tokens_of(s@, Seq::<u8>::empty()),
{
    let mut toks: Vec<Vec<u8>> = Vec::new();
    let mut cur: Vec<u8> = Vec::new();
    let mut i: usize = 0;
    proof {
        assert(s@.skip(0) =~= s@);
        assert(bytes_view(toks@) =~= Seq::<Seq<u8>>::empty());
        assert(Seq::<Seq<u8>>::empty() + tokens_of(s@, Seq::<u8>::empty()) =~= tokens_of(
            s@,
            Seq::<u8>::empty(),
        ));
    }
    while i < s.len()
        invariant
            i <= s@.len(),
            tokens_of(s@, Seq::<u8>::empty()) == bytes_view(toks@) + tokens_of(
                s@.skip(i as int),
                cur@,
            ),
        decreases s@.len() - i,
    {
        proof {
            assert(s@.skip(i as int).len() > 0);
            assert(s@.skip(i as int)[0] == s@[i as int]);
            assert(s@.skip(i as int).drop_first() =~= s@.skip(i as int + 1));
        }
        if s[i] == SPACE {
            proof {
                lemma_bytes_view_push(toks@, cur);
                assert(bytes_view(toks@).push(cur@) =~= bytes_view(toks@) + seq![cur@]);
                assert((bytes_view(toks@) + seq![cur@]) + tokens_of(
                    s@.skip(i as int + 1),
                    Seq::<u8>::empty(),
                ) =~= bytes_view(toks@) + (seq![cur@] + tokens_of(
                    s@.skip(i as int + 1),
                    Seq::<u8>::empty(),
                )));
            }
            toks.push(cur);
            cur = Vec::new();
        } else {
            cur.push(s[i]);
        }
        i = i + 1;
    }
    proof {
        assert(s@.skip(s@.len() as int) =~= Seq::<u8>::empty());
        assert(tokens_of(Seq::<u8>::empty(), cur@) == seq![cur@]);
        lemma_bytes_view_push(toks@, cur);
        assert(bytes_view(toks@).push(cur@) =~= bytes_view(toks@) + seq![cur@]);
    }
    toks.push(cur);
    toks
}

/// Parses one token as a signed decimal integer, exactly as `token_value`
/// describes: `None` on an empty token, a stray sign, a non-digit byte, or a
/// value outside the `isize` range.
fn parse_token(t: &Vec<u8>) -> (r: Option<isize>)
    ensures
        match r {
            Some(v) => token_value(t@) == Some(v as int),
            None => token_value(t@).is_none(),
        },
{
    let n = t.len();
    if n == 0 {
        return None;
    }
    let signed = t[0] == PLUS || t[0] == MINUS;
    let neg = t[0] == MINUS;
    let start: usize = if signed {
        1
    } else {
        0
    };
    let ghost body = if signed {
        t@.drop_first()
    } else {
        t@
    };
    proof {
        assert(forall|k: int| 0 <= k < body.len() ==> #[trigger] body[k] == t@[k + start]);
    }
    if start == n {
        return None;
    }
    let bound: u128 = (isize::MAX as u128) + 1;
    let mut acc: u128 = 0;
    let mut i: usize = start;
    while i < n
        invariant
            start <= i <= n,
            start < n,
            n == t@.len(),
            n > 0,
            signed == (t@[0] == PLUS || t@[0] == MINUS),
            neg == (t@[0] == MINUS),
            start == if signed {
                1int
            } else {
                0int
            },
            body == if signed {
                t@.drop_first()
            } else {
                t@
            },
            bound == (isize::MAX as u128) + 1,
            acc <= bound,
            acc as int == digits_val(body.take(i - start)),
            forall|k: int| 0 <= k < i - start ==> is_digit(#[trigger] body[k]),
        decreases n - i,
    {
        let b = t[i];
        proof {
            assert(body[i - start] == b);
            assert(body.take(i - start + 1) =~= body.take(i - start).push(b));
            assert(body.take(i - start + 1).drop_last() =~= body.take(i - start));
        }
        if b < DIGIT_ZERO || b > DIGIT_NINE {
            proof {
                assert(!is_digit(body[i - start]));
            }
            return None;
        }
        let d: u128 = (b - DIGIT_ZERO) as u128;
        let next: u128 = acc * 10 + d;
        if next > bound {
            proof {
                assert(isize::MIN as int == -((isize::MAX as int) + 1));
                if all_digits(body) {
                    lemma_digits_val_mono(body, i - start + 1);
                    assert(digits_val(body.take(i - start + 1)) == next as int);
                    assert(digits_val(body) >= next as int);
                    assert(digits_val(body) > (isize::MAX as int) + 1);
                    let sgn: int = if t@[0] == MINUS {
                        -1
                    } else {
                        1
                    };
                    lemma_sign_mul(sgn, digits_val(body));
                    assert(token_value(t@).is_none());
                } else {
                    assert(token_value(t@).is_none());
                }
                assert(token_value(t@).is_none());
            }
            return None;
        }
        acc = next;
        i = i + 1;
    }
    proof {
        assert(body.take(body.len() as int) =~= body);
        assert(all_digits(body));
        assert(acc as int == digits_val(body));
        lemma_digits_val_mono(body, 0);
        assert(isize::MIN as int == -((isize::MAX as int) + 1));
        assert(body.len() > 0);
        let sgn: int = if t@[0] == MINUS {
            -1
        } else {
            1
        };
        lemma_sign_mul(sgn, digits_val(body));
    }
    if neg {
        if acc == bound {
            proof {
                assert(isize::MIN as int == -(bound as int));
            }
            Some(isize::MIN)
        } else {
            Some(-(acc as isize))
        }
    } else {
        if acc > isize::MAX as u128 {
            None
        } else {
            Some(acc as isize)
        }
    }
}

/// The input boundary of the solver: parsing already-read lines into raw
/// clause rows.  File reading itself stays with the caller.
pub struct Lexer;

impl Lexer {
    /// Parses one clause line: whitespace-separated signed integers, a
    /// trailing `0` terminator stripped, `None` on any malformed token.
    pub fn parse_line(s: &Vec<u8>) -> (r: Option<Vec<isize>>)
        ensures
            match r {
                Some(v) => line_value(s@) == Some(lits_view(v@)),
                None => line_value(s@).is_none(),
            },
    {
        let toks = split_tokens(s);
        let mut vals: Vec<isize> = Vec::new();
        let mut j: usize = 0;
        while j < toks.len()
            invariant
                j <= toks@.len(),
                bytes_view(toks@) == tokens_of(s@, Seq::<u8>::empty()),
                ints_of(bytes_view(toks@).take(j as int)) == Some(lits_view(vals@)),
            decreases toks@.len() - j,
        {
            let p = parse_token(&toks[j]);
            proof {
                assert(bytes_view(toks@).take(j as int + 1) =~= bytes_view(toks@).take(
                    j as int,
                ).push(toks@[j as int]@));
                lemma_ints_push(bytes_view(toks@).take(j as int), toks@[j as int]@);
            }
            if let Some(x) = p {
                proof {
                    lemma_lits_view_push(vals@, x);
                }
                vals.push(x);
            } else {
                proof {
                    assert(bytes_view(toks@).take(j as int + 1) + bytes_view(toks@).skip(
                        j as int + 1,
                    ) =~= bytes_view(toks@));
                    lemma_ints_append(
                        bytes_view(toks@).take(j as int + 1),
                        bytes_view(toks@).skip(j as int + 1),
                    );
                }
                return None;
            }
            j = j + 1;
        }
        proof {
            assert(bytes_view(toks@).take(toks@.len() as int) =~= bytes_view(toks@));
        }
        let ghost full = lits_view(vals@);
        if vals.len() > 0 && vals[vals.len() - 1] == 0 {
            proof {
                assert(full.last() == 0);
            }
            let _dropped = vals.pop();
            proof {
                assert(lits_view(vals@) =~= full.drop_last());
            }
        }
        Some(vals)
    }

    /// Parses a whole input: comment lines dropped, exactly one problem line
    /// demanded, every other line a clause.  The errors say which demand
    /// failed; the problem-line count is checked first.
    pub fn parse(lines: &Vec<Vec<u8>>) -> (r: Result<Vec<Vec<isize>>, LexError>)
        ensures
            match r {
                Ok(f) => problem_count(bytes_view(lines@)) == 1 && lines_value(
                    clause_lines(bytes_view(lines@)),
                ) == Some(cnf_view(f@)),
                Err(LexError::ProblemLineCount) => problem_count(bytes_view(lines@)) != 1,
                Err(LexError::InvalidToken) => problem_count(bytes_view(lines@)) == 1
                    && lines_value(clause_lines(bytes_view(lines@))).is_none(),
            },
    {
        let mut kept: Vec<Vec<u8>> = Vec::new();
        let mut pcount: usize = 0;
        let mut i: usize = 0;
        while i < lines.len()
            invariant
                i <= lines@.len(),
                pcount <= i,
                pcount as int == problem_count(bytes_view(lines@.take(i as int))),
                bytes_view(kept@) == clause_lines(bytes_view(lines@.take(i as int))),
            decreases lines@.len() - i,
        {
            proof {
                assert(lines@.take(i as int + 1) =~= lines@.take(i as int).push(
                    lines@[i as int],
                ));
                lemma_bytes_view_push(lines@.take(i as int), lines@[i as int]);
                lemma_lines_split_push(bytes_view(lines@.take(i as int)), lines@[i as int]@);
            }
            let ln = &lines[i];
            if ln.len() > 0 && ln[0] == COMMENT_MARK {
            } else if ln.len() > 0 && ln[0] == PROBLEM_MARK {
                pcount = pcount + 1;
            } else {
                let copy = clone_bytes(ln);
                proof {
                    lemma_bytes_view_push(kept@, copy);
                }
                kept.push(copy);
            }
            i = i + 1;
        }
        proof {
            assert(lines@.take(lines@.len() as int) =~= lines@);
        }
        if pcount != 1 {
            return Err(LexError::ProblemLineCount);
        }
        let mut out: Vec<Vec<isize>> = Vec::new();
        let mut j: usize = 0;
        while j < kept.len()
            invariant
                j <= kept@.len(),
                bytes_view(kept@) == clause_lines(bytes_view(lines@)),
                problem_count(bytes_view(lines@)) == 1,
                lines_value(bytes_view(kept@).take(j as int)) == Some(cnf_view(out@)),
            decreases kept@.len() - j,
        {
            let p = Self::parse_line(&kept[j]);
            proof {
                assert(bytes_view(kept@).take(j as int + 1) =~= bytes_view(kept@).take(
                    j as int,
                ).push(kept@[j as int]@));
                lemma_lines_value_push(bytes_view(kept@).take(j as int), kept@[j as int]@);
            }
            if let Some(v) = p {
                proof {
                    lemma_cnf_view_push(out@, v);
                }
                out.push(v);
            } else {
                proof {
                    assert(bytes_view(kept@).take(j as int + 1) + bytes_view(kept@).skip(
                        j as int + 1,
                    ) =~= bytes_view(kept@));
                    lemma_lines_value_append(
                        bytes_view(kept@).take(j as int + 1),
                        bytes_view(kept@).skip(j as int + 1),
                    );
                }
                return Err(LexError::InvalidToken);
            }
            j = j + 1;
        }
        proof {
            assert(bytes_view(kept@).take(kept@.len() as int) =~= bytes_view(kept@));
        }
        Ok(out)
    }
}

} // verus!
