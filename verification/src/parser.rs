//! The parser: a cursor over one line of text, the lexing primitives,
//! and precedence-climbing expression parsing.
//!
//! The grammar is written down twice: once as ghost functions
//! (`spec_term`, `spec_ops`, `spec_expr`, `spec_parse_line`) that define
//! what the parse of a text is, and once as executable code whose
//! contracts tie it to the ghost definition, error for error.

use crate::lexical::{
    after_spaces, digit_run, is_digit, is_digit_char, is_number, lemma_after_spaces_bounds,
    lemma_digit_run_bounds, lemma_digit_run_exact, lemma_number_len_bounds,
    lemma_number_match_is_number, number_len, op_of,
};
use crate::repr::{Expr, Operation, Operator, SpecExpr};
use vstd::prelude::*;
use vstd::string::StrSliceExecFns;
use vstd::string::StringExecFns;

verus! {

/// The loosest precedence bound: looser than every real operator, so a
/// top-level parse may consume any of them.
pub const TOP_PRECEDENCE: u8 = 100;

/// A syntax error: the rule that failed, with the text left unconsumed
/// at the point of failure.
#[derive(Debug, PartialEq)]
pub enum ParseError {
    /// Neither a parenthesized group nor a numeric literal was found.
    InvalidTerm(String),
    /// A full expression was parsed, but text other than spaces remained.
    UnconsumedSuffix(String),
    /// An opening parenthesis was never matched by a closing one.
    UnclosedParenthesis(String),
}

/// The ghost counterpart of a syntax error.
pub ghost enum SpecErr {
    InvalidTerm(Seq<char>),
    UnconsumedSuffix(Seq<char>),
    UnclosedParenthesis(Seq<char>),
}

impl ParseError {
    /// The ghost model of the error.
    pub open spec fn model(self) -> SpecErr {
        match self {
            ParseError::InvalidTerm(rest) => SpecErr::InvalidTerm(rest@),
            ParseError::UnconsumedSuffix(rest) => SpecErr::UnconsumedSuffix(rest@),
            ParseError::UnclosedParenthesis(rest) => SpecErr::UnclosedParenthesis(rest@),
        }
    }

    /// The text of the message that `message` returns.
    pub open spec fn message_spec(self) -> Seq<char> {
        match self {
            ParseError::InvalidTerm(rest) => "invalid term: \""@ + rest@ + "\""@,
            ParseError::UnconsumedSuffix(rest) => "unconsumed input: \""@ + rest@ + "\""@,
            ParseError::UnclosedParenthesis(rest) => "unclosed parenthesis: \""@ + rest@
                + "\""@,
        }
    }

    /// A human-readable message: the rule that failed and the offending
    /// text, in quotes.
    pub fn message(&self) -> (r: String)
        ensures
            r@ == self.message_spec(),
    {
        let (head, rest) = match self {
            ParseError::InvalidTerm(rest) => ("invalid term: \"", rest),
            ParseError::UnconsumedSuffix(rest) => ("unconsumed input: \"", rest),
            ParseError::UnclosedParenthesis(rest) => ("unclosed parenthesis: \"", rest),
        };
        let mut m = head.to_owned();
        m.append(rest.as_str());
        m.append("\"");
        m
    }
}

/// What a sub-parse yields: a tree and the position that follows it, or
/// a syntax error.
pub ghost enum SpecParse {
    Parsed(SpecExpr, int),
    Failed(SpecErr),
}

/// What parsing a whole line yields: a tree, or a syntax error.
pub ghost enum SpecLine {
    Tree(SpecExpr),
    Failed(SpecErr),
}

/// The text of `s` from position `i` on (clamped to the text).
pub open spec fn rest_of(s: Seq<char>, i: int) -> Seq<char> {
    let j = if i < 0 {
        0
    } else if i > s.len() {
        s.len() as int
    } else {
        i
    };
    s.subrange(j, s.len() as int)
}

/// The parse of a term at position `j` (spaces already skipped): a
/// parenthesized expression — reset to the loosest bound and closed by
/// `)` — or a numeric literal.
pub open spec fn spec_term(s: Seq<char>, j: int) -> SpecParse
    decreases s.len() - j, 0int,
{
    if j < 0 || j >= s.len() {
        SpecParse::Failed(SpecErr::InvalidTerm(rest_of(s, j)))
    } else if s[j] == '(' {
        match spec_expr(s, j + 1, TOP_PRECEDENCE) {
            SpecParse::Failed(e) => SpecParse::Failed(e),
            SpecParse::Parsed(e, m) => {
                if 0 <= m < s.len() && s[m] == ')' {
                    SpecParse::Parsed(e, m + 1)
                } else {
                    SpecParse::Failed(SpecErr::UnclosedParenthesis(rest_of(s, m)))
                }
            },
        }
    } else {
        let k = number_len(s, j);
        if k == 0 {
            SpecParse::Failed(SpecErr::InvalidTerm(rest_of(s, j)))
        } else {
            SpecParse::Parsed(SpecExpr::Num(s.subrange(j, j + k)), j + k)
        }
    }
}

/// The precedence-climbing loop after an initial term `a` at position
/// `i`: as long as the next character maps to an operator that binds
/// strictly tighter than `max_precedence`, consume it, parse its
/// right-hand side under the operator's own precedence, and attach the
/// node at this level (which folds equal-precedence chains to the left).
/// Any other character — or an operator bound to an enclosing call — is
/// left unconsumed.
pub open spec fn spec_ops(s: Seq<char>, i: int, max_precedence: u8, a: SpecExpr) -> SpecParse
    decreases s.len() - i, 1int,
{
    let j = after_spaces(s, i);
    if j < 0 || j >= s.len() {
        SpecParse::Parsed(a, j)
    } else {
        match op_of(s[j]) {
            None => SpecParse::Parsed(a, j),
            Some(op) => {
                if op.precedence_spec() >= max_precedence {
                    SpecParse::Parsed(a, j)
                } else {
                    let k = after_spaces(s, j + 1);
                    proof {
                        lemma_after_spaces_bounds(s, i);
                        lemma_after_spaces_bounds(s, j + 1);
                    }
                    match spec_expr(s, k, op.precedence_spec()) {
                        SpecParse::Failed(e) => SpecParse::Failed(e),
                        SpecParse::Parsed(b, m) => {
                            if i < m <= s.len() {
                                spec_ops(s, m, max_precedence, SpecExpr::Op(op, seq![a, b]))
                            } else {
                                // a successful sub-parse always moves forward,
                                // so this branch is never the value
                                SpecParse::Failed(SpecErr::InvalidTerm(rest_of(s, i)))
                            }
                        },
                    }
                }
            },
        }
    }
}

/// The parse of an expression at position `i`, consuming only operators
/// that bind strictly tighter than `max_precedence`: spaces, an initial
/// term, then the precedence-climbing loop.
pub open spec fn spec_expr(s: Seq<char>, i: int, max_precedence: u8) -> SpecParse
    decreases s.len() - i, 2int,
{
    let j = after_spaces(s, i);
    proof {
        lemma_after_spaces_bounds(s, i);
    }
    match spec_term(s, j) {
        SpecParse::Failed(e) => SpecParse::Failed(e),
        SpecParse::Parsed(a, n) => {
            if i < n <= s.len() {
                spec_ops(s, n, max_precedence, a)
            } else {
                // a term always consumes text; never the value
                SpecParse::Failed(SpecErr::InvalidTerm(rest_of(s, i)))
            }
        },
    }
}

/// The parse of a whole line: an expression under the loosest bound,
/// which must consume everything but trailing spaces.
pub open spec fn spec_parse_line(s: Seq<char>) -> SpecLine {
    match spec_expr(s, 0, TOP_PRECEDENCE) {
        SpecParse::Failed(e) => SpecLine::Failed(e),
        SpecParse::Parsed(a, n) => {
            let j = after_spaces(s, n);
            if j >= s.len() {
                SpecLine::Tree(a)
            } else {
                SpecLine::Failed(SpecErr::UnconsumedSuffix(rest_of(s, j)))
            }
        },
    }
}

/// A cursor over one line of text: the text, its length in characters,
/// and the position of the next unconsumed character. Consuming only
/// moves the position; the text itself never changes.
pub struct Parser<'s> {
    pub text: &'s str,
    pub len: usize,
    pub pos: usize,
}

impl<'s> Parser<'s> {
    /// A valid cursor: the cached length is the text's length in
    /// characters and the position never leaves the text.
    pub open spec fn wf(self) -> bool {
        self.len == self.text@.len() && self.pos <= self.len
    }

    /// A cursor at the start of `text`.
    pub fn new(text: &'s str) -> (r: Self)
        ensures
            r.wf(),
            r.text == text,
            r.pos == 0,
    {
        let len = text.unicode_len();
        Parser { text, len, pos: 0 }
    }

    /// The unconsumed text.
    pub fn rest(&self) -> (r: &'s str)
        requires
            self.wf(),
        ensures
            r@ == rest_of(self.text@, self.pos as int),
    {
        self.text.substring_char(self.pos, self.len)
    }

    /// The unconsumed text as an owned string, for error values.
    fn rest_string(&self) -> (r: String)
        requires
            self.wf(),
        ensures
            r@ == rest_of(self.text@, self.pos as int),
    {
        self.text.substring_char(self.pos, self.len).to_owned()
    }

    /// Advances past `p` if it is the next character; does not move
    /// otherwise.
    pub fn consume(&mut self, p: char) -> (r: Option<()>)
        requires
            old(self).wf(),
        ensures
            final(self).wf(),
            final(self).text == old(self).text,
            final(self).len == old(self).len,
            if old(self).pos < old(self).len && old(self).text@[old(self).pos as int] == p {
                r is Some && final(self).pos == old(self).pos + 1
            } else {
                r is None && final(self).pos == old(self).pos
            },
    {
        if self.pos < self.len {
            let c = self.text.get_char(self.pos);
            if c == p {
                self.pos = self.pos + 1;
                return Some(());
            }
        }
        None
    }

    /// Returns the next character and advances past it, or nothing at
    /// the end of the text.
    pub fn next(&mut self) -> (r: Option<char>)
        requires
            old(self).wf(),
        ensures
            final(self).wf(),
            final(self).text == old(self).text,
            final(self).len == old(self).len,
            if old(self).pos < old(self).len {
                r == Some(old(self).text@[old(self).pos as int])
                    && final(self).pos == old(self).pos + 1
            } else {
                r is None && final(self).pos == old(self).pos
            },
    {
        if self.pos < self.len {
            let c = self.text.get_char(self.pos);
            self.pos = self.pos + 1;
            Some(c)
        } else {
            None
        }
    }

    /// Advances past zero or more spaces; never fails.
    #[verifier::loop_isolation(false)]
    pub fn spaces(&mut self)
        requires
            old(self).wf(),
        ensures
            final(self).wf(),
            final(self).text == old(self).text,
            final(self).len == old(self).len,
            final(self).pos == after_spaces(old(self).text@, old(self).pos as int),
            final(self).pos >= old(self).pos,
    {
        proof {
            lemma_after_spaces_bounds(self.text@, self.pos as int);
        }
        while self.pos < self.len && self.text.get_char(self.pos) == ' '
            invariant
                self.wf(),
                self.text == old(self).text,
                self.len == old(self).len,
                self.pos >= old(self).pos,
                after_spaces(self.text@, self.pos as int) == after_spaces(
                    old(self).text@,
                    old(self).pos as int,
                ),
            decreases self.len - self.pos,
        {
            self.pos = self.pos + 1;
        }
    }

    /// The end of the run of digits that starts at `from`.
    fn scan_digits(&self, from: usize) -> (r: usize)
        requires
            self.wf(),
            from <= self.len,
        ensures
            r == from + digit_run(self.text@, from as int),
            from <= r <= self.len,
    {
        let mut i = from;
        while i < self.len && is_digit_char(self.text.get_char(i))
            invariant
                self.wf(),
                from <= i <= self.len,
                forall|j: int| from <= j < i ==> is_digit(#[trigger] self.text@[j]),
            decreases self.len - i,
        {
            i = i + 1;
        }
        proof {
            lemma_digit_run_exact(self.text@, from as int, i as int);
        }
        i
    }

    /// Reads the longest numeric literal at the cursor — an optional
    /// leading `-`, digits, and optionally `.` followed by digits — and
    /// returns its text; does not move when no literal starts here. A
    /// `.` with no digit after it is left unconsumed.
    pub fn float(&mut self) -> (r: Option<String>)
        requires
            old(self).wf(),
        ensures
            final(self).wf(),
            final(self).text == old(self).text,
            final(self).len == old(self).len,
            ({
                let k = number_len(old(self).text@, old(self).pos as int);
                if k == 0 {
                    r is None && final(self).pos == old(self).pos
                } else {
                    &&& r matches Some(t) && t@ == old(self).text@.subrange(
                        old(self).pos as int,
                        old(self).pos + k,
                    ) && is_number(t@)
                    &&& final(self).pos == old(self).pos + k
                }
            }),
    {
        let ghost s = self.text@;
        let ghost p0 = self.pos as int;
        let start = self.pos;
        let mut i = self.pos;
        if i < self.len && self.text.get_char(i) == '-' {
            i = i + 1;
        }
        let whole_end = self.scan_digits(i);
        if whole_end == i {
            return None;
        }
        let mut end = whole_end;
        if whole_end < self.len && self.text.get_char(whole_end) == '.' {
            let frac_end = self.scan_digits(whole_end + 1);
            if frac_end > whole_end + 1 {
                end = frac_end;
            }
        }
        proof {
            assert(end == p0 + number_len(s, p0));
            lemma_number_match_is_number(s, p0);
        }
        let t = self.text.substring_char(start, end);
        self.pos = end;
        Some(t.to_owned())
    }

    /// Parses one term at the cursor (spaces already skipped): a
    /// parenthesized expression or a numeric literal.
    pub fn term(&mut self) -> (r: Result<Expr, ParseError>)
        requires
            old(self).wf(),
        ensures
            final(self).wf(),
            final(self).text == old(self).text,
            final(self).len == old(self).len,
            final(self).pos >= old(self).pos,
            match spec_term(old(self).text@, old(self).pos as int) {
                SpecParse::Parsed(e, n) => r matches Ok(x) && x.model() == e && e.wf()
                    && final(self).pos == n && n > old(self).pos,
                SpecParse::Failed(err) => r matches Err(p) && p.model() == err,
            },
        decreases self.len - self.pos, 0int,
    {
        let ghost s = self.text@;
        let ghost p0 = self.pos as int;
        if self.pos < self.len {
            let c = self.text.get_char(self.pos);
            if c == '(' {
                self.pos = self.pos + 1;
                match self.expr(TOP_PRECEDENCE) {
                    Err(e) => {
                        return Err(e);
                    },
                    Ok(e) => {
                        if self.consume(')').is_some() {
                            return Ok(e);
                        } else {
                            return Err(ParseError::UnclosedParenthesis(self.rest_string()));
                        }
                    },
                }
            }
        }
        proof {
            lemma_number_len_bounds(s, p0);
        }
        match self.float() {
            Some(t) => Ok(Expr::Num(t)),
            None => Err(ParseError::InvalidTerm(self.rest_string())),
        }
    }

    /// Parses an expression at the cursor, consuming only operators that
    /// bind strictly tighter than `max_precedence`: an initial term,
    /// then the precedence-climbing loop, which attaches each operator
    /// node at this level and so folds equal-precedence chains to the
    /// left. The first unrecognized or too-loose character is left
    /// unconsumed.
    #[verifier::loop_isolation(false)]
    pub fn expr(&mut self, max_precedence: u8) -> (r: Result<Expr, ParseError>)
        requires
            old(self).wf(),
        ensures
            final(self).wf(),
            final(self).text == old(self).text,
            final(self).len == old(self).len,
            final(self).pos >= old(self).pos,
            match spec_expr(old(self).text@, old(self).pos as int, max_precedence) {
                SpecParse::Parsed(e, n) => r matches Ok(x) && x.model() == e && e.wf()
                    && final(self).pos == n && n > old(self).pos,
                SpecParse::Failed(err) => r matches Err(p) && p.model() == err,
            },
        decreases self.len - self.pos, 1int,
    {
        let ghost s = self.text@;
        let ghost p0 = self.pos as int;
        proof {
            lemma_after_spaces_bounds(s, p0);
        }
        self.spaces();
        let mut a = match self.term() {
            Ok(a) => a,
            Err(e) => {
                return Err(e);
            },
        };
        let ghost target = spec_expr(s, p0, max_precedence);
        proof {
            assert(target == spec_ops(s, self.pos as int, max_precedence, a.model()));
        }
        loop
            invariant
                self.wf(),
                self.text == old(self).text,
                self.len == old(self).len,
                self.pos as int > p0,
                a.model().wf(),
                spec_ops(s, self.pos as int, max_precedence, a.model()) == target,
            decreases self.len - self.pos,
        {
            let ghost i_iter = self.pos as int;
            self.spaces();
            proof {
                lemma_after_spaces_bounds(s, i_iter);
            }
            if self.pos >= self.len {
                return Ok(a);
            }
            let c = self.text.get_char(self.pos);
            let op = if c == '+' {
                Operator::Add
            } else if c == '-' {
                Operator::Sub
            } else if c == '*' {
                Operator::Mul
            } else if c == '/' {
                Operator::Div
            } else {
                return Ok(a);
            };
            if op.precedence() >= max_precedence {
                return Ok(a);
            }
            self.pos = self.pos + 1;
            self.spaces();
            let b = match self.expr(op.precedence()) {
                Ok(b) => b,
                Err(e) => {
                    return Err(e);
                },
            };
            let ghost a_val = a;
            let ghost b_val = b;
            let ghost a_model = a.model();
            let ghost b_model = b.model();
            let mut params: Vec<Expr> = Vec::new();
            params.push(a);
            params.push(b);
            a = Expr::Op(Operation::new(op, params));
            proof {
                assert(params@ =~= seq![a_val, b_val]);
                crate::repr::lemma_models_of_pair(a_val, b_val);
                crate::repr::lemma_pair_wf(op, a_model, b_model);
                assert(a.model() == SpecExpr::Op(op, seq![a_model, b_model]));
            }
        }
    }
}

/// A line that is exactly one numeric literal parses to exactly that
/// leaf.
pub proof fn lemma_literal_parse(s: Seq<char>)
    requires
        is_number(s),
    ensures
        spec_parse_line(s) == SpecLine::Tree(SpecExpr::Num(s)),
{
    let start = if s[0] == '-' {
        1int
    } else {
        0int
    };
    lemma_digit_run_bounds(s, start);
    assert(digit_run(s, 0) == 0 ==> !is_digit(s[0]));
    assert(s[0] == '-' || is_digit(s[0]));
    assert(s[0] != ' ' && s[0] != '(');
    assert(after_spaces(s, 0) == 0);
    assert(spec_term(s, 0) == SpecParse::Parsed(
        SpecExpr::Num(s.subrange(0, s.len() as int)),
        s.len() as int,
    ));
    assert(s.subrange(0, s.len() as int) =~= s);
    assert(after_spaces(s, s.len() as int) == s.len());
    assert(spec_ops(s, s.len() as int, TOP_PRECEDENCE, SpecExpr::Num(s)) == SpecParse::Parsed(
        SpecExpr::Num(s),
        s.len() as int,
    ));
    assert(spec_parse_line(s) == SpecLine::Tree(SpecExpr::Num(s)));
}

/// Parses one line of text into an expression tree, or reports a syntax
/// error naming the offending text. The whole line must be consumed,
/// but for trailing spaces.
pub fn parse_line(line: &str) -> (r: Result<Expr, ParseError>)
    ensures
        match spec_parse_line(line@) {
            SpecLine::Tree(t) => r matches Ok(e) && e.model() == t && t.wf(),
            SpecLine::Failed(err) => r matches Err(p) && p.model() == err,
        },
        is_number(line@) ==> (r matches Ok(e) && e.model() == SpecExpr::Num(line@)),
{
    proof {
        if is_number(line@) {
            lemma_literal_parse(line@);
        }
    }
    let mut p = Parser::new(line);
    let res = match p.expr(TOP_PRECEDENCE) {
        Ok(v) => v,
        Err(e) => {
            return Err(e);
        },
    };
    p.spaces();
    if p.pos < p.len {
        Err(ParseError::UnconsumedSuffix(p.rest_string()))
    } else {
        Ok(res)
    }
}

} // verus!
