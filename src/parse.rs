use vstd::prelude::*;
use crate::expr::Expr;
use crate::expr::OpName;

verus! {

/// A token of the expression syntax.
#[derive(Debug, PartialEq, Eq, Clone)]
pub enum Token {
    Eof,
    LParen,
    RParen,
    Op(OpName),
    Var(String),
}

/// Errors of the tokenizer and of the provisional parser.
#[derive(Debug, PartialEq, Eq)]
pub enum ParseError {
    /// A character that starts no token.
    UnexpectedCharacter(char),
    /// A token where the grammar allows none of its kind.
    UnexpectedToken(Token),
    /// Input left over after a whole expression.
    TrailingInput(Token),
}

/// The kind of a token, without its text.
#[derive(Debug, Clone, Copy, PartialEq, Eq, Structural)]
pub enum TokKind {
    Eof,
    LParen,
    RParen,
    Op,
    Var,
    /// No token: an unexpected character.
    Bad,
}

/// Kind of a token.
pub open spec fn kind_of(t: Token) -> TokKind {
    match t {
        Token::Eof => TokKind::Eof,
        Token::LParen => TokKind::LParen,
        Token::RParen => TokKind::RParen,
        Token::Op(_) => TokKind::Op,
        Token::Var(_) => TokKind::Var,
    }
}

/// Text of an operator or identifier token; empty for the others.
pub open spec fn text_of(t: Token) -> Seq<char> {
    match t {
        Token::Op(s) => s@,
        Token::Var(s) => s@,
        _ => Seq::empty(),
    }
}

/// `c` has the Unicode `Alphabetic` property.
pub uninterp spec fn alphabetic(c: char) -> bool;

/// `c` is alphabetic or numeric in the Unicode sense.
pub uninterp spec fn alphanumeric(c: char) -> bool;

/// Relies on `char::is_alphabetic`.
#[verifier::external_body]
fn is_alphabetic(c: char) -> (r: bool)
    ensures
        r == alphabetic(c),
{
    c.is_alphabetic()
}

/// Relies on `char::is_alphanumeric`.
#[verifier::external_body]
fn is_alphanumeric(c: char) -> (r: bool)
    ensures
        r == alphanumeric(c),
{
    c.is_alphanumeric()
}

/// The characters operator symbols are made of.
pub open spec fn symbol_char(c: char) -> bool {
    c == '@' || c == '$' || c == '+' || c == '-' || c == '|' || c == '~' || c == '*' || c == '%'
        || c == '\\' || c == '=' || c == '#' || c == '>' || c == '<' || c == '!' || c == '?' || c
        == ':' || c == '^' || c == '&' || c == '.'
}

fn is_symbol(c: char) -> (r: bool)
    ensures
        r == symbol_char(c),
{
    c == '@' || c == '$' || c == '+' || c == '-' || c == '|' || c == '~' || c == '*' || c == '%'
        || c == '\\' || c == '=' || c == '#' || c == '>' || c == '<' || c == '!' || c == '?' || c
        == ':' || c == '^' || c == '&' || c == '.'
}

/// End of the run of alphanumeric characters from `i`.
pub open spec fn alnum_end(s: Seq<char>, al: Seq<bool>, an: Seq<bool>, i: int) -> int
    decreases s.len() - i,
{
    if i < 0 || i >= s.len() || !an[i] {
        i
    } else {
        alnum_end(s, al, an, i + 1)
    }
}

/// End of the run of symbol characters from `i`.
pub open spec fn symbol_end(s: Seq<char>, i: int) -> int
    decreases s.len() - i,
{
    if i < 0 || i >= s.len() || !symbol_char(s[i]) {
        i
    } else {
        symbol_end(s, i + 1)
    }
}

/// The next token of `s` from `pos`: its kind and the span of its text.
/// Blanks are skipped, and so is a comment, from `/` to the end of the line.
pub open spec fn scan(s: Seq<char>, al: Seq<bool>, an: Seq<bool>, pos: int, comment: bool) -> (TokKind, int, int)
    decreases s.len() - pos, if comment { 1int } else { 0int },
{
    if pos < 0 || pos >= s.len() {
        (TokKind::Eof, pos, pos)
    } else if comment {
        if s[pos] == '\n' {
            scan(s, al, an, pos, false)
        } else {
            scan(s, al, an, pos + 1, true)
        }
    } else {
        let c = s[pos];
        if c == '(' {
            (TokKind::LParen, pos, pos + 1)
        } else if c == ')' {
            (TokKind::RParen, pos, pos + 1)
        } else if al[pos] {
            (TokKind::Var, pos, alnum_end(s, al, an, pos + 1))
        } else if c == '/' {
            scan(s, al, an, pos + 1, true)
        } else if symbol_char(c) {
            (TokKind::Op, pos, symbol_end(s, pos))
        } else if c == ' ' || c == '\t' || c == '\n' {
            scan(s, al, an, pos + 1, false)
        } else {
            (TokKind::Bad, pos, pos)
        }
    }
}

proof fn lemma_alnum_end(s: Seq<char>, al: Seq<bool>, an: Seq<bool>, i: int)
    requires
        0 <= i <= s.len(),
    ensures
        i <= alnum_end(s, al, an, i) <= s.len(),
        forall|k: int| i <= k < alnum_end(s, al, an, i) ==> an[k],
    decreases s.len() - i,
{
    if i < s.len() && an[i] {
        lemma_alnum_end(s, al, an, i + 1);
    }
}

proof fn lemma_symbol_end(s: Seq<char>, i: int)
    requires
        0 <= i <= s.len(),
    ensures
        i <= symbol_end(s, i) <= s.len(),
        forall|k: int| i <= k < symbol_end(s, i) ==> symbol_char(s[k]),
    decreases s.len() - i,
{
    if i < s.len() && symbol_char(s[i]) {
        lemma_symbol_end(s, i + 1);
    }
}

proof fn lemma_scan_bounds(s: Seq<char>, al: Seq<bool>, an: Seq<bool>, pos: int, comment: bool)
    requires
        0 <= pos <= s.len(),
    ensures
        pos <= scan(s, al, an, pos, comment).1 <= scan(s, al, an, pos, comment).2 <= s.len(),
        scan(s, al, an, pos, comment).0 is Eof ==> scan(s, al, an, pos, comment).2 == s.len(),
        scan(s, al, an, pos, comment).0 is Bad ==> scan(s, al, an, pos, comment).1 < s.len(),
        !(scan(s, al, an, pos, comment).0 is Eof) && !(scan(s, al, an, pos, comment).0 is Bad) ==> scan(s, al, an, pos, comment).1
            < scan(s, al, an, pos, comment).2,
    decreases s.len() - pos, if comment { 1int } else { 0int },
{
    if pos < s.len() {
        if comment {
            if s[pos] == '\n' {
                lemma_scan_bounds(s, al, an, pos, false);
            } else {
                lemma_scan_bounds(s, al, an, pos + 1, true);
            }
        } else {
            let c = s[pos];
            if c == '(' || c == ')' {
            } else if al[pos] {
                lemma_alnum_end(s, al, an, pos + 1);
            } else if c == '/' {
                lemma_scan_bounds(s, al, an, pos + 1, true);
            } else if symbol_char(c) {
                lemma_symbol_end(s, pos + 1);
            } else if c == ' ' || c == '\t' || c == '\n' {
                lemma_scan_bounds(s, al, an, pos + 1, false);
            }
        }
    }
}

/// Relies on `String::push`: appends one character.
#[verifier::external_body]
fn push_char(s: &mut String, c: char)
    ensures
        final(s)@ == old(s)@.push(c),
{
    s.push(c)
}

/// The characters of a string, in order.
fn chars_of(s: &str) -> (r: Vec<char>)
    ensures
        r@ == s@,
{
    let mut v: Vec<char> = Vec::new();
    for c in it: s.chars()
        invariant
            v@ == it.seq().take(it.index() as int),
    {
        v.push(c);
    }
    v
}

/// The input being tokenized, the position reached, and one token of
/// lookahead handed back.
struct Lexer {
    chars: Vec<char>,
    alpha: Vec<bool>,
    alnum: Vec<bool>,
    pos: usize,
    pending: Option<Token>,
}

impl Lexer {
    spec fn wf(&self) -> bool {
        &&& self.pos <= self.chars@.len()
        &&& self.alpha@.len() == self.chars@.len()
        &&& self.alnum@.len() == self.chars@.len()
    }

    /// Decreases with every token taken that is not the end of input.
    spec fn measure(&self) -> int {
        st_measure(self.chars@, self.pos as int, qv(self.pending))
    }
}

/// Hands a token back; the next [`token`] returns it.
fn backtrack(lex: &mut Lexer, t: Token)
    requires
        old(lex).pending is None,
    ensures
        final(lex).chars@ == old(lex).chars@,
        final(lex).alpha@ == old(lex).alpha@,
        final(lex).alnum@ == old(lex).alnum@,
        final(lex).pos == old(lex).pos,
        final(lex).pending == Some(t),
{
    lex.pending = Some(t);
}

/// Reads the run of symbol characters at the position as an operator.
fn token_op(lex: &mut Lexer) -> (r: Token)
    requires
        old(lex).wf(),
    ensures
        final(lex).wf(),
        final(lex).chars@ == old(lex).chars@,
        final(lex).alpha@ == old(lex).alpha@,
        final(lex).alnum@ == old(lex).alnum@,
        final(lex).pending == old(lex).pending,
        final(lex).pos == symbol_end(old(lex).chars@, old(lex).pos as int),
        r matches Token::Op(b) && b@ == old(lex).chars@.subrange(old(lex).pos as int, final(lex).pos as int),
{
    let ghost s = lex.chars@;
    let ghost al = lex.alpha@;
    let ghost an = lex.alnum@;
    let ghost start = lex.pos as int;
    let mut buf = String::new();
    while lex.pos < lex.chars.len() && is_symbol(lex.chars[lex.pos])
        invariant
            old(lex).wf(),
            s == old(lex).chars@,
            start == old(lex).pos,
            lex.chars@ == s,
            lex.alpha@ == old(lex).alpha@,
            lex.alnum@ == old(lex).alnum@,
            al == lex.alpha@,
            an == lex.alnum@,
            al.len() == s.len(),
            an.len() == s.len(),
            lex.pending == old(lex).pending,
            start <= lex.pos <= s.len(),
            symbol_end(s, lex.pos as int) == symbol_end(s, start),
            buf@ == s.subrange(start, lex.pos as int),
        decreases s.len() - lex.pos,
    {
        push_char(&mut buf, lex.chars[lex.pos]);
        assert(s.subrange(start, lex.pos + 1) =~= s.subrange(start, lex.pos as int).push(s[lex.pos as int]));
        lex.pos = lex.pos + 1;
    }
    Token::Op(buf)
}

/// What [`token`] gives on `s` from `pos` with nothing handed back: the token
/// that `scan` finds, with its text, and the position after it.
pub open spec fn token_result(s: Seq<char>, al: Seq<bool>, an: Seq<bool>, pos: int, r: Result<Token, ParseError>, end: int) -> bool {
    let (k, a, b) = scan(s, al, an, pos, false);
    if k is Bad {
        r == Err::<Token, ParseError>(ParseError::UnexpectedCharacter(s[a])) && end == a
    } else {
        &&& r matches Ok(t)
        &&& kind_of(t) == k
        &&& (k is Op || k is Var) ==> text_of(t) =~= s.subrange(a, b)
        &&& end == b
    }
}

/// The next token: the one handed back, if any, else the next of the input.
fn token(lex: &mut Lexer) -> (r: Result<Token, ParseError>)
    requires
        old(lex).wf(),
    ensures
        final(lex).wf(),
        final(lex).chars@ == old(lex).chars@,
        final(lex).alpha@ == old(lex).alpha@,
        final(lex).alnum@ == old(lex).alnum@,
        final(lex).pending is None,
        old(lex).pending matches Some(t) ==> r == Ok::<Token, ParseError>(t) && final(lex).pos == old(lex).pos,
        old(lex).pending is None ==> token_result(old(lex).chars@, old(lex).alpha@, old(lex).alnum@, old(lex).pos as int, r, final(lex).pos as int),
        final(lex).measure() <= old(lex).measure(),
        r matches Ok(t) && !(t is Eof) ==> final(lex).measure() < old(lex).measure(),
{
    match lex.pending.take() {
        Some(t) => return Ok(t),
        None => {},
    }
    assert(old(lex).pending is None);
    let ghost s = lex.chars@;
    let ghost al = lex.alpha@;
    let ghost an = lex.alnum@;
    let ghost start = lex.pos as int;
    proof {
        lemma_scan_bounds(s, al, an, start, false);
    }
    let mut comment = false;
    while lex.pos < lex.chars.len()
        invariant
            s == old(lex).chars@,
            start == old(lex).pos,
            old(lex).pending is None,
            lex.chars@ == s,
            lex.alpha@ == old(lex).alpha@,
            lex.alnum@ == old(lex).alnum@,
            al == lex.alpha@,
            an == lex.alnum@,
            al.len() == s.len(),
            an.len() == s.len(),
            lex.pending is None,
            start <= lex.pos <= s.len(),
            scan(s, al, an, lex.pos as int, comment) == scan(s, al, an, start, false),
        decreases s.len() - lex.pos, if comment { 1int } else { 0int },
    {
        let c = lex.chars[lex.pos];
        if comment {
            if c == '\n' {
                comment = false;
            } else {
                lex.pos = lex.pos + 1;
            }
        } else if c == '(' {
            lex.pos = lex.pos + 1;
            return Ok(Token::LParen);
        } else if c == ')' {
            lex.pos = lex.pos + 1;
            return Ok(Token::RParen);
        } else if lex.alpha[lex.pos] {
            let mut buf = String::new();
            push_char(&mut buf, c);
            lex.pos = lex.pos + 1;
            assert(buf@ =~= s.subrange(start + 0, lex.pos as int).subrange(lex.pos - 1 - start, lex.pos - start));
            let ghost first = (lex.pos - 1) as int;
            assert(buf@ =~= s.subrange(first, lex.pos as int));
            while lex.pos < lex.chars.len() && lex.alnum[lex.pos]
                invariant
                    s == old(lex).chars@,
                    start == old(lex).pos,
                    old(lex).pending is None,
                    scan(s, al, an, start, false) == (TokKind::Var, first, alnum_end(s, al, an, first + 1)),
                    lex.chars@ == s,
                    lex.alpha@ == old(lex).alpha@,
                    lex.alnum@ == old(lex).alnum@,
                    al == lex.alpha@,
                    an == lex.alnum@,
                    al.len() == s.len(),
                    an.len() == s.len(),
                    lex.pending is None,
                    0 <= first < lex.pos <= s.len(),
                    alnum_end(s, al, an, lex.pos as int) == alnum_end(s, al, an, first + 1),
                    buf@ == s.subrange(first, lex.pos as int),
                decreases s.len() - lex.pos,
            {
                push_char(&mut buf, lex.chars[lex.pos]);
                assert(s.subrange(first, lex.pos + 1) =~= s.subrange(first, lex.pos as int).push(s[lex.pos as int]));
                lex.pos = lex.pos + 1;
            }
            return Ok(Token::Var(buf));
        } else if c == '/' {
            lex.pos = lex.pos + 1;
            comment = true;
        } else if is_symbol(c) {
            proof {
                lemma_symbol_end(s, lex.pos + 1);
            }
            return Ok(token_op(lex));
        } else if c == ' ' || c == '\t' || c == '\n' {
            lex.pos = lex.pos + 1;
        } else {
            return Err(ParseError::UnexpectedCharacter(c));
        }
    }
    Ok(Token::Eof)
}

/// A token as the grammar sees it: its kind and its text.
pub open spec fn tv(t: Token) -> (TokKind, Seq<char>) {
    (kind_of(t), text_of(t))
}

/// The view of a handed-back token.
pub open spec fn qv(q: Option<Token>) -> Option<(TokKind, Seq<char>)> {
    match q {
        Some(t) => Some(tv(t)),
        None => None,
    }
}

/// Measure of a lexer state: input left, and a token handed back.
pub open spec fn st_measure(s: Seq<char>, p: int, q: Option<(TokKind, Seq<char>)>) -> int {
    2 * (s.len() - p) + if q matches Some(v) && !(v.0 is Eof) {
        1int
    } else {
        0int
    }
}

/// The next token from the state `(p, q)`, `q` the token handed back if any,
/// and the position after it; `None` on an unexpected character.
pub open spec fn next_tok(s: Seq<char>, al: Seq<bool>, an: Seq<bool>, p: int, q: Option<(TokKind, Seq<char>)>) -> Option<((TokKind, Seq<char>), int)> {
    match q {
        Some(v) => Some((v, p)),
        None => {
            let (k, a, b) = scan(s, al, an, p, false);
            if k is Bad {
                None
            } else if k is Op || k is Var {
                Some(((k, s.subrange(a, b)), b))
            } else {
                Some(((k, Seq::empty()), b))
            }
        },
    }
}

/// An expression tree with the names as character sequences.
pub enum Shape {
    Infix(Seq<char>, Box<Shape>, Box<Shape>),
    Prefix(Seq<char>, Box<Shape>),
    Postfix(Seq<char>, Box<Shape>),
    Leaf(Seq<char>),
}

/// The shape of an expression.
pub open spec fn shape(e: Expr) -> Shape
    decreases e,
{
    match e {
        Expr::InfixOp(op, l, r) => Shape::Infix(op@, Box::new(shape(*l)), Box::new(shape(*r))),
        Expr::PrefixOp(op, a) => Shape::Prefix(op@, Box::new(shape(*a))),
        Expr::PostfixOp(op, a) => Shape::Postfix(op@, Box::new(shape(*a))),
        Expr::Var(x) => Shape::Leaf(x@),
    }
}

/// What the grammar reads as a primary expression from `(p, q)`, and the
/// state after it; `None` where there is none: an identifier, an expression
/// in parentheses, or an operator applied as prefix to a primary expression.
pub open spec fn primary_spec(s: Seq<char>, al: Seq<bool>, an: Seq<bool>, p: int, q: Option<(TokKind, Seq<char>)>) -> Option<(Shape, int, Option<(TokKind, Seq<char>)>)>
    decreases st_measure(s, p, q), 0int,
{
    match next_tok(s, al, an, p, q) {
        None => None,
        Some((t, pa)) => if !(pa <= s.len() && st_measure(s, pa, None) < st_measure(s, p, q)) {
            None
        } else if t.0 is Var {
            Some((Shape::Leaf(t.1), pa, None))
        } else if t.0 is LParen {
            match expr_spec(s, al, an, pa, None) {
                None => None,
                Some((e, pb, qb)) => match next_tok(s, al, an, pb, qb) {
                    Some((tr, pc)) => if tr.0 is RParen {
                        Some((e, pc, None))
                    } else {
                        None
                    },
                    None => None,
                },
            }
        } else if t.0 is Op {
            match primary_spec(s, al, an, pa, None) {
                None => None,
                Some((a, pm, qm)) => Some((Shape::Prefix(t.1, Box::new(a)), pm, qm)),
            }
        } else {
            None
        },
    }
}

/// What the grammar reads as an expression from `(p, q)`, and the state
/// after it; `None` where there is none: a primary expression, then an
/// operator, if one follows, that is postfix before `)` or the end of input,
/// else infix with the expression after it as right operand. The state after
/// holds the token that ended the expression, handed back.
pub open spec fn expr_spec(s: Seq<char>, al: Seq<bool>, an: Seq<bool>, p: int, q: Option<(TokKind, Seq<char>)>) -> Option<(Shape, int, Option<(TokKind, Seq<char>)>)>
    decreases st_measure(s, p, q), 1int,
{
    match primary_spec(s, al, an, p, q) {
        None => None,
        Some((e0, pm, qm)) => match next_tok(s, al, an, pm, qm) {
            None => None,
            Some((t, pa)) => if !(t.0 is Op) {
                Some((e0, pa, Some(t)))
            } else {
                match next_tok(s, al, an, pa, None) {
                    None => None,
                    Some((t2, pb)) => if t2.0 is Eof || t2.0 is RParen {
                        Some((Shape::Postfix(t.1, Box::new(e0)), pb, Some(t2)))
                    } else if pb <= s.len() && st_measure(s, pb, Some(t2)) < st_measure(s, p, q) {
                        match expr_spec(s, al, an, pb, Some(t2)) {
                            None => None,
                            Some((e2, pos1, q1)) => Some((Shape::Infix(t.1, Box::new(e0), Box::new(e2)), pos1, q1)),
                        }
                    } else {
                        None
                    },
                }
            },
        },
    }
}

/// `r` and the position `end` are what taking a token from `(p, q)` gives.
pub open spec fn took_result(s: Seq<char>, al: Seq<bool>, an: Seq<bool>, p: int, q: Option<Token>, r: Result<Token, ParseError>, end: int) -> bool {
    match next_tok(s, al, an, p, qv(q)) {
        None => r is Err,
        Some((v, pa)) => r matches Ok(t) && tv(t) == v && end == pa,
    }
}

/// A copy of a token.
fn copy_token(t: &Token) -> (r: Token)
    ensures
        r == *t,
{
    match t {
        Token::Eof => Token::Eof,
        Token::LParen => Token::LParen,
        Token::RParen => Token::RParen,
        Token::Op(s) => Token::Op(s.clone()),
        Token::Var(s) => Token::Var(s.clone()),
    }
}

/// The kind of a token.
fn kind(t: &Token) -> (k: TokKind)
    ensures
        k == kind_of(*t),
{
    match t {
        Token::Eof => TokKind::Eof,
        Token::LParen => TokKind::LParen,
        Token::RParen => TokKind::RParen,
        Token::Op(_) => TokKind::Op,
        Token::Var(_) => TokKind::Var,
    }
}

/// Same kind and same text.
fn same_token(a: &Token, b: &Token) -> (r: bool)
    ensures
        r == (kind_of(*a) == kind_of(*b) && text_of(*a) == text_of(*b)),
{
    if kind(a) != kind(b) {
        return false;
    }
    match a {
        Token::Op(x) => match b {
            Token::Op(y) => *x == *y,
            _ => false,
        },
        Token::Var(x) => match b {
            Token::Var(y) => *x == *y,
            _ => false,
        },
        _ => true,
    }
}

/// What [`token`] says, restated over token views.
proof fn lemma_took_result(s: Seq<char>, al: Seq<bool>, an: Seq<bool>, p: int, q: Option<Token>, r: Result<Token, ParseError>, end: int)
    requires
        q matches Some(t) ==> r == Ok::<Token, ParseError>(t) && end == p,
        q is None ==> token_result(s, al, an, p, r, end),
    ensures
        took_result(s, al, an, p, q, r, end),
{
    if q is None {
        let (k, a, b) = scan(s, al, an, p, false);
        if !(k is Bad) {
            let t = r->Ok_0;
            if !(k is Op || k is Var) {
                assert(text_of(t) =~= Seq::<char>::empty());
            }
        }
    }
}

/// Takes the next token, which must be like `e`.
fn expect(lex: &mut Lexer, e: Token) -> (r: Result<Token, ParseError>)
    requires
        old(lex).wf(),
    ensures
        final(lex).wf(),
        final(lex).chars@ == old(lex).chars@,
        final(lex).alpha@ == old(lex).alpha@,
        final(lex).alnum@ == old(lex).alnum@,
        final(lex).measure() <= old(lex).measure(),
        final(lex).pending is None,
        r is Ok <==> (next_tok(old(lex).chars@, old(lex).alpha@, old(lex).alnum@, old(lex).pos as int, qv(old(lex).pending)) matches Some((v, _))
            && v == tv(e)),
        r is Ok ==> took_result(old(lex).chars@, old(lex).alpha@, old(lex).alnum@, old(lex).pos as int, old(lex).pending, r, final(lex).pos as int),
        r matches Err(ParseError::UnexpectedToken(t)) ==> tv(t) != tv(e),
{
    let ghost s = lex.chars@;
    let ghost al = lex.alpha@;
    let ghost an = lex.alnum@;
    let ghost pos0 = lex.pos as int;
    let ghost q0 = lex.pending;
    let r0 = token(lex);
    proof {
        lemma_took_result(s, al, an, pos0, q0, r0, lex.pos as int);
    }
    let t = match r0 {
        Ok(t) => t,
        Err(err) => return Err(err),
    };
    if !same_token(&t, &e) {
        Err(ParseError::UnexpectedToken(t))
    } else {
        Ok(t)
    }
}

/// The next token, left to be taken again.
fn peek(lex: &mut Lexer) -> (r: Result<Token, ParseError>)
    requires
        old(lex).wf(),
    ensures
        final(lex).wf(),
        final(lex).chars@ == old(lex).chars@,
        final(lex).alpha@ == old(lex).alpha@,
        final(lex).alnum@ == old(lex).alnum@,
        final(lex).measure() <= old(lex).measure(),
        took_result(old(lex).chars@, old(lex).alpha@, old(lex).alnum@, old(lex).pos as int, old(lex).pending, r, final(lex).pos as int),
        r matches Ok(t) ==> final(lex).pending == Some(t),
{
    match &lex.pending {
        Some(t) => Ok(copy_token(t)),
        None => {
            let ghost s = lex.chars@;
    let ghost al = lex.alpha@;
    let ghost an = lex.alnum@;
            let ghost pos0 = lex.pos as int;
            let r0 = token(lex);
            proof {
                lemma_took_result(s, al, an, pos0, None, r0, lex.pos as int);
            }
            let t = match r0 {
                Ok(t) => t,
                Err(err) => return Err(err),
            };
            let t2 = copy_token(&t);
            backtrack(lex, t2);
            Ok(t)
        },
    }
}

/// Parses a primary expression: an identifier, an expression in
/// parentheses, or an operator applied as prefix to a primary expression.
fn parse_primary(lex: &mut Lexer) -> (r: Result<Expr, ParseError>)
    requires
        old(lex).wf(),
    ensures
        final(lex).wf(),
        final(lex).chars@ == old(lex).chars@,
        final(lex).alpha@ == old(lex).alpha@,
        final(lex).alnum@ == old(lex).alnum@,
        final(lex).measure() <= old(lex).measure(),
        r is Ok ==> final(lex).measure() < old(lex).measure(),
        match primary_spec(old(lex).chars@, old(lex).alpha@, old(lex).alnum@, old(lex).pos as int, qv(old(lex).pending)) {
            None => r is Err,
            Some((x, pos1, q1)) => r matches Ok(e) && shape(e) == x && final(lex).pos == pos1 && qv(
                final(lex).pending,
            ) == q1,
        },
    decreases old(lex).measure(), 0int,
{
    let ghost s = lex.chars@;
    let ghost al = lex.alpha@;
    let ghost an = lex.alnum@;
    let ghost pos0 = lex.pos as int;
    let ghost q0 = lex.pending;
    let r0 = token(lex);
    proof {
        lemma_took_result(s, al, an, pos0, q0, r0, lex.pos as int);
    }
    let t1 = match r0 {
        Ok(t) => t,
        Err(err) => return Err(err),
    };
    let ghost pa = lex.pos as int;
    match t1 {
        Token::LParen => {
            let e = match parse_expr(lex) {
                Ok(e) => e,
                Err(err) => return Err(err),
            };
            match expect(lex, Token::RParen) {
                Ok(_) => {},
                Err(err) => return Err(err),
            }
            Ok(e)
        },
        Token::Op(op) => {
            let e = match parse_primary(lex) {
                Ok(e) => e,
                Err(err) => return Err(err),
            };
            Ok(Expr::PrefixOp(op, Box::new(e)))
        },
        Token::Var(x) => Ok(Expr::Var(x)),
        t => Err(ParseError::UnexpectedToken(t)),
    }
}

/// Parses an expression, ignoring precedence: a primary expression, then an
/// operator, if one follows, that is postfix before `)` or the end of input,
/// else infix with the expression after it as right operand.
fn parse_expr(lex: &mut Lexer) -> (r: Result<Expr, ParseError>)
    requires
        old(lex).wf(),
    ensures
        final(lex).wf(),
        final(lex).chars@ == old(lex).chars@,
        final(lex).alpha@ == old(lex).alpha@,
        final(lex).alnum@ == old(lex).alnum@,
        final(lex).measure() <= old(lex).measure(),
        r is Ok ==> final(lex).measure() < old(lex).measure(),
        r is Ok ==> (final(lex).pending matches Some(t) && !(t is Op)),
        match expr_spec(old(lex).chars@, old(lex).alpha@, old(lex).alnum@, old(lex).pos as int, qv(old(lex).pending)) {
            None => r is Err,
            Some((x, pos1, q1)) => r matches Ok(e) && shape(e) == x && final(lex).pos == pos1 && qv(
                final(lex).pending,
            ) == q1,
        },
    decreases old(lex).measure(), 1int,
{
    let ghost s = lex.chars@;
    let ghost al = lex.alpha@;
    let ghost an = lex.alnum@;
    let ghost pos0 = lex.pos as int;
    let ghost q0 = lex.pending;
    let e1 = match parse_primary(lex) {
        Ok(e) => e,
        Err(err) => return Err(err),
    };
    let ghost pm = lex.pos as int;
    let ghost qm = lex.pending;
    let r0 = token(lex);
    proof {
        lemma_took_result(s, al, an, pm, qm, r0, lex.pos as int);
    }
    let t = match r0 {
        Ok(t) => t,
        Err(err) => return Err(err),
    };
    match t {
        Token::Op(op) => {
            let t2 = match peek(lex) {
                Ok(t2) => t2,
                Err(err) => return Err(err),
            };
            match t2 {
                Token::Eof | Token::RParen => Ok(Expr::PostfixOp(op, Box::new(e1))),
                _ => {
                    let e2 = match parse_expr(lex) {
                        Ok(e) => e,
                        Err(err) => return Err(err),
                    };
                    Ok(Expr::InfixOp(op, Box::new(e1), Box::new(e2)))
                },
            }
        },
        _ => {
            backtrack(lex, t);
            Ok(e1)
        },
    }
}

/// The alphabetic characters of `s`, position by position.
pub open spec fn alpha_of(s: Seq<char>) -> Seq<bool> {
    Seq::new(s.len(), |i: int| alphabetic(s[i]))
}

/// The alphanumeric characters of `s`, position by position.
pub open spec fn alnum_of(s: Seq<char>) -> Seq<bool> {
    Seq::new(s.len(), |i: int| alphanumeric(s[i]))
}

/// What parsing `s` returns, where `al` and `an` tell which of its characters
/// are alphabetic and alphanumeric: nothing for an input without tokens;
/// otherwise the expression that the grammar reads from the first token on,
/// when the end of input follows it; else the error met, an unexpected
/// character or the token left over.
pub open spec fn parse_outcome(s: Seq<char>, al: Seq<bool>, an: Seq<bool>, r: Option<Result<Expr, ParseError>>) -> bool {
    match next_tok(s, al, an, 0, None) {
        None => r == Some(Err::<Expr, ParseError>(ParseError::UnexpectedCharacter(s[scan(s, al, an, 0, false).1]))),
        Some((t0, pa)) => if t0.0 is Eof {
            r is None
        } else {
            match expr_spec(s, al, an, pa, Some(t0)) {
                None => r matches Some(Err(_)),
                Some((x, pos1, q1)) => match next_tok(s, al, an, pos1, q1) {
                    None => r matches Some(Err(ParseError::UnexpectedCharacter(_))),
                    Some((t, _)) => if t.0 is Eof {
                        r matches Some(Ok(e)) && shape(e) == x
                    } else {
                        r matches Some(Err(ParseError::TrailingInput(tt))) && tv(tt) == t
                    },
                },
            }
        },
    }
}

/// Which characters are alphabetic and which alphanumeric.
fn classify(chars: &Vec<char>) -> (r: (Vec<bool>, Vec<bool>))
    ensures
        r.0@ == alpha_of(chars@),
        r.1@ == alnum_of(chars@),
{
    let mut al: Vec<bool> = Vec::new();
    let mut an: Vec<bool> = Vec::new();
    let mut i: usize = 0;
    while i < chars.len()
        invariant
            i <= chars@.len(),
            al@ =~= alpha_of(chars@).take(i as int),
            an@ =~= alnum_of(chars@).take(i as int),
        decreases chars@.len() - i,
    {
        al.push(is_alphabetic(chars[i]));
        an.push(is_alphanumeric(chars[i]));
        i = i + 1;
        assert(al@ =~= alpha_of(chars@).take(i as int));
        assert(an@ =~= alnum_of(chars@).take(i as int));
    }
    assert(al@ =~= alpha_of(chars@));
    assert(an@ =~= alnum_of(chars@));
    (al, an)
}

/// Parses the characters `chars` into a provisional tree, `alpha` and
/// `alnum` telling which of them are alphabetic and which alphanumeric;
/// `None` when they hold no token.
pub fn parse_classified(chars: Vec<char>, alpha: Vec<bool>, alnum: Vec<bool>) -> (r: Option<Result<Expr, ParseError>>)
    requires
        alpha@.len() == chars@.len(),
        alnum@.len() == chars@.len(),
    ensures
        parse_outcome(chars@, alpha@, alnum@, r),
{
    let ghost sv = chars@;
    let ghost al = alpha@;
    let ghost an = alnum@;
    let mut lex = Lexer { chars, alpha, alnum, pos: 0, pending: None };
    let r0 = token(&mut lex);
    proof {
        lemma_took_result(sv, al, an, 0, None, r0, lex.pos as int);
        lemma_scan_bounds(sv, al, an, 0, false);
    }
    match r0 {
        Err(err) => Some(Err(err)),
        Ok(Token::Eof) => None,
        Ok(t) => {
            backtrack(&mut lex, t);
            let e = parse_expr(&mut lex);
            let ghost pos1 = lex.pos as int;
            let ghost q1 = lex.pending;
            let r1 = token(&mut lex);
            proof {
                lemma_took_result(sv, al, an, pos1, q1, r1, lex.pos as int);
            }
            match r1 {
                Ok(Token::Eof) => Some(e),
                Ok(t) => Some(Err(ParseError::TrailingInput(t))),
                Err(err) => Some(Err(err)),
            }
        },
    }
}

/// Parses `s` into a provisional tree; `None` when `s` holds no token.
pub fn parse(s: &str) -> (r: Option<Result<Expr, ParseError>>)
    ensures
        parse_outcome(s@, alpha_of(s@), alnum_of(s@), r),
{
    let chars = chars_of(s);
    let (alpha, alnum) = classify(&chars);
    parse_classified(chars, alpha, alnum)
}

} // verus!
