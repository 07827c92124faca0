//! Lexing of regular expressions, expansion of `?`/`+`, explicit
//! concatenation, and infix-to-postfix conversion.
use vstd::prelude::*;
use crate::text::{chars_of, string_of};

verus! {

/// Errors raised while compiling a regular expression.
#[derive(Debug, Clone, Copy, PartialEq, Eq, Structural)]
pub enum RegexError {
    MalformedRegex,
    MalformedRange,
    MalformedNamedRef,
    MalformedTree,
    UndefinedRegexName,
    TooManyStates,
}

/// A lexical unit of a regular expression.
#[derive(Debug, Clone, PartialEq)]
pub enum Token {
    Kleene,
    Union,
    Plus,
    Concat,
    Literal(char),
    Range(char, char),
    LParen,
    RParen,
    Sentinel,
    Empty,
    Optional,
    Tokener(String),
}

/// The mathematical value of a [`Token`]: a named reference carries its name
/// as a character sequence.
pub enum TokenModel {
    Kleene,
    Union,
    Plus,
    Concat,
    Literal(char),
    Range(char, char),
    LParen,
    RParen,
    Sentinel,
    Empty,
    Optional,
    Tokener(Seq<char>),
}

impl View for Token {
    type V = TokenModel;

    open spec fn view(&self) -> TokenModel {
        match self {
            Token::Kleene => TokenModel::Kleene,
            Token::Union => TokenModel::Union,
            Token::Plus => TokenModel::Plus,
            Token::Concat => TokenModel::Concat,
            Token::Literal(c) => TokenModel::Literal(*c),
            Token::Range(a, b) => TokenModel::Range(*a, *b),
            Token::LParen => TokenModel::LParen,
            Token::RParen => TokenModel::RParen,
            Token::Sentinel => TokenModel::Sentinel,
            Token::Empty => TokenModel::Empty,
            Token::Optional => TokenModel::Optional,
            Token::Tokener(s) => TokenModel::Tokener(s@),
        }
    }
}

/// The models of a token sequence.
pub open spec fn tokens_view(v: Seq<Token>) -> Seq<TokenModel> {
    Seq::new(v.len(), |i: int| v[i]@)
}

/// What `char::is_alphabetic` answers for `c` (the Unicode Alphabetic property).
pub uninterp spec fn alphabetic(c: char) -> bool;

/// What `char::is_numeric` answers for `c` (the Unicode numeric categories).
pub uninterp spec fn numeric(c: char) -> bool;

/// Relies on `char::is_alphabetic`, to classify the ends of a range and
/// the characters of a reference name.
#[verifier::external_body]
pub(crate) fn is_alphabetic(c: char) -> (r: bool)
    ensures
        r == alphabetic(c),
{
    c.is_alphabetic()
}

/// Relies on `char::is_numeric`, to classify the ends of a range and the
/// characters of a reference name.
#[verifier::external_body]
pub(crate) fn is_numeric(c: char) -> (r: bool)
    ensures
        r == numeric(c),
{
    c.is_numeric()
}

/// A range `[a-b]` is well formed when `a <= b` and both ends are
/// alphabetic or both are numeric.
pub open spec fn range_ok(a: char, b: char) -> bool {
    &&& (a as u32) <= (b as u32)
    &&& ((alphabetic(a) && alphabetic(b)) || (numeric(a) && numeric(b)))
}

/// Characters allowed in the name of a `{name}` reference.
pub open spec fn name_char(c: char) -> bool {
    alphabetic(c) || numeric(c) || c == '_'
}

/// The character that `\c` stands for.
pub open spec fn escape_of(c: char) -> char {
    if c == 'n' {
        '\n'
    } else if c == 't' {
        '\t'
    } else if c == 'r' {
        '\r'
    } else {
        c
    }
}

/// The token that a single character without special context stands for.
pub open spec fn single_of(c: char) -> TokenModel {
    if c == '?' {
        TokenModel::Optional
    } else if c == '#' {
        TokenModel::Sentinel
    } else if c == '*' {
        TokenModel::Kleene
    } else if c == '|' {
        TokenModel::Union
    } else if c == '+' {
        TokenModel::Plus
    } else if c == '(' {
        TokenModel::LParen
    } else if c == ')' {
        TokenModel::RParen
    } else if c == '%' {
        TokenModel::Empty
    } else {
        TokenModel::Literal(c)
    }
}

/// The first index at or after `k` that does not hold a name character.
pub open spec fn name_end(s: Seq<char>, k: int) -> int
    decreases s.len() - k,
{
    if k < 0 || k >= s.len() || s[k] == '}' || !name_char(s[k]) {
        k
    } else {
        name_end(s, k + 1)
    }
}

/// Prepends `p` to a successful result.
pub open spec fn prepend(p: Seq<TokenModel>, r: Result<Seq<TokenModel>, RegexError>) -> Result<
    Seq<TokenModel>,
    RegexError,
> {
    match r {
        Ok(v) => Ok(p + v),
        Err(e) => Err(e),
    }
}

/// The tokens of the regular expression `s` read from index `i` on.
pub open spec fn tok_from(s: Seq<char>, i: int) -> Result<Seq<TokenModel>, RegexError>
    decreases s.len() - i,
{
    if i < 0 || i >= s.len() {
        Ok(Seq::empty())
    } else if s[i] == '\\' {
        if i + 1 >= s.len() {
            Ok(Seq::empty())
        } else {
            prepend(seq![TokenModel::Literal(escape_of(s[i + 1]))], tok_from(s, i + 2))
        }
    } else if s[i] == '[' {
        if i + 4 < s.len() && s[i + 2] == '-' && s[i + 4] == ']' && range_ok(s[i + 1], s[i + 3]) {
            prepend(seq![TokenModel::Range(s[i + 1], s[i + 3])], tok_from(s, i + 5))
        } else {
            Err(RegexError::MalformedRange)
        }
    } else if s[i] == '{' {
        let j = name_end(s, i + 1);
        if i + 1 < j < s.len() && s[j] == '}' {
            prepend(seq![TokenModel::Tokener(s.subrange(i + 1, j))], tok_from(s, j + 1))
        } else {
            Err(RegexError::MalformedNamedRef)
        }
    } else {
        prepend(seq![single_of(s[i])], tok_from(s, i + 1))
    }
}

/// The model of a tokenisation result.
pub open spec fn result_view(r: Result<Vec<Token>, RegexError>) -> Result<
    Seq<TokenModel>,
    RegexError,
> {
    match r {
        Ok(v) => Ok(tokens_view(v@)),
        Err(e) => Err(e),
    }
}

/// Whether `[start-end]` is a well-formed range.
pub fn check_range(start: char, end: char) -> (r: bool)
    ensures
        r == range_ok(start, end),
{
    if (start as u32) > (end as u32) {
        return false;
    }
    let both_char = is_alphabetic(start) && is_alphabetic(end);
    let both_num = is_numeric(start) && is_numeric(end);
    both_char || both_num
}

pub(crate) fn is_name_char(c: char) -> (r: bool)
    ensures
        r == name_char(c),
{
    is_alphabetic(c) || is_numeric(c) || c == '_'
}

fn single_token(c: char) -> (t: Token)
    ensures
        t@ == single_of(c),
{
    if c == '?' {
        Token::Optional
    } else if c == '#' {
        Token::Sentinel
    } else if c == '*' {
        Token::Kleene
    } else if c == '|' {
        Token::Union
    } else if c == '+' {
        Token::Plus
    } else if c == '(' {
        Token::LParen
    } else if c == ')' {
        Token::RParen
    } else if c == '%' {
        Token::Empty
    } else {
        Token::Literal(c)
    }
}

proof fn lemma_prepend_push(p: Seq<TokenModel>, t: TokenModel, r: Result<Seq<TokenModel>, RegexError>)
    ensures
        prepend(p, prepend(seq![t], r)) == prepend(p.push(t), r),
{
    match r {
        Ok(v) => {
            assert(p + (seq![t] + v) =~= p.push(t) + v);
        },
        Err(e) => {},
    }
}

/// Splits a regular expression into tokens. A backslash escapes the next
/// character (`\n`, `\t`, `\r` give newline, tab and carriage return);
/// `[a-b]` is a range and `{name}` a named reference.
pub fn tokenize(input: &str) -> (r: Result<Vec<Token>, RegexError>)
    ensures
        result_view(r) == tok_from(input@, 0),
{
    let s = chars_of(input);
    let n = s.len();
    let mut tokens: Vec<Token> = Vec::new();
    let mut i: usize = 0;
    while i < n
        invariant
            n == s@.len(),
            s@ == input@,
            i <= n,
            prepend(tokens_view(tokens@), tok_from(s@, i as int)) == tok_from(s@, 0),
        decreases n - i,
    {
        let ghost before = tokens_view(tokens@);
        let c = s[i];
        if c == '\\' {
            if i + 1 >= n {
                i = n;
                proof {
                    assert(tok_from(s@, n as int) == tok_from(s@, i as int));
                }
            } else {
                let next = s[i + 1];
                let e = if next == 'n' {
                    '\n'
                } else if next == 't' {
                    '\t'
                } else if next == 'r' {
                    '\r'
                } else {
                    next
                };
                let t = Token::Literal(e);
                proof {
                    lemma_prepend_push(before, t@, tok_from(s@, i + 2));
                }
                tokens.push(t);
                proof {
                    assert(tokens_view(tokens@) =~= before.push(t@));
                }
                i = i + 2;
            }
        } else if c == '[' {
            if n - i > 4 && s[i + 2] == '-' && s[i + 4] == ']' && check_range(s[i + 1], s[i + 3]) {
                let t = Token::Range(s[i + 1], s[i + 3]);
                proof {
                    lemma_prepend_push(before, t@, tok_from(s@, i + 5));
                }
                tokens.push(t);
                proof {
                    assert(tokens_view(tokens@) =~= before.push(t@));
                }
                i = i + 5;
            } else {
                return Err(RegexError::MalformedRange);
            }
        } else if c == '{' {
            let mut j: usize = i + 1;
            let mut name: Vec<char> = Vec::new();
            while j < n && s[j] != '}' && is_name_char(s[j])
                invariant
                    n == s@.len(),
                    i < j <= n,
                    s@[i as int] == '{',
                    name_end(s@, i + 1) == name_end(s@, j as int),
                    name@ == s@.subrange(i + 1, j as int),
                decreases n - j,
            {
                name.push(s[j]);
                j = j + 1;
                assert(name@ =~= s@.subrange(i + 1, j as int));
            }
            if j < n && j > i + 1 && s[j] == '}' {
                let t = Token::Tokener(string_of(&name));
                proof {
                    lemma_prepend_push(before, t@, tok_from(s@, j + 1));
                }
                tokens.push(t);
                proof {
                    assert(tokens_view(tokens@) =~= before.push(t@));
                }
                i = j + 1;
            } else {
                return Err(RegexError::MalformedNamedRef);
            }
        } else {
            let t = single_token(c);
            proof {
                lemma_prepend_push(before, t@, tok_from(s@, i + 1));
            }
            tokens.push(t);
            proof {
                assert(tokens_view(tokens@) =~= before.push(t@));
            }
            i = i + 1;
        }
    }
    proof {
        assert(tokens_view(tokens@) + Seq::<TokenModel>::empty() =~= tokens_view(tokens@));
    }
    Ok(tokens)
}

/// Characters that stand for an operator when they appear unescaped.
pub open spec fn special_char(c: char) -> bool {
    c == '\\' || c == '?' || c == '#' || c == '*' || c == '|' || c == '+' || c == '(' || c == ')'
        || c == '[' || c == '{' || c == '%'
}

/// Tokens that have a written form: everything but the explicit
/// concatenation, with well-formed ranges and non-empty names.
pub open spec fn serialisable(t: TokenModel) -> bool {
    match t {
        TokenModel::Concat => false,
        TokenModel::Range(a, b) => range_ok(a, b),
        TokenModel::Tokener(n) => n.len() > 0 && forall|k: int|
            0 <= k < n.len() ==> #[trigger] n[k] != '}' && name_char(n[k]),
        _ => true,
    }
}

/// The written form of one token.
pub open spec fn ser_one(t: TokenModel) -> Seq<char> {
    match t {
        TokenModel::Kleene => seq!['*'],
        TokenModel::Union => seq!['|'],
        TokenModel::Plus => seq!['+'],
        TokenModel::Concat => Seq::empty(),
        TokenModel::Literal(c) => if special_char(c) {
            seq!['\\', c]
        } else if c == '\n' {
            seq!['\\', 'n']
        } else if c == '\t' {
            seq!['\\', 't']
        } else if c == '\r' {
            seq!['\\', 'r']
        } else {
            seq![c]
        },
        TokenModel::Range(a, b) => seq!['[', a, '-', b, ']'],
        TokenModel::LParen => seq!['('],
        TokenModel::RParen => seq![')'],
        TokenModel::Sentinel => seq!['#'],
        TokenModel::Empty => seq!['%'],
        TokenModel::Optional => seq!['?'],
        TokenModel::Tokener(n) => seq!['{'] + n + seq!['}'],
    }
}

/// The written form of a token sequence.
pub open spec fn ser_all(ts: Seq<TokenModel>) -> Seq<char>
    decreases ts.len(),
{
    if ts.len() == 0 {
        Seq::empty()
    } else {
        ser_all(ts.drop_last()) + ser_one(ts.last())
    }
}

fn ser_token(t: &Token, out: &mut Vec<char>)
    ensures
        final(out)@ == old(out)@ + ser_one(t@),
{
    let ghost o = out@;
    match t {
        Token::Kleene => out.push('*'),
        Token::Union => out.push('|'),
        Token::Plus => out.push('+'),
        Token::Concat => {},
        Token::Literal(c) => {
            let c = *c;
            if c == '\\' || c == '?' || c == '#' || c == '*' || c == '|' || c == '+' || c == '('
                || c == ')' || c == '[' || c == '{' || c == '%' {
                out.push('\\');
                out.push(c);
            } else if c == '\n' {
                out.push('\\');
                out.push('n');
            } else if c == '\t' {
                out.push('\\');
                out.push('t');
            } else if c == '\r' {
                out.push('\\');
                out.push('r');
            } else {
                out.push(c);
            }
        },
        Token::Range(a, b) => {
            out.push('[');
            out.push(*a);
            out.push('-');
            out.push(*b);
            out.push(']');
        },
        Token::LParen => out.push('('),
        Token::RParen => out.push(')'),
        Token::Sentinel => out.push('#'),
        Token::Empty => out.push('%'),
        Token::Optional => out.push('?'),
        Token::Tokener(name) => {
            out.push('{');
            let cs = chars_of(name.as_str());
            let mut k: usize = 0;
            while k < cs.len()
                invariant
                    k <= cs@.len(),
                    cs@ == name@,
                    out@ == o + seq!['{'] + cs@.subrange(0, k as int),
                decreases cs.len() - k,
            {
                out.push(cs[k]);
                k = k + 1;
                assert(out@ =~= o + seq!['{'] + cs@.subrange(0, k as int));
            }
            out.push('}');
            assert(cs@.subrange(0, k as int) =~= name@);
        },
    }
    assert(out@ =~= o + ser_one(t@));
}

/// Writes a token sequence back as regular-expression text, escaping
/// operator characters and control characters.
pub fn serialise_tokens(tokens: &Vec<Token>) -> (r: String)
    ensures
        r@ == ser_all(tokens_view(tokens@)),
{
    let mut out: Vec<char> = Vec::new();
    let mut i: usize = 0;
    while i < tokens.len()
        invariant
            i <= tokens@.len(),
            out@ == ser_all(tokens_view(tokens@.subrange(0, i as int))),
        decreases tokens.len() - i,
    {
        ser_token(&tokens[i], &mut out);
        i = i + 1;
        proof {
            let tv = tokens_view(tokens@.subrange(0, i as int));
            assert(tv.drop_last() =~= tokens_view(tokens@.subrange(0, i - 1)));
            assert(tv.last() == tokens@[i - 1]@);
        }
    }
    assert(tokens@.subrange(0, i as int) =~= tokens@);
    string_of(&out)
}

proof fn lemma_name_end_shift(p: Seq<char>, u: Seq<char>, k: int)
    requires
        0 <= k <= u.len(),
    ensures
        name_end(p + u, p.len() + k) == p.len() + name_end(u, k),
    decreases u.len() - k,
{
    let s = p + u;
    if k < u.len() {
        assert(s[p.len() + k] == u[k]);
        if !(u[k] == '}' || !name_char(u[k])) {
            lemma_name_end_shift(p, u, k + 1);
        }
    }
}

proof fn lemma_tok_from_shift(p: Seq<char>, u: Seq<char>, k: int)
    requires
        0 <= k <= u.len(),
    ensures
        tok_from(p + u, p.len() + k) == tok_from(u, k),
    decreases u.len() - k,
{
    let s = p + u;
    let i = p.len() + k;
    if k < u.len() {
        assert(s[i] == u[k]);
        if u[k] == '\\' {
            if k + 1 < u.len() {
                assert(s[i + 1] == u[k + 1]);
                lemma_tok_from_shift(p, u, k + 2);
            }
        } else if u[k] == '[' {
            if k + 4 < u.len() {
                assert(s[i + 1] == u[k + 1]);
                assert(s[i + 2] == u[k + 2]);
                assert(s[i + 3] == u[k + 3]);
                assert(s[i + 4] == u[k + 4]);
                lemma_tok_from_shift(p, u, k + 5);
            }
        } else if u[k] == '{' {
            lemma_name_end_shift(p, u, k + 1);
            let j = name_end(u, k + 1);
            if k + 1 < j < u.len() {
                assert(s[p.len() + j] == u[j]);
                assert(s.subrange(i + 1, p.len() + j) =~= u.subrange(k + 1, j));
                lemma_tok_from_shift(p, u, j + 1);
            }
        } else {
            lemma_tok_from_shift(p, u, k + 1);
        }
    }
}

proof fn lemma_name_end_over(n: Seq<char>, u: Seq<char>, k: int)
    requires
        0 <= k <= n.len(),
        forall|m: int| 0 <= m < n.len() ==> #[trigger] n[m] != '}' && name_char(n[m]),
    ensures
        name_end(seq!['{'] + n + seq!['}'] + u, 1 + k) == 1 + n.len(),
    decreases n.len() - k,
{
    let s = seq!['{'] + n + seq!['}'] + u;
    if k < n.len() {
        assert(s[1 + k] == n[k]);
        lemma_name_end_over(n, u, k + 1);
    } else {
        assert(s[1 + n.len() as int] == '}');
    }
}

proof fn lemma_tok_one(t: TokenModel, u: Seq<char>)
    requires
        serialisable(t),
    ensures
        tok_from(ser_one(t) + u, 0) == prepend(seq![t], tok_from(u, 0)),
{
    let p = ser_one(t);
    let s = p + u;
    lemma_tok_from_shift(p, u, 0);
    assert(s[0] == p[0]);
    match t {
        TokenModel::Literal(c) => {
            if p.len() == 2 {
                assert(s[1] == p[1]);
            }
        },
        TokenModel::Range(a, b) => {
            assert(s[1] == a);
            assert(s[2] == '-');
            assert(s[3] == b);
            assert(s[4] == ']');
        },
        TokenModel::Tokener(n) => {
            assert(s =~= seq!['{'] + n + seq!['}'] + u);
            lemma_name_end_over(n, u, 0);
            assert(s[1 + n.len() as int] == '}');
            assert(s.subrange(1, 1 + n.len() as int) =~= n);
        },
        _ => {},
    }
}

proof fn lemma_ser_all_front(ts: Seq<TokenModel>)
    requires
        ts.len() > 0,
    ensures
        ser_all(ts) == ser_one(ts[0]) + ser_all(ts.drop_first()),
    decreases ts.len(),
{
    if ts.len() == 1 {
        assert(ts.drop_last() =~= Seq::<TokenModel>::empty());
        assert(ts.drop_first() =~= Seq::<TokenModel>::empty());
        assert(ser_all(ts.drop_first()) == Seq::<char>::empty());
        assert(ser_one(ts[0]) + Seq::<char>::empty() =~= ser_one(ts[0]));
    } else {
        lemma_ser_all_front(ts.drop_last());
        assert(ts.drop_last().drop_first() =~= ts.drop_first().drop_last());
        assert(ts.drop_last()[0] == ts[0]);
        assert(ts.drop_first().last() == ts.last());
        assert(ser_one(ts[0]) + ser_all(ts.drop_first().drop_last()) + ser_one(ts.last())
            =~= ser_one(ts[0]) + (ser_all(ts.drop_first().drop_last()) + ser_one(ts.last())));
    }
}

/// Tokenising the written form of a token sequence gives the sequence back,
/// for every sequence of tokens that have a written form.
pub proof fn lemma_tokenize_serialise(ts: Seq<TokenModel>)
    requires
        forall|i: int| 0 <= i < ts.len() ==> serialisable(#[trigger] ts[i]),
    ensures
        tok_from(ser_all(ts), 0) == Ok::<Seq<TokenModel>, RegexError>(ts),
    decreases ts.len(),
{
    if ts.len() == 0 {
        assert(ser_all(ts) =~= Seq::<char>::empty());
        assert(ts =~= Seq::<TokenModel>::empty());
    } else {
        lemma_ser_all_front(ts);
        let rest = ts.drop_first();
        assert forall|i: int| 0 <= i < rest.len() implies serialisable(#[trigger] rest[i]) by {
            assert(rest[i] == ts[i + 1]);
        }
        lemma_tokenize_serialise(rest);
        lemma_tok_one(ts[0], ser_all(rest));
        assert(seq![ts[0]] + rest =~= ts);
        assert(tok_from(ser_all(ts), 0) == prepend(seq![ts[0]], tok_from(ser_all(rest), 0)));
    }
}

/// Operator precedence used by the infix-to-postfix conversion.
pub open spec fn prec_spec(t: TokenModel) -> nat {
    match t {
        TokenModel::Kleene | TokenModel::Plus => 3,
        TokenModel::Concat => 2,
        TokenModel::Union => 1,
        _ => 0,
    }
}

/// Operator precedence: star and plus bind tightest, then concatenation,
/// then union; every other token has precedence zero.
pub fn precedence(token: &Token) -> (r: usize)
    ensures
        r == prec_spec(token@),
{
    match token {
        Token::Kleene => 3,
        Token::Plus => 3,
        Token::Concat => 2,
        Token::Union => 1,
        _ => 0,
    }
}

/// Tokens that stand for one operand.
pub open spec fn is_atom(t: TokenModel) -> bool {
    t is Literal || t is Range || t is Sentinel || t is Empty || t is Tokener
}

/// Whether an explicit concatenation belongs between `prev` and `next`.
pub open spec fn needs_concat(prev: TokenModel, next: TokenModel) -> bool {
    ||| is_atom(prev) && is_atom(next)
    ||| is_atom(prev) && next is LParen
    ||| prev is RParen && is_atom(next)
    ||| (prev is Kleene || prev is Plus) && is_atom(next)
    ||| (prev is Kleene || prev is Plus) && next is LParen
    ||| prev is RParen && next is LParen
}

/// Whether an explicit concatenation belongs between `prev` and `next`.
pub fn implicit_concat(prev: &Token, next: &Token) -> (r: bool)
    ensures
        r == needs_concat(prev@, next@),
{
    let prev_atom = matches!(prev, Token::Literal(_) | Token::Range(_, _) | Token::Sentinel | Token::Empty | Token::Tokener(_));
    let next_atom = matches!(next, Token::Literal(_) | Token::Range(_, _) | Token::Sentinel | Token::Empty | Token::Tokener(_));
    let prev_post = matches!(prev, Token::Kleene | Token::Plus);
    let prev_close = matches!(prev, Token::RParen);
    let next_open = matches!(next, Token::LParen);
    (prev_atom && next_atom) || (prev_atom && next_open) || (prev_close && next_atom) || (
    prev_post && next_atom) || (prev_post && next_open) || (prev_close && next_open)
}

/// A copy of a token with the same model.
pub fn copy_token(t: &Token) -> (r: Token)
    ensures
        r@ == t@,
{
    match t {
        Token::Kleene => Token::Kleene,
        Token::Union => Token::Union,
        Token::Plus => Token::Plus,
        Token::Concat => Token::Concat,
        Token::Literal(c) => Token::Literal(*c),
        Token::Range(a, b) => Token::Range(*a, *b),
        Token::LParen => Token::LParen,
        Token::RParen => Token::RParen,
        Token::Sentinel => Token::Sentinel,
        Token::Empty => Token::Empty,
        Token::Optional => Token::Optional,
        Token::Tokener(s) => Token::Tokener(s.clone()),
    }
}

/// Scanning `q` backwards from index `k` with `depth` open groups: the
/// index of the `(` that closes the count, if any.
pub open spec fn gstart(q: Seq<TokenModel>, k: int, depth: int) -> Option<int>
    decreases k,
{
    if k <= 0 || k > q.len() {
        None
    } else if q[k - 1] is RParen {
        if depth >= usize::MAX {
            None
        } else {
            gstart(q, k - 1, depth + 1)
        }
    } else if q[k - 1] is LParen {
        if depth <= 1 {
            Some(k - 1)
        } else {
            gstart(q, k - 1, depth - 1)
        }
    } else {
        gstart(q, k - 1, depth)
    }
}

/// The index of the `(` that opens the group closed by the last token of `q`.
pub open spec fn group_start_spec(q: Seq<TokenModel>) -> Option<int> {
    gstart(q, q.len() as int, 0)
}

proof fn lemma_gstart_range(q: Seq<TokenModel>, k: int, depth: int)
    ensures
        gstart(q, k, depth) matches Some(j) ==> 0 <= j < k && q[j] is LParen,
    decreases k,
{
    if 0 < k <= q.len() {
        if q[k - 1] is RParen {
            if depth < usize::MAX {
                lemma_gstart_range(q, k - 1, depth + 1);
            }
        } else if q[k - 1] is LParen {
            if depth > 1 {
                lemma_gstart_range(q, k - 1, depth - 1);
            }
        } else {
            lemma_gstart_range(q, k - 1, depth);
        }
    }
}

/// One step of the `?`/`+` rewrite on the tokens read so far.
pub open spec fn exp_step(q: Seq<TokenModel>, t: TokenModel) -> Option<Seq<TokenModel>> {
    if t is Optional || t is Plus {
        if q.len() == 0 {
            None
        } else {
            let last = q.last();
            if last is Kleene {
                Some(q)
            } else if last is RParen {
                match group_start_spec(q) {
                    Some(j) => if t is Optional {
                        Some(q.subrange(0, j).push(TokenModel::LParen) + q.subrange(j, q.len() as int) + seq![
                            TokenModel::Union,
                            TokenModel::Empty,
                            TokenModel::RParen,
                        ])
                    } else {
                        Some(q + q.subrange(j, q.len() as int) + seq![TokenModel::Kleene])
                    },
                    None => None,
                }
            } else if is_atom(last) {
                if t is Optional {
                    Some(q.drop_last() + seq![
                        TokenModel::LParen,
                        last,
                        TokenModel::Union,
                        TokenModel::Empty,
                        TokenModel::RParen,
                    ])
                } else {
                    Some(q + seq![last, TokenModel::Kleene])
                }
            } else {
                None
            }
        }
    } else {
        Some(q.push(t))
    }
}

/// The rewrite of the first `i` tokens: `x?` becomes `(x|%)`, `x+`
/// becomes `x x*` (a group is repeated whole), `x*?` and `x*+` stay `x*`;
/// `None` when a quantifier has no operand.
pub open spec fn exp_queue(ts: Seq<TokenModel>, i: int) -> Option<Seq<TokenModel>>
    decreases i,
{
    if i <= 0 {
        Some(Seq::empty())
    } else {
        match exp_queue(ts, i - 1) {
            Some(q) => exp_step(q, ts[i - 1]),
            None => None,
        }
    }
}

proof fn lemma_exp_none(ts: Seq<TokenModel>, i: int, n: int)
    requires
        0 <= i <= n,
        exp_queue(ts, i) is None,
    ensures
        exp_queue(ts, n) is None,
    decreases n - i,
{
    if i < n {
        lemma_exp_none(ts, i + 1, n);
    }
}

/// `q` with an explicit concatenation between every two adjacent tokens
/// that need one.
pub open spec fn concat_ins(q: Seq<TokenModel>) -> Seq<TokenModel>
    decreases q.len(),
{
    if q.len() <= 1 {
        q
    } else {
        let p = concat_ins(q.drop_last());
        if needs_concat(q[q.len() - 2], q.last()) {
            p.push(TokenModel::Concat).push(q.last())
        } else {
            p.push(q.last())
        }
    }
}

/// The expansion of a token sequence.
pub open spec fn expand_spec(ts: Seq<TokenModel>) -> Result<Seq<TokenModel>, RegexError> {
    match exp_queue(ts, ts.len() as int) {
        Some(q) => Ok(concat_ins(q)),
        None => Err(RegexError::MalformedRegex),
    }
}

/// The index of the `(` that opens the group closed by the last token of `q`.
fn group_start(q: &Vec<Token>) -> (r: Option<usize>)
    ensures
        r matches Some(j) ==> group_start_spec(tokens_view(q@)) == Some(j as int),
        r is None ==> group_start_spec(tokens_view(q@)) is None,
{
    let ghost tq = tokens_view(q@);
    let mut depth: usize = 0;
    let mut k: usize = q.len();
    while k > 0
        invariant
            k <= q@.len(),
            tq == tokens_view(q@),
            gstart(tq, k as int, depth as int) == group_start_spec(tq),
        decreases k,
    {
        k = k - 1;
        assert(tq[k as int] == q@[k as int]@);
        match &q[k] {
            Token::RParen => {
                if depth == usize::MAX {
                    return None;
                }
                depth = depth + 1;
            },
            Token::LParen => {
                if depth <= 1 {
                    return Some(k);
                }
                depth = depth - 1;
            },
            _ => {},
        }
    }
    None
}

proof fn lemma_view_push(v: Seq<Token>, t: Token)
    ensures
        tokens_view(v.push(t)) == tokens_view(v).push(t@),
{
    assert(tokens_view(v.push(t)) =~= tokens_view(v).push(t@));
}

/// Rewrites `x?` to `(x|%)` and `x+` to `x x*` (a whole parenthesised group
/// is repeated), keeps `x*?` and `x*+` as `x*`, and then inserts an explicit
/// concatenation between every two adjacent tokens that need one. A
/// quantifier with no operand, or after an operator, is a malformed
/// regular expression.
pub fn expand(tokens: &Vec<Token>) -> (r: Result<Vec<Token>, RegexError>)
    ensures
        result_view(r) == expand_spec(tokens_view(tokens@)),
{
    let ghost tv = tokens_view(tokens@);
    let mut queue: Vec<Token> = Vec::new();
    let mut i: usize = 0;
    proof {
        assert(tokens_view(queue@) =~= Seq::<TokenModel>::empty());
    }
    while i < tokens.len()
        invariant
            i <= tokens@.len(),
            tv == tokens_view(tokens@),
            exp_queue(tv, i as int) == Some(tokens_view(queue@)),
        decreases tokens.len() - i,
    {
        let ghost q0 = tokens_view(queue@);
        let tk = &tokens[i];
        assert(tv[i as int] == tk@);
        assert(exp_queue(tv, i + 1) == exp_step(q0, tk@));
        let is_q = matches!(tk, Token::Optional);
        let is_p = matches!(tk, Token::Plus);
        if is_q || is_p {
            if queue.len() == 0 {
                proof {
                    lemma_exp_none(tv, i + 1, tv.len() as int);
                }
                return Err(RegexError::MalformedRegex);
            }
            let n = queue.len();
            assert(q0.last() == queue@[n - 1]@);
            match &queue[n - 1] {
                Token::Kleene => {},
                Token::RParen => {
                    match group_start(&queue) {
                        Some(j) => {
                            proof {
                                lemma_gstart_range(q0, q0.len() as int, 0);
                            }
                            if is_q {
                                queue.insert(j, Token::LParen);
                                queue.push(Token::Union);
                                queue.push(Token::Empty);
                                queue.push(Token::RParen);
                                proof {
                                    assert(tokens_view(queue@) =~= q0.subrange(0, j as int).push(TokenModel::LParen) + q0.subrange(j as int, q0.len() as int) + seq![
                                        TokenModel::Union,
                                        TokenModel::Empty,
                                        TokenModel::RParen,
                                    ]);
                                }
                            } else {
                                let mut k: usize = j;
                                while k < n
                                    invariant
                                        j <= k <= n,
                                        n == q0.len(),
                                        queue@.len() == n + (k - j),
                                        tokens_view(queue@) == q0 + q0.subrange(j as int, k as int),
                                    decreases n - k,
                                {
                                    assert(queue@[k as int]@ == q0[k as int]) by {
                                        assert(tokens_view(queue@)[k as int] == q0[k as int]);
                                    }
                                    let c = copy_token(&queue[k]);
                                    let ghost before = queue@;
                                    queue.push(c);
                                    proof {
                                        lemma_view_push(before, c);
                                        assert(q0 + q0.subrange(j as int, k + 1) =~= (q0 + q0.subrange(j as int, k as int)).push(q0[k as int]));
                                    }
                                    k = k + 1;
                                }
                                let ghost before = queue@;
                                queue.push(Token::Kleene);
                                proof {
                                    lemma_view_push(before, Token::Kleene);
                                }
                            }
                        },
                        None => {
                            proof {
                                lemma_exp_none(tv, i + 1, tv.len() as int);
                            }
                            return Err(RegexError::MalformedRegex);
                        },
                    }
                },
                Token::Literal(_) | Token::Range(_, _) | Token::Sentinel | Token::Empty
                | Token::Tokener(_) => {
                    if is_q {
                        let last = queue.pop().unwrap();
                        queue.push(Token::LParen);
                        queue.push(last);
                        queue.push(Token::Union);
                        queue.push(Token::Empty);
                        queue.push(Token::RParen);
                        proof {
                            assert(tokens_view(queue@) =~= q0.drop_last() + seq![
                                TokenModel::LParen,
                                q0.last(),
                                TokenModel::Union,
                                TokenModel::Empty,
                                TokenModel::RParen,
                            ]);
                        }
                    } else {
                        let c = copy_token(&queue[n - 1]);
                        queue.push(c);
                        queue.push(Token::Kleene);
                        proof {
                            assert(tokens_view(queue@) =~= q0 + seq![q0.last(), TokenModel::Kleene]);
                        }
                    }
                },
                _ => {
                    proof {
                        lemma_exp_none(tv, i + 1, tv.len() as int);
                    }
                    return Err(RegexError::MalformedRegex);
                },
            }
        } else {
            let c = copy_token(tk);
            let ghost before = queue@;
            queue.push(c);
            proof {
                lemma_view_push(before, c);
            }
        }
        i = i + 1;
    }
    let ghost qv = tokens_view(queue@);
    let mut rslt: Vec<Token> = Vec::new();
    let mut k: usize = 0;
    proof {
        assert(qv.subrange(0, 0) =~= Seq::<TokenModel>::empty());
        assert(tokens_view(rslt@) =~= Seq::<TokenModel>::empty());
    }
    while k < queue.len()
        invariant
            k <= queue@.len(),
            qv == tokens_view(queue@),
            tokens_view(rslt@) == concat_ins(qv.subrange(0, k as int)),
        decreases queue.len() - k,
    {
        let ghost sub = qv.subrange(0, k + 1);
        proof {
            assert(sub.drop_last() =~= qv.subrange(0, k as int));
            assert(sub.last() == queue@[k as int]@);
            if k > 0 {
                assert(sub[sub.len() - 2] == queue@[k - 1]@);
            }
        }
        let need = k > 0 && implicit_concat(&queue[k - 1], &queue[k]);
        if need {
            let ghost before = rslt@;
            rslt.push(Token::Concat);
            proof {
                lemma_view_push(before, Token::Concat);
            }
        }
        let c = copy_token(&queue[k]);
        let ghost before = rslt@;
        rslt.push(c);
        proof {
            lemma_view_push(before, c);
            if k == 0 {
                assert(sub =~= seq![queue@[0]@]);
                assert(tokens_view(rslt@) =~= sub);
            }
        }
        k = k + 1;
    }
    proof {
        assert(qv.subrange(0, k as int) =~= qv);
    }
    Ok(rslt)
}

/// Pops operators to the output until a `(`, which is dropped.
pub open spec fn pop_to_lparen(out: Seq<TokenModel>, st: Seq<TokenModel>) -> (Seq<TokenModel>, Seq<TokenModel>)
    decreases st.len(),
{
    if st.len() == 0 {
        (out, st)
    } else if st.last() is LParen {
        (out, st.drop_last())
    } else {
        pop_to_lparen(out.push(st.last()), st.drop_last())
    }
}

/// Pops operators of higher precedence than `p` to the output.
pub open spec fn pop_higher(out: Seq<TokenModel>, st: Seq<TokenModel>, p: nat) -> (Seq<TokenModel>, Seq<TokenModel>)
    decreases st.len(),
{
    if st.len() == 0 || prec_spec(st.last()) <= p {
        (out, st)
    } else {
        pop_higher(out.push(st.last()), st.drop_last(), p)
    }
}

/// Pops what is left on the stack to the output, dropping any `(`.
pub open spec fn flush(out: Seq<TokenModel>, st: Seq<TokenModel>) -> Seq<TokenModel>
    decreases st.len(),
{
    if st.len() == 0 {
        out
    } else if st.last() is LParen {
        flush(out, st.drop_last())
    } else {
        flush(out.push(st.last()), st.drop_last())
    }
}

/// Whether `t` is an operator of the shunting-yard stack.
pub open spec fn is_operator(t: TokenModel) -> bool {
    t is Kleene || t is Concat || t is Plus || t is Union || t is Optional
}

/// One shunting-yard step: `(` is stacked; `)` pops back to its `(`; an
/// operator pops those of higher precedence and is stacked; anything else
/// goes to the output.
pub open spec fn sy_step(out: Seq<TokenModel>, st: Seq<TokenModel>, t: TokenModel) -> (Seq<TokenModel>, Seq<TokenModel>) {
    if t is LParen {
        (out, st.push(t))
    } else if t is RParen {
        pop_to_lparen(out, st)
    } else if is_operator(t) {
        let (o, s2) = pop_higher(out, st, prec_spec(t));
        (o, s2.push(t))
    } else {
        (out.push(t), st)
    }
}

/// Output and stack after the first `i` tokens.
pub open spec fn sy_run(ts: Seq<TokenModel>, i: int) -> (Seq<TokenModel>, Seq<TokenModel>)
    decreases i,
{
    if i <= 0 {
        (Seq::empty(), Seq::empty())
    } else {
        let (o, st) = sy_run(ts, i - 1);
        sy_step(o, st, ts[i - 1])
    }
}

/// The postfix form of an infix token sequence by shunting-yard.
pub open spec fn postfix_of(ts: Seq<TokenModel>) -> Seq<TokenModel> {
    let (o, st) = sy_run(ts, ts.len() as int);
    flush(o, st)
}

/// Converts an infix token sequence to postfix with the shunting-yard
/// algorithm (star and plus 3, concatenation 2, union 1). Operands, the
/// sentinel and the empty token go straight to the output; parentheses only
/// group and are never emitted.
pub fn shunting_yard(tokens: Vec<Token>) -> (r: Vec<Token>)
    ensures
        tokens_view(r@) == postfix_of(tokens_view(tokens@)),
{
    let ghost tv = tokens_view(tokens@);
    let mut queue: Vec<Token> = Vec::new();
    let mut stack: Vec<Token> = Vec::new();
    let mut i: usize = 0;
    proof {
        assert(tokens_view(queue@) =~= Seq::<TokenModel>::empty());
        assert(tokens_view(stack@) =~= Seq::<TokenModel>::empty());
    }
    while i < tokens.len()
        invariant
            i <= tokens@.len(),
            tv == tokens_view(tokens@),
            sy_run(tv, i as int) == (tokens_view(queue@), tokens_view(stack@)),
        decreases tokens.len() - i,
    {
        let ghost o0 = tokens_view(queue@);
        let ghost s0 = tokens_view(stack@);
        let tk = copy_token(&tokens[i]);
        assert(tv[i as int] == tk@);
        assert(sy_run(tv, i + 1) == sy_step(o0, s0, tk@));
        match tk {
            Token::LParen => {
                let ghost before = stack@;
                stack.push(tk);
                proof {
                    lemma_view_push(before, Token::LParen);
                }
            },
            Token::RParen => {
                let ghost target = pop_to_lparen(o0, s0);
                let mut done = false;
                while stack.len() > 0 && !done
                    invariant
                        !done ==> pop_to_lparen(tokens_view(queue@), tokens_view(stack@)) == target,
                        done ==> (tokens_view(queue@), tokens_view(stack@)) == target,
                    decreases stack.len(),
                {
                    let ghost sb = stack@;
                    let ghost qb = queue@;
                    let last = stack.pop().unwrap();
                    proof {
                        assert(tokens_view(sb).last() == last@);
                        assert(tokens_view(sb).drop_last() =~= tokens_view(stack@));
                    }
                    if let Token::LParen = last {
                        done = true;
                    } else {
                        queue.push(last);
                        proof {
                            lemma_view_push(qb, last);
                        }
                    }
                }
                proof {
                    if !done {
                        assert(tokens_view(stack@) =~= Seq::<TokenModel>::empty());
                    }
                }
            },
            Token::Kleene | Token::Concat | Token::Plus | Token::Union | Token::Optional => {
                let p = precedence(&tk);
                let ghost target = pop_higher(o0, s0, prec_spec(tk@));
                while stack.len() > 0 && precedence(&stack[stack.len() - 1]) > p
                    invariant
                        p == prec_spec(tk@),
                        pop_higher(tokens_view(queue@), tokens_view(stack@), p as nat) == target,
                    decreases stack.len(),
                {
                    let ghost sb = stack@;
                    let ghost qb = queue@;
                    let last = stack.pop().unwrap();
                    proof {
                        assert(tokens_view(sb).last() == last@);
                        assert(tokens_view(sb).drop_last() =~= tokens_view(stack@));
                    }
                    queue.push(last);
                    proof {
                        lemma_view_push(qb, last);
                    }
                }
                proof {
                    if stack@.len() == 0 {
                        assert(tokens_view(stack@) =~= Seq::<TokenModel>::empty());
                    } else {
                        assert(tokens_view(stack@).last() == stack@[stack@.len() - 1]@);
                    }
                }
                let ghost before = stack@;
                stack.push(tk);
                proof {
                    lemma_view_push(before, tk);
                }
            },
            _ => {
                let ghost before = queue@;
                queue.push(tk);
                proof {
                    lemma_view_push(before, tk);
                }
            },
        }
        i = i + 1;
    }
    let ghost target = flush(tokens_view(queue@), tokens_view(stack@));
    while stack.len() > 0
        invariant
            flush(tokens_view(queue@), tokens_view(stack@)) == target,
        decreases stack.len(),
    {
        let ghost sb = stack@;
        let ghost qb = queue@;
        let last = stack.pop().unwrap();
        proof {
            assert(tokens_view(sb).last() == last@);
            assert(tokens_view(sb).drop_last() =~= tokens_view(stack@));
        }
        if let Token::LParen = last {
        } else {
            queue.push(last);
            proof {
                lemma_view_push(qb, last);
            }
        }
    }
    proof {
        assert(tokens_view(stack@) =~= Seq::<TokenModel>::empty());
        assert(tv =~= tokens_view(tokens@));
    }
    queue
}

/// The postfix form of `(s)#`: tokenised, expanded and converted.
pub open spec fn inf_to_pos_spec(s: Seq<char>) -> Result<Seq<TokenModel>, RegexError> {
    match tok_from(wrapped(s), 0) {
        Err(e) => Err(e),
        Ok(ts) => match expand_spec(ts) {
            Err(e) => Err(e),
            Ok(es) => Ok(postfix_of(es)),
        },
    }
}

/// The text `(s)#`.
pub open spec fn wrapped(s: Seq<char>) -> Seq<char> {
    seq!['('] + s + seq![')', '#']
}

/// Compiles a regular expression to postfix: the source is wrapped as
/// `(source)#`, tokenised, expanded and converted by shunting-yard.
pub fn inf_to_pos(input: &str) -> (r: Result<Vec<Token>, RegexError>)
    ensures
        result_view(r) == inf_to_pos_spec(input@),
{
    let mut cs: Vec<char> = Vec::new();
    cs.push('(');
    let mut body = chars_of(input);
    cs.append(&mut body);
    cs.push(')');
    cs.push('#');
    assert(cs@ =~= wrapped(input@));
    let src = string_of(&cs);
    let tokens = tokenize(src.as_str())?;
    let expanded = expand(&tokens)?;
    Ok(shunting_yard(expanded))
}

} // verus!
