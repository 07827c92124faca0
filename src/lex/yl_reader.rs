//! The lexer's rule set, and the reader of rule files.
use vstd::prelude::*;
use crate::lex::tokenizer::{is_name_char, name_char, special_char, RegexError};
use crate::text::{chars_of, lines_spec, split_lines, starts_with, string_of, trim, trim_spec, vecs_view};

verus! {

/// The rules merged into one regular expression, in which alternative `i`
/// is `((regex_i){i})`, the action of each rule by its id, and the verbatim
/// header of the rule file.
#[derive(Debug, Clone)]
pub struct LexerData {
    pub merged: String,
    pub actions: Vec<(usize, String)>,
    pub header: Vec<String>,
}

/// A `let` binding of the rule file: its number and its regular expression.
#[derive(Debug, Clone, PartialEq, Eq, Hash)]
pub struct LexemVar {
    pub id: u8,
    pub regex: String,
}

/// A rule of the rule file: its id, its regular expression, its action.
#[derive(Debug, Clone)]
pub struct Lexem {
    pub id: usize,
    pub regex: String,
    pub action: String,
}

fn lit(s: &str) -> (r: Vec<char>)
    ensures
        r@ == s@,
{
    chars_of(s)
}

/// Whether `c` stands for an operator in a regular expression.
fn special(c: char) -> bool {
    c == '\\' || c == '?' || c == '#' || c == '*' || c == '|' || c == '+' || c == '(' || c == ')' || c == '['
        || c == '{' || c == '%'
}

/// A `let` binding `let name = regex`: its name and its regular expression.
pub fn encode_var(line: &Vec<char>) -> (r: (Vec<char>, Vec<char>)) {
    let mut i: usize = if line.len() >= 3 { 3 } else { line.len() };
    while i < line.len() && crate::text::is_white(line[i])
        invariant
            i <= line@.len(),
        decreases line.len() - i,
    {
        i = i + 1;
    }
    let mut name: Vec<char> = Vec::new();
    while i < line.len() && line[i] != '=' && !crate::text::is_white(line[i])
        invariant
            i <= line@.len(),
        decreases line.len() - i,
    {
        name.push(line[i]);
        i = i + 1;
    }
    while i < line.len() && line[i] != '='
        invariant
            i <= line@.len(),
        decreases line.len() - i,
    {
        i = i + 1;
    }
    let mut rest: Vec<char> = Vec::new();
    if i < line.len() {
        i = i + 1;
        while i < line.len()
            invariant
                i <= line@.len(),
            decreases line.len() - i,
        {
            rest.push(line[i]);
            i = i + 1;
        }
    }
    (name, trim(&rest))
}

/// A rule `| regex { action }`: its regular expression (up to the first
/// whitespace outside brackets and quotes) and its action (inside the
/// braces).
pub fn encode_rule(line: &Vec<char>) -> (r: (Vec<char>, Vec<char>)) {
    let mut i: usize = 0;
    while i < line.len() && (crate::text::is_white(line[i]) || line[i] == '|')
        invariant
            i <= line@.len(),
        decreases line.len() - i,
    {
        i = i + 1;
    }
    let mut regex: Vec<char> = Vec::new();
    let mut quote: Option<char> = None;
    let mut bracket = false;
    while i < line.len()
        invariant
            i <= line@.len(),
        decreases line.len() - i,
    {
        let c = line[i];
        if quote.is_none() && !bracket && crate::text::is_white(c) {
            break;
        }
        if let Some(q) = quote {
            if c == q {
                quote = None;
            }
        } else if bracket {
            if c == ']' {
                bracket = false;
            }
        } else if c == '"' || c == '\'' {
            quote = Some(c);
        } else if c == '[' {
            bracket = true;
        }
        regex.push(c);
        i = i + 1;
    }
    while i < line.len() && line[i] != '{'
        invariant
            i <= line@.len(),
        decreases line.len() - i,
    {
        i = i + 1;
    }
    let mut action: Vec<char> = Vec::new();
    if i < line.len() {
        i = i + 1;
        let mut end: usize = line.len();
        while end > i && line[end - 1] != '}'
            invariant
                i <= end <= line@.len(),
            decreases end,
        {
            end = end - 1;
        }
        if end > i {
            end = end - 1;
        }
        while i < end
            invariant
                i <= end,
                end <= line@.len(),
            decreases end - i,
        {
            action.push(line[i]);
            i = i + 1;
        }
    }
    (regex, trim(&action))
}

/// The first index at or after `i` where `s` holds `c`, or its length.
pub open spec fn upto(s: Seq<char>, i: int, c: char) -> int
    decreases s.len() - i,
{
    if i < 0 || i >= s.len() || s[i] == c {
        if i < 0 { 0 } else if i > s.len() { s.len() as int } else { i }
    } else {
        upto(s, i + 1, c)
    }
}

/// The first index at or after `i` that does not hold a name character.
pub open spec fn run_end(s: Seq<char>, i: int) -> int
    decreases s.len() - i,
{
    if i < 0 || i >= s.len() || !name_char(s[i]) {
        if i < 0 { 0 } else if i > s.len() { s.len() as int } else { i }
    } else {
        run_end(s, i + 1)
    }
}

pub proof fn lemma_upto(s: Seq<char>, i: int, c: char)
    requires
        0 <= i <= s.len(),
    ensures
        i <= upto(s, i, c) <= s.len(),
        upto(s, i, c) < s.len() ==> s[upto(s, i, c)] == c,
        forall|k: int| i <= k < upto(s, i, c) ==> s[k] != c,
    decreases s.len() - i,
{
    if i < s.len() && s[i] != c {
        lemma_upto(s, i + 1, c);
    }
}

proof fn lemma_run_end(s: Seq<char>, i: int)
    requires
        0 <= i <= s.len(),
    ensures
        i <= run_end(s, i) <= s.len(),
        run_end(s, i) < s.len() ==> !name_char(s[run_end(s, i)]),
        forall|k: int| i <= k < run_end(s, i) ==> name_char(s[k]),
    decreases s.len() - i,
{
    if i < s.len() && name_char(s[i]) {
        lemma_run_end(s, i + 1);
    }
}

/// Quoted text as literal characters: operator characters escaped.
pub open spec fn escaped(t: Seq<char>) -> Seq<char>
    decreases t.len(),
{
    if t.len() == 0 {
        Seq::empty()
    } else {
        escaped(t.drop_last()) + if special_char(t.last()) {
            seq!['\\', t.last()]
        } else {
            seq![t.last()]
        }
    }
}

/// The first binding from index `k` on whose name is `nm`.
pub open spec fn lookup(names: Seq<Seq<char>>, nm: Seq<char>, k: int) -> Option<int>
    decreases names.len() - k,
{
    if k < 0 || k >= names.len() {
        None
    } else if names[k] == nm {
        Some(k)
    } else {
        lookup(names, nm, k + 1)
    }
}

proof fn lemma_lookup(names: Seq<Seq<char>>, nm: Seq<char>, k: int)
    requires
        0 <= k,
    ensures
        lookup(names, nm, k) matches Some(f) ==> k <= f < names.len(),
    decreases names.len() - k,
{
    if k < names.len() && names[k] != nm {
        lemma_lookup(names, nm, k + 1);
    }
}

/// Prepends `p` to a successful result.
pub open spec fn pre(p: Seq<char>, r: Result<Seq<char>, RegexError>) -> Result<Seq<char>, RegexError> {
    match r {
        Ok(v) => Ok(p + v),
        Err(e) => Err(e),
    }
}

/// `s` from index `i` on with every name replaced by its binding: an escape
/// `\c` and a bracket `[...]` are copied; quoted text becomes escaped
/// literal characters; a run of name characters is looked up among the
/// bindings and replaced by `(body)`, and a name with no binding is
/// `UndefinedRegexName`; any other character is copied.
pub open spec fn subst(s: Seq<char>, i: int, names: Seq<Seq<char>>, bodies: Seq<Seq<char>>) -> Result<Seq<char>, RegexError>
    decreases s.len() - i,
{
    if i < 0 || i >= s.len() {
        Ok(Seq::empty())
    } else {
        let c = s[i];
        if c == '\\' {
            if i + 1 < s.len() {
                pre(seq![c, s[i + 1]], subst(s, i + 2, names, bodies))
            } else {
                Ok(seq![c])
            }
        } else if c == '[' {
            let j = upto(s, i, ']');
            if i < j < s.len() {
                pre(s.subrange(i, j).push(']'), subst(s, j + 1, names, bodies))
            } else {
                Ok(s.subrange(i, s.len() as int))
            }
        } else if c == '"' || c == '\'' {
            let j = upto(s, i + 1, c);
            if i < j < s.len() {
                pre(escaped(s.subrange(i + 1, j)), subst(s, j + 1, names, bodies))
            } else {
                Ok(escaped(s.subrange(i + 1, s.len() as int)))
            }
        } else if name_char(c) {
            let e = run_end(s, i + 1);
            if i < e <= s.len() {
                match lookup(names, s.subrange(i, e), 0) {
                    Some(f) => pre(seq!['('] + bodies[f] + seq![')'], subst(s, e, names, bodies)),
                    None => Err(RegexError::UndefinedRegexName),
                }
            } else {
                Ok(Seq::empty())
            }
        } else {
            pre(seq![c], subst(s, i + 1, names, bodies))
        }
    }
}

proof fn lemma_pre_assoc(p: Seq<char>, q: Seq<char>, r: Result<Seq<char>, RegexError>)
    ensures
        pre(p, pre(q, r)) == pre(p + q, r),
{
    match r {
        Ok(v) => {
            assert(p + (q + v) =~= (p + q) + v);
        },
        Err(_) => {},
    }
}

/// Replaces every name outside brackets and quotes by its binding's
/// regular expression in parentheses, and turns quoted text into escaped
/// literal characters. A name with no binding is an error.
pub fn replace_vars(regex: &Vec<char>, names: &Vec<Vec<char>>, bodies: &Vec<Vec<char>>) -> (r: Result<Vec<char>, RegexError>)
    requires
        names@.len() == bodies@.len(),
    ensures
        match r {
            Ok(v) => subst(regex@, 0, vecs_view(names@), vecs_view(bodies@)) == Ok::<Seq<char>, RegexError>(v@),
            Err(e) => subst(regex@, 0, vecs_view(names@), vecs_view(bodies@)) == Err::<Seq<char>, RegexError>(e),
        },
        r is Err ==> r == Err::<Vec<char>, RegexError>(RegexError::UndefinedRegexName),
{
    let ghost s = regex@;
    let ghost nv = vecs_view(names@);
    let ghost bv = vecs_view(bodies@);
    let mut out: Vec<char> = Vec::new();
    let mut i: usize = 0;
    proof {
        assert(out@ + Seq::<char>::empty() =~= out@);
        assert(pre(out@, subst(s, 0, nv, bv)) == subst(s, 0, nv, bv)) by {
            match subst(s, 0, nv, bv) {
                Ok(v) => { assert(out@ + v =~= v); },
                Err(_) => {},
            }
        }
    }
    while i < regex.len()
        invariant
            i <= regex@.len(),
            s == regex@,
            nv == vecs_view(names@),
            bv == vecs_view(bodies@),
            names@.len() == bodies@.len(),
            pre(out@, subst(s, i as int, nv, bv)) == subst(s, 0, nv, bv),
        decreases regex.len() - i,
    {
        let ghost o0 = out@;
        let ghost i0 = i as int;
        let c = regex[i];
        if c == '\\' {
            out.push(c);
            if i + 1 < regex.len() {
                out.push(regex[i + 1]);
                i = i + 2;
                proof {
                    lemma_pre_assoc(o0, seq![c, s[i0 + 1]], subst(s, i as int, nv, bv));
                    assert(o0 + seq![c, s[i0 + 1]] =~= out@);
                }
            } else {
                i = i + 1;
                proof {
                    assert(o0 + seq![c] =~= out@);
                    assert(out@ + Seq::<char>::empty() =~= out@);
                }
            }
        } else if c == '[' {
            proof {
                lemma_upto(s, i0, ']');
                assert(out@ =~= o0 + s.subrange(i0, i as int));
            }
            while i < regex.len() && regex[i] != ']'
                invariant
                    0 <= i0 <= i <= regex@.len(),
                    i0 < regex@.len(),
                    s == regex@,
                    regex@[i0] == '[',
                    forall|k: int| i0 <= k < i ==> s[k] != ']',
                    out@ == o0 + s.subrange(i0, i as int),
                decreases regex.len() - i,
            {
                let ghost ob = out@;
                out.push(regex[i]);
                proof {
                    assert(out@ == ob.push(s[i as int]));
                    assert(s.subrange(i0, i + 1) =~= s.subrange(i0, i as int).push(s[i as int]));
                }
                i = i + 1;
                assert(out@ =~= o0 + s.subrange(i0, i as int));
            }
            proof {
                assert(upto(s, i0, ']') == i) by {
                    lemma_upto(s, i0, ']');
                }
            }
            if i < regex.len() {
                out.push(']');
                i = i + 1;
                proof {
                    lemma_pre_assoc(o0, s.subrange(i0, i - 1).push(']'), subst(s, i as int, nv, bv));
                    assert(o0 + s.subrange(i0, i - 1).push(']') =~= out@);
                }
            } else {
                proof {
                    assert(out@ + Seq::<char>::empty() =~= out@);
                }
            }
        } else if c == '"' || c == '\'' {
            i = i + 1;
            proof {
                lemma_upto(s, i0 + 1, c);
                assert(escaped(s.subrange(i0 + 1, i0 + 1)) =~= Seq::<char>::empty());
                assert(out@ =~= o0 + escaped(s.subrange(i0 + 1, i as int)));
            }
            while i < regex.len() && regex[i] != c
                invariant
                    0 <= i0 < i <= regex@.len(),
                    s == regex@,
                    forall|k: int| i0 + 1 <= k < i ==> s[k] != c,
                    out@ == o0 + escaped(s.subrange(i0 + 1, i as int)),
                decreases regex.len() - i,
            {
                let d = regex[i];
                let ghost ob = out@;
                if d == '\\' || d == '?' || d == '#' || d == '*' || d == '|' || d == '+' || d == '(' || d == ')' || d == '['
                    || d == '{' || d == '%' {
                    out.push('\\');
                }
                out.push(d);
                let ghost ii = i as int;
                i = i + 1;
                proof {
                    let sub = s.subrange(i0 + 1, ii + 1);
                    assert(sub.drop_last() =~= s.subrange(i0 + 1, ii));
                    assert(sub.last() == d);
                    assert(special_char(d) == (d == '\\' || d == '?' || d == '#' || d == '*' || d == '|' || d == '+' || d == '('
                        || d == ')' || d == '[' || d == '{' || d == '%'));
                    assert(escaped(sub) == escaped(s.subrange(i0 + 1, ii)) + if special_char(d) { seq!['\\', d] } else { seq![d] });
                    assert(out@ =~= o0 + escaped(sub));
                }
            }
            proof {
                assert(upto(s, i0 + 1, c) == i) by {
                    lemma_upto(s, i0 + 1, c);
                }
            }
            if i < regex.len() {
                i = i + 1;
                proof {
                    lemma_pre_assoc(o0, escaped(s.subrange(i0 + 1, i - 1)), subst(s, i as int, nv, bv));
                }
            } else {
                proof {
                    assert(out@ + Seq::<char>::empty() =~= out@);
                }
            }
        } else if is_name_char(c) {
            let mut name: Vec<char> = Vec::new();
            name.push(c);
            i = i + 1;
            proof {
                assert(name@ =~= s.subrange(i0, i as int));
            }
            while i < regex.len() && is_name_char(regex[i])
                invariant
                    0 <= i0 < i <= regex@.len(),
                    s == regex@,
                    forall|k: int| i0 + 1 <= k < i ==> name_char(s[k]),
                    name@ == s.subrange(i0, i as int),
                decreases regex.len() - i,
            {
                name.push(regex[i]);
                proof {
                    assert(s.subrange(i0, i + 1) =~= s.subrange(i0, i as int).push(s[i as int]));
                }
                i = i + 1;
            }
            proof {
                assert(name@ =~= s.subrange(i0, i as int));
                lemma_run_end(s, i0 + 1);
                assert(run_end(s, i0 + 1) == i) by {
                    lemma_run_end_eq(s, i0 + 1, i as int);
                }
            }
            let mut found: Option<usize> = None;
            let mut k: usize = 0;
            while k < names.len()
                invariant
                    k <= names@.len(),
                    nv == vecs_view(names@),
                    found matches Some(f) ==> lookup(nv, name@, 0) == Some(f as int),
                    found is None ==> lookup(nv, name@, 0) == lookup(nv, name@, k as int),
                decreases names.len() - k,
            {
                if found.is_none() && names[k].len() == name.len() && starts_with(&names[k], &name) {
                    proof {
                        assert(names@[k as int]@.subrange(0, name@.len() as int) =~= names@[k as int]@);
                        assert(nv[k as int] == name@);
                    }
                    found = Some(k);
                } else if found.is_none() {
                    proof {
                        if nv[k as int] == name@ {
                            assert(names@[k as int]@.subrange(0, name@.len() as int) =~= names@[k as int]@);
                        }
                    }
                }
                k = k + 1;
            }
            proof {
                lemma_lookup(nv, name@, 0);
            }
            match found {
                Some(f) => {
                    out.push('(');
                    crate::text::push_all(&mut out, &bodies[f]);
                    out.push(')');
                    proof {
                        assert(bv[f as int] == bodies@[f as int]@);
                        lemma_pre_assoc(o0, seq!['('] + bv[f as int] + seq![')'], subst(s, i as int, nv, bv));
                        assert(o0 + (seq!['('] + bv[f as int] + seq![')']) =~= out@);
                    }
                },
                None => {
                    return Err(RegexError::UndefinedRegexName);
                },
            }
        } else {
            out.push(c);
            i = i + 1;
            proof {
                lemma_pre_assoc(o0, seq![c], subst(s, i as int, nv, bv));
                assert(o0 + seq![c] =~= out@);
            }
        }
    }
    proof {
        assert(out@ + Seq::<char>::empty() =~= out@);
    }
    Ok(out)
}

proof fn lemma_run_end_eq(s: Seq<char>, i: int, e: int)
    requires
        0 <= i <= e <= s.len(),
        forall|k: int| i <= k < e ==> name_char(s[k]),
        e == s.len() || !name_char(s[e]),
    ensures
        run_end(s, i) == e,
    decreases e - i,
{
    if i < e {
        lemma_run_end_eq(s, i + 1, e);
    }
}

/// The line begins with `p`.
pub open spec fn begins(l: Seq<char>, p: Seq<char>) -> bool {
    p.len() <= l.len() && l.subrange(0, p.len() as int) == p
}

/// The section reached and the number of rules read after the first `n`
/// lines of a rule file: blank lines and `(*` comments are skipped; the
/// header (section 0) ends at `}` or at the first `let` or `rule` line;
/// bindings (section 1) end at `rule`; every later line is a rule.
pub open spec fn rule_sections(lines: Seq<Seq<char>>, n: int) -> (int, int)
    decreases n,
{
    if n <= 0 {
        (0, 0)
    } else {
        let (sec, cnt) = rule_sections(lines, n - 1);
        let l = trim_spec(lines[n - 1]);
        if l.len() == 0 || begins(l, seq!['(', '*']) {
            (sec, cnt)
        } else {
            let sec1 = if sec == 0 && (begins(l, seq!['l', 'e', 't']) || begins(l, seq!['r', 'u', 'l', 'e'])) {
                1
            } else {
                sec
            };
            if sec1 == 0 {
                if begins(l, seq!['}']) {
                    (1, cnt)
                } else {
                    (0, cnt)
                }
            } else if sec1 == 1 {
                if !begins(l, seq!['l', 'e', 't']) && begins(l, seq!['r', 'u', 'l', 'e']) {
                    (2, cnt)
                } else {
                    (1, cnt)
                }
            } else {
                (sec1, cnt + 1)
            }
        }
    }
}

/// Reads a rule file: an optional header between `{` and `}`, bindings
/// `let name = regex`, then `rule` and the rules `| regex { action }`.
/// Lines that begin with `(*` are comments. Names in a regular
/// expression are replaced by their bindings (earlier bindings may be
/// used in later ones); the rules are merged into one alternative whose
/// branch `i` is `((regex_i){i})`.
pub fn read_yalex(content: &str) -> (r: Result<LexerData, RegexError>)
    ensures
        r is Err ==> r == Err::<LexerData, RegexError>(RegexError::UndefinedRegexName),
        r matches Ok(d) ==> d.actions@.len() == rule_sections(lines_spec(content@), lines_spec(content@).len() as int).1
            && forall|i: int| 0 <= i < d.actions@.len() ==> (#[trigger] d.actions@[i]).0 == i,
{
    let text = chars_of(content);
    let lines = split_lines(&text);
    let ghost ls = vecs_view(lines@);
    let comment = lit("(*");
    let open = lit("{");
    let close = lit("}");
    let let_kw = lit("let");
    let rule_kw = lit("rule");
    proof {
        reveal_strlit("(*");
        reveal_strlit("}");
        reveal_strlit("let");
        reveal_strlit("rule");
        assert(comment@ =~= seq!['(', '*']);
        assert(close@ =~= seq!['}']);
        assert(let_kw@ =~= seq!['l', 'e', 't']);
        assert(rule_kw@ =~= seq!['r', 'u', 'l', 'e']);
    }
    let mut section: usize = 0;
    let mut header: Vec<String> = Vec::new();
    let mut names: Vec<Vec<char>> = Vec::new();
    let mut bodies: Vec<Vec<char>> = Vec::new();
    let mut regexes: Vec<Vec<char>> = Vec::new();
    let mut actions: Vec<(usize, String)> = Vec::new();
    let mut n: usize = 0;
    while n < lines.len()
        invariant
            n <= lines@.len(),
            names@.len() == bodies@.len(),
            ls == vecs_view(lines@),
            ls == lines_spec(content@),
            comment@ == seq!['(', '*'],
            close@ == seq!['}'],
            let_kw@ == seq!['l', 'e', 't'],
            rule_kw@ == seq!['r', 'u', 'l', 'e'],
            rule_sections(ls, n as int) == (section as int, actions@.len() as int),
            regexes@.len() == actions@.len(),
            forall|i: int| 0 <= i < actions@.len() ==> (#[trigger] actions@[i]).0 == i,
        decreases lines.len() - n,
    {
        proof {
            assert(ls[n as int] == lines@[n as int]@);
        }
        let line = trim(&lines[n]);
        if line.len() > 0 && !starts_with(&line, &comment) {
            if section == 0 && (starts_with(&line, &let_kw) || starts_with(&line, &rule_kw)) {
                section = 1;
            }
            if section == 0 {
                if starts_with(&line, &close) {
                    section = 1;
                } else if !starts_with(&line, &open) {
                    header.push(string_of(&line));
                }
            } else if section == 1 {
                if starts_with(&line, &let_kw) {
                    let (name, body) = encode_var(&line);
                    let expanded = replace_vars(&body, &names, &bodies)?;
                    names.push(name);
                    bodies.push(expanded);
                } else if starts_with(&line, &rule_kw) {
                    section = 2;
                }
            } else {
                let (regex, action) = encode_rule(&line);
                let expanded = replace_vars(&regex, &names, &bodies)?;
                let ghost a0 = actions@;
                actions.push((regexes.len(), string_of(&action)));
                regexes.push(expanded);
                proof {
                    assert forall|i: int| 0 <= i < actions@.len() implies (#[trigger] actions@[i]).0 == i by {
                        if i < a0.len() {
                            assert(actions@[i] == a0[i]);
                        }
                    }
                }
            }
        }
        n = n + 1;
    }
    let mut merged: Vec<char> = Vec::new();
    let mut i: usize = 0;
    while i < regexes.len()
        invariant
            i <= regexes@.len(),
        decreases regexes.len() - i,
    {
        if i > 0 {
            merged.push('|');
        }
        merged.push('(');
        merged.push('(');
        crate::text::push_all(&mut merged, &regexes[i]);
        merged.push(')');
        merged.push('{');
        let d = crate::text::decimal(i);
        crate::text::push_all(&mut merged, &d);
        merged.push('}');
        merged.push(')');
        i = i + 1;
    }
    Ok(LexerData { merged: string_of(&merged), actions, header })
}

} // verus!
