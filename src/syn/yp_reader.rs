//! The grammar model and the reader of grammar files.
use vstd::prelude::*;
use crate::text::{chars_of, lines_spec, split_lines, starts_with, string_of, trim, trim_spec, vecs_view, words, words_spec};
use crate::syn::bits::find_index;
use crate::lex::yl_reader::{lemma_upto, upto};

verus! {

/// A grammar: each head with its alternatives (each a list of symbol
/// names), in the order they were written; the declared terminals; the
/// non-terminals; the token kinds the parser ignores; the start symbol.
#[derive(Debug, Clone)]
pub struct GrammarInfo {
    pub productions: Vec<(String, Vec<Vec<String>>)>,
    pub terminals: Vec<String>,
    pub non_terminals: Vec<String>,
    pub ignore: Vec<String>,
    pub init_symbol: String,
}

/// A token declaration: its line, whether the parser ignores it, its name.
#[derive(Debug, Clone, PartialEq, Eq, Hash)]
pub struct TokenAction {
    pub id: usize,
    pub do_ignore: bool,
    pub name: String,
}

/// Why a grammar file could not be read.
#[derive(Debug, Clone, Copy, PartialEq, Eq, Structural)]
pub enum GrammarFileError {
    /// A token declaration is not two words.
    MalformedToken { line: usize },
    /// A production has no `:` after its head.
    MissingHead { line: usize },
}

/// What the lines before a point of a grammar file have declared: whether
/// the productions section is open, the terminals, the ignored tokens, and
/// the first malformed token line, if any.
pub struct TokenSection {
    pub in_prods: bool,
    pub terms: Seq<Seq<char>>,
    pub ignore: Seq<Seq<char>>,
    pub bad: Option<usize>,
}

/// The line begins with `/*`.
pub open spec fn comment_line(l: Seq<char>) -> bool {
    l.len() >= 2 && l[0] == '/' && l[1] == '*'
}

/// The line begins with `%%`.
pub open spec fn separator_line(l: Seq<char>) -> bool {
    l.len() >= 2 && l[0] == '%' && l[1] == '%'
}

/// The declarations of the first `n` lines: comments are skipped, `%%`
/// opens or closes the productions section, and before it each line of
/// two words `%token NAME` declares a terminal while any other directive
/// `D NAME` (such as `%ignore NAME`) declares an ignored token.
pub open spec fn token_section(lines: Seq<Seq<char>>, n: int) -> TokenSection
    decreases n,
{
    if n <= 0 {
        TokenSection { in_prods: false, terms: Seq::empty(), ignore: Seq::empty(), bad: None }
    } else {
        let st = token_section(lines, n - 1);
        let l = lines[n - 1];
        let w = words_spec(l);
        if st.bad is Some || comment_line(l) {
            st
        } else if separator_line(l) {
            TokenSection { in_prods: !st.in_prods, ..st }
        } else if st.in_prods || w.len() == 0 {
            st
        } else if w.len() != 2 {
            TokenSection { bad: Some((n - 1) as usize), ..st }
        } else if w[0] == token_directive() {
            TokenSection { terms: st.terms.push(w[1]), ..st }
        } else {
            TokenSection { ignore: st.ignore.push(w[1]), ..st }
        }
    }
}

proof fn lemma_section_bad(lines: Seq<Seq<char>>, n: int, m: int)
    requires
        0 <= n <= m,
        token_section(lines, n).bad is Some,
    ensures
        token_section(lines, m) == token_section(lines, n),
    decreases m - n,
{
    if n < m {
        lemma_section_bad(lines, n, m - 1);
    }
}

/// The production texts read from the first `n` lines, and the text still
/// open: in the productions section each line up to its first `;` (and a
/// space) joins the open text, and a `;` closes it.
pub open spec fn prod_section(lines: Seq<Seq<char>>, n: int) -> (Seq<char>, Seq<Seq<char>>)
    decreases n,
{
    if n <= 0 {
        (Seq::empty(), Seq::empty())
    } else {
        let (pend, texts) = prod_section(lines, n - 1);
        let l = lines[n - 1];
        if comment_line(l) || separator_line(l) || !token_section(lines, n - 1).in_prods {
            (pend, texts)
        } else {
            let e = upto(l, 0, ';');
            let p2 = pend + l.subrange(0, e).push(' ');
            if e < l.len() {
                (Seq::empty(), texts.push(p2))
            } else {
                (p2, texts)
            }
        }
    }
}

/// The texts of the production list.
pub open spec fn texts_view(t: Seq<(Vec<char>, usize)>) -> Seq<Seq<char>> {
    Seq::new(t.len(), |i: int| t[i].0@)
}

/// The models of a list of strings.
pub open spec fn strings_view(v: Seq<String>) -> Seq<Seq<char>> {
    Seq::new(v.len(), |k: int| v[k]@)
}

/// The directive that declares a terminal.
pub open spec fn token_directive() -> Seq<char> {
    seq!['%', 't', 'o', 'k', 'e', 'n']
}

fn lit(s: &str) -> (r: Vec<char>)
    ensures
        r@ == s@,
{
    chars_of(s)
}

/// Reads a token declaration `%token NAME` (or another directive, such as
/// `%ignore NAME`, which marks the token ignored); an empty line declares
/// nothing.
pub fn process_token(line: &Vec<char>, counter: usize) -> (r: Result<Option<TokenAction>, GrammarFileError>)
    ensures
        words_spec(line@).len() == 0 ==> r == Ok::<Option<TokenAction>, GrammarFileError>(None),
        words_spec(line@).len() != 0 && words_spec(line@).len() != 2 ==> r == Err::<Option<TokenAction>, GrammarFileError>(
            GrammarFileError::MalformedToken { line: counter },
        ),
        words_spec(line@).len() == 2 ==> (r matches Ok(Some(t)) && t.id == counter && t.name@ == words_spec(line@)[1]
            && t.do_ignore == (words_spec(line@)[0] != token_directive())),
{
    let w = words(line);
    if w.len() == 0 {
        return Ok(None);
    }
    if w.len() != 2 {
        return Err(GrammarFileError::MalformedToken { line: counter });
    }
    let tok = lit("%token");
    proof {
        reveal_strlit("%token");
        assert(tok@ =~= token_directive());
        assert(w@[0]@ == words_spec(line@)[0]);
        assert(w@[1]@ == words_spec(line@)[1]);
    }
    let is_token = w[0].len() == tok.len() && starts_with(&w[0], &tok);
    proof {
        if w@[0]@.len() == tok@.len() {
            assert(w@[0]@.subrange(0, tok@.len() as int) =~= w@[0]@);
        }
    }
    let name = string_of(&w[1]);
    Ok(Some(TokenAction { id: counter, do_ignore: !is_token, name }))
}

/// The symbols of one alternative; those that are not terminals join the
/// non-terminals.
fn alternative(text: &Vec<char>, non_terminals: &mut Vec<String>, terminals: &Vec<String>) -> (r: Vec<String>)
    ensures
        strings_view(r@) == words_spec(text@),
{
    let ws = words(text);
    let mut alt: Vec<String> = Vec::new();
    let mut k: usize = 0;
    while k < ws.len()
        invariant
            k <= ws@.len(),
            vecs_view(ws@) == words_spec(text@),
            alt@.len() == k,
            strings_view(alt@) == vecs_view(ws@).subrange(0, k as int),
        decreases ws.len() - k,
    {
        let sym = string_of(&ws[k]);
        if find_index(terminals, &sym).is_none() && find_index(non_terminals, &sym).is_none() {
            non_terminals.push(sym.clone());
        }
        let ghost a0 = alt@;
        alt.push(sym);
        proof {
            assert forall|i: int| 0 <= i < k + 1 implies strings_view(alt@)[i] == vecs_view(ws@).subrange(0, k + 1)[i] by {
                if i < k {
                    assert(alt@[i] == a0[i]);
                    assert(strings_view(a0)[i] == vecs_view(ws@).subrange(0, k as int)[i]);
                } else {
                    assert(alt@[i]@ == ws@[k as int]@);
                }
            }
            assert(strings_view(alt@) =~= vecs_view(ws@).subrange(0, k + 1));
        }
        k = k + 1;
    }
    proof {
        assert(vecs_view(ws@).subrange(0, k as int) =~= vecs_view(ws@));
    }
    alt
}

/// The first index at or after `i` that holds `:`, or the length.
pub open spec fn colon_at(t: Seq<char>, i: int) -> int
    decreases t.len() - i,
{
    if i < 0 || i >= t.len() || t[i] == ':' {
        if i < 0 { 0 } else if i > t.len() { t.len() as int } else { i }
    } else {
        colon_at(t, i + 1)
    }
}

/// The pieces of `t[lo..j]` between `|` characters: those completed and
/// the one in progress.
pub open spec fn bar_state(t: Seq<char>, lo: int, j: int) -> (Seq<Seq<char>>, Seq<char>)
    decreases j - lo,
{
    if j <= lo {
        (Seq::empty(), Seq::empty())
    } else {
        let (d, c) = bar_state(t, lo, j - 1);
        if t[j - 1] == '|' {
            (d.push(c), Seq::empty())
        } else {
            (d, c.push(t[j - 1]))
        }
    }
}

/// A production text `head : alt | alt | ...`: the trimmed head and the
/// words of each alternative; `None` when there is no `:`.
pub open spec fn production_spec(t: Seq<char>) -> Option<(Seq<char>, Seq<Seq<Seq<char>>>)> {
    let c = colon_at(t, 0);
    if c >= t.len() {
        None
    } else {
        let (d, last) = bar_state(t, c + 1, t.len() as int);
        let pieces = d.push(last);
        Some((trim_spec(t.subrange(0, c)), Seq::new(pieces.len(), |k: int| words_spec(pieces[k]))))
    }
}

/// The models of the alternatives of a production.
pub open spec fn alts_view(a: Seq<Vec<String>>) -> Seq<Seq<Seq<char>>> {
    Seq::new(a.len(), |k: int| strings_view(a[k]@))
}

/// Reads `head : alt | alt | ...` (without the closing `;`): the head and
/// the symbols of each alternative. Every symbol that is not a terminal,
/// and the head, join the non-terminals.
pub fn process_production(
    text: &Vec<char>,
    non_terminals: &mut Vec<String>,
    terminals: &Vec<String>,
    line: usize,
) -> (r: Result<(String, Vec<Vec<String>>), GrammarFileError>)
    ensures
        production_spec(text@) is None ==> r == Err::<(String, Vec<Vec<String>>), GrammarFileError>(
            GrammarFileError::MissingHead { line },
        ),
        production_spec(text@) matches Some((h, alts)) ==> (r matches Ok((hh, aa)) && hh@ == h && alts_view(aa@) == alts),
{
    let mut colon: usize = 0;
    while colon < text.len() && text[colon] != ':'
        invariant
            colon <= text@.len(),
            colon_at(text@, colon as int) == colon_at(text@, 0),
        decreases text.len() - colon,
    {
        colon = colon + 1;
    }
    if colon == text.len() {
        return Err(GrammarFileError::MissingHead { line });
    }
    let mut head_chars: Vec<char> = Vec::new();
    let mut i: usize = 0;
    while i < colon
        invariant
            i <= colon,
            colon < text@.len(),
            head_chars@ == text@.subrange(0, i as int),
        decreases colon - i,
    {
        head_chars.push(text[i]);
        i = i + 1;
        assert(head_chars@ =~= text@.subrange(0, i as int));
    }
    let head = string_of(&trim(&head_chars));
    if find_index(non_terminals, &head).is_none() {
        non_terminals.push(head.clone());
    }
    let mut alts: Vec<Vec<String>> = Vec::new();
    let mut cur: Vec<char> = Vec::new();
    let mut j: usize = colon + 1;
    proof {
        assert(alts_view(alts@) =~= Seq::<Seq<Seq<char>>>::empty());
        assert(cur@ =~= Seq::<char>::empty());
    }
    while j < text.len()
        invariant
            colon < j <= text@.len(),
            ({
                let (d, c) = bar_state(text@, colon + 1, j as int);
                alts_view(alts@) == Seq::new(d.len(), |k: int| words_spec(d[k])) && cur@ == c
            }),
        decreases text.len() - j,
    {
        let ghost a0 = alts@;
        let ghost c0 = cur@;
        if text[j] == '|' {
            let alt = alternative(&cur, non_terminals, terminals);
            alts.push(alt);
            cur = Vec::new();
            proof {
                let (d, c) = bar_state(text@, colon + 1, j as int);
                assert(alts_view(a0).len() == a0.len());
                assert(a0.len() == d.len());
                let want = Seq::new(d.push(c).len(), |k: int| words_spec(d.push(c)[k]));
                assert forall|k: int| 0 <= k < want.len() implies alts_view(alts@)[k] == want[k] by {
                    if k < d.len() {
                        assert(alts@[k] == a0[k]);
                        assert(alts_view(a0)[k] == words_spec(d[k]));
                    } else {
                        assert(alts@[k] == alt);
                    }
                }
                assert(alts_view(alts@) =~= want);
                assert(cur@ =~= Seq::<char>::empty());
            }
        } else {
            cur.push(text[j]);
        }
        j = j + 1;
    }
    let ghost a0 = alts@;
    let alt = alternative(&cur, non_terminals, terminals);
    alts.push(alt);
    proof {
        let (d, c) = bar_state(text@, colon + 1, text@.len() as int);
        assert(alts_view(a0).len() == a0.len());
        assert(a0.len() == d.len());
        let want = Seq::new(d.push(c).len(), |k: int| words_spec(d.push(c)[k]));
        assert forall|k: int| 0 <= k < want.len() implies alts_view(alts@)[k] == want[k] by {
            if k < d.len() {
                assert(alts@[k] == a0[k]);
                assert(alts_view(a0)[k] == words_spec(d[k]));
            } else {
                assert(alts@[k] == alt);
            }
        }
        assert(alts_view(alts@) =~= want);
    }
    Ok((head, alts))
}

/// Reads a grammar file: a token section of `%token NAME` lines (other
/// directives mark the token ignored), `%%`, and productions
/// `head : alt | ... ;`. Lines that begin with `/*` are comments. The head
/// of the first production is the start symbol.
pub fn read_yalpar(content: &str) -> (r: Result<GrammarInfo, GrammarFileError>)
    ensures
        r matches Ok(g) ==> (g.productions@.len() > 0 ==> g.init_symbol@ == g.productions@[0].0@),
        ({
            let ls = lines_spec(content@);
            let st = token_section(ls, ls.len() as int);
            &&& st.bad matches Some(b) ==> r == Err::<GrammarInfo, GrammarFileError>(GrammarFileError::MalformedToken { line: b })
            &&& r matches Ok(g) ==> strings_view(g.terminals@) == st.terms && strings_view(g.ignore@) == st.ignore
        }),
        ({
            let ls = lines_spec(content@);
            let ps = prod_section(ls, ls.len() as int).1;
            &&& r matches Ok(g) ==> g.productions@.len() == ps.len() && forall|i: int| 0 <= i < ps.len() ==>
                #[trigger] production_spec(ps[i]) == Some((g.productions@[i].0@, alts_view(g.productions@[i].1@)))
            &&& token_section(ls, ls.len() as int).bad is None && (forall|i: int| 0 <= i < ps.len() ==> (#[trigger] production_spec(ps[i])) is Some)
                ==> r is Ok
        }),
{
    let text = chars_of(content);
    let lines = split_lines(&text);
    let ghost ls = vecs_view(lines@);
    let comment = lit("/*");
    let sep = lit("%%");
    proof {
        reveal_strlit("/*");
        reveal_strlit("%%");
    }
    let mut terminals: Vec<String> = Vec::new();
    let mut ignore: Vec<String> = Vec::new();
    let mut in_prods = false;
    let mut pending: Vec<char> = Vec::new();
    let mut texts: Vec<(Vec<char>, usize)> = Vec::new();
    let mut n: usize = 0;
    proof {
        assert(strings_view(terminals@) =~= Seq::<Seq<char>>::empty());
        assert(strings_view(ignore@) =~= Seq::<Seq<char>>::empty());
    }
    while n < lines.len()
        invariant
            n <= lines@.len(),
            ls == vecs_view(lines@),
            ls == lines_spec(text@),
            text@ == content@,
            comment@ == seq!['/', '*'],
            sep@ == seq!['%', '%'],
            token_section(ls, n as int) == (TokenSection { in_prods, terms: strings_view(terminals@), ignore: strings_view(ignore@), bad: None }),
            prod_section(ls, n as int) == (pending@, texts_view(texts@)),
        decreases lines.len() - n,
    {
        let line = &lines[n];
        let ghost p0 = pending@;
        let ghost x0 = texts@;
        let ghost tv0 = terminals@;
        let ghost iv0 = ignore@;
        proof {
            assert(ls[n as int] == line@);
            if line@.len() >= 2 {
                assert(line@.subrange(0, 2) =~= seq![line@[0], line@[1]]);
            }
        }
        if !starts_with(line, &comment) {
            if starts_with(line, &sep) {
                in_prods = !in_prods;
            } else if !in_prods {
                match process_token(line, n) {
                    Ok(Some(t)) => {
                        if t.do_ignore {
                            ignore.push(t.name);
                            proof {
                                assert(strings_view(ignore@) =~= strings_view(iv0).push(words_spec(line@)[1]));
                            }
                        } else {
                            terminals.push(t.name);
                            proof {
                                assert(strings_view(terminals@) =~= strings_view(tv0).push(words_spec(line@)[1]));
                            }
                        }
                    },
                    Ok(None) => {},
                    Err(e) => {
                        proof {
                            lemma_section_bad(ls, n as int + 1, ls.len() as int);
                        }
                        return Err(e);
                    },
                }
            } else {
                let mut k: usize = 0;
                let mut ended = false;
                while k < line.len() && !ended
                    invariant
                        k <= line@.len(),
                        !ended ==> pending@ == p0 + line@.subrange(0, k as int) && forall|j: int| 0 <= j < k ==> line@[j] != ';',
                        ended ==> k >= 1 && line@[k - 1] == ';' && pending@ == p0 + line@.subrange(0, k - 1)
                            && forall|j: int| 0 <= j < k - 1 ==> line@[j] != ';',
                    decreases line.len() - k,
                {
                    if line[k] == ';' {
                        ended = true;
                    } else {
                        pending.push(line[k]);
                        assert(pending@ =~= p0 + line@.subrange(0, k + 1));
                    }
                    k = k + 1;
                }
                let ghost e: int = if ended { k - 1 } else { k as int };
                proof {
                    lemma_upto(line@, 0, ';');
                    let u = upto(line@, 0, ';');
                    if u < e {
                        assert(line@[u] == ';');
                    }
                    if ended && u > e {
                        assert(line@[e] == ';');
                    }
                    assert(u == e);
                }
                pending.push(' ');
                if ended {
                    texts.push((pending, n));
                    pending = Vec::new();
                    proof {
                        assert(texts_view(texts@) =~= texts_view(x0).push(p0 + line@.subrange(0, e).push(' ')));
                        assert(pending@ =~= Seq::<char>::empty());
                    }
                } else {
                    proof {
                        assert(pending@ =~= p0 + line@.subrange(0, e).push(' '));
                    }
                }
            }
        }
        n = n + 1;
    }
    let ghost stf = token_section(lines_spec(content@), lines_spec(content@).len() as int);
    assert(stf.bad is None && strings_view(terminals@) == stf.terms && strings_view(ignore@) == stf.ignore);
    let mut productions: Vec<(String, Vec<Vec<String>>)> = Vec::new();
    let mut non_terminals: Vec<String> = Vec::new();
    let mut i: usize = 0;
    let ghost ps = texts_view(texts@);
    assert(ps == prod_section(lines_spec(content@), lines_spec(content@).len() as int).1);
    while i < texts.len()
        invariant
            i <= texts@.len(),
            stf == token_section(lines_spec(content@), lines_spec(content@).len() as int),
            stf.bad is None && strings_view(terminals@) == stf.terms && strings_view(ignore@) == stf.ignore,
            ps == texts_view(texts@),
            ps == prod_section(lines_spec(content@), lines_spec(content@).len() as int).1,
            productions@.len() == i,
            forall|j: int| 0 <= j < i ==> #[trigger] production_spec(ps[j]) == Some((productions@[j].0@, alts_view(productions@[j].1@))),
        decreases texts.len() - i,
    {
        let (h, alts) = match process_production(&texts[i].0, &mut non_terminals, &terminals, texts[i].1) {
            Ok(x) => x,
            Err(e) => {
                proof {
                    assert(ps[i as int] == texts@[i as int].0@);
                }
                return Err(e);
            },
        };
        proof {
            assert(ps[i as int] == texts@[i as int].0@);
        }
        let ghost pr0 = productions@;
        productions.push((h, alts));
        proof {
            assert forall|j: int| 0 <= j < i + 1 implies #[trigger] production_spec(ps[j]) == Some((productions@[j].0@, alts_view(productions@[j].1@))) by {
                if j < i {
                    assert(productions@[j] == pr0[j]);
                }
            }
        }
        i = i + 1;
    }
    let init_symbol = if productions.len() > 0 {
        productions[0].0.clone()
    } else {
        String::new()
    };
    Ok(GrammarInfo { productions, terminals, non_terminals, ignore, init_symbol })
}

} // verus!
