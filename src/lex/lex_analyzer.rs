//! The lexer: greedy longest-match scanning with the minimised DFA, with
//! recovery over erroneous characters.
use vstd::prelude::*;
use crate::lex::dfa::{Dfa, KeyModel, TransKey};
use crate::lex::direct_afd::row_set;
use crate::text::{chars_of, string_of};
use crate::lex::tokenizer::{inf_to_pos, inf_to_pos_spec, tokens_view, RegexError, TokenModel};
use crate::lex::grammar_tree::postfix_ok;
use crate::lex::direct_afd::{direct_dfa_of, too_many_sets};
use crate::lex::minimize::{minimized_of, Minimized};
use crate::lex::grammar_tree::Tree;
use crate::lex::direct_afd::DirectAFD;
use crate::lex::minimize::minimize_dfa;
use crate::lex::yl_reader::LexerData;

verus! {

/// A scanned lexeme: its sequence number, its rule id (`!error` for an
/// erroneous span), the name the caller gives the rule, its code-point
/// offsets, the line it ends on, and its text.
#[derive(Debug, Clone)]
pub struct Symbol {
    pub id: usize,
    pub token: String,
    pub token_name: String,
    pub start: usize,
    pub end: usize,
    pub line: usize,
    pub content: String,
}

/// A line that holds an error: its number and its text as segments, the
/// erroneous ones marked.
#[derive(Debug, Clone)]
pub struct ErrorLine {
    pub line: usize,
    pub parts: Vec<(String, bool)>,
}

/// A failed scan: every symbol scanned, erroneous spans included, and the
/// lines that hold errors.
#[derive(Debug, Clone)]
pub struct LexError {
    pub symbols: Vec<Symbol>,
    pub lines: Vec<ErrorLine>,
}

/// The lexer's tables: the DFA, the rule ids in declaration order, the
/// action of each rule, and the verbatim header of the rule file.
#[derive(Debug, Clone)]
pub struct LexAnalyzer {
    pub dfa: Dfa,
    pub token_list: Vec<String>,
    pub actions: Vec<(usize, String)>,
    pub header: Vec<String>,
}

/// The rule id that marks an erroneous span.
pub open spec fn error_token() -> Seq<char> {
    seq!['!', 'e', 'r', 'r', 'o', 'r']
}

/// The number of entries of `cuts` below `index`.
pub open spec fn count_below(cuts: Seq<usize>, index: int) -> nat
    decreases cuts.len(),
{
    if cuts.len() == 0 {
        0
    } else {
        count_below(cuts.drop_last(), index) + if (cuts.last() as int) < index {
            1nat
        } else {
            0nat
        }
    }
}

/// The number of newlines among the first `e` characters of `s`.
pub open spec fn newlines_before(s: Seq<char>, e: int) -> nat
    decreases e,
{
    if e <= 0 || e > s.len() {
        0
    } else {
        newlines_before(s, e - 1) + if s[e - 1] == '\n' {
            1nat
        } else {
            0nat
        }
    }
}

impl LexAnalyzer {
    pub open spec fn wf(&self) -> bool {
        self.dfa.wf()
    }

    /// Whether column `k` leads from state `m` into an accepting state.
    pub open spec fn leads_accept(&self, m: int, k: int) -> bool {
        match self.dfa.target(m, k) {
            Some(t) => self.dfa.accept@[t as int],
            None => false,
        }
    }

    /// Whether the name `name` labels, from state `m`, a transition into an
    /// accepting state.
    pub open spec fn names_accept(&self, m: int, name: Seq<char>) -> bool {
        exists|k: int|
            0 <= k < self.dfa.keys@.len() && #[trigger] self.dfa.keys@[k]@ == KeyModel::Name(name)
                && self.leads_accept(m, k)
    }

    /// Some state of `st` has a transition on the name `name` into an
    /// accepting state.
    pub open spec fn set_names_accept(&self, st: Set<int>, name: Seq<char>) -> bool {
        exists|m: int| 0 <= m < self.dfa.n() && #[trigger] st.contains(m) && self.names_accept(m, name)
    }

    /// The first rule at or after `i` whose id labels, from a state of
    /// `st`, a transition into an accepting state.
    pub open spec fn first_kind_from(&self, st: Set<int>, i: int) -> Option<int>
        decreases self.token_list@.len() - i,
    {
        if i < 0 || i >= self.token_list@.len() {
            None
        } else if self.set_names_accept(st, self.token_list@[i]@) {
            Some(i)
        } else {
            self.first_kind_from(st, i + 1)
        }
    }

    /// The rule (an index into `token_list`) that recognises `w`: the DFA
    /// reads `w` from the start along every key that consumes each
    /// character, and the earliest declared rule whose id leads from a
    /// reached state into an accepting state wins.
    pub open spec fn kind_of(&self, w: Seq<char>) -> Option<int> {
        self.first_kind_from(self.dfa.run_set(w), 0)
    }

    /// The states reached from the start after reading `input`.
    fn leer_cadena(&self, input: &Vec<char>) -> (r: Vec<bool>)
        requires
            self.wf(),
        ensures
            r@.len() == self.dfa.n(),
            row_set(r@) == self.dfa.run_set(input@),
    {
        let row = self.start_row();
        let mut row = row;
        let mut i: usize = 0;
        proof {
            assert(input@.subrange(0, 0) =~= Seq::<char>::empty());
        }
        while i < input.len()
            invariant
                self.wf(),
                i <= input@.len(),
                row@.len() == self.dfa.n(),
                row_set(row@) == self.dfa.run_set(input@.subrange(0, i as int)),
            decreases input.len() - i,
        {
            proof {
                assert(input@.subrange(0, i + 1).drop_last() =~= input@.subrange(0, i as int));
            }
            row = self.dfa.step_row(&row, input[i]);
            i = i + 1;
        }
        assert(input@.subrange(0, i as int) =~= input@);
        row
    }

    /// The row of the start state alone.
    fn start_row(&self) -> (r: Vec<bool>)
        requires
            self.wf(),
        ensures
            r@.len() == self.dfa.n(),
            row_set(r@) == self.dfa.run_set(Seq::empty()),
    {
        let n = self.dfa.delta.len();
        let mut r: Vec<bool> = Vec::new();
        let mut i: usize = 0;
        while i < n
            invariant
                self.wf(),
                n == self.dfa.n(),
                i <= n,
                r@.len() == i,
                forall|j: int| 0 <= j < i ==> #[trigger] r@[j] == (j == self.dfa.start),
            decreases n - i,
        {
            r.push(i == self.dfa.start);
            i = i + 1;
        }
        assert(row_set(r@) =~= set![self.dfa.start as int]);
        r
    }

    /// The rule that the states of `row` recognise, if any.
    fn kind_at(&self, row: &Vec<bool>) -> (r: Option<usize>)
        requires
            self.wf(),
            row@.len() == self.dfa.n(),
        ensures
            r matches Some(k) ==> self.first_kind_from(row_set(row@), 0) == Some(k as int),
            r is None ==> self.first_kind_from(row_set(row@), 0) is None,
    {
        let ghost st = row_set(row@);
        let n = self.dfa.delta.len();
        let mut i: usize = 0;
        while i < self.token_list.len()
            invariant
                self.wf(),
                n == self.dfa.n(),
                row@.len() == n,
                st == row_set(row@),
                i <= self.token_list@.len(),
                self.first_kind_from(st, 0) == self.first_kind_from(st, i as int),
            decreases self.token_list.len() - i,
        {
            let mut found = false;
            let mut m: usize = 0;
            while m < n
                invariant
                    self.wf(),
                    n == self.dfa.n(),
                    row@.len() == n,
                    st == row_set(row@),
                    i < self.token_list@.len(),
                    m <= n,
                    found ==> self.set_names_accept(st, self.token_list@[i as int]@),
                    !found ==> forall|mm: int| 0 <= mm < m && #[trigger] st.contains(mm) ==> !self.names_accept(mm, self.token_list@[i as int]@),
                decreases n - m,
            {
                if row[m] {
                    let mut k: usize = 0;
                    let mut here = false;
                    while k < self.dfa.keys.len()
                        invariant
                            self.wf(),
                            m < self.dfa.n(),
                            i < self.token_list@.len(),
                            k <= self.dfa.keys@.len(),
                            here ==> self.names_accept(m as int, self.token_list@[i as int]@),
                            !here ==> forall|j: int| 0 <= j < k ==> !(#[trigger] self.dfa.keys@[j]@ == KeyModel::Name(self.token_list@[i as int]@)
                                && self.leads_accept(m as int, j)),
                        decreases self.dfa.keys.len() - k,
                    {
                        if !here {
                            if let TransKey::Name(nm) = &self.dfa.keys[k] {
                                if *nm == self.token_list[i] {
                                    if let Some(t) = self.dfa.delta[m][k] {
                                        proof {
                                            assert(self.dfa.delta@[m as int]@[k as int] matches Some(tt) ==> tt < self.dfa.delta@.len());
                                        }
                                        if self.dfa.accept[t] {
                                            here = true;
                                            assert(self.dfa.keys@[k as int]@ == KeyModel::Name(self.token_list@[i as int]@));
                                            assert(self.leads_accept(m as int, k as int));
                                        }
                                    }
                                }
                            }
                        }
                        k = k + 1;
                    }
                    if here {
                        found = true;
                        assert(st.contains(m as int));
                    }
                }
                m = m + 1;
            }
            if found {
                return Some(i);
            }
            i = i + 1;
        }
        None
    }

    /// The rule that recognises `input`, as an index into `token_list`.
    pub fn asignar_token(&self, input: &Vec<char>) -> (r: Option<usize>)
        requires
            self.wf(),
        ensures
            r matches Some(k) ==> self.kind_of(input@) == Some(k as int),
            r is None ==> self.kind_of(input@) is None,
    {
        let row = self.leer_cadena(input);
        self.kind_at(&row)
    }

    /// The rule id that recognises `input`, if any.
    pub fn get_token_type(&self, input: String) -> (r: Option<String>)
        requires
            self.wf(),
        ensures
            r matches Some(t) ==> self.kind_of(input@) matches Some(k) && t@ == self.token_list@[k]@,
            r is None ==> self.kind_of(input@) is None,
    {
        let cs = chars_of(input.as_str());
        match self.asignar_token(&cs) {
            Some(k) => {
                proof {
                    assert(k < self.token_list@.len()) by {
                        lemma_first_kind_bounded(self, self.dfa.run_set(cs@), 0);
                    }
                }
                Some(self.token_list[k].clone())
            },
            None => None,
        }
    }
}

/// The symbols tile the first `upto` characters: each starts where the
/// previous ended, the first at 0.
pub open spec fn tiles(syms: Seq<Symbol>, upto: int) -> bool {
    &&& syms.len() == 0 ==> upto == 0
    &&& syms.len() > 0 ==> syms[0].start == 0 && syms.last().end == upto
    &&& forall|i: int| 0 <= i < syms.len() - 1 ==> (#[trigger] syms[i]).end == syms[i + 1].start
}

/// Whether `sym` marks an erroneous span.
pub open spec fn is_error(sym: Symbol) -> bool {
    sym.token@ == error_token()
}

/// No two erroneous spans are adjacent: consecutive bad characters form one span.
pub open spec fn coalesced(syms: Seq<Symbol>) -> bool {
    forall|i: int| 0 <= i < syms.len() - 1 ==> !(is_error(#[trigger] syms[i]) && is_error(syms[i + 1]))
}

/// No lexeme starts at `p`.
pub open spec fn no_match_at(lex: &LexAnalyzer, s: Seq<char>, p: int) -> bool {
    forall|e: int| p < e <= s.len() ==> (#[trigger] lex.kind_of(s.subrange(p, e))) is None
}

/// `e` is the end of the longest lexeme that starts at `p`, and `k` its rule.
pub open spec fn longest_at(lex: &LexAnalyzer, s: Seq<char>, p: int, e: int, k: int) -> bool {
    &&& p < e <= s.len()
    &&& lex.kind_of(s.subrange(p, e)) == Some(k)
    &&& forall|e2: int| e < e2 <= s.len() ==> (#[trigger] lex.kind_of(s.subrange(p, e2))) is None
}

/// Symbol `i` of a scan of `s` is right: its text, its line, and either a
/// longest lexeme with its rule id, or a span of characters where no
/// lexeme starts.
pub open spec fn symbol_ok(lex: &LexAnalyzer, s: Seq<char>, sym: Symbol, i: int) -> bool {
    &&& sym.id == i
    &&& sym.start < sym.end <= s.len()
    &&& sym.content@ == s.subrange(sym.start as int, sym.end as int)
    &&& sym.line == newlines_before(s, sym.end as int)
    &&& sym.token_name@.len() == 0
    &&& if is_error(sym) {
        forall|p: int| sym.start <= p < sym.end ==> #[trigger] no_match_at(lex, s, p)
    } else {
        exists|k: int|
            0 <= k < lex.token_list@.len() && #[trigger] longest_at(lex, s, sym.start as int, sym.end as int, k)
                && sym.token@ == lex.token_list@[k]@
    }
}

/// The symbols are a greedy longest-match scan of `s` with error recovery.
pub open spec fn scan_ok(lex: &LexAnalyzer, s: Seq<char>, syms: Seq<Symbol>) -> bool {
    &&& tiles(syms, s.len() as int)
    &&& coalesced(syms)
    &&& forall|i: int| 0 <= i < syms.len() ==> #[trigger] symbol_ok(lex, s, syms[i], i)
}

/// Whether some symbol marks an erroneous span.
pub open spec fn has_error(syms: Seq<Symbol>) -> bool {
    exists|i: int| 0 <= i < syms.len() && #[trigger] is_error(syms[i])
}

fn error_string() -> (r: String)
    ensures
        r@ == error_token(),
{
    let mut v: Vec<char> = Vec::new();
    v.push('!');
    v.push('e');
    v.push('r');
    v.push('r');
    v.push('o');
    v.push('r');
    assert(v@ =~= error_token());
    string_of(&v)
}

/// The text of characters `a..b` of `s`.
fn slice_string(s: &Vec<char>, a: usize, b: usize) -> (r: String)
    requires
        a <= b <= s@.len(),
    ensures
        r@ == s@.subrange(a as int, b as int),
{
    let mut v: Vec<char> = Vec::new();
    let mut i: usize = a;
    while i < b
        invariant
            a <= i <= b,
            b <= s@.len(),
            v@ == s@.subrange(a as int, i as int),
        decreases b - i,
    {
        v.push(s[i]);
        i = i + 1;
        assert(v@ =~= s@.subrange(a as int, i as int));
    }
    string_of(&v)
}

impl LexAnalyzer {
    /// The longest lexeme that starts at `pos`: its end and its rule.
    fn longest_match(&self, s: &Vec<char>, pos: usize) -> (r: Option<(usize, usize)>)
        requires
            self.wf(),
            pos < s@.len(),
        ensures
            r matches Some((e, k)) ==> longest_at(self, s@, pos as int, e as int, k as int) && k < self.token_list@.len(),
            r is None ==> no_match_at(self, s@, pos as int),
    {
        let mut st = self.start_row();
        let mut best: Option<(usize, usize)> = None;
        let mut e: usize = pos;
        let n = s.len();
        proof {
            assert(s@.subrange(pos as int, pos as int) =~= Seq::<char>::empty());
        }
        while e < n
            invariant
                self.wf(),
                n == s@.len(),
                pos <= e <= n,
                st@.len() == self.dfa.n(),
                row_set(st@) == self.dfa.run_set(s@.subrange(pos as int, e as int)),
                best matches Some((be, bk)) ==> pos < be <= e && self.kind_of(s@.subrange(pos as int, be as int)) == Some(bk as int) && bk < self.token_list@.len(),
                forall|e2: int| (match best { Some((be, _)) => be as int, None => pos as int }) < e2 <= e ==> (#[trigger] self.kind_of(s@.subrange(pos as int, e2))) is None,
            decreases n - e,
        {
            proof {
                assert(s@.subrange(pos as int, e + 1).drop_last() =~= s@.subrange(pos as int, e as int));
            }
            st = self.dfa.step_row(&st, s[e]);
            e = e + 1;
            if crate::lex::direct_afd::row_is_empty(&st) {
                proof {
                    assert forall|e2: int| e <= e2 <= n implies (#[trigger] self.kind_of(s@.subrange(pos as int, e2))) is None by {
                        lemma_run_empty_extends(&self.dfa, s@.subrange(pos as int, e as int), s@.subrange(e as int, e2));
                        assert(s@.subrange(pos as int, e as int) + s@.subrange(e as int, e2) =~= s@.subrange(pos as int, e2));
                        lemma_first_kind_bounded(self, self.dfa.run_set(s@.subrange(pos as int, e2)), 0);
                    }
                }
                return best;
            }
            match self.kind_at(&st) {
                Some(k) => {
                    proof {
                        lemma_first_kind_bounded(self, row_set(st@), 0);
                    }
                    best = Some((e, k));
                },
                None => {},
            }
        }
        best
    }
}

/// The texts of the symbols on line `line`, each marked when erroneous.
pub open spec fn parts_of(syms: Seq<Symbol>, line: usize) -> Seq<(Seq<char>, bool)>
    decreases syms.len(),
{
    if syms.len() == 0 {
        Seq::empty()
    } else if syms.last().line == line {
        parts_of(syms.drop_last(), line).push((syms.last().content@, is_error(syms.last())))
    } else {
        parts_of(syms.drop_last(), line)
    }
}

/// Some erroneous symbol ends on line `line`.
pub open spec fn error_on_line(syms: Seq<Symbol>, line: usize) -> bool {
    exists|i: int| 0 <= i < syms.len() && #[trigger] is_error(syms[i]) && syms[i].line == line
}

/// The diagnostic lines: the distinct lines that hold an erroneous
/// symbol, each with the texts of all its symbols.
pub open spec fn lines_ok(syms: Seq<Symbol>, lines: Seq<ErrorLine>) -> bool {
    &&& forall|j: int| 0 <= j < lines.len() ==> error_on_line(syms, #[trigger] lines[j].line)
    &&& forall|i: int| 0 <= i < syms.len() && #[trigger] is_error(syms[i]) ==> exists|j: int| 0 <= j < lines.len() && #[trigger] lines[j].line == syms[i].line
    &&& forall|a: int, b: int| 0 <= a < b < lines.len() ==> #[trigger] lines[a].line != #[trigger] lines[b].line
    &&& forall|j: int| 0 <= j < lines.len() ==> parts_view((#[trigger] lines[j]).parts@) == parts_of(syms, lines[j].line)
}

/// The model of a list of segments.
pub open spec fn parts_view(parts: Seq<(String, bool)>) -> Seq<(Seq<char>, bool)> {
    Seq::new(parts.len(), |i: int| (parts[i].0@, parts[i].1))
}

fn is_error_exec(sym: &Symbol) -> (r: bool)
    ensures
        r == is_error(*sym),
{
    let e = error_string();
    sym.token == e
}

/// The segments of line `line`.
fn line_parts(syms: &Vec<Symbol>, line: usize) -> (r: Vec<(String, bool)>)
    ensures
        parts_view(r@) == parts_of(syms@, line),
{
    let mut r: Vec<(String, bool)> = Vec::new();
    let mut i: usize = 0;
    while i < syms.len()
        invariant
            i <= syms@.len(),
            parts_view(r@) == parts_of(syms@.subrange(0, i as int), line),
        decreases syms.len() - i,
    {
        proof {
            assert(syms@.subrange(0, i + 1).drop_last() =~= syms@.subrange(0, i as int));
        }
        if syms[i].line == line {
            let ghost old_r = r@;
            let c = syms[i].content.clone();
            let e = is_error_exec(&syms[i]);
            r.push((c, e));
            proof {
                assert(parts_view(r@) =~= parts_view(old_r).push((syms@[i as int].content@, is_error(syms@[i as int]))));
            }
        }
        i = i + 1;
    }
    assert(syms@.subrange(0, i as int) =~= syms@);
    r
}

/// For every line that holds an erroneous symbol, the line's text with the
/// erroneous parts marked.
pub fn error_lines(syms: &Vec<Symbol>) -> (r: Vec<ErrorLine>)
    ensures
        lines_ok(syms@, r@),
{
    let mut r: Vec<ErrorLine> = Vec::new();
    let mut i: usize = 0;
    while i < syms.len()
        invariant
            i <= syms@.len(),
            forall|j: int| 0 <= j < r@.len() ==> error_on_line(syms@, #[trigger] r@[j].line),
            forall|a: int| 0 <= a < i && #[trigger] is_error(syms@[a]) ==> exists|j: int| 0 <= j < r@.len() && #[trigger] r@[j].line == syms@[a].line,
            forall|a: int, b: int| 0 <= a < b < r@.len() ==> #[trigger] r@[a].line != #[trigger] r@[b].line,
            forall|j: int| 0 <= j < r@.len() ==> parts_view((#[trigger] r@[j]).parts@) == parts_of(syms@, r@[j].line),
        decreases syms.len() - i,
    {
        if is_error_exec(&syms[i]) {
            let line = syms[i].line;
            let mut listed = false;
            let mut j: usize = 0;
            while j < r.len()
                invariant
                    j <= r@.len(),
                    listed ==> exists|q: int| 0 <= q < r@.len() && #[trigger] r@[q].line == line,
                    !listed ==> forall|q: int| 0 <= q < j ==> #[trigger] r@[q].line != line,
                decreases r.len() - j,
            {
                if r[j].line == line {
                    listed = true;
                }
                j = j + 1;
            }
            if !listed {
                let parts = line_parts(syms, line);
                let ghost old_r = r@;
                r.push(ErrorLine { line, parts });
                proof {
                    assert(error_on_line(syms@, line));
                    assert(r@[old_r.len() as int].line == line);
                    assert forall|a: int| 0 <= a < i + 1 && #[trigger] is_error(syms@[a]) implies exists|j: int| 0 <= j < r@.len() && #[trigger] r@[j].line == syms@[a].line by {
                        if a < i {
                            let q = choose|q: int| 0 <= q < old_r.len() && #[trigger] old_r[q].line == syms@[a].line;
                            assert(r@[q] == old_r[q]);
                        } else {
                            assert(r@[old_r.len() as int].line == syms@[a].line);
                        }
                    }
                }
            }
        }
        i = i + 1;
    }
    r
}

impl LexAnalyzer {
    fn make_symbol(&self, s: &Vec<char>, breaks: &Vec<usize>, id: usize, token: String, start: usize, end: usize) -> (r: Symbol)
        requires
            start < end <= s@.len(),
            forall|e: int| 0 <= e <= s@.len() ==> #[trigger] count_below(breaks@, e) == newlines_before(s@, e),
        ensures
            r.id == id && r.token == token && r.start == start && r.end == end,
            r.content@ == s@.subrange(start as int, end as int),
            r.line == newlines_before(s@, end as int),
            r.token_name@.len() == 0,
    {
        let line = get_line(breaks, end);
        let content = slice_string(s, start, end);
        Symbol { id, token, token_name: String::new(), start, end, line, content }
    }

    /// Scans `input` by greedy longest match: from each offset the longest
    /// lexeme that some rule recognises becomes a symbol (the earliest
    /// declared rule wins a tie); where none starts, the characters up to
    /// the next offset where one starts form one `!error` span. Succeeds
    /// with the symbols when no span is erroneous; otherwise fails with all
    /// the symbols and the diagnostic lines.
    pub fn simulate(&self, input: String) -> (r: Result<Vec<Symbol>, LexError>)
        requires
            self.wf(),
            forall|i: int| 0 <= i < self.token_list@.len() ==> #[trigger] self.token_list@[i]@ != error_token(),
        ensures
            r matches Ok(syms) ==> scan_ok(self, input@, syms@) && !has_error(syms@),
            r matches Err(e) ==> scan_ok(self, input@, e.symbols@) && has_error(e.symbols@) && lines_ok(e.symbols@, e.lines@),
    {
        let s = chars_of(input.as_str());
        let n = s.len();
        let breaks = get_line_breaks(&s);
        let mut syms: Vec<Symbol> = Vec::new();
        let mut pos: usize = 0;
        let mut err_start: Option<usize> = None;
        let mut any_err = false;
        while pos < n
            invariant
                self.wf(),
                forall|i: int| 0 <= i < self.token_list@.len() ==> #[trigger] self.token_list@[i]@ != error_token(),
                n == s@.len(),
                s@ == input@,
                forall|e: int| 0 <= e <= s@.len() ==> #[trigger] count_below(breaks@, e) == newlines_before(s@, e),
                pos <= n,
                tiles(syms@, match err_start { Some(es) => es as int, None => pos as int }),
                err_start matches Some(es) ==> es < pos && (forall|p: int| es <= p < pos ==> #[trigger] no_match_at(self, s@, p)),
                syms@.len() > 0 ==> !is_error(syms@.last()),
                coalesced(syms@),
                forall|i: int| 0 <= i < syms@.len() ==> #[trigger] symbol_ok(self, s@, syms@[i], i),
                any_err == has_error(syms@),
            decreases n - pos,
        {
            match self.longest_match(&s, pos) {
                None => {
                    if err_start.is_none() {
                        err_start = Some(pos);
                    }
                    pos = pos + 1;
                },
                Some((e, k)) => {
                    if let Some(es) = err_start {
                        let sym = self.make_symbol(&s, &breaks, syms.len(), error_string(), es, pos);
                        let ghost old_syms = syms@;
                        syms.push(sym);
                        proof {
                            assert(is_error(syms@.last()));
                            assert forall|i: int| 0 <= i < syms@.len() implies #[trigger] symbol_ok(self, s@, syms@[i], i) by {
                                if i < old_syms.len() {
                                    assert(syms@[i] == old_syms[i]);
                                }
                            }
                            assert(has_error(syms@));
                        }
                        err_start = None;
                        any_err = true;
                    }
                    let tok = self.token_list[k].clone();
                    let sym = self.make_symbol(&s, &breaks, syms.len(), tok, pos, e);
                    let ghost old_syms = syms@;
                    syms.push(sym);
                    proof {
                        assert(!is_error(syms@.last()));
                        assert(longest_at(self, s@, pos as int, e as int, k as int));
                        assert forall|i: int| 0 <= i < syms@.len() implies #[trigger] symbol_ok(self, s@, syms@[i], i) by {
                            if i < old_syms.len() {
                                assert(syms@[i] == old_syms[i]);
                            }
                        }
                        assert(has_error(syms@) == has_error(old_syms)) by {
                            if has_error(old_syms) {
                                let i = choose|i: int| 0 <= i < old_syms.len() && #[trigger] is_error(old_syms[i]);
                                assert(syms@[i] == old_syms[i]);
                            }
                        }
                    }
                    pos = e;
                },
            }
        }
        if let Some(es) = err_start {
            let sym = self.make_symbol(&s, &breaks, syms.len(), error_string(), es, n);
            let ghost old_syms = syms@;
            syms.push(sym);
            proof {
                assert(is_error(syms@.last()));
                assert forall|i: int| 0 <= i < syms@.len() implies #[trigger] symbol_ok(self, s@, syms@[i], i) by {
                    if i < old_syms.len() {
                        assert(syms@[i] == old_syms[i]);
                    }
                }
                assert(has_error(syms@));
            }
            any_err = true;
        }
        if any_err {
            let lines = error_lines(&syms);
            Err(LexError { symbols: syms, lines })
        } else {
            Ok(syms)
        }
    }
}

proof fn lemma_first_kind_bounded(lex: &LexAnalyzer, st: Set<int>, i: int)
    ensures
        lex.first_kind_from(st, i) matches Some(k) ==> 0 <= k < lex.token_list@.len(),
        st == Set::<int>::empty() ==> lex.first_kind_from(st, i) is None,
    decreases lex.token_list@.len() - i,
{
    if 0 <= i < lex.token_list@.len() && !lex.set_names_accept(st, lex.token_list@[i]@) {
        lemma_first_kind_bounded(lex, st, i + 1);
    }
}

/// Once no state is reached, no extension of the word reaches one.
pub proof fn lemma_run_empty_extends(dfa: &Dfa, w: Seq<char>, u: Seq<char>)
    requires
        dfa.run_set(w) == Set::<int>::empty(),
    ensures
        dfa.run_set(w + u) == Set::<int>::empty(),
    decreases u.len(),
{
    if u.len() == 0 {
        assert(w + u =~= w);
    } else {
        lemma_run_empty_extends(dfa, w, u.drop_last());
        assert((w + u).drop_last() =~= w + u.drop_last());
        assert(dfa.step_set(Set::<int>::empty(), u.last()) =~= Set::<int>::empty());
    }
}

/// The offsets of the newline characters of `input`, ascending.
pub fn get_line_breaks(input: &Vec<char>) -> (r: Vec<usize>)
    ensures
        forall|e: int| 0 <= e <= input@.len() ==> #[trigger] count_below(r@, e) == newlines_before(input@, e),
{
    let mut r: Vec<usize> = Vec::new();
    let mut i: usize = 0;
    while i < input.len()
        invariant
            i <= input@.len(),
            forall|k: int| 0 <= k < r@.len() ==> #[trigger] r@[k] < i,
            forall|e: int| 0 <= e <= i ==> #[trigger] count_below(r@, e) == newlines_before(input@, e),
            forall|e: int| i <= e ==> #[trigger] count_below(r@, e) == newlines_before(input@, i as int),
        decreases input.len() - i,
    {
        let ghost old_r = r@;
        if input[i] == '\n' {
            r.push(i);
        }
        proof {
            assert(r@.len() > 0 && input@[i as int] == '\n' ==> r@.drop_last() =~= old_r);
            assert forall|e: int| 0 <= e <= i + 1 implies #[trigger] count_below(r@, e) == newlines_before(input@, e) by {
                if e == i + 1 {
                    assert(count_below(old_r, e) == newlines_before(input@, i as int));
                } else {
                    assert(count_below(old_r, e) == newlines_before(input@, e));
                }
            }
            assert forall|e: int| i + 1 <= e implies #[trigger] count_below(r@, e) == newlines_before(input@, i + 1) by {
                assert(count_below(old_r, e) == newlines_before(input@, i as int));
            }
        }
        i = i + 1;
    }
    r
}

/// The number of entries of `cuts` below `index`: with the offsets of the
/// newlines, the line that offset `index` ends.
pub fn get_line(cuts: &Vec<usize>, index: usize) -> (r: usize)
    ensures
        r == count_below(cuts@, index as int),
{
    let mut r: usize = 0;
    let mut i: usize = 0;
    while i < cuts.len()
        invariant
            i <= cuts@.len(),
            r == count_below(cuts@.subrange(0, i as int), index as int),
            r <= i,
        decreases cuts.len() - i,
    {
        proof {
            assert(cuts@.subrange(0, i + 1).drop_last() =~= cuts@.subrange(0, i as int));
        }
        if cuts[i] < index {
            r = r + 1;
        }
        i = i + 1;
    }
    assert(cuts@.subrange(0, i as int) =~= cuts@);
    r
}

/// `t` is the syntax tree of the merged rules: the tree of their postfix form.
pub open spec fn tree_of_rules(merged: Seq<char>, t: Tree) -> bool {
    &&& (inf_to_pos_spec(merged) matches Ok(post) && tokens_view(t.nodes@.map_values(|n: crate::lex::grammar_tree::TreeNode| n.value)) == post)
    &&& t.wf()
    &&& t.root is Some
    &&& t.nodes@.len() < usize::MAX
}

/// `l` is the lexer of the merged rules: the minimisation of the direct DFA
/// of their syntax tree, with the tree's named references as rule ids.
pub open spec fn lexer_of_rules(merged: Seq<char>, t: Tree, dfa: Dfa, sets: Seq<Vec<bool>>, m: Minimized, l: LexAnalyzer) -> bool {
    &&& tree_of_rules(merged, t)
    &&& direct_dfa_of(DirectAFD { syntax_tree: t }, dfa, sets, l.token_list@)
    &&& minimized_of(&dfa, m)
    &&& l.dfa == m.dfa
}

/// The merged rules compile: their postfix form is one tree, of fewer than
/// `usize::MAX` nodes, whose direct DFA stays within the state cap and
/// whose named references are never the error marker.
pub open spec fn rules_buildable(merged: Seq<char>) -> bool {
    &&& (inf_to_pos_spec(merged) matches Ok(p) && postfix_ok(p) && p.len() < usize::MAX)
    &&& forall|t: Tree| #[trigger] tree_of_rules(merged, t) ==> !too_many_sets(t.nodes@, t.root->0 as int)
        && forall|k: int| 0 <= k < crate::lex::direct_afd::names_before(t.nodes@, t.nodes@.len() as int).len()
            ==> crate::lex::direct_afd::names_before(t.nodes@, t.nodes@.len() as int)[k] != error_token()
}

/// `l` is a lexer of the merged rules, by way of some tree, direct DFA and
/// minimisation.
pub open spec fn lexer_built(merged: Seq<char>, l: LexAnalyzer) -> bool {
    exists|t: Tree, d: Dfa, ss: Seq<Vec<bool>>, m: Minimized| #[trigger] lexer_of_rules(merged, t, d, ss, m, l)
}

impl LexAnalyzer {
    /// Generates the lexer of a rule set: the merged regular expression is
    /// compiled to postfix, built into a syntax tree, turned into a DFA by
    /// the direct construction and minimised; the named references of the
    /// tree are the rule ids.
    pub fn generate(data: &LexerData) -> (r: Result<LexAnalyzer, RegexError>)
        ensures
            inf_to_pos_spec(data.merged@) matches Err(e) ==> r == Err::<LexAnalyzer, RegexError>(e),
            inf_to_pos_spec(data.merged@) matches Ok(post) && !postfix_ok(post) ==> r == Err::<LexAnalyzer, RegexError>(
                RegexError::MalformedTree,
            ),
            inf_to_pos_spec(data.merged@) is Ok && r == Err::<LexAnalyzer, RegexError>(RegexError::MalformedTree)
                ==> !postfix_ok(inf_to_pos_spec(data.merged@)->Ok_0) || inf_to_pos_spec(data.merged@)->Ok_0.len() == usize::MAX,
            inf_to_pos_spec(data.merged@) is Ok && r == Err::<LexAnalyzer, RegexError>(RegexError::TooManyStates) ==> exists|t: Tree| #[trigger] tree_of_rules(data.merged@, t)
                && too_many_sets(t.nodes@, t.root->0 as int),
            inf_to_pos_spec(data.merged@) is Ok && r == Err::<LexAnalyzer, RegexError>(RegexError::MalformedNamedRef) ==> exists|t: Tree| #[trigger] tree_of_rules(data.merged@, t)
                && exists|k: int| 0 <= k < crate::lex::direct_afd::names_before(t.nodes@, t.nodes@.len() as int).len()
                    && crate::lex::direct_afd::names_before(t.nodes@, t.nodes@.len() as int)[k] == error_token(),
            rules_buildable(data.merged@) ==> r is Ok,
            r matches Ok(l) ==> l.wf(),
            r matches Ok(l) ==> forall|i: int| 0 <= i < l.token_list@.len() ==> #[trigger] l.token_list@[i]@ != error_token(),
            r matches Ok(l) ==> lexer_built(data.merged@, l),
    {
        let post = inf_to_pos(data.merged.as_str())?;
        let ghost pv = tokens_view(post@);
        if post.len() == usize::MAX {
            return Err(RegexError::MalformedTree);
        }
        let mut tree = Tree::new();
        let _root = tree.generate(post)?;
        proof {
            assert(tokens_view(tree.nodes@.map_values(|n: crate::lex::grammar_tree::TreeNode| n.value)) =~= pv);
            assert(tree_of_rules(data.merged@, tree));
        }
        let afd = DirectAFD::new(tree);
        let (dfa, sets, names) = match afd.create_states() {
            Ok(x) => x,
            Err(e) => {
                return Err(e);
            },
        };
        let err = error_string();
        let mut i: usize = 0;
        while i < names.len()
            invariant
                i <= names@.len(),
                err@ == error_token(),
                inf_to_pos_spec(data.merged@) is Ok,
                postfix_ok(inf_to_pos_spec(data.merged@)->Ok_0),
                tree_of_rules(data.merged@, afd.syntax_tree),
                direct_dfa_of(afd, dfa, sets@, names@),
                forall|j: int| 0 <= j < i ==> #[trigger] names@[j]@ != error_token(),
            decreases names.len() - i,
        {
            if names[i] == err {
                proof {
                    assert(names@[i as int]@ == crate::lex::direct_afd::names_before(afd.syntax_tree.nodes@, afd.syntax_tree.nodes@.len() as int)[i as int]);
                }
                return Err(RegexError::MalformedNamedRef);
            }
            i = i + 1;
        }
        let min = minimize_dfa(&dfa);
        let l = LexAnalyzer { dfa: min.dfa, token_list: names, actions: data.actions.clone(), header: data.header.clone() };
        proof {
            assert(minimized_of(&dfa, min));
            assert(l.dfa.wf());
            assert(l.wf());
            assert(direct_dfa_of(DirectAFD { syntax_tree: afd.syntax_tree }, dfa, sets@, l.token_list@));
            assert(lexer_of_rules(data.merged@, afd.syntax_tree, dfa, sets@, min, l));
            assert(forall|i: int| 0 <= i < l.token_list@.len() ==> #[trigger] l.token_list@[i]@ != error_token());
            assert(lexer_built(data.merged@, l));
        }
        Ok(l)
    }
}

} // verus!
