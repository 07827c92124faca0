//! The table-driven shift/reduce parser.
use vstd::prelude::*;
use vstd::string::StrSliceExecFns;
use crate::lex::lex_analyzer::Symbol;
use crate::syn::slr_automata::{augment, goto_matches, prods_view, slr_built, slr_capped, slr_wants, table_of, Element, Production, SLR};
use crate::syn::lalr_automata::{lalr_capped, lalr_ok, lalr_wants, LALR};
use crate::syn::first_follow::{find_first, find_follow, first_ok, follow_ok};
use crate::syn::yp_reader::GrammarInfo;
use crate::utility::read_config::ParseMethod;

verus! {

/// An ACTION cell.
#[derive(Debug, Clone, Copy, PartialEq, Eq, Structural)]
pub enum Action {
    Shift(usize),
    Reduce(usize),
    Accept,
}

/// One ACTION entry: in `state`, on terminal `symbol`, do `action`.
#[derive(Debug, Clone, PartialEq)]
pub struct ActionEntry {
    pub state: usize,
    pub symbol: String,
    pub action: Action,
}

/// One GOTO entry: in `state`, after reducing to `symbol`, go to `target`.
#[derive(Debug, Clone, PartialEq)]
pub struct GotoEntry {
    pub state: usize,
    pub symbol: String,
    pub target: usize,
}

/// The parser's tables: the production table, ACTION, GOTO, and the token
/// kinds that the caller drops before parsing.
#[derive(Debug, Clone)]
pub struct SynAnalyzer {
    pub productions: Vec<Production>,
    pub action: Vec<ActionEntry>,
    pub goto: Vec<GotoEntry>,
    pub ignore: Vec<String>,
}

/// What a recorded parse step did.
#[derive(Debug, Clone, Copy, PartialEq, Eq, Structural)]
pub enum StepAction {
    Shift(usize),
    Reduce(usize),
    Accept,
    Error,
}

/// One step of the trace: the state stack and symbol stack before the
/// step, the index of the lookahead token, and what was done.
#[derive(Debug, Clone)]
pub struct ParsingStep {
    pub stack: Vec<usize>,
    pub symbols: Vec<String>,
    pub position: usize,
    pub action: StepAction,
}

/// Why a parse failed.
#[derive(Debug, Clone, Copy, PartialEq, Eq, Structural)]
pub enum ParseError {
    /// The first lookahead has no ACTION or GOTO entry in state 0.
    InvalidInitialToken,
    /// No ACTION entry for `state` and the token at `index`.
    SyntaxError { state: usize, index: usize },
    /// No GOTO entry after a reduction.
    MissingGoto { state: usize, production: usize },
    /// A reduction names a production that does not exist or pops more
    /// states than the stack holds.
    BadReduce { production: usize },
    /// The parse ran longer than the step limit.
    StepLimit,
}

/// How many steps a parse may take for each token of its input (and for
/// the end marker) before it gives up: a guard against tables that cycle.
pub const STEPS_PER_TOKEN: usize = 65536;

/// The most steps a parse of `n` tokens takes.
pub open spec fn step_budget(n: int) -> int {
    (n + 1) * STEPS_PER_TOKEN
}

/// Two candidates for one ACTION cell: the generator refuses to choose.
#[derive(Debug, Clone)]
pub struct GrammarConflict {
    pub state: usize,
    pub symbol: String,
    pub existing: Action,
    pub new: Action,
}

/// No two entries share a cell.
pub open spec fn unique_keys(t: Seq<ActionEntry>) -> bool {
    forall|a: int, b: int| 0 <= a < b < t.len() ==> !((#[trigger] t[a]).state == (#[trigger] t[b]).state && t[a].symbol@ == t[b].symbol@)
}

/// `t` has the entry `(s, a, x)`.
pub open spec fn has_entry(t: Seq<ActionEntry>, s: int, a: Seq<char>, x: Action) -> bool {
    exists|k: int| 0 <= k < t.len() && (#[trigger] t[k]).state == s && t[k].symbol@ == a && t[k].action == x
}

proof fn lemma_action_from(t: Seq<ActionEntry>, s: int, a: Seq<char>, i: int)
    requires
        0 <= i,
    ensures
        action_from(t, s, a, i) matches Some(x) ==> exists|k: int| i <= k < t.len() && (#[trigger] t[k]).state == s && t[k].symbol@ == a && t[k].action == x,
        action_from(t, s, a, i) is None ==> forall|k: int| i <= k < t.len() ==> !((#[trigger] t[k]).state == s && t[k].symbol@ == a),
    decreases t.len() - i,
{
    if i < t.len() && !(t[i].state == s && t[i].symbol@ == a) {
        lemma_action_from(t, s, a, i + 1);
    }
}

/// With unique cells, the lookup finds exactly the entry of the cell.
pub proof fn lemma_lookup_unique(t: Seq<ActionEntry>, s: int, a: Seq<char>, x: Action)
    requires
        unique_keys(t),
    ensures
        action_from(t, s, a, 0) == Some(x) <==> has_entry(t, s, a, x),
{
    lemma_action_from(t, s, a, 0);
    if has_entry(t, s, a, x) {
        let k = choose|k: int| 0 <= k < t.len() && (#[trigger] t[k]).state == s && t[k].symbol@ == a && t[k].action == x;
        match action_from(t, s, a, 0) {
            Some(y) => {
                let k2 = choose|k2: int| 0 <= k2 < t.len() && (#[trigger] t[k2]).state == s && t[k2].symbol@ == a && t[k2].action == y;
                if k != k2 {
                    if k < k2 {
                        assert(!((t[k]).state == (t[k2]).state && t[k].symbol@ == t[k2].symbol@));
                    } else {
                        assert(!((t[k2]).state == (t[k]).state && t[k2].symbol@ == t[k].symbol@));
                    }
                }
            },
            None => {},
        }
    }
}

/// Sets cell `(state, symbol)` to `act`. Setting a cell again to the same
/// action changes nothing; setting it to another action is a conflict.
pub fn insert_action(table: &mut Vec<ActionEntry>, state: usize, symbol: &String, act: Action) -> (r: Result<(), GrammarConflict>)
    requires
        unique_keys(old(table)@),
    ensures
        unique_keys(final(table)@),
        r is Ok ==> has_entry(final(table)@, state as int, symbol@, act),
        r is Ok ==> forall|s: int, a: Seq<char>, x: Action| #[trigger] has_entry(old(table)@, s, a, x) ==> has_entry(final(table)@, s, a, x),
        r is Ok ==> forall|k: int| 0 <= k < final(table)@.len() ==> has_entry(old(table)@, (#[trigger] final(table)@[k]).state as int, final(table)@[k].symbol@, final(table)@[k].action)
            || (final(table)@[k].state == state && final(table)@[k].symbol@ == symbol@ && final(table)@[k].action == act),
        r matches Err(c) ==> has_entry(old(table)@, state as int, symbol@, c.existing) && c.existing != act && c.new == act
            && c.state == state && c.symbol@ == symbol@,
{
    let mut k: usize = 0;
    while k < table.len()
        invariant
            k <= table@.len(),
            table@ == old(table)@,
            unique_keys(table@),
            forall|j: int| 0 <= j < k ==> !((#[trigger] table@[j]).state == state && table@[j].symbol@ == symbol@),
        decreases table.len() - k,
    {
        if table[k].state == state && table[k].symbol == *symbol {
            let existing = table[k].action;
            if existing == act {
                return Ok(());
            }
            return Err(GrammarConflict { state, symbol: symbol.clone(), existing, new: act });
        }
        k = k + 1;
    }
    let ghost before = table@;
    table.push(ActionEntry { state, symbol: symbol.clone(), action: act });
    proof {
        assert(table@[table@.len() - 1].state == state);
        assert forall|s: int, a: Seq<char>, x: Action| #[trigger] has_entry(before, s, a, x) implies has_entry(table@, s, a, x) by {
            let j = choose|j: int| 0 <= j < before.len() && (#[trigger] before[j]).state == s && before[j].symbol@ == a && before[j].action == x;
            assert(table@[j] == before[j]);
        }
        assert forall|j: int| 0 <= j < table@.len() implies has_entry(before, (#[trigger] table@[j]).state as int, table@[j].symbol@, table@[j].action)
            || (table@[j].state == state && table@[j].symbol@ == symbol@ && table@[j].action == act) by {
            if j < before.len() {
                assert(table@[j] == before[j]);
            }
        }
        assert forall|a: int, b: int| 0 <= a < b < table@.len() implies !((#[trigger] table@[a]).state == (#[trigger] table@[b]).state && table@[a].symbol@ == table@[b].symbol@) by {
            if b < before.len() {
                assert(table@[a] == before[a]);
                assert(table@[b] == before[b]);
            } else {
                assert(table@[a] == before[a]);
            }
        }
    }
    Ok(())
}

/// The column of the caret under token `idx` of a space-separated line of
/// token texts: the lengths of the earlier texts, each plus one space.
pub open spec fn offset_spec(tokens: Seq<Symbol>, idx: int) -> int
    decreases idx,
{
    if idx <= 0 || tokens.len() == 0 {
        0
    } else if idx > tokens.len() {
        offset_spec(tokens, tokens.len() as int)
    } else {
        offset_spec(tokens, idx - 1) + tokens[idx - 1].content@.len() + 1
    }
}

/// The caret column under token `error_index`, counted in code points.
pub fn compute_token_offset(tokens: &Vec<Symbol>, error_index: usize) -> (r: usize)
    requires
        offset_spec(tokens@, tokens@.len() as int) < usize::MAX,
    ensures
        r == offset_spec(tokens@, error_index as int),
{
    let mut offset: usize = 0;
    let mut i: usize = 0;
    let lim = if error_index < tokens.len() {
        error_index
    } else {
        tokens.len()
    };
    proof {
        lemma_offset_mono(tokens@, lim as int, tokens@.len() as int);
    }
    while i < lim
        invariant
            lim <= tokens@.len(),
            i <= lim,
            offset == offset_spec(tokens@, i as int),
            offset_spec(tokens@, lim as int) < usize::MAX,
        decreases lim - i,
    {
        proof {
            lemma_offset_mono(tokens@, i + 1, lim as int);
        }
        let len = tokens[i].content.as_str().unicode_len();
        offset = offset + len + 1;
        i = i + 1;
    }
    offset
}

proof fn lemma_offset_mono(tokens: Seq<Symbol>, a: int, b: int)
    requires
        0 <= a <= b <= tokens.len(),
    ensures
        offset_spec(tokens, a) <= offset_spec(tokens, b),
    decreases b - a,
{
    if a < b {
        lemma_offset_mono(tokens, a, b - 1);
    }
}

/// Segment `j` is the text of token `j`, marked when `j` is `e`.
pub open spec fn segment_ok(r: Seq<(String, bool)>, tokens: Seq<Symbol>, j: int, e: int) -> bool {
    r[j].0@ == tokens[j].content@ && r[j].1 == (j == e)
}

/// The texts of the tokens, the one at `error_index` marked: the line that
/// a syntax error is shown on.
pub fn highlight_error_token(tokens: &Vec<Symbol>, error_index: usize) -> (r: Vec<(String, bool)>)
    ensures
        r@.len() == tokens@.len(),
        forall|i: int| 0 <= i < tokens@.len() ==> #[trigger] segment_ok(r@, tokens@, i, error_index as int),
{
    let mut r: Vec<(String, bool)> = Vec::new();
    let mut i: usize = 0;
    while i < tokens.len()
        invariant
            i <= tokens@.len(),
            r@.len() == i,
            forall|j: int| 0 <= j < i ==> #[trigger] segment_ok(r@, tokens@, j, error_index as int),
        decreases tokens.len() - i,
    {
        let c = tokens[i].content.clone();
        let flag = i == error_index;
        let ghost before = r@;
        r.push((c, flag));
        proof {
            assert(r@[i as int].0@ == tokens@[i as int].content@);
            assert(r@[i as int].1 == (i == error_index));
            assert forall|j: int| 0 <= j < i + 1 implies #[trigger] segment_ok(r@, tokens@, j, error_index as int) by {
                if j < i {
                    assert(r@[j] == before[j]);
                    assert(segment_ok(before, tokens@, j, error_index as int));
                }
            }
        }
        i = i + 1;
    }
    r
}

/// The token kinds of a symbol list.
pub open spec fn kinds_of(tokens: Seq<Symbol>) -> Seq<Seq<char>> {
    Seq::new(tokens.len(), |i: int| tokens[i].token_name@)
}

/// The models of a list of strings.
pub open spec fn strs_view(v: Seq<String>) -> Seq<Seq<char>> {
    Seq::new(v.len(), |i: int| v[i]@)
}

pub(crate) fn dollar_string() -> (r: String)
    ensures
        r@ == seq!['$'],
{
    let mut v: Vec<char> = Vec::new();
    v.push('$');
    assert(v@ =~= seq!['$']);
    crate::text::string_of(&v)
}

/// The lookahead at position `pos`: the token kind there, or `$` past the end.
pub open spec fn lookahead(kinds: Seq<Seq<char>>, pos: int) -> Seq<char> {
    if 0 <= pos < kinds.len() {
        kinds[pos]
    } else {
        seq!['$']
    }
}

/// The first ACTION entry from index `i` on for `(s, a)`.
pub open spec fn action_from(table: Seq<ActionEntry>, s: int, a: Seq<char>, i: int) -> Option<Action>
    decreases table.len() - i,
{
    if i < 0 || i >= table.len() {
        None
    } else if table[i].state == s && table[i].symbol@ == a {
        Some(table[i].action)
    } else {
        action_from(table, s, a, i + 1)
    }
}

/// The first GOTO entry from index `i` on for `(s, a)`.
pub open spec fn goto_from(table: Seq<GotoEntry>, s: int, a: Seq<char>, i: int) -> Option<usize>
    decreases table.len() - i,
{
    if i < 0 || i >= table.len() {
        None
    } else if table[i].state == s && table[i].symbol@ == a {
        Some(table[i].target)
    } else {
        goto_from(table, s, a, i + 1)
    }
}

/// A parser configuration: the state stack, the symbol stack, and the
/// index of the lookahead.
pub struct ParseConfig {
    pub stack: Seq<usize>,
    pub syms: Seq<Seq<char>>,
    pub pos: int,
}

/// What one step leads to.
pub enum StepResult {
    Next(ParseConfig),
    Accepted,
    Failed(ParseError),
}

impl SynAnalyzer {
    pub open spec fn action_at(&self, s: int, a: Seq<char>) -> Option<Action> {
        action_from(self.action@, s, a, 0)
    }

    pub open spec fn goto_at(&self, s: int, a: Seq<char>) -> Option<usize> {
        goto_from(self.goto@, s, a, 0)
    }

    /// One step of the shift/reduce interpreter on the token kinds `kinds`.
    pub open spec fn step(&self, kinds: Seq<Seq<char>>, c: ParseConfig) -> StepResult {
        let s = c.stack.last();
        let a = lookahead(kinds, c.pos);
        match self.action_at(s as int, a) {
            Some(Action::Shift(t)) => StepResult::Next(
                ParseConfig { stack: c.stack.push(t), syms: c.syms.push(a), pos: c.pos + 1 },
            ),
            Some(Action::Reduce(p)) => {
                if p >= self.productions@.len() || self.productions@[p as int].body@.len()
                    >= c.stack.len() {
                    StepResult::Failed(ParseError::BadReduce { production: p })
                } else {
                    let k = self.productions@[p as int].body@.len();
                    let head = self.productions@[p as int].head@;
                    let st = c.stack.subrange(0, c.stack.len() - k);
                    match self.goto_at(st.last() as int, head) {
                        Some(g) => StepResult::Next(
                            ParseConfig {
                                stack: st.push(g),
                                syms: c.syms.subrange(0, c.syms.len() - k).push(head),
                                pos: c.pos,
                            },
                        ),
                        None => StepResult::Failed(
                            ParseError::MissingGoto { state: st.last(), production: p },
                        ),
                    }
                }
            },
            Some(Action::Accept) => StepResult::Accepted,
            None => StepResult::Failed(ParseError::SyntaxError { state: s, index: c.pos as usize }),
        }
    }

    /// The outcome of running at most `fuel` steps from `c`.
    pub open spec fn run(&self, kinds: Seq<Seq<char>>, c: ParseConfig, fuel: nat) -> Result<(), ParseError>
        decreases fuel,
    {
        if fuel == 0 {
            Err(ParseError::StepLimit)
        } else {
            match self.step(kinds, c) {
                StepResult::Next(c2) => self.run(kinds, c2, (fuel - 1) as nat),
                StepResult::Accepted => Ok(()),
                StepResult::Failed(e) => Err(e),
            }
        }
    }

    /// The outcome of parsing the token kinds `kinds`.
    pub open spec fn parse_spec(&self, kinds: Seq<Seq<char>>) -> Result<(), ParseError> {
        let a = lookahead(kinds, 0);
        if self.action_at(0, a) is None && self.goto_at(0, a) is None {
            Err(ParseError::InvalidInitialToken)
        } else {
            self.run(kinds, ParseConfig { stack: seq![0usize], syms: Seq::empty(), pos: 0 }, step_budget(kinds.len() as int) as nat)
        }
    }

    /// Parses the token list (its `token_name`s are the terminals) with the
    /// tables: state stack seeded with 0, cursor over the tokens followed by
    /// `$`; shift pushes the state and the lookahead and advances; reduce
    /// pops the production's body and pushes GOTO of the head; accept
    /// stops with success; a missing entry stops with the error. Every step
    /// is recorded in the trace.
    pub fn parse(&self, tokens: &Vec<Symbol>) -> (r: (Vec<ParsingStep>, Result<(), ParseError>))
        requires
            (tokens@.len() + 1) * (STEPS_PER_TOKEN + 1) < usize::MAX,
        ensures
            r.1 == self.parse_spec(kinds_of(tokens@)),
            r.0@.len() >= 1,
            r.1 is Ok ==> r.0@.last().action == StepAction::Accept,
            r.1 is Err ==> r.0@.last().action == StepAction::Error,
            r.1 == Err::<(), ParseError>(ParseError::InvalidInitialToken) ==> r.0@.len() == 1 && r.0@[0].position == 0
                && r.0@[0].stack@ == seq![0usize] && r.0@[0].symbols@.len() == 0,
    {
        let ghost kinds = kinds_of(tokens@);
        let dollar = dollar_string();
        let n = tokens.len();
        let mut steps: Vec<ParsingStep> = Vec::new();
        let first = if n > 0 {
            tokens[0].token_name.clone()
        } else {
            dollar.clone()
        };
        assert(first@ == lookahead(kinds, 0));
        let mut stack: Vec<usize> = Vec::new();
        stack.push(0);
        let mut syms: Vec<String> = Vec::new();
        if self.find_action(0, &first).is_none() && self.find_goto(0, &first).is_none() {
            assert(stack@ =~= seq![0usize]);
            steps.push(ParsingStep { stack, symbols: syms, position: 0, action: StepAction::Error });
            return (steps, Err(ParseError::InvalidInitialToken));
        }
        let mut pos: usize = 0;
        proof {
            assert((n + 1) * STEPS_PER_TOKEN <= (n + 1) * (STEPS_PER_TOKEN + 1)) by (nonlinear_arith);
            assert(n + (n + 1) * STEPS_PER_TOKEN <= (n + 1) * (STEPS_PER_TOKEN + 1)) by (nonlinear_arith);
        }
        let mut fuel: usize = (n + 1) * STEPS_PER_TOKEN;
        proof {
            assert(stack@ =~= seq![0usize]);
            assert(strs_view(syms@) =~= Seq::<Seq<char>>::empty());
        }
        loop
            invariant
                kinds == kinds_of(tokens@),
                n == tokens@.len(),
                dollar@ == seq!['$'],
                stack@.len() >= 1,
                syms@.len() + 1 == stack@.len(),
                pos + fuel <= n + step_budget(n as int),
                n + step_budget(n as int) < usize::MAX,
                self.run(kinds, ParseConfig { stack: stack@, syms: strs_view(syms@), pos: pos as int }, fuel as nat)
                    == self.parse_spec(kinds),
            decreases fuel,
        {
            if fuel == 0 {
                steps.push(ParsingStep { stack, symbols: syms, position: pos, action: StepAction::Error });
                return (steps, Err(ParseError::StepLimit));
            }
            let ghost c = ParseConfig { stack: stack@, syms: strs_view(syms@), pos: pos as int };
            let s = stack[stack.len() - 1];
            let a = if pos < n {
                tokens[pos].token_name.clone()
            } else {
                dollar.clone()
            };
            assert(a@ == lookahead(kinds, pos as int));
            let snapshot = ParsingStep { stack: stack.clone(), symbols: syms.clone(), position: pos, action: StepAction::Error };
            match self.find_action(s, &a) {
                Some(Action::Shift(t)) => {
                    stack.push(t);
                    syms.push(a);
                    steps.push(ParsingStep { action: StepAction::Shift(t), ..snapshot });
                    pos = pos + 1;
                    proof {
                        assert(strs_view(syms@) =~= c.syms.push(lookahead(kinds, c.pos)));
                    }
                },
                Some(Action::Reduce(p)) => {
                    if p >= self.productions.len() || self.productions[p].body.len() >= stack.len() {
                        steps.push(ParsingStep { action: StepAction::Error, ..snapshot });
                        return (steps, Err(ParseError::BadReduce { production: p }));
                    }
                    let k = self.productions[p].body.len();
                    let keep = stack.len() - k;
                    stack.truncate(keep);
                    let top = stack[stack.len() - 1];
                    let head = self.productions[p].head.clone();
                    match self.find_goto(top, &head) {
                        Some(g) => {
                            stack.push(g);
                            let sk = syms.len() - k;
                            syms.truncate(sk);
                            syms.push(head);
                            steps.push(ParsingStep { action: StepAction::Reduce(p), ..snapshot });
                            proof {
                                assert(strs_view(syms@) =~= c.syms.subrange(0, c.syms.len() - k).push(self.productions@[p as int].head@));
                                assert(stack@ =~= c.stack.subrange(0, c.stack.len() - k).push(g));
                            }
                        },
                        None => {
                            steps.push(ParsingStep { action: StepAction::Error, ..snapshot });
                            return (steps, Err(ParseError::MissingGoto { state: top, production: p }));
                        },
                    }
                },
                Some(Action::Accept) => {
                    steps.push(ParsingStep { action: StepAction::Accept, ..snapshot });
                    return (steps, Ok(()));
                },
                None => {
                    steps.push(ParsingStep { action: StepAction::Error, ..snapshot });
                    return (steps, Err(ParseError::SyntaxError { state: s, index: pos }));
                },
            }
            fuel = fuel - 1;
        }
    }

    fn find_action(&self, s: usize, a: &String) -> (r: Option<Action>)
        ensures
            r == self.action_at(s as int, a@),
    {
        let mut i: usize = 0;
        while i < self.action.len()
            invariant
                i <= self.action@.len(),
                self.action_at(s as int, a@) == action_from(self.action@, s as int, a@, i as int),
            decreases self.action.len() - i,
        {
            if self.action[i].state == s && self.action[i].symbol == *a {
                return Some(self.action[i].action);
            }
            i = i + 1;
        }
        None
    }

    fn find_goto(&self, s: usize, a: &String) -> (r: Option<usize>)
        ensures
            r == self.goto_at(s as int, a@),
    {
        let mut i: usize = 0;
        while i < self.goto.len()
            invariant
                i <= self.goto@.len(),
                self.goto_at(s as int, a@) == goto_from(self.goto@, s as int, a@, i as int),
            decreases self.goto.len() - i,
        {
            if self.goto[i].state == s && self.goto[i].symbol == *a {
                return Some(self.goto[i].target);
            }
            i = i + 1;
        }
        None
    }
}

/// Why the parsing tables could not be built.
#[derive(Debug, Clone)]
pub enum GenError {
    /// The automaton would exceed the supported number of states.
    TooManyStates,
    /// Two actions compete for one ACTION cell.
    Conflict(GrammarConflict),
}

/// The terminals of a grammar followed by `$`.
fn terminals_with_end(grammar: &GrammarInfo) -> (r: Vec<String>)
    ensures
        r@.len() == grammar.terminals@.len() + 1,
        forall|i: int| 0 <= i < grammar.terminals@.len() ==> #[trigger] r@[i]@ == grammar.terminals@[i]@,
        r@[grammar.terminals@.len() as int]@ == seq!['$'],
{
    let mut t: Vec<String> = Vec::new();
    let mut i: usize = 0;
    while i < grammar.terminals.len()
        invariant
            i <= grammar.terminals@.len(),
            t@.len() == i,
            forall|j: int| 0 <= j < i ==> #[trigger] t@[j]@ == grammar.terminals@[j]@,
        decreases grammar.terminals.len() - i,
    {
        t.push(grammar.terminals[i].clone());
        i = i + 1;
    }
    t.push(dollar_string());
    t
}

/// The tables of a parser as the flows return them.
pub open spec fn as_tables(r: Result<SynAnalyzer, GenError>) -> Result<(Vec<ActionEntry>, Vec<GotoEntry>, Vec<Production>), GenError> {
    match r {
        Ok(sa) => Ok((sa.action, sa.goto, sa.productions)),
        Err(e) => Err(e),
    }
}

/// `terms` is the grammar's terminals followed by `$`.
pub open spec fn end_terms(g: GrammarInfo, terms: Seq<String>) -> bool {
    &&& terms.len() == g.terminals@.len() + 1
    &&& forall|i: int| 0 <= i < g.terminals@.len() ==> #[trigger] terms[i]@ == g.terminals@[i]@
    &&& terms[g.terminals@.len() as int]@ == seq!['$']
}

/// The SLR inputs of grammar `g`: its terminals with `$`, FIRST, FOLLOW of
/// the start symbol's table, and the built LR(0) automaton `a` over the
/// production table of `g`.
pub open spec fn slr_setup(g: GrammarInfo, a: SLR, terms: Seq<String>, first: Seq<Vec<bool>>, follow: Seq<Vec<bool>>) -> bool {
    &&& end_terms(g, terms)
    &&& prods_view(a.productions@) == table_of(g)
    &&& first_ok(a.productions@, terms, g.non_terminals@, first)
    &&& follow_ok(a.productions@, terms, g.non_terminals@, first, g.init_symbol@, follow)
    &&& slr_built(a)
}

/// The tables hold exactly the wanted SLR entries, each cell once.
pub open spec fn slr_tables_exact(g: GrammarInfo, a: SLR, terms: Seq<String>, follow: Seq<Vec<bool>>, act: Seq<ActionEntry>, gt: Seq<GotoEntry>) -> bool {
    &&& unique_keys(act)
    &&& forall|k: int| 0 <= k < act.len() ==> slr_wants(a, follow, terms, g.non_terminals@, (#[trigger] act[k]).state as int, act[k].symbol@, act[k].action)
    &&& forall|s: int, x: Seq<char>, y: Action| #[trigger] slr_wants(a, follow, terms, g.non_terminals@, s, x, y) ==> has_entry(act, s, x, y)
    &&& goto_matches(a.edges@, gt)
}

/// What the SLR construction gives for `g`: the exact tables and the
/// production table; `TooManyStates` only when the LR(0) collection
/// exceeds the cap; `Conflict` only for two different wanted actions of
/// one cell.
pub open spec fn slr_result(g: GrammarInfo, r: Result<(Vec<ActionEntry>, Vec<GotoEntry>, Vec<Production>), GenError>) -> bool {
    match r {
        Ok((act, gt, prods)) => prods_view(prods@) == table_of(g) && exists|a: SLR, terms: Seq<String>, first: Seq<Vec<bool>>, follow: Seq<Vec<bool>>|
            #[trigger] slr_setup(g, a, terms, first, follow) && slr_tables_exact(g, a, terms, follow, act@, gt@),
        Err(GenError::TooManyStates) => exists|a: SLR| prods_view(a.productions@) == table_of(g) && #[trigger] slr_capped(a),
        Err(GenError::Conflict(c)) => exists|a: SLR, terms: Seq<String>, first: Seq<Vec<bool>>, follow: Seq<Vec<bool>>|
            #[trigger] slr_setup(g, a, terms, first, follow) && c.existing != c.new
                && slr_wants(a, follow, terms, g.non_terminals@, c.state as int, c.symbol@, c.existing)
                && slr_wants(a, follow, terms, g.non_terminals@, c.state as int, c.symbol@, c.new),
    }
}

/// The LALR inputs of grammar `g`: its terminals with `$`, FIRST, and the
/// automaton `l` with its lookaheads over the production table of `g`.
pub open spec fn lalr_setup(g: GrammarInfo, l: LALR, first: Seq<Vec<bool>>) -> bool {
    &&& end_terms(g, l.terminals@)
    &&& l.non_terminals@ == g.non_terminals@
    &&& prods_view(l.productions@) == table_of(g)
    &&& first_ok(l.productions@, l.terminals@, g.non_terminals@, first)
    &&& lalr_ok(l, first)
}

/// The tables hold exactly the wanted LALR entries, each cell once.
pub open spec fn lalr_tables_exact(l: LALR, act: Seq<ActionEntry>, gt: Seq<GotoEntry>) -> bool {
    &&& unique_keys(act)
    &&& forall|k: int| 0 <= k < act.len() ==> lalr_wants(l, (#[trigger] act[k]).state as int, act[k].symbol@, act[k].action)
    &&& forall|s: int, x: Seq<char>, y: Action| #[trigger] lalr_wants(l, s, x, y) ==> has_entry(act, s, x, y)
    &&& goto_matches(l.edges@, gt)
}

/// What the LALR construction gives for `g`, as [`slr_result`] does for SLR.
pub open spec fn lalr_result(g: GrammarInfo, r: Result<(Vec<ActionEntry>, Vec<GotoEntry>, Vec<Production>), GenError>) -> bool {
    match r {
        Ok((act, gt, prods)) => prods_view(prods@) == table_of(g) && exists|l: LALR, first: Seq<Vec<bool>>|
            #[trigger] lalr_setup(g, l, first) && lalr_tables_exact(l, act@, gt@),
        Err(GenError::TooManyStates) => exists|l: LALR| prods_view(l.productions@) == table_of(g) && #[trigger] lalr_capped(l),
        Err(GenError::Conflict(c)) => exists|l: LALR, first: Seq<Vec<bool>>|
            #[trigger] lalr_setup(g, l, first) && c.existing != c.new
                && lalr_wants(l, c.state as int, c.symbol@, c.existing) && lalr_wants(l, c.state as int, c.symbol@, c.new),
    }
}

impl SynAnalyzer {
    /// SLR(1): FIRST and FOLLOW, the LR(0) automaton, and its tables.
    pub fn slr_flow(grammar: &GrammarInfo) -> (r: Result<(Vec<ActionEntry>, Vec<GotoEntry>, Vec<Production>), GenError>)
        ensures
            slr_result(*grammar, r),
    {
        let terms = terminals_with_end(grammar);
        let nts = &grammar.non_terminals;
        let mut slr = SLR::new(grammar);
        proof {
            crate::syn::slr_automata::lemma_table_first(*grammar, slr.productions@);
        }
        let first = find_first(&slr.productions, &terms, nts);
        let follow = find_follow(&slr.productions, &terms, nts, &first, &grammar.init_symbol);
        match slr.generate() {
            Ok(()) => {},
            Err(_) => {
                proof {
                    assert(slr_capped(slr));
                }
                return Err(GenError::TooManyStates);
            },
        }
        proof {
            assert(slr_setup(*grammar, slr, terms@, first@, follow@));
        }
        match slr.build_parsing_table(&follow, &terms, nts) {
            Ok((act, gt)) => {
                proof {
                    assert(slr_tables_exact(*grammar, slr, terms@, follow@, act@, gt@));
                }
                Ok((act, gt, slr.productions))
            },
            Err(c) => Err(GenError::Conflict(c)),
        }
    }

    /// LALR(1): FIRST, the LR(0) automaton with propagated lookaheads, and
    /// its tables.
    pub fn lalr_flow(grammar: &GrammarInfo) -> (r: Result<(Vec<ActionEntry>, Vec<GotoEntry>, Vec<Production>), GenError>)
        ensures
            lalr_result(*grammar, r),
    {
        let terms = terminals_with_end(grammar);
        let nts = &grammar.non_terminals;
        let prods = augment(grammar);
        proof {
            crate::syn::slr_automata::lemma_table_first(*grammar, prods@);
        }
        let mut lalr = LALR::new(&prods, &terms, nts, &grammar.init_symbol);
        proof {
            assert(prods_view(lalr.productions@) =~~= prods_view(prods@));
        }
        let first = find_first(&lalr.productions, &terms, nts);
        match lalr.generate(&first) {
            Ok(()) => {},
            Err(_) => {
                proof {
                    assert(lalr_capped(lalr));
                }
                return Err(GenError::TooManyStates);
            },
        }
        proof {
            assert(lalr_setup(*grammar, lalr, first@));
        }
        match lalr.build_parsing_table() {
            Ok((act, gt)) => {
                proof {
                    assert(lalr_tables_exact(lalr, act@, gt@));
                }
                Ok((act, gt, prods))
            },
            Err(c) => Err(GenError::Conflict(c)),
        }
    }

    /// Builds the parser's tables for `grammar` with the chosen LR
    /// construction.
    pub fn generate(grammar: &GrammarInfo, method: ParseMethod) -> (r: Result<SynAnalyzer, GenError>)
        ensures
            method == ParseMethod::SLR ==> slr_result(*grammar, as_tables(r)),
            method == ParseMethod::LALR ==> lalr_result(*grammar, as_tables(r)),
            r matches Ok(sa) ==> sa.ignore@.len() == grammar.ignore@.len()
                && forall|i: int| 0 <= i < sa.ignore@.len() ==> #[trigger] sa.ignore@[i]@ == grammar.ignore@[i]@,
    {
        let res = match method {
            ParseMethod::SLR => Self::slr_flow(grammar),
            ParseMethod::LALR => Self::lalr_flow(grammar),
        };
        match res {
            Ok((action, goto, productions)) => {
                let mut ignore: Vec<String> = Vec::new();
                let mut i: usize = 0;
                while i < grammar.ignore.len()
                    invariant
                        i <= grammar.ignore@.len(),
                        ignore@.len() == i,
                        forall|j: int| 0 <= j < i ==> #[trigger] ignore@[j]@ == grammar.ignore@[j]@,
                    decreases grammar.ignore.len() - i,
                {
                    ignore.push(grammar.ignore[i].clone());
                    i = i + 1;
                }
                Ok(SynAnalyzer { productions, action, goto, ignore })
            },
            Err(e) => Err(e),
        }
    }
}

} // verus!
