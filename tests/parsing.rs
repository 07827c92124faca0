use syntax_analyzer::lex::lex_analyzer::Symbol;
use syntax_analyzer::syn::first_follow::{find_first, find_follow};
use syntax_analyzer::syn::slr_automata::{are_equal, augment, Element, Production, SLR};
use syntax_analyzer::syn::syn_analyzer::{
    ActionEntry, GotoEntry, compute_token_offset, highlight_error_token, Action, GenError, ParseError, StepAction, SynAnalyzer,
};
use syntax_analyzer::syn::yp_reader::GrammarInfo;
use syntax_analyzer::utility::read_config::ParseMethod;

fn s(x: &str) -> String {
    x.to_string()
}

fn alt(xs: &[&str]) -> Vec<String> {
    xs.iter().map(|x| s(x)).collect()
}

fn grammar(prods: Vec<(&str, Vec<Vec<String>>)>, terms: &[&str], nts: &[&str]) -> GrammarInfo {
    GrammarInfo {
        init_symbol: s(prods[0].0),
        productions: prods.into_iter().map(|(h, a)| (s(h), a)).collect(),
        terminals: alt(terms),
        non_terminals: alt(nts),
        ignore: vec![s("WS")],
    }
}

fn logic_grammar() -> GrammarInfo {
    grammar(
        vec![
            ("S", vec![alt(&["S", "^", "P"]), alt(&["P"])]),
            ("P", vec![alt(&["P", "v", "Q"]), alt(&["Q"])]),
            ("Q", vec![alt(&["[", "S", "]"]), alt(&["sentence"])]),
        ],
        &["^", "v", "[", "]", "sentence"],
        &["S", "P", "Q"],
    )
}

fn expr_grammar() -> GrammarInfo {
    grammar(
        vec![
            ("E", vec![alt(&["T", "E'"])]),
            ("E'", vec![alt(&["+", "T", "E'"]), alt(&[])]),
            ("T", vec![alt(&["F", "T'"])]),
            ("T'", vec![alt(&["*", "F", "T'"]), alt(&[])]),
            ("F", vec![alt(&["(", "E", ")"]), alt(&["id"])]),
        ],
        &["+", "*", "(", ")", "id"],
        &["E", "E'", "T", "T'", "F"],
    )
}

fn tokens(kinds: &[&str]) -> Vec<Symbol> {
    let mut out = Vec::new();
    let mut pos = 0;
    for (i, k) in kinds.iter().enumerate() {
        out.push(Symbol {
            id: i,
            token: s(""),
            token_name: s(k),
            start: pos,
            end: pos + k.chars().count(),
            line: 0,
            content: s(k),
        });
        pos += k.chars().count() + 1;
    }
    out
}

fn names_of(row: &[bool], terms: &[String]) -> Vec<String> {
    let mut v: Vec<String> = row.iter().zip(terms).filter(|(b, _)| **b).map(|(_, t)| t.clone()).collect();
    v.sort();
    v
}

#[test]
fn production_table_is_augmented_in_order() {
    let g = logic_grammar();
    let prods = augment(&g);
    assert_eq!(prods.len(), 7);
    assert_eq!(prods[0].head, "S'");
    assert_eq!(prods[0].body, vec![Element::NonTerminal(s("S"))]);
    assert_eq!(prods[1].head, "S");
    assert_eq!(
        prods[1].body,
        vec![Element::NonTerminal(s("S")), Element::Terminal(s("^")), Element::NonTerminal(s("P"))]
    );
    assert_eq!(prods[6].body, vec![Element::Terminal(s("sentence"))]);
}

#[test]
fn first_and_follow_of_logic_grammar() {
    let g = logic_grammar();
    let prods = augment(&g);
    let mut terms = g.terminals.clone();
    terms.push(s("$"));
    let first = find_first(&prods, &terms, &g.non_terminals);
    assert_eq!(names_of(&first[0], &terms), vec![s("["), s("sentence")]);
    let follow = find_follow(&prods, &terms, &g.non_terminals, &first, &g.init_symbol);
    assert_eq!(names_of(&follow[0], &terms), vec![s("$"), s("]"), s("^")]);
    assert_eq!(names_of(&follow[1], &terms), vec![s("$"), s("]"), s("^"), s("v")]);
    assert_eq!(names_of(&follow[2], &terms), vec![s("$"), s("]"), s("^"), s("v")]);
}

#[test]
fn slr_parse_of_bracketed_sentence() {
    let sa = SynAnalyzer::generate(&logic_grammar(), ParseMethod::SLR).ok().unwrap();
    let (steps, outcome) = sa.parse(&tokens(&["[", "sentence", "]"]));
    assert_eq!(outcome, Ok(()));
    assert_eq!(steps.last().unwrap().action, StepAction::Accept);
}

#[test]
fn slr_parse_reports_syntax_error_position() {
    let sa = SynAnalyzer::generate(&logic_grammar(), ParseMethod::SLR).ok().unwrap();
    let (steps, outcome) = sa.parse(&tokens(&["sentence", "]"]));
    match outcome {
        Err(ParseError::SyntaxError { index, .. }) => assert_eq!(index, 1),
        other => panic!("unexpected {:?}", other),
    }
    assert_eq!(steps.last().unwrap().action, StepAction::Error);
}

#[test]
fn invalid_initial_token() {
    let sa = SynAnalyzer::generate(&logic_grammar(), ParseMethod::SLR).ok().unwrap();
    let (_steps, outcome) = sa.parse(&tokens(&["]"]));
    assert_eq!(outcome, Err(ParseError::InvalidInitialToken));
}

#[test]
fn lalr_parse_of_expression() {
    let sa = SynAnalyzer::generate(&expr_grammar(), ParseMethod::LALR).ok().unwrap();
    let (steps, outcome) = sa.parse(&tokens(&["id", "+", "id", "*", "id"]));
    assert_eq!(outcome, Ok(()));
    let reductions = steps.iter().filter(|st| matches!(st.action, StepAction::Reduce(_))).count();
    // F→id three times, T'→ε twice, T'→*FT', T→FT' twice, E'→ε, E'→+TE', E→TE'.
    assert_eq!(reductions, 11);
}

#[test]
fn lalr_and_slr_agree_on_logic_grammar() {
    let slr = SynAnalyzer::generate(&logic_grammar(), ParseMethod::SLR).ok().unwrap();
    let lalr = SynAnalyzer::generate(&logic_grammar(), ParseMethod::LALR).ok().unwrap();
    for input in [vec!["[", "sentence", "]"], vec!["sentence", "^", "sentence", "v", "sentence"], vec!["sentence", "]"]] {
        let a = slr.parse(&tokens(&input)).1;
        let b = lalr.parse(&tokens(&input)).1;
        assert_eq!(a.is_ok(), b.is_ok());
    }
}

#[test]
fn ambiguous_grammar_is_a_conflict() {
    let g = grammar(vec![("E", vec![alt(&["E", "+", "E"]), alt(&["id"])])], &["+", "id"], &["E"]);
    match SynAnalyzer::generate(&g, ParseMethod::SLR) {
        Err(GenError::Conflict(c)) => {
            assert_eq!(c.symbol, "+");
            assert_ne!(c.existing, c.new);
        },
        _ => panic!("expected a conflict"),
    }
    assert!(matches!(SynAnalyzer::generate(&g, ParseMethod::LALR), Err(GenError::Conflict(_))));
}

#[test]
fn lr0_automaton_of_logic_grammar() {
    let mut slr = SLR::new(&logic_grammar());
    slr.generate().unwrap();
    assert!(slr.contents.len() > 1);
    assert_eq!(slr.acceptance_states.len(), 1);
    for i in 0..slr.contents.len() {
        for j in 0..slr.contents.len() {
            assert_eq!(are_equal(&slr.contents[i], &slr.contents[j]), i == j);
        }
    }
}

#[test]
fn accept_entry_is_on_end_marker() {
    let sa = SynAnalyzer::generate(&logic_grammar(), ParseMethod::LALR).ok().unwrap();
    let acc: Vec<_> = sa.action.iter().filter(|e| e.action == Action::Accept).collect();
    assert_eq!(acc.len(), 1);
    assert_eq!(acc[0].symbol, "$");
}

#[test]
fn caret_offset_and_highlight() {
    let toks = tokens(&["id", "+", "ab"]);
    assert_eq!(compute_token_offset(&toks, 0), 0);
    assert_eq!(compute_token_offset(&toks, 2), 5);
    assert_eq!(compute_token_offset(&toks, 9), 8);
    let h = highlight_error_token(&toks, 1);
    assert_eq!(h, vec![(s("id"), false), (s("+"), true), (s("ab"), false)]);
}

fn tables(action: Vec<(usize, &str, Action)>, goto: Vec<(usize, &str, usize)>) -> SynAnalyzer {
    SynAnalyzer {
        productions: vec![
            Production { head: s("S'"), body: vec![Element::NonTerminal(s("A"))] },
            Production { head: s("A"), body: vec![Element::Terminal(s("a"))] },
        ],
        action: action.into_iter().map(|(state, sym, a)| ActionEntry { state, symbol: s(sym), action: a }).collect(),
        goto: goto.into_iter().map(|(state, sym, target)| GotoEntry { state, symbol: s(sym), target }).collect(),
        ignore: vec![],
    }
}

#[test]
fn missing_goto_is_reported() {
    let sa = tables(vec![(0, "a", Action::Shift(1)), (1, "$", Action::Reduce(1))], vec![]);
    let (_steps, outcome) = sa.parse(&tokens(&["a"]));
    assert_eq!(outcome, Err(ParseError::MissingGoto { state: 0, production: 1 }));
}

#[test]
fn bad_reduce_is_reported() {
    let sa = tables(vec![(0, "a", Action::Reduce(5))], vec![]);
    let (_steps, outcome) = sa.parse(&tokens(&["a"]));
    assert_eq!(outcome, Err(ParseError::BadReduce { production: 5 }));
}

#[test]
fn cyclic_tables_hit_the_step_limit() {
    let sa = tables(vec![(0, "a", Action::Shift(1)), (1, "$", Action::Reduce(1))], vec![(0, "A", 1)]);
    let (steps, outcome) = sa.parse(&tokens(&["a"]));
    assert_eq!(outcome, Err(ParseError::StepLimit));
    assert!(steps.len() > 1000);
}
