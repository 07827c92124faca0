use syntax_analyzer::lex::lex_analyzer::LexAnalyzer;
use syntax_analyzer::lex::tokenizer::RegexError;
use syntax_analyzer::lex::yl_reader::read_yalex;
use syntax_analyzer::syn::slr_automata::{augment, Element, SLR};
use syntax_analyzer::syn::lalr_automata::LALR;
use syntax_analyzer::syn::first_follow::find_first;
use syntax_analyzer::syn::yp_reader::{read_yalpar, GrammarFileError};

const GRAMMAR: &str = "/* arithmetic */\n%token id\n%token plus\nIGNORE ws\n%%\nE : E plus T | T ;\nT : id ;\n";

const RULES: &str = "(* numbers and blanks *)\n{\nuse x;\n}\nlet digit = [0-9]\nlet number = digit+\nrule tokens =\n  | number { return NUMBER }\n  | ' ' { return WS }\n";

#[test]
fn grammar_file_is_read() {
    let g = read_yalpar(GRAMMAR).unwrap();
    assert_eq!(g.terminals, vec!["id".to_string(), "plus".to_string()]);
    assert_eq!(g.ignore, vec!["ws".to_string()]);
    assert_eq!(g.init_symbol, "E");
    assert_eq!(g.non_terminals, vec!["E".to_string(), "T".to_string()]);
    assert_eq!(g.productions.len(), 2);
    assert_eq!(g.productions[0].1, vec![vec!["E".to_string(), "plus".to_string(), "T".to_string()], vec!["T".to_string()]]);
    assert_eq!(g.productions[1].1, vec![vec!["id".to_string()]]);
}

#[test]
fn malformed_token_line_is_rejected() {
    assert_eq!(read_yalpar("%token a b\n%%\n").err(), Some(GrammarFileError::MalformedToken { line: 0 }));
    assert_eq!(read_yalpar("%token a\n%%\nE id ;\n").err(), Some(GrammarFileError::MissingHead { line: 2 }));
}

#[test]
fn rule_file_is_read_and_merged() {
    let d = read_yalex(RULES).unwrap();
    assert_eq!(d.header, vec!["use x;".to_string()]);
    assert_eq!(d.merged, "(((([0-9])+)){0})|(( ){1})");
    assert_eq!(d.actions, vec![(0, "return NUMBER".to_string()), (1, "return WS".to_string())]);
    let lex = LexAnalyzer::generate(&d).unwrap();
    let syms = lex.simulate("12 3".to_string()).ok().unwrap();
    let got: Vec<(String, String)> = syms.iter().map(|s| (s.content.clone(), s.token.clone())).collect();
    assert_eq!(
        got,
        vec![("12".to_string(), "0".to_string()), (" ".to_string(), "1".to_string()), ("3".to_string(), "0".to_string())]
    );
}

#[test]
fn undefined_name_is_rejected() {
    let r = read_yalex("rule tokens =\n  | nothing { x }\n");
    assert_eq!(r.err(), Some(RegexError::UndefinedRegexName));
}

#[test]
fn lalr_states_carry_lookaheads() {
    let g = read_yalpar(GRAMMAR).unwrap();
    let prods = augment(&g);
    let mut terms = g.terminals.clone();
    terms.push("$".to_string());
    let first = find_first(&prods, &terms, &g.non_terminals);
    let mut lalr = LALR::new(&prods, &terms, &g.non_terminals, &g.init_symbol);
    lalr.generate(&first).unwrap();
    let states = lalr.states();
    assert_eq!(states[0].id, 0);
    let start = states[0].items.iter().find(|it| it.prod_id == 0 && it.dot == 0).unwrap();
    assert_eq!(start.lookahead, vec!["$".to_string()]);
    // [E → · E plus T] in state 0 sees `plus` and `$`.
    let e_item = states[0].items.iter().find(|it| it.prod_id == 1 && it.dot == 0).unwrap();
    let mut la = e_item.lookahead.clone();
    la.sort();
    assert_eq!(la, vec!["$".to_string(), "plus".to_string()]);
    assert!(states[0].transitions.iter().any(|(e, _)| *e == Element::NonTerminal("E".to_string())));
}

#[test]
fn slr_builder_api() {
    let g = read_yalpar(GRAMMAR).unwrap();
    let mut slr = SLR::new(&g);
    let a = slr.create_state(vec![(0, 0)]);
    let b = slr.create_state(vec![(0, 1)]);
    slr.add_edge(a, b, Element::NonTerminal("E".to_string()));
    assert_eq!((a, b), (0, 1));
    assert_eq!(slr.acceptance_states, vec![1]);
    assert_eq!(slr.edges.len(), 1);
    assert_eq!(slr.is_finish(1), Some(0));
    assert_eq!(slr.is_finish(0), None);
}
