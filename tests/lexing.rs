use syntax_analyzer::lex::dfa::Dfa;
use syntax_analyzer::lex::direct_afd::DirectAFD;
use syntax_analyzer::lex::grammar_tree::Tree;
use syntax_analyzer::lex::lex_analyzer::{get_line, get_line_breaks, LexAnalyzer};
use syntax_analyzer::lex::minimize::minimize_dfa;
use syntax_analyzer::lex::tokenizer::{
    check_range, expand, inf_to_pos, serialise_tokens, shunting_yard, tokenize, RegexError, Token,
};
use syntax_analyzer::lex::yl_reader::LexerData;

fn dfa_of(regex: &str) -> Dfa {
    let post = inf_to_pos(regex).unwrap();
    let mut tree = Tree::new();
    tree.generate(post).unwrap();
    let afd = DirectAFD::new(tree);
    let (dfa, _sets, _names) = afd.create_states().unwrap();
    dfa
}

fn accepts(dfa: &Dfa, word: &str) -> bool {
    let mut s = dfa.start;
    for c in word.chars() {
        match dfa.step_exec(s, c) {
            Some(t) => s = t,
            None => return false,
        }
    }
    dfa.accept[s]
}

fn lexer(merged: &str) -> LexAnalyzer {
    let data = LexerData { merged: merged.to_string(), actions: vec![], header: vec![] };
    LexAnalyzer::generate(&data).unwrap()
}

#[test]
fn tokenize_operators_and_escapes() {
    let t = tokenize("a|b*\\n[0-9]{id}#%?+").unwrap();
    assert_eq!(
        t,
        vec![
            Token::Literal('a'),
            Token::Union,
            Token::Literal('b'),
            Token::Kleene,
            Token::Literal('\n'),
            Token::Range('0', '9'),
            Token::Tokener("id".to_string()),
            Token::Sentinel,
            Token::Empty,
            Token::Optional,
            Token::Plus,
        ]
    );
}

#[test]
fn tokenize_rejects_malformed_ranges_and_names() {
    assert_eq!(tokenize("[a-"), Err(RegexError::MalformedRange));
    assert_eq!(tokenize("[z-a]"), Err(RegexError::MalformedRange));
    assert_eq!(tokenize("[a-9]"), Err(RegexError::MalformedRange));
    assert_eq!(tokenize("{}"), Err(RegexError::MalformedNamedRef));
    assert_eq!(tokenize("{a b}"), Err(RegexError::MalformedNamedRef));
    assert_eq!(tokenize("{abc"), Err(RegexError::MalformedNamedRef));
}

#[test]
fn check_range_needs_same_kind_and_order() {
    assert!(check_range('a', 'z'));
    assert!(check_range('0', '9'));
    assert!(!check_range('z', 'a'));
    assert!(!check_range('a', '9'));
}

#[test]
fn serialise_then_tokenize_round_trips() {
    let tokens = vec![
        Token::LParen,
        Token::Literal('*'),
        Token::Literal('\t'),
        Token::Literal('n'),
        Token::Union,
        Token::Range('a', 'f'),
        Token::RParen,
        Token::Kleene,
        Token::Tokener("rule_1".to_string()),
        Token::Sentinel,
    ];
    let text = serialise_tokens(&tokens);
    assert_eq!(text, "(\\*\\tn|[a-f])*{rule_1}#");
    assert_eq!(tokenize(&text), Ok(tokens));
}

#[test]
fn expand_rewrites_quantifiers_and_adds_concatenation() {
    let e = expand(&tokenize("ab?").unwrap()).unwrap();
    assert_eq!(
        e,
        vec![
            Token::Literal('a'),
            Token::Concat,
            Token::LParen,
            Token::Literal('b'),
            Token::Union,
            Token::Empty,
            Token::RParen,
        ]
    );
    let p = expand(&tokenize("(ab)+").unwrap()).unwrap();
    assert_eq!(
        p,
        vec![
            Token::LParen,
            Token::Literal('a'),
            Token::Concat,
            Token::Literal('b'),
            Token::RParen,
            Token::Concat,
            Token::LParen,
            Token::Literal('a'),
            Token::Concat,
            Token::Literal('b'),
            Token::RParen,
            Token::Kleene,
        ]
    );
    let k = expand(&tokenize("a*+").unwrap()).unwrap();
    assert_eq!(k, vec![Token::Literal('a'), Token::Kleene]);
    assert_eq!(expand(&tokenize("+a").unwrap()), Err(RegexError::MalformedRegex));
}

#[test]
fn shunting_yard_gives_postfix() {
    let post = shunting_yard(expand(&tokenize("a|bc").unwrap()).unwrap());
    assert_eq!(
        post,
        vec![Token::Literal('a'), Token::Literal('b'), Token::Literal('c'), Token::Concat, Token::Union]
    );
}

#[test]
fn inf_to_pos_appends_the_sentinel() {
    assert_eq!(inf_to_pos("a").unwrap(), vec![Token::Literal('a'), Token::Sentinel, Token::Concat]);
}

#[test]
fn tree_rejects_malformed_postfix() {
    let mut tree = Tree::new();
    assert_eq!(tree.generate(vec![Token::Concat]), Err(RegexError::MalformedTree));
    assert_eq!(tree.generate(vec![Token::Literal('a'), Token::Literal('b')]), Err(RegexError::MalformedTree));
    assert_eq!(tree.generate(vec![Token::Literal('a'), Token::Literal('b'), Token::Union]), Ok(2));
    assert_eq!(tree.get_root(), Some(2));
}

#[test]
fn nullable_and_positions() {
    let post = inf_to_pos("a*b").unwrap();
    let mut tree = Tree::new();
    let root = tree.generate(post).unwrap();
    let afd = DirectAFD::new(tree);
    let nullable = afd.find_nullable();
    // a, *, b, concat, #, concat
    assert_eq!(nullable, vec![false, true, false, false, false, false]);
    let (fp, lp) = afd.find_first_last_pos();
    assert_eq!(fp[root], vec![true, false, true, false, false, false]);
    assert_eq!(lp[root], vec![false, false, false, false, true, false]);
    let fol = afd.find_followpos();
    assert_eq!(fol[0], vec![true, false, true, false, false, false]);
    assert_eq!(fol[2], vec![false, false, false, false, true, false]);
    assert_eq!(fol[4], vec![false; 6]);
}

#[test]
fn regex_a_gives_two_state_dfa() {
    let dfa = dfa_of("a");
    let min = minimize_dfa(&dfa).dfa;
    assert_eq!(min.delta.len(), 2);
    assert!(!min.accept[min.start]);
    assert!(accepts(&min, "a"));
    assert!(!accepts(&min, ""));
    assert!(!accepts(&min, "aa"));
}

#[test]
fn regex_a_tokenises_to_the_sole_rule() {
    let lex = lexer("((a){0})");
    let syms = lex.simulate("a".to_string()).ok().unwrap();
    assert_eq!(syms.len(), 1);
    assert_eq!(syms[0].token, "0");
    assert_eq!((syms[0].start, syms[0].end), (0, 1));
    assert_eq!(syms[0].content, "a");
}

#[test]
fn regex_abb_minimises_to_four_states() {
    let dfa = dfa_of("(a|b)*abb");
    let min = minimize_dfa(&dfa).dfa;
    assert_eq!(min.delta.len(), 4);
    for w in ["abb", "aabb", "babb"] {
        assert!(accepts(&min, w), "{}", w);
        assert!(accepts(&dfa, w), "{}", w);
    }
    for w in ["ab", "abbb", ""] {
        assert!(!accepts(&min, w), "{}", w);
        assert!(!accepts(&dfa, w), "{}", w);
    }
}

#[test]
fn digits_and_whitespace_scan() {
    let lex = lexer("(([0-9]+){0})|((( |\\t)+){1})");
    let syms = lex.simulate("12 3".to_string()).ok().unwrap();
    let got: Vec<(String, String, usize, usize, usize)> =
        syms.iter().map(|s| (s.content.clone(), s.token.clone(), s.start, s.end, s.line)).collect();
    assert_eq!(
        got,
        vec![
            ("12".to_string(), "0".to_string(), 0, 2, 0),
            (" ".to_string(), "1".to_string(), 2, 3, 0),
            ("3".to_string(), "0".to_string(), 3, 4, 0),
        ]
    );
}

#[test]
fn earliest_rule_wins_a_tie() {
    let lex = lexer("((if){0})|((([a-z])+){1})");
    let syms = lex.simulate("if".to_string()).ok().unwrap();
    assert_eq!(syms.len(), 1);
    assert_eq!(syms[0].token, "0");
    let syms = lex.simulate("iff".to_string()).ok().unwrap();
    assert_eq!(syms.len(), 1);
    assert_eq!(syms[0].token, "1");
}

#[test]
fn lexical_error_is_one_span() {
    let lex = lexer("((([a-z]|[A-Z])+){0})|((( )+){1})");
    let err = lex.simulate("foo $$ bar".to_string()).err().unwrap();
    let got: Vec<(String, String)> =
        err.symbols.iter().map(|s| (s.content.clone(), s.token.clone())).collect();
    assert_eq!(
        got,
        vec![
            ("foo".to_string(), "0".to_string()),
            (" ".to_string(), "1".to_string()),
            ("$$".to_string(), "!error".to_string()),
            (" ".to_string(), "1".to_string()),
            ("bar".to_string(), "0".to_string()),
        ]
    );
    assert_eq!(err.lines.len(), 1);
    assert_eq!(err.lines[0].line, 0);
    let parts: Vec<(String, bool)> = err.lines[0].parts.clone();
    assert_eq!(
        parts,
        vec![
            ("foo".to_string(), false),
            (" ".to_string(), false),
            ("$$".to_string(), true),
            (" ".to_string(), false),
            ("bar".to_string(), false),
        ]
    );
}

#[test]
fn trailing_error_and_line_numbers() {
    let lex = lexer("((([a-z])+){0})|((\\n){1})");
    let err = lex.simulate("ab\ncd!".to_string()).err().unwrap();
    let last = err.symbols.last().unwrap();
    assert_eq!(last.token, "!error");
    assert_eq!((last.start, last.end, last.line), (5, 6, 1));
    assert_eq!(err.symbols[0].line, 0);
    assert_eq!(err.symbols[2].line, 1);
}

#[test]
fn line_breaks_and_line_lookup() {
    let chars: Vec<char> = "a\nb\n\nc".chars().collect();
    let breaks = get_line_breaks(&chars);
    assert_eq!(breaks, vec![1, 3, 4]);
    assert_eq!(get_line(&breaks, 0), 0);
    assert_eq!(get_line(&breaks, 2), 1);
    assert_eq!(get_line(&breaks, 6), 3);
}

#[test]
fn token_type_of_a_lexeme() {
    let lex = lexer("(([0-9]+){0})|((x){1})");
    assert_eq!(lex.get_token_type("42".to_string()), Some("0".to_string()));
    assert_eq!(lex.get_token_type("x".to_string()), Some("1".to_string()));
    assert_eq!(lex.get_token_type("x4".to_string()), None);
}

#[test]
fn sentinel_before_group_gets_concatenation() {
    let e = expand(&tokenize("#(a)").unwrap()).unwrap();
    assert_eq!(e, vec![Token::Sentinel, Token::Concat, Token::LParen, Token::Literal('a'), Token::RParen]);
}
