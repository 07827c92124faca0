use syntax_analyzer::lex::direct_afd::DirectAFD;
use syntax_analyzer::lex::grammar_tree::Tree;
use syntax_analyzer::lex::tokenizer::inf_to_pos;
use syntax_analyzer::syn::slr_automata::SLR;
use syntax_analyzer::syn::yp_reader::read_yalpar;
use syntax_analyzer::view::render::get_all_states;

#[test]
fn tree_listing() {
    let mut tree = Tree::new();
    let root = tree.generate(inf_to_pos("a|b").unwrap()).unwrap();
    let text = tree.nodes[root].print_tree(&tree, root, 0, "root ");
    assert_eq!(
        text,
        "root Concat\n    L----Union\n        L----Literal('a')\n        R----Literal('b')\n    R----Sentinel\n"
    );
}

#[test]
fn state_listing() {
    let g = read_yalpar("%token id\n%%\nE : id ;\n").unwrap();
    let mut slr = SLR::new(&g);
    slr.generate().unwrap();
    assert_eq!(slr.print_state(0), "I0\n~ S' -> . E \n~ E -> . \"id\" \n");
}

#[test]
fn direct_dfa_and_state_listing() {
    let mut tree = Tree::new();
    tree.generate(inf_to_pos("ab|c").unwrap()).unwrap();
    let afd = DirectAFD::new(tree);
    let (dfa, names) = afd.generate_afd().unwrap();
    assert!(names.is_empty());
    assert_eq!(dfa.delta.len(), 3);
    let states = get_all_states(&dfa);
    let mut sorted = states.clone();
    sorted.sort();
    assert_eq!(sorted, vec![0, 1, 2]);
    assert_eq!(states[0], 0);
}
