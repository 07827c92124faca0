//! The syntax tree of a postfix regular expression, stored as an arena in
//! post-order: every node's children come before it.
use vstd::prelude::*;
use crate::lex::tokenizer::{copy_token, RegexError, Token, TokenModel};
use crate::text::{chars_of, push_all, push_str, string_of};

verus! {

/// A node of the syntax tree; children are arena indices.
#[derive(Debug, Clone, PartialEq)]
pub struct TreeNode {
    pub value: Token,
    pub left: Option<usize>,
    pub right: Option<usize>,
}

/// A syntax tree: the nodes in post-order and the root, the last node.
#[derive(Debug, Clone, PartialEq)]
pub struct Tree {
    pub nodes: Vec<TreeNode>,
    pub root: Option<usize>,
}

/// Tokens that are leaves of the tree.
pub open spec fn leaf_token(t: TokenModel) -> bool {
    t is Literal || t is Range || t is Sentinel || t is Empty || t is Tokener
}

/// Tokens that are binary operators.
pub open spec fn binary_token(t: TokenModel) -> bool {
    t is Concat || t is Union
}

/// Node `i` is well formed: its children come before it and match its arity.
pub open spec fn node_wf(nodes: Seq<TreeNode>, i: int) -> bool {
    let nd = nodes[i];
    if leaf_token(nd.value@) {
        nd.left is None && nd.right is None
    } else if binary_token(nd.value@) {
        &&& nd.left matches Some(l) && l < i
        &&& nd.right matches Some(r) && r < i
    } else if nd.value@ is Kleene {
        nd.left matches Some(l) && l < i && nd.right is None
    } else {
        false
    }
}

/// Every node of the arena is well formed.
pub open spec fn nodes_wf(nodes: Seq<TreeNode>) -> bool {
    forall|i: int| 0 <= i < nodes.len() ==> #[trigger] node_wf(nodes, i)
}

/// The first node of the subtree rooted at `j`: subtrees occupy
/// consecutive indices in post-order.
pub open spec fn sub_start(nodes: Seq<TreeNode>, j: int) -> int
    decreases j,
{
    if j < 0 || j >= nodes.len() {
        j
    } else {
        match nodes[j].left {
            Some(l) => if l < j {
                sub_start(nodes, l as int)
            } else {
                j
            },
            None => j,
        }
    }
}

/// Node `i` has the children that the stack walk gives it: the right
/// operand of a binary node is the node just before it, the left operand
/// is the node just before the right operand's subtree; a star's operand
/// is the node just before it.
pub open spec fn shape_ok(nodes: Seq<TreeNode>, i: int) -> bool {
    let nd = nodes[i];
    &&& binary_token(nd.value@) ==> nd.right == Some((i - 1) as usize) && nd.left == Some((sub_start(nodes, i - 1) - 1) as usize)
    &&& nd.value@ is Kleene ==> nd.left == Some((i - 1) as usize)
}

proof fn lemma_sub_start_push(nodes: Seq<TreeNode>, x: TreeNode, j: int)
    requires
        0 <= j < nodes.len(),
    ensures
        sub_start(nodes.push(x), j) == sub_start(nodes, j),
    decreases j,
{
    let np = nodes.push(x);
    assert(np[j] == nodes[j]);
    match nodes[j].left {
        Some(l) => if l < j {
            lemma_sub_start_push(nodes, x, l as int);
        },
        None => {},
    }
}

/// The height of the operand stack after reading the first `k` postfix
/// tokens, or `None` when an operator finds too few operands or a token
/// cannot stand in a postfix expression.
pub open spec fn stack_height(ts: Seq<TokenModel>, k: int) -> Option<int>
    decreases k,
{
    if k <= 0 {
        Some(0)
    } else {
        match stack_height(ts, k - 1) {
            None => None,
            Some(h) => {
                let t = ts[k - 1];
                if leaf_token(t) {
                    Some(h + 1)
                } else if binary_token(t) {
                    if h >= 2 {
                        Some(h - 1)
                    } else {
                        None
                    }
                } else if t is Kleene {
                    if h >= 1 {
                        Some(h)
                    } else {
                        None
                    }
                } else {
                    None
                }
            },
        }
    }
}

/// A postfix sequence forms exactly one tree.
pub open spec fn postfix_ok(ts: Seq<TokenModel>) -> bool {
    stack_height(ts, ts.len() as int) == Some(1int)
}

impl Tree {
    /// The tree is well formed and rooted at its last node.
    pub open spec fn wf(&self) -> bool {
        &&& nodes_wf(self.nodes@)
        &&& self.root matches Some(r) ==> r + 1 == self.nodes@.len()
        &&& self.root is None ==> self.nodes@.len() == 0
    }

    pub fn new() -> (t: Self)
        ensures
            t.wf(),
            t.nodes@.len() == 0,
            t.root is None,
    {
        Self { nodes: Vec::new(), root: None }
    }

    /// Builds the tree of a postfix token sequence by a stack walk: leaves
    /// push themselves, a binary operator pops its right and then its left
    /// operand, the star pops its single operand. Node `i` is token `i`.
    pub fn generate(&mut self, tokens: Vec<Token>) -> (r: Result<usize, RegexError>)
        ensures
            r is Ok <==> postfix_ok(crate::lex::tokenizer::tokens_view(tokens@)),
            r is Err ==> r == Err::<usize, RegexError>(RegexError::MalformedTree) && *final(self)
                == *old(self),
            r matches Ok(root) ==> {
                &&& final(self).wf()
                &&& final(self).root == Some(root)
                &&& final(self).nodes@.len() == tokens@.len()
                &&& forall|i: int|
                    0 <= i < tokens@.len() ==> (#[trigger] final(self).nodes@[i]).value@
                        == tokens@[i]@
                &&& forall|i: int| 0 <= i < tokens@.len() ==> #[trigger] shape_ok(final(self).nodes@, i)
            },
    {
        let ghost ts = crate::lex::tokenizer::tokens_view(tokens@);
        let mut nodes: Vec<TreeNode> = Vec::new();
        let mut stack: Vec<usize> = Vec::new();
        let mut k: usize = 0;
        while k < tokens.len()
            invariant
                k <= tokens@.len(),
                ts == crate::lex::tokenizer::tokens_view(tokens@),
                stack_height(ts, k as int) == Some(stack@.len() as int),
                nodes@.len() == k,
                nodes_wf(nodes@),
                forall|m: int| 0 <= m < stack@.len() ==> #[trigger] stack@[m] < k,
                forall|i: int| 0 <= i < k ==> (#[trigger] nodes@[i]).value@ == tokens@[i]@,
                forall|i: int| 0 <= i < k ==> #[trigger] shape_ok(nodes@, i),
                stack@.len() == 0 ==> k == 0,
                stack@.len() > 0 ==> stack@.last() == k - 1 && sub_start(nodes@, stack@[0] as int) == 0,
                forall|m: int| 0 < m < stack@.len() ==> stack@[m - 1] == sub_start(nodes@, #[trigger] stack@[m] as int) - 1,
            decreases tokens.len() - k,
        {
            let ghost st0 = stack@;
            let ghost c: int = 0;
            let tk = copy_token(&tokens[k]);
            assert(ts[k as int] == tokens@[k as int]@);
            let ghost before = nodes@;
            match tk {
                Token::Literal(_) | Token::Range(_, _) | Token::Sentinel | Token::Empty
                | Token::Tokener(_) => {
                    nodes.push(TreeNode { value: tk, left: None, right: None });
                    stack.push(k);
                },
                Token::Concat | Token::Union => {
                    if stack.len() < 2 {
                        proof { lemma_height_stuck(ts, k as int + 1, tokens@.len() as int); }
                        return Err(RegexError::MalformedTree);
                    }
                    let second = stack.pop().unwrap();
                    let first = stack.pop().unwrap();
                    nodes.push(TreeNode { value: tk, left: Some(first), right: Some(second) });
                    stack.push(k);
                    proof {
                        c = 2;
                    }
                },
                Token::Kleene => {
                    if stack.len() < 1 {
                        proof { lemma_height_stuck(ts, k as int + 1, tokens@.len() as int); }
                        return Err(RegexError::MalformedTree);
                    }
                    let first = stack.pop().unwrap();
                    nodes.push(TreeNode { value: tk, left: Some(first), right: None });
                    stack.push(k);
                    proof {
                        c = 1;
                    }
                },
                _ => {
                    proof { lemma_height_stuck(ts, k as int + 1, tokens@.len() as int); }
                    return Err(RegexError::MalformedTree);
                },
            }
            proof {
                assert forall|i: int| 0 <= i < nodes@.len() implies #[trigger] node_wf(nodes@, i) by {
                    if i < k {
                        assert(nodes@[i] == before[i]);
                        assert(node_wf(before, i));
                    }
                }
                let x = nodes@[k as int];
                assert(nodes@ == before.push(x));
                assert forall|j: int| 0 <= j < k implies #[trigger] sub_start(nodes@, j) == sub_start(before, j) by {
                    lemma_sub_start_push(before, x, j);
                }
                assert forall|i: int| 0 <= i < k + 1 implies #[trigger] shape_ok(nodes@, i) by {
                    if i < k {
                        assert(nodes@[i] == before[i]);
                        assert(shape_ok(before, i));
                        if i >= 1 {
                            assert(sub_start(nodes@, i - 1) == sub_start(before, i - 1));
                        }
                    } else {
                        if k >= 1 {
                            assert(sub_start(nodes@, k - 1) == sub_start(before, k - 1));
                        }
                    }
                }
                assert(0 <= c <= 2 && c <= st0.len());
                assert(stack@ =~= st0.subrange(0, st0.len() - c).push(k));
                if c > 0 {
                    assert(x.left == Some(st0[st0.len() - c]));
                    lemma_sub_start_push(before, x, st0[st0.len() - c] as int);
                    assert(sub_start(nodes@, k as int) == sub_start(before, st0[st0.len() - c] as int));
                } else {
                    assert(sub_start(nodes@, k as int) == k);
                }
                if c == 2 {
                    assert(st0[st0.len() - 2] == sub_start(before, st0[st0.len() - 1] as int) - 1);
                    assert(x.right == Some(st0[st0.len() - 1]));
                }
                if stack@.len() > 1 {
                    assert(stack@[stack@.len() - 2] == st0[st0.len() - c - 1]);
                }
                assert forall|m: int| 0 <= m < stack@.len() implies #[trigger] sub_start(nodes@, stack@[m] as int) == if stack@[m] == k {
                    sub_start(nodes@, k as int)
                } else {
                    sub_start(before, stack@[m] as int)
                } by {
                    if stack@[m] < k {
                        lemma_sub_start_push(before, x, stack@[m] as int);
                    }
                }
            }
            k = k + 1;
        }
        if stack.len() != 1 {
            return Err(RegexError::MalformedTree);
        }
        let root = nodes.len() - 1;
        self.nodes = nodes;
        self.root = Some(root);
        Ok(root)
    }

    pub fn get_root(&self) -> (r: Option<usize>)
        ensures
            r == self.root,
    {
        self.root
    }
}

proof fn lemma_height_stuck(ts: Seq<TokenModel>, k: int, n: int)
    requires
        0 <= k <= n,
        stack_height(ts, k) is None,
    ensures
        stack_height(ts, n) is None,
    decreases n - k,
{
    if k < n {
        lemma_height_stuck(ts, k + 1, n);
    }
}

/// The name of a token as it is shown in a tree listing.
pub fn token_text(t: &Token) -> (r: Vec<char>)
    ensures
        r@.len() > 0,
{
    let mut out: Vec<char> = Vec::new();
    match t {
        Token::Kleene => push_str(&mut out, "Kleene"),
        Token::Union => push_str(&mut out, "Union"),
        Token::Plus => push_str(&mut out, "Plus"),
        Token::Concat => push_str(&mut out, "Concat"),
        Token::Literal(c) => {
            push_str(&mut out, "Literal('");
            out.push(*c);
            out.push('\'');
            out.push(')');
        },
        Token::Range(a, b) => {
            push_str(&mut out, "Range('");
            out.push(*a);
            push_str(&mut out, "', '");
            out.push(*b);
            out.push('\'');
            out.push(')');
        },
        Token::LParen => push_str(&mut out, "LParen"),
        Token::RParen => push_str(&mut out, "RParen"),
        Token::Sentinel => push_str(&mut out, "Sentinel"),
        Token::Empty => push_str(&mut out, "Empty"),
        Token::Optional => push_str(&mut out, "Optional"),
        Token::Tokener(n) => {
            push_str(&mut out, "Tokener(\"");
            let cs = chars_of(n.as_str());
            push_all(&mut out, &cs);
            out.push('"');
            out.push(')');
        },
    }
    proof {
        reveal_strlit("Kleene");
        reveal_strlit("Union");
        reveal_strlit("Plus");
        reveal_strlit("Concat");
        reveal_strlit("LParen");
        reveal_strlit("RParen");
        reveal_strlit("Sentinel");
        reveal_strlit("Empty");
        reveal_strlit("Optional");
    }
    out
}

impl TreeNode {
    /// The subtree of this node (node `index` of `tree`) as an indented
    /// listing: one line per node, children below their parent with the
    /// prefixes `L----` and `R----`.
    pub fn print_tree(&self, tree: &Tree, index: usize, level: usize, prefix: &str) -> (r: String)
        requires
            tree.wf(),
            index < tree.nodes@.len(),
            level + index < usize::MAX,
        ensures
            r@.len() > 0,
        decreases index,
    {
        let mut out: Vec<char> = Vec::new();
        let mut i: usize = 0;
        while i < level
            invariant
                i <= level,
            decreases level - i,
        {
            push_str(&mut out, "    ");
            i = i + 1;
        }
        push_str(&mut out, prefix);
        let node = &tree.nodes[index];
        let text = token_text(&node.value);
        push_all(&mut out, &text);
        out.push('\n');
        proof {
            assert(node_wf(tree.nodes@, index as int));
        }
        if let Some(l) = node.left {
            let sub = tree.nodes[l].print_tree(tree, l, level + 1, "L----");
            let cs = chars_of(sub.as_str());
            push_all(&mut out, &cs);
        }
        if let Some(rt) = node.right {
            let sub = tree.nodes[rt].print_tree(tree, rt, level + 1, "R----");
            let cs = chars_of(sub.as_str());
            push_all(&mut out, &cs);
        }
        string_of(&out)
    }

    pub fn get_left(&self) -> (r: Option<usize>)
        ensures
            r == self.left,
    {
        self.left
    }

    pub fn get_right(&self) -> (r: Option<usize>)
        ensures
            r == self.right,
    {
        self.right
    }

    pub fn get_value(&self) -> (r: &Token)
        ensures
            r == &self.value,
    {
        &self.value
    }
}

} // verus!
