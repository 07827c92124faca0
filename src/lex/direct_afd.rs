//! Position functions over the syntax tree (nullable, firstpos, lastpos,
//! followpos) and the direct construction of a DFA from them.
use vstd::prelude::*;
use crate::lex::grammar_tree::{binary_token, leaf_token, node_wf, nodes_wf, Tree, TreeNode};
use crate::lex::tokenizer::{RegexError, Token, TokenModel};
use crate::lex::dfa::{copy_key, key_eq, Dfa, KeyModel, TransKey};

verus! {

/// A symbol of the input that a leaf of the tree can consume: a character,
/// a named reference, or the end marker of the augmented expression.
pub enum InSym {
    Ch(char),
    Name(Seq<char>),
    End,
}

/// Whether the leaf token `t` consumes the symbol `x`.
pub open spec fn leaf_matches(t: TokenModel, x: InSym) -> bool {
    match t {
        TokenModel::Literal(c) => x == InSym::Ch(c),
        TokenModel::Range(a, b) => x matches InSym::Ch(c) && (a as u32) <= (c as u32) && (c as u32)
            <= (b as u32),
        TokenModel::Tokener(n) => x == InSym::Name(n),
        TokenModel::Sentinel => x == InSym::End,
        _ => false,
    }
}

/// Whether the symbol string `s` is in the language of the subtree at `i`.
pub open spec fn in_lang(nodes: Seq<TreeNode>, i: int, s: Seq<InSym>) -> bool
    decreases i, s.len(),
{
    if i < 0 || i >= nodes.len() {
        false
    } else {
        let nd = nodes[i];
        let t = nd.value@;
        if t is Empty {
            s.len() == 0
        } else if leaf_token(t) {
            s.len() == 1 && leaf_matches(t, s[0])
        } else if t is Concat {
            match (nd.left, nd.right) {
                (Some(l), Some(r)) => l < i && r < i && exists|k: int|
                    0 <= k <= s.len() && in_lang(nodes, l as int, #[trigger] s.subrange(0, k))
                        && in_lang(nodes, r as int, s.subrange(k, s.len() as int)),
                _ => false,
            }
        } else if t is Union {
            match (nd.left, nd.right) {
                (Some(l), Some(r)) => l < i && r < i && (in_lang(nodes, l as int, s) || in_lang(
                    nodes,
                    r as int,
                    s,
                )),
                _ => false,
            }
        } else if t is Kleene {
            match nd.left {
                Some(l) => l < i && (s.len() == 0 || exists|k: int|
                    1 <= k <= s.len() && in_lang(nodes, l as int, #[trigger] s.subrange(0, k))
                        && in_lang(nodes, i, s.subrange(k, s.len() as int))),
                None => false,
            }
        } else {
            false
        }
    }
}

/// nullable: whether the subtree at `i` matches the empty string, by the
/// usual rules (star is nullable, concatenation needs both children,
/// union either).
pub open spec fn nullable_at(nodes: Seq<TreeNode>, i: int) -> bool
    decreases i,
{
    if i < 0 || i >= nodes.len() {
        false
    } else {
        let nd = nodes[i];
        let t = nd.value@;
        if t is Empty {
            true
        } else if leaf_token(t) {
            false
        } else if t is Concat {
            match (nd.left, nd.right) {
                (Some(l), Some(r)) => l < i && r < i && nullable_at(nodes, l as int) && nullable_at(
                    nodes,
                    r as int,
                ),
                _ => false,
            }
        } else if t is Union {
            match (nd.left, nd.right) {
                (Some(l), Some(r)) => l < i && r < i && (nullable_at(nodes, l as int) || nullable_at(
                    nodes,
                    r as int,
                )),
                _ => false,
            }
        } else if t is Kleene {
            nd.left matches Some(l) && l < i
        } else {
            false
        }
    }
}

/// firstpos: the leaves that can begin a match of the subtree at `i`.
pub open spec fn first_at(nodes: Seq<TreeNode>, i: int) -> Set<int>
    decreases i,
{
    if i < 0 || i >= nodes.len() {
        Set::empty()
    } else {
        let nd = nodes[i];
        let t = nd.value@;
        if t is Empty {
            Set::empty()
        } else if leaf_token(t) {
            set![i]
        } else if binary_token(t) {
            match (nd.left, nd.right) {
                (Some(l), Some(r)) => if l < i && r < i {
                    if t is Union || nullable_at(nodes, l as int) {
                        first_at(nodes, l as int) + first_at(nodes, r as int)
                    } else {
                        first_at(nodes, l as int)
                    }
                } else {
                    Set::empty()
                },
                _ => Set::empty(),
            }
        } else if t is Kleene {
            match nd.left {
                Some(l) => if l < i {
                    first_at(nodes, l as int)
                } else {
                    Set::empty()
                },
                None => Set::empty(),
            }
        } else {
            Set::empty()
        }
    }
}

/// lastpos: the leaves that can end a match of the subtree at `i`.
pub open spec fn last_at(nodes: Seq<TreeNode>, i: int) -> Set<int>
    decreases i,
{
    if i < 0 || i >= nodes.len() {
        Set::empty()
    } else {
        let nd = nodes[i];
        let t = nd.value@;
        if t is Empty {
            Set::empty()
        } else if leaf_token(t) {
            set![i]
        } else if binary_token(t) {
            match (nd.left, nd.right) {
                (Some(l), Some(r)) => if l < i && r < i {
                    if t is Union || nullable_at(nodes, r as int) {
                        last_at(nodes, l as int) + last_at(nodes, r as int)
                    } else {
                        last_at(nodes, r as int)
                    }
                } else {
                    Set::empty()
                },
                _ => Set::empty(),
            }
        } else if t is Kleene {
            match nd.left {
                Some(l) => if l < i {
                    last_at(nodes, l as int)
                } else {
                    Set::empty()
                },
                None => Set::empty(),
            }
        } else {
            Set::empty()
        }
    }
}

/// Node `c` makes position `q` follow position `p`: a concatenation whose
/// left part can end at `p` and whose right part can begin at `q`, or a
/// star whose body can end at `p` and begin at `q`.
pub open spec fn follows_via(nodes: Seq<TreeNode>, c: int, p: int, q: int) -> bool {
    let nd = nodes[c];
    if nd.value@ is Concat {
        match (nd.left, nd.right) {
            (Some(l), Some(r)) => last_at(nodes, l as int).contains(p) && first_at(
                nodes,
                r as int,
            ).contains(q),
            _ => false,
        }
    } else if nd.value@ is Kleene {
        match nd.left {
            Some(l) => last_at(nodes, l as int).contains(p) && first_at(nodes, l as int).contains(
                q,
            ),
            None => false,
        }
    } else {
        false
    }
}

/// followpos of position `p`, from the nodes before `upto`.
pub open spec fn follow_upto(nodes: Seq<TreeNode>, upto: int, p: int) -> Set<int> {
    Set::new(|q: int| exists|c: int| 0 <= c < upto && #[trigger] follows_via(nodes, c, p, q))
}

/// followpos of position `p`.
pub open spec fn follow_set(nodes: Seq<TreeNode>, p: int) -> Set<int> {
    follow_upto(nodes, nodes.len() as int, p)
}

proof fn lemma_follow_step(nodes: Seq<TreeNode>, c: int, p: int)
    requires
        0 <= c,
    ensures
        follow_upto(nodes, c + 1, p) == follow_upto(nodes, c, p) + Set::new(
            |q: int| follows_via(nodes, c, p, q),
        ),
{
    assert(follow_upto(nodes, c + 1, p) =~= follow_upto(nodes, c, p) + Set::new(
        |q: int| follows_via(nodes, c, p, q),
    ));
}

/// The set that a boolean row stands for.
pub open spec fn row_set(row: Seq<bool>) -> Set<int> {
    Set::new(|p: int| 0 <= p < row.len() && row[p])
}

/// `rows` holds one row of length `n` per node, each standing for `f(i)`.
pub open spec fn rows_are(rows: Seq<Vec<bool>>, n: int, f: spec_fn(int) -> Set<int>) -> bool {
    &&& rows.len() == n
    &&& forall|i: int| 0 <= i < n ==> (#[trigger] rows[i])@.len() == n && row_set(rows[i]@) == f(i)
}

/// A row of `n` cells, all false.
fn empty_row(n: usize) -> (r: Vec<bool>)
    ensures
        r@.len() == n,
        row_set(r@) == Set::<int>::empty(),
{
    let mut r: Vec<bool> = Vec::new();
    let mut k: usize = 0;
    while k < n
        invariant
            k <= n,
            r@.len() == k,
            forall|m: int| 0 <= m < k ==> !#[trigger] r@[m],
        decreases n - k,
    {
        r.push(false);
        k = k + 1;
    }
    assert(row_set(r@) =~= Set::<int>::empty());
    r
}

/// The union of two rows of equal length.
fn or_rows(a: &Vec<bool>, b: &Vec<bool>) -> (r: Vec<bool>)
    requires
        a@.len() == b@.len(),
    ensures
        r@.len() == a@.len(),
        row_set(r@) == row_set(a@) + row_set(b@),
{
    let mut r: Vec<bool> = Vec::new();
    let mut k: usize = 0;
    while k < a.len()
        invariant
            a@.len() == b@.len(),
            k <= a@.len(),
            r@.len() == k,
            forall|m: int| 0 <= m < k ==> #[trigger] r@[m] == (a@[m] || b@[m]),
        decreases a.len() - k,
    {
        r.push(a[k] || b[k]);
        k = k + 1;
    }
    assert(row_set(r@) =~= row_set(a@) + row_set(b@));
    r
}

proof fn lemma_nullable_language(nodes: Seq<TreeNode>, i: int)
    ensures
        nullable_at(nodes, i) == in_lang(nodes, i, Seq::empty()),
    decreases i,
{
    let e = Seq::<InSym>::empty();
    if 0 <= i < nodes.len() {
        let nd = nodes[i];
        let t = nd.value@;
        if t is Concat || t is Union {
            match (nd.left, nd.right) {
                (Some(l), Some(r)) => {
                    if l < i && r < i {
                        lemma_nullable_language(nodes, l as int);
                        lemma_nullable_language(nodes, r as int);
                        assert(e.subrange(0, 0) =~= e);
                        assert(e.subrange(0, e.len() as int) =~= e);
                        if t is Concat {
                            if nullable_at(nodes, i) {
                                assert(in_lang(nodes, l as int, e.subrange(0, 0)));
                                assert(in_lang(nodes, r as int, e.subrange(0, e.len() as int)));
                                assert(in_lang(nodes, i, e));
                            }
                            if in_lang(nodes, i, e) {
                                let k = choose|k: int|
                                    0 <= k <= e.len() && in_lang(
                                        nodes,
                                        l as int,
                                        #[trigger] e.subrange(0, k),
                                    ) && in_lang(nodes, r as int, e.subrange(k, e.len() as int));
                                assert(k == 0);
                                assert(in_lang(nodes, l as int, e));
                                assert(in_lang(nodes, r as int, e));
                                assert(nullable_at(nodes, i));
                            }
                        } else {
                            assert(nullable_at(nodes, i) == in_lang(nodes, i, e));
                        }
                    }
                },
                _ => {},
            }
        }
    }
}

/// A subtree is nullable exactly when the empty string is in its language.
pub proof fn lemma_nullable_iff_empty_in_language(tree: Tree, i: int)
    requires
        tree.wf(),
        0 <= i < tree.nodes@.len(),
    ensures
        nullable_at(tree.nodes@, i) <==> in_lang(tree.nodes@, i, Seq::empty()),
{
    lemma_nullable_language(tree.nodes@, i);
}

/// The transition key that a leaf consumes, if it consumes one.
pub open spec fn key_of(t: TokenModel) -> Option<KeyModel> {
    match t {
        TokenModel::Literal(c) => Some(KeyModel::Char(c)),
        TokenModel::Range(a, b) => Some(KeyModel::Range(a, b)),
        TokenModel::Tokener(n) => Some(KeyModel::Name(n)),
        _ => None,
    }
}

/// The positions that follow, on key `k`, some position of `st` before `upto`.
pub open spec fn next_upto(nodes: Seq<TreeNode>, st: Set<int>, k: KeyModel, upto: int) -> Set<int> {
    Set::new(
        |q: int|
            exists|p: int|
                0 <= p < upto && st.contains(p) && key_of(nodes[p].value@) == Some(k)
                    && #[trigger] follow_set(nodes, p).contains(q),
    )
}

/// The DFA move: the union of followpos(p) over the positions `p` of `st`
/// whose leaf consumes key `k`.
pub open spec fn next_set(nodes: Seq<TreeNode>, st: Set<int>, k: KeyModel) -> Set<int> {
    next_upto(nodes, st, k, nodes.len() as int)
}

/// Whether `st` holds a sentinel position.
pub open spec fn has_sentinel(nodes: Seq<TreeNode>, st: Set<int>) -> bool {
    exists|p: int| 0 <= p < nodes.len() && #[trigger] st.contains(p) && nodes[p].value@ is Sentinel
}

/// Some leaf consumes the key `k`.
pub open spec fn key_from_leaf(nodes: Seq<TreeNode>, k: KeyModel) -> bool {
    exists|p: int| 0 <= p < nodes.len() && key_of(#[trigger] nodes[p].value@) == Some(k)
}

/// The models of a list of keys.
pub open spec fn keys_view(keys: Seq<TransKey>) -> Seq<KeyModel> {
    Seq::new(keys.len(), |i: int| keys[i]@)
}

/// The distinct keys of the first `p` nodes, in order of first occurrence.
pub open spec fn alphabet_upto(nodes: Seq<TreeNode>, p: int) -> Seq<KeyModel>
    decreases p,
{
    if p <= 0 || p > nodes.len() {
        Seq::empty()
    } else {
        let a = alphabet_upto(nodes, p - 1);
        match key_of(nodes[p - 1].value@) {
            Some(k) => if a.contains(k) {
                a
            } else {
                a.push(k)
            },
            None => a,
        }
    }
}

/// `keys` is the alphabet of the tree: the distinct keys of its leaves.
pub open spec fn alphabet_of(nodes: Seq<TreeNode>, keys: Seq<TransKey>) -> bool {
    &&& forall|a: int, b: int| 0 <= a < b < keys.len() ==> #[trigger] keys[a]@ != #[trigger] keys[b]@
    &&& forall|a: int| 0 <= a < keys.len() ==> key_from_leaf(nodes, #[trigger] keys[a]@)
    &&& forall|p: int| 0 <= p < nodes.len() && key_of(#[trigger] nodes[p].value@) is Some ==> exists|a: int| 0 <= a < keys.len() && Some(#[trigger] keys[a]@) == key_of(nodes[p].value@)
}

/// The transition table read row by row.
pub open spec fn rows_flat(rows: Seq<Vec<Option<usize>>>) -> Seq<Option<usize>>
    decreases rows.len(),
{
    if rows.len() == 0 {
        Seq::empty()
    } else {
        rows_flat(rows.drop_last()) + rows.last()@
    }
}

/// State `t` is a target before position `p` of `f`.
pub open spec fn seen_before(f: Seq<Option<usize>>, p: int, t: int) -> bool {
    exists|q: int| 0 <= q < p && #[trigger] f[q] == Some(t as usize)
}

/// States are numbered in order of discovery: read row by row, every
/// state but the start is a target, and each first appears after all the
/// states numbered below it.
pub open spec fn first_seen_in_order(f: Seq<Option<usize>>, n: int) -> bool {
    &&& forall|t: int| 1 <= t < n ==> #[trigger] seen_before(f, f.len() as int, t)
    &&& forall|p: int|
        0 <= p < f.len() && (#[trigger] f[p]) is Some && f[p]->0 > 0 ==> seen_before(f, p, f[p]->0 as int) || forall|u: int|
            1 <= u < f[p]->0 ==> #[trigger] seen_before(f, p, u)
}

proof fn lemma_seen_push(f: Seq<Option<usize>>, x: Option<usize>, n: int, n2: int)
    requires
        first_seen_in_order(f, n),
        x matches Some(t) ==> (t > 0 && t < n ==> seen_before(f, f.len() as int, t as int)) && t <= n,
        n2 == if x == Some(n as usize) { n + 1 } else { n },
        n >= 1,
    ensures
        first_seen_in_order(f.push(x), n2),
{
    let g = f.push(x);
    assert forall|t: int| 1 <= t < n2 implies #[trigger] seen_before(g, g.len() as int, t) by {
        if t < n {
            assert(seen_before(f, f.len() as int, t));
            let q = choose|q: int| 0 <= q < f.len() && #[trigger] f[q] == Some(t as usize);
            assert(g[q] == f[q]);
        } else {
            assert(g[f.len() as int] == x);
        }
    }
    assert forall|p: int|
        0 <= p < g.len() && (#[trigger] g[p]) is Some && g[p]->0 > 0 implies seen_before(g, p, g[p]->0 as int) || forall|u: int|
            1 <= u < g[p]->0 ==> #[trigger] seen_before(g, p, u) by {
        if p < f.len() {
            assert(g[p] == f[p]);
            if seen_before(f, p, f[p]->0 as int) {
                let q = choose|q: int| 0 <= q < p && #[trigger] f[q] == Some((f[p]->0 as int) as usize);
                assert(g[q] == f[q]);
            } else {
                assert forall|u: int| 1 <= u < g[p]->0 implies #[trigger] seen_before(g, p, u) by {
                    assert(seen_before(f, p, u));
                    let q = choose|q: int| 0 <= q < p && #[trigger] f[q] == Some(u as usize);
                    assert(g[q] == f[q]);
                }
            }
        } else {
            let t = x->0;
            if (t as int) < n {
                let q = choose|q: int| 0 <= q < f.len() && #[trigger] f[q] == Some(((t as int) as usize));
                assert(g[q] == f[q]);
            } else {
                assert forall|u: int| 1 <= u < g[p]->0 implies #[trigger] seen_before(g, p, u) by {
                    assert(seen_before(f, f.len() as int, u));
                    let q = choose|q: int| 0 <= q < f.len() && #[trigger] f[q] == Some(u as usize);
                    assert(g[q] == f[q]);
                }
            }
        }
    }
}

/// The position set `st` is reached from firstpos of the root by `d` or
/// fewer moves on keys of the tree's leaves.
pub open spec fn reach_set(nodes: Seq<TreeNode>, root: int, st: Set<int>, d: nat) -> bool
    decreases d,
{
    st == first_at(nodes, root) || (d > 0 && exists|prev: Set<int>, k: KeyModel|
        reach_set(nodes, root, prev, (d - 1) as nat) && key_from_leaf(nodes, k) && #[trigger] next_set(nodes, prev, k) == st)
}

proof fn lemma_reach_base(nodes: Seq<TreeNode>, root: int, st: Set<int>)
    requires
        st == first_at(nodes, root),
    ensures
        reach_set(nodes, root, st, 0),
{
}

proof fn lemma_reach_step(nodes: Seq<TreeNode>, root: int, prev: Set<int>, k: KeyModel, d: nat)
    requires
        reach_set(nodes, root, prev, d),
        key_from_leaf(nodes, k),
    ensures
        reach_set(nodes, root, next_set(nodes, prev, k), d + 1),
{
    assert(reach_set(nodes, root, prev, ((d + 1) - 1) as nat));
}

/// More than [`MAX_DFA_STATES`] distinct position sets (rows over the
/// nodes) are reachable: the construction would exceed the cap.
pub open spec fn too_many_sets(nodes: Seq<TreeNode>, root: int) -> bool {
    exists|rows: Seq<Seq<bool>>| #[trigger] reachable_rows(nodes, root, rows) && rows.len() > MAX_DFA_STATES
}

/// `rows` are distinct rows over the nodes, each a reachable position set.
pub open spec fn reachable_rows(nodes: Seq<TreeNode>, root: int, rows: Seq<Seq<bool>>) -> bool {
    &&& forall|a: int, b: int| 0 <= a < b < rows.len() ==> #[trigger] rows[a] != #[trigger] rows[b]
    &&& forall|i: int| 0 <= i < rows.len() ==> (#[trigger] rows[i]).len() == nodes.len() && reachable(nodes, root, row_set(rows[i]))
}

/// The position set `st` is reached from firstpos of the root.
pub open spec fn reachable(nodes: Seq<TreeNode>, root: int, st: Set<int>) -> bool {
    exists|d: nat| reach_set(nodes, root, st, d)
}

/// The most states that the direct construction builds.
pub const MAX_DFA_STATES: usize = 4096;

fn leaf_key(t: &Token) -> (r: Option<TransKey>)
    ensures
        r matches Some(k) ==> key_of(t@) == Some(k@),
        r is None ==> key_of(t@) is None,
{
    match t {
        Token::Literal(c) => Some(TransKey::Char(*c)),
        Token::Range(a, b) => Some(TransKey::Range(*a, *b)),
        Token::Tokener(n) => Some(TransKey::Name(n.clone())),
        _ => None,
    }
}

fn rows_equal(a: &Vec<bool>, b: &Vec<bool>) -> (r: bool)
    ensures
        r == (a@ == b@),
{
    if a.len() != b.len() {
        return false;
    }
    let mut k: usize = 0;
    while k < a.len()
        invariant
            a@.len() == b@.len(),
            k <= a@.len(),
            forall|m: int| 0 <= m < k ==> a@[m] == b@[m],
        decreases a.len() - k,
    {
        if a[k] != b[k] {
            return false;
        }
        k = k + 1;
    }
    assert(a@ =~= b@);
    true
}

/// Whether a row is empty.
pub fn row_is_empty(a: &Vec<bool>) -> (r: bool)
    ensures
        r == (row_set(a@) == Set::<int>::empty()),
{
    let mut k: usize = 0;
    while k < a.len()
        invariant
            k <= a@.len(),
            forall|m: int| 0 <= m < k ==> !a@[m],
        decreases a.len() - k,
    {
        if a[k] {
            assert(row_set(a@).contains(k as int));
            return false;
        }
        k = k + 1;
    }
    assert(row_set(a@) =~= Set::<int>::empty());
    true
}

/// `dfa` is the direct DFA of the tree: the alphabet, the start state
/// (firstpos of the root), every move and every accepting state, with the
/// position set of each state in `sets` and the named references in `names`.
pub open spec fn direct_dfa_of(afd: DirectAFD, dfa: Dfa, sets: Seq<Vec<bool>>, names: Seq<String>) -> bool {
    let ns = afd.nodes();
    &&& dfa.wf()
    &&& dfa.n() <= MAX_DFA_STATES
    &&& dfa.start == 0
    &&& alphabet_of(ns, dfa.keys@)
    &&& keys_view(dfa.keys@) == alphabet_upto(ns, ns.len() as int)
    &&& sets.len() == dfa.n()
    &&& forall|s: int| 0 <= s < sets.len() ==> (#[trigger] sets[s])@.len() == ns.len()
    &&& row_set(sets[0]@) == first_at(ns, afd.syntax_tree.root->0 as int)
    &&& forall|s: int| 0 <= s < sets.len() ==> reachable(ns, afd.syntax_tree.root->0 as int, row_set((#[trigger] sets[s])@))
    &&& first_seen_in_order(rows_flat(dfa.delta@), dfa.n())
    &&& forall|a: int, b: int|
        0 <= a < b < sets.len() ==> #[trigger] sets[a]@ != #[trigger] sets[b]@
    &&& forall|s: int, k: int|
        0 <= s < dfa.n() && 0 <= k < dfa.keys@.len() ==> match #[trigger] dfa.target(s, k) {
            Some(t) => row_set(sets[t as int]@) == next_set(ns, row_set(sets[s]@), dfa.keys@[k]@)
                && row_set(sets[t as int]@) != Set::<int>::empty(),
            None => next_set(ns, row_set(sets[s]@), dfa.keys@[k]@) == Set::<int>::empty(),
        }
    &&& forall|s: int| 0 <= s < dfa.n() ==> #[trigger] dfa.accept@[s] == has_sentinel(ns, row_set(sets[s]@))
    &&& names.len() == names_before(ns, ns.len() as int).len()
    &&& forall|k: int| 0 <= k < names.len() ==> #[trigger] names[k]@ == names_before(ns, ns.len() as int)[k]
}

/// The direct construction of a DFA from a syntax tree.
pub struct DirectAFD {
    pub syntax_tree: Tree,
}

/// The label of a node: leaves that occupy a position are numbered from 1
/// in post-order; empty leaves, unions, stars and concatenations are
/// numbered from 1 among their own kind.
#[derive(Debug, Clone, Copy, PartialEq, Eq, Structural)]
pub enum Label {
    Leaf(usize),
    Union(usize),
    Kleene(usize),
    Concat(usize),
    Empty(usize),
}

/// How many of the first `i` nodes satisfy `pred`.
pub open spec fn count_before(nodes: Seq<TreeNode>, i: int, pred: spec_fn(TokenModel) -> bool) -> nat
    decreases i,
{
    if i <= 0 || i > nodes.len() {
        0
    } else {
        count_before(nodes, i - 1, pred) + if pred(nodes[i - 1].value@) {
            1nat
        } else {
            0nat
        }
    }
}

/// Leaves that occupy a position (all but the empty leaf).
pub open spec fn position_leaf(t: TokenModel) -> bool {
    leaf_token(t) && !(t is Empty)
}

/// The label of node `i`.
pub open spec fn label_of(nodes: Seq<TreeNode>, i: int) -> Label {
    let t = nodes[i].value@;
    if t is Empty {
        Label::Empty((count_before(nodes, i, |u: TokenModel| u is Empty) + 1) as usize)
    } else if leaf_token(t) {
        Label::Leaf((count_before(nodes, i, |u: TokenModel| position_leaf(u)) + 1) as usize)
    } else if t is Union {
        Label::Union((count_before(nodes, i, |u: TokenModel| u is Union) + 1) as usize)
    } else if t is Kleene {
        Label::Kleene((count_before(nodes, i, |u: TokenModel| u is Kleene) + 1) as usize)
    } else {
        Label::Concat((count_before(nodes, i, |u: TokenModel| u is Concat) + 1) as usize)
    }
}

proof fn lemma_count_before_lt(nodes: Seq<TreeNode>, i: int, j: int, pred: spec_fn(TokenModel) -> bool)
    requires
        0 <= i < j <= nodes.len(),
        pred(nodes[i].value@),
    ensures
        count_before(nodes, i, pred) < count_before(nodes, j, pred),
        count_before(nodes, j, pred) <= j,
    decreases j,
{
    lemma_count_before_le(nodes, j, pred);
    if j > i + 1 {
        lemma_count_before_lt(nodes, i, j - 1, pred);
    }
}

proof fn lemma_count_before_le(nodes: Seq<TreeNode>, j: int, pred: spec_fn(TokenModel) -> bool)
    ensures
        count_before(nodes, j, pred) <= if j < 0 { 0 } else { j },
    decreases j,
{
    if 0 < j <= nodes.len() {
        lemma_count_before_le(nodes, j - 1, pred);
    }
}

/// Labels are unique within one tree: two different nodes never share one.
pub proof fn lemma_labels_unique(tree: Tree, i: int, j: int)
    requires
        tree.wf(),
        0 <= i < j < tree.nodes@.len(),
        tree.nodes@.len() < usize::MAX,
    ensures
        label_of(tree.nodes@, i) != label_of(tree.nodes@, j),
{
    let ns = tree.nodes@;
    let ti = ns[i].value@;
    let tj = ns[j].value@;
    if ti is Empty && tj is Empty {
        lemma_count_before_lt(ns, i, j, |u: TokenModel| u is Empty);
    } else if position_leaf(ti) && position_leaf(tj) {
        lemma_count_before_lt(ns, i, j, |u: TokenModel| position_leaf(u));
    } else if ti is Union && tj is Union {
        lemma_count_before_lt(ns, i, j, |u: TokenModel| u is Union);
    } else if ti is Kleene && tj is Kleene {
        lemma_count_before_lt(ns, i, j, |u: TokenModel| u is Kleene);
    } else if ti is Concat && tj is Concat {
        lemma_count_before_lt(ns, i, j, |u: TokenModel| u is Concat);
    } else {
        assert(node_wf(ns, i));
        assert(node_wf(ns, j));
    }
}

/// The names of the named-reference leaves among the first `i` nodes, in order.
pub open spec fn names_before(nodes: Seq<TreeNode>, i: int) -> Seq<Seq<char>>
    decreases i,
{
    if i <= 0 || i > nodes.len() {
        Seq::empty()
    } else {
        match nodes[i - 1].value@ {
            TokenModel::Tokener(n) => names_before(nodes, i - 1).push(n),
            _ => names_before(nodes, i - 1),
        }
    }
}

impl DirectAFD {
    pub open spec fn wf(&self) -> bool {
        &&& self.syntax_tree.wf()
        &&& self.syntax_tree.nodes@.len() < usize::MAX
    }

    pub open spec fn nodes(&self) -> Seq<TreeNode> {
        self.syntax_tree.nodes@
    }

    pub fn new(tree: Tree) -> (r: Self)
        ensures
            r.syntax_tree == tree,
    {
        Self { syntax_tree: tree }
    }

    /// Labels every node, returns the labels, the root's index, and the
    /// names of the named references in post-order.
    pub fn read_tree(&self) -> (r: (Vec<Label>, usize, Vec<String>))
        requires
            self.wf(),
        ensures
            r.0@.len() == self.nodes().len(),
            forall|i: int| 0 <= i < self.nodes().len() ==> #[trigger] r.0@[i] == label_of(self.nodes(), i),
            self.syntax_tree.root matches Some(root) ==> r.1 == root,
            r.2@.len() == names_before(self.nodes(), self.nodes().len() as int).len(),
            forall|k: int| 0 <= k < r.2@.len() ==> #[trigger] r.2@[k]@ == names_before(self.nodes(), self.nodes().len() as int)[k],
    {
        let nodes = &self.syntax_tree.nodes;
        let ghost ns = nodes@;
        let mut labels: Vec<Label> = Vec::new();
        let mut names: Vec<String> = Vec::new();
        let mut leaves: usize = 0;
        let mut unions: usize = 0;
        let mut stars: usize = 0;
        let mut concats: usize = 0;
        let mut empties: usize = 0;
        let mut i: usize = 0;
        while i < nodes.len()
            invariant
                ns == nodes@,
                nodes@.len() < usize::MAX,
                i <= nodes@.len(),
                labels@.len() == i,
                forall|j: int| 0 <= j < i ==> #[trigger] labels@[j] == label_of(ns, j),
                leaves == count_before(ns, i as int, |u: TokenModel| position_leaf(u)),
                unions == count_before(ns, i as int, |u: TokenModel| u is Union),
                stars == count_before(ns, i as int, |u: TokenModel| u is Kleene),
                concats == count_before(ns, i as int, |u: TokenModel| u is Concat),
                empties == count_before(ns, i as int, |u: TokenModel| u is Empty),
                leaves <= i && unions <= i && stars <= i && concats <= i && empties <= i,
                nodes_wf(ns),
                names@.len() == names_before(ns, i as int).len(),
                forall|k: int| 0 <= k < names@.len() ==> #[trigger] names@[k]@ == names_before(ns, i as int)[k],
            decreases nodes.len() - i,
        {
            let lab = match &nodes[i].value {
                Token::Empty => {
                    empties = empties + 1;
                    Label::Empty(empties)
                },
                Token::Literal(_) | Token::Range(_, _) | Token::Sentinel => {
                    leaves = leaves + 1;
                    Label::Leaf(leaves)
                },
                Token::Tokener(name) => {
                    leaves = leaves + 1;
                    names.push(name.clone());
                    Label::Leaf(leaves)
                },
                Token::Union => {
                    unions = unions + 1;
                    Label::Union(unions)
                },
                Token::Kleene => {
                    stars = stars + 1;
                    Label::Kleene(stars)
                },
                _ => {
                    concats = concats + 1;
                    Label::Concat(concats)
                },
            };
            proof {
                assert(node_wf(ns, i as int));
            }
            labels.push(lab);
            i = i + 1;
        }
        let root = match self.syntax_tree.root {
            Some(r) => r,
            None => 0,
        };
        (labels, root, names)
    }

    /// nullable of every node.
    pub fn find_nullable(&self) -> (r: Vec<bool>)
        requires
            self.wf(),
        ensures
            r@.len() == self.nodes().len(),
            forall|i: int| 0 <= i < r@.len() ==> #[trigger] r@[i] == nullable_at(self.nodes(), i),
    {
        let nodes = &self.syntax_tree.nodes;
        let ghost ns = nodes@;
        let mut r: Vec<bool> = Vec::new();
        let mut i: usize = 0;
        while i < nodes.len()
            invariant
                ns == nodes@,
                nodes_wf(ns),
                i <= ns.len(),
                r@.len() == i,
                forall|j: int| 0 <= j < i ==> #[trigger] r@[j] == nullable_at(ns, j),
            decreases nodes.len() - i,
        {
            proof {
                assert(node_wf(ns, i as int));
            }
            let nd = &nodes[i];
            let v = match &nd.value {
                Token::Empty => true,
                Token::Kleene => true,
                Token::Concat => r[nd.left.unwrap()] && r[nd.right.unwrap()],
                Token::Union => r[nd.left.unwrap()] || r[nd.right.unwrap()],
                _ => false,
            };
            r.push(v);
            i = i + 1;
        }
        r
    }

    /// followpos of every position: for every concatenation, each position
    /// in lastpos of its left child is followed by firstpos of its right
    /// child; for every star, each position in lastpos of its child is
    /// followed by firstpos of that child.
    pub fn find_followpos(&self) -> (r: Vec<Vec<bool>>)
        requires
            self.wf(),
        ensures
            rows_are(r@, self.nodes().len() as int, |p: int| follow_set(self.nodes(), p)),
    {
        let (fp, lp) = self.find_first_last_pos();
        let nodes = &self.syntax_tree.nodes;
        let ghost ns = nodes@;
        let n = nodes.len();
        let mut fol: Vec<Vec<bool>> = Vec::new();
        let mut p: usize = 0;
        while p < n
            invariant
                p <= n,
                fol@.len() == p,
                forall|j: int|
                    0 <= j < p ==> (#[trigger] fol@[j])@.len() == n && row_set(fol@[j]@)
                        == follow_upto(ns, 0, j),
            decreases n - p,
        {
            let row = empty_row(n);
            proof {
                assert(follow_upto(ns, 0, p as int) =~= Set::<int>::empty());
            }
            fol.push(row);
            p = p + 1;
        }
        let mut c: usize = 0;
        while c < n
            invariant
                ns == nodes@,
                n == ns.len(),
                nodes_wf(ns),
                c <= n,
                rows_are(fp@, n as int, |i: int| first_at(ns, i)),
                rows_are(lp@, n as int, |i: int| last_at(ns, i)),
                fol@.len() == n,
                forall|j: int|
                    0 <= j < n ==> (#[trigger] fol@[j])@.len() == n && row_set(fol@[j]@)
                        == follow_upto(ns, c as int, j),
            decreases n - c,
        {
            proof {
                assert(node_wf(ns, c as int));
            }
            let nd = &nodes[c];
            let is_cat = matches!(nd.value, Token::Concat);
            let is_star = matches!(nd.value, Token::Kleene);
            if is_cat || is_star {
                let a = nd.left.unwrap();
                let b = if is_cat { nd.right.unwrap() } else { a };
                let mut q: usize = 0;
                while q < n
                    invariant
                        ns == nodes@,
                        n == ns.len(),
                        q <= n,
                        a < n && b < n,
                        c < n,
                        is_cat ==> ns[c as int].value@ is Concat && ns[c as int].left == Some(a)
                            && ns[c as int].right == Some(b),
                        is_star ==> ns[c as int].value@ is Kleene && ns[c as int].left == Some(a)
                            && b == a,
                        is_cat || is_star,
                        rows_are(fp@, n as int, |i: int| first_at(ns, i)),
                        rows_are(lp@, n as int, |i: int| last_at(ns, i)),
                        fol@.len() == n,
                        forall|j: int|
                            0 <= j < n ==> (#[trigger] fol@[j])@.len() == n && row_set(fol@[j]@)
                                == if j < q {
                                follow_upto(ns, c + 1, j)
                            } else {
                                follow_upto(ns, c as int, j)
                            },
                    decreases n - q,
                {
                    proof {
                        lemma_follow_step(ns, c as int, q as int);
                        assert(fp@[b as int]@.len() == n);
                        assert(lp@[a as int]@.len() == n);
                        assert(row_set(lp@[a as int]@) == last_at(ns, a as int));
                        assert(row_set(fp@[b as int]@) == first_at(ns, b as int));
                        assert(lp@[a as int]@[q as int] == last_at(ns, a as int).contains(q as int));
                    }
                    if lp[a][q] {
                        let row = or_rows(&fol[q], &fp[b]);
                        proof {
                            assert(row_set(row@) =~= follow_upto(ns, c + 1, q as int));
                        }
                        fol.set(q, row);
                    } else {
                        proof {
                            assert(row_set(fol@[q as int]@) =~= follow_upto(ns, c + 1, q as int));
                        }
                    }
                    q = q + 1;
                }
            } else {
                proof {
                    assert forall|j: int| 0 <= j < n implies follow_upto(ns, c as int, j)
                        == follow_upto(ns, c + 1, j) by {
                        lemma_follow_step(ns, c as int, j);
                        assert(Set::new(|q: int| follows_via(ns, c as int, j, q)) =~= Set::<int>::empty());
                        assert(follow_upto(ns, c as int, j) + Set::<int>::empty() =~= follow_upto(ns, c as int, j));
                    }
                }
            }
            c = c + 1;
        }
        fol
    }

    /// The DFA move from the position set `st` on key `key`.
    fn move_row(&self, st: &Vec<bool>, key: &TransKey, fol: &Vec<Vec<bool>>) -> (r: Vec<bool>)
        requires
            self.wf(),
            st@.len() == self.nodes().len(),
            rows_are(fol@, self.nodes().len() as int, |p: int| follow_set(self.nodes(), p)),
        ensures
            r@.len() == self.nodes().len(),
            row_set(r@) == next_set(self.nodes(), row_set(st@), key@),
    {
        let nodes = &self.syntax_tree.nodes;
        let ghost ns = nodes@;
        let ghost ss = row_set(st@);
        let n = nodes.len();
        let mut row = empty_row(n);
        let mut p: usize = 0;
        proof {
            assert(next_upto(ns, ss, key@, 0) =~= Set::<int>::empty());
        }
        while p < n
            invariant
                ns == nodes@,
                n == ns.len(),
                ss == row_set(st@),
                st@.len() == n,
                p <= n,
                row@.len() == n,
                rows_are(fol@, n as int, |p: int| follow_set(ns, p)),
                row_set(row@) == next_upto(ns, ss, key@, p as int),
            decreases n - p,
        {
            let hit = if st[p] {
                match leaf_key(&nodes[p].value) {
                    Some(k) => key_eq(&k, key),
                    None => false,
                }
            } else {
                false
            };
            proof {
                assert(fol@[p as int]@.len() == n);
                assert(row_set(fol@[p as int]@) == follow_set(ns, p as int));
            }
            if hit {
                row = or_rows(&row, &fol[p]);
                proof {
                    assert(row_set(row@) =~= next_upto(ns, ss, key@, p + 1));
                }
            } else {
                proof {
                    assert(row_set(row@) =~= next_upto(ns, ss, key@, p + 1));
                }
            }
            p = p + 1;
        }
        row
    }

    /// The alphabet of the tree: the distinct keys of its leaves, in the
    /// order they first occur.
    pub fn alphabet(&self) -> (r: Vec<TransKey>)
        requires
            self.wf(),
        ensures
            alphabet_of(self.nodes(), r@),
            keys_view(r@) == alphabet_upto(self.nodes(), self.nodes().len() as int),
    {
        let nodes = &self.syntax_tree.nodes;
        let ghost ns = nodes@;
        let mut keys: Vec<TransKey> = Vec::new();
        let mut p: usize = 0;
        while p < nodes.len()
            invariant
                ns == nodes@,
                p <= ns.len(),
                forall|a: int, b: int| 0 <= a < b < keys@.len() ==> #[trigger] keys@[a]@ != #[trigger] keys@[b]@,
                forall|a: int| 0 <= a < keys@.len() ==> key_from_leaf(ns, #[trigger] keys@[a]@),
                forall|q: int| 0 <= q < p && key_of(#[trigger] ns[q].value@) is Some ==> exists|a: int| 0 <= a < keys@.len() && Some(#[trigger] keys@[a]@) == key_of(ns[q].value@),
                keys_view(keys@) == alphabet_upto(ns, p as int),
            decreases nodes.len() - p,
        {
            let ghost kv0 = keys_view(keys@);
            if let Some(k) = leaf_key(&nodes[p].value) {
                let mut found = false;
                let mut a: usize = 0;
                while a < keys.len()
                    invariant
                        a <= keys@.len(),
                        found ==> exists|b: int| 0 <= b < keys@.len() && #[trigger] keys@[b]@ == k@,
                        !found ==> forall|b: int| 0 <= b < a ==> #[trigger] keys@[b]@ != k@,
                    decreases keys.len() - a,
                {
                    if key_eq(&keys[a], &k) {
                        found = true;
                    }
                    a = a + 1;
                }
                if !found {
                    let ghost old_keys = keys@;
                    keys.push(k);
                    proof {
                        assert(keys@[old_keys.len() as int]@ == key_of(ns[p as int].value@)->0);
                        assert forall|q: int| 0 <= q < p + 1 && key_of(#[trigger] ns[q].value@) is Some implies exists|a: int| 0 <= a < keys@.len() && Some(#[trigger] keys@[a]@) == key_of(ns[q].value@) by {
                            if q < p {
                                let a = choose|a: int| 0 <= a < old_keys.len() && Some(#[trigger] old_keys[a]@) == key_of(ns[q].value@);
                                assert(keys@[a] == old_keys[a]);
                            } else {
                                assert(Some(keys@[old_keys.len() as int]@) == key_of(ns[q].value@));
                            }
                        }
                        assert forall|a: int| 0 <= a < keys@.len() implies key_from_leaf(ns, #[trigger] keys@[a]@) by {
                            if a < old_keys.len() {
                                assert(keys@[a] == old_keys[a]);
                            } else {
                                assert(key_of(ns[p as int].value@) == Some(keys@[a]@));
                            }
                        }
                        assert(!kv0.contains(k@)) by {
                            if kv0.contains(k@) {
                                let b = choose|b: int| 0 <= b < kv0.len() && kv0[b] == k@;
                                assert(old_keys[b]@ == kv0[b]);
                            }
                        }
                        assert(keys_view(keys@) =~= kv0.push(k@));
                    }
                } else {
                    proof {
                        let b = choose|b: int| 0 <= b < keys@.len() && #[trigger] keys@[b]@ == k@;
                        assert(kv0[b] == k@);
                        assert(kv0.contains(k@));
                    }
                }
            }
            p = p + 1;
        }
        keys
    }

    /// Builds the DFA by subset construction over positions: the start
    /// state is firstpos of the root; the move of a state on a key is the
    /// union of followpos over its positions whose leaf consumes that key;
    /// empty moves are omitted; equal position sets are one state; a state
    /// accepts when it holds a sentinel. States are numbered in order of
    /// discovery, reading the table row by row, and every one is reachable. Returns the DFA, the position set
    /// of every state, and the names of the named references in post-order.
    pub fn create_states(&self) -> (r: Result<(Dfa, Vec<Vec<bool>>, Vec<String>), RegexError>)
        requires
            self.wf(),
            self.syntax_tree.root is Some,
        ensures
            r is Err ==> r == Err::<(Dfa, Vec<Vec<bool>>, Vec<String>), RegexError>(
                RegexError::TooManyStates,
            ) && too_many_sets(self.nodes(), self.syntax_tree.root->0 as int),
            r matches Ok((dfa, sets, names)) ==> direct_dfa_of(*self, dfa, sets@, names@),
    {
        let (_labels, root, names) = self.read_tree();
        let fol = self.find_followpos();
        let (fp, _lp) = self.find_first_last_pos();
        let keys = self.alphabet();
        let nodes = &self.syntax_tree.nodes;
        let ghost ns = nodes@;
        let n = nodes.len();
        let nk = keys.len();
        proof {
            assert(fp@[root as int]@.len() == n);
        }
        let start_row = or_rows(&fp[root], &fp[root]);
        let mut sets: Vec<Vec<bool>> = Vec::new();
        sets.push(start_row);
        let mut delta: Vec<Vec<Option<usize>>> = Vec::new();
        let mut cur: usize = 0;
        proof {
            assert(row_set(sets@[0]@) == first_at(ns, root as int));
            lemma_reach_base(ns, root as int, row_set(sets@[0]@));
            assert(reachable(ns, root as int, row_set(sets@[0]@)));
        }
        while cur < sets.len()
            invariant
                ns == nodes@,
                ns == self.nodes(),
                n == ns.len(),
                nk == keys@.len(),
                keys_view(keys@) == alphabet_upto(ns, ns.len() as int),
                self.wf(),
                rows_are(fol@, n as int, |p: int| follow_set(ns, p)),
                1 <= sets@.len() <= MAX_DFA_STATES,
                cur <= sets@.len(),
                delta@.len() == cur,
                row_set(sets@[0]@) == first_at(ns, root as int),
                self.syntax_tree.root == Some(root),
                alphabet_of(ns, keys@),
                forall|s: int| 0 <= s < sets@.len() ==> reachable(ns, root as int, row_set((#[trigger] sets@[s])@)),
                forall|s: int| 0 <= s < sets@.len() ==> (#[trigger] sets@[s])@.len() == n,
                forall|a: int, b: int|
                    0 <= a < b < sets@.len() ==> #[trigger] sets@[a]@ != #[trigger] sets@[b]@,
                forall|s: int| 0 <= s < cur ==> (#[trigger] delta@[s])@.len() == nk,
                forall|s: int, k: int|
                    0 <= s < cur && 0 <= k < nk ==> match #[trigger] delta@[s]@[k] {
                        Some(t) => t < sets@.len() && row_set(sets@[t as int]@) == next_set(ns, row_set(sets@[s]@), keys@[k]@)
                            && row_set(sets@[t as int]@) != Set::<int>::empty(),
                        None => next_set(ns, row_set(sets@[s]@), keys@[k]@) == Set::<int>::empty(),
                    },
                first_seen_in_order(rows_flat(delta@), sets@.len() as int),
            decreases MAX_DFA_STATES - cur,
        {
            let mut drow: Vec<Option<usize>> = Vec::new();
            proof {
                assert(rows_flat(delta@) + drow@ =~= rows_flat(delta@));
            }
            let mut k: usize = 0;
            while k < nk
                invariant
                    ns == nodes@,
                    ns == self.nodes(),
                    n == ns.len(),
                    nk == keys@.len(),
                    keys_view(keys@) == alphabet_upto(ns, ns.len() as int),
                keys_view(keys@) == alphabet_upto(ns, ns.len() as int),
                    self.wf(),
                    rows_are(fol@, n as int, |p: int| follow_set(ns, p)),
                    1 <= sets@.len() <= MAX_DFA_STATES,
                    cur < sets@.len(),
                    delta@.len() == cur,
                    k <= nk,
                    drow@.len() == k,
                    row_set(sets@[0]@) == first_at(ns, root as int),
                    self.syntax_tree.root == Some(root),
                    alphabet_of(ns, keys@),
                    forall|s: int| 0 <= s < sets@.len() ==> reachable(ns, root as int, row_set((#[trigger] sets@[s])@)),
                    forall|s: int| 0 <= s < sets@.len() ==> (#[trigger] sets@[s])@.len() == n,
                    forall|a: int, b: int|
                        0 <= a < b < sets@.len() ==> #[trigger] sets@[a]@ != #[trigger] sets@[b]@,
                    forall|s: int| 0 <= s < cur ==> (#[trigger] delta@[s])@.len() == nk,
                    forall|s: int, k: int|
                        0 <= s < cur && 0 <= k < nk ==> match #[trigger] delta@[s]@[k] {
                            Some(t) => t < sets@.len() && row_set(sets@[t as int]@) == next_set(ns, row_set(sets@[s]@), keys@[k]@)
                                && row_set(sets@[t as int]@) != Set::<int>::empty(),
                            None => next_set(ns, row_set(sets@[s]@), keys@[k]@) == Set::<int>::empty(),
                        },
                    forall|j: int|
                        0 <= j < k ==> match #[trigger] drow@[j] {
                            Some(t) => t < sets@.len() && row_set(sets@[t as int]@) == next_set(ns, row_set(sets@[cur as int]@), keys@[j]@)
                                && row_set(sets@[t as int]@) != Set::<int>::empty(),
                            None => next_set(ns, row_set(sets@[cur as int]@), keys@[j]@) == Set::<int>::empty(),
                        },
                    first_seen_in_order(rows_flat(delta@) + drow@, sets@.len() as int),
                decreases nk - k,
            {
                proof {
                    assert(sets@[cur as int]@.len() == n);
                }
                let row = self.move_row(&sets[cur], &keys[k], &fol);
                let ghost want = next_set(ns, row_set(sets@[cur as int]@), keys@[k as int]@);
                let ghost old_drow = drow@;
                let ghost old_sets = sets@;
                if row_is_empty(&row) {
                    drow.push(None);
                } else {
                    let mut found: Option<usize> = None;
                    let mut j: usize = 0;
                    while j < sets.len()
                        invariant
                            j <= sets@.len(),
                            found matches Some(t) ==> t < sets@.len() && sets@[t as int]@ == row@,
                            found is None ==> forall|m: int| 0 <= m < j ==> #[trigger] sets@[m]@ != row@,
                        decreases sets.len() - j,
                    {
                        if found.is_none() && rows_equal(&sets[j], &row) {
                            found = Some(j);
                        }
                        j = j + 1;
                    }
                    match found {
                        Some(t) => {
                            drow.push(Some(t));
                        },
                        None => {
                            let ghost dnew: nat = 0;
                            proof {
                                assert(reachable(ns, root as int, row_set(sets@[cur as int]@)));
                                let dc = choose|d: nat| reach_set(ns, root as int, row_set(sets@[cur as int]@), d);
                                assert(key_from_leaf(ns, keys@[k as int]@));
                                lemma_reach_step(ns, root as int, row_set(sets@[cur as int]@), keys@[k as int]@, dc);
                                assert(row_set(row@) == next_set(ns, row_set(sets@[cur as int]@), keys@[k as int]@));
                                dnew = dc + 1;
                            }
                            if sets.len() >= MAX_DFA_STATES {
                                proof {
                                    let rows = Seq::new(sets@.len(), |i: int| sets@[i]@).push(row@);
                                    assert forall|a: int, b: int| 0 <= a < b < rows.len() implies #[trigger] rows[a] != #[trigger] rows[b] by {
                                        if b == rows.len() - 1 {
                                            assert(rows[a] == sets@[a]@);
                                        }
                                    }
                                    assert forall|i: int| 0 <= i < rows.len() implies (#[trigger] rows[i]).len() == ns.len() && reachable(ns, root as int, row_set(rows[i])) by {
                                        if i < sets@.len() {
                                            assert(rows[i] == sets@[i]@);
                                        } else {
                                            assert(reach_set(ns, root as int, row_set(rows[i]), dnew));
                                        }
                                    }
                                    assert(reachable_rows(ns, root as int, rows));
                                    assert(too_many_sets(ns, root as int));
                                }
                                return Err(RegexError::TooManyStates);
                            }
                            let t = sets.len();
                            let ghost cur_set = sets@[cur as int]@;
                            let ghost before_push = sets@;
                            sets.push(row);
                            assert(sets@[cur as int]@ == cur_set);
                            proof {
                                assert forall|q: int| 0 <= q < sets@.len() implies reachable(ns, root as int, row_set((#[trigger] sets@[q])@)) by {
                                    if q < before_push.len() {
                                        assert(sets@[q] == before_push[q]);
                                    } else {
                                        assert(reach_set(ns, root as int, row_set(sets@[q]@), dnew));
                                    }
                                }
                            }
                            drow.push(Some(t));
                        },
                    }
                }
                proof {
                    let f0 = rows_flat(delta@) + old_drow;
                    let x = drow@[k as int];
                    assert(drow@ == old_drow.push(x));
                    assert(rows_flat(delta@) + drow@ =~= f0.push(x));
                    assert(sets@.len() == if x == Some(old_sets.len() as usize) { old_sets.len() + 1 } else { old_sets.len() + 0 });
                    lemma_seen_push(f0, x, old_sets.len() as int, sets@.len() as int);
                    assert forall|j: int|
                        0 <= j < k + 1 implies match #[trigger] drow@[j] {
                            Some(t) => t < sets@.len() && row_set(sets@[t as int]@) == next_set(ns, row_set(sets@[cur as int]@), keys@[j]@)
                                && row_set(sets@[t as int]@) != Set::<int>::empty(),
                            None => next_set(ns, row_set(sets@[cur as int]@), keys@[j]@) == Set::<int>::empty(),
                        } by {
                        assert(sets@[cur as int] == old_sets[cur as int]);
                        if j < k {
                            assert(drow@[j] == old_drow[j]);
                            match old_drow[j] {
                                Some(t) => {
                                    assert(sets@[t as int] == old_sets[t as int]);
                                },
                                None => {},
                            }
                        }
                    }
                }
                k = k + 1;
            }
            let ghost dr = drow@;
            let ghost d0 = delta@;
            delta.push(drow);
            proof {
                assert(delta@.drop_last() =~= d0);
                assert(rows_flat(delta@) == rows_flat(d0) + dr);
            }
            cur = cur + 1;
        }
        let mut accept: Vec<bool> = Vec::new();
        let mut s: usize = 0;
        while s < sets.len()
            invariant
                ns == nodes@,
                n == ns.len(),
                s <= sets@.len(),
                accept@.len() == s,
                forall|m: int| 0 <= m < sets@.len() ==> (#[trigger] sets@[m])@.len() == n,
                forall|m: int| 0 <= m < s ==> #[trigger] accept@[m] == has_sentinel(ns, row_set(sets@[m]@)),
            decreases sets.len() - s,
        {
            let mut acc = false;
            let mut p: usize = 0;
            while p < n
                invariant
                    ns == nodes@,
                    n == ns.len(),
                    s < sets@.len(),
                    sets@[s as int]@.len() == n,
                    p <= n,
                    acc ==> has_sentinel(ns, row_set(sets@[s as int]@)),
                    !acc ==> forall|q: int| 0 <= q < p ==> !(row_set(sets@[s as int]@).contains(q) && #[trigger] ns[q].value@ is Sentinel),
                decreases n - p,
            {
                if sets[s][p] && matches!(nodes[p].value, Token::Sentinel) {
                    assert(row_set(sets@[s as int]@).contains(p as int));
                    acc = true;
                }
                p = p + 1;
            }
            accept.push(acc);
            s = s + 1;
        }
        let dfa = Dfa { keys, delta, accept, start: 0 };
        proof {
            assert forall|s: int, k: int|
                0 <= s < dfa.delta@.len() && 0 <= k < dfa.keys@.len() implies (
                #[trigger] dfa.delta@[s]@[k] matches Some(t) ==> t < dfa.delta@.len()) by {
                assert(dfa.delta@[s] == delta@[s]);
            }
        }
        Ok((dfa, sets, names))
    }

    /// The DFA of the tree by the direct construction, with the names of
    /// its named references in post-order.
    pub fn generate_afd(&self) -> (r: Result<(Dfa, Vec<String>), RegexError>)
        requires
            self.wf(),
            self.syntax_tree.root is Some,
        ensures
            r is Err ==> r == Err::<(Dfa, Vec<String>), RegexError>(RegexError::TooManyStates),
            r matches Ok((dfa, names)) ==> dfa.wf() && dfa.start == 0 && alphabet_of(self.nodes(), dfa.keys@)
                && names@.len() == names_before(self.nodes(), self.nodes().len() as int).len(),
    {
        match self.create_states() {
            Ok((dfa, _sets, names)) => Ok((dfa, names)),
            Err(e) => Err(e),
        }
    }

    /// firstpos and lastpos of every node, as rows of booleans over the
    /// node indices.
    pub fn find_first_last_pos(&self) -> (r: (Vec<Vec<bool>>, Vec<Vec<bool>>))
        requires
            self.wf(),
        ensures
            rows_are(r.0@, self.nodes().len() as int, |i: int| first_at(self.nodes(), i)),
            rows_are(r.1@, self.nodes().len() as int, |i: int| last_at(self.nodes(), i)),
    {
        let nullable = self.find_nullable();
        let nodes = &self.syntax_tree.nodes;
        let ghost ns = nodes@;
        let n = nodes.len();
        let mut fp: Vec<Vec<bool>> = Vec::new();
        let mut lp: Vec<Vec<bool>> = Vec::new();
        let mut i: usize = 0;
        while i < n
            invariant
                ns == nodes@,
                n == ns.len(),
                nodes_wf(ns),
                i <= n,
                nullable@.len() == n,
                forall|j: int| 0 <= j < n ==> #[trigger] nullable@[j] == nullable_at(ns, j),
                fp@.len() == i,
                lp@.len() == i,
                forall|j: int|
                    0 <= j < i ==> (#[trigger] fp@[j])@.len() == n && row_set(fp@[j]@) == first_at(
                        ns,
                        j,
                    ),
                forall|j: int|
                    0 <= j < i ==> (#[trigger] lp@[j])@.len() == n && row_set(lp@[j]@) == last_at(
                        ns,
                        j,
                    ),
            decreases n - i,
        {
            proof {
                assert(node_wf(ns, i as int));
            }
            let nd = &nodes[i];
            let (f, l) = match &nd.value {
                Token::Empty => (empty_row(n), empty_row(n)),
                Token::Kleene => {
                    let c = nd.left.unwrap();
                    (or_rows(&fp[c], &fp[c]), or_rows(&lp[c], &lp[c]))
                },
                Token::Concat => {
                    let a = nd.left.unwrap();
                    let b = nd.right.unwrap();
                    let f = if nullable[a] {
                        or_rows(&fp[a], &fp[b])
                    } else {
                        or_rows(&fp[a], &fp[a])
                    };
                    let l = if nullable[b] {
                        or_rows(&lp[a], &lp[b])
                    } else {
                        or_rows(&lp[b], &lp[b])
                    };
                    (f, l)
                },
                Token::Union => {
                    let a = nd.left.unwrap();
                    let b = nd.right.unwrap();
                    (or_rows(&fp[a], &fp[b]), or_rows(&lp[a], &lp[b]))
                },
                _ => {
                    let mut f = empty_row(n);
                    f.set(i, true);
                    let mut l = empty_row(n);
                    l.set(i, true);
                    proof {
                        assert(row_set(f@) =~= set![i as int]);
                        assert(row_set(l@) =~= set![i as int]);
                    }
                    (f, l)
                },
            };
            proof {
                if nd.value@ is Kleene || nd.value@ is Concat || nd.value@ is Union {
                    assert(row_set(f@) =~= first_at(ns, i as int));
                    assert(row_set(l@) =~= last_at(ns, i as int));
                }
            }
            fp.push(f);
            lp.push(l);
            i = i + 1;
        }
        (fp, lp)
    }
}

} // verus!
