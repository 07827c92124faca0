//! The LALR(1) automaton: the LR(0) states with lookahead sets, computed by
//! propagation until nothing changes, and its ACTION/GOTO tables.
use vstd::prelude::*;
use crate::syn::bits::{false_row, find_index, index_of, lemma_count_true_set, lemma_total_bound, total_true, count_true};
use crate::syn::first_follow::{copy_row, dollar, include_cells, rows_shape, set_cell};
use crate::syn::syn_analyzer::{has_entry, insert_action, unique_keys, Action, ActionEntry, GotoEntry, GrammarConflict};
use crate::syn::slr_automata::{goto_entries, goto_matches, slr_wants, states_distinct, partial_automaton, MAX_LR_STATES, 
    automaton_ok, closed, elem_eq, holds, item_ok, items_ok, next_of, ElemModel, Element, Production, SLR,
    TooManyStates,
};

verus! {

/// Every symbol of `body` from `i` on is a non-terminal marked nullable.
pub open spec fn rest_nullable(body: Seq<Element>, nts: Seq<String>, nullable: Seq<bool>, i: int) -> bool {
    forall|j: int| i <= j < body.len() ==> match (#[trigger] body[j])@ {
        ElemModel::NonTerminal(y) => match index_of(nts, y) {
            Some(c) => nullable[c],
            None => false,
        },
        ElemModel::Terminal(_) => false,
    }
}

/// Non-terminal `a` derives the empty string by a derivation of depth `d`.
pub open spec fn nullable_deriv(g: Seq<Production>, nts: Seq<String>, a: int, d: nat) -> bool
    decreases d,
{
    exists|p: int|
        0 <= p < g.len() && index_of(nts, (#[trigger] g[p]).head@) == Some(a) && forall|j: int|
            0 <= j < g[p].body@.len() ==> match (#[trigger] g[p].body@[j])@ {
                ElemModel::NonTerminal(y) => match index_of(nts, y) {
                    Some(c) => d > 0 && nullable_deriv(g, nts, c, (d - 1) as nat),
                    None => false,
                },
                ElemModel::Terminal(_) => false,
            }
}

proof fn lemma_nullable_mono(g: Seq<Production>, nts: Seq<String>, a: int, d: nat)
    requires
        nullable_deriv(g, nts, a, d),
    ensures
        nullable_deriv(g, nts, a, d + 1),
    decreases d,
{
    let p = choose|p: int|
        0 <= p < g.len() && index_of(nts, (#[trigger] g[p]).head@) == Some(a) && forall|j: int|
            0 <= j < g[p].body@.len() ==> match (#[trigger] g[p].body@[j])@ {
                ElemModel::NonTerminal(y) => match index_of(nts, y) {
                    Some(c) => d > 0 && nullable_deriv(g, nts, c, (d - 1) as nat),
                    None => false,
                },
                ElemModel::Terminal(_) => false,
            };
    assert forall|j: int| 0 <= j < g[p].body@.len() implies match (#[trigger] g[p].body@[j])@ {
        ElemModel::NonTerminal(y) => match index_of(nts, y) {
            Some(c) => d + 1 > 0 && nullable_deriv(g, nts, c, d),
            None => false,
        },
        ElemModel::Terminal(_) => false,
    } by {
        match g[p].body@[j]@ {
            ElemModel::NonTerminal(y) => match index_of(nts, y) {
                Some(c) => {
                    lemma_nullable_mono(g, nts, c, (d - 1) as nat);
                },
                None => {},
            },
            ElemModel::Terminal(_) => {},
        }
    }
}

/// The non-terminals that derive the empty string: the least marking in
/// which a head is marked when its whole body is marked non-terminals.
pub fn find_nullable(prods: &Vec<Production>, nts: &Vec<String>) -> (r: Vec<bool>)
    ensures
        r@.len() == nts@.len(),
        forall|p: int| 0 <= p < prods@.len() && rest_nullable(prods@[p].body@, nts@, r@, 0) ==> match index_of(nts@, (#[trigger] prods@[p]).head@) {
            Some(a) => r@[a],
            None => true,
        },
        forall|a: int| 0 <= a < nts@.len() && #[trigger] r@[a] ==> nullable_deriv(prods@, nts@, a, count_true(r@)),
{
    let ghost g = prods@;
    let n = nts.len();
    let mut r = false_row(n);
    let mut changed = true;
    proof {
        crate::syn::bits::lemma_count_true_bound(r@);
    }
    while changed
        invariant
            g == prods@,
            n == nts@.len(),
            r@.len() == n,
            count_true(r@) <= n,
            forall|a: int| 0 <= a < n && #[trigger] r@[a] ==> nullable_deriv(g, nts@, a, count_true(r@)),
            !changed ==> forall|p: int| 0 <= p < g.len() && rest_nullable(g[p].body@, nts@, r@, 0) ==> match index_of(nts@, (#[trigger] g[p]).head@) {
                Some(a) => r@[a],
                None => true,
            },
        decreases n - count_true(r@) + if changed { 1int } else { 0int },
    {
        changed = false;
        let ghost c0 = count_true(r@);
        let ghost r0 = r@;
        let mut p: usize = 0;
        while p < prods.len()
            invariant
                g == prods@,
                n == nts@.len(),
                r@.len() == n,
                p <= g.len(),
                count_true(r@) <= n,
                !changed ==> r@ == r0,
                c0 == count_true(r0),
                changed ==> count_true(r@) > c0,
                forall|a: int| 0 <= a < n && #[trigger] r@[a] ==> nullable_deriv(g, nts@, a, count_true(r@)),
                !changed ==> forall|q: int| 0 <= q < p && rest_nullable(g[q].body@, nts@, r@, 0) ==> match index_of(nts@, (#[trigger] g[q]).head@) {
                    Some(a) => r@[a],
                    None => true,
                },
            decreases g.len() - p,
        {
            let body = &prods[p].body;
            let mut all = true;
            let mut j: usize = 0;
            while j < body.len()
                invariant
                    n == nts@.len(),
                    r@.len() == n,
                    j <= body@.len(),
                    all ==> forall|i: int| 0 <= i < j ==> match (#[trigger] body@[i])@ {
                        ElemModel::NonTerminal(y) => match index_of(nts@, y) {
                            Some(c) => r@[c],
                            None => false,
                        },
                        ElemModel::Terminal(_) => false,
                    },
                    !all ==> !rest_nullable(body@, nts@, r@, 0),
                decreases body.len() - j,
            {
                let ok = match &body[j] {
                    Element::NonTerminal(y) => match find_index(nts, y) {
                        Some(c) => {
                            proof {
                                crate::syn::bits::lemma_index_of(nts@, y@);
                            }
                            r[c]
                        },
                        None => false,
                    },
                    Element::Terminal(_) => false,
                };
                if !ok {
                    all = false;
                }
                j = j + 1;
            }
            if all {
                if let Some(a) = find_index(nts, &prods[p].head) {
                    proof {
                        crate::syn::bits::lemma_index_of(nts@, prods@[p as int].head@);
                    }
                    if !r[a] {
                        let ghost c = count_true(r@);
                        proof {
                            let pp = p as int;
                            assert forall|i: int| 0 <= i < g[pp].body@.len() implies match (#[trigger] g[pp].body@[i])@ {
                                ElemModel::NonTerminal(y) => match index_of(nts@, y) {
                                    Some(cc) => c + 1 > 0 && nullable_deriv(g, nts@, cc, c),
                                    None => false,
                                },
                                ElemModel::Terminal(_) => false,
                            } by {
                                assert(body@[i] == g[pp].body@[i]);
                                match body@[i]@ {
                                    ElemModel::NonTerminal(y) => match index_of(nts@, y) {
                                        Some(cc) => {
                                            crate::syn::bits::lemma_index_of(nts@, y);
                                            assert(r@[cc]);
                                        },
                                        None => {},
                                    },
                                    ElemModel::Terminal(_) => {},
                                }
                            }
                            assert(nullable_deriv(g, nts@, a as int, c + 1));
                        }
                        let ghost before = r@;
                        r.set(a, true);
                        proof {
                            lemma_count_true_set(before, a as int);
                            crate::syn::bits::lemma_count_true_bound(r@);
                            assert forall|b: int| 0 <= b < n && #[trigger] r@[b] implies nullable_deriv(g, nts@, b, count_true(r@)) by {
                                if b != a {
                                    lemma_nullable_mono(g, nts@, b, c);
                                }
                            }
                        }
                        changed = true;
                    }
                }
            }
            p = p + 1;
        }
    }
    r
}

/// Terminal `a` begins the symbols of `body` from `i` on: some symbol at
/// or after `i`, with only nullable non-terminals before it, is the
/// terminal `a` or a non-terminal whose FIRST holds `a`.
pub open spec fn seq_first_has(
    body: Seq<Element>,
    terms: Seq<String>,
    nts: Seq<String>,
    first: Seq<Vec<bool>>,
    nullable: Seq<bool>,
    i: int,
    a: int,
) -> bool {
    exists|j: int|
        i <= j < body.len() && (forall|m: int| i <= m < j ==> #[trigger] nullable_elem(body[m], nts, nullable))
            && match (#[trigger] body[j])@ {
            ElemModel::Terminal(x) => index_of(terms, x) == Some(a),
            ElemModel::NonTerminal(y) => match index_of(nts, y) {
                Some(c) => first[c]@[a],
                None => false,
            },
        }
}

/// The element is a non-terminal marked nullable.
pub open spec fn nullable_elem(e: Element, nts: Seq<String>, nullable: Seq<bool>) -> bool {
    match e@ {
        ElemModel::NonTerminal(y) => match index_of(nts, y) {
            Some(c) => nullable[c],
            None => false,
        },
        ElemModel::Terminal(_) => false,
    }
}

/// FIRST of the symbols of `body` from `i` on, and whether they can all
/// derive the empty string.
pub fn first_of_rest(
    body: &Vec<Element>,
    i: usize,
    terms: &Vec<String>,
    nts: &Vec<String>,
    first: &Vec<Vec<bool>>,
    nullable: &Vec<bool>,
) -> (r: (Vec<bool>, bool))
    requires
        rows_shape(first@, nts@.len() as int, terms@.len() as int),
        nullable@.len() == nts@.len(),
    ensures
        r.0@.len() == terms@.len(),
        forall|a: int| 0 <= a < terms@.len() ==> (#[trigger] r.0@[a] <==> seq_first_has(body@, terms@, nts@, first@, nullable@, i as int, a)),
        r.1 <==> forall|m: int| i <= m < body@.len() ==> #[trigger] nullable_elem(body@[m], nts@, nullable@),
{
    let w = terms.len();
    let mut row = false_row(w);
    let mut j: usize = i;
    let mut go = true;
    while j < body.len() && go
        invariant
            w == terms@.len(),
            rows_shape(first@, nts@.len() as int, terms@.len() as int),
            nullable@.len() == nts@.len(),
            i <= j,
            j == i || j <= body@.len(),
            row@.len() == w,
            go ==> forall|m: int| i <= m < j ==> #[trigger] nullable_elem(body@[m], nts@, nullable@),
            !go ==> j > i && !nullable_elem(body@[j - 1], nts@, nullable@) && forall|m: int| i <= m < j - 1 ==> #[trigger] nullable_elem(body@[m], nts@, nullable@),
            forall|a: int| 0 <= a < w ==> (#[trigger] row@[a] <==> exists|jj: int|
                i <= jj < j && (forall|m: int| i <= m < jj ==> #[trigger] nullable_elem(body@[m], nts@, nullable@))
                    && match (#[trigger] body@[jj])@ {
                    ElemModel::Terminal(x) => index_of(terms@, x) == Some(a),
                    ElemModel::NonTerminal(y) => match index_of(nts@, y) {
                        Some(c) => first@[c]@[a],
                        None => false,
                    },
                }),
        decreases body.len() - j,
    {
        let ghost before = row@;
        match &body[j] {
            Element::Terminal(x) => {
                if let Some(t) = find_index(terms, x) {
                    proof {
                        crate::syn::bits::lemma_index_of(terms@, x@);
                    }
                    row.set(t, true);
                } else {
                    proof {
                        crate::syn::bits::lemma_index_of(terms@, x@);
                    }
                }
                go = false;
            },
            Element::NonTerminal(y) => {
                match find_index(nts, y) {
                    Some(c) => {
                        proof {
                            crate::syn::bits::lemma_index_of(nts@, y@);
                        }
                        let mut a: usize = 0;
                        while a < w
                            invariant
                                w == terms@.len(),
                                rows_shape(first@, nts@.len() as int, terms@.len() as int),
                                c < nts@.len(),
                                a <= w,
                                row@.len() == w,
                                forall|b: int| 0 <= b < w ==> #[trigger] row@[b] == (before[b] || (b < a && first@[c as int]@[b])),
                            decreases w - a,
                        {
                            if first[c][a] {
                                row.set(a, true);
                            }
                            a = a + 1;
                        }
                        if !nullable[c] {
                            go = false;
                        }
                    },
                    None => {
                        proof {
                            crate::syn::bits::lemma_index_of(nts@, y@);
                        }
                        go = false;
                    },
                }
            },
        }
        proof {
            assert forall|a: int| 0 <= a < w implies (#[trigger] row@[a] <==> exists|jj: int|
                i <= jj < j + 1 && (forall|m: int| i <= m < jj ==> #[trigger] nullable_elem(body@[m], nts@, nullable@))
                    && match (#[trigger] body@[jj])@ {
                    ElemModel::Terminal(x) => index_of(terms@, x) == Some(a),
                    ElemModel::NonTerminal(y) => match index_of(nts@, y) {
                        Some(c) => first@[c]@[a],
                        None => false,
                    },
                }) by {
                if row@[a] && !before[a] {
                    assert(i <= j && (forall|m: int| i <= m < j ==> #[trigger] nullable_elem(body@[m], nts@, nullable@)));
                }
            }
        }
        j = j + 1;
    }
    let all = go;
    proof {
        assert forall|a: int| 0 <= a < terms@.len() implies (#[trigger] row@[a] <==> seq_first_has(body@, terms@, nts@, first@, nullable@, i as int, a)) by {
            if seq_first_has(body@, terms@, nts@, first@, nullable@, i as int, a) {
                let jj = choose|jj: int|
                    i <= jj < body@.len() && (forall|m: int| i <= m < jj ==> #[trigger] nullable_elem(body@[m], nts@, nullable@))
                        && match (#[trigger] body@[jj])@ {
                        ElemModel::Terminal(x) => index_of(terms@, x) == Some(a),
                        ElemModel::NonTerminal(y) => match index_of(nts@, y) {
                            Some(c) => first@[c]@[a],
                            None => false,
                        },
                    };
                if !go && jj >= j {
                    assert(nullable_elem(body@[j - 1], nts@, nullable@));
                }
            }
        }
    }
    (row, all)
}

/// `la[dst]` holds every cell of `src`.
pub open spec fn row_covers(la: Seq<Vec<bool>>, dst: int, src: Seq<bool>) -> bool {
    forall|u: int| 0 <= u < src.len() && #[trigger] src[u] ==> la[dst]@[u]
}

/// The flat index of item `k` of state `s`.
pub open spec fn flat(off: Seq<usize>, s: int, k: int) -> int {
    off[s] + k
}

/// `off` numbers the items of all states consecutively.
pub open spec fn offsets_ok(off: Seq<usize>, contents: Seq<Vec<(usize, usize)>>) -> bool {
    &&& off.len() == contents.len() + 1
    &&& off[0] == 0
    &&& forall|s: int| 0 <= s < contents.len() ==> #[trigger] off[s + 1] == off[s] + contents[s]@.len()
}

/// The lookahead rules of item `k` of state `s` hold: its lookaheads pass
/// along its transition to the item with the dot moved; and when the dot
/// stands before a non-terminal `B`, every item `[B → · γ]` of the state
/// gets FIRST of what follows `B`, and the item's own lookaheads when all
/// of that can derive the empty string.
pub open spec fn la_rules_ok(
    g: Seq<Production>,
    contents: Seq<Vec<(usize, usize)>>,
    edges: Seq<(usize, Element, usize)>,
    terms: Seq<String>,
    nts: Seq<String>,
    first: Seq<Vec<bool>>,
    nullable: Seq<bool>,
    off: Seq<usize>,
    la: Seq<Vec<bool>>,
    s: int,
    k: int,
) -> bool {
    let it = contents[s]@[k];
    let me = flat(off, s, k);
    &&& forall|e: int, k2: int| 0 <= e < edges.len() && (#[trigger] edges[e]).0 == s && next_of(g, it) == Some(edges[e].1@)
        && 0 <= k2 < contents[edges[e].2 as int]@.len() && #[trigger] contents[edges[e].2 as int]@[k2] == (it.0, (it.1 + 1) as usize)
        ==> row_covers(la, flat(off, edges[e].2 as int, k2), la[me]@)
    &&& forall|k2: int| 0 <= k2 < contents[s]@.len() && (#[trigger] contents[s]@[k2]).1 == 0
        && next_of(g, it) == Some(ElemModel::NonTerminal(g[contents[s]@[k2].0 as int].head@)) ==> {
        &&& forall|a: int| 0 <= a < terms.len() && seq_first_has(g[it.0 as int].body@, terms, nts, first, nullable, it.1 + 1, a)
            ==> #[trigger] la[flat(off, s, k2)]@[a]
        &&& (forall|m: int| it.1 + 1 <= m < g[it.0 as int].body@.len() ==> #[trigger] nullable_elem(g[it.0 as int].body@[m], nts, nullable))
            ==> row_covers(la, flat(off, s, k2), la[me]@)
    }
}

/// The shared shape of the lookahead rows.
pub open spec fn la_shape(la: Seq<Vec<bool>>, off: Seq<usize>, w: int) -> bool {
    &&& la.len() == off.last()
    &&& forall|r: int| 0 <= r < la.len() ==> (#[trigger] la[r])@.len() == w
}

proof fn lemma_off_mono(off: Seq<usize>, contents: Seq<Vec<(usize, usize)>>, s: int)
    requires
        offsets_ok(off, contents),
        0 <= s <= contents.len(),
    ensures
        off[s] <= off.last(),
    decreases contents.len() - s,
{
    if s < contents.len() {
        lemma_off_mono(off, contents, s + 1);
    }
}

proof fn lemma_flat_in_range(off: Seq<usize>, contents: Seq<Vec<(usize, usize)>>, s: int, k: int)
    requires
        offsets_ok(off, contents),
        0 <= s < contents.len(),
        0 <= k < contents[s]@.len(),
    ensures
        0 <= flat(off, s, k) < off.last(),
{
    lemma_off_mono(off, contents, s + 1);
}

/// The fixed inputs of the lookahead computation.
pub struct LaCtx {
    pub g: Seq<Production>,
    pub contents: Seq<Vec<(usize, usize)>>,
    pub edges: Seq<(usize, Element, usize)>,
    pub terms: Seq<String>,
    pub nts: Seq<String>,
    pub first: Seq<Vec<bool>>,
    pub nullable: Seq<bool>,
    pub off: Seq<usize>,
}

/// Transition `e` takes item `k` of its source state to item `k2` of its
/// target state, with the dot moved over the transition's symbol.
pub open spec fn la_goto_link(c: LaCtx, e: int, k: int, k2: int) -> bool {
    let s = c.edges[e].0 as int;
    let t = c.edges[e].2 as int;
    &&& 0 <= e < c.edges.len()
    &&& 0 <= s < c.contents.len() && 0 <= t < c.contents.len()
    &&& 0 <= k < c.contents[s]@.len() && 0 <= k2 < c.contents[t]@.len()
    &&& next_of(c.g, c.contents[s]@[k]) == Some(c.edges[e].1@)
    &&& c.contents[t]@[k2] == (c.contents[s]@[k].0, (c.contents[s]@[k].1 + 1) as usize)
}

/// In state `s`, item `k` has its dot before the head of item `k2`, which
/// has its dot at the start.
pub open spec fn la_closure_link(c: LaCtx, s: int, k: int, k2: int) -> bool {
    &&& 0 <= s < c.contents.len()
    &&& 0 <= k < c.contents[s]@.len() && 0 <= k2 < c.contents[s]@.len()
    &&& c.contents[s]@[k2].1 == 0
    &&& next_of(c.g, c.contents[s]@[k]) == Some(ElemModel::NonTerminal(c.g[c.contents[s]@[k2].0 as int].head@))
}

/// What follows the dot of item `k` of state `s` can all derive the empty string.
pub open spec fn la_rest_nullable(c: LaCtx, s: int, k: int) -> bool {
    let it = c.contents[s]@[k];
    forall|m: int| it.1 + 1 <= m < c.g[it.0 as int].body@.len() ==> #[trigger] nullable_elem(c.g[it.0 as int].body@[m], c.nts, c.nullable)
}

/// Terminal `a` is a lookahead of flat item `r` by a derivation of depth
/// `d`: `$` on `[S' → · S]` of state 0; or a transition carries it from
/// the item before the dot moved; or the closure puts it on `[B → · γ]`
/// from FIRST of what follows `B` in an item of the same state, or from
/// that item's own lookaheads when what follows can derive the empty string.
pub open spec fn la_deriv(c: LaCtx, r: int, a: int, d: nat) -> bool
    decreases d,
{
    ||| (exists|k0: int| 0 <= k0 < c.contents[0]@.len() && #[trigger] c.contents[0]@[k0] == (0usize, 0usize)
        && r == flat(c.off, 0, k0) && index_of(c.terms, dollar()) == Some(a))
    ||| (exists|e: int, k: int, k2: int| #[trigger] la_goto_link(c, e, k, k2) && r == flat(c.off, c.edges[e].2 as int, k2)
        && d > 0 && la_deriv(c, flat(c.off, c.edges[e].0 as int, k), a, (d - 1) as nat))
    ||| (exists|s: int, k: int, k2: int| #[trigger] la_closure_link(c, s, k, k2) && r == flat(c.off, s, k2) && (
        seq_first_has(c.g[c.contents[s]@[k].0 as int].body@, c.terms, c.nts, c.first, c.nullable, c.contents[s]@[k].1 + 1, a)
        || (la_rest_nullable(c, s, k) && d > 0 && la_deriv(c, flat(c.off, s, k), a, (d - 1) as nat))))
}

/// Every lookahead has a derivation.
pub open spec fn la_sound(c: LaCtx, la: Seq<Vec<bool>>) -> bool {
    forall|r: int, a: int| 0 <= r < la.len() && 0 <= a < c.terms.len() && #[trigger] la[r]@[a] ==> exists|d: nat| la_deriv(c, r, a, d)
}

/// Applies the lookahead rules of item `k` of state `s`.
fn apply_la(
    prods: &Vec<Production>,
    contents: &Vec<Vec<(usize, usize)>>,
    edges: &Vec<(usize, Element, usize)>,
    terms: &Vec<String>,
    nts: &Vec<String>,
    first: &Vec<Vec<bool>>,
    nullable: &Vec<bool>,
    off: &Vec<usize>,
    la: &mut Vec<Vec<bool>>,
    s: usize,
    k: usize,
    changed: &mut bool,
)
    requires
        forall|i: int| 0 <= i < contents@.len() ==> items_ok(prods@, (#[trigger] contents@[i])@),
        forall|e: int| 0 <= e < edges@.len() ==> (#[trigger] edges@[e]).2 < contents@.len(),
        offsets_ok(off@, contents@),
        rows_shape(first@, nts@.len() as int, terms@.len() as int),
        nullable@.len() == nts@.len(),
        la_shape(old(la)@, off@, terms@.len() as int),
        s < contents@.len(),
        k < contents@[s as int]@.len(),
        la_sound(LaCtx { g: prods@, contents: contents@, edges: edges@, terms: terms@, nts: nts@, first: first@, nullable: nullable@, off: off@ }, old(la)@),
    ensures
        la_shape(final(la)@, off@, terms@.len() as int),
        la_sound(LaCtx { g: prods@, contents: contents@, edges: edges@, terms: terms@, nts: nts@, first: first@, nullable: nullable@, off: off@ }, final(la)@),
        !*final(changed) ==> !*old(changed) && final(la)@ == old(la)@
            && la_rules_ok(prods@, contents@, edges@, terms@, nts@, first@, nullable@, off@, final(la)@, s as int, k as int),
        *old(changed) ==> *final(changed),
        *final(changed) && !*old(changed) ==> total_true(final(la)@) > total_true(old(la)@),
        total_true(final(la)@) >= total_true(old(la)@),
        forall|r: int, u: int| 0 <= r < old(la)@.len() && 0 <= u < old(la)@[r]@.len() && #[trigger] old(la)@[r]@[u] ==> final(la)@[r]@[u],
{
    let ghost g = prods@;
    let ghost la0 = la@;
    let ghost ch0 = *changed;
    let ghost ctx = LaCtx { g: prods@, contents: contents@, edges: edges@, terms: terms@, nts: nts@, first: first@, nullable: nullable@, off: off@ };
    let it = contents[s][k];
    proof {
        assert(item_ok(g, contents@[s as int]@[k as int]));
        lemma_flat_in_range(off@, contents@, s as int, k as int);
    }
    let me = off[s] + k;
    let blen = prods[it.0].body.len();
    if it.1 >= blen {
        return;
    }
    let x = &prods[it.0].body[it.1];
    let mut e: usize = 0;
    while e < edges.len()
        invariant
            g == prods@,
            forall|i: int| 0 <= i < contents@.len() ==> items_ok(g, (#[trigger] contents@[i])@),
            forall|e: int| 0 <= e < edges@.len() ==> (#[trigger] edges@[e]).2 < contents@.len(),
            offsets_ok(off@, contents@),
            la_shape(la@, off@, terms@.len() as int),
            s < contents@.len(),
            k < contents@[s as int]@.len(),
            it == contents@[s as int]@[k as int],
            me == flat(off@, s as int, k as int),
            0 <= me < off@.last(),
            next_of(g, it) == Some(x@),
            it.0 < g.len(),
            it.1 < blen,
            blen == g[it.0 as int].body@.len(),
            e <= edges@.len(),
            ch0 ==> *changed,
            !*changed ==> la@ == la0,
            *changed && !ch0 ==> total_true(la@) > total_true(la0),
            total_true(la@) >= total_true(la0),
            forall|r: int, u: int| 0 <= r < la0.len() && 0 <= u < la0[r]@.len() && #[trigger] la0[r]@[u] ==> la@[r]@[u],
                la_shape(la0, off@, terms@.len() as int),
                la_sound(ctx, la@),
                ctx == (LaCtx { g: prods@, contents: contents@, edges: edges@, terms: terms@, nts: nts@, first: first@, nullable: nullable@, off: off@ }),
            !*changed ==> forall|ee: int, k2: int| 0 <= ee < e && (#[trigger] edges@[ee]).0 == s && next_of(g, it) == Some(edges@[ee].1@)
                && 0 <= k2 < contents@[edges@[ee].2 as int]@.len() && #[trigger] contents@[edges@[ee].2 as int]@[k2] == (it.0, (it.1 + 1) as usize)
                ==> row_covers(la@, flat(off@, edges@[ee].2 as int, k2), la@[me as int]@),
        decreases edges.len() - e,
    {
        if edges[e].0 == s && elem_eq(&edges[e].1, x) {
            let t = edges[e].2;
            let mut k2: usize = 0;
            while k2 < contents[t].len()
                invariant
                    g == prods@,
                    forall|i: int| 0 <= i < contents@.len() ==> items_ok(g, (#[trigger] contents@[i])@),
                    forall|e: int| 0 <= e < edges@.len() ==> (#[trigger] edges@[e]).2 < contents@.len(),
                    offsets_ok(off@, contents@),
                    la_shape(la@, off@, terms@.len() as int),
                    t < contents@.len(),
                    e < edges@.len(),
                    edges@[e as int].2 == t,
                    edges@[e as int].0 == s,
                    edges@[e as int].1@ == x@,
                    s < contents@.len(),
                    k < contents@[s as int]@.len(),
                    it == contents@[s as int]@[k as int],
                    next_of(g, it) == Some(x@),
                    it.0 < g.len(),
                    it.1 < blen,
                    blen == g[it.0 as int].body@.len(),
                    me == flat(off@, s as int, k as int),
                    0 <= me < off@.last(),
                    k2 <= contents@[t as int]@.len(),
                    ch0 ==> *changed,
                    !*changed ==> la@ == la0,
                    *changed && !ch0 ==> total_true(la@) > total_true(la0),
                    total_true(la@) >= total_true(la0),
                    forall|r: int, u: int| 0 <= r < la0.len() && 0 <= u < la0[r]@.len() && #[trigger] la0[r]@[u] ==> la@[r]@[u],
                la_shape(la0, off@, terms@.len() as int),
                la_sound(ctx, la@),
                ctx == (LaCtx { g: prods@, contents: contents@, edges: edges@, terms: terms@, nts: nts@, first: first@, nullable: nullable@, off: off@ }),
                    !*changed ==> forall|ee: int, kk: int| 0 <= ee < e && (#[trigger] edges@[ee]).0 == s && next_of(g, it) == Some(edges@[ee].1@)
                        && 0 <= kk < contents@[edges@[ee].2 as int]@.len() && #[trigger] contents@[edges@[ee].2 as int]@[kk] == (it.0, (it.1 + 1) as usize)
                        ==> row_covers(la@, flat(off@, edges@[ee].2 as int, kk), la@[me as int]@),
                    !*changed ==> forall|kk: int| 0 <= kk < k2 && #[trigger] contents@[t as int]@[kk] == (it.0, (it.1 + 1) as usize)
                        ==> row_covers(la@, flat(off@, t as int, kk), la@[me as int]@),
                decreases contents@[t as int]@.len() - k2,
            {
                if contents[t][k2].0 == it.0 && contents[t][k2].1 > it.1 && contents[t][k2].1 - it.1 == 1 {
                    proof {
                        lemma_flat_in_range(off@, contents@, t as int, k2 as int);
                    }
                    let src = copy_row(&la[me]);
                    let dst = off[t] + k2;
                    let ghost before = la@;
                    include_cells(la, &src, dst, None, changed);
                    proof {
                        assert forall|r: int, u: int| 0 <= r < la0.len() && 0 <= u < la0[r]@.len() && #[trigger] la0[r]@[u] implies la@[r]@[u] by {
                            assert(before[r]@[u]);
                        }
                        assert(la_goto_link(ctx, e as int, k as int, k2 as int));
                        assert forall|r: int, u: int| 0 <= r < la@.len() && 0 <= u < ctx.terms.len() && #[trigger] la@[r]@[u] implies exists|d: nat| la_deriv(ctx, r, u, d) by {
                            if !before[r]@[u] {
                                assert(src@[u]);
                                assert(before[me as int]@[u]);
                                let d = choose|d: nat| la_deriv(ctx, me as int, u, d);
                                assert(la_deriv(ctx, r, u, d + 1));
                            }
                        }
                        if !*changed {
                            assert(la@ == before);
                            assert(row_covers(la@, flat(off@, t as int, k2 as int), la@[me as int]@));
                            assert forall|kk: int| 0 <= kk < k2 + 1 && #[trigger] contents@[t as int]@[kk] == (it.0, (it.1 + 1) as usize)
                                implies row_covers(la@, flat(off@, t as int, kk), la@[me as int]@) by {
                                if kk < k2 {
                                    assert(row_covers(before, flat(off@, t as int, kk), before[me as int]@));
                                }
                            }
                        }
                    }
                } else {
                    proof {
                        assert(contents@[t as int]@[k2 as int] != (it.0, (it.1 + 1) as usize));
                    }
                }
                k2 = k2 + 1;
            }
        }
        e = e + 1;
    }
    if let Element::NonTerminal(b) = x {
        let (fs, nul) = first_of_rest(&prods[it.0].body, it.1 + 1, terms, nts, first, nullable);
        let mut k2: usize = 0;
        while k2 < contents[s].len()
            invariant
                g == prods@,
                forall|i: int| 0 <= i < contents@.len() ==> items_ok(g, (#[trigger] contents@[i])@),
                offsets_ok(off@, contents@),
                la_shape(la@, off@, terms@.len() as int),
                s < contents@.len(),
                k < contents@[s as int]@.len(),
                it == contents@[s as int]@[k as int],
                me == flat(off@, s as int, k as int),
                0 <= me < off@.last(),
                next_of(g, it) == Some(ElemModel::NonTerminal(b@)),
                fs@.len() == terms@.len(),
                forall|a: int| 0 <= a < terms@.len() ==> (#[trigger] fs@[a] <==> seq_first_has(g[it.0 as int].body@, terms@, nts@, first@, nullable@, it.1 + 1, a)),
                nul <==> forall|m: int| it.1 + 1 <= m < g[it.0 as int].body@.len() ==> #[trigger] nullable_elem(g[it.0 as int].body@[m], nts@, nullable@),
                k2 <= contents@[s as int]@.len(),
                ch0 ==> *changed,
                !*changed ==> la@ == la0,
                *changed && !ch0 ==> total_true(la@) > total_true(la0),
                total_true(la@) >= total_true(la0),
                forall|r: int, u: int| 0 <= r < la0.len() && 0 <= u < la0[r]@.len() && #[trigger] la0[r]@[u] ==> la@[r]@[u],
                la_shape(la0, off@, terms@.len() as int),
                la_sound(ctx, la@),
                ctx == (LaCtx { g: prods@, contents: contents@, edges: edges@, terms: terms@, nts: nts@, first: first@, nullable: nullable@, off: off@ }),
                !*changed ==> forall|ee: int, kk: int| 0 <= ee < edges@.len() && (#[trigger] edges@[ee]).0 == s && next_of(g, it) == Some(edges@[ee].1@)
                    && 0 <= kk < contents@[edges@[ee].2 as int]@.len() && #[trigger] contents@[edges@[ee].2 as int]@[kk] == (it.0, (it.1 + 1) as usize)
                    ==> row_covers(la@, flat(off@, edges@[ee].2 as int, kk), la@[me as int]@),
                !*changed ==> forall|kk: int| 0 <= kk < k2 && (#[trigger] contents@[s as int]@[kk]).1 == 0
                    && next_of(g, it) == Some(ElemModel::NonTerminal(g[contents@[s as int]@[kk].0 as int].head@)) ==> {
                    &&& forall|a: int| 0 <= a < terms@.len() && seq_first_has(g[it.0 as int].body@, terms@, nts@, first@, nullable@, it.1 + 1, a)
                        ==> #[trigger] la@[flat(off@, s as int, kk)]@[a]
                    &&& nul ==> row_covers(la@, flat(off@, s as int, kk), la@[me as int]@)
                },
            decreases contents@[s as int]@.len() - k2,
        {
            let it2 = contents[s][k2];
            proof {
                assert(item_ok(g, contents@[s as int]@[k2 as int]));
                lemma_flat_in_range(off@, contents@, s as int, k2 as int);
            }
            if it2.1 == 0 && prods[it2.0].head == *b {
                let dst = off[s] + k2;
                let ghost before = la@;
                include_cells(la, &fs, dst, None, changed);
                proof {
                    assert forall|r: int, u: int| 0 <= r < la0.len() && 0 <= u < la0[r]@.len() && #[trigger] la0[r]@[u] implies la@[r]@[u] by {
                        assert(before[r]@[u]);
                    }
                    assert(la_closure_link(ctx, s as int, k as int, k2 as int));
                    assert forall|r: int, u: int| 0 <= r < la@.len() && 0 <= u < ctx.terms.len() && #[trigger] la@[r]@[u] implies exists|d: nat| la_deriv(ctx, r, u, d) by {
                        if !before[r]@[u] {
                            assert(fs@[u]);
                            assert(la_deriv(ctx, r, u, 0));
                        }
                    }
                }
                if nul {
                    let ghost mid = la@;
                    let src = copy_row(&la[me]);
                    include_cells(la, &src, dst, None, changed);
                    proof {
                        assert forall|r: int, u: int| 0 <= r < la0.len() && 0 <= u < la0[r]@.len() && #[trigger] la0[r]@[u] implies la@[r]@[u] by {
                            assert(mid[r]@[u]);
                        }
                        assert(la_rest_nullable(ctx, s as int, k as int));
                        assert forall|r: int, u: int| 0 <= r < la@.len() && 0 <= u < ctx.terms.len() && #[trigger] la@[r]@[u] implies exists|d: nat| la_deriv(ctx, r, u, d) by {
                            if !mid[r]@[u] {
                                assert(src@[u]);
                                assert(mid[me as int]@[u]);
                                let d = choose|d: nat| la_deriv(ctx, me as int, u, d);
                                assert(la_deriv(ctx, r, u, d + 1));
                            }
                        }
                    }
                }
                proof {
                    if !*changed {
                        assert(la@ == before);
                        assert forall|a: int| 0 <= a < terms@.len() && seq_first_has(g[it.0 as int].body@, terms@, nts@, first@, nullable@, it.1 + 1, a)
                            implies #[trigger] la@[flat(off@, s as int, k2 as int)]@[a] by {
                            assert(fs@[a]);
                        }
                    }
                }
            }
            k2 = k2 + 1;
        }
    }
}

/// An LR(1) item: a production, the dot, and the lookahead terminals.
#[derive(Debug, Clone)]
pub struct ItemLR1 {
    pub prod_id: usize,
    pub dot: usize,
    pub lookahead: Vec<String>,
}

/// An LALR state: its number, its items, and its transitions.
#[derive(Debug, Clone)]
pub struct State {
    pub id: usize,
    pub items: Vec<ItemLR1>,
    pub transitions: Vec<(Element, usize)>,
}

/// The LALR(1) automaton: the production table, the terminals (with `$`),
/// the non-terminals, the start symbol, the LR(0) states and transitions,
/// and one lookahead row per item of each state, numbered consecutively
/// from `offsets[s]`.
#[derive(Debug, Clone)]
pub struct LALR {
    pub productions: Vec<Production>,
    pub terminals: Vec<String>,
    pub non_terminals: Vec<String>,
    pub init_symbol: String,
    pub contents: Vec<Vec<(usize, usize)>>,
    pub edges: Vec<(usize, Element, usize)>,
    pub offsets: Vec<usize>,
    pub lookaheads: Vec<Vec<bool>>,
    pub nullable: Vec<bool>,
}

/// The lookahead rows are a fixed point of the propagation rules, seeded
/// with `$` on `[S' → · S]` in state 0.
pub open spec fn lalr_ok(l: LALR, first: Seq<Vec<bool>>) -> bool {
    let nullable = l.nullable@;
    &&& la_sound(LaCtx { g: l.productions@, contents: l.contents@, edges: l.edges@, terms: l.terminals@, nts: l.non_terminals@, first, nullable, off: l.offsets@ }, l.lookaheads@)
    &&& nullable.len() == l.non_terminals@.len()
    &&& forall|p: int| 0 <= p < l.productions@.len() && rest_nullable(l.productions@[p].body@, l.non_terminals@, nullable, 0) ==> match index_of(l.non_terminals@, (#[trigger] l.productions@[p]).head@) {
        Some(a) => nullable[a],
        None => true,
    }
    &&& forall|a: int| 0 <= a < l.non_terminals@.len() && #[trigger] nullable[a] ==> nullable_deriv(l.productions@, l.non_terminals@, a, count_true(nullable))
    &&& automaton_ok(l.productions@, l.contents@, l.edges@)
    &&& offsets_ok(l.offsets@, l.contents@)
    &&& la_shape(l.lookaheads@, l.offsets@, l.terminals@.len() as int)
    &&& forall|s: int, k: int| 0 <= s < l.contents@.len() && 0 <= k < l.contents@[s]@.len() ==>
        #[trigger] la_rules_ok(l.productions@, l.contents@, l.edges@, l.terminals@, l.non_terminals@, first, nullable, l.offsets@, l.lookaheads@, s, k)
    &&& forall|k: int| 0 <= k < l.contents@[0]@.len() && #[trigger] l.contents@[0]@[k] == (0usize, 0usize) ==> match index_of(l.terminals@, dollar()) {
        Some(d) => l.lookaheads@[flat(l.offsets@, 0, k)]@[d],
        None => true,
    }
}

/// The construction stopped: [`MAX_LR_STATES`] distinct closed LR(0)
/// states were found and another one was needed, or the items of all
/// states cannot be numbered in a `usize`.
pub open spec fn lalr_capped(l: LALR) -> bool {
    ||| l.contents@.len() == MAX_LR_STATES && partial_automaton(l.productions@, l.contents@, l.edges@)
    ||| automaton_ok(l.productions@, l.contents@, l.edges@) && items_total(l.contents@) > usize::MAX
}

fn copy_prods(v: &Vec<Production>) -> (r: Vec<Production>)
    ensures
        r@.len() == v@.len(),
        forall|i: int| 0 <= i < v@.len() ==> (#[trigger] r@[i]).head@ == v@[i].head@ && r@[i].body@.len() == v@[i].body@.len()
            && forall|j: int| 0 <= j < v@[i].body@.len() ==> (#[trigger] r@[i].body@[j])@ == v@[i].body@[j]@,
{
    let mut r: Vec<Production> = Vec::new();
    let mut i: usize = 0;
    while i < v.len()
        invariant
            i <= v@.len(),
            r@.len() == i,
            forall|ii: int| 0 <= ii < i ==> (#[trigger] r@[ii]).head@ == v@[ii].head@ && r@[ii].body@.len() == v@[ii].body@.len()
                && forall|j: int| 0 <= j < v@[ii].body@.len() ==> (#[trigger] r@[ii].body@[j])@ == v@[ii].body@[j]@,
        decreases v.len() - i,
    {
        let mut body: Vec<Element> = Vec::new();
        let mut j: usize = 0;
        while j < v[i].body.len()
            invariant
                i < v@.len(),
                j <= v@[i as int].body@.len(),
                body@.len() == j,
                forall|jj: int| 0 <= jj < j ==> (#[trigger] body@[jj])@ == v@[i as int].body@[jj]@,
            decreases v@[i as int].body@.len() - j,
        {
            body.push(crate::syn::slr_automata::copy_elem(&v[i].body[j]));
            j = j + 1;
        }
        r.push(Production { head: v[i].head.clone(), body });
        i = i + 1;
    }
    r
}

impl LALR {
    /// An automaton over `productions` (production 0 the augmented one),
    /// with no states yet.
    pub fn new(productions: &Vec<Production>, terminals: &Vec<String>, non_terminals: &Vec<String>, init_symbol: &String) -> (r: Self)
        ensures
            r.productions@.len() == productions@.len(),
            forall|i: int| 0 <= i < productions@.len() ==> (#[trigger] r.productions@[i]).head@ == productions@[i].head@
                && r.productions@[i].body@.len() == productions@[i].body@.len()
                && forall|j: int| 0 <= j < productions@[i].body@.len() ==> (#[trigger] r.productions@[i].body@[j])@ == productions@[i].body@[j]@,
            r.terminals@ == terminals@,
            r.non_terminals@ == non_terminals@,
            r.init_symbol@ == init_symbol@,
    {
        let mut t: Vec<String> = Vec::new();
        let mut i: usize = 0;
        while i < terminals.len()
            invariant
                i <= terminals@.len(),
                t@ == terminals@.subrange(0, i as int),
            decreases terminals.len() - i,
        {
            t.push(terminals[i].clone());
            i = i + 1;
            assert(t@ =~= terminals@.subrange(0, i as int));
        }
        assert(terminals@.subrange(0, i as int) =~= terminals@);
        let mut nt: Vec<String> = Vec::new();
        let mut i: usize = 0;
        while i < non_terminals.len()
            invariant
                i <= non_terminals@.len(),
                nt@ == non_terminals@.subrange(0, i as int),
            decreases non_terminals.len() - i,
        {
            nt.push(non_terminals[i].clone());
            i = i + 1;
            assert(nt@ =~= non_terminals@.subrange(0, i as int));
        }
        assert(non_terminals@.subrange(0, i as int) =~= non_terminals@);
        LALR {
            productions: copy_prods(productions),
            terminals: t,
            non_terminals: nt,
            init_symbol: init_symbol.clone(),
            contents: Vec::new(),
            edges: Vec::new(),
            offsets: Vec::new(),
            lookaheads: Vec::new(),
            nullable: Vec::new(),
        }
    }
}

/// The number of items over all states.
pub open spec fn items_total(contents: Seq<Vec<(usize, usize)>>) -> int
    decreases contents.len(),
{
    if contents.len() == 0 {
        0
    } else {
        items_total(contents.drop_last()) + contents.last()@.len()
    }
}

fn offsets_of(contents: &Vec<Vec<(usize, usize)>>) -> (r: Option<Vec<usize>>)
    ensures
        r matches Some(off) ==> offsets_ok(off@, contents@),
        r is None ==> items_total(contents@) > usize::MAX,
{
    let mut off: Vec<usize> = Vec::new();
    off.push(0);
    let mut s: usize = 0;
    while s < contents.len()
        invariant
            s <= contents@.len(),
            off@.len() == s + 1,
            off@[0] == 0,
            forall|i: int| 0 <= i < s ==> #[trigger] off@[i + 1] == off@[i] + contents@[i]@.len(),
            off@[s as int] == items_total(contents@.subrange(0, s as int)),
        decreases contents.len() - s,
    {
        proof {
            assert(contents@.subrange(0, s + 1).drop_last() =~= contents@.subrange(0, s as int));
        }
        let last = off[s];
        if last > usize::MAX - contents[s].len() {
            proof {
                lemma_items_total_mono(contents@, s + 1);
            }
            return None;
        }
        off.push(last + contents[s].len());
        s = s + 1;
    }
    Some(off)
}

proof fn lemma_items_total_mono(contents: Seq<Vec<(usize, usize)>>, k: int)
    requires
        0 <= k <= contents.len(),
    ensures
        items_total(contents.subrange(0, k)) <= items_total(contents),
    decreases contents.len() - k,
{
    if k < contents.len() {
        lemma_items_total_mono(contents, k + 1);
        assert(contents.subrange(0, k + 1).drop_last() =~= contents.subrange(0, k));
    } else {
        assert(contents.subrange(0, k) =~= contents);
    }
}

impl LALR {
    /// Builds the LR(0) states and transitions, then computes the
    /// lookaheads: `$` on `[S' → · S]`, and the propagation rules applied
    /// until nothing changes. `first` is FIRST of every non-terminal.
    pub fn generate(&mut self, first: &Vec<Vec<bool>>) -> (r: Result<(), TooManyStates>)
        requires
            old(self).productions@.len() >= 1,
            old(self).productions@[0].body@.len() == 1,
            rows_shape(first@, old(self).non_terminals@.len() as int, old(self).terminals@.len() as int),
        ensures
            final(self).productions == old(self).productions,
            final(self).terminals == old(self).terminals,
            final(self).non_terminals == old(self).non_terminals,
            r is Ok ==> lalr_ok(*final(self), first@),
            r is Err ==> lalr_capped(*final(self)),
    {
        let mut prods: Vec<Production> = Vec::new();
        core::mem::swap(&mut prods, &mut self.productions);
        let mut lr0 = SLR { productions: prods, contents: Vec::new(), edges: Vec::new(), finish_states: Vec::new(), acceptance_states: Vec::new() };
        let res = lr0.generate();
        core::mem::swap(&mut lr0.productions, &mut self.productions);
        if res.is_err() {
            self.contents = lr0.contents;
            self.edges = lr0.edges;
            return Err(TooManyStates);
        }
        let off = match offsets_of(&lr0.contents) {
            Some(o) => o,
            None => {
                self.contents = lr0.contents;
                self.edges = lr0.edges;
                return Err(TooManyStates);
            },
        };
        let nullable = find_nullable(&self.productions, &self.non_terminals);
        let w = self.terminals.len();
        let m = off[off.len() - 1];
        let mut la: Vec<Vec<bool>> = Vec::new();
        let mut i: usize = 0;
        while i < m
            invariant
                i <= m,
                la@.len() == i,
                forall|r: int| 0 <= r < i ==> (#[trigger] la@[r])@.len() == w,
                forall|r: int, a: int| 0 <= r < i && 0 <= a < w ==> !#[trigger] la@[r]@[a],
            decreases m - i,
        {
            la.push(false_row(w));
            i = i + 1;
        }
        let ghost g = self.productions@;
        let contents = &lr0.contents;
        let edges = &lr0.edges;
        let ghost ctx = LaCtx { g: self.productions@, contents: contents@, edges: edges@, terms: self.terminals@, nts: self.non_terminals@, first: first@, nullable: nullable@, off: off@ };
        proof {
            assert(automaton_ok(g, contents@, edges@));
            assert(forall|e: int| 0 <= e < edges@.len() ==> (#[trigger] edges@[e]).2 < contents@.len());
        }
        proof {
            assert(la_sound(ctx, la@));
        }
        // Seed: `$` on `[S' → · S]` in state 0.
        let dl = crate::syn::syn_analyzer::dollar_string();
        let di = find_index(&self.terminals, &dl);
        proof {
            crate::syn::bits::lemma_index_of(self.terminals@, dollar());
        }
        let mut k: usize = 0;
        while k < contents[0].len()
            invariant
                g == self.productions@,
                offsets_ok(off@, contents@),
                contents@.len() >= 1,
                la_shape(la@, off@, w as int),
                w == self.terminals@.len(),
                di matches Some(d) ==> index_of(self.terminals@, dollar()) == Some(d as int) && d < w,
                di is None ==> index_of(self.terminals@, dollar()) is None,
                k <= contents@[0]@.len(),
                ctx == (LaCtx { g: self.productions@, contents: contents@, edges: edges@, terms: self.terminals@, nts: self.non_terminals@, first: first@, nullable: nullable@, off: off@ }),
                la_sound(ctx, la@),
                forall|kk: int| 0 <= kk < k && #[trigger] contents@[0]@[kk] == (0usize, 0usize) ==> match index_of(self.terminals@, dollar()) {
                    Some(d) => la@[flat(off@, 0, kk)]@[d],
                    None => true,
                },
            decreases contents@[0]@.len() - k,
        {
            if contents[0][k].0 == 0 && contents[0][k].1 == 0 {
                if let Some(d) = di {
                    proof {
                        lemma_flat_in_range(off@, contents@, 0, k as int);
                    }
                    let row = off[0] + k;
                    if !la[row][d] {
                        let ghost before = la@;
                        set_cell(&mut la, row, d);
                        proof {
                            assert(ctx.contents[0]@[k as int] == (0usize, 0usize));
                            assert(row as int == flat(ctx.off, 0, k as int));
                            assert(index_of(ctx.terms, dollar()) == Some(d as int));
                            assert(la_deriv(ctx, row as int, d as int, 0));
                            assert forall|r: int, u: int| 0 <= r < la@.len() && 0 <= u < ctx.terms.len() && #[trigger] la@[r]@[u] implies exists|dd: nat| la_deriv(ctx, r, u, dd) by {
                                if !(r == row && u == d) {
                                    assert(before[r]@[u]);
                                }
                            }
                        }
                    }
                }
            }
            k = k + 1;
        }
        let mut changed = true;
        proof {
            lemma_total_bound(la@, w as nat);
        }
        while changed
            invariant
                g == self.productions@,
                forall|i: int| 0 <= i < contents@.len() ==> items_ok(g, (#[trigger] contents@[i])@),
                forall|e: int| 0 <= e < edges@.len() ==> (#[trigger] edges@[e]).2 < contents@.len(),
                offsets_ok(off@, contents@),
                rows_shape(first@, self.non_terminals@.len() as int, self.terminals@.len() as int),
                nullable@.len() == self.non_terminals@.len(),
                w == self.terminals@.len(),
                contents@.len() >= 1,
                la_shape(la@, off@, w as int),
                total_true(la@) <= la@.len() * w,
                ctx == (LaCtx { g: self.productions@, contents: contents@, edges: edges@, terms: self.terminals@, nts: self.non_terminals@, first: first@, nullable: nullable@, off: off@ }),
                la_sound(ctx, la@),
                forall|kk: int| 0 <= kk < contents@[0]@.len() && #[trigger] contents@[0]@[kk] == (0usize, 0usize) ==> match index_of(self.terminals@, dollar()) {
                    Some(d) => la@[flat(off@, 0, kk)]@[d],
                    None => true,
                },
                !changed ==> forall|s: int, k: int| 0 <= s < contents@.len() && 0 <= k < contents@[s]@.len() ==>
                    #[trigger] la_rules_ok(g, contents@, edges@, self.terminals@, self.non_terminals@, first@, nullable@, off@, la@, s, k),
            decreases la@.len() * w - total_true(la@) + if changed { 1int } else { 0int },
        {
            changed = false;
            let ghost start = la@;
            let ghost total0 = total_true(la@);
            let mut s: usize = 0;
            while s < contents.len()
                invariant
                    g == self.productions@,
                    forall|i: int| 0 <= i < contents@.len() ==> items_ok(g, (#[trigger] contents@[i])@),
                    forall|e: int| 0 <= e < edges@.len() ==> (#[trigger] edges@[e]).2 < contents@.len(),
                    offsets_ok(off@, contents@),
                    rows_shape(first@, self.non_terminals@.len() as int, self.terminals@.len() as int),
                    nullable@.len() == self.non_terminals@.len(),
                    w == self.terminals@.len(),
                    contents@.len() >= 1,
                    s <= contents@.len(),
                    la_shape(la@, off@, w as int),
                    ctx == (LaCtx { g: self.productions@, contents: contents@, edges: edges@, terms: self.terminals@, nts: self.non_terminals@, first: first@, nullable: nullable@, off: off@ }),
                    la_sound(ctx, la@),
                    forall|kk: int| 0 <= kk < contents@[0]@.len() && #[trigger] contents@[0]@[kk] == (0usize, 0usize) ==> match index_of(self.terminals@, dollar()) {
                        Some(d) => la@[flat(off@, 0, kk)]@[d],
                        None => true,
                    },
                    !changed ==> la@ == start,
                    total0 == total_true(start),
                    changed ==> total_true(la@) > total0,
                    total_true(la@) >= total0,
                    !changed ==> forall|ss: int, k: int| 0 <= ss < s && 0 <= k < contents@[ss]@.len() ==>
                        #[trigger] la_rules_ok(g, contents@, edges@, self.terminals@, self.non_terminals@, first@, nullable@, off@, la@, ss, k),
                decreases contents.len() - s,
            {
                let mut k: usize = 0;
                while k < contents[s].len()
                    invariant
                        g == self.productions@,
                        forall|i: int| 0 <= i < contents@.len() ==> items_ok(g, (#[trigger] contents@[i])@),
                        forall|e: int| 0 <= e < edges@.len() ==> (#[trigger] edges@[e]).2 < contents@.len(),
                        offsets_ok(off@, contents@),
                        rows_shape(first@, self.non_terminals@.len() as int, self.terminals@.len() as int),
                        nullable@.len() == self.non_terminals@.len(),
                        w == self.terminals@.len(),
                        contents@.len() >= 1,
                        s < contents@.len(),
                        k <= contents@[s as int]@.len(),
                        la_shape(la@, off@, w as int),
                        ctx == (LaCtx { g: self.productions@, contents: contents@, edges: edges@, terms: self.terminals@, nts: self.non_terminals@, first: first@, nullable: nullable@, off: off@ }),
                        la_sound(ctx, la@),
                        forall|kk: int| 0 <= kk < contents@[0]@.len() && #[trigger] contents@[0]@[kk] == (0usize, 0usize) ==> match index_of(self.terminals@, dollar()) {
                            Some(d) => la@[flat(off@, 0, kk)]@[d],
                            None => true,
                        },
                        !changed ==> la@ == start,
                        total0 == total_true(start),
                        changed ==> total_true(la@) > total0,
                        total_true(la@) >= total0,
                        !changed ==> forall|ss: int, kk: int| 0 <= ss < s && 0 <= kk < contents@[ss]@.len() ==>
                            #[trigger] la_rules_ok(g, contents@, edges@, self.terminals@, self.non_terminals@, first@, nullable@, off@, la@, ss, kk),
                        !changed ==> forall|kk: int| 0 <= kk < k ==>
                            #[trigger] la_rules_ok(g, contents@, edges@, self.terminals@, self.non_terminals@, first@, nullable@, off@, la@, s as int, kk),
                    decreases contents@[s as int]@.len() - k,
                {
                    let ghost before = la@;
                    apply_la(&self.productions, contents, edges, &self.terminals, &self.non_terminals, first, &nullable, &off, &mut la, s, k, &mut changed);
                    proof {
                        assert forall|kk: int| 0 <= kk < contents@[0]@.len() && #[trigger] contents@[0]@[kk] == (0usize, 0usize) implies match index_of(self.terminals@, dollar()) {
                            Some(d) => la@[flat(off@, 0, kk)]@[d],
                            None => true,
                        } by {
                            match index_of(self.terminals@, dollar()) {
                                Some(d) => {
                                    crate::syn::bits::lemma_index_of(self.terminals@, dollar());
                                    lemma_flat_in_range(off@, contents@, 0, kk);
                                    assert(before[flat(off@, 0, kk)]@[d]);
                                },
                                None => {},
                            }
                        }
                    }
                    k = k + 1;
                }
                s = s + 1;
            }
            proof {
                lemma_total_bound(la@, w as nat);
            }
        }
        self.contents = lr0.contents;
        self.edges = lr0.edges;
        self.offsets = off;
        self.lookaheads = la;
        self.nullable = nullable;
        Ok(())
    }
}

/// The LALR ACTION cells: shift on every terminal transition; in a state
/// with a complete item of production `p ≠ 0`, reduce by `p` on each of
/// its lookaheads; accept on `$` where `[S' → S ·]` has the lookahead `$`.
pub open spec fn lalr_wants(l: LALR, s: int, a: Seq<char>, x: Action) -> bool {
    match x {
        Action::Shift(t) => exists|e: int| 0 <= e < l.edges@.len() && (#[trigger] l.edges@[e]).0 == s
            && l.edges@[e].1@ == ElemModel::Terminal(a) && l.edges@[e].2 == t,
        Action::Reduce(p) => p != 0 && 0 <= s < l.contents@.len() && exists|k: int, ti: int| 0 <= k < l.contents@[s]@.len() && 0 <= ti < l.terminals@.len()
            && (#[trigger] l.contents@[s]@[k]).0 == p && l.contents@[s]@[k].1 == l.productions@[p as int].body@.len() && (#[trigger] l.terminals@[ti])@ == a
            && l.lookaheads@[flat(l.offsets@, s, k)]@[ti],
        Action::Accept => a == dollar() && 0 <= s < l.contents@.len() && exists|k: int, ti: int| 0 <= k < l.contents@[s]@.len() && 0 <= ti < l.terminals@.len()
            && #[trigger] l.contents@[s]@[k] == (0usize, 1usize) && (#[trigger] l.terminals@[ti])@ == dollar()
            && l.lookaheads@[flat(l.offsets@, s, k)]@[ti],
    }
}

impl LALR {
    /// The LALR(1) tables: shift on the terminal transitions, reduce on the
    /// lookaheads of the complete items, accept on `$`; GOTO from the
    /// non-terminal transitions. Two different actions for one cell are a
    /// conflict.
    pub fn build_parsing_table(&self) -> (r: Result<(Vec<ActionEntry>, Vec<GotoEntry>), GrammarConflict>)
        requires
            forall|i: int| 0 <= i < self.contents@.len() ==> items_ok(self.productions@, (#[trigger] self.contents@[i])@),
            offsets_ok(self.offsets@, self.contents@),
            la_shape(self.lookaheads@, self.offsets@, self.terminals@.len() as int),
            self.productions@.len() >= 1,
            self.productions@[0].body@.len() == 1,
        ensures
            r matches Ok((act, gt)) ==> {
                &&& unique_keys(act@)
                &&& forall|k: int| 0 <= k < act@.len() ==> lalr_wants(*self, (#[trigger] act@[k]).state as int, act@[k].symbol@, act@[k].action)
                &&& forall|s: int, a: Seq<char>, x: Action| #[trigger] lalr_wants(*self, s, a, x) ==> has_entry(act@, s, a, x)
                &&& goto_matches(self.edges@, gt@)
            },
            r matches Err(c) ==> c.existing != c.new && lalr_wants(*self, c.state as int, c.symbol@, c.existing)
                && lalr_wants(*self, c.state as int, c.symbol@, c.new),
    {
        let ghost me = *self;
        let mut act: Vec<ActionEntry> = Vec::new();
        let mut e: usize = 0;
        while e < self.edges.len()
            invariant
                me == *self,
                e <= self.edges@.len(),
                unique_keys(act@),
                forall|k: int| 0 <= k < act@.len() ==> lalr_wants(me, (#[trigger] act@[k]).state as int, act@[k].symbol@, act@[k].action),
                forall|ee: int| 0 <= ee < e && (#[trigger] self.edges@[ee]).1@ is Terminal ==>
                    has_entry(act@, self.edges@[ee].0 as int, self.edges@[ee].1@->Terminal_0, Action::Shift(self.edges@[ee].2)),
            decreases self.edges.len() - e,
        {
            if let Element::Terminal(t) = &self.edges[e].1 {
                let ghost before = act@;
                let x = Action::Shift(self.edges[e].2);
                proof {
                    assert(lalr_wants(me, self.edges@[e as int].0 as int, t@, x));
                }
                match insert_action(&mut act, self.edges[e].0, t, x) {
                    Ok(()) => {},
                    Err(c) => {
                        return Err(c);
                    },
                }
                proof {
                    assert forall|k: int| 0 <= k < act@.len() implies lalr_wants(me, (#[trigger] act@[k]).state as int, act@[k].symbol@, act@[k].action) by {
                        if has_entry(before, act@[k].state as int, act@[k].symbol@, act@[k].action) {
                            let j = choose|j: int| 0 <= j < before.len() && (#[trigger] before[j]).state == act@[k].state as int && before[j].symbol@ == act@[k].symbol@ && before[j].action == act@[k].action;
                        }
                    }
                }
            }
            e = e + 1;
        }
        let dl = crate::syn::syn_analyzer::dollar_string();
        let mut s: usize = 0;
        while s < self.contents.len()
            invariant
                me == *self,
                dl@ == dollar(),
                forall|i: int| 0 <= i < self.contents@.len() ==> items_ok(self.productions@, (#[trigger] self.contents@[i])@),
                offsets_ok(self.offsets@, self.contents@),
                la_shape(self.lookaheads@, self.offsets@, self.terminals@.len() as int),
                self.productions@.len() >= 1,
                self.productions@[0].body@.len() == 1,
                s <= self.contents@.len(),
                unique_keys(act@),
                forall|k: int| 0 <= k < act@.len() ==> lalr_wants(me, (#[trigger] act@[k]).state as int, act@[k].symbol@, act@[k].action),
                forall|ee: int| 0 <= ee < self.edges@.len() && (#[trigger] self.edges@[ee]).1@ is Terminal ==>
                    has_entry(act@, self.edges@[ee].0 as int, self.edges@[ee].1@->Terminal_0, Action::Shift(self.edges@[ee].2)),
                forall|ss: int, a: Seq<char>, x: Action| 0 <= ss < s && !(x is Shift) && #[trigger] lalr_wants(me, ss, a, x) ==> has_entry(act@, ss, a, x),
            decreases self.contents.len() - s,
        {
            let mut k: usize = 0;
            while k < self.contents[s].len()
                invariant
                    me == *self,
                    dl@ == dollar(),
                    forall|i: int| 0 <= i < self.contents@.len() ==> items_ok(self.productions@, (#[trigger] self.contents@[i])@),
                    offsets_ok(self.offsets@, self.contents@),
                    la_shape(self.lookaheads@, self.offsets@, self.terminals@.len() as int),
                    s < self.contents@.len(),
                    k <= self.contents@[s as int]@.len(),
                    unique_keys(act@),
                    forall|k: int| 0 <= k < act@.len() ==> lalr_wants(me, (#[trigger] act@[k]).state as int, act@[k].symbol@, act@[k].action),
                    forall|ee: int| 0 <= ee < self.edges@.len() && (#[trigger] self.edges@[ee]).1@ is Terminal ==>
                        has_entry(act@, self.edges@[ee].0 as int, self.edges@[ee].1@->Terminal_0, Action::Shift(self.edges@[ee].2)),
                    forall|ss: int, a: Seq<char>, x: Action| 0 <= ss < s && !(x is Shift) && #[trigger] lalr_wants(me, ss, a, x) ==> has_entry(act@, ss, a, x),
                    forall|kk: int, ti: int| 0 <= kk < k && 0 <= ti < self.terminals@.len() && self.lookaheads@[flat(self.offsets@, s as int, kk)]@[ti]
                        && (#[trigger] self.contents@[s as int]@[kk]).1 == self.productions@[self.contents@[s as int]@[kk].0 as int].body@.len() ==> {
                        let it = self.contents@[s as int]@[kk];
                        &&& it.0 != 0 ==> has_entry(act@, s as int, (#[trigger] self.terminals@[ti])@, Action::Reduce(it.0))
                        &&& (it == (0usize, 1usize) && self.terminals@[ti]@ == dollar()) ==> has_entry(act@, s as int, dollar(), Action::Accept)
                    },
                decreases self.contents@[s as int]@.len() - k,
            {
                let it = self.contents[s][k];
                proof {
                    assert(item_ok(self.productions@, self.contents@[s as int]@[k as int]));
                    lemma_flat_in_range(self.offsets@, self.contents@, s as int, k as int);
                }
                let row = self.offsets[s] + k;
                if it.1 == self.productions[it.0].body.len() {
                    let mut ti: usize = 0;
                    while ti < self.terminals.len()
                        invariant
                            me == *self,
                            dl@ == dollar(),
                            s < self.contents@.len(),
                            k < self.contents@[s as int]@.len(),
                            it == self.contents@[s as int]@[k as int],
                            it.0 < self.productions@.len(),
                            it.1 == self.productions@[it.0 as int].body@.len(),
                            row == flat(self.offsets@, s as int, k as int),
                            0 <= row < self.lookaheads@.len(),
                            la_shape(self.lookaheads@, self.offsets@, self.terminals@.len() as int),
                            ti <= self.terminals@.len(),
                            unique_keys(act@),
                            forall|k: int| 0 <= k < act@.len() ==> lalr_wants(me, (#[trigger] act@[k]).state as int, act@[k].symbol@, act@[k].action),
                            forall|ee: int| 0 <= ee < self.edges@.len() && (#[trigger] self.edges@[ee]).1@ is Terminal ==>
                                has_entry(act@, self.edges@[ee].0 as int, self.edges@[ee].1@->Terminal_0, Action::Shift(self.edges@[ee].2)),
                            forall|ss: int, a: Seq<char>, x: Action| 0 <= ss < s && !(x is Shift) && #[trigger] lalr_wants(me, ss, a, x) ==> has_entry(act@, ss, a, x),
                            forall|kk: int, tj: int| 0 <= kk < k && 0 <= tj < self.terminals@.len() && self.lookaheads@[flat(self.offsets@, s as int, kk)]@[tj]
                                && (#[trigger] self.contents@[s as int]@[kk]).1 == self.productions@[self.contents@[s as int]@[kk].0 as int].body@.len() ==> {
                                let it = self.contents@[s as int]@[kk];
                                &&& it.0 != 0 ==> has_entry(act@, s as int, (#[trigger] self.terminals@[tj])@, Action::Reduce(it.0))
                                &&& (it == (0usize, 1usize) && self.terminals@[tj]@ == dollar()) ==> has_entry(act@, s as int, dollar(), Action::Accept)
                            },
                            forall|tj: int| 0 <= tj < ti && self.lookaheads@[row as int]@[tj] ==> {
                                &&& it.0 != 0 ==> has_entry(act@, s as int, (#[trigger] self.terminals@[tj])@, Action::Reduce(it.0))
                                &&& (it == (0usize, 1usize) && self.terminals@[tj]@ == dollar()) ==> has_entry(act@, s as int, dollar(), Action::Accept)
                            },
                        decreases self.terminals.len() - ti,
                    {
                        if self.lookaheads[row][ti] {
                            let ghost before = act@;
                            if it.0 != 0 {
                                let x = Action::Reduce(it.0);
                                proof {
                                    assert(lalr_wants(me, s as int, self.terminals@[ti as int]@, x));
                                }
                                match insert_action(&mut act, s, &self.terminals[ti], x) {
                                    Ok(()) => {},
                                    Err(c) => {
                                        return Err(c);
                                    },
                                }
                            } else if it.1 == 1 && self.terminals[ti] == dl {
                                proof {
                                    assert(lalr_wants(me, s as int, dl@, Action::Accept));
                                }
                                match insert_action(&mut act, s, &dl, Action::Accept) {
                                    Ok(()) => {},
                                    Err(c) => {
                                        return Err(c);
                                    },
                                }
                            }
                            proof {
                                assert forall|k: int| 0 <= k < act@.len() implies lalr_wants(me, (#[trigger] act@[k]).state as int, act@[k].symbol@, act@[k].action) by {
                                    if has_entry(before, act@[k].state as int, act@[k].symbol@, act@[k].action) {
                                        let j = choose|j: int| 0 <= j < before.len() && (#[trigger] before[j]).state == act@[k].state as int && before[j].symbol@ == act@[k].symbol@ && before[j].action == act@[k].action;
                                    }
                                }
                            }
                        }
                        ti = ti + 1;
                    }
                }
                k = k + 1;
            }
            proof {
                assert forall|ss: int, a: Seq<char>, x: Action| 0 <= ss < s + 1 && !(x is Shift) && #[trigger] lalr_wants(me, ss, a, x) implies has_entry(act@, ss, a, x) by {
                    if ss == s {
                        match x {
                            Action::Reduce(p) => {
                                let (kk, ti) = choose|kk: int, ti: int| 0 <= kk < me.contents@[ss]@.len() && 0 <= ti < me.terminals@.len()
                                    && (#[trigger] me.contents@[ss]@[kk]).0 == p && me.contents@[ss]@[kk].1 == me.productions@[p as int].body@.len() && (#[trigger] me.terminals@[ti])@ == a
                                    && me.lookaheads@[flat(me.offsets@, ss, kk)]@[ti];
                                assert(self.contents@[s as int]@[kk] == me.contents@[ss]@[kk]);
                                assert(self.terminals@[ti] == me.terminals@[ti]);
                                assert(has_entry(act@, s as int, self.terminals@[ti]@, Action::Reduce(self.contents@[s as int]@[kk].0)));
                            },
                            Action::Accept => {
                                let (kk, ti) = choose|kk: int, ti: int| 0 <= kk < me.contents@[ss]@.len() && 0 <= ti < me.terminals@.len()
                                    && #[trigger] me.contents@[ss]@[kk] == (0usize, 1usize) && (#[trigger] me.terminals@[ti])@ == dollar()
                                    && me.lookaheads@[flat(me.offsets@, ss, kk)]@[ti];
                                assert(self.contents@[s as int]@[kk] == me.contents@[ss]@[kk]);
                                assert(self.terminals@[ti] == me.terminals@[ti]);
                                assert(item_ok(self.productions@, self.contents@[s as int]@[kk]));
                            },
                            _ => {},
                        }
                    }
                }
            }
            s = s + 1;
        }
        proof {
            assert forall|s: int, a: Seq<char>, x: Action| #[trigger] lalr_wants(me, s, a, x) implies has_entry(act@, s, a, x) by {
                match x {
                    Action::Shift(t) => {
                        let e = choose|e: int| 0 <= e < me.edges@.len() && (#[trigger] me.edges@[e]).0 == s
                            && me.edges@[e].1@ == ElemModel::Terminal(a) && me.edges@[e].2 == t;
                        assert(self.edges@[e] == me.edges@[e]);
                        assert(self.edges@[e].1@ is Terminal);
                    },
                    _ => {},
                }
            }
        }
        let gt = goto_entries(&self.edges);
        Ok((act, gt))
    }
}

impl LALR {
    /// The states with their LR(1) items (each with its lookahead
    /// terminals) and their transitions.
    pub fn states(&self) -> (r: Vec<State>)
        requires
            offsets_ok(self.offsets@, self.contents@),
            la_shape(self.lookaheads@, self.offsets@, self.terminals@.len() as int),
        ensures
            r@.len() == self.contents@.len(),
            forall|s: int| 0 <= s < r@.len() ==> (#[trigger] r@[s]).id == s && r@[s].items@.len() == self.contents@[s]@.len()
                && forall|k: int| 0 <= k < r@[s].items@.len() ==> ((#[trigger] r@[s].items@[k]).prod_id, r@[s].items@[k].dot) == self.contents@[s]@[k],
    {
        let mut out: Vec<State> = Vec::new();
        let mut s: usize = 0;
        while s < self.contents.len()
            invariant
                offsets_ok(self.offsets@, self.contents@),
                la_shape(self.lookaheads@, self.offsets@, self.terminals@.len() as int),
                s <= self.contents@.len(),
                out@.len() == s,
                forall|ss: int| 0 <= ss < s ==> (#[trigger] out@[ss]).id == ss && out@[ss].items@.len() == self.contents@[ss]@.len()
                    && forall|k: int| 0 <= k < out@[ss].items@.len() ==> ((#[trigger] out@[ss].items@[k]).prod_id, out@[ss].items@[k].dot) == self.contents@[ss]@[k],
            decreases self.contents.len() - s,
        {
            let mut items: Vec<ItemLR1> = Vec::new();
            let mut k: usize = 0;
            while k < self.contents[s].len()
                invariant
                    offsets_ok(self.offsets@, self.contents@),
                    la_shape(self.lookaheads@, self.offsets@, self.terminals@.len() as int),
                    s < self.contents@.len(),
                    k <= self.contents@[s as int]@.len(),
                    items@.len() == k,
                    forall|j: int| 0 <= j < k ==> ((#[trigger] items@[j]).prod_id, items@[j].dot) == self.contents@[s as int]@[j],
                decreases self.contents@[s as int]@.len() - k,
            {
                proof {
                    lemma_flat_in_range(self.offsets@, self.contents@, s as int, k as int);
                }
                let row = self.offsets[s] + k;
                let mut la: Vec<String> = Vec::new();
                let mut t: usize = 0;
                while t < self.terminals.len()
                    invariant
                        0 <= row < self.lookaheads@.len(),
                        la_shape(self.lookaheads@, self.offsets@, self.terminals@.len() as int),
                        t <= self.terminals@.len(),
                    decreases self.terminals.len() - t,
                {
                    if self.lookaheads[row][t] {
                        la.push(self.terminals[t].clone());
                    }
                    t = t + 1;
                }
                items.push(ItemLR1 { prod_id: self.contents[s][k].0, dot: self.contents[s][k].1, lookahead: la });
                k = k + 1;
            }
            let mut transitions: Vec<(Element, usize)> = Vec::new();
            let mut e: usize = 0;
            while e < self.edges.len()
                invariant
                    e <= self.edges@.len(),
                decreases self.edges.len() - e,
            {
                if self.edges[e].0 == s {
                    transitions.push((crate::syn::slr_automata::copy_elem(&self.edges[e].1), self.edges[e].2));
                }
                e = e + 1;
            }
            out.push(State { id: s, items, transitions });
            s = s + 1;
        }
        out
    }
}

/// Over the same LR(0) transitions, the SLR and the LALR constructions
/// want the same shift entries: a shift on every terminal transition.
pub proof fn lemma_shift_entries_agree(
    slr: SLR,
    lalr: LALR,
    follows: Seq<Vec<bool>>,
    terms: Seq<String>,
    nts: Seq<String>,
    s: int,
    a: Seq<char>,
    t: usize,
)
    requires
        slr.edges@ == lalr.edges@,
    ensures
        slr_wants(slr, follows, terms, nts, s, a, Action::Shift(t)) <==> lalr_wants(lalr, s, a, Action::Shift(t)),
{
}

} // verus!
