//! The grammar's production table and the LR(0) automaton used by SLR(1).
use vstd::prelude::*;
use crate::syn::bits::{count_true, false_row, find_index, index_of, lemma_count_true_bound, lemma_count_true_set};
use crate::syn::yp_reader::GrammarInfo;
use crate::syn::first_follow::{dollar, rows_shape};
use crate::syn::syn_analyzer::{has_entry, insert_action, unique_keys, Action, ActionEntry, GotoEntry, GrammarConflict};

verus! {

/// A grammar symbol.
#[derive(Debug, Clone, PartialEq, Eq, Hash)]
pub enum Element {
    Terminal(String),
    NonTerminal(String),
}

/// The mathematical value of an [`Element`].
pub enum ElemModel {
    Terminal(Seq<char>),
    NonTerminal(Seq<char>),
}

impl View for Element {
    type V = ElemModel;

    open spec fn view(&self) -> ElemModel {
        match self {
            Element::Terminal(s) => ElemModel::Terminal(s@),
            Element::NonTerminal(s) => ElemModel::NonTerminal(s@),
        }
    }
}

/// A copy of an element with the same model.
pub fn copy_elem(e: &Element) -> (r: Element)
    ensures
        r@ == e@,
{
    match e {
        Element::Terminal(s) => Element::Terminal(s.clone()),
        Element::NonTerminal(s) => Element::NonTerminal(s.clone()),
    }
}

/// A production `head → body`.
#[derive(Debug, Clone, PartialEq)]
pub struct Production {
    pub head: String,
    pub body: Vec<Element>,
}

/// The model of a production: its head and its body.
pub open spec fn prod_view(p: Production) -> (Seq<char>, Seq<ElemModel>) {
    (p.head@, Seq::new(p.body@.len(), |i: int| p.body@[i]@))
}

/// The model of a production table.
pub open spec fn prods_view(g: Seq<Production>) -> Seq<(Seq<char>, Seq<ElemModel>)> {
    Seq::new(g.len(), |i: int| prod_view(g[i]))
}

/// A name is a terminal when the terminal list holds it.
pub open spec fn tag(terms: Seq<String>, x: Seq<char>) -> ElemModel {
    if index_of(terms, x) is Some {
        ElemModel::Terminal(x)
    } else {
        ElemModel::NonTerminal(x)
    }
}

/// The productions of one head, one per alternative.
pub open spec fn alts_view(terms: Seq<String>, head: Seq<char>, alts: Seq<Vec<String>>) -> Seq<(Seq<char>, Seq<ElemModel>)> {
    Seq::new(alts.len(), |j: int| (head, Seq::new(alts[j]@.len(), |k: int| tag(terms, alts[j]@[k]@))))
}

/// The productions of a grammar, head by head and alternative by
/// alternative, in the order they were written.
pub open spec fn flat_prods(g: Seq<(String, Vec<Vec<String>>)>, terms: Seq<String>) -> Seq<(Seq<char>, Seq<ElemModel>)>
    decreases g.len(),
{
    if g.len() == 0 {
        Seq::empty()
    } else {
        flat_prods(g.drop_last(), terms) + alts_view(terms, g.last().0@, g.last().1@)
    }
}

/// The head of the augmented production.
pub open spec fn aug_head() -> Seq<char> {
    seq!['S', '\'']
}

/// The production table of a grammar: production 0 is `S' → start`, then
/// every alternative of every head in order.
pub open spec fn table_of(grammar: GrammarInfo) -> Seq<(Seq<char>, Seq<ElemModel>)> {
    seq![(aug_head(), seq![ElemModel::NonTerminal(grammar.init_symbol@)])] + flat_prods(
        grammar.productions@,
        grammar.terminals@,
    )
}

/// A production table of a grammar starts with the augmented production,
/// whose body is the start symbol alone.
pub proof fn lemma_table_first(grammar: GrammarInfo, prods: Seq<Production>)
    requires
        prods_view(prods) == table_of(grammar),
    ensures
        prods.len() >= 1,
        prods[0].body@.len() == 1,
{
    let t = table_of(grammar);
    assert(t[0] == (aug_head(), seq![ElemModel::NonTerminal(grammar.init_symbol@)]));
    assert(prods_view(prods).len() == prods.len());
    assert(prods_view(prods)[0] == prod_view(prods[0]));
    assert(prod_view(prods[0]).1.len() == prods[0].body@.len());
}

fn tag_exec(terms: &Vec<String>, x: &String) -> (r: Element)
    ensures
        r@ == tag(terms@, x@),
{
    match find_index(terms, x) {
        Some(_) => Element::Terminal(x.clone()),
        None => Element::NonTerminal(x.clone()),
    }
}

/// Builds the production table of a grammar.
pub fn augment(grammar: &GrammarInfo) -> (r: Vec<Production>)
    ensures
        prods_view(r@) == table_of(*grammar),
{
    let mut out: Vec<Production> = Vec::new();
    let mut aug_name: Vec<char> = Vec::new();
    aug_name.push('S');
    aug_name.push('\'');
    assert(aug_name@ =~= aug_head());
    let mut body0: Vec<Element> = Vec::new();
    body0.push(Element::NonTerminal(grammar.init_symbol.clone()));
    out.push(Production { head: crate::text::string_of(&aug_name), body: body0 });
    proof {
        assert(grammar.productions@.subrange(0, 0).len() == 0);
        assert(flat_prods(grammar.productions@.subrange(0, 0), grammar.terminals@) =~= Seq::empty());
        assert(prod_view(out@[0]).1 =~= seq![ElemModel::NonTerminal(grammar.init_symbol@)]);
        assert(prods_view(out@) =~~= seq![(aug_head(), seq![ElemModel::NonTerminal(grammar.init_symbol@)])] + flat_prods(
            grammar.productions@.subrange(0, 0), grammar.terminals@));
    }
    let g = &grammar.productions;
    let terms = &grammar.terminals;
    let mut h: usize = 0;
    while h < g.len()
        invariant
            h <= g@.len(),
            g == &grammar.productions,
            terms == &grammar.terminals,
            prods_view(out@) == seq![(aug_head(), seq![ElemModel::NonTerminal(grammar.init_symbol@)])] + flat_prods(
                g@.subrange(0, h as int), terms@),
        decreases g.len() - h,
    {
        let ghost base = prods_view(out@);
        let head = &g[h].0;
        let alts = &g[h].1;
        let mut j: usize = 0;
        while j < alts.len()
            invariant
                j <= alts@.len(),
                prods_view(out@) == base + alts_view(terms@, head@, alts@.subrange(0, j as int)),
            decreases alts.len() - j,
        {
            let alt = &alts[j];
            let mut body: Vec<Element> = Vec::new();
            let mut k: usize = 0;
            while k < alt.len()
                invariant
                    k <= alt@.len(),
                    body@.len() == k,
                    forall|m: int| 0 <= m < k ==> (#[trigger] body@[m])@ == tag(terms@, alt@[m]@),
                decreases alt.len() - k,
            {
                body.push(tag_exec(terms, &alt[k]));
                k = k + 1;
            }
            let ghost before = prods_view(out@);
            out.push(Production { head: head.clone(), body });
            proof {
                assert(prod_view(out@.last()).1 =~= Seq::new(alt@.len(), |k: int| tag(terms@, alt@[k]@)));
                assert(alts_view(terms@, head@, alts@.subrange(0, j + 1)).last() == prod_view(out@.last()));
                assert(prods_view(out@) =~= before.push(prod_view(out@.last())));
                assert(alts@.subrange(0, j + 1).drop_last() =~= alts@.subrange(0, j as int));
                assert(alts_view(terms@, head@, alts@.subrange(0, j + 1)) =~= alts_view(terms@, head@, alts@.subrange(0, j as int)).push(prod_view(out@.last())));
                assert(base + alts_view(terms@, head@, alts@.subrange(0, j + 1)) =~= (base + alts_view(terms@, head@, alts@.subrange(0, j as int))).push(prod_view(out@.last())));
            }
            j = j + 1;
        }
        proof {
            assert(alts@.subrange(0, j as int) =~= alts@);
            assert(g@.subrange(0, h + 1).drop_last() =~= g@.subrange(0, h as int));
            assert(g@.subrange(0, h + 1).last() == g@[h as int]);
            assert(seq![(aug_head(), seq![ElemModel::NonTerminal(grammar.init_symbol@)])] + flat_prods(g@.subrange(0, h + 1), terms@)
                =~= base + alts_view(terms@, head@, alts@));
        }
        h = h + 1;
    }
    assert(g@.subrange(0, h as int) =~= g@);
    out
}

/// An LR(0) item `(production, dot)` is valid in the table `g`.
pub open spec fn item_ok(g: Seq<Production>, it: (usize, usize)) -> bool {
    it.0 < g.len() && it.1 <= g[it.0 as int].body@.len()
}

/// The symbol after the dot, if any.
pub open spec fn next_of(g: Seq<Production>, it: (usize, usize)) -> Option<ElemModel> {
    if it.1 < g[it.0 as int].body@.len() {
        Some(g[it.0 as int].body@[it.1 as int]@)
    } else {
        None
    }
}

/// `items` holds `it`.
pub open spec fn holds(items: Seq<(usize, usize)>, it: (usize, usize)) -> bool {
    exists|k: int| 0 <= k < items.len() && #[trigger] items[k] == it
}

/// Every item is valid and no item occurs twice.
pub open spec fn items_ok(g: Seq<Production>, items: Seq<(usize, usize)>) -> bool {
    &&& forall|k: int| 0 <= k < items.len() ==> item_ok(g, #[trigger] items[k])
    &&& forall|a: int, b: int| 0 <= a < b < items.len() ==> #[trigger] items[a] != #[trigger] items[b]
}

/// Closed: for every item `[A → α · B β]`, every production `B → γ` has
/// its item `[B → · γ]`.
pub open spec fn closed(g: Seq<Production>, items: Seq<(usize, usize)>) -> bool {
    forall|k: int, q: int|
        0 <= k < items.len() && 0 <= q < g.len() && #[trigger] next_of(g, items[k]) == Some(
            ElemModel::NonTerminal(#[trigger] g[q].head@),
        ) ==> holds(items, (q as usize, 0usize))
}

/// Every item after the first `k0` is `[B → · γ]` for a `B` that follows
/// the dot of an earlier item: nothing is added without a reason.
pub open spec fn justified(g: Seq<Production>, items: Seq<(usize, usize)>, k0: int) -> bool {
    forall|k: int|
        k0 <= k < items.len() ==> (#[trigger] items[k]).1 == 0 && exists|j: int|
            0 <= j < k && next_of(g, #[trigger] items[j]) == Some(ElemModel::NonTerminal(g[items[k].0 as int].head@))
}

/// The kernel of `goto(items, x)`: the items whose dot stands before `x`,
/// with the dot moved over it.
pub open spec fn shifted(g: Seq<Production>, items: Seq<(usize, usize)>, x: ElemModel, it: (usize, usize)) -> bool {
    it.1 > 0 && holds(items, (it.0, (it.1 - 1) as usize)) && next_of(g, (it.0, (it.1 - 1) as usize)) == Some(x)
}

/// Whether two elements are equal.
pub fn elem_eq(a: &Element, b: &Element) -> (r: bool)
    ensures
        r == (a@ == b@),
{
    match (a, b) {
        (Element::Terminal(x), Element::Terminal(y)) => *x == *y,
        (Element::NonTerminal(x), Element::NonTerminal(y)) => *x == *y,
        _ => false,
    }
}

fn holds_exec(items: &Vec<(usize, usize)>, it: (usize, usize)) -> (r: bool)
    ensures
        r == holds(items@, it),
{
    let mut k: usize = 0;
    while k < items.len()
        invariant
            k <= items@.len(),
            forall|j: int| 0 <= j < k ==> #[trigger] items@[j] != it,
        decreases items.len() - k,
    {
        if items[k].0 == it.0 && items[k].1 == it.1 {
            return true;
        }
        k = k + 1;
    }
    false
}

/// closure(I): adds `[B → · γ]` for every item `[A → α · B β]` and every
/// production of `B`, until nothing more is added. The items of `kernel`
/// come first, in order.
pub fn closure(prods: &Vec<Production>, kernel: Vec<(usize, usize)>) -> (r: Vec<(usize, usize)>)
    requires
        items_ok(prods@, kernel@),
    ensures
        r@.len() >= kernel@.len(),
        r@.subrange(0, kernel@.len() as int) == kernel@,
        items_ok(prods@, r@),
        closed(prods@, r@),
        justified(prods@, r@, kernel@.len() as int),
{
    let ghost g = prods@;
    let np = prods.len();
    let mut added = false_row(np);
    let mut k: usize = 0;
    while k < kernel.len()
        invariant
            np == g.len(),
            items_ok(g, kernel@),
            k <= kernel@.len(),
            added@.len() == np,
            forall|q: int| 0 <= q < np ==> #[trigger] added@[q] == exists|j: int| 0 <= j < k && #[trigger] kernel@[j] == (q as usize, 0usize),
        decreases kernel.len() - k,
    {
        if kernel[k].1 == 0 {
            let q = kernel[k].0;
            proof {
                assert(item_ok(g, kernel@[k as int]));
            }
            added.set(q, true);
        }
        proof {
            assert forall|q: int| 0 <= q < np implies #[trigger] added@[q] == exists|j: int| 0 <= j < k + 1 && #[trigger] kernel@[j] == (q as usize, 0usize) by {
                if kernel@[k as int] == (q as usize, 0usize) {
                    assert(kernel@[k as int] == (q as usize, 0usize));
                }
            }
        }
        k = k + 1;
    }
    let k0 = kernel.len();
    let mut items = kernel;
    let mut i: usize = 0;
    proof {
        lemma_count_true_bound(added@);
        assert(items@.subrange(0, k0 as int) =~= items@);
    }
    while i < items.len()
        invariant
            np == g.len(),
            g == prods@,
            i <= items@.len(),
            k0 <= items@.len(),
            items@.subrange(0, k0 as int) == kernel@,
            items_ok(g, items@),
            added@.len() == np,
            count_true(added@) <= np,
            forall|q: int| 0 <= q < np ==> #[trigger] added@[q] == holds(items@, (q as usize, 0usize)),
            forall|j: int, q: int|
                0 <= j < i && 0 <= q < g.len() && #[trigger] next_of(g, items@[j]) == Some(
                    ElemModel::NonTerminal(#[trigger] g[q].head@),
                ) ==> holds(items@, (q as usize, 0usize)),
            justified(g, items@, k0 as int),
        decreases np - count_true(added@), items@.len() - i,
    {
        let it = items[i];
        proof {
            assert(item_ok(g, items@[i as int]));
        }
        let ghost c0 = count_true(added@);
        let ghost len0 = items@.len();
        if it.1 < prods[it.0].body.len() {
            if let Element::NonTerminal(b) = &prods[it.0].body[it.1] {
                let mut q: usize = 0;
                while q < np
                    invariant
                        np == g.len(),
                        g == prods@,
                        i < items@.len(),
                        items@[i as int] == it,
                        next_of(g, it) == Some(ElemModel::NonTerminal(b@)),
                        k0 <= items@.len(),
                        items@.len() >= len0,
                        items@.subrange(0, k0 as int) == kernel@,
                        items_ok(g, items@),
                        added@.len() == np,
                        count_true(added@) <= np,
                        count_true(added@) >= c0,
                        items@.len() > len0 ==> count_true(added@) > c0,
                        q <= np,
                        forall|r: int| 0 <= r < np ==> #[trigger] added@[r] == holds(items@, (r as usize, 0usize)),
                        forall|j: int, r: int|
                            0 <= j < i && 0 <= r < g.len() && #[trigger] next_of(g, items@[j]) == Some(
                                ElemModel::NonTerminal(#[trigger] g[r].head@),
                            ) ==> holds(items@, (r as usize, 0usize)),
                        forall|r: int| 0 <= r < q && #[trigger] g[r].head@ == b@ ==> holds(items@, (r as usize, 0usize)),
                        justified(g, items@, k0 as int),
                    decreases np - q,
                {
                    if prods[q].head == *b && !added[q] {
                        let ghost before = items@;
                        items.push((q, 0));
                        proof {
                            lemma_count_true_set(added@, q as int);
                            lemma_count_true_bound(added@.update(q as int, true));
                            assert(items@.subrange(0, k0 as int) =~= before.subrange(0, k0 as int));
                            assert(items@[items@.len() - 1] == (q, 0usize));
                            assert(holds(items@, (q, 0usize)));
                            assert forall|r: int| 0 <= r < np && #[trigger] holds(before, (r as usize, 0usize)) implies holds(items@, (r as usize, 0usize)) by {
                                if holds(before, (r as usize, 0usize)) {
                                    let kk = choose|kk: int| 0 <= kk < before.len() && #[trigger] before[kk] == (r as usize, 0usize);
                                    assert(items@[kk] == before[kk]);
                                }
                            }
                            assert forall|r: int| 0 <= r < np && #[trigger] holds(items@, (r as usize, 0usize)) implies (r == q || holds(before, (r as usize, 0usize))) by {
                                if holds(items@, (r as usize, 0usize)) {
                                    let kk = choose|kk: int| 0 <= kk < items@.len() && #[trigger] items@[kk] == (r as usize, 0usize);
                                    if kk < before.len() {
                                        assert(before[kk] == items@[kk]);
                                    }
                                }
                            }
                            assert forall|a: int, bb: int| 0 <= a < bb < items@.len() implies #[trigger] items@[a] != #[trigger] items@[bb] by {
                                if bb == items@.len() - 1 {
                                    assert(items@[a] == before[a]);
                                }
                            }
                            assert forall|kk: int| 0 <= kk < items@.len() implies item_ok(g, #[trigger] items@[kk]) by {
                                if kk < before.len() {
                                    assert(items@[kk] == before[kk]);
                                }
                            }
                            assert forall|kk: int|
                                k0 <= kk < items@.len() implies (#[trigger] items@[kk]).1 == 0 && exists|j: int|
                                    0 <= j < kk && next_of(g, #[trigger] items@[j]) == Some(ElemModel::NonTerminal(g[items@[kk].0 as int].head@)) by {
                                if kk < before.len() {
                                    assert(items@[kk] == before[kk]);
                                    let j = choose|j: int| 0 <= j < kk && next_of(g, #[trigger] before[j]) == Some(ElemModel::NonTerminal(g[before[kk].0 as int].head@));
                                    assert(items@[j] == before[j]);
                                } else {
                                    assert(items@[i as int] == it);
                                }
                            }
                        }
                        added.set(q, true);
                    }
                    q = q + 1;
                }
            }
        }
        i = i + 1;
    }
    items
}

/// Some item before index `k` of `items` is `it` with the dot one step back.
pub open spec fn from_item(items: Seq<(usize, usize)>, k: int, it: (usize, usize)) -> bool {
    exists|j: int| 0 <= j < k && #[trigger] items[j] == (it.0, (it.1 - 1) as usize)
}

/// goto(I, X): the closure of the items of `I` whose dot stands before
/// `X`, with the dot moved over it.
pub fn goto(prods: &Vec<Production>, items: &Vec<(usize, usize)>, x: &Element) -> (r: Vec<(usize, usize)>)
    requires
        items_ok(prods@, items@),
    ensures
        items_ok(prods@, r@),
        closed(prods@, r@),
        forall|it: (usize, usize)| #[trigger] shifted(prods@, items@, x@, it) ==> holds(r@, it),
        forall|k: int| 0 <= k < r@.len() && (#[trigger] r@[k]).1 > 0 ==> shifted(prods@, items@, x@, r@[k]),
        forall|i: int| i != 0 ==> closure_of_kernel(prods@, r@, i),
{
    let ghost g = prods@;
    let mut kernel: Vec<(usize, usize)> = Vec::new();
    let mut k: usize = 0;
    while k < items.len()
        invariant
            g == prods@,
            items_ok(g, items@),
            k <= items@.len(),
            items_ok(g, kernel@),
            forall|m: int| 0 <= m < kernel@.len() ==> (#[trigger] kernel@[m]).1 > 0 && shifted(g, items@, x@, kernel@[m]),
            forall|m: int| 0 <= m < kernel@.len() ==> from_item(items@, k as int, #[trigger] kernel@[m]),
            forall|j: int| 0 <= j < k && next_of(g, #[trigger] items@[j]) == Some(x@) ==> holds(kernel@, (items@[j].0, (items@[j].1 + 1) as usize)),
        decreases items.len() - k,
    {
        let it = items[k];
        proof {
            assert(item_ok(g, items@[k as int]));
        }
        if it.1 < prods[it.0].body.len() && elem_eq(&prods[it.0].body[it.1], x) {
            let ghost before = kernel@;
            let nit = (it.0, it.1 + 1);
            proof {
                assert(holds(items@, (nit.0, (nit.1 - 1) as usize))) by {
                    assert(items@[k as int] == (nit.0, (nit.1 - 1) as usize));
                }
                assert forall|m: int| 0 <= m < before.len() implies #[trigger] before[m] != nit by {
                    assert(from_item(items@, k as int, before[m]));
                    let j = choose|j: int| 0 <= j < k && #[trigger] items@[j] == ((before[m]).0, ((before[m]).1 - 1) as usize);
                    if before[m] == nit {
                        assert(items@[j] == items@[k as int]);
                    }
                }
            }
            kernel.push(nit);
            proof {
                assert(kernel@[kernel@.len() - 1] == nit);
                assert forall|a: int, b: int| 0 <= a < b < kernel@.len() implies #[trigger] kernel@[a] != #[trigger] kernel@[b] by {
                    if b == kernel@.len() - 1 {
                        assert(kernel@[a] == before[a]);
                    }
                }
                assert forall|j: int| 0 <= j < k + 1 && next_of(g, #[trigger] items@[j]) == Some(x@) implies holds(kernel@, (items@[j].0, (items@[j].1 + 1) as usize)) by {
                    if j < k {
                        let m = choose|m: int| 0 <= m < before.len() && #[trigger] before[m] == (items@[j].0, (items@[j].1 + 1) as usize);
                        assert(kernel@[m] == before[m]);
                    }
                }
                assert forall|m: int| 0 <= m < kernel@.len() implies from_item(items@, k + 1, #[trigger] kernel@[m]) by {
                    if m < before.len() {
                        assert(kernel@[m] == before[m]);
                        assert(from_item(items@, k as int, before[m]));
                    } else {
                        assert(items@[k as int] == ((kernel@[m]).0, ((kernel@[m]).1 - 1) as usize));
                    }
                }
            }
        }
        k = k + 1;
    }
    let ghost kl = kernel@.len();
    let ghost kv = kernel@;
    let r = closure(prods, kernel);
    proof {
        assert forall|k: int| 0 <= k < kl implies (#[trigger] r@[k]).1 > 0 by {
            assert(r@.subrange(0, kl as int)[k] == kv[k]);
        }
        assert forall|i: int| i != 0 implies closure_of_kernel(g, r@, i) by {
            assert(kernel_prefix(g, r@, kl as int, i));
        }
        assert forall|it: (usize, usize)| #[trigger] shifted(g, items@, x@, it) implies holds(r@, it) by {
            let j = choose|j: int| 0 <= j < items@.len() && #[trigger] items@[j] == (it.0, (it.1 - 1) as usize);
            assert(next_of(g, items@[j]) == Some(x@));
            let m = choose|m: int| 0 <= m < kernel@.len() && #[trigger] kernel@[m] == (items@[j].0, (items@[j].1 + 1) as usize);
            assert(r@.subrange(0, kernel@.len() as int)[m] == kernel@[m]);
            assert(r@[m] == it);
        }
        assert forall|k: int| 0 <= k < r@.len() && (#[trigger] r@[k]).1 > 0 implies shifted(g, items@, x@, r@[k]) by {
            if k < kernel@.len() {
                assert(r@.subrange(0, kernel@.len() as int)[k] == kernel@[k]);
            }
        }
    }
    r
}

/// Two item lists hold the same items.
pub open spec fn same_items(a: Seq<(usize, usize)>, b: Seq<(usize, usize)>) -> bool {
    forall|it: (usize, usize)| #[trigger] holds(a, it) <==> holds(b, it)
}

/// How often `it` occurs in `a`.
pub open spec fn count_of(a: Seq<(usize, usize)>, it: (usize, usize)) -> nat
    decreases a.len(),
{
    if a.len() == 0 {
        0
    } else {
        count_of(a.drop_last(), it) + if a.last() == it {
            1nat
        } else {
            0nat
        }
    }
}

/// Two item lists hold the same items equally often.
pub open spec fn same_multiset(a: Seq<(usize, usize)>, b: Seq<(usize, usize)>) -> bool {
    forall|it: (usize, usize)| #[trigger] count_of(a, it) == count_of(b, it)
}

proof fn lemma_count_holds(a: Seq<(usize, usize)>, it: (usize, usize))
    ensures
        count_of(a, it) > 0 <==> holds(a, it),
    decreases a.len(),
{
    if a.len() > 0 {
        lemma_count_holds(a.drop_last(), it);
        if holds(a.drop_last(), it) {
            let k = choose|k: int| 0 <= k < a.drop_last().len() && #[trigger] a.drop_last()[k] == it;
            assert(a[k] == it);
        }
        if holds(a, it) && a.last() != it {
            let k = choose|k: int| 0 <= k < a.len() && #[trigger] a[k] == it;
            assert(a.drop_last()[k] == it);
        }
    }
}

proof fn lemma_count_distinct(a: Seq<(usize, usize)>, it: (usize, usize))
    requires
        forall|x: int, y: int| 0 <= x < y < a.len() ==> #[trigger] a[x] != #[trigger] a[y],
    ensures
        count_of(a, it) == if holds(a, it) { 1nat } else { 0nat },
    decreases a.len(),
{
    if a.len() > 0 {
        let d = a.drop_last();
        assert forall|x: int, y: int| 0 <= x < y < d.len() implies #[trigger] d[x] != #[trigger] d[y] by {
            assert(d[x] == a[x] && d[y] == a[y]);
        }
        lemma_count_distinct(d, it);
        lemma_count_holds(a, it);
        lemma_count_holds(d, it);
        if a.last() == it && holds(d, it) {
            let k = choose|k: int| 0 <= k < d.len() && #[trigger] d[k] == it;
            assert(a[k] == a[a.len() - 1]);
        }
    }
}

/// Lists without repeated items hold the same items exactly when they
/// are equal as multisets.
proof fn lemma_sets_and_multisets(a: Seq<(usize, usize)>, b: Seq<(usize, usize)>)
    requires
        forall|x: int, y: int| 0 <= x < y < a.len() ==> #[trigger] a[x] != #[trigger] a[y],
        forall|x: int, y: int| 0 <= x < y < b.len() ==> #[trigger] b[x] != #[trigger] b[y],
    ensures
        same_items(a, b) <==> same_multiset(a, b),
{
    assert forall|it: (usize, usize)| #[trigger] count_of(a, it) == if holds(a, it) { 1nat } else { 0nat } by {
        lemma_count_distinct(a, it);
    }
    assert forall|it: (usize, usize)| #[trigger] count_of(b, it) == if holds(b, it) { 1nat } else { 0nat } by {
        lemma_count_distinct(b, it);
    }
    if same_multiset(a, b) {
        assert forall|it: (usize, usize)| #[trigger] holds(a, it) <==> holds(b, it) by {
            assert(count_of(a, it) == count_of(b, it));
        }
    }
    if same_items(a, b) {
        assert forall|it: (usize, usize)| #[trigger] count_of(a, it) == count_of(b, it) by {
            assert(holds(a, it) <==> holds(b, it));
        }
    }
}

fn count_exec(a: &Vec<(usize, usize)>, it: (usize, usize)) -> (r: usize)
    ensures
        r == count_of(a@, it),
{
    let mut c: usize = 0;
    let mut k: usize = 0;
    while k < a.len()
        invariant
            k <= a@.len(),
            c == count_of(a@.subrange(0, k as int), it),
            c <= k,
        decreases a.len() - k,
    {
        proof {
            assert(a@.subrange(0, k + 1).drop_last() =~= a@.subrange(0, k as int));
        }
        if a[k].0 == it.0 && a[k].1 == it.1 {
            c = c + 1;
        }
        k = k + 1;
    }
    assert(a@.subrange(0, k as int) =~= a@);
    c
}

/// Whether two item lists are equal as multisets: every item occurs
/// equally often in both.
pub fn are_equal(a: &Vec<(usize, usize)>, b: &Vec<(usize, usize)>) -> (r: bool)
    ensures
        r == same_multiset(a@, b@),
{
    let mut k: usize = 0;
    while k < a.len()
        invariant
            k <= a@.len(),
            forall|j: int| 0 <= j < k ==> count_of(a@, #[trigger] a@[j]) == count_of(b@, a@[j]),
        decreases a.len() - k,
    {
        if count_exec(a, a[k]) != count_exec(b, a[k]) {
            return false;
        }
        k = k + 1;
    }
    let mut k: usize = 0;
    while k < b.len()
        invariant
            k <= b@.len(),
            forall|j: int| 0 <= j < a@.len() ==> count_of(a@, #[trigger] a@[j]) == count_of(b@, a@[j]),
            forall|j: int| 0 <= j < k ==> count_of(a@, #[trigger] b@[j]) == count_of(b@, b@[j]),
        decreases b.len() - k,
    {
        if count_exec(a, b[k]) != count_exec(b, b[k]) {
            return false;
        }
        k = k + 1;
    }
    proof {
        assert forall|it: (usize, usize)| #[trigger] count_of(a@, it) == count_of(b@, it) by {
            lemma_count_holds(a@, it);
            lemma_count_holds(b@, it);
            if holds(a@, it) {
                let j = choose|j: int| 0 <= j < a@.len() && #[trigger] a@[j] == it;
            } else if holds(b@, it) {
                let j = choose|j: int| 0 <= j < b@.len() && #[trigger] b@[j] == it;
            }
        }
    }
    true
}

/// The finish pairs `(id, p)` of the complete items `[p → γ ·]`, `p ≠ 0`,
/// of `content`, in item order.
pub open spec fn finish_list(g: Seq<Production>, content: Seq<(usize, usize)>, id: usize) -> Seq<(usize, usize)>
    decreases content.len(),
{
    if content.len() == 0 {
        Seq::empty()
    } else {
        let it = content.last();
        let rest = finish_list(g, content.drop_last(), id);
        if it.0 != 0 && it.1 == g[it.0 as int].body@.len() {
            rest.push((id, it.0))
        } else {
            rest
        }
    }
}

/// The most states an LR automaton is built with.
pub const MAX_LR_STATES: usize = 4096;

/// The LR(0) automaton of a grammar: the production table, the item set of
/// every state, the transitions, the finish states (state, production) and
/// the accepting states.
#[derive(Debug, Clone)]
pub struct SLR {
    pub productions: Vec<Production>,
    pub contents: Vec<Vec<(usize, usize)>>,
    pub edges: Vec<(usize, Element, usize)>,
    pub finish_states: Vec<(usize, usize)>,
    pub acceptance_states: Vec<usize>,
}

/// The automaton would exceed [`MAX_LR_STATES`] states.
#[derive(Debug, Clone, Copy, PartialEq, Eq, Structural)]
pub struct TooManyStates;

/// No two states hold the same items.
pub open spec fn states_distinct(st: Seq<Vec<(usize, usize)>>) -> bool {
    forall|a: int, b: int| 0 <= a < b < st.len() ==> !same_items(#[trigger] st[a]@, #[trigger] st[b]@)
}

/// `edges` holds a transition from `i` on `x`.
pub open spec fn has_edge(edges: Seq<(usize, Element, usize)>, i: int, x: ElemModel) -> bool {
    exists|e: int| 0 <= e < edges.len() && (#[trigger] edges[e]).0 == i && edges[e].1@ == x
}

/// The automaton is well formed: every state is a closed set of valid
/// items; state 0 holds `[S' → · S]`; every transition `i --x--> j` goes to
/// a state whose items with the dot moved are exactly the items of `i`
/// with the dot before `x`, moved over it; every state has a transition on
/// each symbol after a dot, and one only.
pub open spec fn automaton_ok(g: Seq<Production>, st: Seq<Vec<(usize, usize)>>, edges: Seq<(usize, Element, usize)>) -> bool {
    &&& partial_automaton(g, st, edges)
    &&& forall|i: int, k: int| 0 <= i < st.len() && 0 <= k < st[i]@.len() && (#[trigger] next_of(g, st[i]@[k])) is Some
        ==> has_edge(edges, i, next_of(g, st[i]@[k])->0)
    &&& forall|a: int, b: int| 0 <= a < b < edges.len() ==> !((#[trigger] edges[a]).0 == (#[trigger] edges[b]).0 && edges[a].1@ == edges[b].1@)
}

/// The first `k0` items of state number `i` are its kernel (the dot moved past at
/// least one symbol, or `[S' → · S]` in the start state); every later item
/// is `[B → · γ]` asked for by an earlier item.
pub open spec fn kernel_prefix(g: Seq<Production>, items: Seq<(usize, usize)>, k0: int, i: int) -> bool {
    &&& 0 <= k0 <= items.len()
    &&& forall|k: int| 0 <= k < k0 ==> (#[trigger] items[k]).1 > 0 || (i == 0 && items[k] == (0usize, 0usize))
    &&& justified(g, items, k0)
}

/// State number `i` is exactly the closure of its kernel.
pub open spec fn closure_of_kernel(g: Seq<Production>, items: Seq<(usize, usize)>, i: int) -> bool {
    exists|k0: int| #[trigger] kernel_prefix(g, items, k0, i)
}

/// State `j` is entered by a transition from an earlier state.
pub open spec fn has_incoming(edges: Seq<(usize, Element, usize)>, j: int) -> bool {
    exists|e: int| 0 <= e < edges.len() && (#[trigger] edges[e]).2 == j && edges[e].0 < j
}

/// The states found so far: distinct; each a closed set of valid items
/// that is exactly the closure of its kernel; state 0 the closure of
/// `[S' → · S]`; every transition `i --x--> j` goes to a state whose kernel
/// is exactly the items of `i` with the dot moved over `x`; every state
/// after the first entered from an earlier one.
pub open spec fn partial_automaton(g: Seq<Production>, st: Seq<Vec<(usize, usize)>>, edges: Seq<(usize, Element, usize)>) -> bool {
    &&& states_distinct(st)
    &&& st.len() >= 1
    &&& holds(st[0]@, (0usize, 0usize))
    &&& forall|k: int| 0 <= k < st[0]@.len() ==> (#[trigger] st[0]@[k]).1 == 0
    &&& forall|i: int| 0 <= i < st.len() ==> items_ok(g, (#[trigger] st[i])@) && closed(g, st[i]@) && closure_of_kernel(g, st[i]@, i)
    &&& forall|e: int| 0 <= e < edges.len() ==> {
        let (i, x, j) = #[trigger] edges[e];
        &&& i < st.len() && j < st.len()
        &&& forall|it: (usize, usize)| #[trigger] shifted(g, st[i as int]@, x@, it) ==> holds(st[j as int]@, it)
        &&& forall|k: int| 0 <= k < st[j as int]@.len() && (#[trigger] st[j as int]@[k]).1 > 0 ==> shifted(g, st[i as int]@, x@, st[j as int]@[k])
    }
    &&& forall|j: int| 1 <= j < st.len() ==> #[trigger] has_incoming(edges, j)
}

impl SLR {
    /// The automaton's production table for `grammar`, with no states yet.
    pub fn new(grammar: &GrammarInfo) -> (r: Self)
        ensures
            prods_view(r.productions@) == table_of(*grammar),
            r.contents@.len() == 0,
            r.edges@.len() == 0,
            r.finish_states@.len() == 0,
            r.acceptance_states@.len() == 0,
    {
        SLR {
            productions: augment(grammar),
            contents: Vec::new(),
            edges: Vec::new(),
            finish_states: Vec::new(),
            acceptance_states: Vec::new(),
        }
    }

    /// The symbols after a dot in `items`, each once, in item order.
    pub fn requires_closure(&self, items: &Vec<(usize, usize)>) -> (r: Vec<Element>)
        requires
            items_ok(self.productions@, items@),
        ensures
            forall|a: int, b: int| 0 <= a < b < r@.len() ==> (#[trigger] r@[a])@ != (#[trigger] r@[b])@,
            forall|k: int| 0 <= k < items@.len() && (#[trigger] next_of(self.productions@, items@[k])) is Some ==>
                exists|m: int| 0 <= m < r@.len() && (#[trigger] r@[m])@ == next_of(self.productions@, items@[k])->0,
    {
        let ghost g = self.productions@;
        let mut r: Vec<Element> = Vec::new();
        let mut k: usize = 0;
        while k < items.len()
            invariant
                g == self.productions@,
                items_ok(g, items@),
                k <= items@.len(),
                forall|a: int, b: int| 0 <= a < b < r@.len() ==> (#[trigger] r@[a])@ != (#[trigger] r@[b])@,
                forall|j: int| 0 <= j < k && (#[trigger] next_of(g, items@[j])) is Some ==>
                    exists|m: int| 0 <= m < r@.len() && (#[trigger] r@[m])@ == next_of(g, items@[j])->0,
            decreases items.len() - k,
        {
            let it = items[k];
            proof {
                assert(item_ok(g, items@[k as int]));
            }
            if it.1 < self.productions[it.0].body.len() {
                let x = &self.productions[it.0].body[it.1];
                let mut seen = false;
                let mut m: usize = 0;
                while m < r.len()
                    invariant
                        m <= r@.len(),
                        seen ==> exists|q: int| 0 <= q < r@.len() && (#[trigger] r@[q])@ == x@,
                        !seen ==> forall|q: int| 0 <= q < m ==> (#[trigger] r@[q])@ != x@,
                    decreases r.len() - m,
                {
                    if elem_eq(&r[m], x) {
                        seen = true;
                    }
                    m = m + 1;
                }
                if !seen {
                    let ghost before = r@;
                    r.push(copy_elem(x));
                    proof {
                        assert(r@[r@.len() - 1]@ == x@);
                        assert forall|a: int, b: int| 0 <= a < b < r@.len() implies (#[trigger] r@[a])@ != (#[trigger] r@[b])@ by {
                            if b == r@.len() - 1 {
                                assert(r@[a] == before[a]);
                            } else {
                                assert(r@[a] == before[a]);
                                assert(r@[b] == before[b]);
                            }
                        }
                        assert forall|j: int| 0 <= j < k + 1 && (#[trigger] next_of(g, items@[j])) is Some implies
                            exists|mm: int| 0 <= mm < r@.len() && (#[trigger] r@[mm])@ == next_of(g, items@[j])->0 by {
                            if j < k {
                                let mm = choose|mm: int| 0 <= mm < before.len() && (#[trigger] before[mm])@ == next_of(g, items@[j])->0;
                                assert(r@[mm] == before[mm]);
                            } else {
                                assert(r@[r@.len() - 1]@ == next_of(g, items@[j])->0);
                            }
                        }
                    }
                }
            }
            k = k + 1;
        }
        r
    }
}

/// The LR(0) automaton is built: well formed, with its finish states
/// (every complete item but the augmented one) and accepting states.
pub open spec fn slr_built(at: SLR) -> bool {
    &&& automaton_ok(at.productions@, at.contents@, at.edges@)
    &&& forall|f: int| 0 <= f < at.finish_states@.len() ==> {
                let (i, p) = #[trigger] at.finish_states@[f];
                i < at.contents@.len() && p != 0 && p < at.productions@.len()
                    && holds(at.contents@[i as int]@, (p, at.productions@[p as int].body@.len() as usize))
            }
    &&& forall|i: int, k: int| 0 <= i < at.contents@.len() && 0 <= k < at.contents@[i]@.len()
                && (#[trigger] at.contents@[i]@[k]).0 != 0 && at.contents@[i]@[k].1 == at.productions@[at.contents@[i]@[k].0 as int].body@.len()
                ==> exists|f: int| 0 <= f < at.finish_states@.len() && #[trigger] at.finish_states@[f] == (i as usize, at.contents@[i]@[k].0)
    &&& forall|a: int| 0 <= a < at.acceptance_states@.len() ==> {
                let i = #[trigger] at.acceptance_states@[a];
                i < at.contents@.len() && holds(at.contents@[i as int]@, (0usize, 1usize))
            }
    &&& forall|i: int| 0 <= i < at.contents@.len() && #[trigger] holds(at.contents@[i]@, (0usize, 1usize))
                ==> exists|a: int| 0 <= a < at.acceptance_states@.len() && #[trigger] at.acceptance_states@[a] == i
}

/// The construction stopped at the cap: [`MAX_LR_STATES`] distinct closed
/// states were found and another one was needed.
pub open spec fn slr_capped(at: SLR) -> bool {
    &&& at.contents@.len() == MAX_LR_STATES
    &&& partial_automaton(at.productions@, at.contents@, at.edges@)
}

impl SLR {
    /// Builds the canonical LR(0) collection: state 0 is
    /// closure({[S' → · S]}); states are explored in order and every
    /// goto that matches an existing state (as a set of items) reuses it.
    /// Then tags the finish and accepting states.
    #[verifier::rlimit(60)]
    pub fn generate(&mut self) -> (r: Result<(), TooManyStates>)
        requires
            old(self).productions@.len() >= 1,
            old(self).productions@[0].body@.len() == 1,
        ensures
            final(self).productions == old(self).productions,
            r is Ok ==> slr_built(*final(self)),
            r is Err ==> slr_capped(*final(self)),
    {
        let ghost g = self.productions@;
        let mut k0: Vec<(usize, usize)> = Vec::new();
        k0.push((0, 0));
        let s0 = closure(&self.productions, k0);
        assert(s0@[0] == (0usize, 0usize)) by {
            assert(s0@.subrange(0, 1)[0] == (0usize, 0usize));
        }
        proof {
            assert(kernel_prefix(g, s0@, 1, 0));
            assert forall|k: int| 0 <= k < s0@.len() implies (#[trigger] s0@[k]).1 == 0 by {
                if k >= 1 {
                    assert(justified(g, s0@, 1));
                }
            }
        }
        let mut states: Vec<Vec<(usize, usize)>> = Vec::new();
        states.push(s0);
        let mut edges: Vec<(usize, Element, usize)> = Vec::new();
        let mut cur: usize = 0;
        while cur < states.len()
            invariant
                g == self.productions@,
                1 <= states@.len() <= MAX_LR_STATES,
                self.productions == old(self).productions,
                cur <= states@.len(),
                holds(states@[0]@, (0usize, 0usize)),
                states_distinct(states@),
                forall|i: int| 0 <= i < states@.len() ==> #[trigger] closure_of_kernel(g, states@[i]@, i),
                forall|k: int| 0 <= k < states@[0]@.len() ==> (#[trigger] states@[0]@[k]).1 == 0,
                forall|j: int| 1 <= j < states@.len() ==> #[trigger] has_incoming(edges@, j),
                forall|i: int| 0 <= i < states@.len() ==> items_ok(g, (#[trigger] states@[i])@) && closed(g, states@[i]@),
                forall|e: int| 0 <= e < edges@.len() ==> {
                    let (i, x, j) = #[trigger] edges@[e];
                    &&& i < cur && j < states@.len()
                    &&& forall|it: (usize, usize)| #[trigger] shifted(g, states@[i as int]@, x@, it) ==> holds(states@[j as int]@, it)
                    &&& forall|k: int| 0 <= k < states@[j as int]@.len() && (#[trigger] states@[j as int]@[k]).1 > 0 ==> shifted(g, states@[i as int]@, x@, states@[j as int]@[k])
                },
                forall|i: int, k: int| 0 <= i < cur && 0 <= k < states@[i]@.len() && (#[trigger] next_of(g, states@[i]@[k])) is Some
                    ==> has_edge(edges@, i, next_of(g, states@[i]@[k])->0),
                forall|a: int, b: int| 0 <= a < b < edges@.len() ==> !((#[trigger] edges@[a]).0 == (#[trigger] edges@[b]).0 && edges@[a].1@ == edges@[b].1@),
            decreases MAX_LR_STATES - cur,
        {
            let syms = self.requires_closure(&states[cur]);
            let ghost e0 = edges@.len();
            let ghost cs0 = states@[cur as int]@;
            let mut m: usize = 0;
            while m < syms.len()
                invariant
                    g == self.productions@,
                    1 <= states@.len() <= MAX_LR_STATES,
                    self.productions == old(self).productions,
                    cur < states@.len(),
                    m <= syms@.len(),
                    e0 <= edges@.len(),
                    edges@.len() == e0 + m,
                    holds(states@[0]@, (0usize, 0usize)),
                    states_distinct(states@),
                    forall|i: int| 0 <= i < states@.len() ==> #[trigger] closure_of_kernel(g, states@[i]@, i),
                    forall|k: int| 0 <= k < states@[0]@.len() ==> (#[trigger] states@[0]@[k]).1 == 0,
                    forall|j: int| 1 <= j < states@.len() ==> #[trigger] has_incoming(edges@, j),
                    forall|a: int, b: int| 0 <= a < b < syms@.len() ==> (#[trigger] syms@[a])@ != (#[trigger] syms@[b])@,
                    states@[cur as int]@ == cs0,
                    forall|k: int| 0 <= k < cs0.len() && (#[trigger] next_of(g, cs0[k])) is Some ==>
                        exists|mm: int| 0 <= mm < syms@.len() && (#[trigger] syms@[mm])@ == next_of(g, cs0[k])->0,
                    forall|i: int| 0 <= i < states@.len() ==> items_ok(g, (#[trigger] states@[i])@) && closed(g, states@[i]@),
                    forall|e: int| 0 <= e < edges@.len() ==> {
                        let (i, x, j) = #[trigger] edges@[e];
                        &&& i <= cur && j < states@.len()
                        &&& forall|it: (usize, usize)| #[trigger] shifted(g, states@[i as int]@, x@, it) ==> holds(states@[j as int]@, it)
                        &&& forall|k: int| 0 <= k < states@[j as int]@.len() && (#[trigger] states@[j as int]@[k]).1 > 0 ==> shifted(g, states@[i as int]@, x@, states@[j as int]@[k])
                    },
                    forall|e: int| 0 <= e < e0 ==> (#[trigger] edges@[e]).0 < cur,
                    forall|e: int| e0 <= e < edges@.len() ==> (#[trigger] edges@[e]).0 == cur && edges@[e].1@ == syms@[e - e0]@,
                    forall|i: int, k: int| 0 <= i < cur && 0 <= k < states@[i]@.len() && (#[trigger] next_of(g, states@[i]@[k])) is Some
                        ==> has_edge(edges@, i, next_of(g, states@[i]@[k])->0),
                    forall|a: int, b: int| 0 <= a < b < edges@.len() ==> !((#[trigger] edges@[a]).0 == (#[trigger] edges@[b]).0 && edges@[a].1@ == edges@[b].1@),
                decreases syms.len() - m,
            {
                let ghost old_states = states@;
                let ghost old_edges = edges@;
                let x = &syms[m];
                let j_set = goto(&self.productions, &states[cur], x);
                let mut found: Option<usize> = None;
                let mut q: usize = 0;
                while q < states.len()
                    invariant
                        q <= states@.len(),
                        found matches Some(t) ==> t < states@.len() && same_items(states@[t as int]@, j_set@),
                        found is None ==> forall|t: int| 0 <= t < q ==> !same_items(#[trigger] states@[t]@, j_set@),
                        forall|i: int| 0 <= i < states@.len() ==> items_ok(g, (#[trigger] states@[i])@),
                        items_ok(g, j_set@),
                    decreases states.len() - q,
                {
                    if found.is_none() {
                        let eq = are_equal(&states[q], &j_set);
                        proof {
                            assert(items_ok(g, states@[q as int]@));
                            lemma_sets_and_multisets(states@[q as int]@, j_set@);
                        }
                        if eq {
                            found = Some(q);
                        }
                    }
                    q = q + 1;
                }
                let j = match found {
                    Some(t) => t,
                    None => {
                        if states.len() >= MAX_LR_STATES {
                            proof {
                                assert(partial_automaton(g, states@, edges@));
                            }
                            self.contents = states;
                            self.edges = edges;
                            return Err(TooManyStates);
                        }
                        let ghost before_push = states@;
                        states.push(j_set);
                        proof {
                            assert(same_items(states@[states@.len() - 1]@, j_set@));
                            assert forall|a: int, b: int| 0 <= a < b < states@.len() implies !same_items(#[trigger] states@[a]@, #[trigger] states@[b]@) by {
                                if b == states@.len() - 1 {
                                    assert(states@[a] == before_push[a]);
                                } else {
                                    assert(states@[a] == before_push[a]);
                                    assert(states@[b] == before_push[b]);
                                }
                            }
                        }
                        states.len() - 1
                    },
                };
                edges.push((cur, copy_elem(x), j));
                proof {
                    assert forall|i: int| 0 <= i < old_states.len() implies states@[i] == old_states[i] by {}
                    assert forall|i: int| 0 <= i < states@.len() implies #[trigger] closure_of_kernel(g, states@[i]@, i) by {
                        if i < old_states.len() {
                            assert(closure_of_kernel(g, old_states[i]@, i));
                        }
                    }
                    assert forall|jj: int| 1 <= jj < states@.len() implies #[trigger] has_incoming(edges@, jj) by {
                        if jj < old_states.len() {
                            assert(has_incoming(old_edges, jj));
                            let e = choose|e: int| 0 <= e < old_edges.len() && (#[trigger] old_edges[e]).2 == jj && old_edges[e].0 < jj;
                            assert(edges@[e] == old_edges[e]);
                        } else {
                            assert(edges@[edges@.len() - 1].2 == jj);
                        }
                    }
                    let cs = states@[cur as int]@;
                    assert(cs == old_states[cur as int]@);
                    assert forall|e: int| 0 <= e < edges@.len() implies {
                        let (i, xx, jj) = #[trigger] edges@[e];
                        &&& i <= cur && jj < states@.len()
                        &&& forall|it: (usize, usize)| #[trigger] shifted(g, states@[i as int]@, xx@, it) ==> holds(states@[jj as int]@, it)
                        &&& forall|k: int| 0 <= k < states@[jj as int]@.len() && (#[trigger] states@[jj as int]@[k]).1 > 0 ==> shifted(g, states@[i as int]@, xx@, states@[jj as int]@[k])
                    } by {
                        if e < old_edges.len() {
                            assert(edges@[e] == old_edges[e]);
                            let (i, xx, jj) = old_edges[e];
                            assert(states@[i as int] == old_states[i as int]);
                            assert(states@[jj as int] == old_states[jj as int]);
                        } else {
                            let js = states@[j as int]@;
                            assert(same_items(js, j_set@));
                            assert forall|it: (usize, usize)| #[trigger] shifted(g, cs, x@, it) implies holds(js, it) by {
                                assert(holds(j_set@, it));
                            }
                            assert forall|k: int| 0 <= k < js.len() && (#[trigger] js[k]).1 > 0 implies shifted(g, cs, x@, js[k]) by {
                                assert(holds(js, js[k]));
                                assert(holds(j_set@, js[k]));
                                let kk = choose|kk: int| 0 <= kk < j_set@.len() && #[trigger] j_set@[kk] == js[k];
                            }
                        }
                    }
                    assert forall|i: int, k: int| 0 <= i < cur && 0 <= k < states@[i]@.len() && (#[trigger] next_of(g, states@[i]@[k])) is Some
                        implies has_edge(edges@, i, next_of(g, states@[i]@[k])->0) by {
                        assert(states@[i] == old_states[i]);
                        let e = choose|e: int| 0 <= e < old_edges.len() && (#[trigger] old_edges[e]).0 == i && old_edges[e].1@ == next_of(g, old_states[i]@[k])->0;
                        assert(edges@[e] == old_edges[e]);
                    }
                    assert forall|a: int, b: int| 0 <= a < b < edges@.len() implies !((#[trigger] edges@[a]).0 == (#[trigger] edges@[b]).0 && edges@[a].1@ == edges@[b].1@) by {
                        if b == edges@.len() - 1 {
                            assert(edges@[a] == old_edges[a]);
                            if a >= e0 {
                                assert(old_edges[a].1@ == syms@[a - e0]@);
                            }
                        } else {
                            assert(edges@[a] == old_edges[a]);
                            assert(edges@[b] == old_edges[b]);
                        }
                    }
                }
                m = m + 1;
            }
            proof {
                assert forall|k: int| 0 <= k < states@[cur as int]@.len() && (#[trigger] next_of(g, states@[cur as int]@[k])) is Some
                    implies has_edge(edges@, cur as int, next_of(g, states@[cur as int]@[k])->0) by {
                    let mm = choose|mm: int| 0 <= mm < syms@.len() && (#[trigger] syms@[mm])@ == next_of(g, states@[cur as int]@[k])->0;
                    assert(edges@[e0 + mm].0 == cur);
                }
            }
            cur = cur + 1;
        }
        self.contents = states;
        self.edges = edges;
        self.tag_states();
        Ok(())
    }
}

impl SLR {
    /// Whether state `id` finishes a production: the last production whose
    /// item in the state has the dot at the end.
    pub fn is_finish(&self, id: usize) -> (r: Option<usize>)
        requires
            id < self.contents@.len(),
            items_ok(self.productions@, self.contents@[id as int]@),
        ensures
            r matches Some(p) ==> holds(self.contents@[id as int]@, (p, self.productions@[p as int].body@.len() as usize)) && p < self.productions@.len(),
            r is None ==> forall|k: int| 0 <= k < self.contents@[id as int]@.len() ==> (#[trigger] self.contents@[id as int]@[k]).1 != self.productions@[self.contents@[id as int]@[k].0 as int].body@.len(),
    {
        let items = &self.contents[id];
        let mut r: Option<usize> = None;
        let mut k: usize = 0;
        while k < items.len()
            invariant
                items == &self.contents@[id as int],
                items_ok(self.productions@, items@),
                k <= items@.len(),
                r matches Some(p) ==> holds(items@, (p, self.productions@[p as int].body@.len() as usize)) && p < self.productions@.len(),
                r is None ==> forall|j: int| 0 <= j < k ==> (#[trigger] items@[j]).1 != self.productions@[items@[j].0 as int].body@.len(),
            decreases items.len() - k,
        {
            let it = items[k];
            proof {
                assert(item_ok(self.productions@, items@[k as int]));
            }
            if it.1 == self.productions[it.0].body.len() {
                r = Some(it.0);
                assert(items@[k as int] == (it.0, self.productions@[it.0 as int].body@.len() as usize));
            }
            k = k + 1;
        }
        r
    }

    /// Records the finish states (state, production) for every complete
    /// item other than the augmented one, and the accepting states, those
    /// that hold `[S' → S ·]`.
    fn tag_states(&mut self)
        requires
            forall|i: int| 0 <= i < old(self).contents@.len() ==> items_ok(old(self).productions@, (#[trigger] old(self).contents@[i])@),
        ensures
            final(self).productions == old(self).productions,
            final(self).contents == old(self).contents,
            final(self).edges == old(self).edges,
            forall|f: int| 0 <= f < final(self).finish_states@.len() ==> {
                let (i, p) = #[trigger] final(self).finish_states@[f];
                i < final(self).contents@.len() && p != 0 && p < final(self).productions@.len()
                    && holds(final(self).contents@[i as int]@, (p, final(self).productions@[p as int].body@.len() as usize))
            },
            forall|i: int, k: int| 0 <= i < final(self).contents@.len() && 0 <= k < final(self).contents@[i]@.len()
                && (#[trigger] final(self).contents@[i]@[k]).0 != 0 && final(self).contents@[i]@[k].1 == final(self).productions@[final(self).contents@[i]@[k].0 as int].body@.len()
                ==> exists|f: int| 0 <= f < final(self).finish_states@.len() && #[trigger] final(self).finish_states@[f] == (i as usize, final(self).contents@[i]@[k].0),
            forall|a: int| 0 <= a < final(self).acceptance_states@.len() ==> {
                let i = #[trigger] final(self).acceptance_states@[a];
                i < final(self).contents@.len() && holds(final(self).contents@[i as int]@, (0usize, 1usize))
            },
            forall|i: int| 0 <= i < final(self).contents@.len() && #[trigger] holds(final(self).contents@[i]@, (0usize, 1usize))
                ==> exists|a: int| 0 <= a < final(self).acceptance_states@.len() && #[trigger] final(self).acceptance_states@[a] == i,
    {
        let mut fin: Vec<(usize, usize)> = Vec::new();
        let mut acc: Vec<usize> = Vec::new();
        let n = self.contents.len();
        let mut i: usize = 0;
        while i < n
            invariant
                n == self.contents@.len(),
                i <= n,
                forall|i: int| 0 <= i < self.contents@.len() ==> items_ok(self.productions@, (#[trigger] self.contents@[i])@),
                forall|f: int| 0 <= f < fin@.len() ==> {
                    let (i, p) = #[trigger] fin@[f];
                    i < self.contents@.len() && p != 0 && p < self.productions@.len()
                        && holds(self.contents@[i as int]@, (p, self.productions@[p as int].body@.len() as usize))
                },
                forall|ii: int, k: int| 0 <= ii < i && 0 <= k < self.contents@[ii]@.len()
                    && (#[trigger] self.contents@[ii]@[k]).0 != 0 && self.contents@[ii]@[k].1 == self.productions@[self.contents@[ii]@[k].0 as int].body@.len()
                    ==> exists|f: int| 0 <= f < fin@.len() && #[trigger] fin@[f] == (ii as usize, self.contents@[ii]@[k].0),
                forall|a: int| 0 <= a < acc@.len() ==> {
                    let i = #[trigger] acc@[a];
                    i < self.contents@.len() && holds(self.contents@[i as int]@, (0usize, 1usize))
                },
                forall|ii: int| 0 <= ii < i && #[trigger] holds(self.contents@[ii]@, (0usize, 1usize))
                    ==> exists|a: int| 0 <= a < acc@.len() && #[trigger] acc@[a] == ii,
            decreases n - i,
        {
            let items = &self.contents[i];
            let mut k: usize = 0;
            let mut accepting = false;
            while k < items.len()
                invariant
                    n == self.contents@.len(),
                    i < n,
                    items == &self.contents@[i as int],
                    items_ok(self.productions@, items@),
                    k <= items@.len(),
                    accepting ==> holds(items@, (0usize, 1usize)),
                    !accepting ==> forall|j: int| 0 <= j < k ==> #[trigger] items@[j] != (0usize, 1usize),
                    forall|f: int| 0 <= f < fin@.len() ==> {
                        let (i, p) = #[trigger] fin@[f];
                        i < self.contents@.len() && p != 0 && p < self.productions@.len()
                            && holds(self.contents@[i as int]@, (p, self.productions@[p as int].body@.len() as usize))
                    },
                    forall|ii: int, kk: int| 0 <= ii < i && 0 <= kk < self.contents@[ii]@.len()
                        && (#[trigger] self.contents@[ii]@[kk]).0 != 0 && self.contents@[ii]@[kk].1 == self.productions@[self.contents@[ii]@[kk].0 as int].body@.len()
                        ==> exists|f: int| 0 <= f < fin@.len() && #[trigger] fin@[f] == (ii as usize, self.contents@[ii]@[kk].0),
                    forall|kk: int| 0 <= kk < k
                        && (#[trigger] items@[kk]).0 != 0 && items@[kk].1 == self.productions@[items@[kk].0 as int].body@.len()
                        ==> exists|f: int| 0 <= f < fin@.len() && #[trigger] fin@[f] == (i as usize, items@[kk].0),
                decreases items.len() - k,
            {
                let it = items[k];
                proof {
                    assert(item_ok(self.productions@, items@[k as int]));
                }
                if it.0 == 0 && it.1 == 1 {
                    accepting = true;
                    assert(items@[k as int] == (0usize, 1usize));
                }
                proof {
                    if !(it.0 != 0 && it.1 == self.productions@[it.0 as int].body@.len()) {
                        assert(!(items@[k as int].0 != 0 && items@[k as int].1 == self.productions@[items@[k as int].0 as int].body@.len()));
                    }
                }
                if it.0 != 0 && it.1 == self.productions[it.0].body.len() {
                    let ghost before = fin@;
                    fin.push((i, it.0));
                    proof {
                        assert(items@[k as int] == (it.0, self.productions@[it.0 as int].body@.len() as usize));
                        assert(fin@[fin@.len() - 1] == (i, it.0));
                        assert forall|ii: int, kk: int| 0 <= ii < i && 0 <= kk < self.contents@[ii]@.len()
                            && (#[trigger] self.contents@[ii]@[kk]).0 != 0 && self.contents@[ii]@[kk].1 == self.productions@[self.contents@[ii]@[kk].0 as int].body@.len()
                            implies exists|f: int| 0 <= f < fin@.len() && #[trigger] fin@[f] == (ii as usize, self.contents@[ii]@[kk].0) by {
                            let f = choose|f: int| 0 <= f < before.len() && #[trigger] before[f] == (ii as usize, self.contents@[ii]@[kk].0);
                            assert(fin@[f] == before[f]);
                        }
                        assert forall|kk: int| 0 <= kk < k
                            && (#[trigger] items@[kk]).0 != 0 && items@[kk].1 == self.productions@[items@[kk].0 as int].body@.len()
                            implies exists|f: int| 0 <= f < fin@.len() && #[trigger] fin@[f] == (i as usize, items@[kk].0) by {
                            let f = choose|f: int| 0 <= f < before.len() && #[trigger] before[f] == (i as usize, items@[kk].0);
                            assert(fin@[f] == before[f]);
                        }
                    }
                }
                k = k + 1;
            }
            proof {
                assert forall|ii: int, kk: int| 0 <= ii < i + 1 && 0 <= kk < self.contents@[ii]@.len()
                    && (#[trigger] self.contents@[ii]@[kk]).0 != 0 && self.contents@[ii]@[kk].1 == self.productions@[self.contents@[ii]@[kk].0 as int].body@.len()
                    implies exists|f: int| 0 <= f < fin@.len() && #[trigger] fin@[f] == (ii as usize, self.contents@[ii]@[kk].0) by {
                    if ii == i {
                        assert(self.contents@[ii]@[kk] == items@[kk]);
                    }
                }
            }
            if accepting {
                let ghost before = acc@;
                acc.push(i);
                proof {
                    assert(acc@[acc@.len() - 1] == i);
                    assert forall|ii: int| 0 <= ii < i + 1 && #[trigger] holds(self.contents@[ii]@, (0usize, 1usize))
                        implies exists|a: int| 0 <= a < acc@.len() && #[trigger] acc@[a] == ii by {
                        if ii < i {
                            let a = choose|a: int| 0 <= a < before.len() && #[trigger] before[a] == ii;
                            assert(acc@[a] == before[a]);
                        }
                    }
                }
            } else {
                proof {
                    assert(!holds(items@, (0usize, 1usize)));
                }
            }
            i = i + 1;
        }
        proof {
            assert forall|ii: int, kk: int| 0 <= ii < self.contents@.len() && 0 <= kk < self.contents@[ii]@.len()
                && (#[trigger] self.contents@[ii]@[kk]).0 != 0 && self.contents@[ii]@[kk].1 == self.productions@[self.contents@[ii]@[kk].0 as int].body@.len()
                implies exists|f: int| 0 <= f < fin@.len() && #[trigger] fin@[f] == (ii as usize, self.contents@[ii]@[kk].0) by {
                assert(ii < i);
            }
            assert forall|ii: int| 0 <= ii < self.contents@.len() && #[trigger] holds(self.contents@[ii]@, (0usize, 1usize))
                implies exists|a: int| 0 <= a < acc@.len() && #[trigger] acc@[a] == ii by {
                assert(ii < i);
            }
        }
        self.finish_states = fin;
        self.acceptance_states = acc;
        proof {
            assert forall|ii: int, kk: int| 0 <= ii < self.contents@.len() && 0 <= kk < self.contents@[ii]@.len()
                && (#[trigger] self.contents@[ii]@[kk]).0 != 0 && self.contents@[ii]@[kk].1 == self.productions@[self.contents@[ii]@[kk].0 as int].body@.len()
                implies exists|f: int| 0 <= f < self.finish_states@.len() && #[trigger] self.finish_states@[f] == (ii as usize, self.contents@[ii]@[kk].0) by {
                let f = choose|f: int| 0 <= f < fin@.len() && #[trigger] fin@[f] == (ii as usize, self.contents@[ii]@[kk].0);
                assert(self.finish_states@[f] == fin@[f]);
            }
            assert forall|ii: int| 0 <= ii < self.contents@.len() && #[trigger] holds(self.contents@[ii]@, (0usize, 1usize))
                implies exists|a: int| 0 <= a < self.acceptance_states@.len() && #[trigger] self.acceptance_states@[a] == ii by {
                let a = choose|a: int| 0 <= a < acc@.len() && #[trigger] acc@[a] == ii;
                assert(self.acceptance_states@[a] == acc@[a]);
            }
        }
    }
}

/// The SLR ACTION cells: shift on every terminal transition; reduce by `p`
/// in every finish state of `p` on every terminal of FOLLOW of its head;
/// accept on `$` in every accepting state.
pub open spec fn slr_wants(slr: SLR, follow: Seq<Vec<bool>>, terms: Seq<String>, nts: Seq<String>, s: int, a: Seq<char>, x: Action) -> bool {
    match x {
        Action::Shift(t) => exists|e: int| 0 <= e < slr.edges@.len() && (#[trigger] slr.edges@[e]).0 == s
            && slr.edges@[e].1@ == ElemModel::Terminal(a) && slr.edges@[e].2 == t,
        Action::Reduce(p) => exists|f: int, ti: int| 0 <= f < slr.finish_states@.len() && 0 <= ti < terms.len()
            && (#[trigger] slr.finish_states@[f]).0 == s && slr.finish_states@[f].1 == p && (#[trigger] terms[ti])@ == a
            && match index_of(nts, slr.productions@[p as int].head@) {
                Some(h) => follow[h]@[ti],
                None => false,
            },
        Action::Accept => a == dollar() && exists|k: int| 0 <= k < slr.acceptance_states@.len() && #[trigger] slr.acceptance_states@[k] == s,
    }
}

/// Some non-terminal transition gives the GOTO entry `g`.
pub open spec fn goto_has_edge(edges: Seq<(usize, Element, usize)>, g: GotoEntry) -> bool {
    exists|e: int| 0 <= e < edges.len() && (#[trigger] edges[e]).0 == g.state
        && edges[e].1@ == ElemModel::NonTerminal(g.symbol@) && edges[e].2 == g.target
}

/// Some GOTO entry stands for the transition `edge`.
pub open spec fn edge_in_goto(gt: Seq<GotoEntry>, edge: (usize, Element, usize)) -> bool {
    exists|k: int| 0 <= k < gt.len() && (#[trigger] gt[k]).state == edge.0
        && ElemModel::NonTerminal(gt[k].symbol@) == edge.1@ && gt[k].target == edge.2
}

/// The GOTO entries are exactly the non-terminal transitions.
pub open spec fn goto_matches(edges: Seq<(usize, Element, usize)>, gt: Seq<GotoEntry>) -> bool {
    &&& forall|k: int| 0 <= k < gt.len() ==> goto_has_edge(edges, #[trigger] gt[k])
    &&& forall|e: int| 0 <= e < edges.len() && (#[trigger] edges[e]).1@ is NonTerminal ==> edge_in_goto(gt, edges[e])
}

/// The GOTO entries of the non-terminal transitions.
pub fn goto_entries(edges: &Vec<(usize, Element, usize)>) -> (r: Vec<GotoEntry>)
    ensures
        goto_matches(edges@, r@),
{
    let mut gt: Vec<GotoEntry> = Vec::new();
    let mut e: usize = 0;
    while e < edges.len()
        invariant
            e <= edges@.len(),
            forall|k: int| 0 <= k < gt@.len() ==> goto_has_edge(edges@, #[trigger] gt@[k]),
            forall|ee: int| 0 <= ee < e && (#[trigger] edges@[ee]).1@ is NonTerminal ==> edge_in_goto(gt@, edges@[ee]),
        decreases edges.len() - e,
    {
        if let Element::NonTerminal(n) = &edges[e].1 {
            let ghost before = gt@;
            gt.push(GotoEntry { state: edges[e].0, symbol: n.clone(), target: edges[e].2 });
            proof {
                let last = gt@[gt@.len() - 1];
                assert(edges@[e as int].0 == last.state);
                assert(goto_has_edge(edges@, last));
                assert forall|k: int| 0 <= k < gt@.len() implies goto_has_edge(edges@, #[trigger] gt@[k]) by {
                    if k < before.len() {
                        assert(gt@[k] == before[k]);
                    }
                }
                assert forall|ee: int| 0 <= ee < e + 1 && (#[trigger] edges@[ee]).1@ is NonTerminal implies edge_in_goto(gt@, edges@[ee]) by {
                    if ee < e {
                        assert(edge_in_goto(before, edges@[ee]));
                        let k = choose|k: int| 0 <= k < before.len() && (#[trigger] before[k]).state == edges@[ee].0
                            && ElemModel::NonTerminal(before[k].symbol@) == edges@[ee].1@ && before[k].target == edges@[ee].2;
                        assert(gt@[k] == before[k]);
                    } else {
                        assert(gt@[gt@.len() - 1].state == edges@[ee].0);
                    }
                }
            }
        }
        e = e + 1;
    }
    gt
}

impl SLR {
    /// The SLR(1) tables: ACTION from the terminal transitions (shift), the
    /// finish states with FOLLOW of the production's head (reduce) and the
    /// accepting states on `$` (accept); GOTO from the non-terminal
    /// transitions. Two different actions for one cell are a conflict.
    pub fn build_parsing_table(&self, follows: &Vec<Vec<bool>>, terms: &Vec<String>, nts: &Vec<String>) -> (r: Result<(Vec<ActionEntry>, Vec<GotoEntry>), GrammarConflict>)
        requires
            rows_shape(follows@, nts@.len() as int, terms@.len() as int),
            forall|f: int| 0 <= f < self.finish_states@.len() ==> (#[trigger] self.finish_states@[f]).1 < self.productions@.len(),
        ensures
            r matches Ok((act, gt)) ==> {
                &&& unique_keys(act@)
                &&& forall|k: int| 0 <= k < act@.len() ==> slr_wants(*self, follows@, terms@, nts@, (#[trigger] act@[k]).state as int, act@[k].symbol@, act@[k].action)
                &&& forall|s: int, a: Seq<char>, x: Action| #[trigger] slr_wants(*self, follows@, terms@, nts@, s, a, x) ==> has_entry(act@, s, a, x)
                &&& goto_matches(self.edges@, gt@)
            },
            r matches Err(c) ==> c.existing != c.new && slr_wants(*self, follows@, terms@, nts@, c.state as int, c.symbol@, c.existing)
                && slr_wants(*self, follows@, terms@, nts@, c.state as int, c.symbol@, c.new),
    {
        let ghost me = *self;
        let mut act: Vec<ActionEntry> = Vec::new();
        let mut e: usize = 0;
        while e < self.edges.len()
            invariant
                me == *self,
                e <= self.edges@.len(),
                unique_keys(act@),
                forall|k: int| 0 <= k < act@.len() ==> slr_wants(me, follows@, terms@, nts@, (#[trigger] act@[k]).state as int, act@[k].symbol@, act@[k].action),
                forall|ee: int| 0 <= ee < e && (#[trigger] self.edges@[ee]).1@ is Terminal ==>
                    has_entry(act@, self.edges@[ee].0 as int, self.edges@[ee].1@->Terminal_0, Action::Shift(self.edges@[ee].2)),
            decreases self.edges.len() - e,
        {
            if let Element::Terminal(t) = &self.edges[e].1 {
                let ghost before = act@;
                let x = Action::Shift(self.edges[e].2);
                proof {
                    assert(slr_wants(me, follows@, terms@, nts@, self.edges@[e as int].0 as int, t@, x));
                }
                match insert_action(&mut act, self.edges[e].0, t, x) {
                    Ok(()) => {},
                    Err(c) => {
                        return Err(c);
                    },
                }
                proof {
                    assert forall|k: int| 0 <= k < act@.len() implies slr_wants(me, follows@, terms@, nts@, (#[trigger] act@[k]).state as int, act@[k].symbol@, act@[k].action) by {
                        if has_entry(before, act@[k].state as int, act@[k].symbol@, act@[k].action) {
                            let j = choose|j: int| 0 <= j < before.len() && (#[trigger] before[j]).state == act@[k].state as int && before[j].symbol@ == act@[k].symbol@ && before[j].action == act@[k].action;
                        }
                    }
                }
            }
            e = e + 1;
        }
        let mut f: usize = 0;
        while f < self.finish_states.len()
            invariant
                me == *self,
                rows_shape(follows@, nts@.len() as int, terms@.len() as int),
                forall|f: int| 0 <= f < self.finish_states@.len() ==> (#[trigger] self.finish_states@[f]).1 < self.productions@.len(),
                f <= self.finish_states@.len(),
                unique_keys(act@),
                forall|k: int| 0 <= k < act@.len() ==> slr_wants(me, follows@, terms@, nts@, (#[trigger] act@[k]).state as int, act@[k].symbol@, act@[k].action),
                forall|ee: int| 0 <= ee < self.edges@.len() && (#[trigger] self.edges@[ee]).1@ is Terminal ==>
                    has_entry(act@, self.edges@[ee].0 as int, self.edges@[ee].1@->Terminal_0, Action::Shift(self.edges@[ee].2)),
                forall|ff: int, ti: int| 0 <= ff < f && 0 <= ti < terms@.len() && (match index_of(nts@, self.productions@[(#[trigger] self.finish_states@[ff]).1 as int].head@) {
                    Some(h) => follows@[h]@[ti],
                    None => false,
                }) ==> has_entry(act@, self.finish_states@[ff].0 as int, (#[trigger] terms@[ti])@, Action::Reduce(self.finish_states@[ff].1)),
            decreases self.finish_states.len() - f,
        {
            let (st, p) = self.finish_states[f];
            let hi = find_index(nts, &self.productions[p].head);
            proof {
                crate::syn::bits::lemma_index_of(nts@, self.productions@[p as int].head@);
            }
            if let Some(h) = hi {
                let mut ti: usize = 0;
                while ti < terms.len()
                    invariant
                        me == *self,
                        rows_shape(follows@, nts@.len() as int, terms@.len() as int),
                        forall|f: int| 0 <= f < self.finish_states@.len() ==> (#[trigger] self.finish_states@[f]).1 < self.productions@.len(),
                        f < self.finish_states@.len(),
                        self.finish_states@[f as int] == (st, p),
                        index_of(nts@, self.productions@[p as int].head@) == Some(h as int),
                        h < nts@.len(),
                        ti <= terms@.len(),
                        unique_keys(act@),
                        forall|k: int| 0 <= k < act@.len() ==> slr_wants(me, follows@, terms@, nts@, (#[trigger] act@[k]).state as int, act@[k].symbol@, act@[k].action),
                        forall|ee: int| 0 <= ee < self.edges@.len() && (#[trigger] self.edges@[ee]).1@ is Terminal ==>
                            has_entry(act@, self.edges@[ee].0 as int, self.edges@[ee].1@->Terminal_0, Action::Shift(self.edges@[ee].2)),
                        forall|ff: int, tj: int| 0 <= ff < f && 0 <= tj < terms@.len() && (match index_of(nts@, self.productions@[(#[trigger] self.finish_states@[ff]).1 as int].head@) {
                            Some(h) => follows@[h]@[tj],
                            None => false,
                        }) ==> has_entry(act@, self.finish_states@[ff].0 as int, (#[trigger] terms@[tj])@, Action::Reduce(self.finish_states@[ff].1)),
                        forall|tj: int| 0 <= tj < ti && follows@[h as int]@[tj] ==> has_entry(act@, st as int, (#[trigger] terms@[tj])@, Action::Reduce(p)),
                    decreases terms.len() - ti,
                {
                    if follows[h][ti] {
                        let ghost before = act@;
                        let x = Action::Reduce(p);
                        proof {
                            assert(slr_wants(me, follows@, terms@, nts@, st as int, terms@[ti as int]@, x));
                        }
                        match insert_action(&mut act, st, &terms[ti], x) {
                            Ok(()) => {},
                            Err(c) => {
                                return Err(c);
                            },
                        }
                        proof {
                            assert forall|k: int| 0 <= k < act@.len() implies slr_wants(me, follows@, terms@, nts@, (#[trigger] act@[k]).state as int, act@[k].symbol@, act@[k].action) by {
                                if has_entry(before, act@[k].state as int, act@[k].symbol@, act@[k].action) {
                                    let j = choose|j: int| 0 <= j < before.len() && (#[trigger] before[j]).state == act@[k].state as int && before[j].symbol@ == act@[k].symbol@ && before[j].action == act@[k].action;
                                }
                            }
                        }
                    }
                    ti = ti + 1;
                }
            }
            f = f + 1;
        }
        let dl = crate::syn::syn_analyzer::dollar_string();
        let mut k: usize = 0;
        while k < self.acceptance_states.len()
            invariant
                me == *self,
                dl@ == dollar(),
                k <= self.acceptance_states@.len(),
                unique_keys(act@),
                forall|k: int| 0 <= k < act@.len() ==> slr_wants(me, follows@, terms@, nts@, (#[trigger] act@[k]).state as int, act@[k].symbol@, act@[k].action),
                forall|ee: int| 0 <= ee < self.edges@.len() && (#[trigger] self.edges@[ee]).1@ is Terminal ==>
                    has_entry(act@, self.edges@[ee].0 as int, self.edges@[ee].1@->Terminal_0, Action::Shift(self.edges@[ee].2)),
                forall|ff: int, ti: int| 0 <= ff < self.finish_states@.len() && 0 <= ti < terms@.len() && (match index_of(nts@, self.productions@[(#[trigger] self.finish_states@[ff]).1 as int].head@) {
                    Some(h) => follows@[h]@[ti],
                    None => false,
                }) ==> has_entry(act@, self.finish_states@[ff].0 as int, (#[trigger] terms@[ti])@, Action::Reduce(self.finish_states@[ff].1)),
                forall|kk: int| 0 <= kk < k ==> has_entry(act@, (#[trigger] self.acceptance_states@[kk]) as int, dollar(), Action::Accept),
            decreases self.acceptance_states.len() - k,
        {
            let ghost before = act@;
            let st = self.acceptance_states[k];
            proof {
                assert(slr_wants(me, follows@, terms@, nts@, st as int, dl@, Action::Accept));
            }
            match insert_action(&mut act, st, &dl, Action::Accept) {
                Ok(()) => {},
                Err(c) => {
                    return Err(c);
                },
            }
            proof {
                assert forall|k: int| 0 <= k < act@.len() implies slr_wants(me, follows@, terms@, nts@, (#[trigger] act@[k]).state as int, act@[k].symbol@, act@[k].action) by {
                    if has_entry(before, act@[k].state as int, act@[k].symbol@, act@[k].action) {
                        let j = choose|j: int| 0 <= j < before.len() && (#[trigger] before[j]).state == act@[k].state as int && before[j].symbol@ == act@[k].symbol@ && before[j].action == act@[k].action;
                    }
                }
            }
            k = k + 1;
        }
        proof {
            assert forall|s: int, a: Seq<char>, x: Action| #[trigger] slr_wants(me, follows@, terms@, nts@, s, a, x) implies has_entry(act@, s, a, x) by {
                match x {
                    Action::Shift(t) => {
                        let e = choose|e: int| 0 <= e < me.edges@.len() && (#[trigger] me.edges@[e]).0 == s
                            && me.edges@[e].1@ == ElemModel::Terminal(a) && me.edges@[e].2 == t;
                        assert(self.edges@[e] == me.edges@[e]);
                        assert(self.edges@[e].1@ is Terminal);
                    },
                    Action::Reduce(p) => {
                        let (ff, ti) = choose|ff: int, ti: int| 0 <= ff < me.finish_states@.len() && 0 <= ti < terms@.len()
                            && (#[trigger] me.finish_states@[ff]).0 == s && me.finish_states@[ff].1 == p && (#[trigger] terms@[ti])@ == a
                            && match index_of(nts@, me.productions@[p as int].head@) {
                                Some(h) => follows@[h]@[ti],
                                None => false,
                            };
                        assert(self.finish_states@[ff] == me.finish_states@[ff]);
                        assert(has_entry(act@, self.finish_states@[ff].0 as int, terms@[ti]@, Action::Reduce(self.finish_states@[ff].1)));
                    },
                    Action::Accept => {
                        let kk = choose|kk: int| 0 <= kk < me.acceptance_states@.len() && #[trigger] me.acceptance_states@[kk] == s;
                        assert(self.acceptance_states@[kk] == me.acceptance_states@[kk]);
                    },
                }
            }
        }
        let gt = goto_entries(&self.edges);
        Ok((act, gt))
    }
}

impl SLR {
    /// Adds a state with the given items and returns its number. The state
    /// is paired with every production `p ≠ 0` whose complete item it holds
    /// (in item order) and tagged accepting when it holds `[S' → S ·]`.
    pub fn create_state(&mut self, content: Vec<(usize, usize)>) -> (r: usize)
        requires
            forall|k: int| 0 <= k < content@.len() ==> item_ok(old(self).productions@, #[trigger] content@[k]),
        ensures
            r == old(self).contents@.len(),
            final(self).contents@ == old(self).contents@.push(content),
            final(self).productions == old(self).productions,
            final(self).edges == old(self).edges,
            final(self).finish_states@ == old(self).finish_states@ + finish_list(old(self).productions@, content@, r),
            final(self).acceptance_states@ == if holds(content@, (0usize, 1usize)) {
                old(self).acceptance_states@.push(r)
            } else {
                old(self).acceptance_states@
            },
    {
        let id = self.contents.len();
        let ghost f0 = self.finish_states@;
        let mut accepting = false;
        let mut k: usize = 0;
        while k < content.len()
            invariant
                k <= content@.len(),
                id == old(self).contents@.len(),
                self.productions == old(self).productions,
                self.contents == old(self).contents,
                self.edges == old(self).edges,
                self.acceptance_states == old(self).acceptance_states,
                f0 == old(self).finish_states@,
                forall|j: int| 0 <= j < content@.len() ==> item_ok(self.productions@, #[trigger] content@[j]),
                accepting == exists|j: int| 0 <= j < k && #[trigger] content@[j] == (0usize, 1usize),
                self.finish_states@ == f0 + finish_list(self.productions@, content@.subrange(0, k as int), id),
            decreases content.len() - k,
        {
            let it = content[k];
            proof {
                assert(item_ok(self.productions@, content@[k as int]));
                assert(content@.subrange(0, k + 1).drop_last() =~= content@.subrange(0, k as int));
                assert(content@.subrange(0, k + 1).last() == it);
            }
            if it.0 == 0 && it.1 == 1 {
                accepting = true;
            }
            if it.0 != 0 && it.1 == self.productions[it.0].body.len() {
                self.finish_states.push((id, it.0));
                proof {
                    assert(self.finish_states@ =~= f0 + finish_list(self.productions@, content@.subrange(0, k + 1), id));
                }
            }
            k = k + 1;
        }
        proof {
            assert(content@.subrange(0, k as int) =~= content@);
        }
        self.contents.push(content);
        if accepting {
            self.acceptance_states.push(id);
        }
        id
    }

    /// Adds the transition `from --trans--> to`.
    pub fn add_edge(&mut self, from: usize, to: usize, trans: Element)
        ensures
            final(self).edges@ == old(self).edges@.push((from, trans, to)),
            final(self).contents == old(self).contents,
            final(self).productions == old(self).productions,
    {
        self.edges.push((from, trans, to));
    }
}

impl SLR {
    /// The items of a state as text: `I<n>` and then one line
    /// `~ head -> body` per item with `.` at the dot and terminals quoted.
    pub fn print_state(&self, state_index: usize) -> (r: String)
        requires
            state_index < self.contents@.len(),
            items_ok(self.productions@, self.contents@[state_index as int]@),
        ensures
            r@.len() > 0,
    {
        let mut out: Vec<char> = Vec::new();
        out.push('I');
        let num = crate::text::decimal(state_index);
        crate::text::push_all(&mut out, &num);
        out.push('\n');
        let items = &self.contents[state_index];
        let mut k: usize = 0;
        while k < items.len()
            invariant
                items == &self.contents@[state_index as int],
                items_ok(self.productions@, items@),
                k <= items@.len(),
                out@.len() > 0,
            decreases items.len() - k,
        {
            let (p, dot) = items[k];
            proof {
                assert(item_ok(self.productions@, items@[k as int]));
            }
            let prod = &self.productions[p];
            crate::text::push_str(&mut out, "~ ");
            let head = crate::text::chars_of(prod.head.as_str());
            crate::text::push_all(&mut out, &head);
            crate::text::push_str(&mut out, " -> ");
            let mut j: usize = 0;
            while j < prod.body.len()
                invariant
                    j <= prod.body@.len(),
                    out@.len() > 0,
                decreases prod.body.len() - j,
            {
                if j == dot {
                    crate::text::push_str(&mut out, ". ");
                }
                match &prod.body[j] {
                    Element::Terminal(t) => {
                        out.push('"');
                        let cs = crate::text::chars_of(t.as_str());
                        crate::text::push_all(&mut out, &cs);
                        out.push('"');
                    },
                    Element::NonTerminal(n) => {
                        let cs = crate::text::chars_of(n.as_str());
                        crate::text::push_all(&mut out, &cs);
                    },
                }
                out.push(' ');
                j = j + 1;
            }
            if dot == prod.body.len() {
                out.push('.');
            }
            out.push('\n');
            k = k + 1;
        }
        crate::text::string_of(&out)
    }
}

} // verus!
