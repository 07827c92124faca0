//! FIRST and FOLLOW sets, as rows of booleans: one row per non-terminal (in
//! the order of the non-terminal list), one cell per terminal (in the order
//! of the terminal list, which holds `$`).
use vstd::prelude::*;
use crate::syn::bits::{
    count_true, false_row, find_index, index_of, lemma_count_true_set, lemma_total_bound,
    lemma_total_update, total_true,
};
use crate::syn::slr_automata::{ElemModel, Element, Production};

verus! {

/// The rows have one row per non-terminal and one cell per terminal.
pub open spec fn rows_shape(rows: Seq<Vec<bool>>, n: int, w: int) -> bool {
    &&& rows.len() == n
    &&& forall|a: int| 0 <= a < n ==> (#[trigger] rows[a])@.len() == w
}

/// Terminal `t` begins non-terminal `a` by a derivation of depth `d`: some
/// production of `a` begins with `t`, or begins with a non-terminal that
/// `t` begins by a derivation of depth `d - 1`.
pub open spec fn first_deriv(
    g: Seq<Production>,
    terms: Seq<String>,
    nts: Seq<String>,
    a: int,
    t: int,
    d: nat,
) -> bool
    decreases d,
{
    exists|p: int|
        0 <= p < g.len() && index_of(nts, (#[trigger] g[p]).head@) == Some(a) && g[p].body@.len() > 0
            && match g[p].body@[0]@ {
            ElemModel::Terminal(x) => index_of(terms, x) == Some(t),
            ElemModel::NonTerminal(y) => d > 0 && match index_of(nts, y) {
                Some(b) => first_deriv(g, terms, nts, b, t, (d - 1) as nat),
                None => false,
            },
        }
}

/// The FIRST rule of production `p` holds in `rows`: its head's row holds
/// the terminal it begins with, or the whole row of the non-terminal it
/// begins with.
pub open spec fn first_rule_ok(
    g: Seq<Production>,
    terms: Seq<String>,
    nts: Seq<String>,
    rows: Seq<Vec<bool>>,
    p: int,
) -> bool {
    match index_of(nts, g[p].head@) {
        None => true,
        Some(a) => g[p].body@.len() == 0 || match g[p].body@[0]@ {
            ElemModel::Terminal(x) => match index_of(terms, x) {
                Some(t) => rows[a]@[t],
                None => true,
            },
            ElemModel::NonTerminal(y) => match index_of(nts, y) {
                Some(b) => forall|t: int| 0 <= t < terms.len() && #[trigger] rows[b]@[t] ==> rows[a]@[t],
                None => true,
            },
        },
    }
}

/// Every cell of `rows` has a derivation.
pub open spec fn first_sound(
    g: Seq<Production>,
    terms: Seq<String>,
    nts: Seq<String>,
    rows: Seq<Vec<bool>>,
) -> bool {
    forall|a: int, t: int|
        0 <= a < nts.len() && 0 <= t < terms.len() && #[trigger] rows[a]@[t] ==> exists|d: nat|
            first_deriv(g, terms, nts, a, t, d)
}

/// `rows` is FIRST: closed under the rules and every cell derived.
pub open spec fn first_ok(g: Seq<Production>, terms: Seq<String>, nts: Seq<String>, rows: Seq<Vec<bool>>) -> bool {
    &&& rows_shape(rows, nts.len() as int, terms.len() as int)
    &&& forall|p: int| 0 <= p < g.len() ==> #[trigger] first_rule_ok(g, terms, nts, rows, p)
    &&& first_sound(g, terms, nts, rows)
}

/// A copy of a row.
pub fn copy_row(v: &Vec<bool>) -> (r: Vec<bool>)
    ensures
        r@ == v@,
{
    let mut r: Vec<bool> = Vec::new();
    let mut k: usize = 0;
    while k < v.len()
        invariant
            k <= v@.len(),
            r@ == v@.subrange(0, k as int),
        decreases v.len() - k,
    {
        r.push(v[k]);
        k = k + 1;
        assert(r@ =~= v@.subrange(0, k as int));
    }
    assert(r@ =~= v@);
    r
}

/// Sets cell `(a, t)`.
pub(crate) fn set_cell(rows: &mut Vec<Vec<bool>>, a: usize, t: usize)
    requires
        a < old(rows)@.len(),
        t < old(rows)@[a as int]@.len(),
        !old(rows)@[a as int]@[t as int],
    ensures
        final(rows)@.len() == old(rows)@.len(),
        total_true(final(rows)@) == total_true(old(rows)@) + 1,
        forall|b: int, u: int| 0 <= b < old(rows)@.len() && 0 <= u < old(rows)@[b]@.len() ==> (#[trigger] final(rows)@[b]@[u]) == if b == a && u == t {
            true
        } else {
            old(rows)@[b]@[u]
        },
        forall|b: int| 0 <= b < old(rows)@.len() ==> (#[trigger] final(rows)@[b])@.len() == old(rows)@[b]@.len(),
{
    let mut row = copy_row(&rows[a]);
    let ghost before = rows@;
    row.set(t, true);
    proof {
        lemma_count_true_set(before[a as int]@, t as int);
        assert(row@ == before[a as int]@.update(t as int, true));
        lemma_total_update(before, a as int, row);
    }
    rows.set(a, row);
    proof {
        assert(rows@ == before.update(a as int, row));
    }
}

/// FIRST of every non-terminal: the least sets in which every production
/// `A → X …` puts `X` into FIRST(A) when `X` is a terminal and all of
/// FIRST(X) when it is a non-terminal. Only the first symbol of a body is
/// looked at.
pub fn find_first(prods: &Vec<Production>, terms: &Vec<String>, nts: &Vec<String>) -> (r: Vec<Vec<bool>>)
    ensures
        first_ok(prods@, terms@, nts@, r@),
{
    let n = nts.len();
    let w = terms.len();
    let mut rows: Vec<Vec<bool>> = Vec::new();
    let mut a: usize = 0;
    while a < n
        invariant
            a <= n,
            rows@.len() == a,
            forall|b: int| 0 <= b < a ==> (#[trigger] rows@[b])@.len() == w,
            forall|b: int, t: int| 0 <= b < a && 0 <= t < w ==> !#[trigger] rows@[b]@[t],
        decreases n - a,
    {
        rows.push(false_row(w));
        a = a + 1;
    }
    let mut changed = true;
    proof {
        lemma_total_bound(rows@, w as nat);
    }
    while changed
        invariant
            n == nts@.len(),
            w == terms@.len(),
            rows_shape(rows@, n as int, w as int),
            first_sound(prods@, terms@, nts@, rows@),
            total_true(rows@) <= n * w,
            !changed ==> forall|p: int| 0 <= p < prods@.len() ==> #[trigger] first_rule_ok(prods@, terms@, nts@, rows@, p),
        decreases n * w - total_true(rows@) + if changed { 1int } else { 0int },
    {
        changed = false;
        let ghost start = rows@;
        let ghost total0 = total_true(rows@);
        let mut p: usize = 0;
        while p < prods.len()
            invariant
                n == nts@.len(),
                w == terms@.len(),
                p <= prods@.len(),
                rows_shape(rows@, n as int, w as int),
                first_sound(prods@, terms@, nts@, rows@),
                !changed ==> rows@ == start,
                total0 == total_true(start),
                changed ==> total_true(rows@) > total0,
                !changed ==> forall|q: int| 0 <= q < p ==> #[trigger] first_rule_ok(prods@, terms@, nts@, rows@, q),
            decreases prods.len() - p,
        {
            let ghost g = prods@;
            let prod = &prods[p];
            if let Some(a) = find_index(nts, &prod.head) {
                if prod.body.len() > 0 {
                    proof {
                        crate::syn::bits::lemma_index_of(nts@, prod.head@);
                    }
                    match &prod.body[0] {
                        Element::Terminal(x) => {
                            if let Some(t) = find_index(terms, x) {
                                proof {
                                    crate::syn::bits::lemma_index_of(terms@, x@);
                                }
                                if !rows[a][t] {
                                    proof {
                                        assert(first_deriv(g, terms@, nts@, a as int, t as int, 0));
                                    }
                                    set_cell(&mut rows, a, t);
                                    changed = true;
                                }
                            }
                        },
                        Element::NonTerminal(y) => {
                            if let Some(b) = find_index(nts, y) {
                                proof {
                                    crate::syn::bits::lemma_index_of(nts@, y@);
                                }
                                let mut t: usize = 0;
                                while t < w
                                    invariant
                                        n == nts@.len(),
                                        w == terms@.len(),
                                        a < n && b < n,
                                        t <= w,
                                        p < g.len(),
                                        g == prods@,
                                        index_of(nts@, g[p as int].head@) == Some(a as int),
                                        g[p as int].body@.len() > 0,
                                        g[p as int].body@[0]@ == ElemModel::NonTerminal(y@),
                                        index_of(nts@, y@) == Some(b as int),
                                        rows_shape(rows@, n as int, w as int),
                                        first_sound(prods@, terms@, nts@, rows@),
                                        !changed ==> rows@ == start,
                                        total0 == total_true(start),
                                        changed ==> total_true(rows@) > total0,
                                        !changed ==> forall|q: int| 0 <= q < p ==> #[trigger] first_rule_ok(prods@, terms@, nts@, rows@, q),
                                        forall|u: int| 0 <= u < t && #[trigger] rows@[b as int]@[u] ==> rows@[a as int]@[u],
                                    decreases w - t,
                                {
                                    if rows[b][t] && !rows[a][t] {
                                        proof {
                                            let d = choose|d: nat| first_deriv(g, terms@, nts@, b as int, t as int, d);
                                            assert(first_deriv(g, terms@, nts@, a as int, t as int, d + 1));
                                        }
                                        set_cell(&mut rows, a, t);
                                        changed = true;
                                    }
                                    t = t + 1;
                                }
                            }
                        },
                    }
                }
            }
            proof {
                assert(!changed ==> first_rule_ok(prods@, terms@, nts@, rows@, p as int));
            }
            p = p + 1;
        }
        proof {
            lemma_total_bound(rows@, w as nat);
        }
    }
    rows
}

/// The name of the end marker.
pub open spec fn dollar() -> Seq<char> {
    seq!['$']
}

/// The name of the empty string when it is written as a terminal.
pub open spec fn epsilon() -> Seq<char> {
    seq!['\u{3b5}']
}

/// Terminal `a` follows non-terminal `b` by a derivation of depth `d`:
/// `b` is the start symbol and `a` is `$`; or some body has `b` at
/// position `i` and the next symbol is the terminal `a`, or a non-terminal
/// whose FIRST holds `a` (not ε); or `b` ends the body, or the next
/// non-terminal's FIRST holds ε, and `a` follows the head by depth `d - 1`.
pub open spec fn follow_deriv(
    g: Seq<Production>,
    terms: Seq<String>,
    nts: Seq<String>,
    first: Seq<Vec<bool>>,
    start: Seq<char>,
    b: int,
    a: int,
    d: nat,
) -> bool
    decreases d,
{
    (index_of(nts, start) == Some(b) && index_of(terms, dollar()) == Some(a)) || exists|p: int, i: int|
        0 <= p < g.len() && 0 <= i < g[p].body@.len() && (#[trigger] g[p].body@[i])@ == ElemModel::NonTerminal(nts[b]@)
            && index_of(nts, nts[b]@) == Some(b)
            && match index_of(nts, g[p].head@) {
            None => false,
            Some(h) => if i + 1 < g[p].body@.len() {
                match g[p].body@[i + 1]@ {
                    ElemModel::Terminal(x) => index_of(terms, x) == Some(a),
                    ElemModel::NonTerminal(z) => match index_of(nts, z) {
                        Some(c) => (first[c]@[a] && index_of(terms, epsilon()) != Some(a)) || (
                        match index_of(terms, epsilon()) {
                            Some(e) => first[c]@[e],
                            None => false,
                        } && d > 0 && follow_deriv(g, terms, nts, first, start, h, a, (d - 1) as nat)),
                        None => false,
                    },
                }
            } else {
                d > 0 && follow_deriv(g, terms, nts, first, start, h, a, (d - 1) as nat)
            },
        }
}

/// Every cell of `rows` has a FOLLOW derivation.
pub open spec fn follow_sound(
    g: Seq<Production>,
    terms: Seq<String>,
    nts: Seq<String>,
    first: Seq<Vec<bool>>,
    start: Seq<char>,
    rows: Seq<Vec<bool>>,
) -> bool {
    forall|b: int, a: int|
        0 <= b < nts.len() && 0 <= a < terms.len() && #[trigger] rows[b]@[a] ==> exists|d: nat|
            follow_deriv(g, terms, nts, first, start, b, a, d)
}

/// Row `dst` holds every cell of row `src`.
pub open spec fn row_includes(rows: Seq<Vec<bool>>, src: int, dst: int, w: int) -> bool {
    forall|a: int| 0 <= a < w && #[trigger] rows[src]@[a] ==> rows[dst]@[a]
}

/// `rows` is FOLLOW: `$` follows the start symbol, the rules hold, and
/// every cell is derived.
pub open spec fn follow_ok(
    g: Seq<Production>,
    terms: Seq<String>,
    nts: Seq<String>,
    first: Seq<Vec<bool>>,
    start: Seq<char>,
    rows: Seq<Vec<bool>>,
) -> bool {
    &&& rows_shape(rows, nts.len() as int, terms.len() as int)
    &&& match (index_of(nts, start), index_of(terms, dollar())) {
        (Some(b), Some(a)) => rows[b]@[a],
        _ => true,
    }
    &&& forall|p: int, i: int|
        0 <= p < g.len() && 0 <= i < g[p].body@.len() ==> #[trigger] follow_rule_ok(g, terms, nts, first, rows, p, i)
    &&& follow_sound(g, terms, nts, first, start, rows)
}

/// The FOLLOW rule for position `i` of production `p` holds in `rows`.
pub open spec fn follow_rule_ok(
    g: Seq<Production>,
    terms: Seq<String>,
    nts: Seq<String>,
    first: Seq<Vec<bool>>,
    rows: Seq<Vec<bool>>,
    p: int,
    i: int,
) -> bool {
    let body = g[p].body@;
    match (body[i]@, index_of(nts, g[p].head@)) {
        (ElemModel::NonTerminal(y), Some(h)) => match index_of(nts, y) {
            None => true,
            Some(b) => if i + 1 < body.len() {
                match body[i + 1]@ {
                    ElemModel::Terminal(x) => match index_of(terms, x) {
                        Some(t) => rows[b]@[t],
                        None => true,
                    },
                    ElemModel::NonTerminal(z) => match index_of(nts, z) {
                        Some(c) => (forall|a: int|
                            0 <= a < terms.len() && #[trigger] first[c]@[a] && index_of(terms, epsilon()) != Some(a) ==> rows[b]@[a])
                            && (match index_of(terms, epsilon()) {
                            Some(e) => first[c]@[e],
                            None => false,
                        } ==> row_includes(rows, h, b, terms.len() as int)),
                        None => true,
                    },
                }
            } else {
                row_includes(rows, h, b, terms.len() as int)
            },
        },
        _ => true,
    }
}

/// FOLLOW of every non-terminal: the least sets with `$` in FOLLOW of the
/// start symbol and closed under the rules for `A → α B β`: FIRST(β) less
/// ε goes into FOLLOW(B), and FOLLOW(A) too when β is empty or begins with
/// a non-terminal whose FIRST holds ε. Only the symbol right after `B` is
/// looked at.
pub fn find_follow(
    prods: &Vec<Production>,
    terms: &Vec<String>,
    nts: &Vec<String>,
    first: &Vec<Vec<bool>>,
    start_symbol: &String,
) -> (r: Vec<Vec<bool>>)
    requires
        rows_shape(first@, nts@.len() as int, terms@.len() as int),
    ensures
        follow_ok(prods@, terms@, nts@, first@, start_symbol@, r@),
{
    let ghost g = prods@;
    let n = nts.len();
    let w = terms.len();
    let mut rows: Vec<Vec<bool>> = Vec::new();
    let mut k: usize = 0;
    while k < n
        invariant
            k <= n,
            rows@.len() == k,
            forall|b: int| 0 <= b < k ==> (#[trigger] rows@[b])@.len() == w,
            forall|b: int, t: int| 0 <= b < k && 0 <= t < w ==> !#[trigger] rows@[b]@[t],
        decreases n - k,
    {
        rows.push(false_row(w));
        k = k + 1;
    }
    let dl = crate::syn::syn_analyzer::dollar_string();
    let eps = epsilon_string();
    let eps_idx = find_index(terms, &eps);
    proof {
        crate::syn::bits::lemma_index_of(terms@, epsilon());
        crate::syn::bits::lemma_index_of(terms@, dollar());
        crate::syn::bits::lemma_index_of(nts@, start_symbol@);
    }
    if let (Some(b), Some(a)) = (find_index(nts, start_symbol), find_index(terms, &dl)) {
        proof {
            assert(follow_deriv(g, terms@, nts@, first@, start_symbol@, b as int, a as int, 0));
        }
        set_cell(&mut rows, b, a);
    }
    let mut changed = true;
    proof {
        lemma_total_bound(rows@, w as nat);
    }
    while changed
        invariant
            g == prods@,
            n == nts@.len(),
            w == terms@.len(),
            rows_shape(first@, n as int, w as int),
            rows_shape(rows@, n as int, w as int),
            eps_idx matches Some(e) ==> index_of(terms@, epsilon()) == Some(e as int),
            eps_idx is None ==> index_of(terms@, epsilon()) is None,
            index_of(nts@, start_symbol@) matches Some(b) ==> 0 <= b < n,
            index_of(terms@, dollar()) matches Some(a) ==> 0 <= a < w,
            match (index_of(nts@, start_symbol@), index_of(terms@, dollar())) {
                (Some(b), Some(a)) => rows@[b]@[a],
                _ => true,
            },
            follow_sound(g, terms@, nts@, first@, start_symbol@, rows@),
            total_true(rows@) <= n * w,
            !changed ==> forall|p: int, i: int|
                0 <= p < g.len() && 0 <= i < g[p].body@.len() ==> #[trigger] follow_rule_ok(g, terms@, nts@, first@, rows@, p, i),
        decreases n * w - total_true(rows@) + if changed { 1int } else { 0int },
    {
        changed = false;
        let ghost start = rows@;
        let ghost total0 = total_true(rows@);
        let mut p: usize = 0;
        while p < prods.len()
            invariant
                g == prods@,
                n == nts@.len(),
                w == terms@.len(),
                p <= g.len(),
                rows_shape(first@, n as int, w as int),
                rows_shape(rows@, n as int, w as int),
                eps_idx matches Some(e) ==> index_of(terms@, epsilon()) == Some(e as int),
                eps_idx is None ==> index_of(terms@, epsilon()) is None,
                index_of(nts@, start_symbol@) matches Some(b) ==> 0 <= b < n,
                index_of(terms@, dollar()) matches Some(a) ==> 0 <= a < w,
                match (index_of(nts@, start_symbol@), index_of(terms@, dollar())) {
                    (Some(b), Some(a)) => rows@[b]@[a],
                    _ => true,
                },
                follow_sound(g, terms@, nts@, first@, start_symbol@, rows@),
                !changed ==> rows@ == start,
                total0 == total_true(start),
                changed ==> total_true(rows@) > total0,
                !changed ==> forall|q: int, i: int|
                    0 <= q < p && 0 <= i < g[q].body@.len() ==> #[trigger] follow_rule_ok(g, terms@, nts@, first@, rows@, q, i),
            decreases g.len() - p,
        {
            let prod = &prods[p];
            let blen = prod.body.len();
            let mut i: usize = 0;
            while i < blen
                invariant
                    g == prods@,
                    n == nts@.len(),
                    w == terms@.len(),
                    p < g.len(),
                    blen == g[p as int].body@.len(),
                    i <= blen,
                    rows_shape(first@, n as int, w as int),
                    rows_shape(rows@, n as int, w as int),
                    eps_idx matches Some(e) ==> index_of(terms@, epsilon()) == Some(e as int),
                    eps_idx is None ==> index_of(terms@, epsilon()) is None,
                    index_of(nts@, start_symbol@) matches Some(b) ==> 0 <= b < n,
                    index_of(terms@, dollar()) matches Some(a) ==> 0 <= a < w,
                    match (index_of(nts@, start_symbol@), index_of(terms@, dollar())) {
                        (Some(b), Some(a)) => rows@[b]@[a],
                        _ => true,
                    },
                    follow_sound(g, terms@, nts@, first@, start_symbol@, rows@),
                    !changed ==> rows@ == start,
                    total0 == total_true(start),
                    changed ==> total_true(rows@) > total0,
                    !changed ==> forall|q: int, j: int|
                        0 <= q < p && 0 <= j < g[q].body@.len() ==> #[trigger] follow_rule_ok(g, terms@, nts@, first@, rows@, q, j),
                    !changed ==> forall|j: int| 0 <= j < i ==> #[trigger] follow_rule_ok(g, terms@, nts@, first@, rows@, p as int, j),
                decreases blen - i,
            {
                let ghost was = changed;
                let ghost before = rows@;
                apply_follow_rule(prods, terms, nts, first, start_symbol, &mut rows, p, i, eps_idx, &mut changed);
                proof {
                    if !changed {
                        assert(rows@ == before);
                    }
                    match (index_of(nts@, start_symbol@), index_of(terms@, dollar())) {
                        (Some(sb), Some(sa)) => {
                            assert(0 <= sb < nts@.len());
                            assert(0 <= sa < terms@.len());
                            assert(before[sb]@[sa]);
                            assert(rows@[sb]@[sa]);
                        },
                        _ => {},
                    }
                }
                i = i + 1;
            }
            p = p + 1;
        }
        proof {
            lemma_total_bound(rows@, w as nat);
        }
    }
    rows
}

/// Applies the FOLLOW rule of position `i` of production `p`.
fn apply_follow_rule(
    prods: &Vec<Production>,
    terms: &Vec<String>,
    nts: &Vec<String>,
    first: &Vec<Vec<bool>>,
    start_symbol: &String,
    rows: &mut Vec<Vec<bool>>,
    p: usize,
    i: usize,
    eps_idx: Option<usize>,
    changed: &mut bool,
)
    requires
        p < prods@.len(),
        i < prods@[p as int].body@.len(),
        rows_shape(first@, nts@.len() as int, terms@.len() as int),
        rows_shape(old(rows)@, nts@.len() as int, terms@.len() as int),
        eps_idx matches Some(e) ==> index_of(terms@, epsilon()) == Some(e as int),
        eps_idx is None ==> index_of(terms@, epsilon()) is None,
        follow_sound(prods@, terms@, nts@, first@, start_symbol@, old(rows)@),
    ensures
        rows_shape(final(rows)@, nts@.len() as int, terms@.len() as int),
        follow_sound(prods@, terms@, nts@, first@, start_symbol@, final(rows)@),
        forall|b: int, u: int| 0 <= b < nts@.len() && 0 <= u < terms@.len() && #[trigger] old(rows)@[b]@[u] ==> final(rows)@[b]@[u],
        !*final(changed) ==> !*old(changed) && final(rows)@ == old(rows)@ && follow_rule_ok(prods@, terms@, nts@, first@, final(rows)@, p as int, i as int),
        *old(changed) ==> *final(changed),
        *final(changed) && !*old(changed) ==> total_true(final(rows)@) > total_true(old(rows)@),
        total_true(final(rows)@) >= total_true(old(rows)@),
{
    let ghost g = prods@;
    let ghost r0 = rows@;
    let w = terms.len();
    let prod = &prods[p];
    let y = match &prod.body[i] {
        Element::NonTerminal(y) => y,
        Element::Terminal(_) => {
            return;
        },
    };
    let h = match find_index(nts, &prod.head) {
        Some(h) => h,
        None => {
            return;
        },
    };
    let b = match find_index(nts, y) {
        Some(b) => b,
        None => {
            return;
        },
    };
    proof {
        crate::syn::bits::lemma_index_of(terms@, epsilon());
        crate::syn::bits::lemma_index_of(nts@, prod.head@);
        crate::syn::bits::lemma_index_of(nts@, y@);
        assert(nts@[b as int]@ == y@);
    }
    let mut include_head = false;
    if prod.body.len() - i > 1 {
        match &prod.body[i + 1] {
            Element::Terminal(x) => {
                if let Some(t) = find_index(terms, x) {
                    proof {
                        crate::syn::bits::lemma_index_of(terms@, x@);
                    }
                    if !rows[b][t] {
                        proof {
                            assert(follow_deriv(g, terms@, nts@, first@, start_symbol@, b as int, t as int, 0));
                        }
                        set_cell(rows, b, t);
                        *changed = true;
                    }
                }
            },
            Element::NonTerminal(z) => {
                if let Some(c) = find_index(nts, z) {
                    proof {
                        crate::syn::bits::lemma_index_of(nts@, z@);
                    }
                    let fc = copy_row(&first[c]);
                    include_cells(rows, &fc, b, eps_idx, changed);
                    proof {
                        assert forall|bb: int, u: int|
                            0 <= bb < nts@.len() && 0 <= u < terms@.len() && #[trigger] rows@[bb]@[u] implies exists|d: nat|
                                follow_deriv(g, terms@, nts@, first@, start_symbol@, bb, u, d) by {
                            if !r0[bb]@[u] {
                                assert(follow_deriv(g, terms@, nts@, first@, start_symbol@, bb, u, 0));
                            }
                        }
                    }
                    match eps_idx {
                        Some(e) => {
                            if first[c][e] {
                                include_head = true;
                            }
                        },
                        None => {},
                    }
                }
            },
        }
    } else {
        include_head = true;
    }
    if include_head {
        let ghost r1 = rows@;
        let src = copy_row(&rows[h]);
        include_cells(rows, &src, b, None, changed);
        proof {
            assert forall|bb: int, u: int|
                0 <= bb < nts@.len() && 0 <= u < terms@.len() && #[trigger] rows@[bb]@[u] implies exists|d: nat|
                    follow_deriv(g, terms@, nts@, first@, start_symbol@, bb, u, d) by {
                if !r1[bb]@[u] {
                    assert(r1[h as int]@[u]);
                    let d = choose|d: nat| follow_deriv(g, terms@, nts@, first@, start_symbol@, h as int, u, d);
                    assert(follow_deriv(g, terms@, nts@, first@, start_symbol@, bb, u, d + 1));
                }
            }
        }
    }
}

fn epsilon_string() -> (r: String)
    ensures
        r@ == epsilon(),
{
    let mut v: Vec<char> = Vec::new();
    v.push('\u{3b5}');
    assert(v@ =~= epsilon());
    crate::text::string_of(&v)
}

/// Copies every cell of row `src` (that `skip` does not name) into row
/// `dst`; each copied cell is justified by `why`.
pub(crate) fn include_cells(rows: &mut Vec<Vec<bool>>, src: &Vec<bool>, dst: usize, skip: Option<usize>, changed: &mut bool)
    requires
        dst < old(rows)@.len(),
        src@.len() == old(rows)@[dst as int]@.len(),
    ensures
        final(rows)@.len() == old(rows)@.len(),
        forall|b: int| 0 <= b < old(rows)@.len() ==> (#[trigger] final(rows)@[b])@.len() == old(rows)@[b]@.len(),
        forall|b: int, u: int| 0 <= b < old(rows)@.len() && 0 <= u < old(rows)@[b]@.len() ==> (#[trigger] final(rows)@[b]@[u]) == (
            old(rows)@[b]@[u] || (b == dst && src@[u] && Some(u as usize) != skip)),
        !*final(changed) ==> *old(changed) == false && final(rows)@ == old(rows)@,
        *old(changed) ==> *final(changed),
        *final(changed) && !*old(changed) ==> total_true(final(rows)@) > total_true(old(rows)@),
        total_true(final(rows)@) >= total_true(old(rows)@),
{
    let ghost r0 = rows@;
    let w = src.len();
    let mut a: usize = 0;
    while a < w
        invariant
            w == src@.len(),
            dst < rows@.len(),
            rows@.len() == r0.len(),
            a <= w,
            forall|b: int| 0 <= b < r0.len() ==> (#[trigger] rows@[b])@.len() == r0[b]@.len(),
            r0[dst as int]@.len() == w,
            forall|b: int, u: int| 0 <= b < r0.len() && 0 <= u < r0[b]@.len() ==> (#[trigger] rows@[b]@[u]) == (
                r0[b]@[u] || (b == dst && u < a && src@[u] && Some(u as usize) != skip)),
            !*changed ==> *old(changed) == false && rows@ == r0,
            *old(changed) ==> *changed,
            *changed && !*old(changed) ==> total_true(rows@) > total_true(r0),
            total_true(rows@) >= total_true(r0),
        decreases w - a,
    {
        if src[a] && Some(a) != skip && !rows[dst][a] {
            set_cell(rows, dst, a);
            *changed = true;
        }
        proof {
            assert forall|b: int, u: int| 0 <= b < r0.len() && 0 <= u < r0[b]@.len() implies (#[trigger] rows@[b]@[u]) == (
                r0[b]@[u] || (b == dst && u < a + 1 && src@[u] && Some(u as usize) != skip)) by {}
        }
        a = a + 1;
    }
}

} // verus!
