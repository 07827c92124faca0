//! DFA minimisation by Hopcroft's partition refinement.
use vstd::prelude::*;
use vstd::set_lib::{lemma_int_range, lemma_len_subset, set_int_range};
use crate::lex::dfa::{copy_key, Dfa};

verus! {

/// The transition of the DFA completed with a sink state `dfa.n()`: a
/// missing transition and every transition of the sink go to the sink.
pub open spec fn comp(dfa: &Dfa, s: int, k: int) -> int {
    if s < dfa.n() {
        match dfa.target(s, k) {
            Some(t) => t as int,
            None => dfa.n(),
        }
    } else {
        dfa.n()
    }
}

/// Whether state `s` of the completed DFA accepts (the sink does not).
pub open spec fn comp_accept(dfa: &Dfa, s: int) -> bool {
    s < dfa.n() && dfa.accept@[s]
}

/// Every element of `w` is a key column.
pub open spec fn keys_ok(dfa: &Dfa, w: Seq<int>) -> bool {
    forall|i: int| 0 <= i < w.len() ==> 0 <= #[trigger] w[i] < dfa.keys@.len()
}

/// The state of the completed DFA reached from `s` along the key columns `w`.
pub open spec fn crun(dfa: &Dfa, s: int, w: Seq<int>) -> int
    decreases w.len(),
{
    if w.len() == 0 {
        s
    } else {
        crun(dfa, comp(dfa, s, w[0]), w.drop_first())
    }
}

/// Some word of keys is accepted from one of the two states and not from
/// the other.
pub open spec fn distinguishable(dfa: &Dfa, s1: int, s2: int) -> bool {
    exists|w: Seq<int>| keys_ok(dfa, w) && #[trigger] comp_accept(dfa, crun(dfa, s1, w)) != comp_accept(dfa, crun(dfa, s2, w))
}

/// States in different blocks are distinguishable.
pub open spec fn blocks_distinct(dfa: &Dfa, blk: Seq<usize>) -> bool {
    forall|s1: int, s2: int|
        0 <= s1 <= dfa.n() && 0 <= s2 <= dfa.n() && #[trigger] blk[s1] != #[trigger] blk[s2] ==> distinguishable(dfa, s1, s2)
}

proof fn lemma_distinguishable_back(dfa: &Dfa, t1: int, t2: int, c: int)
    requires
        0 <= c < dfa.keys@.len(),
        distinguishable(dfa, comp(dfa, t1, c), comp(dfa, t2, c)),
    ensures
        distinguishable(dfa, t1, t2),
{
    let w = choose|w: Seq<int>| keys_ok(dfa, w) && #[trigger] comp_accept(dfa, crun(dfa, comp(dfa, t1, c), w)) != comp_accept(dfa, crun(dfa, comp(dfa, t2, c), w));
    let w2 = seq![c] + w;
    assert(w2[0] == c);
    assert(w2.drop_first() =~= w);
    assert(keys_ok(dfa, w2)) by {
        assert forall|i: int| 0 <= i < w2.len() implies 0 <= #[trigger] w2[i] < dfa.keys@.len() by {
            if i > 0 {
                assert(w2[i] == w[i - 1]);
            }
        }
    }
    assert(crun(dfa, t1, w2) == crun(dfa, comp(dfa, t1, c), w));
    assert(crun(dfa, t2, w2) == crun(dfa, comp(dfa, t2, c), w));
    assert(comp_accept(dfa, crun(dfa, t1, w2)) != comp_accept(dfa, crun(dfa, t2, w2)));
}

proof fn lemma_distinguishable_sym(dfa: &Dfa, s1: int, s2: int)
    requires
        distinguishable(dfa, s1, s2),
    ensures
        distinguishable(dfa, s2, s1),
{
    let w = choose|w: Seq<int>| keys_ok(dfa, w) && #[trigger] comp_accept(dfa, crun(dfa, s1, w)) != comp_accept(dfa, crun(dfa, s2, w));
    assert(comp_accept(dfa, crun(dfa, s2, w)) != comp_accept(dfa, crun(dfa, s1, w)));
}

/// A partition of the completed DFA's states into blocks `0..rep.len()`:
/// `blk` gives each state's block and `rep` one member of each block.
pub open spec fn partition_ok(m: int, blk: Seq<usize>, rep: Seq<usize>) -> bool {
    &&& blk.len() == m
    &&& forall|s: int| 0 <= s < m ==> #[trigger] blk[s] < rep.len()
    &&& forall|b: int| 0 <= b < rep.len() ==> #[trigger] rep[b] < m && blk[rep[b] as int] == b
}

/// Every block holds only accepting or only non-accepting states.
pub open spec fn respects_accept(dfa: &Dfa, blk: Seq<usize>, rep: Seq<usize>) -> bool {
    forall|s: int|
        0 <= s <= dfa.n() ==> #[trigger] comp_accept(dfa, s) == comp_accept(
            dfa,
            rep[blk[s] as int] as int,
        )
}

/// Every member of a block moves, on every key, into the block that the
/// block's representative moves into.
pub open spec fn stable(dfa: &Dfa, blk: Seq<usize>, rep: Seq<usize>) -> bool {
    forall|s: int, k: int|
        0 <= s <= dfa.n() && 0 <= k < dfa.keys@.len() ==> blk[#[trigger] comp(dfa, s, k)] == blk[comp(
            dfa,
            rep[blk[s] as int] as int,
            k,
        )]
}

proof fn lemma_blocks_bounded(m: int, blk: Seq<usize>, rep: Seq<usize>)
    requires
        m >= 0,
        partition_ok(m, blk, rep),
    ensures
        rep.len() <= m,
{
    let r = rep.map_values(|x: usize| x as int);
    assert forall|a: int, b: int| 0 <= a < r.len() && 0 <= b < r.len() && a != b implies r[a] != r[b] by {
        assert(blk[rep[a] as int] == a);
        assert(blk[rep[b] as int] == b);
    }
    assert(r.no_duplicates());
    r.unique_seq_to_set();
    lemma_int_range(0, m);
    assert(r.to_set().subset_of(set_int_range(0, m)));
    lemma_len_subset(r.to_set(), set_int_range(0, m));
}

/// The completed transition from `s` on column `k`.
fn comp_exec(dfa: &Dfa, s: usize, k: usize) -> (r: usize)
    requires
        dfa.wf(),
        s <= dfa.n(),
        k < dfa.keys@.len(),
    ensures
        r == comp(dfa, s as int, k as int),
        r <= dfa.n(),
{
    let n = dfa.delta.len();
    if s < n {
        match dfa.delta[s][k] {
            Some(t) => t,
            None => n,
        }
    } else {
        n
    }
}

fn comp_accept_exec(dfa: &Dfa, s: usize) -> (r: bool)
    requires
        dfa.wf(),
        s <= dfa.n(),
    ensures
        r == comp_accept(dfa, s as int),
{
    s < dfa.delta.len() && dfa.accept[s]
}

/// Splits block `y` by the state set `x` when both parts are non-empty: the
/// members in `x` move to a new block. Returns the sizes of the two parts
/// when a split happened.
fn split_block(
    dfa: &Dfa,
    blk: &mut Vec<usize>,
    rep: &mut Vec<usize>,
    y: usize,
    x: &Vec<bool>,
) -> (r: Option<(usize, usize)>)
    requires
        dfa.wf(),
        dfa.n() + 1 < usize::MAX,
        partition_ok(dfa.n() + 1, old(blk)@, old(rep)@),
        respects_accept(dfa, old(blk)@, old(rep)@),
        y < old(rep)@.len(),
        x@.len() == dfa.n() + 1,
        blocks_distinct(dfa, old(blk)@),
        forall|i: int, o: int|
            0 <= i <= dfa.n() && 0 <= o <= dfa.n() && old(blk)@[i] == y && old(blk)@[o] == y && #[trigger] x@[i] && !#[trigger] x@[o]
                ==> distinguishable(dfa, i, o),
    ensures
        partition_ok(dfa.n() + 1, final(blk)@, final(rep)@),
        respects_accept(dfa, final(blk)@, final(rep)@),
        blocks_distinct(dfa, final(blk)@),
        r is None ==> final(blk)@ == old(blk)@ && final(rep)@ == old(rep)@,
        (exists|i: int| 0 <= i <= dfa.n() && old(blk)@[i] == y && #[trigger] x@[i]) && (exists|o: int|
            0 <= o <= dfa.n() && old(blk)@[o] == y && !#[trigger] x@[o]) ==> r is Some,
        r is Some ==> final(rep)@.len() == old(rep)@.len() + 1,
        forall|s: int|
            0 <= s <= dfa.n() && old(blk)@[s] != y ==> #[trigger] final(blk)@[s] == old(blk)@[s],
        forall|b: int|
            0 <= b < old(rep)@.len() && b != y ==> #[trigger] final(rep)@[b] == old(rep)@[b],
{
    let m = blk.len();
    let mut in_w: Option<usize> = None;
    let mut out_w: Option<usize> = None;
    let mut n_in: usize = 0;
    let mut n_out: usize = 0;
    let mut s: usize = 0;
    while s < m
        invariant
            m == blk@.len(),
            s <= m,
            n_in <= s && n_out <= s,
            in_w matches Some(w) ==> w < m && blk@[w as int] == y && x@[w as int],
            out_w matches Some(w) ==> w < m && blk@[w as int] == y && !x@[w as int],
            n_in > 0 ==> in_w is Some,
            n_out > 0 ==> out_w is Some,
            x@.len() == m,
            forall|u: int| 0 <= u < s && blk@[u] == y && #[trigger] x@[u] ==> n_in > 0,
            forall|u: int| 0 <= u < s && blk@[u] == y && !#[trigger] x@[u] ==> n_out > 0,
        decreases m - s,
    {
        if blk[s] == y {
            if x[s] {
                in_w = Some(s);
                n_in = n_in + 1;
            } else {
                out_w = Some(s);
                n_out = n_out + 1;
            }
        }
        s = s + 1;
    }
    if n_in == 0 || n_out == 0 {
        return None;
    }
    let iw = in_w.unwrap();
    let ow = out_w.unwrap();
    let nb = rep.len();
    proof {
        lemma_blocks_bounded(m as int, blk@, rep@);
    }
    let ghost b0 = blk@;
    let ghost r0 = rep@;
    let mut t: usize = 0;
    while t < m
        invariant
            m == blk@.len(),
            m == dfa.n() + 1,
            b0.len() == m,
            x@.len() == m,
            t <= m,
            nb == r0.len(),
            forall|u: int|
                0 <= u < m ==> #[trigger] blk@[u] == if u < t && b0[u] == y && x@[u] {
                    nb
                } else {
                    b0[u]
                },
        decreases m - t,
    {
        if blk[t] == y && x[t] {
            blk.set(t, nb);
        }
        t = t + 1;
    }
    rep.set(y, ow);
    rep.push(iw);
    proof {
        assert forall|s1: int, s2: int|
            0 <= s1 <= dfa.n() && 0 <= s2 <= dfa.n() && #[trigger] blk@[s1] != #[trigger] blk@[s2] implies distinguishable(dfa, s1, s2) by {
            if b0[s1] != b0[s2] {
            } else if x@[s1] {
                assert(b0[s1] == y);
            } else {
                assert(b0[s1] == y);
                assert(x@[s2]);
                assert(distinguishable(dfa, s2, s1));
                lemma_distinguishable_sym(dfa, s2, s1);
            }
        }
        assert(respects_accept(dfa, b0, r0));
        assert(comp_accept(dfa, ow as int) == comp_accept(dfa, r0[y as int] as int));
        assert(comp_accept(dfa, iw as int) == comp_accept(dfa, r0[y as int] as int));
        assert forall|s: int|
            0 <= s <= dfa.n() implies #[trigger] comp_accept(dfa, s) == comp_accept(
            dfa,
            rep@[blk@[s] as int] as int,
        ) by {
            assert(comp_accept(dfa, s) == comp_accept(dfa, r0[b0[s] as int] as int));
        }
        assert forall|b: int| 0 <= b < rep@.len() implies #[trigger] rep@[b] < m && blk@[rep@[b] as int] == b by {
            if b < nb && b != y {
                assert(blk@[r0[b] as int] == b0[r0[b] as int]);
            }
        }
    }
    Some((n_in, n_out))
}

/// The result of minimisation: the minimal DFA, and for every state of the
/// completed input (the sink last) its state in the result, `None` for the
/// dropped sink block.
pub struct Minimized {
    pub dfa: Dfa,
    pub class_of: Vec<Option<usize>>,
}

/// Some state has class `u`.
pub open spec fn has_class(class_of: Seq<Option<usize>>, u: int) -> bool {
    exists|s: int| 0 <= s < class_of.len() && #[trigger] class_of[s] == Some(u as usize)
}

/// The block that state `d` of the result stands for.
pub open spec fn block_of(sb: int, drop: bool, d: int) -> int {
    if drop && d >= sb {
        d + 1
    } else {
        d
    }
}

/// The completed state `s` has class `c` in the result: the block of `s`,
/// renumbered after the dropped sink block.
pub open spec fn class_spec(blk: Seq<usize>, sb: int, drop: bool, s: int) -> Option<usize> {
    let b = blk[s] as int;
    if drop && b == sb {
        None
    } else if drop && b > sb {
        Some((b - 1) as usize)
    } else {
        Some(b as usize)
    }
}

fn class_exec(blk: &Vec<usize>, sb: usize, drop: bool, s: usize) -> (r: Option<usize>)
    requires
        s < blk@.len(),
    ensures
        r == class_spec(blk@, sb as int, drop, s as int),
{
    let b = blk[s];
    if drop && b == sb {
        None
    } else if drop && b > sb {
        Some(b - 1)
    } else {
        Some(b)
    }
}

fn initial_partition(dfa: &Dfa) -> (r: (Vec<usize>, Vec<usize>))
    requires
        dfa.wf(),
        dfa.n() + 2 < usize::MAX,
    ensures
        partition_ok(dfa.n() + 1, r.0@, r.1@),
        respects_accept(dfa, r.0@, r.1@),
        blocks_distinct(dfa, r.0@),
        r.1@.len() >= 1,
{
    let n = dfa.delta.len();
    let m = n + 1;
    let mut has_acc = false;
    let mut acc_w: usize = 0;
    let mut s: usize = 0;
    while s < n
        invariant
            dfa.wf(),
            n == dfa.n(),
            s <= n,
            has_acc ==> acc_w < n && dfa.accept@[acc_w as int],
            !has_acc ==> forall|u: int| 0 <= u < s ==> !#[trigger] dfa.accept@[u],
        decreases n - s,
    {
        if dfa.accept[s] {
            has_acc = true;
            acc_w = s;
        }
        s = s + 1;
    }
    let mut blk: Vec<usize> = Vec::new();
    let mut rep: Vec<usize> = Vec::new();
    let mut t: usize = 0;
    while t < m
        invariant
            dfa.wf(),
            n == dfa.n(),
            m == n + 1,
            t <= m,
            blk@.len() == t,
            has_acc ==> acc_w < n && dfa.accept@[acc_w as int],
            !has_acc ==> forall|u: int| 0 <= u < n ==> !#[trigger] dfa.accept@[u],
            forall|u: int| 0 <= u < t ==> #[trigger] blk@[u] == if has_acc && comp_accept(dfa, u) {
                0usize
            } else if has_acc {
                1usize
            } else {
                0usize
            },
        decreases m - t,
    {
        let a = comp_accept_exec(dfa, t);
        if has_acc && a {
            blk.push(0);
        } else if has_acc {
            blk.push(1);
        } else {
            blk.push(0);
        }
        t = t + 1;
    }
    if has_acc {
        rep.push(acc_w);
        rep.push(n);
    } else {
        rep.push(n);
    }
    proof {
        assert forall|s1: int, s2: int|
            0 <= s1 <= dfa.n() && 0 <= s2 <= dfa.n() && #[trigger] blk@[s1] != #[trigger] blk@[s2] implies distinguishable(dfa, s1, s2) by {
            let w = Seq::<int>::empty();
            assert(keys_ok(dfa, w));
            assert(crun(dfa, s1, w) == s1);
            assert(crun(dfa, s2, w) == s2);
            assert(comp_accept(dfa, crun(dfa, s1, w)) != comp_accept(dfa, crun(dfa, s2, w)));
        }
    }
    (blk, rep)
}

/// Hopcroft's worklist refinement, seeded with the first block.
fn hopcroft_refine(dfa: &Dfa, blk: &mut Vec<usize>, rep: &mut Vec<usize>)
    requires
        dfa.wf(),
        dfa.n() + 2 < usize::MAX,
        partition_ok(dfa.n() + 1, old(blk)@, old(rep)@),
        respects_accept(dfa, old(blk)@, old(rep)@),
        blocks_distinct(dfa, old(blk)@),
        old(rep)@.len() >= 1,
    ensures
        partition_ok(dfa.n() + 1, final(blk)@, final(rep)@),
        respects_accept(dfa, final(blk)@, final(rep)@),
        blocks_distinct(dfa, final(blk)@),
{
    let n = dfa.delta.len();
    let m = n + 1;
    let nk = dfa.keys.len();
    let mut work: Vec<usize> = Vec::new();
    work.push(0);
    proof {
        lemma_blocks_bounded(m as int, blk@, rep@);
    }
    while work.len() > 0
        invariant
            dfa.wf(),
            n == dfa.n(),
            m == n + 1,
            nk == dfa.keys@.len(),
            dfa.n() + 2 < usize::MAX,
            partition_ok(m as int, blk@, rep@),
            respects_accept(dfa, blk@, rep@),
            blocks_distinct(dfa, blk@),
            rep@.len() <= m,
        decreases m - rep@.len(), work@.len(),
    {
        let ghost nb0 = rep@.len();
        let a = work.pop().unwrap();
        let ghost wl0 = work@.len();
        let mut a_set: Vec<bool> = Vec::new();
        let mut u: usize = 0;
        while u < m
            invariant
                m == blk@.len(),
                u <= m,
                a_set@.len() == u,
                forall|v: int| 0 <= v < u ==> #[trigger] a_set@[v] == (blk@[v] == a),
            decreases m - u,
        {
            a_set.push(blk[u] == a);
            u = u + 1;
        }
        proof {
            assert forall|t1: int, t2: int| 0 <= t1 < m && 0 <= t2 < m && #[trigger] a_set@[t1] && !#[trigger] a_set@[t2] implies distinguishable(dfa, t1, t2) by {
                assert(blk@[t1] != blk@[t2]);
            }
        }
        let mut c: usize = 0;
        while c < nk
            invariant
                dfa.wf(),
                n == dfa.n(),
                m == n + 1,
                nk == dfa.keys@.len(),
                dfa.n() + 2 < usize::MAX,
                partition_ok(m as int, blk@, rep@),
                respects_accept(dfa, blk@, rep@),
                blocks_distinct(dfa, blk@),
                a_set@.len() == m,
                forall|t1: int, t2: int| 0 <= t1 < m && 0 <= t2 < m && #[trigger] a_set@[t1] && !#[trigger] a_set@[t2] ==> distinguishable(dfa, t1, t2),
                c <= nk,
                rep@.len() >= nb0,
                rep@.len() == nb0 ==> work@.len() == wl0,
            decreases nk - c,
        {
            let mut x: Vec<bool> = Vec::new();
            let mut v: usize = 0;
            while v < m
                invariant
                    dfa.wf(),
                    n == dfa.n(),
                    m == n + 1,
                    c < nk,
                    nk == dfa.keys@.len(),
                    a_set@.len() == m,
                    v <= m,
                    x@.len() == v,
                    forall|u: int| 0 <= u < v ==> #[trigger] x@[u] == a_set@[comp(dfa, u, c as int)],
                decreases m - v,
            {
                let tgt = comp_exec(dfa, v, c);
                x.push(a_set[tgt]);
                v = v + 1;
            }
            let nb = rep.len();
            let mut y: usize = 0;
            while y < nb
                invariant
                    dfa.wf(),
                    n == dfa.n(),
                    m == n + 1,
                    dfa.n() + 2 < usize::MAX,
                    partition_ok(m as int, blk@, rep@),
                    respects_accept(dfa, blk@, rep@),
                    blocks_distinct(dfa, blk@),
                    x@.len() == m,
                    c < nk,
                    nk == dfa.keys@.len(),
                    a_set@.len() == m,
                    forall|t1: int, t2: int| 0 <= t1 < m && 0 <= t2 < m && #[trigger] a_set@[t1] && !#[trigger] a_set@[t2] ==> distinguishable(dfa, t1, t2),
                    forall|u: int| 0 <= u < m ==> #[trigger] x@[u] == a_set@[comp(dfa, u, c as int)],
                    y <= nb,
                    nb <= rep@.len(),
                    rep@.len() >= nb0,
                    rep@.len() == nb0 ==> work@.len() == wl0,
                decreases nb - y,
            {
                proof {
                    assert forall|i: int, o: int|
                        0 <= i <= dfa.n() && 0 <= o <= dfa.n() && blk@[i] == y && blk@[o] == y && #[trigger] x@[i] && !#[trigger] x@[o]
                            implies distinguishable(dfa, i, o) by {
                        assert(a_set@[comp(dfa, i, c as int)]);
                        assert(!a_set@[comp(dfa, o, c as int)]);
                        lemma_distinguishable_back(dfa, i, o, c as int);
                    }
                }
                let split = split_block(dfa, blk, rep, y, &x);
                if let Some((n_in, n_out)) = split {
                    let fresh = rep.len() - 1;
                    let mut listed = false;
                    let mut q: usize = 0;
                    while q < work.len()
                        invariant
                            q <= work@.len(),
                        decreases work.len() - q,
                    {
                        if work[q] == y {
                            listed = true;
                        }
                        q = q + 1;
                    }
                    if listed {
                        work.push(fresh);
                    } else if n_in <= n_out {
                        work.push(fresh);
                    } else {
                        work.push(y);
                    }
                }
                y = y + 1;
            }
            c = c + 1;
        }
        proof {
            lemma_blocks_bounded(m as int, blk@, rep@);
        }
    }
}

/// A state and a key on which the state leaves its block's common move, if any.
fn find_unstable(dfa: &Dfa, blk: &Vec<usize>, rep: &Vec<usize>) -> (r: Option<(usize, usize)>)
    requires
        dfa.wf(),
        dfa.n() + 2 < usize::MAX,
        partition_ok(dfa.n() + 1, blk@, rep@),
    ensures
        r matches Some((bs, bc)) ==> bs <= dfa.n() && bc < dfa.keys@.len() && blk@[comp(dfa, bs as int, bc as int)]
            != blk@[comp(dfa, rep@[blk@[bs as int] as int] as int, bc as int)],
        r is None ==> stable(dfa, blk@, rep@),
{
    let n = dfa.delta.len();
    let m = n + 1;
    let nk = dfa.keys.len();
    let mut s: usize = 0;
    while s < m
        invariant
            dfa.wf(),
            n == dfa.n(),
            m == n + 1,
            nk == dfa.keys@.len(),
            partition_ok(m as int, blk@, rep@),
            s <= m,
            forall|s2: int, k: int| 0 <= s2 < s && 0 <= k < nk ==> blk@[#[trigger] comp(dfa, s2, k)] == blk@[comp(dfa, rep@[blk@[s2] as int] as int, k)],
        decreases m - s,
    {
        let mut c: usize = 0;
        while c < nk
            invariant
                dfa.wf(),
                n == dfa.n(),
                m == n + 1,
                nk == dfa.keys@.len(),
                partition_ok(m as int, blk@, rep@),
                s < m,
                c <= nk,
                forall|s2: int, k: int| 0 <= s2 < s && 0 <= k < nk ==> blk@[#[trigger] comp(dfa, s2, k)] == blk@[comp(dfa, rep@[blk@[s2] as int] as int, k)],
                forall|k: int| 0 <= k < c ==> blk@[#[trigger] comp(dfa, s as int, k)] == blk@[comp(dfa, rep@[blk@[s as int] as int] as int, k)],
            decreases nk - c,
        {
            let r = rep[blk[s]];
            let t1 = comp_exec(dfa, s, c);
            let t2 = comp_exec(dfa, r, c);
            if blk[t1] != blk[t2] {
                return Some((s, c));
            }
            c = c + 1;
        }
        s = s + 1;
    }
    None
}

/// Splits blocks until every block is closed under every transition.
fn stabilise(dfa: &Dfa, blk: &mut Vec<usize>, rep: &mut Vec<usize>)
    requires
        dfa.wf(),
        dfa.n() + 2 < usize::MAX,
        partition_ok(dfa.n() + 1, old(blk)@, old(rep)@),
        respects_accept(dfa, old(blk)@, old(rep)@),
        blocks_distinct(dfa, old(blk)@),
    ensures
        partition_ok(dfa.n() + 1, final(blk)@, final(rep)@),
        respects_accept(dfa, final(blk)@, final(rep)@),
        blocks_distinct(dfa, final(blk)@),
        stable(dfa, final(blk)@, final(rep)@),
{
    let n = dfa.delta.len();
    let m = n + 1;
    let nk = dfa.keys.len();
    proof {
        lemma_blocks_bounded(m as int, blk@, rep@);
    }
    let mut bad = find_unstable(dfa, blk, rep);
    while bad.is_some()
        invariant
            dfa.wf(),
            n == dfa.n(),
            m == n + 1,
            nk == dfa.keys@.len(),
            dfa.n() + 2 < usize::MAX,
            partition_ok(m as int, blk@, rep@),
            respects_accept(dfa, blk@, rep@),
            blocks_distinct(dfa, blk@),
            rep@.len() <= m,
            bad matches Some((bs, bc)) ==> bs < m && bc < nk && blk@[comp(dfa, bs as int, bc as int)]
                != blk@[comp(dfa, rep@[blk@[bs as int] as int] as int, bc as int)],
            bad is None ==> stable(dfa, blk@, rep@),
        decreases m - rep@.len(),
    {
        let (bs, bc) = bad.unwrap();
        let y = blk[bs];
        let r = rep[y];
        let goal = blk[comp_exec(dfa, r, bc)];
        let mut x: Vec<bool> = Vec::new();
        let mut v: usize = 0;
        while v < m
            invariant
                dfa.wf(),
                n == dfa.n(),
                m == n + 1,
                bc < nk,
                nk == dfa.keys@.len(),
                partition_ok(m as int, blk@, rep@),
                v <= m,
                x@.len() == v,
                forall|u: int| 0 <= u < v ==> #[trigger] x@[u] == (blk@[comp(dfa, u, bc as int)] == goal),
            decreases m - v,
        {
            let tgt = comp_exec(dfa, v, bc);
            x.push(blk[tgt] == goal);
            v = v + 1;
        }
        assert(x@[r as int]);
        assert(!x@[bs as int]);
        proof {
            assert forall|i: int, o: int|
                0 <= i <= dfa.n() && 0 <= o <= dfa.n() && blk@[i] == y && blk@[o] == y && #[trigger] x@[i] && !#[trigger] x@[o]
                    implies distinguishable(dfa, i, o) by {
                assert(blk@[comp(dfa, i, bc as int)] != blk@[comp(dfa, o, bc as int)]);
                lemma_distinguishable_back(dfa, i, o, bc as int);
            }
        }
        let split = split_block(dfa, blk, rep, y, &x);
        proof {
            lemma_blocks_bounded(m as int, blk@, rep@);
        }
        bad = find_unstable(dfa, blk, rep);
    }
}

/// `m` is a minimisation of `dfa`: the properties that [`minimize_dfa`]
/// guarantees of its result.
pub open spec fn minimized_of(dfa: &Dfa, m: Minimized) -> bool {
    &&& m.dfa.wf()
    &&& m.dfa.keys@.len() == dfa.keys@.len()
    &&& forall|k: int| 0 <= k < dfa.keys@.len() ==> #[trigger] m.dfa.keys@[k]@ == dfa.keys@[k]@
    &&& m.class_of@.len() == dfa.n() + 1
    &&& m.dfa.n() <= dfa.n() + 1
    &&& forall|s: int| 0 <= s <= dfa.n() ==> (#[trigger] m.class_of@[s] matches Some(u) ==> u < m.dfa.n())
    &&& forall|u: int| 0 <= u < m.dfa.n() ==> #[trigger] has_class(m.class_of@, u)
    &&& m.class_of@[dfa.start as int] == Some(m.dfa.start)
    &&& forall|s: int|
            0 <= s <= dfa.n() ==> (#[trigger] m.class_of@[s] matches Some(u) ==> m.dfa.accept@[u as int] == comp_accept(dfa, s))
    &&& forall|s: int, k: int|
            0 <= s <= dfa.n() && 0 <= k < dfa.keys@.len() ==> (m.class_of@[s] matches Some(u) ==>
                m.dfa.target(u as int, k) == m.class_of@[#[trigger] comp(dfa, s, k)])
    &&& forall|s1: int, s2: int|
            0 <= s1 <= dfa.n() && 0 <= s2 <= dfa.n() && (#[trigger] m.class_of@[s1]) is Some && (#[trigger] m.class_of@[s2]) is Some
                && m.class_of@[s1] != m.class_of@[s2] ==> distinguishable(dfa, s1, s2)
    &&& forall|s: int| 0 <= s <= dfa.n() && (#[trigger] m.class_of@[s]) is None ==> !comp_accept(dfa, s)
    &&& forall|s: int, k: int| 0 <= s <= dfa.n() && 0 <= k < dfa.keys@.len() && m.class_of@[s] is None ==> (#[trigger] m.class_of@[comp(dfa, s, k)]) is None
    &&& m.class_of@[dfa.n()] is Some ==> m.class_of@[dfa.start as int] == m.class_of@[dfa.n()]
    &&& forall|s: int| 0 <= s <= dfa.n() && (#[trigger] m.class_of@[s]) is Some && m.class_of@[s] != m.class_of@[dfa.n()] ==> reaches_accept(dfa, s)
}

/// Hopcroft's refinement: the DFA is completed with a sink, the states are
/// split into accepting and non-accepting, and a worklist of splitter blocks
/// refines the partition until every block is closed under every
/// transition. Each block becomes one state; the block of the sink is
/// dropped unless it holds the start state. The result is the quotient of
/// the input by a partition that separates accepting from non-accepting
/// states and is closed under every transition.
pub fn minimize_dfa(dfa: &Dfa) -> (r: Minimized)
    requires
        dfa.wf(),
        dfa.n() + 2 < usize::MAX,
    ensures
        minimized_of(dfa, r),
{
    let (mut blk, mut rep) = initial_partition(dfa);
    hopcroft_refine(dfa, &mut blk, &mut rep);
    stabilise(dfa, &mut blk, &mut rep);
    let r = quotient(dfa, &blk, &rep);
    proof {
        lemma_quotient_classes(dfa, blk@, rep@, r.class_of@, blk@[dfa.n()] as int, blk@[dfa.start as int] != blk@[dfa.n()]);
    }
    r
}

/// Some word of keys leads from `s` to an accepting state.
pub open spec fn reaches_accept(dfa: &Dfa, s: int) -> bool {
    exists|w: Seq<int>| keys_ok(dfa, w) && #[trigger] comp_accept(dfa, crun(dfa, s, w))
}

proof fn lemma_crun_sink(dfa: &Dfa, w: Seq<int>)
    ensures
        crun(dfa, dfa.n(), w) == dfa.n(),
    decreases w.len(),
{
    if w.len() > 0 {
        lemma_crun_sink(dfa, w.drop_first());
    }
}

proof fn lemma_quotient_classes(dfa: &Dfa, blk: Seq<usize>, rep: Seq<usize>, class_of: Seq<Option<usize>>, sb: int, drop: bool)
    requires
        dfa.wf(),
        partition_ok(dfa.n() + 1, blk, rep),
        respects_accept(dfa, blk, rep),
        blocks_distinct(dfa, blk),
        stable(dfa, blk, rep),
        blocks_distinct(dfa, blk),
        sb == blk[dfa.n()],
        drop == (blk[dfa.start as int] != sb),
        class_of.len() == dfa.n() + 1,
        forall|u: int| 0 <= u <= dfa.n() ==> #[trigger] class_of[u] == class_spec(blk, sb, drop, u),
    ensures
        forall|s1: int, s2: int|
            0 <= s1 <= dfa.n() && 0 <= s2 <= dfa.n() && (#[trigger] class_of[s1]) is Some && (#[trigger] class_of[s2]) is Some
                && class_of[s1] != class_of[s2] ==> distinguishable(dfa, s1, s2),
        forall|s: int| 0 <= s <= dfa.n() && (#[trigger] class_of[s]) is None ==> !comp_accept(dfa, s),
        forall|s: int, k: int| 0 <= s <= dfa.n() && 0 <= k < dfa.keys@.len() && class_of[s] is None ==> (#[trigger] class_of[comp(dfa, s, k)]) is None,
        class_of[dfa.n()] is Some ==> class_of[dfa.start as int] == class_of[dfa.n()],
        forall|s: int| 0 <= s <= dfa.n() && (#[trigger] class_of[s]) is Some && class_of[s] != class_of[dfa.n()] ==> reaches_accept(dfa, s),
{
    let n = dfa.n();
    assert forall|s: int| 0 <= s <= n && (#[trigger] class_of[s]) is Some && class_of[s] != class_of[n] implies reaches_accept(dfa, s) by {
        assert(blk[s] != blk[n]);
        let w = choose|w: Seq<int>| keys_ok(dfa, w) && #[trigger] comp_accept(dfa, crun(dfa, s, w)) != comp_accept(dfa, crun(dfa, n, w));
        lemma_crun_sink(dfa, w);
        assert(comp_accept(dfa, crun(dfa, s, w)));
    }
    assert forall|s1: int, s2: int|
        0 <= s1 <= n && 0 <= s2 <= n && (#[trigger] class_of[s1]) is Some && (#[trigger] class_of[s2]) is Some
            && class_of[s1] != class_of[s2] implies distinguishable(dfa, s1, s2) by {
        assert(blk[s1] != blk[s2]);
    }
    assert forall|s: int| 0 <= s <= n && (#[trigger] class_of[s]) is None implies !comp_accept(dfa, s) by {
        assert(blk[s] == sb);
        assert(comp_accept(dfa, s) == comp_accept(dfa, rep[blk[s] as int] as int));
        assert(comp_accept(dfa, n) == comp_accept(dfa, rep[blk[n] as int] as int));
    }
    assert forall|s: int, k: int| 0 <= s <= n && 0 <= k < dfa.keys@.len() && class_of[s] is None implies (#[trigger] class_of[comp(dfa, s, k)]) is None by {
        assert(blk[s] == sb);
        assert(comp(dfa, n, k) == n);
        assert(blk[comp(dfa, n, k)] == blk[comp(dfa, rep[blk[n] as int] as int, k)]);
        assert(blk[comp(dfa, s, k)] == blk[comp(dfa, rep[blk[s] as int] as int, k)]);
        assert(0 <= comp(dfa, s, k) <= n);
    }
}

/// The quotient of the completed DFA by a stable partition.
fn quotient(dfa: &Dfa, blk: &Vec<usize>, rep: &Vec<usize>) -> (r: Minimized)
    requires
        dfa.wf(),
        dfa.n() + 2 < usize::MAX,
        partition_ok(dfa.n() + 1, blk@, rep@),
        respects_accept(dfa, blk@, rep@),
        stable(dfa, blk@, rep@),
    ensures
        r.dfa.wf(),
        r.dfa.keys@.len() == dfa.keys@.len(),
        forall|k: int| 0 <= k < dfa.keys@.len() ==> #[trigger] r.dfa.keys@[k]@ == dfa.keys@[k]@,
        r.class_of@.len() == dfa.n() + 1,
        r.dfa.n() <= dfa.n() + 1,
        forall|s: int| 0 <= s <= dfa.n() ==> (#[trigger] r.class_of@[s] matches Some(u) ==> u < r.dfa.n()),
        forall|u: int| 0 <= u < r.dfa.n() ==> #[trigger] has_class(r.class_of@, u),
        r.class_of@[dfa.start as int] == Some(r.dfa.start),
        forall|s: int|
            0 <= s <= dfa.n() ==> (#[trigger] r.class_of@[s] matches Some(u) ==> r.dfa.accept@[u as int] == comp_accept(dfa, s)),
        forall|s: int, k: int|
            0 <= s <= dfa.n() && 0 <= k < dfa.keys@.len() ==> (r.class_of@[s] matches Some(u) ==>
                r.dfa.target(u as int, k) == r.class_of@[#[trigger] comp(dfa, s, k)]),
        forall|u: int| 0 <= u <= dfa.n() ==> #[trigger] r.class_of@[u] == class_spec(blk@, blk@[dfa.n()] as int, blk@[dfa.start as int] != blk@[dfa.n()], u),
{
    let n = dfa.delta.len();
    let m = n + 1;
    let nk = dfa.keys.len();
    proof {
        lemma_blocks_bounded(m as int, blk@, rep@);
    }
    // Build the quotient.
    let nb = rep.len();
    let sb = blk[n];
    let drop = blk[dfa.start] != sb;
    let mut keys: Vec<crate::lex::dfa::TransKey> = Vec::new();
    let mut k: usize = 0;
    while k < nk
        invariant
            nk == dfa.keys@.len(),
            k <= nk,
            keys@.len() == k,
            forall|j: int| 0 <= j < k ==> #[trigger] keys@[j]@ == dfa.keys@[j]@,
        decreases nk - k,
    {
        keys.push(copy_key(&dfa.keys[k]));
        k = k + 1;
    }
    let mut class_of: Vec<Option<usize>> = Vec::new();
    let mut s: usize = 0;
    while s < m
        invariant
            m == blk@.len(),
            s <= m,
            class_of@.len() == s,
            forall|u: int| 0 <= u < s ==> #[trigger] class_of@[u] == class_spec(blk@, sb as int, drop, u),
        decreases m - s,
    {
        class_of.push(class_exec(&blk, sb, drop, s));
        s = s + 1;
    }
    let mut delta: Vec<Vec<Option<usize>>> = Vec::new();
    let mut accept: Vec<bool> = Vec::new();
    let mut b: usize = 0;
    while b < nb
        invariant
            dfa.wf(),
            n == dfa.n(),
            m == n + 1,
            nk == dfa.keys@.len(),
            nb == rep@.len(),
            partition_ok(m as int, blk@, rep@),
            sb == blk@[n as int],
            b <= nb,
            delta@.len() == accept@.len(),
            delta@.len() == if drop && b > sb { b - 1 } else { b as int },
            forall|d: int| 0 <= d < delta@.len() ==> (#[trigger] delta@[d])@.len() == nk,
            forall|d: int, j: int| 0 <= d < delta@.len() && 0 <= j < nk ==> #[trigger] delta@[d]@[j] == class_spec(blk@, sb as int, drop, comp(dfa, rep@[block_of(sb as int, drop, d)] as int, j)),
            forall|d: int| 0 <= d < accept@.len() ==> #[trigger] accept@[d] == comp_accept(dfa, rep@[block_of(sb as int, drop, d)] as int),
        decreases nb - b,
    {
        if !(drop && b == sb) {
            let r = rep[b];
            let mut row: Vec<Option<usize>> = Vec::new();
            let mut c: usize = 0;
            while c < nk
                invariant
                    dfa.wf(),
                    n == dfa.n(),
                    m == n + 1,
                    nk == dfa.keys@.len(),
                    r < m,
                    m == blk@.len(),
                    c <= nk,
                    row@.len() == c,
                    forall|j: int| 0 <= j < c ==> #[trigger] row@[j] == class_spec(blk@, sb as int, drop, comp(dfa, r as int, j)),
                decreases nk - c,
            {
                let tgt = comp_exec(dfa, r, c);
                row.push(class_exec(&blk, sb, drop, tgt));
                c = c + 1;
            }
            delta.push(row);
            accept.push(comp_accept_exec(dfa, r));
        }
        b = b + 1;
    }
    let start = class_exec(&blk, sb, drop, dfa.start).unwrap();
    let out = Dfa { keys, delta, accept, start };
    let r = Minimized { dfa: out, class_of };
    proof {
        let nr = r.dfa.n();
        assert(nr == if drop { nb - 1 } else { nb as int });
        assert forall|d: int, j: int|
            0 <= d < nr && 0 <= j < nk implies (#[trigger] r.dfa.delta@[d]@[j] matches Some(t) ==> t < nr) by {
            assert(r.dfa.delta@[d] == delta@[d]);
            let bb = block_of(sb as int, drop, d);
            assert(rep@[bb] < m);
            let tt = comp(dfa, rep@[bb] as int, j);
            assert(blk@[tt] < nb);
        }
        assert forall|u: int| 0 <= u < nr implies #[trigger] has_class(r.class_of@, u) by {
            let bb = block_of(sb as int, drop, u);
            let w = rep@[bb] as int;
            assert(blk@[w] == bb);
            assert(r.class_of@[w] == Some(u as usize));
        }
        assert forall|s: int, k: int|
            0 <= s <= dfa.n() && 0 <= k < dfa.keys@.len() && r.class_of@[s] is Some implies
                r.dfa.target(r.class_of@[s]->0 as int, k) == r.class_of@[#[trigger] comp(dfa, s, k)] by {
            let u = r.class_of@[s]->0;
            let bb = block_of(sb as int, drop, u as int);
            assert(bb == blk@[s]);
            assert(r.dfa.delta@[u as int] == delta@[u as int]);
            assert(blk@[comp(dfa, s, k)] == blk@[comp(dfa, rep@[blk@[s] as int] as int, k)]);
        }
        assert forall|s: int|
            0 <= s <= dfa.n() && #[trigger] r.class_of@[s] is Some implies r.dfa.accept@[r.class_of@[s]->0 as int] == comp_accept(dfa, s) by {
            let u = r.class_of@[s]->0;
            let bb = block_of(sb as int, drop, u as int);
            assert(bb == blk@[s]);
        }
    }
    r
}

/// The state of the minimised DFA reached from `x` along the key columns
/// `w`; `None` once a transition is missing.
pub open spec fn rrun(r: &Dfa, x: Option<usize>, w: Seq<int>) -> Option<usize>
    decreases w.len(),
{
    if w.len() == 0 {
        x
    } else {
        match x {
            Some(u) => rrun(r, r.target(u as int, w[0]), w.drop_first()),
            None => None,
        }
    }
}

/// Whether `x` is an accepting state of `r`.
pub open spec fn racc(r: &Dfa, x: Option<usize>) -> bool {
    x matches Some(u) && u < r.n() && r.accept@[u as int]
}

proof fn lemma_crun_range(dfa: &Dfa, s: int, w: Seq<int>)
    requires
        dfa.wf(),
        0 <= s <= dfa.n(),
        keys_ok(dfa, w),
    ensures
        0 <= crun(dfa, s, w) <= dfa.n(),
    decreases w.len(),
{
    if w.len() > 0 {
        assert(0 <= w[0] < dfa.keys@.len());
        if s < dfa.n() {
            assert(dfa.delta@[s]@[w[0]] matches Some(t) ==> t < dfa.delta@.len());
        }
        assert(keys_ok(dfa, w.drop_first())) by {
            assert forall|i: int| 0 <= i < w.drop_first().len() implies 0 <= #[trigger] w.drop_first()[i] < dfa.keys@.len() by {
                assert(w.drop_first()[i] == w[i + 1]);
            }
        }
        lemma_crun_range(dfa, comp(dfa, s, w[0]), w.drop_first());
    }
}

proof fn lemma_dead_closed(dfa: &Dfa, m: Minimized, s: int, w: Seq<int>)
    requires
        dfa.wf(),
        minimized_of(dfa, m),
        0 <= s <= dfa.n(),
        m.class_of@[s] is None,
        keys_ok(dfa, w),
    ensures
        m.class_of@[crun(dfa, s, w)] is None,
    decreases w.len(),
{
    if w.len() > 0 {
        assert(0 <= w[0] < dfa.keys@.len());
        lemma_crun_range(dfa, s, seq![w[0]]);
        assert(seq![w[0]].drop_first() =~= Seq::<int>::empty());
        assert(m.class_of@[comp(dfa, s, w[0])] is None);
        assert(keys_ok(dfa, w.drop_first())) by {
            assert forall|i: int| 0 <= i < w.drop_first().len() implies 0 <= #[trigger] w.drop_first()[i] < dfa.keys@.len() by {
                assert(w.drop_first()[i] == w[i + 1]);
            }
        }
        lemma_dead_closed(dfa, m, comp(dfa, s, w[0]), w.drop_first());
    }
}

proof fn lemma_rrun_class(dfa: &Dfa, m: Minimized, s: int, w: Seq<int>)
    requires
        dfa.wf(),
        minimized_of(dfa, m),
        0 <= s <= dfa.n(),
        m.class_of@[s] is Some,
        keys_ok(dfa, w),
    ensures
        rrun(&m.dfa, m.class_of@[s], w) == m.class_of@[crun(dfa, s, w)],
    decreases w.len(),
{
    if w.len() > 0 {
        let k = w[0];
        assert(0 <= k < dfa.keys@.len());
        lemma_crun_range(dfa, s, seq![k]);
        assert(seq![k].drop_first() =~= Seq::<int>::empty());
        let s2 = comp(dfa, s, k);
        assert(m.dfa.target(m.class_of@[s]->0 as int, k) == m.class_of@[s2]);
        let rest = w.drop_first();
        assert(keys_ok(dfa, rest)) by {
            assert forall|i: int| 0 <= i < rest.len() implies 0 <= #[trigger] rest[i] < dfa.keys@.len() by {
                assert(rest[i] == w[i + 1]);
            }
        }
        if m.class_of@[s2] is Some {
            lemma_rrun_class(dfa, m, s2, rest);
        } else {
            lemma_dead_closed(dfa, m, s2, rest);
            assert(rrun(&m.dfa, None, rest) == None::<usize>) by {
                if rest.len() > 0 {
                }
            }
        }
    }
}

proof fn lemma_racc_class(dfa: &Dfa, m: Minimized, t: int)
    requires
        dfa.wf(),
        minimized_of(dfa, m),
        0 <= t <= dfa.n(),
    ensures
        racc(&m.dfa, m.class_of@[t]) == comp_accept(dfa, t),
{
}

/// No two states of the minimised DFA are equivalent: for any two distinct
/// states, some word of keys is accepted from one and not from the other.
pub proof fn lemma_minimised_states_distinguishable(dfa: &Dfa, m: Minimized, u: usize, v: usize)
    requires
        dfa.wf(),
        minimized_of(dfa, m),
        u < m.dfa.n(),
        v < m.dfa.n(),
        u != v,
    ensures
        exists|w: Seq<int>| keys_ok(dfa, w) && #[trigger] racc(&m.dfa, rrun(&m.dfa, Some(u), w)) != racc(&m.dfa, rrun(&m.dfa, Some(v), w)),
{
    assert(has_class(m.class_of@, u as int));
    assert(has_class(m.class_of@, v as int));
    let s1 = choose|s: int| 0 <= s < m.class_of@.len() && #[trigger] m.class_of@[s] == Some(u);
    let s2 = choose|s: int| 0 <= s < m.class_of@.len() && #[trigger] m.class_of@[s] == Some(v);
    assert(distinguishable(dfa, s1, s2));
    let w = choose|w: Seq<int>| keys_ok(dfa, w) && #[trigger] comp_accept(dfa, crun(dfa, s1, w)) != comp_accept(dfa, crun(dfa, s2, w));
    lemma_rrun_class(dfa, m, s1, w);
    lemma_rrun_class(dfa, m, s2, w);
    lemma_crun_range(dfa, s1, w);
    lemma_crun_range(dfa, s2, w);
    lemma_racc_class(dfa, m, crun(dfa, s1, w));
    lemma_racc_class(dfa, m, crun(dfa, s2, w));
    assert(racc(&m.dfa, rrun(&m.dfa, Some(u), w)) != racc(&m.dfa, rrun(&m.dfa, Some(v), w)));
}

} // verus!
