//! Listings of automaton states for display.
use vstd::prelude::*;
use crate::lex::dfa::Dfa;

verus! {

/// `r` lists `t`.
pub open spec fn listed(r: Seq<usize>, t: int) -> bool {
    exists|k: int| 0 <= k < r.len() && #[trigger] r[k] == t
}

/// The states of the DFA that have a row or are the target of a
/// transition, each once, in order of first appearance.
pub fn get_all_states(dfa: &Dfa) -> (r: Vec<usize>)
    requires
        dfa.wf(),
    ensures
        forall|a: int, b: int| 0 <= a < b < r@.len() ==> #[trigger] r@[a] != #[trigger] r@[b],
        forall|s: int| 0 <= s < dfa.n() ==> #[trigger] listed(r@, s),
        forall|k: int| 0 <= k < r@.len() ==> #[trigger] r@[k] < dfa.n(),
{
    let n = dfa.delta.len();
    let mut r: Vec<usize> = Vec::new();
    let mut seen: Vec<bool> = Vec::new();
    let mut i: usize = 0;
    while i < n
        invariant
            i <= n,
            seen@.len() == i,
            forall|j: int| 0 <= j < i ==> !#[trigger] seen@[j],
        decreases n - i,
    {
        seen.push(false);
        i = i + 1;
    }
    let mut s: usize = 0;
    while s < n
        invariant
            dfa.wf(),
            n == dfa.n(),
            s <= n,
            seen@.len() == n,
            forall|a: int, b: int| 0 <= a < b < r@.len() ==> #[trigger] r@[a] != #[trigger] r@[b],
            forall|k: int| 0 <= k < r@.len() ==> #[trigger] r@[k] < n && seen@[r@[k] as int],
            forall|t: int| 0 <= t < n && #[trigger] seen@[t] ==> listed(r@, t),
            forall|t: int| 0 <= t < s ==> #[trigger] seen@[t],
        decreases n - s,
    {
        let mut c: usize = 0;
        let row_len = dfa.delta[s].len();
        // The state itself, then its targets.
        if !seen[s] {
            let ghost before = r@;
            seen.set(s, true);
            r.push(s);
            proof {
                assert forall|a: int, b: int| 0 <= a < b < r@.len() implies #[trigger] r@[a] != #[trigger] r@[b] by {
                    if b == r@.len() - 1 {
                        assert(r@[a] == before[a]);
                    }
                }
                assert forall|t: int| 0 <= t < n && #[trigger] seen@[t] implies listed(r@, t) by {
                    if t != s {
                        let k = choose|k: int| 0 <= k < before.len() && #[trigger] before[k] == t;
                        assert(r@[k] == before[k]);
                        assert(listed(r@, t));
                    } else {
                        assert(r@[r@.len() - 1] == t);
                        assert(listed(r@, t));
                    }
                }
            }
        }
        while c < row_len
            invariant
                dfa.wf(),
                n == dfa.n(),
                s < n,
                row_len == dfa.delta@[s as int]@.len(),
                c <= row_len,
                seen@.len() == n,
                forall|a: int, b: int| 0 <= a < b < r@.len() ==> #[trigger] r@[a] != #[trigger] r@[b],
                forall|k: int| 0 <= k < r@.len() ==> #[trigger] r@[k] < n && seen@[r@[k] as int],
                forall|t: int| 0 <= t < n && #[trigger] seen@[t] ==> listed(r@, t),
                forall|t: int| 0 <= t <= s ==> #[trigger] seen@[t],
            decreases row_len - c,
        {
            if let Some(t) = dfa.delta[s][c] {
                proof {
                    assert(dfa.delta@[s as int]@[c as int] matches Some(tt) ==> tt < n);
                }
                if !seen[t] {
                    let ghost before = r@;
                    seen.set(t, true);
                    r.push(t);
                    proof {
                        assert forall|a: int, b: int| 0 <= a < b < r@.len() implies #[trigger] r@[a] != #[trigger] r@[b] by {
                            if b == r@.len() - 1 {
                                assert(r@[a] == before[a]);
                            }
                        }
                        assert forall|u: int| 0 <= u < n && #[trigger] seen@[u] implies listed(r@, u) by {
                            if u != t {
                                let k = choose|k: int| 0 <= k < before.len() && #[trigger] before[k] == u;
                                assert(r@[k] == before[k]);
                                assert(listed(r@, u));
                            } else {
                                assert(r@[r@.len() - 1] == u);
                                assert(listed(r@, u));
                            }
                        }
                    }
                }
            }
            c = c + 1;
        }
        s = s + 1;
    }
    proof {
        assert forall|t: int| 0 <= t < n implies listed(r@, t) by {
            assert(seen@[t]);
        }
    }
    r
}

} // verus!
