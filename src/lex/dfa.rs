//! Deterministic finite automata over characters, character ranges and
//! named references.
use vstd::prelude::*;

verus! {

/// A transition key: one character, an inclusive character range, or the
/// name of a reference (a rule id in the lexer's automaton).
#[derive(Debug, Clone, PartialEq)]
pub enum TransKey {
    Char(char),
    Range(char, char),
    Name(String),
}

/// The mathematical value of a [`TransKey`].
pub enum KeyModel {
    Char(char),
    Range(char, char),
    Name(Seq<char>),
}

impl View for TransKey {
    type V = KeyModel;

    open spec fn view(&self) -> KeyModel {
        match self {
            TransKey::Char(c) => KeyModel::Char(*c),
            TransKey::Range(a, b) => KeyModel::Range(*a, *b),
            TransKey::Name(n) => KeyModel::Name(n@),
        }
    }
}

/// A copy of a key with the same model.
pub fn copy_key(k: &TransKey) -> (r: TransKey)
    ensures
        r@ == k@,
{
    match k {
        TransKey::Char(c) => TransKey::Char(*c),
        TransKey::Range(a, b) => TransKey::Range(*a, *b),
        TransKey::Name(n) => TransKey::Name(n.clone()),
    }
}

/// Whether two keys are equal.
pub fn key_eq(a: &TransKey, b: &TransKey) -> (r: bool)
    ensures
        r == (a@ == b@),
{
    match (a, b) {
        (TransKey::Char(x), TransKey::Char(y)) => *x == *y,
        (TransKey::Range(x1, x2), TransKey::Range(y1, y2)) => *x1 == *y1 && *x2 == *y2,
        (TransKey::Name(x), TransKey::Name(y)) => *x == *y,
        _ => false,
    }
}

/// Whether the key consumes the character `c`: a character key equal to
/// it, or a range that contains it.
pub open spec fn key_accepts(k: KeyModel, c: char) -> bool {
    match k {
        KeyModel::Char(x) => x == c,
        KeyModel::Range(a, b) => (a as u32) <= (c as u32) && (c as u32) <= (b as u32),
        KeyModel::Name(_) => false,
    }
}

/// Whether the key consumes the character `c`.
pub fn key_matches(k: &TransKey, c: char) -> (r: bool)
    ensures
        r == key_accepts(k@, c),
{
    match k {
        TransKey::Char(x) => *x == c,
        TransKey::Range(a, b) => (*a as u32) <= (c as u32) && (c as u32) <= (*b as u32),
        TransKey::Name(_) => false,
    }
}

/// A DFA: an alphabet of keys, one row of optional targets per state (one
/// column per key), the accepting states, and the start state.
#[derive(Debug, Clone)]
pub struct Dfa {
    pub keys: Vec<TransKey>,
    pub delta: Vec<Vec<Option<usize>>>,
    pub accept: Vec<bool>,
    pub start: usize,
}

impl Dfa {
    /// Number of states.
    pub open spec fn n(&self) -> int {
        self.delta@.len() as int
    }

    /// The dimensions agree, every target is a state, and the start is a state.
    pub open spec fn wf(&self) -> bool {
        &&& self.accept@.len() == self.delta@.len()
        &&& self.start < self.delta@.len()
        &&& forall|s: int|
            0 <= s < self.delta@.len() ==> (#[trigger] self.delta@[s])@.len() == self.keys@.len()
        &&& forall|s: int, k: int|
            0 <= s < self.delta@.len() && 0 <= k < self.keys@.len() ==> (
            #[trigger] self.delta@[s]@[k] matches Some(t) ==> t < self.delta@.len())
    }

    /// The target of state `s` on key column `k`.
    pub open spec fn target(&self, s: int, k: int) -> Option<usize> {
        self.delta@[s]@[k]
    }

    /// The first key column at or after `k` that consumes `c` from state `s`
    /// and has a target.
    pub open spec fn first_col_from(&self, s: int, c: char, k: int) -> Option<int>
        decreases self.keys@.len() - k,
    {
        if k < 0 || k >= self.keys@.len() {
            None
        } else if key_accepts(self.keys@[k]@, c) && self.target(s, k) is Some {
            Some(k)
        } else {
            self.first_col_from(s, c, k + 1)
        }
    }

    /// One move on the character `c` from state `s`: the target of the
    /// first key that consumes `c` and has a transition.
    pub open spec fn step(&self, s: int, c: char) -> Option<int> {
        match self.first_col_from(s, c, 0) {
            Some(k) => match self.target(s, k) {
                Some(t) => Some(t as int),
                None => None,
            },
            None => None,
        }
    }

    /// The states that some state of `st` moves to on `c`, through every
    /// key that consumes `c`.
    pub open spec fn step_set(&self, st: Set<int>, c: char) -> Set<int> {
        Set::new(|t: int| exists|s: int, k: int| 0 <= s < self.n() && 0 <= k < self.keys@.len() && #[trigger] st.contains(s)
            && key_accepts(self.keys@[k]@, c) && (#[trigger] self.target(s, k)) is Some && self.target(s, k)->0 as int == t)
    }

    /// The states reached from the start after reading `w`, following every
    /// key that consumes each character.
    pub open spec fn run_set(&self, w: Seq<char>) -> Set<int>
        decreases w.len(),
    {
        if w.len() == 0 {
            set![self.start as int]
        } else {
            self.step_set(self.run_set(w.drop_last()), w.last())
        }
    }

    /// The set move of the states in `row` on `c`.
    pub fn step_row(&self, row: &Vec<bool>, c: char) -> (r: Vec<bool>)
        requires
            self.wf(),
            row@.len() == self.n(),
        ensures
            r@.len() == self.n(),
            crate::lex::direct_afd::row_set(r@) == self.step_set(crate::lex::direct_afd::row_set(row@), c),
    {
        let ghost st = crate::lex::direct_afd::row_set(row@);
        let n = self.delta.len();
        let nk = self.keys.len();
        let mut next: Vec<bool> = Vec::new();
        let mut i: usize = 0;
        while i < n
            invariant
                i <= n,
                next@.len() == i,
                forall|j: int| 0 <= j < i ==> !#[trigger] next@[j],
            decreases n - i,
        {
            next.push(false);
            i = i + 1;
        }
        let mut s: usize = 0;
        while s < n
            invariant
                self.wf(),
                n == self.n(),
                nk == self.keys@.len(),
                row@.len() == n,
                st == crate::lex::direct_afd::row_set(row@),
                s <= n,
                next@.len() == n,
                forall|t: int| 0 <= t < n ==> (#[trigger] next@[t] <==> exists|s2: int, k: int| 0 <= s2 < s && 0 <= k < nk && #[trigger] st.contains(s2)
                    && key_accepts(self.keys@[k]@, c) && (#[trigger] self.target(s2, k)) is Some && self.target(s2, k)->0 as int == t),
            decreases n - s,
        {
            if row[s] {
                let mut k: usize = 0;
                while k < nk
                    invariant
                        self.wf(),
                        n == self.n(),
                        nk == self.keys@.len(),
                        row@.len() == n,
                        st == crate::lex::direct_afd::row_set(row@),
                        s < n,
                        row@[s as int],
                        k <= nk,
                        next@.len() == n,
                        forall|t: int| 0 <= t < n ==> (#[trigger] next@[t] <==> exists|s2: int, kk: int| 0 <= kk < nk && #[trigger] st.contains(s2)
                            && (0 <= s2 < s || (s2 == s && kk < k))
                            && key_accepts(self.keys@[kk]@, c) && (#[trigger] self.target(s2, kk)) is Some && self.target(s2, kk)->0 as int == t),
                    decreases nk - k,
                {
                    let ghost before = next@;
                    proof {
                        assert(st.contains(s as int));
                    }
                    if key_matches(&self.keys[k], c) {
                        if let Some(t) = self.delta[s][k] {
                            proof {
                                assert(self.delta@[s as int]@[k as int] matches Some(tt) ==> tt < self.delta@.len());
                            }
                            next.set(t, true);
                        }
                    }
                    proof {
                        assert forall|t: int| 0 <= t < n implies (#[trigger] next@[t] <==> exists|s2: int, kk: int| 0 <= kk < nk && #[trigger] st.contains(s2)
                            && (0 <= s2 < s || (s2 == s && kk < k + 1))
                            && key_accepts(self.keys@[kk]@, c) && (#[trigger] self.target(s2, kk)) is Some && self.target(s2, kk)->0 as int == t) by {
                            if key_accepts(self.keys@[k as int]@, c) && self.target(s as int, k as int) is Some && self.target(s as int, k as int)->0 as int == t {
                                assert(next@[t]);
                            } else {
                                assert(next@[t] == before[t]);
                            }
                        }
                    }
                    k = k + 1;
                }
            } else {
                proof {
                    assert(!st.contains(s as int));
                }
            }
            s = s + 1;
        }
        proof {
            assert forall|t: int| #[trigger] crate::lex::direct_afd::row_set(next@).contains(t) <==> self.step_set(st, c).contains(t) by {
                if self.step_set(st, c).contains(t) {
                    let (s2, k) = choose|s2: int, k: int| 0 <= s2 < self.n() && 0 <= k < self.keys@.len() && #[trigger] st.contains(s2)
                        && key_accepts(self.keys@[k]@, c) && (#[trigger] self.target(s2, k)) is Some && self.target(s2, k)->0 as int == t;
                    assert(self.delta@[s2]@[k] matches Some(tt) ==> tt < self.delta@.len());
                    assert(t < n);
                }
            }
            assert(crate::lex::direct_afd::row_set(next@) =~= self.step_set(st, c));
        }
        next
    }

    /// Whether the DFA is well formed.
    pub fn is_wf(&self) -> (r: bool)
        ensures
            r == self.wf(),
    {
        let n = self.delta.len();
        if self.accept.len() != n || self.start >= n {
            return false;
        }
        let mut s: usize = 0;
        while s < n
            invariant
                n == self.delta@.len(),
                s <= n,
                forall|i: int| 0 <= i < s ==> (#[trigger] self.delta@[i])@.len() == self.keys@.len(),
                forall|i: int, k: int|
                    0 <= i < s && 0 <= k < self.keys@.len() ==> (#[trigger] self.delta@[i]@[k] matches Some(t) ==> t < n),
            decreases n - s,
        {
            if self.delta[s].len() != self.keys.len() {
                return false;
            }
            let mut k: usize = 0;
            while k < self.keys.len()
                invariant
                    n == self.delta@.len(),
                    s < n,
                    self.delta@[s as int]@.len() == self.keys@.len(),
                    k <= self.keys@.len(),
                    forall|j: int| 0 <= j < k ==> (#[trigger] self.delta@[s as int]@[j] matches Some(t) ==> t < n),
                decreases self.keys.len() - k,
            {
                if let Some(t) = self.delta[s][k] {
                    if t >= n {
                        return false;
                    }
                }
                k = k + 1;
            }
            s = s + 1;
        }
        true
    }

    /// One move on `c` from state `s`.
    pub fn step_exec(&self, s: usize, c: char) -> (r: Option<usize>)
        requires
            self.wf(),
            s < self.n(),
        ensures
            r matches Some(t) ==> t < self.n() && self.step(s as int, c) == Some(t as int),
            r is None ==> self.step(s as int, c) is None,
    {
        let row = &self.delta[s];
        let mut k: usize = 0;
        while k < self.keys.len()
            invariant
                self.wf(),
                s < self.n(),
                row@ == self.delta@[s as int]@,
                k <= self.keys@.len(),
                self.first_col_from(s as int, c, 0) == self.first_col_from(s as int, c, k as int),
            decreases self.keys.len() - k,
        {
            if key_matches(&self.keys[k], c) {
                if let Some(t) = row[k] {
                    return Some(t);
                }
            }
            k = k + 1;
        }
        None
    }
}

} // verus!
