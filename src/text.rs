//! Conversions between strings and character vectors.
use vstd::prelude::*;
use vstd::string::StrSliceExecFns;

verus! {

/// The characters of `s`, in order.
pub fn chars_of(s: &str) -> (v: Vec<char>)
    ensures
        v@ == s@,
{
    let n = s.unicode_len();
    let mut v: Vec<char> = Vec::new();
    let mut i: usize = 0;
    while i < n
        invariant
            n == s@.len(),
            i <= n,
            v@ == s@.subrange(0, i as int),
        decreases n - i,
    {
        let c = s.get_char(i);
        v.push(c);
        i = i + 1;
        assert(v@ =~= s@.subrange(0, i as int));
    }
    assert(v@ =~= s@);
    v
}

/// Relies on `String`'s `FromIterator<char>`: the string holds exactly the
/// collected characters, in order.
#[verifier::external_body]
pub fn string_of(v: &Vec<char>) -> (r: String)
    ensures
        r@ == v@,
{
    v.iter().collect()
}

/// The Unicode White_Space property, which `char::is_whitespace` tests.
pub open spec fn white(c: char) -> bool {
    let u = c as u32;
    (0x9 <= u && u <= 0xD) || u == 0x20 || u == 0x85 || u == 0xA0 || u == 0x1680 || (0x2000 <= u && u <= 0x200A)
        || u == 0x2028 || u == 0x2029 || u == 0x202F || u == 0x205F || u == 0x3000
}

/// Whether `c` has the Unicode White_Space property.
pub fn is_white(c: char) -> (r: bool)
    ensures
        r == white(c),
{
    let u = c as u32;
    (0x9 <= u && u <= 0xD) || u == 0x20 || u == 0x85 || u == 0xA0 || u == 0x1680 || (0x2000 <= u && u <= 0x200A)
        || u == 0x2028 || u == 0x2029 || u == 0x202F || u == 0x205F || u == 0x3000
}

/// The lines completed and the line in progress after the first `i`
/// characters of `s`.
pub open spec fn lines_state(s: Seq<char>, i: int) -> (Seq<Seq<char>>, Seq<char>)
    decreases i,
{
    if i <= 0 {
        (Seq::empty(), Seq::empty())
    } else {
        let (d, c) = lines_state(s, i - 1);
        if s[i - 1] == '\n' {
            (d.push(c), Seq::empty())
        } else {
            (d, c.push(s[i - 1]))
        }
    }
}

/// The lines of `s`: the pieces between newline characters.
pub open spec fn lines_spec(s: Seq<char>) -> Seq<Seq<char>> {
    let (d, c) = lines_state(s, s.len() as int);
    d.push(c)
}

/// The lines of `s`: the pieces between newline characters.
pub fn split_lines(s: &Vec<char>) -> (r: Vec<Vec<char>>)
    ensures
        vecs_view(r@) == lines_spec(s@),
{
    let mut r: Vec<Vec<char>> = Vec::new();
    let mut cur: Vec<char> = Vec::new();
    let mut i: usize = 0;
    proof {
        assert(vecs_view(r@) =~= Seq::<Seq<char>>::empty());
        assert(cur@ =~= Seq::<char>::empty());
    }
    while i < s.len()
        invariant
            i <= s@.len(),
            (vecs_view(r@), cur@) == lines_state(s@, i as int),
        decreases s.len() - i,
    {
        let ghost r0 = r@;
        if s[i] == '\n' {
            let ghost c0 = cur@;
            r.push(cur);
            cur = Vec::new();
            proof {
                assert(vecs_view(r@) =~= vecs_view(r0).push(c0));
                assert(cur@ =~= Seq::<char>::empty());
            }
        } else {
            cur.push(s[i]);
        }
        i = i + 1;
    }
    let ghost r0 = r@;
    let ghost c0 = cur@;
    r.push(cur);
    proof {
        assert(vecs_view(r@) =~= vecs_view(r0).push(c0));
    }
    r
}

/// The first index at or after `a` that does not hold whitespace.
pub open spec fn lead(s: Seq<char>, a: int) -> int
    decreases s.len() - a,
{
    if a < 0 || a >= s.len() || !white(s[a]) {
        if a < 0 { 0 } else if a > s.len() { s.len() as int } else { a }
    } else {
        lead(s, a + 1)
    }
}

/// The end of `s` up to `b` with trailing whitespace removed, not before `lo`.
pub open spec fn trail(s: Seq<char>, lo: int, b: int) -> int
    decreases b,
{
    if b <= lo || b <= 0 || b > s.len() || !white(s[b - 1]) {
        b
    } else {
        trail(s, lo, b - 1)
    }
}

/// `s` without leading and trailing whitespace.
pub open spec fn trim_spec(s: Seq<char>) -> Seq<char> {
    let a = lead(s, 0);
    s.subrange(a, trail(s, a, s.len() as int))
}

/// `s` without leading and trailing whitespace.
pub fn trim(s: &Vec<char>) -> (r: Vec<char>)
    ensures
        r@ == trim_spec(s@),
{
    let mut a: usize = 0;
    while a < s.len() && is_white(s[a])
        invariant
            a <= s@.len(),
            lead(s@, a as int) == lead(s@, 0),
        decreases s.len() - a,
    {
        a = a + 1;
    }
    let mut b: usize = s.len();
    while b > a && is_white(s[b - 1])
        invariant
            a <= b <= s@.len(),
            a == lead(s@, 0),
            trail(s@, a as int, b as int) == trail(s@, a as int, s@.len() as int),
        decreases b,
    {
        b = b - 1;
    }
    let mut r: Vec<char> = Vec::new();
    let mut i: usize = a;
    while i < b
        invariant
            a <= i <= b,
            b <= s@.len(),
            r@ == s@.subrange(a as int, i as int),
        decreases b - i,
    {
        r.push(s[i]);
        i = i + 1;
        assert(r@ =~= s@.subrange(a as int, i as int));
    }
    r
}

/// Whether `s` begins with `p`.
pub fn starts_with(s: &Vec<char>, p: &Vec<char>) -> (r: bool)
    ensures
        r == (p@.len() <= s@.len() && s@.subrange(0, p@.len() as int) == p@),
{
    if p.len() > s.len() {
        return false;
    }
    let mut i: usize = 0;
    while i < p.len()
        invariant
            p@.len() <= s@.len(),
            i <= p@.len(),
            forall|j: int| 0 <= j < i ==> s@[j] == p@[j],
        decreases p.len() - i,
    {
        if s[i] != p[i] {
            assert(s@.subrange(0, p@.len() as int)[i as int] != p@[i as int]);
            return false;
        }
        i = i + 1;
    }
    assert(s@.subrange(0, p@.len() as int) =~= p@);
    true
}

/// The words completed and the word in progress after the first `i`
/// characters of `s`.
pub open spec fn words_state(s: Seq<char>, i: int) -> (Seq<Seq<char>>, Seq<char>)
    decreases i,
{
    if i <= 0 {
        (Seq::empty(), Seq::empty())
    } else {
        let (d, c) = words_state(s, i - 1);
        if white(s[i - 1]) {
            if c.len() > 0 {
                (d.push(c), Seq::empty())
            } else {
                (d, c)
            }
        } else {
            (d, c.push(s[i - 1]))
        }
    }
}

/// The maximal runs of non-whitespace characters of `s`, in order.
pub open spec fn words_spec(s: Seq<char>) -> Seq<Seq<char>> {
    let (d, c) = words_state(s, s.len() as int);
    if c.len() > 0 {
        d.push(c)
    } else {
        d
    }
}

/// The models of a list of character vectors.
pub open spec fn vecs_view(v: Seq<Vec<char>>) -> Seq<Seq<char>> {
    Seq::new(v.len(), |k: int| v[k]@)
}

/// The whitespace-separated words of `s`, in order.
pub fn words(s: &Vec<char>) -> (r: Vec<Vec<char>>)
    ensures
        vecs_view(r@) == words_spec(s@),
        forall|i: int| 0 <= i < r@.len() ==> (#[trigger] r@[i])@.len() > 0 && forall|j: int| 0 <= j < r@[i]@.len() ==> !white(r@[i]@[j]),
{
    let mut r: Vec<Vec<char>> = Vec::new();
    let mut cur: Vec<char> = Vec::new();
    let mut i: usize = 0;
    proof {
        assert(vecs_view(r@) =~= Seq::<Seq<char>>::empty());
        assert(cur@ =~= Seq::<char>::empty());
    }
    while i < s.len()
        invariant
            i <= s@.len(),
            (vecs_view(r@), cur@) == words_state(s@, i as int),
            forall|j: int| 0 <= j < cur@.len() ==> !white(cur@[j]),
            forall|a: int| 0 <= a < r@.len() ==> (#[trigger] r@[a])@.len() > 0 && forall|j: int| 0 <= j < r@[a]@.len() ==> !white(r@[a]@[j]),
        decreases s.len() - i,
    {
        let ghost r0 = r@;
        if is_white(s[i]) {
            if cur.len() > 0 {
                let ghost c0 = cur@;
                r.push(cur);
                cur = Vec::new();
                proof {
                    assert(vecs_view(r@) =~= vecs_view(r0).push(c0));
                    assert(cur@ =~= Seq::<char>::empty());
                }
            }
        } else {
            cur.push(s[i]);
        }
        i = i + 1;
    }
    if cur.len() > 0 {
        let ghost r0 = r@;
        let ghost c0 = cur@;
        r.push(cur);
        proof {
            assert(vecs_view(r@) =~= vecs_view(r0).push(c0));
        }
    }
    r
}

/// The digit for `d`, below ten.
fn digit_char(d: usize) -> char {
    if d == 0 {
        '0'
    } else if d == 1 {
        '1'
    } else if d == 2 {
        '2'
    } else if d == 3 {
        '3'
    } else if d == 4 {
        '4'
    } else if d == 5 {
        '5'
    } else if d == 6 {
        '6'
    } else if d == 7 {
        '7'
    } else if d == 8 {
        '8'
    } else {
        '9'
    }
}

/// The decimal digits of `n`.
pub fn decimal(n: usize) -> (r: Vec<char>)
    ensures
        r@.len() > 0,
{
    let mut digits: Vec<char> = Vec::new();
    digits.push(digit_char(n % 10));
    let mut m = n / 10;
    while m > 0
        invariant
            digits@.len() > 0,
        decreases m,
    {
        digits.push(digit_char(m % 10));
        m = m / 10;
    }
    let mut r: Vec<char> = Vec::new();
    let mut i: usize = digits.len();
    while i > 0
        invariant
            i <= digits@.len(),
            r@.len() == digits@.len() - i,
        decreases i,
    {
        i = i - 1;
        r.push(digits[i]);
    }
    r
}

/// Appends the characters of `s` to `out`.
pub fn push_all(out: &mut Vec<char>, s: &Vec<char>)
    ensures
        final(out)@ == old(out)@ + s@,
{
    let mut i: usize = 0;
    while i < s.len()
        invariant
            i <= s@.len(),
            out@ == old(out)@ + s@.subrange(0, i as int),
        decreases s.len() - i,
    {
        out.push(s[i]);
        i = i + 1;
        assert(out@ =~= old(out)@ + s@.subrange(0, i as int));
    }
    assert(s@.subrange(0, i as int) =~= s@);
}

/// Appends the characters of `s` to `out`.
pub fn push_str(out: &mut Vec<char>, s: &str)
    ensures
        final(out)@ == old(out)@ + s@,
{
    let cs = chars_of(s);
    push_all(out, &cs);
}

} // verus!
