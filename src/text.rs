use vstd::prelude::*;

verus! {

/// The characters that `char::is_whitespace` accepts: Unicode's White_Space.
pub open spec fn is_space(c: char) -> bool {
    ||| '\u{9}' <= c <= '\u{d}'
    ||| c == ' '
    ||| c == '\u{85}'
    ||| c == '\u{a0}'
    ||| c == '\u{1680}'
    ||| '\u{2000}' <= c <= '\u{200a}'
    ||| c == '\u{2028}'
    ||| c == '\u{2029}'
    ||| c == '\u{202f}'
    ||| c == '\u{205f}'
    ||| c == '\u{3000}'
}

pub fn is_space_char(c: char) -> (r: bool)
    ensures
        r == is_space(c),
{
    ('\u{9}' <= c && c <= '\u{d}') || c == ' ' || c == '\u{85}' || c == '\u{a0}' || c == '\u{1680}'
        || ('\u{2000}' <= c && c <= '\u{200a}') || c == '\u{2028}' || c == '\u{2029}' || c
        == '\u{202f}' || c == '\u{205f}' || c == '\u{3000}'
}

/// The first index from `i` on that holds no whitespace (or the length).
pub open spec fn skip_space(s: Seq<char>, i: int) -> int
    decreases s.len() - i,
{
    if 0 <= i < s.len() && is_space(s[i]) {
        skip_space(s, i + 1)
    } else {
        i
    }
}

/// The first index from `i` on that holds whitespace (or the length).
pub open spec fn token_end(s: Seq<char>, i: int) -> int
    decreases s.len() - i,
{
    if 0 <= i < s.len() && !is_space(s[i]) {
        token_end(s, i + 1)
    } else {
        i
    }
}

/// The end of `s[..j]` without its trailing whitespace.
pub open spec fn back_space(s: Seq<char>, j: int) -> int
    decreases j,
{
    if 0 < j <= s.len() && is_space(s[j - 1]) {
        back_space(s, j - 1)
    } else {
        j
    }
}

/// `s` without leading and trailing whitespace.
pub open spec fn trim(s: Seq<char>) -> Seq<char> {
    let a = skip_space(s, 0);
    if a >= s.len() {
        Seq::empty()
    } else {
        s.subrange(a, back_space(s, s.len() as int))
    }
}

/// A character with ASCII upper case letters taken to lower case.
pub open spec fn fold_ascii(c: char) -> u32 {
    if 'A' <= c <= 'Z' {
        (c as u32 + 32) as u32
    } else {
        c as u32
    }
}

/// Equal but for the case of ASCII letters.
pub open spec fn same_ignoring_case(a: Seq<char>, b: Seq<char>) -> bool {
    a.len() == b.len() && forall|i: int| 0 <= i < a.len() ==> fold_ascii(a[i]) == fold_ascii(b[i])
}

pub fn chars_of(s: &str) -> (r: Vec<char>)
    ensures
        r@ == s@,
{
    let mut r: Vec<char> = Vec::new();
    for c in it: s.chars()
        invariant
            it.seq() == s@,
            r@ == s@.take(it.index() as int),
    {
        proof {
            assert(s@.take(it.index() + 1) =~= s@.take(it.index() as int).push(c));
        }
        r.push(c);
    }
    proof {
        assert(s@.take(s@.len() as int) =~= s@);
    }
    r
}

pub fn skip_space_from(s: &Vec<char>, i: usize) -> (r: usize)
    requires
        i <= s@.len(),
    ensures
        r == skip_space(s@, i as int),
        i <= r <= s@.len(),
        r < s@.len() ==> !is_space(s@[r as int]),
{
    let mut j = i;
    while j < s.len() && is_space_char(s[j])
        invariant
            i <= j <= s@.len(),
            skip_space(s@, i as int) == skip_space(s@, j as int),
        decreases s@.len() - j,
    {
        j += 1;
    }
    j
}

pub fn token_end_from(s: &Vec<char>, i: usize) -> (r: usize)
    requires
        i <= s@.len(),
    ensures
        r == token_end(s@, i as int),
        i <= r <= s@.len(),
        r < s@.len() ==> is_space(s@[r as int]),
{
    let mut j = i;
    while j < s.len() && !is_space_char(s[j])
        invariant
            i <= j <= s@.len(),
            token_end(s@, i as int) == token_end(s@, j as int),
        decreases s@.len() - j,
    {
        j += 1;
    }
    j
}

proof fn lemma_back_space(s: Seq<char>, j: int, a: int)
    requires
        0 <= a < j <= s.len(),
        !is_space(s[a]),
    ensures
        a < back_space(s, j) <= j,
    decreases j,
{
    if is_space(s[j - 1]) {
        lemma_back_space(s, j - 1, a);
    }
}

/// The trimmed text, as the indices where it starts and ends.
pub fn trim_bounds(s: &Vec<char>) -> (r: (usize, usize))
    ensures
        r.0 <= r.1 <= s@.len(),
        s@.subrange(r.0 as int, r.1 as int) == trim(s@),
{
    let a = skip_space_from(s, 0);
    if a >= s.len() {
        proof {
            assert(s@.subrange(a as int, a as int) =~= Seq::<char>::empty());
        }
        return (a, a);
    }
    let mut j = s.len();
    while j > 0 && is_space_char(s[j - 1])
        invariant
            j <= s@.len(),
            back_space(s@, s@.len() as int) == back_space(s@, j as int),
        decreases j,
    {
        j -= 1;
    }
    proof {
        lemma_back_space(s@, s@.len() as int, a as int);
    }
    (a, j)
}

/// Whether the chars `s[from..to]` equal `word` but for the case of ASCII letters.
pub fn range_same_ignoring_case(s: &Vec<char>, from: usize, to: usize, word: &str) -> (r: bool)
    requires
        from <= to <= s@.len(),
    ensures
        r == same_ignoring_case(s@.subrange(from as int, to as int), word@),
{
    let w = chars_of(word);
    if to - from != w.len() {
        return false;
    }
    let mut k: usize = 0;
    while k < w.len()
        invariant
            to - from == w@.len(),
            w@ == word@,
            from <= to <= s@.len(),
            k <= w@.len(),
            forall|i: int| 0 <= i < k ==> fold_ascii(s@[from + i]) == fold_ascii(w@[i]),
        decreases w@.len() - k,
    {
        let a = s[from + k];
        let b = w[k];
        let fa: u32 = if 'A' <= a && a <= 'Z' { a as u32 + 32 } else { a as u32 };
        let fb: u32 = if 'A' <= b && b <= 'Z' { b as u32 + 32 } else { b as u32 };
        if fa != fb {
            proof {
                let sub = s@.subrange(from as int, to as int);
                assert(sub[k as int] == s@[from + k]);
            }
            return false;
        }
        k += 1;
    }
    proof {
        let sub = s@.subrange(from as int, to as int);
        assert forall|i: int| 0 <= i < sub.len() implies fold_ascii(sub[i]) == fold_ascii(word@[i]) by {
            assert(sub[i] == s@[from + i]);
        }
    }
    true
}

} // verus!
