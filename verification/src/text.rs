use vstd::prelude::*;

verus! {

/// The characters of a text.
pub(crate) fn chars_of(s: &str) -> (v: Vec<char>)
    ensures
        v@ == s@,
{
    let mut v: Vec<char> = Vec::new();
    for c in it: s.chars()
        invariant
            it.seq() == s@,
            v@ == s@.take(it.index() as int),
    {
        v.push(c);
        assert(s@.take(it.index() + 1) =~= s@.take(it.index() as int).push(c));
    }
    assert(v@ =~= s@);
    v
}

/// The index of the first line feed at or after `i`, or the length of the text.
pub open spec fn newline_from(s: Seq<char>, i: int) -> int
    decreases s.len() - i,
{
    if i < 0 || i >= s.len() {
        s.len() as int
    } else if s[i] == '\n' {
        i
    } else {
        newline_from(s, i + 1)
    }
}

pub proof fn lemma_newline_from(s: Seq<char>, i: int)
    requires
        0 <= i <= s.len(),
    ensures
        i <= newline_from(s, i) <= s.len(),
        forall|k: int| i <= k < newline_from(s, i) ==> s[k] != '\n',
        newline_from(s, i) < s.len() ==> s[newline_from(s, i)] == '\n',
    decreases s.len() - i,
{
    if i < s.len() && s[i] != '\n' {
        lemma_newline_from(s, i + 1);
    }
}

/// The start of the line after the line of `s` starting at `i`, or the length of the text.
pub open spec fn next_line(s: Seq<char>, i: int) -> int {
    if newline_from(s, i) < s.len() {
        newline_from(s, i) + 1
    } else {
        s.len() as int
    }
}

/// The end of the line of `s` starting at `i`, as `str::lines` cuts it: before its line
/// feed, and before a carriage return just ahead of that line feed.
pub open spec fn line_end(s: Seq<char>, i: int) -> int {
    let j = newline_from(s, i);
    if j < s.len() && j > i && s[j - 1] == '\r' {
        j - 1
    } else {
        j
    }
}

/// The characters with Unicode's White_Space property, on which `str::split_whitespace`
/// splits.
pub open spec fn is_white(c: char) -> bool {
    let v = c as u32;
    ||| 9 <= v <= 13
    ||| v == 32
    ||| v == 0x85
    ||| v == 0xA0
    ||| v == 0x1680
    ||| 0x2000 <= v <= 0x200A
    ||| v == 0x2028
    ||| v == 0x2029
    ||| v == 0x202F
    ||| v == 0x205F
    ||| v == 0x3000
}

/// The first index from `i` on (below `e`) whose character is not white space, or `e`.
pub open spec fn skip_white(s: Seq<char>, i: int, e: int) -> int
    decreases e - i,
{
    if i < e && is_white(s[i]) {
        skip_white(s, i + 1, e)
    } else {
        i
    }
}

/// The first index from `i` on (below `e`) whose character is white space, or `e`.
pub open spec fn word_end(s: Seq<char>, i: int, e: int) -> int
    decreases e - i,
{
    if i < e && !is_white(s[i]) {
        word_end(s, i + 1, e)
    } else {
        i
    }
}

/// The bounds of the second whitespace-separated word of `s[a..e]`, where there is one.
pub open spec fn second_word(s: Seq<char>, a: int, e: int) -> Option<(int, int)> {
    let w2 = skip_white(s, word_end(s, skip_white(s, a, e), e), e);
    if w2 < e {
        Some((w2, word_end(s, w2, e)))
    } else {
        None
    }
}

/// `p` occurs in `h`.
pub open spec fn has_part(h: Seq<char>, p: Seq<char>) -> bool {
    exists|k: int| 0 <= k && k + p.len() <= h.len() && #[trigger] h.subrange(k, k + p.len()) == p
}

/// The end of the line starting at `i` and the start of the next line.
pub(crate) fn line_bounds(t: &Vec<char>, i: usize) -> (r: (usize, usize))
    requires
        i < t.len(),
    ensures
        r.0 == line_end(t@, i as int),
        r.1 == next_line(t@, i as int),
        i <= r.0 <= t.len(),
{
    proof {
        lemma_newline_from(t@, i as int);
    }
    let mut j: usize = i;
    while j < t.len() && t[j] != '\n'
        invariant
            i <= j <= t.len(),
            newline_from(t@, i as int) == newline_from(t@, j as int),
        decreases t.len() - j,
    {
        j += 1;
    }
    let e = if j < t.len() && j > i && t[j - 1] == '\r' {
        j - 1
    } else {
        j
    };
    let next = if j < t.len() {
        j + 1
    } else {
        t.len()
    };
    (e, next)
}

/// Whether `c` is white space (see [`is_white`]).
pub(crate) fn is_white_char(c: char) -> (b: bool)
    ensures
        b == is_white(c),
{
    let v = c as u32;
    (9 <= v && v <= 13) || v == 32 || v == 0x85 || v == 0xA0 || v == 0x1680 || (0x2000 <= v && v
        <= 0x200A) || v == 0x2028 || v == 0x2029 || v == 0x202F || v == 0x205F || v == 0x3000
}

/// The first index from `i` on (below `e`) whose character is not white space, or `e`.
pub(crate) fn skip_white_at(t: &Vec<char>, i: usize, e: usize) -> (k: usize)
    requires
        i <= e <= t.len(),
    ensures
        k == skip_white(t@, i as int, e as int),
        i <= k <= e,
{
    let mut k = i;
    while k < e && is_white_char(t[k])
        invariant
            i <= k <= e <= t.len(),
            skip_white(t@, i as int, e as int) == skip_white(t@, k as int, e as int),
        decreases e - k,
    {
        k += 1;
    }
    k
}

/// The first index from `i` on (below `e`) whose character is white space, or `e`.
pub(crate) fn word_end_at(t: &Vec<char>, i: usize, e: usize) -> (k: usize)
    requires
        i <= e <= t.len(),
    ensures
        k == word_end(t@, i as int, e as int),
        i <= k <= e,
{
    let mut k = i;
    while k < e && !is_white_char(t[k])
        invariant
            i <= k <= e <= t.len(),
            word_end(t@, i as int, e as int) == word_end(t@, k as int, e as int),
        decreases e - k,
    {
        k += 1;
    }
    k
}

/// The bounds of the second word of `t[a..e]` (see [`second_word`]).
pub(crate) fn second_word_at(t: &Vec<char>, a: usize, e: usize) -> (r: Option<(usize, usize)>)
    requires
        a <= e <= t.len(),
    ensures
        match r {
            Some(w) => second_word(t@, a as int, e as int) == Some((w.0 as int, w.1 as int))
                && a <= w.0 <= w.1 <= e,
            None => second_word(t@, a as int, e as int) is None,
        },
{
    let w1 = skip_white_at(t, a, e);
    let w1_end = word_end_at(t, w1, e);
    let w2 = skip_white_at(t, w1_end, e);
    if w2 < e {
        let w2_end = word_end_at(t, w2, e);
        Some((w2, w2_end))
    } else {
        None
    }
}

/// Whether `p` occurs in `t[a..e]`.
pub(crate) fn contains_at(t: &Vec<char>, a: usize, e: usize, p: &Vec<char>) -> (b: bool)
    requires
        a <= e <= t.len(),
    ensures
        b == has_part(t@.subrange(a as int, e as int), p@),
{
    let ghost h = t@.subrange(a as int, e as int);
    let n = p.len();
    if n > e - a {
        return false;
    }
    if n == 0 {
        assert(h.subrange(0, 0 + p@.len() as int) =~= p@);
        return true;
    }
    let mut k: usize = a;
    while k <= e - n
        invariant
            h == t@.subrange(a as int, e as int),
            n == p@.len(),
            1 <= n,
            a <= k <= e - n + 1,
            n <= e - a,
            e <= t.len(),
            forall|j: int| 0 <= j < k - a ==> #[trigger] h.subrange(j, j + n) != p@,
        decreases e - k,
    {
        let mut m: usize = 0;
        while m < n && t[k + m] == p[m]
            invariant
                k + n <= e <= t.len(),
                n == p@.len(),
                m <= n,
                forall|j: int| 0 <= j < m ==> t@[k + j] == p@[j],
            decreases n - m,
        {
            m += 1;
        }
        if m == n {
            proof {
                assert(h.subrange(k - a, k - a + n) =~= p@);
            }
            return true;
        }
        proof {
            assert(h.subrange(k - a, k - a + n)[m as int] != p@[m as int]);
        }
        k += 1;
    }
    proof {
        assert forall|j: int| 0 <= j && j + n <= h.len() implies #[trigger] h.subrange(j, j + n)
            != p@ by {
            assert(j < k - a);
        }
    }
    false
}

} // verus!
