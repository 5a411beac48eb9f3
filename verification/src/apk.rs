use crate::text::{chars_of, contains_at, line_bounds};
use vstd::prelude::*;

verus! {

/// The first index from `i` on whose character is not NUL, or the length.
pub open spec fn skip_nul(s: Seq<char>, i: int) -> int
    decreases s.len() - i,
{
    if 0 <= i < s.len() && s[i] == '\0' {
        skip_nul(s, i + 1)
    } else {
        i
    }
}

/// Going down from `j`, but not below `lo`: the bound just after the last character that
/// is not NUL.
pub open spec fn back_nul(s: Seq<char>, j: int, lo: int) -> int
    decreases j - lo,
{
    if lo < j && s[j - 1] == '\0' {
        back_nul(s, j - 1, lo)
    } else {
        j
    }
}

/// The text with the NUL characters at both ends taken off (as `str::trim_matches`
/// with `'\0'`).
pub open spec fn trim_nul(s: Seq<char>) -> Seq<char> {
    let a = skip_nul(s, 0);
    s.subrange(a, back_nul(s, s.len() as int, a))
}

/// The package name that `/proc/self/cmdline` holds: its text without the NUL characters
/// at either end.
pub fn package_name(cmdline: &str) -> (name: String)
    ensures
        name@ == trim_nul(cmdline@),
{
    let t = chars_of(cmdline);
    let mut a: usize = 0;
    while a < t.len() && t[a] == '\0'
        invariant
            a <= t.len(),
            skip_nul(t@, 0) == skip_nul(t@, a as int),
        decreases t.len() - a,
    {
        a += 1;
    }
    let mut b: usize = t.len();
    while b > a && t[b - 1] == '\0'
        invariant
            a <= b <= t.len(),
            back_nul(t@, t@.len() as int, a as int) == back_nul(t@, b as int, a as int),
        decreases b - a,
    {
        b -= 1;
    }
    cmdline.substring_char(a, b).to_string()
}

/// The first index from `i` on (below `e`) holding a space, or `e`.
pub open spec fn space_from(s: Seq<char>, i: int, e: int) -> int
    decreases e - i,
{
    if i < e && s[i] != ' ' {
        space_from(s, i + 1, e)
    } else {
        i
    }
}

pub proof fn lemma_space_from(s: Seq<char>, i: int, e: int)
    requires
        i <= e,
    ensures
        i <= space_from(s, i, e) <= e,
    decreases e - i,
{
    if i < e && s[i] != ' ' {
        lemma_space_from(s, i + 1, e);
    }
}

/// `p` ends with `q`.
pub open spec fn ends_with(p: Seq<char>, q: Seq<char>) -> bool {
    p.len() >= q.len() && p.subrange(p.len() - q.len(), p.len() as int) == q
}

/// The bounds of the first piece of `s[i..e]` that ends with `suffix`, the pieces being
/// what `str::split(" ")` gives (the text between single spaces, possibly empty).
pub open spec fn piece_ending(s: Seq<char>, i: int, e: int, suffix: Seq<char>) -> Option<
    (int, int),
>
    decreases e - i + 1,
{
    if i > e {
        None
    } else {
        let j = space_from(s, i, e);
        if ends_with(s.subrange(i, j), suffix) {
            Some((i, j))
        } else if j >= e {
            None
        } else {
            proof {
                lemma_space_from(s, i, e);
            }
            piece_ending(s, j + 1, e, suffix)
        }
    }
}

/// The scan of the lines of `/proc/self/maps` from index `i` on: each line that holds
/// ".apk" and the package name gives its first piece ending with "base.apk", where it has
/// one, which replaces what was found before (`acc`).
pub open spec fn apk_piece(s: Seq<char>, i: int, pkg: Seq<char>, acc: Option<(int, int)>) -> Option<
    (int, int),
>
    decreases s.len() - i,
{
    if i < 0 || i >= s.len() {
        acc
    } else {
        let e = crate::text::line_end(s, i);
        let line = s.subrange(i, e);
        let found = if crate::text::has_part(line, ".apk"@) && crate::text::has_part(line, pkg) {
            match piece_ending(s, i, e, "base.apk"@) {
                Some(p) => Some(p),
                None => acc,
            }
        } else {
            acc
        };
        proof {
            crate::text::lemma_newline_from(s, i);
        }
        apk_piece(s, crate::text::next_line(s, i), pkg, found)
    }
}

/// The path of the package's APK in the text of `/proc/self/maps`: the last piece ending
/// with "base.apk" on a line that holds ".apk" and the package name, or the empty text.
pub open spec fn apk_path(maps: Seq<char>, pkg: Seq<char>) -> Seq<char> {
    match apk_piece(maps, 0, pkg, None) {
        Some(p) => maps.subrange(p.0, p.1),
        None => seq![],
    }
}

/// Bounds as integers.
pub open spec fn bounds_view(o: Option<(usize, usize)>) -> Option<(int, int)> {
    match o {
        Some(p) => Some((p.0 as int, p.1 as int)),
        None => None,
    }
}

/// Whether `t[i..j]` ends with `q`.
fn ends_with_at(t: &Vec<char>, i: usize, j: usize, q: &Vec<char>) -> (b: bool)
    requires
        i <= j <= t.len(),
    ensures
        b == ends_with(t@.subrange(i as int, j as int), q@),
{
    let n = q.len();
    if j - i < n {
        return false;
    }
    let mut k: usize = 0;
    while k < n
        invariant
            i <= j <= t.len(),
            n == q@.len(),
            n <= j - i,
            k <= n,
            forall|m: int| 0 <= m < k ==> t@[j - n + m] == q@[m],
        decreases n - k,
    {
        if t[j - n + k] != q[k] {
            proof {
                let p = t@.subrange(i as int, j as int);
                assert(p.subrange(p.len() - n, p.len() as int)[k as int] != q@[k as int]);
            }
            return false;
        }
        k += 1;
    }
    proof {
        let p = t@.subrange(i as int, j as int);
        assert(p.subrange(p.len() - n, p.len() as int) =~= q@);
    }
    true
}

/// The bounds of the first piece of `t[a..e]` ending with `q` (see [`piece_ending`]).
fn piece_ending_at(t: &Vec<char>, a: usize, e: usize, q: &Vec<char>) -> (r: Option<(usize, usize)>)
    requires
        a <= e <= t.len(),
    ensures
        bounds_view(r) == piece_ending(t@, a as int, e as int, q@),
        r matches Some(p) ==> a <= p.0 <= p.1 <= e,
{
    let mut i: usize = a;
    loop
        invariant
            a <= i <= e <= t.len(),
            piece_ending(t@, a as int, e as int, q@) == piece_ending(t@, i as int, e as int, q@),
        decreases e - i,
    {
        let mut j: usize = i;
        while j < e && t[j] != ' '
            invariant
                i <= j <= e <= t.len(),
                space_from(t@, i as int, e as int) == space_from(t@, j as int, e as int),
            decreases e - j,
        {
            j += 1;
        }
        if ends_with_at(t, i, j, q) {
            return Some((i, j));
        }
        if j >= e {
            return None;
        }
        i = j + 1;
    }
}

/// The path of the package's APK in the text of `/proc/self/maps` (see [`apk_path`]).
pub fn apk_file_path(maps: &str, package: &str) -> (path: String)
    ensures
        path@ == apk_path(maps@, package@),
{
    let t = chars_of(maps);
    let pkg = chars_of(package);
    let dot_apk = chars_of(".apk");
    let base_apk = chars_of("base.apk");
    let mut acc: Option<(usize, usize)> = None;
    let mut i: usize = 0;
    while i < t.len()
        invariant
            t@ == maps@,
            pkg@ == package@,
            dot_apk@ == ".apk"@,
            base_apk@ == "base.apk"@,
            apk_piece(t@, 0, pkg@, None) == apk_piece(t@, i as int, pkg@, bounds_view(acc)),
            acc matches Some(p) ==> p.0 <= p.1 <= t.len(),
        decreases t.len() - i,
    {
        let (e, next) = line_bounds(&t, i);
        if contains_at(&t, i, e, &dot_apk) && contains_at(&t, i, e, &pkg) {
            match piece_ending_at(&t, i, e, &base_apk) {
                Some(p) => {
                    acc = Some(p);
                },
                None => {},
            }
        }
        i = next;
    }
    match acc {
        Some(p) => maps.substring_char(p.0, p.1).to_string(),
        None => String::new(),
    }
}

proof fn lemma_piece_ending(s: Seq<char>, i: int, e: int, suffix: Seq<char>)
    requires
        0 <= i,
        e <= s.len(),
    ensures
        piece_ending(s, i, e, suffix) matches Some(p) ==> i <= p.0 <= p.1 <= e && ends_with(
            s.subrange(p.0, p.1),
            suffix,
        ),
    decreases e - i + 1,
{
    if i <= e {
        lemma_space_from(s, i, e);
        let j = space_from(s, i, e);
        if !ends_with(s.subrange(i, j), suffix) && j < e {
            lemma_piece_ending(s, j + 1, e, suffix);
        }
    }
}

proof fn lemma_apk_piece(s: Seq<char>, i: int, pkg: Seq<char>, acc: Option<(int, int)>)
    requires
        0 <= i,
        acc matches Some(p) ==> 0 <= p.0 <= p.1 <= s.len() && ends_with(
            s.subrange(p.0, p.1),
            "base.apk"@,
        ),
    ensures
        apk_piece(s, i, pkg, acc) matches Some(p) ==> 0 <= p.0 <= p.1 <= s.len() && ends_with(
            s.subrange(p.0, p.1),
            "base.apk"@,
        ),
    decreases s.len() - i,
{
    if i < s.len() {
        crate::text::lemma_newline_from(s, i);
        let e = crate::text::line_end(s, i);
        lemma_piece_ending(s, i, e, "base.apk"@);
        let line = s.subrange(i, e);
        let found = if crate::text::has_part(line, ".apk"@) && crate::text::has_part(line, pkg) {
            match piece_ending(s, i, e, "base.apk"@) {
                Some(p) => Some(p),
                None => acc,
            }
        } else {
            acc
        };
        lemma_apk_piece(s, crate::text::next_line(s, i), pkg, found);
    }
}

/// The APK path found is empty or ends with "base.apk".
pub proof fn law_apk_path_ends_with_base_apk(maps: Seq<char>, pkg: Seq<char>)
    ensures
        apk_path(maps, pkg).len() == 0 || ends_with(apk_path(maps, pkg), "base.apk"@),
{
    lemma_apk_piece(maps, 0, pkg, None);
}

} // verus!
