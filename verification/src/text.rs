//! Verified text utilities: substring search, suffix tests, ASCII case
//! folding, path segment extraction and suffix stripping, shared by the
//! version model, the artifact classifier and the configuration logic.

use vstd::prelude::*;

verus! {

/// `pat` occurs in `s` starting at index `i`.
pub open spec fn seq_contains_at(s: Seq<char>, pat: Seq<char>, i: int) -> bool {
    0 <= i && i + pat.len() <= s.len() && s.subrange(i, i + pat.len() as int) == pat
}

/// `pat` occurs somewhere in `s`.
pub open spec fn seq_contains(s: Seq<char>, pat: Seq<char>) -> bool {
    exists|i: int| seq_contains_at(s, pat, i)
}

/// `s` ends with `suffix`.
pub open spec fn seq_ends_with(s: Seq<char>, suffix: Seq<char>) -> bool {
    suffix.len() <= s.len() && s.subrange(s.len() - suffix.len(), s.len() as int) == suffix
}

/// `s` starts with `prefix`.
pub open spec fn seq_starts_with(s: Seq<char>, prefix: Seq<char>) -> bool {
    prefix.len() <= s.len() && s.subrange(0, prefix.len() as int) == prefix
}

/// ASCII case folding of one character; anything but `A`..`Z` is unchanged.
pub open spec fn lower_char(c: char) -> char {
    match c {
        'A' => 'a',
        'B' => 'b',
        'C' => 'c',
        'D' => 'd',
        'E' => 'e',
        'F' => 'f',
        'G' => 'g',
        'H' => 'h',
        'I' => 'i',
        'J' => 'j',
        'K' => 'k',
        'L' => 'l',
        'M' => 'm',
        'N' => 'n',
        'O' => 'o',
        'P' => 'p',
        'Q' => 'q',
        'R' => 'r',
        'S' => 's',
        'T' => 't',
        'U' => 'u',
        'V' => 'v',
        'W' => 'w',
        'X' => 'x',
        'Y' => 'y',
        'Z' => 'z',
        _ => c,
    }
}

/// ASCII case folding of a whole sequence.
pub open spec fn lower(s: Seq<char>) -> Seq<char> {
    s.map_values(|c: char| lower_char(c))
}

/// The characters of `s`, as a vector.
pub fn chars_of(s: &str) -> (r: Vec<char>)
    ensures
        r@ == s@,
{
    let n = s.unicode_len();
    let mut v: Vec<char> = Vec::new();
    let mut i: usize = 0;
    while i < n
        invariant
            n == s@.len(),
            i <= n,
            v@ == s@.take(i as int),
        decreases n - i,
    {
        v.push(s.get_char(i));
        proof {
            assert(s@.take(i + 1 as int) =~= s@.take(i as int).push(s@[i as int]));
        }
        i += 1;
    }
    proof {
        assert(s@.take(n as int) =~= s@);
    }
    v
}

pub fn lower_char_exec(c: char) -> (r: char)
    ensures
        r == lower_char(c),
{
    match c {
        'A' => 'a',
        'B' => 'b',
        'C' => 'c',
        'D' => 'd',
        'E' => 'e',
        'F' => 'f',
        'G' => 'g',
        'H' => 'h',
        'I' => 'i',
        'J' => 'j',
        'K' => 'k',
        'L' => 'l',
        'M' => 'm',
        'N' => 'n',
        'O' => 'o',
        'P' => 'p',
        'Q' => 'q',
        'R' => 'r',
        'S' => 's',
        'T' => 't',
        'U' => 'u',
        'V' => 'v',
        'W' => 'w',
        'X' => 'x',
        'Y' => 'y',
        'Z' => 'z',
        _ => c,
    }
}

/// ASCII case folding of a character vector.
pub fn lower_chars(v: &Vec<char>) -> (r: Vec<char>)
    ensures
        r@ == lower(v@),
{
    let mut out: Vec<char> = Vec::new();
    let mut i: usize = 0;
    while i < v.len()
        invariant
            i <= v@.len(),
            out@ == lower(v@.take(i as int)),
        decreases v@.len() - i,
    {
        out.push(lower_char_exec(v[i]));
        proof {
            assert(lower(v@.take(i + 1 as int)) =~= lower(v@.take(i as int)).push(
                lower_char(v@[i as int]),
            ));
        }
        i += 1;
    }
    proof {
        assert(v@.take(v@.len() as int) =~= v@);
    }
    out
}

/// Substring search over character vectors.
pub fn chars_contain(s: &Vec<char>, pat: &Vec<char>) -> (r: bool)
    ensures
        r == seq_contains(s@, pat@),
{
    if pat.len() > s.len() {
        proof {
            assert forall|i: int| !seq_contains_at(s@, pat@, i) by {}
        }
        return false;
    }
    if pat.len() == 0 {
        proof {
            assert(s@.subrange(0, 0) =~= pat@);
            assert(seq_contains_at(s@, pat@, 0));
        }
        return true;
    }
    let bound = s.len() - pat.len();
    let mut i: usize = 0;
    while i <= bound
        invariant
            0 < pat@.len() <= s@.len(),
            s@.len() <= usize::MAX,
            bound == s@.len() - pat@.len(),
            i <= bound + 1,
            forall|j: int| 0 <= j < i ==> !seq_contains_at(s@, pat@, j),
        decreases bound + 1 - i,
    {
        let mut k: usize = 0;
        let mut ok = true;
        while k < pat.len() && ok
            invariant
                pat@.len() <= s@.len(),
                s@.len() <= usize::MAX,
                i + pat@.len() <= s@.len(),
                k <= pat@.len(),
                ok ==> forall|m: int| 0 <= m < k ==> s@[i + m] == pat@[m],
                !ok ==> !seq_contains_at(s@, pat@, i as int),
            decreases pat@.len() - k,
        {
            if s[i + k] != pat[k] {
                proof {
                    if seq_contains_at(s@, pat@, i as int) {
                        assert(s@.subrange(i as int, i + pat@.len() as int)[k as int] == s@[i + k]);
                    }
                }
                ok = false;
            }
            k += 1;
        }
        if ok {
            proof {
                assert(s@.subrange(i as int, i + pat@.len() as int) =~= pat@);
                assert(seq_contains_at(s@, pat@, i as int));
            }
            return true;
        }
        i += 1;
    }
    proof {
        assert forall|j: int| !seq_contains_at(s@, pat@, j) by {
            if j >= i {
                assert(j + pat@.len() > s@.len());
            }
        }
    }
    false
}

/// Suffix test on the prefix `v[..end]` of a character vector.
pub fn chars_end_with(v: &Vec<char>, end: usize, suf: &Vec<char>) -> (r: bool)
    requires
        end <= v@.len(),
    ensures
        r == seq_ends_with(v@.take(end as int), suf@),
{
    if suf.len() > end {
        return false;
    }
    let start = end - suf.len();
    let mut k: usize = 0;
    while k < suf.len()
        invariant
            suf@.len() <= end <= v@.len(),
            start == end - suf@.len(),
            k <= suf@.len(),
            forall|m: int| 0 <= m < k ==> v@[start + m] == suf@[m],
        decreases suf@.len() - k,
    {
        if v[start + k] != suf[k] {
            proof {
                let w = v@.take(end as int);
                if seq_ends_with(w, suf@) {
                    assert(w.subrange(w.len() - suf@.len(), w.len() as int)[k as int] == v@[start
                        + k]);
                }
            }
            return false;
        }
        k += 1;
    }
    proof {
        let w = v@.take(end as int);
        assert(w.subrange(w.len() - suf@.len(), w.len() as int) =~= suf@);
    }
    true
}

/// Substring search on strings.
pub fn str_contains(s: &str, pat: &str) -> (r: bool)
    ensures
        r == seq_contains(s@, pat@),
{
    let sv = chars_of(s);
    let pv = chars_of(pat);
    chars_contain(&sv, &pv)
}

/// Case-folded substring search on strings.
pub fn str_contains_ci(s: &str, pat: &str) -> (r: bool)
    ensures
        r == seq_contains(lower(s@), lower(pat@)),
{
    let sv = lower_chars(&chars_of(s));
    let pv = lower_chars(&chars_of(pat));
    chars_contain(&sv, &pv)
}

/// Suffix test on strings.
pub fn str_ends_with(s: &str, suf: &str) -> (r: bool)
    ensures
        r == seq_ends_with(s@, suf@),
{
    let sv = chars_of(s);
    let fv = chars_of(suf);
    let r = chars_end_with(&sv, sv.len(), &fv);
    proof {
        assert(sv@.take(sv@.len() as int) =~= sv@);
    }
    r
}

/// Prefix test on strings.
pub fn str_starts_with(s: &str, prefix: &str) -> (r: bool)
    ensures
        r == seq_starts_with(s@, prefix@),
{
    let sv = chars_of(s);
    let pv = chars_of(prefix);
    if pv.len() > sv.len() {
        return false;
    }
    let mut k: usize = 0;
    while k < pv.len()
        invariant
            pv@.len() <= sv@.len(),
            sv@ == s@,
            pv@ == prefix@,
            k <= pv@.len(),
            forall|m: int| 0 <= m < k ==> s@[m] == prefix@[m],
        decreases pv@.len() - k,
    {
        if sv[k] != pv[k] {
            proof {
                if seq_starts_with(s@, prefix@) {
                    assert(s@.subrange(0, prefix@.len() as int)[k as int] == s@[k as int]);
                }
            }
            return false;
        }
        k += 1;
    }
    proof {
        assert(s@.subrange(0, prefix@.len() as int) =~= prefix@);
    }
    true
}

/// A path separator: `/` always, `\` only when `backslash` is set.
pub open spec fn is_sep_char(c: char, backslash: bool) -> bool {
    c == '/' || (backslash && c == '\\')
}

/// The longest suffix of `p` that holds no separator: the file name of a
/// path, or everything after the last `/` of a repository identifier.
pub open spec fn spec_tail_after_sep(p: Seq<char>, backslash: bool) -> Seq<char>
    decreases p.len(),
{
    if p.len() == 0 {
        p
    } else if is_sep_char(p.last(), backslash) {
        Seq::empty()
    } else {
        spec_tail_after_sep(p.drop_last(), backslash).push(p.last())
    }
}

/// The file name of a slash- or backslash-separated path.
pub open spec fn spec_file_name(p: Seq<char>) -> Seq<char> {
    spec_tail_after_sep(p, true)
}

pub fn tail_after_sep(p: &str, backslash: bool) -> (r: String)
    ensures
        r@ == spec_tail_after_sep(p@, backslash),
{
    let v = chars_of(p);
    let n = v.len();
    let mut st: usize = 0;
    let mut i: usize = 0;
    while i < n
        invariant
            n == p@.len(),
            v@ == p@,
            st <= i <= n,
            spec_tail_after_sep(p@.take(i as int), backslash) == p@.subrange(st as int, i as int),
        decreases n - i,
    {
        proof {
            assert(p@.take(i + 1).drop_last() =~= p@.take(i as int));
            assert(p@.take(i + 1).last() == p@[i as int]);
        }
        if v[i] == '/' || (backslash && v[i] == '\\') {
            st = i + 1;
            proof {
                assert(p@.subrange((i + 1) as int, (i + 1) as int) =~= Seq::<char>::empty());
            }
        } else {
            proof {
                assert(p@.subrange(st as int, i as int).push(p@[i as int]) =~= p@.subrange(
                    st as int,
                    (i + 1) as int,
                ));
            }
        }
        i += 1;
    }
    proof {
        assert(p@.take(n as int) =~= p@);
    }
    let sub = p.substring_char(st, n);
    sub.to_owned()
}

/// The file name of a path, after the last `/` or `\`.
pub fn path_file_name(p: &str) -> (r: String)
    ensures
        r@ == spec_file_name(p@),
{
    tail_after_sep(p, true)
}

/// The tail after a separator is never longer than the path.
pub proof fn lemma_tail_after_sep_len(p: Seq<char>, backslash: bool)
    ensures
        0 <= spec_tail_after_sep(p, backslash).len() <= p.len(),
    decreases p.len(),
{
    if p.len() > 0 && !is_sep_char(p.last(), backslash) {
        lemma_tail_after_sep_len(p.drop_last(), backslash);
    }
}

/// The directory part of a path: everything up to and including the last
/// separator, or empty when the path is a bare file name.
pub open spec fn dir_part(p: Seq<char>) -> Seq<char> {
    p.take(p.len() - spec_file_name(p).len())
}

/// Joining a directory and a file name with `/`.
pub open spec fn spec_path_join(dir: Seq<char>, name: Seq<char>) -> Seq<char> {
    dir + seq!['/'] + name
}

pub fn path_join(dir: &str, name: &str) -> (r: String)
    ensures
        r@ == spec_path_join(dir@, name@),
{
    let mut out = dir.to_owned();
    proof {
        reveal_strlit("/");
        assert(("/"@) =~= seq!['/']);
    }
    out.append("/");
    out.append(name);
    out
}

/// `s` with every trailing repetition of `suf` removed.
pub open spec fn strip_all(s: Seq<char>, suf: Seq<char>) -> Seq<char>
    decreases s.len(),
{
    if suf.len() > 0 && seq_ends_with(s, suf) {
        strip_all(s.take(s.len() - suf.len()), suf)
    } else {
        s
    }
}

pub fn strip_all_suffix(s: &str, suf: &str) -> (r: String)
    ensures
        r@ == strip_all(s@, suf@),
{
    let v = chars_of(s);
    let sufv = chars_of(suf);
    if sufv.len() == 0 {
        return s.to_owned();
    }
    let mut end = v.len();
    let mut done = false;
    proof {
        assert(s@.take(s@.len() as int) =~= s@);
    }
    while !done
        invariant
            v@ == s@,
            sufv@ == suf@,
            suf@.len() > 0,
            end <= s@.len(),
            strip_all(s@, suf@) == strip_all(s@.take(end as int), suf@),
            done ==> !seq_ends_with(s@.take(end as int), suf@),
        decreases end + (if done { 0int } else { 1int }),
    {
        if chars_end_with(&v, end, &sufv) {
            proof {
                let w = s@.take(end as int);
                assert(w.take(w.len() - suf@.len()) =~= s@.take(end - suf@.len()));
            }
            end = end - sufv.len();
        } else {
            done = true;
        }
    }
    let sub = s.substring_char(0, end);
    proof {
        assert(s@.subrange(0, end as int) =~= s@.take(end as int));
    }
    sub.to_owned()
}

/// Strict lexicographic order on character sequences, by code point.
pub open spec fn seq_str_lt(a: Seq<char>, b: Seq<char>) -> bool
    decreases a.len(),
{
    if b.len() == 0 {
        false
    } else if a.len() == 0 {
        true
    } else if a[0] < b[0] {
        true
    } else if b[0] < a[0] {
        false
    } else {
        seq_str_lt(a.drop_first(), b.drop_first())
    }
}

pub open spec fn seq_str_le(a: Seq<char>, b: Seq<char>) -> bool {
    seq_str_lt(a, b) || a == b
}

/// Of two character sequences, exactly one of `<`, `>`, `==` holds.
pub proof fn lemma_str_lt_trichotomy(a: Seq<char>, b: Seq<char>)
    ensures
        seq_str_lt(a, b) || seq_str_lt(b, a) || a == b,
        seq_str_lt(a, b) ==> !seq_str_lt(b, a) && a != b,
        seq_str_lt(b, a) ==> !seq_str_lt(a, b) && a != b,
    decreases a.len(),
{
    if b.len() == 0 || a.len() == 0 {
        if a.len() == b.len() {
            assert(a =~= b);
        }
    } else if a[0] == b[0] {
        lemma_str_lt_trichotomy(a.drop_first(), b.drop_first());
        if a.drop_first() == b.drop_first() {
            assert forall|i: int| 0 <= i < a.len() implies a[i] == b[i] by {
                if i > 0 {
                    assert(a[i] == a.drop_first()[i - 1]);
                    assert(b[i] == b.drop_first()[i - 1]);
                }
            }
            assert(a =~= b);
        }
        if a == b {
            assert(a.drop_first() =~= b.drop_first());
        }
    } else {
        if a == b {
            assert(a[0] == b[0]);
        }
    }
}

/// Lexicographic order is transitive.
pub proof fn lemma_str_lt_trans(a: Seq<char>, b: Seq<char>, c: Seq<char>)
    requires
        seq_str_lt(a, b),
        seq_str_lt(b, c),
    ensures
        seq_str_lt(a, c),
    decreases a.len(),
{
    if c.len() == 0 {
        assert(!seq_str_lt(b, c));
    } else if a.len() == 0 {
    } else {
        assert(b.len() > 0);
        if a[0] == b[0] && b[0] == c[0] {
            lemma_str_lt_trans(a.drop_first(), b.drop_first(), c.drop_first());
        }
    }
}

/// Lexicographic comparison of character vectors.
pub fn chars_lt(a: &Vec<char>, b: &Vec<char>) -> (r: bool)
    ensures
        r == seq_str_lt(a@, b@),
{
    let mut i: usize = 0;
    proof {
        assert(a@.skip(0) =~= a@);
        assert(b@.skip(0) =~= b@);
    }
    loop
        invariant
            i <= a@.len(),
            i <= b@.len(),
            seq_str_lt(a@, b@) == seq_str_lt(a@.skip(i as int), b@.skip(i as int)),
        decreases a@.len() - i,
    {
        if i == b.len() {
            return false;
        }
        if i == a.len() {
            return true;
        }
        let ca = a[i];
        let cb = b[i];
        proof {
            assert(a@.skip(i as int)[0] == a@[i as int]);
            assert(b@.skip(i as int)[0] == b@[i as int]);
        }
        if ca < cb {
            return true;
        }
        if cb < ca {
            return false;
        }
        proof {
            assert(a@.skip(i as int).drop_first() =~= a@.skip(i + 1));
            assert(b@.skip(i as int).drop_first() =~= b@.skip(i + 1));
        }
        i += 1;
    }
}

/// Lexicographic comparison of strings.
pub fn str_lt(a: &str, b: &str) -> (r: bool)
    ensures
        r == seq_str_lt(a@, b@),
{
    let av = chars_of(a);
    let bv = chars_of(b);
    chars_lt(&av, &bv)
}

/// String equality by characters.
pub fn str_eq(a: &str, b: &str) -> (r: bool)
    ensures
        r == (a@ == b@),
{
    let av = chars_of(a);
    let bv = chars_of(b);
    if av.len() != bv.len() {
        return false;
    }
    let mut k: usize = 0;
    while k < av.len()
        invariant
            av@ == a@,
            bv@ == b@,
            a@.len() == b@.len(),
            k <= a@.len(),
            forall|m: int| 0 <= m < k ==> a@[m] == b@[m],
        decreases a@.len() - k,
    {
        if av[k] != bv[k] {
            return false;
        }
        k += 1;
    }
    proof {
        assert(a@ =~= b@);
    }
    true
}

} // verus!
