//! The version model: parsing of tag strings into ordered numeric component
//! tuples, constraint expressions over them, and selection of the highest
//! version that satisfies a constraint.

use vstd::prelude::*;

use crate::result::OpenCliError;
use crate::text::chars_of;

verus! {

pub open spec fn is_digit(c: char) -> bool {
    c == '0' || c == '1' || c == '2' || c == '3' || c == '4' || c == '5' || c == '6' || c == '7'
        || c == '8' || c == '9'
}

pub open spec fn digit_val(c: char) -> int {
    if c == '0' {
        0
    } else if c == '1' {
        1
    } else if c == '2' {
        2
    } else if c == '3' {
        3
    } else if c == '4' {
        4
    } else if c == '5' {
        5
    } else if c == '6' {
        6
    } else if c == '7' {
        7
    } else if c == '8' {
        8
    } else if c == '9' {
        9
    } else {
        0
    }
}

pub open spec fn digit_char(d: int) -> char {
    if d == 0 {
        '0'
    } else if d == 1 {
        '1'
    } else if d == 2 {
        '2'
    } else if d == 3 {
        '3'
    } else if d == 4 {
        '4'
    } else if d == 5 {
        '5'
    } else if d == 6 {
        '6'
    } else if d == 7 {
        '7'
    } else if d == 8 {
        '8'
    } else {
        '9'
    }
}

/// The numeric value of a digit run, most significant digit first.
pub open spec fn digits_val(s: Seq<char>) -> int
    decreases s.len(),
{
    if s.len() == 0 {
        0
    } else {
        digits_val(s.drop_last()) * 10 + digit_val(s.last())
    }
}

pub proof fn lemma_digits_val_nonneg(s: Seq<char>)
    ensures
        digits_val(s) >= 0,
    decreases s.len(),
{
    if s.len() > 0 {
        lemma_digits_val_nonneg(s.drop_last());
    }
}

/// How many characters at the front of `s` are decimal digits.
pub open spec fn leading_digits(s: Seq<char>) -> int
    decreases s.len(),
{
    if s.len() == 0 || !is_digit(s[0]) {
        0
    } else {
        1 + leading_digits(s.drop_first())
    }
}

pub proof fn lemma_leading_digits(s: Seq<char>)
    ensures
        0 <= leading_digits(s) <= s.len(),
        forall|i: int| 0 <= i < leading_digits(s) ==> is_digit(#[trigger] s[i]),
        leading_digits(s) < s.len() ==> !is_digit(s[leading_digits(s)]),
    decreases s.len(),
{
    if s.len() == 0 || !is_digit(s[0]) {
    } else {
        lemma_leading_digits(s.drop_first());
        let ld = leading_digits(s);
        assert forall|i: int| 0 <= i < ld implies is_digit(#[trigger] s[i]) by {
            if i > 0 {
                assert(s[i] == s.drop_first()[i - 1]);
            }
        }
        if ld < s.len() {
            assert(s[ld] == s.drop_first()[ld - 1]);
        }
    }
}

/// The numeric components read from a tag body: a dot-separated list of
/// digit runs; anything after the first component that is not followed by a
/// dot-and-digit continuation is ignored, so a pre-release suffix such as
/// `-rc1` does not defeat parsing.
pub open spec fn parse_parts(s: Seq<char>) -> Seq<int>
    decreases s.len(),
{
    let d = leading_digits(s);
    if d <= 0 || d > s.len() {
        Seq::empty()
    } else {
        let v = digits_val(s.take(d));
        if d == s.len() {
            seq![v]
        } else if s[d] == '.' {
            seq![v] + parse_parts(s.skip(d + 1))
        } else {
            seq![v]
        }
    }
}

/// An optional leading `v` or `V` is not part of the version.
pub open spec fn strip_v(s: Seq<char>) -> Seq<char> {
    if s.len() > 0 && (s[0] == 'v' || s[0] == 'V') {
        s.drop_first()
    } else {
        s
    }
}

/// The components a whole tag string parses to.
pub open spec fn parsed_parts(s: Seq<char>) -> Seq<int> {
    parse_parts(strip_v(s))
}

pub open spec fn parts_fit(ps: Seq<int>) -> bool {
    forall|i: int| 0 <= i < ps.len() ==> #[trigger] ps[i] <= u64::MAX
}

/// A tag string parses as a version exactly when it holds at least one
/// numeric component and every component fits a machine word.
pub open spec fn parse_ok(s: Seq<char>) -> bool {
    parsed_parts(s).len() > 0 && parts_fit(parsed_parts(s))
}

/// Strict lexicographic order on component tuples; a proper prefix is
/// smaller than any extension of it.
pub open spec fn version_lt(a: Seq<int>, b: Seq<int>) -> bool
    decreases a.len(),
{
    if b.len() == 0 {
        false
    } else if a.len() == 0 {
        true
    } else if a[0] < b[0] {
        true
    } else if a[0] > b[0] {
        false
    } else {
        version_lt(a.drop_first(), b.drop_first())
    }
}

pub open spec fn version_le(a: Seq<int>, b: Seq<int>) -> bool {
    version_lt(a, b) || a == b
}

/// Of two component tuples, exactly one of `<`, `>`, `==` holds: versions
/// are totally ordered.
pub proof fn lemma_version_lt_trichotomy(a: Seq<int>, b: Seq<int>)
    ensures
        version_lt(a, b) || version_lt(b, a) || a == b,
        version_lt(a, b) ==> !version_lt(b, a) && a != b,
        version_lt(b, a) ==> !version_lt(a, b) && a != b,
    decreases a.len(),
{
    if b.len() == 0 || a.len() == 0 {
        if a.len() == b.len() {
            assert(a =~= b);
        }
    } else if a[0] == b[0] {
        lemma_version_lt_trichotomy(a.drop_first(), b.drop_first());
        if a.drop_first() == b.drop_first() {
            assert forall|i: int| 0 <= i < a.len() implies a[i] == b[i] by {
                if i > 0 {
                    assert(a[i] == a.drop_first()[i - 1]);
                    assert(b[i] == b.drop_first()[i - 1]);
                }
            }
            assert(a =~= b);
        }
        if a == b {
            assert(a.drop_first() =~= b.drop_first());
        }
    } else {
        if a == b {
            assert(a[0] == b[0]);
        }
    }
}

/// The order on versions is transitive.
pub proof fn lemma_version_lt_trans(a: Seq<int>, b: Seq<int>, c: Seq<int>)
    requires
        version_lt(a, b),
        version_lt(b, c),
    ensures
        version_lt(a, c),
    decreases a.len(),
{
    if c.len() == 0 {
        assert(!version_lt(b, c));
    } else if a.len() == 0 {
    } else {
        assert(b.len() > 0);
        if a[0] == b[0] && b[0] == c[0] {
            lemma_version_lt_trans(a.drop_first(), b.drop_first(), c.drop_first());
        }
    }
}

/// The decimal spelling of a non-negative number.
pub open spec fn dec_str(n: int) -> Seq<char>
    decreases n,
{
    if n < 10 {
        seq![digit_char(n)]
    } else {
        dec_str(n / 10).push(digit_char(n % 10))
    }
}

/// The canonical spelling of a component tuple: decimal components joined
/// by dots.
pub open spec fn canonical_spec(ps: Seq<int>) -> Seq<char>
    decreases ps.len(),
{
    if ps.len() == 0 {
        Seq::empty()
    } else if ps.len() == 1 {
        dec_str(ps[0])
    } else {
        canonical_spec(ps.drop_last()) + seq!['.'] + dec_str(ps.last())
    }
}

/// A version: the ordered tuple of numeric components its tag spelled out.
pub struct Version {
    parts: Vec<u64>,
}

impl View for Version {
    type V = Seq<int>;

    closed spec fn view(&self) -> Seq<int> {
        self.parts@.map_values(|x: u64| x as int)
    }
}

impl Clone for Version {
    fn clone(&self) -> (r: Self)
        ensures
            r@ == self@,
    {
        let mut parts: Vec<u64> = Vec::new();
        let mut i: usize = 0;
        while i < self.parts.len()
            invariant
                i <= self.parts@.len(),
                parts@ == self.parts@.take(i as int),
            decreases self.parts@.len() - i,
        {
            parts.push(self.parts[i]);
            proof {
                assert(self.parts@.take(i + 1) =~= self.parts@.take(i as int).push(
                    self.parts@[i as int],
                ));
            }
            i += 1;
        }
        proof {
            assert(self.parts@.take(self.parts@.len() as int) =~= self.parts@);
        }
        let r = Version { parts };
        proof {
            assert(r@ =~= self@);
        }
        r
    }
}

impl Version {
    /// A parsed version holds at least one component.
    pub open spec fn well_formed(&self) -> bool {
        self@.len() > 0
    }

    fn exec_is_digit(c: char) -> (r: bool)
        ensures
            r == is_digit(c),
    {
        match c {
            '0' => true,
            '1' => true,
            '2' => true,
            '3' => true,
            '4' => true,
            '5' => true,
            '6' => true,
            '7' => true,
            '8' => true,
            '9' => true,
            _ => false,
        }
    }

    fn exec_digit_val(c: char) -> (r: u64)
        requires
            is_digit(c),
        ensures
            r == digit_val(c),
    {
        match c {
            '0' => 0,
            '1' => 1,
            '2' => 2,
            '3' => 3,
            '4' => 4,
            '5' => 5,
            '6' => 6,
            '7' => 7,
            '8' => 8,
            _ => 9,
        }
    }

    /// Parses a tag string. Fails exactly when no numeric component can be
    /// read, or a component overflows a machine word.
    pub fn parse(text: &str) -> (r: Result<Version, OpenCliError>)
        ensures
            parse_ok(text@) <==> r is Ok,
            r matches Ok(v) ==> v@ == parsed_parts(text@) && v.well_formed(),
            r matches Err(e) ==> e matches OpenCliError::Process(_),
    {
        let cs = chars_of(text);
        let n = cs.len();
        let start: usize = if n > 0 && (cs[0] == 'v' || cs[0] == 'V') {
            1
        } else {
            0
        };
        proof {
            assert(strip_v(text@) =~= text@.skip(start as int));
        }
        let mut done: Vec<u64> = Vec::new();
        let mut i: usize = start;
        loop
            invariant
                cs@ == text@,
                n == text@.len(),
                start <= i <= n,
                parsed_parts(text@) == done@.map_values(|x: u64| x as int) + parse_parts(
                    text@.skip(i as int),
                ),
            decreases n - i,
        {
            let ghost rem = text@.skip(i as int);
            let ghost done_ints = done@.map_values(|x: u64| x as int);
            // measure the digit run that starts the remaining text
            let mut j: usize = i;
            while j < n && Self::exec_is_digit(cs[j])
                invariant
                    cs@ == text@,
                    n == text@.len(),
                    i <= j <= n,
                    forall|m: int| i <= m < j ==> is_digit(#[trigger] text@[m]),
                decreases n - j,
            {
                j += 1;
            }
            proof {
                lemma_leading_digits(rem);
                let ld = leading_digits(rem);
                assert forall|m: int| 0 <= m < j - i implies is_digit(#[trigger] rem[m]) by {
                    assert(rem[m] == text@[i + m]);
                }
                if ld < j - i {
                    assert(is_digit(rem[ld]));
                }
                if ld > j - i {
                    if j < n {
                        assert(rem[j - i] == text@[j as int]);
                        assert(is_digit(rem[j - i]));
                    }
                }
                assert(ld == j - i);
            }
            let d = j - i;
            if d == 0 {
                // no digits here: the component list ends
                proof {
                    assert(parse_parts(rem) =~= Seq::<int>::empty());
                    assert(parsed_parts(text@) =~= done_ints);
                }
                if done.len() == 0 {
                    return Err(
                        OpenCliError::Process(String::from_str("no numeric version component")),
                    );
                }
                let r = Version { parts: done };
                return Ok(r);
            }
            // read the run's value, tracking overflow
            let mut val: u64 = 0;
            let mut over = false;
            let mut m: usize = i;
            while m < j
                invariant
                    cs@ == text@,
                    n == text@.len(),
                    i <= m <= j <= n,
                    forall|t: int| i <= t < j ==> is_digit(#[trigger] text@[t]),
                    !over ==> val == digits_val(text@.subrange(i as int, m as int)),
                    over ==> digits_val(text@.subrange(i as int, m as int)) > u64::MAX,
                decreases j - m,
            {
                let dv = Self::exec_digit_val(cs[m]);
                proof {
                    let pre = text@.subrange(i as int, m as int);
                    let post = text@.subrange(i as int, (m + 1) as int);
                    assert(post.drop_last() =~= pre);
                    assert(post.last() == text@[m as int]);
                    lemma_digits_val_nonneg(pre);
                }
                if !over {
                    if val > (u64::MAX - dv) / 10 {
                        proof {
                            let q = (u64::MAX - dv) / 10;
                            vstd::arithmetic::div_mod::lemma_fundamental_div_mod(
                                (u64::MAX - dv) as int,
                                10,
                            );
                            assert(val * 10 >= (q + 1) * 10) by (nonlinear_arith)
                                requires
                                    val >= q + 1,
                            ;
                        }
                        over = true;
                    } else {
                        proof {
                            let q = (u64::MAX - dv) / 10;
                            vstd::arithmetic::div_mod::lemma_fundamental_div_mod(
                                (u64::MAX - dv) as int,
                                10,
                            );
                            assert(val * 10 <= q * 10) by (nonlinear_arith)
                                requires
                                    val <= q,
                            ;
                        }
                        val = val * 10 + dv;
                    }
                } else {
                    proof {
                        let pre = text@.subrange(i as int, m as int);
                        assert(digits_val(pre) * 10 > u64::MAX) by (nonlinear_arith)
                            requires
                                digits_val(pre) > u64::MAX,
                        ;
                    }
                }
                m += 1;
            }
            // relate the run to the specification's component
            proof {
                let run = text@.subrange(i as int, j as int);
                assert(rem.take(d as int) =~= run);
                assert(parse_parts(rem).len() > 0);
                assert(parse_parts(rem)[0] == digits_val(run));
            }
            if over {
                proof {
                    let pp = parsed_parts(text@);
                    assert(pp[done@.len() as int] == parse_parts(rem)[0]);
                    assert(!parts_fit(pp));
                }
                return Err(OpenCliError::Process(String::from_str("version component too large")));
            }
            let has_dot = j < n && cs[j] == '.';
            proof {
                assert(rem[d as int] == text@[j as int] || j == n);
            }
            done.push(val);
            proof {
                let run = text@.subrange(i as int, j as int);
                let done_ints2 = done@.map_values(|x: u64| x as int);
                assert(done_ints2 =~= done_ints.push(digits_val(run)));
                if has_dot {
                    assert(rem.skip(d + 1) =~= text@.skip((j + 1) as int));
                    assert(parse_parts(rem) =~= seq![digits_val(run)] + parse_parts(
                        text@.skip((j + 1) as int),
                    ));
                    assert(done_ints2 + parse_parts(text@.skip((j + 1) as int)) =~= done_ints
                        + parse_parts(rem));
                } else {
                    assert(parse_parts(rem) =~= seq![digits_val(run)]);
                    assert(done_ints2 =~= done_ints + parse_parts(rem));
                }
            }
            if has_dot {
                i = j + 1;
            } else {
                // the components end here; anything further is ignored
                proof {
                    let done_ints2 = done@.map_values(|x: u64| x as int);
                    assert(parsed_parts(text@) =~= done_ints2);
                }
                let r = Version { parts: done };
                return Ok(r);
            }
        }
    }

    /// Strictly smaller in the total order on versions.
    pub fn lt(&self, other: &Version) -> (r: bool)
        ensures
            r == version_lt(self@, other@),
    {
        let a = &self.parts;
        let b = &other.parts;
        let mut i: usize = 0;
        proof {
            assert(self@.skip(0) =~= self@);
            assert(other@.skip(0) =~= other@);
        }
        loop
            invariant
                i <= a@.len(),
                i <= b@.len(),
                a@ == self.parts@,
                b@ == other.parts@,
                version_lt(self@, other@) == version_lt(
                    self@.skip(i as int),
                    other@.skip(i as int),
                ),
            decreases a@.len() - i,
        {
            if i == b.len() {
                proof {
                    assert(other@.skip(i as int).len() == 0);
                }
                return false;
            }
            if i == a.len() {
                proof {
                    assert(self@.skip(i as int).len() == 0);
                    assert(other@.skip(i as int).len() > 0);
                }
                return true;
            }
            let ca = a[i];
            let cb = b[i];
            proof {
                assert(self@.skip(i as int)[0] == self@[i as int]);
                assert(other@.skip(i as int)[0] == other@[i as int]);
                assert(self@[i as int] == a@[i as int] as int);
                assert(other@[i as int] == b@[i as int] as int);
            }
            if ca < cb {
                return true;
            }
            if cb < ca {
                return false;
            }
            proof {
                assert(self@.skip(i as int).drop_first() =~= self@.skip(i + 1));
                assert(other@.skip(i as int).drop_first() =~= other@.skip(i + 1));
            }
            i += 1;
        }
    }

    /// Equality of versions, component by component.
    pub fn eq_version(&self, other: &Version) -> (r: bool)
        ensures
            r == (self@ == other@),
    {
        if self.parts.len() != other.parts.len() {
            proof {
                assert(self@.len() != other@.len());
            }
            return false;
        }
        let mut i: usize = 0;
        while i < self.parts.len()
            invariant
                self.parts@.len() == other.parts@.len(),
                i <= self.parts@.len(),
                forall|m: int| 0 <= m < i ==> self@[m] == other@[m],
            decreases self.parts@.len() - i,
        {
            if self.parts[i] != other.parts[i] {
                proof {
                    assert(self@[i as int] == self.parts@[i as int] as int);
                    assert(other@[i as int] == other.parts@[i as int] as int);
                }
                return false;
            }
            proof {
                assert(self@[i as int] == self.parts@[i as int] as int);
                assert(other@[i as int] == other.parts@[i as int] as int);
            }
            i += 1;
        }
        proof {
            assert(self@ =~= other@);
        }
        true
    }

    fn digit_str(d: u64) -> (r: &'static str)
        requires
            d < 10,
        ensures
            r@ == seq![digit_char(d as int)],
    {
        match d {
            0 => {
                proof {
                    reveal_strlit("0");
                }
                "0"
            },
            1 => {
                proof {
                    reveal_strlit("1");
                }
                "1"
            },
            2 => {
                proof {
                    reveal_strlit("2");
                }
                "2"
            },
            3 => {
                proof {
                    reveal_strlit("3");
                }
                "3"
            },
            4 => {
                proof {
                    reveal_strlit("4");
                }
                "4"
            },
            5 => {
                proof {
                    reveal_strlit("5");
                }
                "5"
            },
            6 => {
                proof {
                    reveal_strlit("6");
                }
                "6"
            },
            7 => {
                proof {
                    reveal_strlit("7");
                }
                "7"
            },
            8 => {
                proof {
                    reveal_strlit("8");
                }
                "8"
            },
            _ => {
                proof {
                    reveal_strlit("9");
                }
                "9"
            },
        }
    }

    fn u64_dec_string(n: u64) -> (r: String)
        ensures
            r@ == dec_str(n as int),
        decreases n,
    {
        if n < 10 {
            let s = Self::digit_str(n);
            s.to_owned()
        } else {
            let mut s = Self::u64_dec_string(n / 10);
            s.append(Self::digit_str(n % 10));
            proof {
                assert(dec_str(n as int) == dec_str(n as int / 10).push(
                    digit_char(n as int % 10),
                ));
                assert(dec_str(n as int / 10) + seq![digit_char(n as int % 10)] =~= dec_str(
                    n as int / 10,
                ).push(digit_char(n as int % 10)));
            }
            s
        }
    }

    /// The canonical spelling: two tags that parse to the same version have
    /// the same canonical spelling.
    pub fn canonical(&self) -> (r: String)
        ensures
            r@ == canonical_spec(self@),
    {
        let mut out = String::new();
        if self.parts.len() == 0 {
            return out;
        }
        let mut k: usize = 0;
        while k < self.parts.len()
            invariant
                k <= self.parts@.len(),
                out@ == canonical_spec(self@.take(k as int)),
            decreases self.parts@.len() - k,
        {
            proof {
                assert(self@.take(k + 1).drop_last() =~= self@.take(k as int));
                assert(self@.take(k + 1).last() == self@[k as int]);
                assert(self@[k as int] == self.parts@[k as int] as int);
            }
            let piece = Self::u64_dec_string(self.parts[k]);
            if k == 0 {
                out.append(piece.as_str());
                proof {
                    assert(self@.take(1).len() == 1);
                    assert(self@.take(1)[0] == self@[0]);
                }
            } else {
                proof {
                    reveal_strlit(".");
                }
                out.append(".");
                out.append(piece.as_str());
                proof {
                    assert(self@.take(k + 1).len() >= 2);
                    assert(canonical_spec(self@.take(k + 1)) == canonical_spec(
                        self@.take(k as int),
                    ) + seq!['.'] + dec_str(self@[k as int]));
                    assert(("."@) =~= seq!['.']);
                }
            }
            k += 1;
        }
        proof {
            assert(self@.take(self@.len() as int) =~= self@);
        }
        out
    }
}

/// A predicate over versions: match anything, match one version exactly, or
/// match any version with the same leading component that is at least the
/// named one.
pub enum VersionConstraint {
    Any,
    Exact(Version),
    Caret(Version),
}

/// What it means for a version to satisfy a constraint.
pub open spec fn constraint_matches(c: VersionConstraint, w: Seq<int>) -> bool {
    match c {
        VersionConstraint::Any => true,
        VersionConstraint::Exact(v) => w == v@,
        VersionConstraint::Caret(v) => version_le(v@, w) && w.len() > 0 && v@.len() > 0 && w[0]
            == v@[0],
    }
}

/// Everything `latest_matching` promises: a result satisfies the
/// constraint, comes from the candidate list, and is the greatest candidate
/// that satisfies it; no result means no candidate satisfies it.
pub open spec fn latest_matching_post(
    c: VersionConstraint,
    vs: Seq<Version>,
    r: Option<Version>,
) -> bool {
    match r {
        Option::None => forall|i: int|
            0 <= i < vs.len() ==> !constraint_matches(c, #[trigger] vs[i]@),
        Option::Some(m) => constraint_matches(c, m@) && (exists|i: int|
            0 <= i < vs.len() && #[trigger] vs[i]@ == m@) && forall|i: int|
            0 <= i < vs.len() && constraint_matches(c, #[trigger] vs[i]@) ==> version_le(
                vs[i]@,
                m@,
            ),
    }
}

/// Everything constraint parsing promises, as a predicate of the text and
/// the result: `*` is the any-constraint; `^` and `=` prefix a version for
/// a caret range or an exact match; a bare version is an exact match; the
/// only failure is the version failing to parse.
pub open spec fn constraint_parse_post(
    text: Seq<char>,
    r: Result<VersionConstraint, OpenCliError>,
) -> bool {
    &&& (text == seq!['*'] ==> (r matches Ok(c) && c is Any))
    &&& (text.len() > 0 && text[0] == '^' ==> {
        &&& (r is Ok <==> parse_ok(text.drop_first()))
        &&& (r matches Ok(c) ==> (c matches VersionConstraint::Caret(v) && v@ == parsed_parts(
            text.drop_first(),
        )))
    })
    &&& (text.len() > 0 && text[0] == '=' ==> {
        &&& (r is Ok <==> parse_ok(text.drop_first()))
        &&& (r matches Ok(c) ==> (c matches VersionConstraint::Exact(v) && v@ == parsed_parts(
            text.drop_first(),
        )))
    })
    &&& ((text != seq!['*'] && (text.len() == 0 || (text[0] != '^' && text[0] != '='))) ==> {
        &&& (r is Ok <==> parse_ok(text))
        &&& (r matches Ok(c) ==> (c matches VersionConstraint::Exact(v) && v@ == parsed_parts(
            text,
        )))
    })
    &&& (r matches Err(e) ==> e matches OpenCliError::Process(_))
}

impl VersionConstraint {
    /// Parses a constraint: `*` matches anything, `^` before a version
    /// names a caret range, `=` before a version or a bare version names an
    /// exact match.
    pub fn parse(text: &str) -> (r: Result<VersionConstraint, OpenCliError>)
        ensures
            constraint_parse_post(text@, r),
    {
        let cs = chars_of(text);
        if cs.len() == 1 && cs[0] == '*' {
            proof {
                assert(text@ =~= seq!['*']);
            }
            return Ok(VersionConstraint::Any);
        }
        if cs.len() > 0 && cs[0] == '^' {
            let rest = text.substring_char(1, cs.len());
            proof {
                assert(rest@ =~= text@.drop_first());
            }
            let v = Version::parse(rest)?;
            return Ok(VersionConstraint::Caret(v));
        }
        if cs.len() > 0 && cs[0] == '=' {
            let rest = text.substring_char(1, cs.len());
            proof {
                assert(rest@ =~= text@.drop_first());
            }
            let v = Version::parse(rest)?;
            return Ok(VersionConstraint::Exact(v));
        }
        let v = Version::parse(text)?;
        Ok(VersionConstraint::Exact(v))
    }

    /// Whether `v` satisfies this constraint.
    pub fn matches(&self, v: &Version) -> (r: bool)
        ensures
            r == constraint_matches(*self, v@),
    {
        match self {
            VersionConstraint::Any => true,
            VersionConstraint::Exact(e) => e.eq_version(v),
            VersionConstraint::Caret(e) => {
                let le = e.lt(v) || e.eq_version(v);
                if !le {
                    return false;
                }
                if e.parts_len() == 0 || v.parts_len() == 0 {
                    return false;
                }
                let ef = e.first_part();
                let vf = v.first_part();
                ef == vf
            },
        }
    }

    /// The greatest version in `versions` that satisfies this constraint,
    /// if any does.
    pub fn latest_matching(&self, versions: &Vec<Version>) -> (r: Option<Version>)
        ensures
            latest_matching_post(*self, versions@, r),
    {
        let mut best: Option<usize> = None;
        let mut i: usize = 0;
        while i < versions.len()
            invariant
                i <= versions@.len(),
                match best {
                    Option::None => forall|j: int|
                        0 <= j < i ==> !constraint_matches(*self, #[trigger] versions@[j]@),
                    Option::Some(b) => b < i && constraint_matches(*self, versions@[b as int]@)
                        && forall|j: int|
                        0 <= j < i && constraint_matches(*self, #[trigger] versions@[j]@)
                            ==> version_le(versions@[j]@, versions@[b as int]@),
                },
            decreases versions@.len() - i,
        {
            if self.matches(&versions[i]) {
                match best {
                    None => {
                        best = Some(i);
                    },
                    Some(b) => {
                        if versions[b].lt(&versions[i]) {
                            proof {
                                assert forall|j: int|
                                    0 <= j < i + 1 && constraint_matches(
                                        *self,
                                        #[trigger] versions@[j]@,
                                    ) implies version_le(versions@[j]@, versions@[i as int]@) by {
                                    if j < i {
                                        if version_lt(versions@[j]@, versions@[b as int]@) {
                                            lemma_version_lt_trans(
                                                versions@[j]@,
                                                versions@[b as int]@,
                                                versions@[i as int]@,
                                            );
                                        }
                                    }
                                }
                            }
                            best = Some(i);
                        } else {
                            proof {
                                lemma_version_lt_trichotomy(
                                    versions@[b as int]@,
                                    versions@[i as int]@,
                                );
                            }
                        }
                    },
                }
            }
            i += 1;
        }
        match best {
            None => None,
            Some(b) => {
                let m = versions[b].clone();
                Some(m)
            },
        }
    }
}

impl Version {
    /// How many components the version holds.
    pub fn parts_len(&self) -> (r: usize)
        ensures
            r == self@.len(),
    {
        self.parts.len()
    }

    /// The leading component.
    pub fn first_part(&self) -> (r: u64)
        requires
            self@.len() > 0,
        ensures
            r as int == self@[0],
    {
        proof {
            assert(self@[0] == self.parts@[0] as int);
        }
        self.parts[0]
    }
}

/// Round-trip consistency: two tags that parse to equal versions have equal
/// canonical spellings, since the spelling is a function of the parsed
/// components alone.
pub proof fn lemma_parse_eq_canonical(a: Seq<char>, b: Seq<char>)
    requires
        parse_ok(a),
        parse_ok(b),
        parsed_parts(a) == parsed_parts(b),
    ensures
        canonical_spec(parsed_parts(a)) == canonical_spec(parsed_parts(b)),
{
}

/// The any-constraint selects the maximum: on a non-empty candidate list
/// `latest_matching` yields a candidate every candidate is at most; on an
/// empty list it yields nothing.
pub proof fn lemma_any_selects_maximum(vs: Seq<Version>, r: Option<Version>)
    requires
        latest_matching_post(VersionConstraint::Any, vs, r),
    ensures
        r is None <==> vs.len() == 0,
        r matches Some(m) ==> ((exists|i: int| 0 <= i < vs.len() && #[trigger] vs[i]@ == m@)
            && (forall|i: int| 0 <= i < vs.len() ==> version_le(#[trigger] vs[i]@, m@))),
{
    if vs.len() > 0 && r is None {
        assert(!constraint_matches(VersionConstraint::Any, vs[0]@));
    }
    match r {
        Option::Some(m) => {
            assert(constraint_matches(VersionConstraint::Any, m@));
        },
        Option::None => {},
    }
}

} // verus!
