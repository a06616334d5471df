//! Reconciliation of the legacy plugin field of the server configuration
//! against the lock's record of installed plugin binaries. The field
//! historically holds either an array of plugin names or one delimited
//! string; after any update it is a sorted, deduplicated array, and an
//! empty result removes it entirely. Reading and writing the document on
//! disk is the caller's work; everything here is pure.

use vstd::prelude::*;

use crate::package::downloader::{dll_suffix, so_suffix};
use crate::package::lock::PackageLock;
use crate::build::config::PackageTarget;
use crate::text::{
    chars_of, path_file_name, path_join, seq_contains, seq_ends_with, seq_str_lt,
    lemma_str_lt_trans, lemma_str_lt_trichotomy, spec_file_name, spec_path_join, str_contains,
    str_eq, str_lt, strip_all, strip_all_suffix, str_ends_with,
};

verus! {

pub open spec fn is_space(c: char) -> bool {
    c == ' ' || c == '\t' || c == '\n' || c == '\r'
}

/// `t` with leading and trailing whitespace removed.
pub open spec fn trim_spaces(t: Seq<char>) -> Seq<char>
    decreases t.len(),
{
    if t.len() == 0 {
        t
    } else if is_space(t.first()) {
        trim_spaces(t.drop_first())
    } else if is_space(t.last()) {
        trim_spaces(t.drop_last())
    } else {
        t
    }
}

fn is_space_exec(c: char) -> (r: bool)
    ensures
        r == is_space(c),
{
    c == ' ' || c == '\t' || c == '\n' || c == '\r'
}

fn sep_exec(c: char, comma: bool) -> (r: bool)
    ensures
        r == split_sep(c, comma),
{
    if comma {
        c == ','
    } else {
        is_space_exec(c)
    }
}

/// Trims whitespace from both ends.
pub fn trim_str(s: &str) -> (r: String)
    ensures
        r@ == trim_spaces(s@),
{
    let v = chars_of(s);
    let mut a: usize = 0;
    let mut b: usize = v.len();
    proof {
        assert(s@.subrange(0, s@.len() as int) =~= s@);
    }
    while a < b && is_space_exec(v[a])
        invariant
            v@ == s@,
            a <= b <= s@.len(),
            trim_spaces(s@) == trim_spaces(s@.subrange(a as int, b as int)),
        decreases b - a,
    {
        proof {
            let w = s@.subrange(a as int, b as int);
            assert(w.first() == s@[a as int]);
            assert(w.drop_first() =~= s@.subrange(a + 1, b as int));
        }
        a += 1;
    }
    while a < b && is_space_exec(v[b - 1])
        invariant
            v@ == s@,
            a <= b <= s@.len(),
            trim_spaces(s@) == trim_spaces(s@.subrange(a as int, b as int)),
            a < b ==> !is_space(s@[a as int]),
        decreases b - a,
    {
        proof {
            let w = s@.subrange(a as int, b as int);
            assert(w.first() == s@[a as int]);
            assert(w.last() == s@[b - 1]);
            assert(w.drop_last() =~= s@.subrange(a as int, b - 1));
        }
        b -= 1;
    }
    proof {
        let w = s@.subrange(a as int, b as int);
        if w.len() > 0 {
            assert(w.first() == s@[a as int]);
            assert(w.last() == s@[b - 1]);
        }
    }
    let sub = s.substring_char(a, b);
    sub.to_owned()
}

/// The separator that splits the legacy string form: commas when any comma
/// occurs, whitespace otherwise.
pub open spec fn split_sep(c: char, comma: bool) -> bool {
    if comma {
        c == ','
    } else {
        is_space(c)
    }
}

/// The length of the separator-free run at the front of `s`.
pub open spec fn token_len(s: Seq<char>, comma: bool) -> int
    decreases s.len(),
{
    if s.len() == 0 || split_sep(s[0], comma) {
        0
    } else {
        1 + token_len(s.drop_first(), comma)
    }
}

pub proof fn lemma_token_len(s: Seq<char>, comma: bool)
    ensures
        0 <= token_len(s, comma) <= s.len(),
        forall|i: int| 0 <= i < token_len(s, comma) ==> !split_sep(#[trigger] s[i], comma),
        token_len(s, comma) < s.len() ==> split_sep(s[token_len(s, comma)], comma),
    decreases s.len(),
{
    if s.len() == 0 || split_sep(s[0], comma) {
    } else {
        lemma_token_len(s.drop_first(), comma);
        let tl = token_len(s, comma);
        assert forall|i: int| 0 <= i < tl implies !split_sep(#[trigger] s[i], comma) by {
            if i > 0 {
                assert(s[i] == s.drop_first()[i - 1]);
            }
        }
        if tl < s.len() {
            assert(s[tl] == s.drop_first()[tl - 1]);
        }
    }
}

/// The plugin names a legacy string spells out: separator-delimited
/// tokens, trimmed, with empty tokens dropped.
pub open spec fn split_plugins_rec(s: Seq<char>, comma: bool) -> Seq<Seq<char>>
    decreases s.len(),
{
    if s.len() == 0 {
        Seq::empty()
    } else {
        let d = token_len(s, comma);
        if d <= 0 || d > s.len() {
            split_plugins_rec(s.drop_first(), comma)
        } else {
            let t = trim_spaces(s.take(d));
            let rest = split_plugins_rec(s.skip(d), comma);
            if t.len() == 0 {
                rest
            } else {
                seq![t] + rest
            }
        }
    }
}

pub open spec fn split_plugins(s: Seq<char>) -> Seq<Seq<char>> {
    split_plugins_rec(s, seq_contains(s, seq![',']))
}

/// Strictly sorted, hence duplicate-free.
pub open spec fn sorted_unique(ss: Seq<Seq<char>>) -> bool {
    forall|i: int, j: int|
        0 <= i < j < ss.len() ==> seq_str_lt(#[trigger] ss[i], #[trigger] ss[j])
}

/// A merge result: sorted, unique, and holding exactly the union.
pub open spec fn merged_post(a: Seq<Seq<char>>, b: Seq<Seq<char>>, r: Seq<Seq<char>>) -> bool {
    sorted_unique(r) && forall|x: Seq<char>|
        #[trigger] r.contains(x) <==> a.contains(x) || b.contains(x)
}

/// `ss` with every element of `rem` dropped, in order.
pub open spec fn filtered(ss: Seq<Seq<char>>, rem: Seq<Seq<char>>) -> Seq<Seq<char>>
    decreases ss.len(),
{
    if ss.len() == 0 {
        ss
    } else {
        let prev = filtered(ss.drop_last(), rem);
        if rem.contains(ss.last()) {
            prev
        } else {
            prev.push(ss.last())
        }
    }
}

/// Membership test in a vector of names.
pub fn vec_contains_str(v: &Vec<String>, s: &str) -> (r: bool)
    ensures
        r == v.deep_view().contains(s@),
{
    let mut i: usize = 0;
    while i < v.len()
        invariant
            i <= v@.len(),
            forall|j: int| 0 <= j < i ==> v.deep_view()[j] != s@,
        decreases v@.len() - i,
    {
        if str_eq(v[i].as_str(), s) {
            proof {
                assert(v.deep_view()[i as int] == s@);
            }
            return true;
        }
        i += 1;
    }
    proof {
        if v.deep_view().contains(s@) {
            let k = choose|k: int| 0 <= k < v.deep_view().len() && v.deep_view()[k] == s@;
            assert(v.deep_view()[k] != s@);
        }
    }
    false
}

/// Inserts a name into a sorted, duplicate-free vector, keeping it so.
fn insert_sorted_unique(out: &mut Vec<String>, s: &str)
    requires
        sorted_unique(old(out).deep_view()),
    ensures
        sorted_unique(final(out).deep_view()),
        forall|x: Seq<char>|
            #[trigger] final(out).deep_view().contains(x) <==> old(out).deep_view().contains(x)
                || x == s@,
{
    let ghost odv = out.deep_view();
    let mut pos: usize = 0;
    while pos < out.len() && str_lt(out[pos].as_str(), s)
        invariant
            out.deep_view() == odv,
            out@.len() == odv.len(),
            pos <= odv.len(),
            forall|m: int| 0 <= m < pos ==> seq_str_lt(#[trigger] odv[m], s@),
        decreases odv.len() - pos,
    {
        proof {
            assert(odv[pos as int] == out@[pos as int]@);
        }
        pos += 1;
    }
    if pos < out.len() && str_eq(out[pos].as_str(), s) {
        proof {
            assert(odv[pos as int] == s@);
            assert(odv.contains(s@));
        }
        return ;
    }
    proof {
        if pos < odv.len() {
            lemma_str_lt_trichotomy(odv[pos as int], s@);
            assert(seq_str_lt(s@, odv[pos as int]));
        }
    }
    out.insert(pos, s.to_owned());
    proof {
        let p = pos as int;
        let elem = out@[p];
        old(out)@.insert_ensures(p, elem);
        let ndv = out.deep_view();
        assert(ndv.len() == odv.len() + 1);
        assert forall|i: int| 0 <= i < ndv.len() implies ndv[i] == (if i < p {
            odv[i]
        } else if i == p {
            s@
        } else {
            odv[i - 1]
        }) by {
            assert(ndv[i] == out@[i]@);
            if i < p {
                assert(out@[i] == old(out)@[i]);
            } else if i > p {
                assert(out@[i] == old(out)@[i - 1]);
            }
        }
        assert forall|i: int, j: int| 0 <= i < j < ndv.len() implies seq_str_lt(
            #[trigger] ndv[i],
            #[trigger] ndv[j],
        ) by {
            if j < p {
                assert(seq_str_lt(odv[i], odv[j]));
            } else if j == p {
                assert(seq_str_lt(odv[i], s@));
            } else if i < p {
                if j - 1 == p {
                    lemma_str_lt_trans(odv[i], s@, odv[p]);
                } else {
                    assert(seq_str_lt(odv[i], odv[j - 1]));
                }
            } else if i == p {
                if j - 1 == p {
                    assert(seq_str_lt(s@, odv[p]));
                } else {
                    lemma_str_lt_trans(s@, odv[p], odv[j - 1]);
                }
            } else {
                assert(seq_str_lt(odv[i - 1], odv[j - 1]));
            }
        }
        assert forall|x: Seq<char>|
            #[trigger] ndv.contains(x) <==> odv.contains(x) || x == s@ by {
            if ndv.contains(x) {
                let k = choose|k: int| 0 <= k < ndv.len() && ndv[k] == x;
                if k < p {
                    assert(odv[k] == x);
                    assert(odv.contains(x));
                } else if k > p {
                    assert(odv[k - 1] == x);
                    assert(odv.contains(x));
                }
            }
            if odv.contains(x) {
                let k = choose|k: int| 0 <= k < odv.len() && odv[k] == x;
                if k < p {
                    assert(ndv[k] == x);
                } else {
                    assert(ndv[k + 1] == x);
                }
                assert(ndv.contains(x));
            }
            if x == s@ {
                assert(ndv[p] == x);
                assert(ndv.contains(x));
            }
        }
    }
}

/// Two sorted, duplicate-free name lists with the same members are equal.
pub proof fn lemma_sorted_unique_ext(a: Seq<Seq<char>>, b: Seq<Seq<char>>)
    requires
        sorted_unique(a),
        sorted_unique(b),
        forall|x: Seq<char>| #[trigger] a.contains(x) <==> b.contains(x),
    ensures
        a == b,
    decreases a.len(),
{
    if a.len() == 0 {
        if b.len() > 0 {
            assert(b.contains(b[0]));
            assert(!a.contains(b[0]));
            assert(false);
        }
        assert(a =~= b);
    } else if b.len() == 0 {
        assert(a.contains(a[0]));
        assert(!b.contains(a[0]));
        assert(false);
    } else {
        assert(a.contains(a[0]));
        assert(b.contains(b[0]));
        assert(b.contains(a[0]));
        assert(a.contains(b[0]));
        let ka = choose|k: int| 0 <= k < b.len() && b[k] == a[0];
        let kb = choose|k: int| 0 <= k < a.len() && a[k] == b[0];
        assert(b[ka] == a[0]);
        assert(a[kb] == b[0]);
        if ka > 0 {
            assert(seq_str_lt(b[0], b[ka]));
        }
        if kb > 0 {
            assert(seq_str_lt(a[0], a[kb]));
        }
        if ka > 0 && kb > 0 {
            lemma_str_lt_trans(b[0], a[0], b[0]);
            lemma_str_lt_trichotomy(b[0], b[0]);
        }
        assert(a[0] == b[0]);
        let at = a.drop_first();
        let bt = b.drop_first();
        assert forall|i: int, j: int| 0 <= i < j < at.len() implies seq_str_lt(
            #[trigger] at[i],
            #[trigger] at[j],
        ) by {
            assert(at[i] == a[i + 1] && at[j] == a[j + 1]);
        }
        assert forall|i: int, j: int| 0 <= i < j < bt.len() implies seq_str_lt(
            #[trigger] bt[i],
            #[trigger] bt[j],
        ) by {
            assert(bt[i] == b[i + 1] && bt[j] == b[j + 1]);
        }
        assert forall|x: Seq<char>| #[trigger] at.contains(x) implies bt.contains(x) by {
            let k = choose|k: int| 0 <= k < at.len() && at[k] == x;
            assert(a[k + 1] == x);
            assert(a.contains(x));
            assert(b.contains(x));
            let m = choose|m: int| 0 <= m < b.len() && b[m] == x;
            assert(seq_str_lt(a[0], a[k + 1]));
            if m == 0 {
                lemma_str_lt_trichotomy(a[0], x);
            } else {
                assert(bt[m - 1] == x);
                assert(bt.contains(x));
            }
        }
        assert forall|x: Seq<char>| #[trigger] bt.contains(x) implies at.contains(x) by {
            let k = choose|k: int| 0 <= k < bt.len() && bt[k] == x;
            assert(b[k + 1] == x);
            assert(b.contains(x));
            assert(a.contains(x));
            let m = choose|m: int| 0 <= m < a.len() && a[m] == x;
            assert(seq_str_lt(b[0], b[k + 1]));
            if m == 0 {
                lemma_str_lt_trichotomy(b[0], x);
            } else {
                assert(at[m - 1] == x);
                assert(at.contains(x));
            }
        }
        lemma_sorted_unique_ext(at, bt);
        assert forall|i: int| 0 <= i < a.len() implies a[i] == b[i] by {
            if i > 0 {
                assert(a[i] == at[i - 1] && b[i] == bt[i - 1]);
            }
        }
        assert(a =~= b);
    }
}

/// Folding the same names into the field twice yields what folding them
/// once yields: the update is idempotent.
pub proof fn lemma_update_idempotent(
    a: Seq<Seq<char>>,
    n: Seq<Seq<char>>,
    r1: Seq<Seq<char>>,
    r2: Seq<Seq<char>>,
)
    requires
        merged_post(a, n, r1),
        merged_post(r1, n, r2),
    ensures
        r1 == r2,
{
    assert forall|x: Seq<char>| #[trigger] r1.contains(x) <==> r2.contains(x) by {
        assert(r1.contains(x) <==> a.contains(x) || n.contains(x));
        assert(r2.contains(x) <==> r1.contains(x) || n.contains(x));
    }
    lemma_sorted_unique_ext(r1, r2);
}

/// Folding sorted, deduplicated names into a document that had no field
/// yet, then folding them in again, changes nothing the second time.
pub proof fn lemma_fresh_update_idempotent(n: Seq<Seq<char>>, r2: Seq<Seq<char>>)
    requires
        sorted_unique(n),
        merged_post(n, n, r2),
    ensures
        r2 == n,
{
    lemma_sorted_unique_ext(r2, n);
}

/// The legacy plugin field of the configuration document, as the library
/// models it: absent, the historical delimited-string form, the array
/// form, or some other shape left untouched by removals.
pub enum LegacyPluginsField {
    Absent,
    Text(String),
    Items(Vec<String>),
    Other,
}

/// The token that marks a lock-recorded path as a plugin binary.
pub open spec fn plugins_path_token() -> Seq<char> {
    seq!['p', 'l', 'u', 'g', 'i', 'n', 's']
}

/// The plugin name a lock-recorded file path contributes: the file name
/// with its `.dll` then `.so` suffixes stripped — provided the name has a
/// library suffix and the path passes through a plugins directory.
pub open spec fn binary_name_of_path(p: Seq<char>) -> Option<Seq<char>> {
    let name = spec_file_name(p);
    if (seq_ends_with(name, dll_suffix()) || seq_ends_with(name, so_suffix())) && seq_contains(
        p,
        plugins_path_token(),
    ) {
        Option::Some(strip_all(strip_all(name, dll_suffix()), so_suffix()))
    } else {
        Option::None
    }
}

/// A name contributed by some plugin-targeted lock entry.
pub open spec fn lock_plugin_name(
    lv: Seq<(Seq<char>, Seq<char>, Option<PackageTarget>, Seq<Seq<char>>)>,
    x: Seq<char>,
) -> bool {
    exists|i: int, j: int|
        #![trigger lv[i].3[j]]
        0 <= i < lv.len() && lv[i].2 == Option::Some(PackageTarget::Plugins) && 0 <= j
            < lv[i].3.len() && binary_name_of_path(lv[i].3[j]) == Option::Some(x)
}

/// Like `lock_plugin_name`, restricted to entries before `ei`, and within
/// entry `ei` to files before `fj`.
pub open spec fn lock_plugin_name_upto(
    lv: Seq<(Seq<char>, Seq<char>, Option<PackageTarget>, Seq<Seq<char>>)>,
    ei: int,
    fj: int,
    x: Seq<char>,
) -> bool {
    exists|i: int, j: int|
        #![trigger lv[i].3[j]]
        0 <= i < lv.len() && (i < ei || (i == ei && j < fj)) && lv[i].2 == Option::Some(
            PackageTarget::Plugins,
        ) && 0 <= j < lv[i].3.len() && binary_name_of_path(lv[i].3[j]) == Option::Some(x)
}

/// Reconciles the legacy plugin configuration against the lock.
pub struct ConfigManager {
    pub workspace_root: String,
    pub config_path: String,
}

impl ConfigManager {
    /// The manager for a workspace; the document it maintains is the
    /// workspace's `config.json`.
    pub fn new(workspace_root: &str) -> (r: Self)
        ensures
            r.workspace_root@ == workspace_root@,
            r.config_path@ == spec_path_join(workspace_root@, "config.json"@),
    {
        let config_path = path_join(workspace_root, "config.json");
        ConfigManager { workspace_root: workspace_root.to_owned(), config_path }
    }

    /// The plugin name one lock-recorded path contributes, if any.
    pub fn extract_binary_name_from_path(&self, file_path: &str) -> (r: Option<String>)
        ensures
            r is Some <==> binary_name_of_path(file_path@) is Some,
            r matches Some(n) ==> Option::Some(n@) == binary_name_of_path(file_path@),
    {
        let name = path_file_name(file_path);
        proof {
            reveal_strlit(".dll");
            reveal_strlit(".so");
            reveal_strlit("plugins");
            assert((".dll"@) =~= dll_suffix());
            assert((".so"@) =~= so_suffix());
            assert(("plugins"@) =~= plugins_path_token());
        }
        if (str_ends_with(name.as_str(), ".dll") || str_ends_with(name.as_str(), ".so"))
            && str_contains(file_path, "plugins") {
            let stripped = strip_all_suffix(name.as_str(), ".dll");
            let out = strip_all_suffix(stripped.as_str(), ".so");
            Some(out)
        } else {
            None
        }
    }

    /// Every plugin name the lock's plugin-targeted entries contribute,
    /// sorted and deduplicated.
    pub fn extract_legacy_plugin_names(&self, lock: &PackageLock) -> (r: Vec<String>)
        ensures
            sorted_unique(r.deep_view()),
            forall|x: Seq<char>|
                #[trigger] r.deep_view().contains(x) <==> lock_plugin_name(lock@, x),
    {
        let mut out: Vec<String> = Vec::new();
        let ghost lv = lock@;
        let mut i: usize = 0;
        while i < lock.installed.len()
            invariant
                lv == lock@,
                lv.len() == lock.installed@.len(),
                i <= lv.len(),
                sorted_unique(out.deep_view()),
                forall|x: Seq<char>|
                    #[trigger] out.deep_view().contains(x) <==> lock_plugin_name_upto(
                        lv,
                        i as int,
                        0,
                        x,
                    ),
            decreases lv.len() - i,
        {
            let entry = &lock.installed[i];
            proof {
                assert(lv[i as int] == entry@);
            }
            let is_plugins = match entry.target {
                Some(PackageTarget::Plugins) => true,
                _ => false,
            };
            if is_plugins {
                let mut j: usize = 0;
                while j < entry.files.len()
                    invariant
                        lv == lock@,
                        lv.len() == lock.installed@.len(),
                        i < lv.len(),
                        lv[i as int] == lock.installed@[i as int]@,
                        entry == &lock.installed@[i as int],
                        entry@.2 == Option::Some(PackageTarget::Plugins),
                        j <= entry.files@.len(),
                        entry.files.deep_view() == lv[i as int].3,
                        sorted_unique(out.deep_view()),
                        forall|x: Seq<char>|
                            #[trigger] out.deep_view().contains(x) <==> lock_plugin_name_upto(
                                lv,
                                i as int,
                                j as int,
                                x,
                            ),
                    decreases entry.files@.len() - j,
                {
                    let ghost before = out.deep_view();
                    match self.extract_binary_name_from_path(entry.files[j].as_str()) {
                        Some(name) => {
                            insert_sorted_unique(&mut out, name.as_str());
                            proof {
                                assert(binary_name_of_path(lv[i as int].3[j as int])
                                    == Option::Some(name@));
                            }
                        },
                        None => {
                            proof {
                                assert(binary_name_of_path(lv[i as int].3[j as int]) is None);
                            }
                        },
                    }
                    proof {
                        assert forall|x: Seq<char>|
                            #[trigger] out.deep_view().contains(x) <==> lock_plugin_name_upto(
                                lv,
                                i as int,
                                j + 1,
                                x,
                            ) by {
                            if out.deep_view().contains(x) {
                                if before.contains(x) {
                                    let (a, b) = choose|a: int, b: int|
                                        #![trigger lv[a].3[b]]
                                        0 <= a < lv.len() && (a < i as int || (a == i as int && b
                                            < j as int)) && lv[a].2 == Option::Some(
                                            PackageTarget::Plugins,
                                        ) && 0 <= b < lv[a].3.len() && binary_name_of_path(
                                            lv[a].3[b],
                                        ) == Option::Some(x);
                                    assert(lock_plugin_name_upto(lv, i as int, j + 1, x));
                                } else {
                                    assert(binary_name_of_path(lv[i as int].3[j as int])
                                        == Option::Some(x));
                                    assert(lock_plugin_name_upto(lv, i as int, j + 1, x));
                                }
                            }
                            if lock_plugin_name_upto(lv, i as int, j + 1, x) {
                                let (a, b) = choose|a: int, b: int|
                                    #![trigger lv[a].3[b]]
                                    0 <= a < lv.len() && (a < i as int || (a == i as int && b < j
                                        + 1)) && lv[a].2 == Option::Some(PackageTarget::Plugins)
                                        && 0 <= b < lv[a].3.len() && binary_name_of_path(
                                        lv[a].3[b],
                                    ) == Option::Some(x);
                                if a == i as int && b == j as int {
                                    assert(out.deep_view().contains(x));
                                } else {
                                    assert(lock_plugin_name_upto(lv, i as int, j as int, x));
                                    assert(before.contains(x));
                                    assert(out.deep_view().contains(x));
                                }
                            }
                        }
                    }
                    j += 1;
                }
                proof {
                    assert forall|x: Seq<char>|
                        lock_plugin_name_upto(lv, i as int, entry.files@.len() as int, x)
                            <==> lock_plugin_name_upto(lv, i + 1, 0, x) by {
                        if lock_plugin_name_upto(lv, i as int, entry.files@.len() as int, x) {
                            let (a, b) = choose|a: int, b: int|
                                #![trigger lv[a].3[b]]
                                0 <= a < lv.len() && (a < i as int || (a == i as int && b
                                    < entry.files@.len() as int)) && lv[a].2 == Option::Some(
                                    PackageTarget::Plugins,
                                ) && 0 <= b < lv[a].3.len() && binary_name_of_path(lv[a].3[b])
                                    == Option::Some(x);
                            assert(lock_plugin_name_upto(lv, i + 1, 0, x));
                        }
                        if lock_plugin_name_upto(lv, i + 1, 0, x) {
                            let (a, b) = choose|a: int, b: int|
                                #![trigger lv[a].3[b]]
                                0 <= a < lv.len() && (a < i + 1) && lv[a].2 == Option::Some(
                                    PackageTarget::Plugins,
                                ) && 0 <= b < lv[a].3.len() && binary_name_of_path(lv[a].3[b])
                                    == Option::Some(x);
                            if a == i as int {
                                assert(lv[a].3.len() == entry.files@.len());
                            }
                            assert(lock_plugin_name_upto(
                                lv,
                                i as int,
                                entry.files@.len() as int,
                                x,
                            ));
                        }
                    }
                }
            } else {
                proof {
                    assert forall|x: Seq<char>|
                        lock_plugin_name_upto(lv, i as int, 0, x) <==> lock_plugin_name_upto(
                            lv,
                            i + 1,
                            0,
                            x,
                        ) by {
                        if lock_plugin_name_upto(lv, i + 1, 0, x) {
                            let (a, b) = choose|a: int, b: int|
                                #![trigger lv[a].3[b]]
                                0 <= a < lv.len() && (a < i + 1) && lv[a].2 == Option::Some(
                                    PackageTarget::Plugins,
                                ) && 0 <= b < lv[a].3.len() && binary_name_of_path(lv[a].3[b])
                                    == Option::Some(x);
                            assert(a != i as int);
                            assert(lock_plugin_name_upto(lv, i as int, 0, x));
                        }
                        if lock_plugin_name_upto(lv, i as int, 0, x) {
                            let (a, b) = choose|a: int, b: int|
                                #![trigger lv[a].3[b]]
                                0 <= a < lv.len() && (a < i as int) && lv[a].2 == Option::Some(
                                    PackageTarget::Plugins,
                                ) && 0 <= b < lv[a].3.len() && binary_name_of_path(lv[a].3[b])
                                    == Option::Some(x);
                            assert(lock_plugin_name_upto(lv, i + 1, 0, x));
                        }
                    }
                }
            }
            i += 1;
        }
        proof {
            assert forall|x: Seq<char>|
                lock_plugin_name_upto(lv, lv.len() as int, 0, x) <==> lock_plugin_name(lv, x) by {
                if lock_plugin_name(lv, x) {
                    let (a, b) = choose|a: int, b: int|
                        #![trigger lv[a].3[b]]
                        0 <= a < lv.len() && lv[a].2 == Option::Some(PackageTarget::Plugins) && 0
                            <= b < lv[a].3.len() && binary_name_of_path(lv[a].3[b])
                            == Option::Some(x);
                    assert(lock_plugin_name_upto(lv, lv.len() as int, 0, x));
                }
            }
        }
        out
    }

    /// The tokens of the legacy string form, trimmed, empties dropped.
    pub fn string_to_plugin_array(&self, existing: &str) -> (r: Vec<String>)
        ensures
            r.deep_view() == split_plugins(existing@),
    {
        let v = chars_of(existing);
        let n = v.len();
        proof {
            reveal_strlit(",");
            assert((","@) =~= seq![',']);
        }
        let comma = str_contains(existing, ",");
        let mut out: Vec<String> = Vec::new();
        let mut i: usize = 0;
        proof {
            assert(existing@.skip(0) =~= existing@);
            assert(out.deep_view() =~= Seq::<Seq<char>>::empty());
        }
        while i < n
            invariant
                v@ == existing@,
                n == existing@.len(),
                i <= n,
                comma == seq_contains(existing@, seq![',']),
                split_plugins_rec(existing@, comma) == out.deep_view() + split_plugins_rec(
                    existing@.skip(i as int),
                    comma,
                ),
            decreases n - i,
        {
            let ghost rem = existing@.skip(i as int);
            let sep_here = sep_exec(v[i], comma);
            if sep_here {
                proof {
                    assert(rem[0] == existing@[i as int]);
                    assert(token_len(rem, comma) == 0);
                    assert(rem.drop_first() =~= existing@.skip(i + 1));
                }
                i += 1;
            } else {
                let mut j: usize = i + 1;
                while j < n && !sep_exec(v[j], comma)
                    invariant
                        v@ == existing@,
                        n == existing@.len(),
                        i < j <= n,
                        forall|m: int| i <= m < j ==> !split_sep(#[trigger] existing@[m], comma),
                    decreases n - j,
                {
                    j += 1;
                }
                proof {
                    lemma_token_len(rem, comma);
                    let tl = token_len(rem, comma);
                    assert forall|m: int| 0 <= m < j - i implies !split_sep(
                        #[trigger] rem[m],
                        comma,
                    ) by {
                        assert(rem[m] == existing@[i + m]);
                    }
                    if tl < j - i {
                        assert(!split_sep(rem[tl], comma));
                    }
                    if tl > j - i {
                        if j < n {
                            assert(rem[j - i] == existing@[j as int]);
                        }
                    }
                    assert(tl == j - i);
                }
                let token = existing.substring_char(i, j);
                let trimmed = trim_str(token);
                proof {
                    let d = (j - i) as int;
                    assert(token@ =~= rem.take(d));
                    assert(rem.skip(d) =~= existing@.skip(j as int));
                }
                let ghost before = out.deep_view();
                let keep = trimmed.as_str().unicode_len() > 0;
                if keep {
                    out.push(trimmed);
                }
                proof {
                    let d = (j - i) as int;
                    let tok = trim_spaces(rem.take(d));
                    let rest = split_plugins_rec(existing@.skip(j as int), comma);
                    assert(split_plugins_rec(rem, comma) == (if tok.len() == 0 {
                        rest
                    } else {
                        seq![tok] + rest
                    }));
                    if tok.len() == 0 {
                        assert(out.deep_view() == before);
                    } else {
                        assert(out.deep_view() =~= before.push(tok));
                        assert(before.push(tok) + rest =~= before + (seq![tok] + rest));
                    }
                }
                i = j;
            }
        }
        proof {
            assert(existing@.skip(n as int) =~= Seq::<char>::empty());
            assert(split_plugins_rec(existing@, comma) =~= out.deep_view());
        }
        out
    }

    /// The union of two name lists, sorted and deduplicated.
    pub fn merge_plugin_arrays(&self, existing: &Vec<String>, new_plugins: &Vec<String>) -> (r:
        Vec<String>)
        ensures
            merged_post(existing.deep_view(), new_plugins.deep_view(), r.deep_view()),
    {
        let mut out: Vec<String> = Vec::new();
        let mut i: usize = 0;
        proof {
            assert(out.deep_view() =~= Seq::<Seq<char>>::empty());
        }
        while i < existing.len()
            invariant
                i <= existing@.len(),
                sorted_unique(out.deep_view()),
                forall|x: Seq<char>|
                    #[trigger] out.deep_view().contains(x) <==> (exists|j: int|
                        0 <= j < i && #[trigger] existing.deep_view()[j] == x),
            decreases existing@.len() - i,
        {
            insert_sorted_unique(&mut out, existing[i].as_str());
            proof {
                assert(existing.deep_view()[i as int] == existing@[i as int]@);
            }
            i += 1;
        }
        let mut k: usize = 0;
        while k < new_plugins.len()
            invariant
                k <= new_plugins@.len(),
                sorted_unique(out.deep_view()),
                forall|x: Seq<char>|
                    #[trigger] out.deep_view().contains(x) <==> existing.deep_view().contains(x)
                        || (exists|j: int| 0 <= j < k && #[trigger] new_plugins.deep_view()[j] == x),
            decreases new_plugins@.len() - k,
        {
            insert_sorted_unique(&mut out, new_plugins[k].as_str());
            proof {
                assert(new_plugins.deep_view()[k as int] == new_plugins@[k as int]@);
            }
            k += 1;
        }
        out
    }

    /// `existing` with every name in `to_remove` dropped, order kept.
    pub fn remove_plugins_from_array(&self, existing: &Vec<String>, to_remove: &Vec<String>) -> (r:
        Vec<String>)
        ensures
            r.deep_view() == filtered(existing.deep_view(), to_remove.deep_view()),
    {
        let mut out: Vec<String> = Vec::new();
        let ghost edv = existing.deep_view();
        let mut i: usize = 0;
        proof {
            assert(edv.take(0) =~= Seq::<Seq<char>>::empty());
            assert(out.deep_view() =~= filtered(edv.take(0), to_remove.deep_view()));
        }
        while i < existing.len()
            invariant
                edv == existing.deep_view(),
                edv.len() == existing@.len(),
                i <= edv.len(),
                out.deep_view() == filtered(edv.take(i as int), to_remove.deep_view()),
            decreases edv.len() - i,
        {
            proof {
                assert(edv.take(i + 1).drop_last() =~= edv.take(i as int));
                assert(edv.take(i + 1).last() == edv[i as int]);
                assert(edv[i as int] == existing@[i as int]@);
            }
            if !vec_contains_str(to_remove, existing[i].as_str()) {
                out.push(existing[i].clone());
                proof {
                    assert(out.deep_view() =~= filtered(edv.take(i + 1), to_remove.deep_view()));
                }
            }
            i += 1;
        }
        proof {
            assert(edv.take(edv.len() as int) =~= edv);
        }
        out
    }

    /// Folds newly installed plugin names into the field: both historical
    /// shapes become the array form holding the sorted, deduplicated
    /// union; any other shape is replaced by the names themselves.
    pub fn apply_legacy_update(&self, current: &LegacyPluginsField, new_names: &Vec<String>) -> (r:
        LegacyPluginsField)
        ensures
            match current {
                LegacyPluginsField::Items(arr) => (r matches LegacyPluginsField::Items(out)
                    && merged_post(arr.deep_view(), new_names.deep_view(), out.deep_view())),
                LegacyPluginsField::Text(s) => (r matches LegacyPluginsField::Items(out)
                    && merged_post(split_plugins(s@), new_names.deep_view(), out.deep_view())),
                _ => (r matches LegacyPluginsField::Items(out) && out.deep_view()
                    == new_names.deep_view()),
            },
    {
        match current {
            LegacyPluginsField::Items(arr) => LegacyPluginsField::Items(
                self.merge_plugin_arrays(arr, new_names),
            ),
            LegacyPluginsField::Text(s) => {
                let existing = self.string_to_plugin_array(s.as_str());
                LegacyPluginsField::Items(self.merge_plugin_arrays(&existing, new_names))
            },
            _ => {
                let mut out: Vec<String> = Vec::new();
                let mut i: usize = 0;
                while i < new_names.len()
                    invariant
                        i <= new_names@.len(),
                        out@.len() == i,
                        forall|j: int| 0 <= j < i ==> out@[j]@ == #[trigger] new_names@[j]@,
                    decreases new_names@.len() - i,
                {
                    out.push(new_names[i].clone());
                    i += 1;
                }
                proof {
                    assert(out.deep_view() =~= new_names.deep_view());
                }
                LegacyPluginsField::Items(out)
            },
        }
    }

    /// Subtracts names from the field. An array or string form becomes the
    /// filtered array — or disappears entirely when nothing is left; any
    /// other shape is untouched.
    pub fn apply_legacy_removal(
        &self,
        current: &LegacyPluginsField,
        to_remove: &Vec<String>,
    ) -> (r: LegacyPluginsField)
        ensures
            match current {
                LegacyPluginsField::Items(arr) => ({
                    let f = filtered(arr.deep_view(), to_remove.deep_view());
                    if f.len() == 0 {
                        r is Absent
                    } else {
                        r matches LegacyPluginsField::Items(out) && out.deep_view() == f
                    }
                }),
                LegacyPluginsField::Text(s) => ({
                    let f = filtered(split_plugins(s@), to_remove.deep_view());
                    if f.len() == 0 {
                        r is Absent
                    } else {
                        r matches LegacyPluginsField::Items(out) && out.deep_view() == f
                    }
                }),
                LegacyPluginsField::Absent => r is Absent,
                LegacyPluginsField::Other => r is Other,
            },
    {
        match current {
            LegacyPluginsField::Items(arr) => {
                let out = self.remove_plugins_from_array(arr, to_remove);
                if out.len() == 0 {
                    LegacyPluginsField::Absent
                } else {
                    LegacyPluginsField::Items(out)
                }
            },
            LegacyPluginsField::Text(s) => {
                let existing = self.string_to_plugin_array(s.as_str());
                let out = self.remove_plugins_from_array(&existing, to_remove);
                if out.len() == 0 {
                    LegacyPluginsField::Absent
                } else {
                    LegacyPluginsField::Items(out)
                }
            },
            LegacyPluginsField::Absent => LegacyPluginsField::Absent,
            LegacyPluginsField::Other => LegacyPluginsField::Other,
        }
    }
}

} // verus!
