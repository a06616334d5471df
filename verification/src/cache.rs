//! The on-disk text format of the compiler-binary hash cache: a file name
//! on one line, its hash on the next behind a fixed prefix. The hashing
//! itself is an outside service; this module states exactly how the cache
//! text is read and rewritten. File reads and writes are the caller's work.

use vstd::prelude::*;

use crate::text::{
    chars_of, path_join, seq_starts_with, spec_path_join, str_eq, str_starts_with,
};

verus! {

/// The prefix that marks a hash line.
pub open spec fn hash_prefix() -> Seq<char> {
    seq!['a', 'r', 'g', 'o', 'n', '2', ':']
}

/// The length of the newline-free run at the front of `s`.
pub open spec fn line_run(s: Seq<char>) -> int
    decreases s.len(),
{
    if s.len() == 0 || s[0] == '\n' {
        0
    } else {
        1 + line_run(s.drop_first())
    }
}

pub proof fn lemma_line_run(s: Seq<char>)
    ensures
        0 <= line_run(s) <= s.len(),
        forall|i: int| 0 <= i < line_run(s) ==> #[trigger] s[i] != '\n',
        line_run(s) < s.len() ==> s[line_run(s)] == '\n',
    decreases s.len(),
{
    if s.len() == 0 || s[0] == '\n' {
    } else {
        lemma_line_run(s.drop_first());
        let lr = line_run(s);
        assert forall|i: int| 0 <= i < lr implies #[trigger] s[i] != '\n' by {
            if i > 0 {
                assert(s[i] == s.drop_first()[i - 1]);
            }
        }
        if lr < s.len() {
            assert(s[lr] == s.drop_first()[lr - 1]);
        }
    }
}

/// The lines of the cache text, split at `\n`; a trailing newline adds no
/// empty last line.
pub open spec fn split_lines(s: Seq<char>) -> Seq<Seq<char>>
    decreases s.len(),
{
    if s.len() == 0 {
        Seq::empty()
    } else {
        let d = line_run(s);
        if d < 0 || d >= s.len() {
            seq![s]
        } else {
            seq![s.take(d)] + split_lines(s.skip(d + 1))
        }
    }
}

/// The (file name, hash) entries the lines spell out: a hash line binds
/// the most recent file-name line; empty lines change nothing; a file
/// name without a following hash line yields no entry.
pub open spec fn cache_entries(
    lines: Seq<Seq<char>>,
    cur: Option<Seq<char>>,
) -> Seq<(Seq<char>, Seq<char>)>
    decreases lines.len(),
{
    if lines.len() == 0 {
        Seq::empty()
    } else {
        let l = lines.first();
        if seq_starts_with(l, hash_prefix()) {
            match cur {
                Option::Some(f) => seq![(f, l.skip(hash_prefix().len() as int))] + cache_entries(
                    lines.drop_first(),
                    Option::None,
                ),
                Option::None => cache_entries(lines.drop_first(), Option::None),
            }
        } else if l.len() == 0 {
            cache_entries(lines.drop_first(), cur)
        } else {
            cache_entries(lines.drop_first(), Option::Some(l))
        }
    }
}

/// The entries of a whole cache text.
pub open spec fn entries_of(content: Seq<char>) -> Seq<(Seq<char>, Seq<char>)> {
    cache_entries(split_lines(content), Option::None)
}

/// The hash the cache gives a file name: its first entry's.
pub open spec fn lookup_entries(
    entries: Seq<(Seq<char>, Seq<char>)>,
    name: Seq<char>,
) -> Option<Seq<char>>
    decreases entries.len(),
{
    if entries.len() == 0 {
        Option::None
    } else if entries.first().0 == name {
        Option::Some(entries.first().1)
    } else {
        lookup_entries(entries.drop_first(), name)
    }
}

/// The cache text that spells out `entries`, skipping entries for `skip`.
pub open spec fn rebuild_entries(
    entries: Seq<(Seq<char>, Seq<char>)>,
    skip: Seq<char>,
) -> Seq<char>
    decreases entries.len(),
{
    if entries.len() == 0 {
        Seq::empty()
    } else {
        let e = entries.first();
        let rest = rebuild_entries(entries.drop_first(), skip);
        if e.0 == skip {
            rest
        } else {
            e.0 + seq!['\n'] + hash_prefix() + e.1 + seq!['\n'] + rest
        }
    }
}

/// Manages the hash cache of one base directory.
pub struct CacheManager {
    pub cache_file: String,
}

impl CacheManager {
    /// The cache lives in `cache.txt` under the base directory.
    pub fn new(base_dir: &str) -> (r: Self)
        ensures
            r.cache_file@ == spec_path_join(base_dir@, "cache.txt"@),
    {
        CacheManager { cache_file: path_join(base_dir, "cache.txt") }
    }

    /// The cache text with one entry appended.
    pub fn append_entry(&self, existing: &str, filename: &str, hash: &str) -> (r: String)
        ensures
            r@ == existing@ + filename@ + seq!['\n'] + hash_prefix() + hash@ + seq!['\n'],
    {
        proof {
            reveal_strlit("\n");
            reveal_strlit("argon2:");
            assert(("\n"@) =~= seq!['\n']);
            assert(("argon2:"@) =~= hash_prefix());
        }
        let mut out = existing.to_owned();
        out.append(filename);
        out.append("\n");
        out.append("argon2:");
        out.append(hash);
        out.append("\n");
        out
    }

    /// Every entry of the cache text, in order.
    pub fn parse_entries(&self, content: &str) -> (r: Vec<(String, String)>)
        ensures
            r@.len() == entries_of(content@).len(),
            forall|i: int|
                0 <= i < r@.len() ==> ((#[trigger] r@[i]).0@, r@[i].1@) == entries_of(content@)[i],
    {
        let cs = chars_of(content);
        let n = cs.len();
        let mut out: Vec<(String, String)> = Vec::new();
        let mut cur: Option<String> = None;
        let mut i: usize = 0;
        let ghost whole = entries_of(content@);
        proof {
            assert(content@.skip(0) =~= content@);
        }
        while i < n
            invariant
                cs@ == content@,
                n == content@.len(),
                i <= n,
                whole == entries_of(content@),
                ({
                    let curv = match cur {
                        Option::Some(f) => Option::Some(f@),
                        Option::None => Option::<Seq<char>>::None,
                    };
                    whole == out@.map_values(|p: (String, String)| (p.0@, p.1@)) + cache_entries(
                        split_lines(content@.skip(i as int)),
                        curv,
                    )
                }),
            decreases n - i,
        {
            let ghost rem = content@.skip(i as int);
            // measure this line
            let mut j: usize = i;
            while j < n && cs[j] != '\n'
                invariant
                    cs@ == content@,
                    n == content@.len(),
                    i <= j <= n,
                    forall|m: int| i <= m < j ==> #[trigger] content@[m] != '\n',
                decreases n - j,
            {
                j += 1;
            }
            proof {
                lemma_line_run(rem);
                let lr = line_run(rem);
                assert forall|m: int| 0 <= m < j - i implies #[trigger] rem[m] != '\n' by {
                    assert(rem[m] == content@[i + m]);
                }
                if lr < j - i {
                    assert(rem[lr] != '\n');
                }
                if lr > j - i && j < n {
                    assert(rem[j - i] == content@[j as int]);
                }
                assert(lr == j - i);
            }
            let line = content.substring_char(i, j);
            proof {
                assert(line@ =~= rem.take((j - i) as int));
                if j < n {
                    assert(rem.skip((j - i) + 1) =~= content@.skip((j + 1) as int));
                    assert(split_lines(rem) =~= seq![line@] + split_lines(
                        content@.skip((j + 1) as int),
                    ));
                } else {
                    assert(line@ =~= rem);
                    assert(split_lines(rem) =~= seq![line@]);
                    assert(content@.skip(n as int) =~= Seq::<char>::empty());
                    assert(split_lines(rem) =~= seq![line@] + split_lines(
                        content@.skip(n as int),
                    ));
                }
            }
            proof {
                reveal_strlit("argon2:");
                assert(("argon2:"@) =~= hash_prefix());
            }
            let ghost old_map = out@.map_values(|p: (String, String)| (p.0@, p.1@));
            let ghost old_curv = (match cur {
                Option::Some(ref f) => Option::Some(f@),
                Option::None => Option::<Seq<char>>::None,
            });
            if str_starts_with(line, "argon2:") {
                let ln = line.unicode_len();
                let rest = line.substring_char(7, ln);
                proof {
                    assert(hash_prefix().len() == 7);
                    assert(rest@ =~= line@.skip(7));
                }
                match cur {
                    Some(f) => {
                        let ghost prev = out@.map_values(|p: (String, String)| (p.0@, p.1@));
                        let ghost fv = f@;
                        out.push((f, rest.to_owned()));
                        cur = None;
                        proof {
                            assert(out@.map_values(|p: (String, String)| (p.0@, p.1@))
                                =~= prev.push((fv, line@.skip(7))));
                        }
                    },
                    None => {
                        cur = None;
                    },
                }
            } else {
                let is_empty_line = line.unicode_len() == 0;
                if !is_empty_line {
                    cur = Some(line.to_owned());
                }
            }
            proof {
                let nexti: int = if j < n {
                    (j + 1) as int
                } else {
                    n as int
                };
                let lines = split_lines(rem);
                let next = split_lines(content@.skip(nexti));
                if j == n {
                    assert(content@.skip(n as int) =~= Seq::<char>::empty());
                }
                assert(lines =~= seq![line@] + next);
                assert(lines.len() > 0);
                assert(lines.first() == line@);
                assert(lines.drop_first() =~= next);
                let new_map = out@.map_values(|p: (String, String)| (p.0@, p.1@));
                let new_curv = (match cur {
                    Option::Some(ref f) => Option::Some(f@),
                    Option::None => Option::<Seq<char>>::None,
                });
                if seq_starts_with(line@, hash_prefix()) {
                    match old_curv {
                        Option::Some(fv) => {
                            assert(cache_entries(lines, old_curv) == seq![
                                (fv, line@.skip(7)),
                            ] + cache_entries(next, Option::None));
                            assert(old_map + (seq![(fv, line@.skip(7))] + cache_entries(
                                next,
                                Option::None,
                            )) =~= new_map + cache_entries(next, Option::None));
                        },
                        Option::None => {
                            assert(cache_entries(lines, old_curv) == cache_entries(
                                next,
                                Option::None,
                            ));
                        },
                    }
                } else if line@.len() == 0 {
                    assert(cache_entries(lines, old_curv) == cache_entries(next, old_curv));
                    assert(new_curv == old_curv);
                } else {
                    assert(cache_entries(lines, old_curv) == cache_entries(
                        next,
                        Option::Some(line@),
                    ));
                    assert(new_curv == Option::Some(line@));
                }
            }
            if j < n {
                i = j + 1;
            } else {
                i = n;
            }
        }
        proof {
            assert(content@.skip(n as int) =~= Seq::<char>::empty());
        }
        out
    }

    /// The hash recorded for a file, if any: the first entry's.
    pub fn lookup_hash(&self, content: &str, filename: &str) -> (r: Option<String>)
        ensures
            r is Some <==> lookup_entries(entries_of(content@), filename@) is Some,
            r matches Some(h) ==> Option::Some(h@) == lookup_entries(
                entries_of(content@),
                filename@,
            ),
    {
        let entries = self.parse_entries(content);
        let ghost whole = entries_of(content@);
        let mut i: usize = 0;
        proof {
            assert(whole.skip(0) =~= whole);
        }
        while i < entries.len()
            invariant
                whole == entries_of(content@),
                entries@.len() == whole.len(),
                forall|k: int|
                    0 <= k < whole.len() ==> ((#[trigger] entries@[k]).0@, entries@[k].1@)
                        == whole[k],
                i <= whole.len(),
                lookup_entries(whole, filename@) == lookup_entries(
                    whole.skip(i as int),
                    filename@,
                ),
            decreases whole.len() - i,
        {
            proof {
                assert(whole.skip(i as int).first() == whole[i as int]);
                assert(whole.skip(i as int).drop_first() =~= whole.skip(i + 1));
            }
            if str_eq(entries[i].0.as_str(), filename) {
                proof {
                    assert((entries@[i as int].0@, entries@[i as int].1@) == whole[i as int]);
                    assert(whole[i as int].0 == filename@);
                    assert(whole.skip(i as int).first() == whole[i as int]);
                    assert(lookup_entries(whole.skip(i as int), filename@) == Option::Some(
                        whole[i as int].1,
                    ));
                }
                return Some(entries[i].1.clone());
            }
            proof {
                assert((entries@[i as int].0@, entries@[i as int].1@) == whole[i as int]);
                assert(whole[i as int].0 != filename@);
            }
            i += 1;
        }
        proof {
            assert(whole.skip(whole.len() as int) =~= Seq::<(Seq<char>, Seq<char>)>::empty());
        }
        None
    }

    /// The cache text rewritten without any entry for `filename`.
    pub fn remove_entry(&self, content: &str, filename: &str) -> (r: String)
        ensures
            r@ == rebuild_entries(entries_of(content@), filename@),
    {
        let entries = self.parse_entries(content);
        let ghost whole = entries_of(content@);
        let mut out = String::new();
        let mut i: usize = 0;
        proof {
            assert(whole.skip(0) =~= whole);
            reveal_strlit("\n");
            reveal_strlit("argon2:");
            assert(("\n"@) =~= seq!['\n']);
            assert(("argon2:"@) =~= hash_prefix());
        }
        while i < entries.len()
            invariant
                entries@.len() == whole.len(),
                forall|k: int|
                    0 <= k < whole.len() ==> ((#[trigger] entries@[k]).0@, entries@[k].1@)
                        == whole[k],
                i <= whole.len(),
                whole == entries_of(content@),
                ("\n"@) == seq!['\n'],
                ("argon2:"@) == hash_prefix(),
                rebuild_entries(whole, filename@) == out@ + rebuild_entries(
                    whole.skip(i as int),
                    filename@,
                ),
            decreases whole.len() - i,
        {
            proof {
                assert(whole.skip(i as int).first() == whole[i as int]);
                assert(whole.skip(i as int).drop_first() =~= whole.skip(i + 1));
            }
            if !str_eq(entries[i].0.as_str(), filename) {
                out.append(entries[i].0.as_str());
                out.append("\n");
                out.append("argon2:");
                out.append(entries[i].1.as_str());
                out.append("\n");
            }
            i += 1;
        }
        proof {
            assert(whole.skip(whole.len() as int) =~= Seq::<(Seq<char>, Seq<char>)>::empty());
            assert(rebuild_entries(Seq::<(Seq<char>, Seq<char>)>::empty(), filename@)
                =~= Seq::<char>::empty());
        }
        out
    }
}

} // verus!
