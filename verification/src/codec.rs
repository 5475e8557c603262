//! The text format the registry is persisted in, with a proved round
//! trip.
//!
//! Each record is written as two lines, alias first and path second,
//! one record after another. Inside a line, a backslash is written as
//! two backslashes and a newline as backslash-`n`, so arbitrary
//! aliases and paths survive unchanged. Decoding rejects malformed
//! escapes, text that does not end at a record boundary, and a
//! duplicated alias, so a decoded registry is always well formed.

use vstd::prelude::*;

use crate::registry::{distinct_names, lemma_map_of_contains, GitFindrConfig};
use crate::repo::{RepoData, RepoView};

verus! {

/// Relies on String::push: appends the given char to the end of this
/// String.
pub assume_specification[ String::push ](s: &mut String, ch: char)
    ensures
        final(s)@ == old(s)@.push(ch),
;

/// How one character is written inside a line: `\` and the newline are
/// escaped, everything else stands for itself.
pub open spec fn esc_char(c: char) -> Seq<char> {
    if c == '\\' {
        seq!['\\', '\\']
    } else if c == '\n' {
        seq!['\\', 'n']
    } else {
        seq![c]
    }
}

/// How a whole field (an alias or a path) is written, character by
/// character.
pub open spec fn esc(s: Seq<char>) -> Seq<char>
    decreases s.len(),
{
    if s.len() == 0 {
        Seq::empty()
    } else {
        esc_char(s[0]) + esc(s.drop_first())
    }
}

/// How one record is written: the escaped alias, a newline, the
/// escaped path, a newline.
pub open spec fn enc_record(r: RepoView) -> Seq<char> {
    esc(r.name) + seq!['\n'] + esc(r.path) + seq!['\n']
}

/// How a sequence of records is written: one record after another.
pub open spec fn enc_records(rs: Seq<RepoView>) -> Seq<char>
    decreases rs.len(),
{
    if rs.len() == 0 {
        Seq::empty()
    } else {
        enc_record(rs[0]) + enc_records(rs.drop_first())
    }
}

/// Reads one field off the front of `s`: the unescaped text up to the
/// first unescaped newline, and what follows it. Nothing when the text
/// ends before a newline or an escape is malformed.
pub open spec fn parse_field(s: Seq<char>) -> Option<(Seq<char>, Seq<char>)>
    decreases s.len(),
{
    if s.len() == 0 {
        None
    } else if s[0] == '\n' {
        Some((Seq::empty(), s.drop_first()))
    } else if s[0] == '\\' {
        if s.len() >= 2 && (s[1] == '\\' || s[1] == 'n') {
            let c = if s[1] == '\\' {
                '\\'
            } else {
                '\n'
            };
            match parse_field(s.skip(2)) {
                Some(fr) => Some((seq![c] + fr.0, fr.1)),
                None => None,
            }
        } else {
            None
        }
    } else {
        match parse_field(s.drop_first()) {
            Some(fr) => Some((seq![s[0]] + fr.0, fr.1)),
            None => None,
        }
    }
}

/// A field takes at least one character off the text.
pub proof fn lemma_parse_field_shrinks(s: Seq<char>)
    ensures
        parse_field(s) matches Some(fr) ==> fr.1.len() < s.len(),
    decreases s.len(),
{
    if s.len() != 0 && s[0] != '\n' {
        if s[0] == '\\' {
            if s.len() >= 2 && (s[1] == '\\' || s[1] == 'n') {
                lemma_parse_field_shrinks(s.skip(2));
            }
        } else {
            lemma_parse_field_shrinks(s.drop_first());
        }
    }
}

/// Reads all records off `s`: alias field, path field, repeatedly,
/// until the text is exhausted. Nothing when any field is malformed or
/// the text stops mid-record.
pub open spec fn parse_records(s: Seq<char>) -> Option<Seq<RepoView>>
    decreases s.len(),
        via parse_records_decreases
{
    if s.len() == 0 {
        Some(Seq::empty())
    } else {
        match parse_field(s) {
            None => None,
            Some(nf) => match parse_field(nf.1) {
                None => None,
                Some(pf) => match parse_records(pf.1) {
                    None => None,
                    Some(rest) => Some(seq![RepoView { name: nf.0, path: pf.0 }] + rest),
                },
            },
        }
    }
}

#[via_fn]
proof fn parse_records_decreases(s: Seq<char>) {
    if s.len() != 0 {
        lemma_parse_field_shrinks(s);
        if let Some(nf) = parse_field(s) {
            lemma_parse_field_shrinks(nf.1);
        }
    }
}

/// Appends the escaped form of `s` and a closing newline to `out`.
fn encode_field(out: &mut String, s: &str)
    ensures
        final(out)@ == old(out)@ + esc(s@) + seq!['\n'],
{
    let ghost base = out@;
    let n = s.unicode_len();
    let mut i: usize = 0;
    proof {
        assert(s@.take(0) =~= Seq::<char>::empty());
        assert(base + esc(s@.take(0)) =~= base);
    }
    while i < n
        invariant
            i <= n == s@.len(),
            out@ == base + esc(s@.take(i as int)),
        decreases n - i,
    {
        let ghost before = out@;
        let c = s.get_char(i);
        if c == '\\' {
            out.push('\\');
            out.push('\\');
        } else if c == '\n' {
            out.push('\\');
            out.push('n');
        } else {
            out.push(c);
        }
        proof {
            assert(out@ =~= before + esc_char(s@[i as int]));
            lemma_esc_push(s@.take(i as int), s@[i as int]);
            assert(s@.take(i as int).push(s@[i as int]) =~= s@.take(i as int + 1));
            assert(out@ =~= base + esc(s@.take(i as int + 1)));
        }
        i = i + 1;
    }
    proof {
        assert(s@.take(n as int) =~= s@);
    }
    out.push('\n');
    proof {
        assert(out@ =~= base + esc(s@) + seq!['\n']);
    }
}

/// Escaping one more character appends that character's escape.
proof fn lemma_esc_push(s: Seq<char>, c: char)
    ensures
        esc(s.push(c)) == esc(s) + esc_char(c),
    decreases s.len(),
{
    if s.len() == 0 {
        assert(s.push(c)[0] == c);
        assert(s.push(c).drop_first() =~= s);
        assert(esc(s.push(c)) == esc_char(c) + esc(s));
        assert(esc_char(c) + esc(s) =~= esc(s) + esc_char(c));
    } else {
        lemma_esc_push(s.drop_first(), c);
        assert(s.push(c).drop_first() =~= s.drop_first().push(c));
        assert(s.push(c).len() > 0);
        assert(s.push(c)[0] == s[0]);
        assert(esc(s.push(c)) == esc_char(s[0]) + esc(s.drop_first().push(c)));
        assert(esc(s.drop_first().push(c)) == esc(s.drop_first()) + esc_char(c));
        assert(esc(s) == esc_char(s[0]) + esc(s.drop_first()));
        assert((esc_char(s[0]) + esc(s.drop_first())) + esc_char(c) =~= esc_char(s[0]) + (esc(
            s.drop_first(),
        ) + esc_char(c)));
        assert(esc(s.push(c)) == esc(s) + esc_char(c));
    }
}

/// Writing one more record appends that record's encoding.
proof fn lemma_enc_records_push(rs: Seq<RepoView>, r: RepoView)
    ensures
        enc_records(rs.push(r)) == enc_records(rs) + enc_record(r),
    decreases rs.len(),
{
    if rs.len() == 0 {
        assert(rs.push(r)[0] == r);
        assert(rs.push(r).drop_first() =~= rs);
        assert(enc_records(rs.push(r)) == enc_record(r) + enc_records(rs));
        assert(enc_record(r) + enc_records(rs) =~= enc_records(rs) + enc_record(r));
    } else {
        lemma_enc_records_push(rs.drop_first(), r);
        assert(rs.push(r).drop_first() =~= rs.drop_first().push(r));
        assert(rs.push(r).len() > 0);
        assert(rs.push(r)[0] == rs[0]);
        assert(enc_records(rs.push(r)) == enc_record(rs[0]) + enc_records(rs.drop_first().push(r)));
        assert(enc_records(rs.drop_first().push(r)) == enc_records(rs.drop_first()) + enc_record(
            r,
        ));
        assert(enc_records(rs) == enc_record(rs[0]) + enc_records(rs.drop_first()));
        assert((enc_record(rs[0]) + enc_records(rs.drop_first())) + enc_record(r) =~= enc_record(
            rs[0],
        ) + (enc_records(rs.drop_first()) + enc_record(r)));
        assert(enc_records(rs.push(r)) == enc_records(rs) + enc_record(r));
    }
}

/// Writes the registry out in the persisted text format.
pub fn encode_registry(cfg: &GitFindrConfig) -> (r: String)
    ensures
        r@ == enc_records(cfg.records()),
{
    let mut out = String::new();
    let n = cfg.repos.len();
    let mut i: usize = 0;
    proof {
        assert(cfg.records().take(0) =~= Seq::<RepoView>::empty());
    }
    while i < n
        invariant
            i <= n == cfg.repos.len(),
            out@ == enc_records(cfg.records().take(i as int)),
        decreases n - i,
    {
        let ghost before_records = cfg.records().take(i as int);
        encode_field(&mut out, cfg.repos[i].name.as_str());
        encode_field(&mut out, cfg.repos[i].path.as_str());
        proof {
            let rv = cfg.records()[i as int];
            assert(out@ =~= enc_records(before_records) + enc_record(rv));
            lemma_enc_records_push(before_records, rv);
            assert(before_records.push(rv) =~= cfg.records().take(i as int + 1));
        }
        i = i + 1;
    }
    proof {
        assert(cfg.records().take(n as int) =~= cfg.records());
    }
    out
}

/// Reads one field out of `s` starting at character `start`,
/// mirroring `parse_field` on the remaining text.
fn parse_field_at(s: &str, start: usize) -> (r: Option<(String, usize)>)
    requires
        start <= s@.len(),
    ensures
        match r {
            Some(fj) => start < fj.1 <= s@.len() && parse_field(s@.skip(start as int)) == Some(
                (fj.0@, s@.skip(fj.1 as int)),
            ),
            None => parse_field(s@.skip(start as int)) is None,
        },
{
    let n = s.unicode_len();
    let mut i: usize = start;
    let mut acc = String::new();
    while i < n
        invariant
            start <= i <= n == s@.len(),
            match parse_field(s@.skip(i as int)) {
                Some(fr) => parse_field(s@.skip(start as int)) == Some((acc@ + fr.0, fr.1)),
                None => parse_field(s@.skip(start as int)) is None,
            },
        decreases n - i,
    {
        let ghost rem = s@.skip(i as int);
        proof {
            assert(rem.len() == n - i);
            assert(rem[0] == s@[i as int]);
        }
        let c = s.get_char(i);
        if c == '\n' {
            proof {
                assert(rem.drop_first() =~= s@.skip(i as int + 1));
                assert(parse_field(rem) == Some(
                    (Seq::<char>::empty(), s@.skip(i as int + 1)),
                ));
                assert(acc@ + Seq::<char>::empty() =~= acc@);
            }
            return Some((acc, i + 1));
        } else if c == '\\' {
            if i + 1 == n {
                proof {
                    assert(rem.len() == 1);
                    assert(parse_field(rem) is None);
                }
                return None;
            }
            let ghost acc0 = acc@;
            let c2 = s.get_char(i + 1);
            proof {
                assert(rem[1] == s@[i as int + 1]);
            }
            if c2 == '\\' {
                acc.push('\\');
            } else if c2 == 'n' {
                acc.push('\n');
            } else {
                proof {
                    assert(parse_field(rem) is None);
                }
                return None;
            }
            proof {
                let u = if c2 == '\\' {
                    '\\'
                } else {
                    '\n'
                };
                assert(acc@ =~= acc0.push(u));
                assert(rem.skip(2) =~= s@.skip(i as int + 2));
                match parse_field(s@.skip(i as int + 2)) {
                    Some(fr) => {
                        assert(parse_field(rem) == Some((seq![u] + fr.0, fr.1)));
                        assert(acc0 + (seq![u] + fr.0) =~= acc0.push(u) + fr.0);
                    },
                    None => {
                        assert(parse_field(rem) is None);
                    },
                }
            }
            i = i + 2;
        } else {
            let ghost acc0 = acc@;
            acc.push(c);
            proof {
                assert(rem.drop_first() =~= s@.skip(i as int + 1));
                match parse_field(s@.skip(i as int + 1)) {
                    Some(fr) => {
                        assert(parse_field(rem) == Some((seq![rem[0]] + fr.0, fr.1)));
                        assert(acc0 + (seq![c] + fr.0) =~= acc0.push(c) + fr.0);
                    },
                    None => {
                        assert(parse_field(rem) is None);
                    },
                }
            }
            i = i + 1;
        }
    }
    proof {
        assert(s@.skip(i as int).len() == 0);
        assert(parse_field(s@.skip(i as int)) is None);
    }
    None
}

/// Reads a registry back from the persisted text format. Succeeds
/// exactly when the text parses as a record list with no duplicated
/// alias; the decoded registry holds exactly the parsed records and is
/// well formed.
pub fn decode_registry(s: &str) -> (r: Option<GitFindrConfig>)
    ensures
        match r {
            Some(cfg) => parse_records(s@) == Some(cfg.records()) && cfg.wf(),
            None => parse_records(s@) is None || (parse_records(s@) matches Some(rs)
                && !distinct_names(rs)),
        },
{
    let n = s.unicode_len();
    let mut cfg = GitFindrConfig::default();
    let mut i: usize = 0;
    proof {
        assert(s@.skip(0) =~= s@);
        if let Some(rest) = parse_records(s@) {
            assert(cfg.records() + rest =~= rest);
        }
    }
    while i < n
        invariant
            i <= n == s@.len(),
            cfg.wf(),
            match parse_records(s@.skip(i as int)) {
                Some(rest) => parse_records(s@) == Some(cfg.records() + rest),
                None => parse_records(s@) is None,
            },
        decreases n - i,
    {
        let ghost rem = s@.skip(i as int);
        let name_parse = parse_field_at(s, i);
        let (name, j) = match name_parse {
            Some(fj) => fj,
            None => {
                proof {
                    assert(parse_records(rem) is None);
                }
                return None;
            },
        };
        let path_parse = parse_field_at(s, j);
        let (path, k) = match path_parse {
            Some(fj) => fj,
            None => {
                proof {
                    assert(parse_records(rem) is None);
                }
                return None;
            },
        };
        let record = RepoData { name, path };
        let ghost rv = record@;
        let ghost records_before = cfg.records();
        proof {
            assert(parse_records(rem) == match parse_records(s@.skip(k as int)) {
                None => None::<Seq<RepoView>>,
                Some(rest) => Some(seq![rv] + rest),
            });
        }
        match cfg.add_repo(record) {
            Ok(_) => {
                proof {
                    if let Some(rest2) = parse_records(s@.skip(k as int)) {
                        assert(records_before + (seq![rv] + rest2) =~= cfg.records() + rest2);
                    }
                }
            },
            Err(_) => {
                proof {
                    lemma_map_of_contains(records_before, rv.name);
                    let w = choose|w: int|
                        0 <= w < records_before.len() && records_before[w].name == rv.name;
                    if let Some(rest2) = parse_records(s@.skip(k as int)) {
                        let rs = records_before + (seq![rv] + rest2);
                        assert(rs[w].name == rv.name);
                        assert(rs[records_before.len() as int].name == rv.name);
                        assert(!distinct_names(rs));
                    }
                }
                return None;
            },
        }
        i = k;
    }
    proof {
        assert(s@.skip(i as int).len() == 0);
        assert(parse_records(s@.skip(i as int)) == Some(Seq::<RepoView>::empty()));
        assert(cfg.records() + Seq::<RepoView>::empty() =~= cfg.records());
    }
    Some(cfg)
}

/// A field's encoding, closed by its newline, reads back as exactly
/// that field, leaving the rest of the text untouched.
proof fn lemma_parse_esc(f: Seq<char>, rest: Seq<char>)
    ensures
        parse_field(esc(f) + seq!['\n'] + rest) == Some((f, rest)),
    decreases f.len(),
{
    let s = esc(f) + seq!['\n'] + rest;
    if f.len() == 0 {
        assert(s[0] == '\n');
        assert(s.drop_first() =~= rest);
        assert(parse_field(s) == Some((Seq::<char>::empty(), rest)));
        assert(Seq::<char>::empty() =~= f);
    } else {
        let c = f[0];
        lemma_parse_esc(f.drop_first(), rest);
        let tail = esc(f.drop_first()) + seq!['\n'] + rest;
        assert(esc(f) == esc_char(c) + esc(f.drop_first()));
        if c == '\\' || c == '\n' {
            let u: char = if c == '\\' {
                '\\'
            } else {
                'n'
            };
            assert(esc_char(c) =~= seq!['\\', u]);
            assert(s.len() >= 2);
            assert(s[0] == '\\');
            assert(s[1] == u);
            assert(s.skip(2) =~= tail);
            assert(parse_field(s) == Some((seq![c] + f.drop_first(), rest)));
            assert(seq![c] + f.drop_first() =~= f);
        } else {
            assert(esc_char(c) =~= seq![c]);
            assert(s[0] == c);
            assert(s.drop_first() =~= tail);
            assert(parse_field(s) == Some((seq![c] + f.drop_first(), rest)));
            assert(seq![c] + f.drop_first() =~= f);
        }
    }
}

/// Law: the persisted form of any record list reads back as exactly
/// that list. Together with the contracts of `encode_registry` and
/// `decode_registry`, storing a well-formed registry and loading it
/// again yields a registry with the same aliases and the same
/// alias-to-path pairs.
pub proof fn lemma_encode_decode_roundtrip(rs: Seq<RepoView>)
    ensures
        parse_records(enc_records(rs)) == Some(rs),
    decreases rs.len(),
{
    if rs.len() == 0 {
        assert(enc_records(rs).len() == 0);
    } else {
        let r0 = rs[0];
        let rest_enc = enc_records(rs.drop_first());
        let s = enc_records(rs);
        let after_name = esc(r0.path) + seq!['\n'] + rest_enc;
        assert(s == enc_record(r0) + rest_enc);
        assert(s =~= esc(r0.name) + seq!['\n'] + after_name);
        lemma_parse_esc(r0.name, after_name);
        lemma_parse_esc(r0.path, rest_enc);
        lemma_encode_decode_roundtrip(rs.drop_first());
        assert(s.len() > 0);
        assert(parse_field(s) == Some((r0.name, after_name)));
        assert(parse_field(after_name) == Some((r0.path, rest_enc)));
        assert(parse_records(s) == Some(
            seq![RepoView { name: r0.name, path: r0.path }] + rs.drop_first(),
        ));
        assert(RepoView { name: r0.name, path: r0.path } == r0);
        assert(seq![r0] + rs.drop_first() =~= rs);
    }
}

} // verus!
