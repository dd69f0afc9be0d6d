//! The line parser: one dependency-tree record of the form
//! `"<name> <version-token>|<comma-separated-features>|"` becomes a package
//! name, a semantic version, and a feature set.

use vstd::prelude::*;

use crate::error::FeatureError;
use crate::order::views;
use crate::order::sorted_strs;
use crate::order::sort_dedup_strings;
use crate::order::lemma_views_push;
use crate::version::Version;
use crate::version::semver_of;
use crate::version::parse_version;

verus! {

/// `i` is the first position of `c` in `s`.
pub open spec fn is_first(s: Seq<char>, c: char, i: int) -> bool {
    0 <= i < s.len() && s[i] == c && forall|j: int| 0 <= j < i ==> s[j] != c
}

/// The first position of `c` in `s` (meaningful only where `c` occurs).
pub open spec fn first_of(s: Seq<char>, c: char) -> int {
    choose|i: int| is_first(s, c, i)
}

/// The line holds a space and a delimiter, and its first space comes before
/// its first delimiter, so that the part left of the delimiter splits into a
/// name and a version remainder.
pub open spec fn line_shape_ok(s: Seq<char>) -> bool {
    exists|i: int, j: int| #[trigger] is_first(s, ' ', i) && #[trigger] is_first(s, '|', j) && i < j
}

/// The package name: everything before the line's first space.
pub open spec fn line_name(s: Seq<char>) -> Seq<char> {
    s.take(first_of(s, ' '))
}

/// Drops the leading run of spaces and version-prefix markers.
pub open spec fn strip_sv(s: Seq<char>) -> Seq<char>
    decreases s.len(),
{
    if s.len() > 0 && (s[0] == ' ' || s[0] == 'v') {
        strip_sv(s.skip(1))
    } else {
        s
    }
}

/// The version token: the version remainder between the first space and the
/// first delimiter, stripped of leading spaces and `v` markers, up to the
/// next space or the delimiter.
pub open spec fn line_version_token(s: Seq<char>) -> Seq<char> {
    let rem = s.subrange(first_of(s, ' '), first_of(s, '|'));
    let st = strip_sv(rem);
    if exists|i: int| is_first(st, ' ', i) {
        st.take(first_of(st, ' '))
    } else {
        st
    }
}

/// The feature names of a blob: delimiter characters are dropped, commas end
/// a name, and empty names are discarded. `acc` is the name read so far.
pub open spec fn blob_tokens(s: Seq<char>, acc: Seq<char>) -> Set<Seq<char>>
    decreases s.len(),
{
    if s.len() == 0 {
        if acc.len() > 0 {
            Set::empty().insert(acc)
        } else {
            Set::empty()
        }
    } else if s[0] == '|' {
        blob_tokens(s.skip(1), acc)
    } else if s[0] == ',' {
        let rest = blob_tokens(s.skip(1), Seq::empty());
        if acc.len() > 0 {
            rest.insert(acc)
        } else {
            rest
        }
    } else {
        blob_tokens(s.skip(1), acc.push(s[0]))
    }
}

/// The feature set of the line: the names of the blob that begins at the
/// first delimiter.
pub open spec fn line_features(s: Seq<char>) -> Set<Seq<char>> {
    blob_tokens(s.skip(first_of(s, '|')), Seq::empty())
}

/// The line parses: it has the required shape and its version token is a
/// semantic version.
pub open spec fn line_parses(s: Seq<char>) -> bool {
    line_shape_ok(s) && semver_of(line_version_token(s)) is Some
}

/// The loop relation of the feature scan: the line's full feature set is
/// what the rest of the blob yields from the name read so far, plus the
/// names already collected.
pub open spec fn feats_complete(
    full: Set<Seq<char>>,
    rest: Seq<char>,
    acc: Seq<char>,
    got: Seq<Seq<char>>,
    f: Seq<char>,
) -> bool {
    full.contains(f) <==> (blob_tokens(rest, acc).contains(f) || got.contains(f))
}

/// Any position that is first is the first position.
pub proof fn lemma_first_of_is(s: Seq<char>, c: char, i: int)
    requires
        is_first(s, c, i),
    ensures
        first_of(s, c) == i,
{
    let i0 = first_of(s, c);
    assert(is_first(s, c, i0));
    if i0 < i {
        assert(s[i0] != c);
    }
    if i < i0 {
        assert(s[i] != c);
    }
}

/// Stripping stops at the first position that is no space or `v` marker.
pub proof fn lemma_strip_sv_at(s: Seq<char>, k: int)
    requires
        0 <= k <= s.len(),
        forall|j: int| 0 <= j < k ==> (s[j] == ' ' || s[j] == 'v'),
        k < s.len() ==> !(s[k] == ' ' || s[k] == 'v'),
    ensures
        strip_sv(s) == s.skip(k),
    decreases k,
{
    if k == 0 {
        assert(s.skip(0) =~= s);
    } else {
        assert(s[0] == ' ' || s[0] == 'v');
        lemma_strip_sv_at(s.skip(1), k - 1);
        assert(s.skip(1).skip(k - 1) =~= s.skip(k));
    }
}

/// The first position of `c` in `s`, scanned left to right.
fn find_char(s: &str, c: char) -> (r: Option<usize>)
    ensures
        match r {
            Some(i) => is_first(s@, c, i as int),
            None => forall|j: int| 0 <= j < s@.len() ==> s@[j] != c,
        },
{
    let n = s.unicode_len();
    let mut i: usize = 0;
    while i < n
        invariant
            i <= n,
            n == s@.len(),
            forall|j: int| 0 <= j < i ==> s@[j] != c,
        decreases n - i,
    {
        if s.get_char(i) == c {
            return Some(i);
        }
        i = i + 1;
    }
    None
}

/// The end of the leading run of spaces and `v` markers in `s[from..to]`.
fn scan_while_sv(s: &str, from: usize, to: usize) -> (k: usize)
    requires
        from <= to <= s@.len(),
    ensures
        from <= k <= to,
        forall|j: int| from <= j < k ==> (s@[j] == ' ' || s@[j] == 'v'),
        k < to ==> !(s@[k as int] == ' ' || s@[k as int] == 'v'),
{
    let mut k: usize = from;
    while k < to
        invariant
            from <= k <= to <= s@.len(),
            forall|j: int| from <= j < k ==> (s@[j] == ' ' || s@[j] == 'v'),
        decreases to - k,
    {
        let c = s.get_char(k);
        if !(c == ' ' || c == 'v') {
            return k;
        }
        k = k + 1;
    }
    k
}

/// The position of the next space in `s[from..to]`, or `to`.
fn scan_until_space(s: &str, from: usize, to: usize) -> (k: usize)
    requires
        from <= to <= s@.len(),
    ensures
        from <= k <= to,
        forall|j: int| from <= j < k ==> s@[j] != ' ',
        k < to ==> s@[k as int] == ' ',
{
    let mut k: usize = from;
    while k < to
        invariant
            from <= k <= to <= s@.len(),
            forall|j: int| from <= j < k ==> s@[j] != ' ',
        decreases to - k,
    {
        if s.get_char(k) == ' ' {
            return k;
        }
        k = k + 1;
    }
    k
}

/// Parses one record: the name before the first space, the version token
/// after it, and the feature names between the delimiters. A line without
/// the space-then-delimiter shape is a line-format failure; a version token
/// that is no semantic version is a version-parse failure.
pub fn process_line(s: &str) -> (r: Result<(String, Version, Vec<String>), FeatureError>)
    ensures
        match r {
            Ok((name, version, feats)) => {
                &&& line_parses(s@)
                &&& name@ == line_name(s@)
                &&& semver_of(line_version_token(s@)) == Some(version@)
                &&& sorted_strs(views(feats@))
                &&& forall|f: Seq<char>|
                    #[trigger] views(feats@).contains(f) <==> line_features(s@).contains(f)
            },
            Err(e) => {
                &&& (e == FeatureError::LineFormatError || e == FeatureError::VersionParseError)
                &&& (e == FeatureError::LineFormatError <==> !line_shape_ok(s@))
                &&& (e == FeatureError::VersionParseError ==> line_shape_ok(s@) && semver_of(
                    line_version_token(s@),
                ) is None)
            },
        },
{
    let n = s.unicode_len();
    let space = find_char(s, ' ');
    let pipe = find_char(s, '|');
    let (fs, fp) = match (space, pipe) {
        (Some(fs), Some(fp)) => {
            if fs >= fp {
                proof {
                    assert forall|i: int, j: int|
                        !(#[trigger] is_first(s@, ' ', i) && #[trigger] is_first(s@, '|', j) && i
                            < j) by {
                        if is_first(s@, ' ', i) && is_first(s@, '|', j) {
                            lemma_first_of_is(s@, ' ', i);
                            lemma_first_of_is(s@, ' ', fs as int);
                            lemma_first_of_is(s@, '|', j);
                            lemma_first_of_is(s@, '|', fp as int);
                        }
                    }
                }
                return Err(FeatureError::LineFormatError);
            }
            (fs, fp)
        },
        (None, _) => {
            proof {
                assert forall|i: int, j: int|
                    !(#[trigger] is_first(s@, ' ', i) && #[trigger] is_first(s@, '|', j) && i
                        < j) by {
                    if is_first(s@, ' ', i) {
                        assert(s@[i] != ' ');
                    }
                }
            }
            return Err(FeatureError::LineFormatError);
        },
        (_, None) => {
            proof {
                assert forall|i: int, j: int|
                    !(#[trigger] is_first(s@, ' ', i) && #[trigger] is_first(s@, '|', j) && i
                        < j) by {
                    if is_first(s@, '|', j) {
                        assert(s@[j] != '|');
                    }
                }
            }
            return Err(FeatureError::LineFormatError);
        },
    };
    proof {
        lemma_first_of_is(s@, ' ', fs as int);
        lemma_first_of_is(s@, '|', fp as int);
        assert(line_shape_ok(s@));
    }
    // The name: everything before the first space.
    let name = s.substring_char(0, fs).to_owned();
    assert(name@ == line_name(s@));
    // The version remainder: strip leading spaces and `v` markers.
    let ghost rem = s@.subrange(fs as int, fp as int);
    let k = scan_while_sv(s, fs, fp);
    proof {
        assert forall|j: int| 0 <= j < k - fs implies (rem[j] == ' ' || rem[j] == 'v') by {
            assert(rem[j] == s@[fs + j]);
        }
        if k < fp {
            assert(rem[k - fs] == s@[k as int]);
        }
        lemma_strip_sv_at(rem, k - fs);
        assert(strip_sv(rem) =~= s@.subrange(k as int, fp as int));
    }
    // The version token: up to the next space or the delimiter.
    let vend = scan_until_space(s, k, fp);
    let ghost st = strip_sv(rem);
    proof {
        assert(st.len() == fp - k);
        if vend < fp {
            assert(s@[vend as int] == ' ');
            assert(st[vend - k] == s@[vend as int]);
            assert forall|j: int| 0 <= j < vend - k implies st[j] != ' ' by {
                assert(st[j] == s@[k + j]);
            }
            assert(is_first(st, ' ', vend - k));
            lemma_first_of_is(st, ' ', vend - k);
            assert(line_version_token(s@) =~= s@.subrange(k as int, vend as int));
        } else {
            assert forall|i: int| !is_first(st, ' ', i) by {
                if 0 <= i < st.len() {
                    assert(st[i] == s@[k + i]);
                }
            }
            assert(line_version_token(s@) =~= s@.subrange(k as int, vend as int));
        }
    }
    let vtok = s.substring_char(k, vend);
    let version = match parse_version(vtok) {
        Ok(v) => v,
        Err(_) => {
            return Err(FeatureError::VersionParseError);
        },
    };
    // The feature names: from the first delimiter to the end of the line.
    let mut feats: Vec<String> = Vec::new();
    let mut tok = String::new();
    let mut i: usize = fp;
    proof {
        assert(s@.skip(fp as int).skip(0) =~= s@.skip(fp as int));
    }
    while i < n
        invariant
            fp <= i <= n,
            n == s@.len(),
            tok@.len() <= i,
            forall|f: Seq<char>|
                #[trigger] feats_complete(
                    line_features(s@),
                    s@.skip(i as int),
                    tok@,
                    views(feats@),
                    f,
                ),
        decreases n - i,
    {
        let ghost pre_tok = tok@;
        let ghost pre_feats = feats@;
        let ghost tail = s@.skip(i as int);
        proof {
            assert(tail[0] == s@[i as int]);
            assert(tail.skip(1) =~= s@.skip(i + 1));
        }
        let c = s.get_char(i);
        if c == '|' {
            proof {
                assert(blob_tokens(tail, pre_tok) == blob_tokens(s@.skip(i + 1), pre_tok));
            }
        } else if c == ',' {
            if tok.as_str().unicode_len() > 0 {
                feats.push(tok);
                proof {
                    lemma_views_push(pre_feats, feats@[feats@.len() - 1]);
                    assert(blob_tokens(tail, pre_tok) == blob_tokens(
                        s@.skip(i + 1),
                        Seq::empty(),
                    ).insert(pre_tok));
                }
                tok = String::new();
                proof {
                    assert(tok@ =~= Seq::<char>::empty());
                }
            } else {
                proof {
                    assert(pre_tok =~= Seq::<char>::empty());
                    assert(blob_tokens(tail, pre_tok) == blob_tokens(s@.skip(i + 1), Seq::empty()));
                }
            }
        } else {
            let piece = s.substring_char(i, i + 1);
            proof {
                assert(piece@ =~= seq![s@[i as int]]);
            }
            tok.append(piece);
            proof {
                assert(tok@ =~= pre_tok.push(s@[i as int]));
                assert(blob_tokens(tail, pre_tok) == blob_tokens(
                    s@.skip(i + 1),
                    pre_tok.push(s@[i as int]),
                ));
            }
        }
        proof {
            assert forall|f: Seq<char>|
                #[trigger] feats_complete(
                    line_features(s@),
                    s@.skip(i + 1),
                    tok@,
                    views(feats@),
                    f,
                ) by {
                assert(feats_complete(
                    line_features(s@),
                    s@.skip(i as int),
                    pre_tok,
                    views(pre_feats),
                    f,
                ));
            }
        }
        i = i + 1;
    }
    proof {
        assert(s@.skip(n as int).len() == 0);
        assert(i == n);
    }
    let ghost pre_feats = feats@;
    let ghost last_tok = tok@;
    if tok.as_str().unicode_len() > 0 {
        feats.push(tok);
        proof {
            lemma_views_push(pre_feats, feats@[feats@.len() - 1]);
            assert(blob_tokens(s@.skip(n as int), last_tok) == Set::empty().insert(last_tok));
        }
    } else {
        proof {
            assert(blob_tokens(s@.skip(n as int), last_tok) == Set::<Seq<char>>::empty());
        }
    }
    assert forall|f: Seq<char>|
        views(feats@).contains(f) <==> line_features(s@).contains(f) by {
        assert(feats_complete(line_features(s@), s@.skip(i as int), last_tok, views(pre_feats), f));
    }
    let sorted = sort_dedup_strings(&feats);
    Ok((name, version, sorted))
}

} // verus!
