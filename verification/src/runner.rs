//! The per-platform analysis on the dependency-tree tool's output lines:
//! keep the informative lines, parse and resolve each, and accumulate one
//! feature set per package identity, unioning on repeats.

use vstd::prelude::*;

use crate::catalog::Package;
use crate::catalog::pviews;
use crate::catalog::pkg_matches;
use crate::catalog::find_package_id;
use crate::consolidate::key_present;
use crate::consolidate::same_members;
use crate::consolidate::unique_keys;
use crate::error::FeatureError;
use crate::line::line_parses;
use crate::line::line_shape_ok;
use crate::line::line_name;
use crate::line::line_version_token;
use crate::line::line_features;
use crate::line::process_line;
use crate::order::views;
use crate::order::contains_string;
use crate::order::lemma_take_plus_one;
use crate::order::lemma_views_push;
use crate::version::semver_of;

verus! {

/// A line that carries feature information: not empty, not a pure
/// de-duplication marker, and not one with an empty feature blob.
pub open spec fn line_kept(l: Seq<char>) -> bool {
    &&& l.len() > 0
    &&& !(l.len() >= 3 && l[l.len() - 3] == '(' && l[l.len() - 2] == '*' && l[l.len() - 1] == ')')
    &&& !(l.len() >= 2 && l[l.len() - 2] == '|' && l[l.len() - 1] == '|')
}

/// Whether the line is kept for parsing.
fn is_kept(l: &String) -> (r: bool)
    ensures
        r == line_kept(l@),
{
    let s = l.as_str();
    let n = s.unicode_len();
    if n == 0 {
        return false;
    }
    if n >= 3 && s.get_char(n - 3) == '(' && s.get_char(n - 2) == '*' && s.get_char(n - 1) == ')' {
        return false;
    }
    if n >= 2 && s.get_char(n - 2) == '|' && s.get_char(n - 1) == '|' {
        return false;
    }
    true
}

/// Keeps the informative lines and drops textual repeats: the result holds
/// each kept line once, whatever paths reached it in the graph.
pub fn filter_lines(lines: &Vec<String>) -> (r: Vec<String>)
    ensures
        forall|i: int, j: int| 0 <= i < j < r@.len() ==> views(r@)[i] != views(r@)[j],
        forall|l: Seq<char>|
            #[trigger] views(r@).contains(l) <==> (views(lines@).contains(l) && line_kept(l)),
{
    let mut r: Vec<String> = Vec::new();
    let mut i: usize = 0;
    while i < lines.len()
        invariant
            i <= lines@.len(),
            forall|p: int, q: int| 0 <= p < q < r@.len() ==> views(r@)[p] != views(r@)[q],
            forall|l: Seq<char>|
                #[trigger] views(r@).contains(l) <==> (views(lines@).take(i as int).contains(l)
                    && line_kept(l)),
        decreases lines@.len() - i,
    {
        proof {
            lemma_take_plus_one(views(lines@), i as int);
            assert(views(lines@)[i as int] == lines@[i as int]@);
        }
        if is_kept(&lines[i]) && !contains_string(&r, &lines[i]) {
            let ghost before = r@;
            r.push(lines[i].clone());
            proof {
                lemma_views_push(before, r@[r@.len() - 1]);
                assert forall|p: int, q: int|
                    0 <= p < q < r@.len() implies views(r@)[p] != views(r@)[q] by {
                    if q == r@.len() - 1 {
                        assert(views(before).contains(views(before)[p]));
                    }
                }
            }
        }
        i = i + 1;
    }
    proof {
        assert(views(lines@).take(lines@.len() as int) =~= views(lines@));
    }
    r
}

/// `k` is the first catalog entry matching the line's name and version.
pub open spec fn is_resolution(
    l: Seq<char>,
    ps: Seq<(Seq<char>, (int, int, int, Seq<char>, Seq<char>), Seq<char>)>,
    k: int,
) -> bool {
    &&& 0 <= k < ps.len()
    &&& (semver_of(line_version_token(l)) matches Some(v) && pkg_matches(ps[k], line_name(l), v)
        && forall|j: int| 0 <= j < k ==> !pkg_matches(#[trigger] ps[j], line_name(l), v))
}

/// The line parses and its (name, version) pair has a catalog match.
pub open spec fn resolves(
    l: Seq<char>,
    ps: Seq<(Seq<char>, (int, int, int, Seq<char>, Seq<char>), Seq<char>)>,
) -> bool {
    line_parses(l) && exists|k: int| is_resolution(l, ps, k)
}

/// The identity the line resolves to.
pub open spec fn resolved_id(
    l: Seq<char>,
    ps: Seq<(Seq<char>, (int, int, int, Seq<char>, Seq<char>), Seq<char>)>,
) -> Seq<char> {
    ps[choose|k: int| is_resolution(l, ps, k)].2
}

pub proof fn lemma_resolution_unique(
    l: Seq<char>,
    ps: Seq<(Seq<char>, (int, int, int, Seq<char>, Seq<char>), Seq<char>)>,
    k1: int,
    k2: int,
)
    requires
        is_resolution(l, ps, k1),
        is_resolution(l, ps, k2),
    ensures
        k1 == k2,
{
    let v = semver_of(line_version_token(l)).unwrap();
    if k1 < k2 {
        assert(!pkg_matches(ps[k1], line_name(l), v));
    }
    if k2 < k1 {
        assert(!pkg_matches(ps[k2], line_name(l), v));
    }
}

pub proof fn lemma_resolved_id_is(
    l: Seq<char>,
    ps: Seq<(Seq<char>, (int, int, int, Seq<char>, Seq<char>), Seq<char>)>,
    k: int,
)
    requires
        is_resolution(l, ps, k),
    ensures
        resolved_id(l, ps) == ps[k].2,
{
    let k0 = choose|k0: int| is_resolution(l, ps, k0);
    assert(is_resolution(l, ps, k0));
    lemma_resolution_unique(l, ps, k0, k);
}

/// Among the first `n` lines, one resolves to this identity.
pub open spec fn some_line_upto(
    ls: Seq<Seq<char>>,
    ps: Seq<(Seq<char>, (int, int, int, Seq<char>, Seq<char>), Seq<char>)>,
    id: Seq<char>,
    n: int,
) -> bool {
    exists|i: int|
        0 <= i < n && resolves(#[trigger] ls[i], ps) && resolved_id(ls[i], ps) == id
}

/// The union of the feature sets of the first `n` lines that resolve to this
/// identity.
pub open spec fn union_upto(
    ls: Seq<Seq<char>>,
    ps: Seq<(Seq<char>, (int, int, int, Seq<char>, Seq<char>), Seq<char>)>,
    id: Seq<char>,
    n: int,
) -> Set<Seq<char>> {
    Set::new(
        |f: Seq<char>|
            exists|i: int|
                0 <= i < n && resolves(#[trigger] ls[i], ps) && resolved_id(ls[i], ps) == id
                    && line_features(ls[i]).contains(f),
    )
}

/// Extending the scan by one line extends each identity's union by that
/// line's features, where the line resolves to it.
pub proof fn lemma_union_upto_step(
    ls: Seq<Seq<char>>,
    ps: Seq<(Seq<char>, (int, int, int, Seq<char>, Seq<char>), Seq<char>)>,
    id: Seq<char>,
    n: int,
)
    requires
        0 <= n < ls.len(),
    ensures
        forall|f: Seq<char>|
            #[trigger] union_upto(ls, ps, id, n + 1).contains(f) <==> (union_upto(
                ls,
                ps,
                id,
                n,
            ).contains(f) || (resolves(ls[n], ps) && resolved_id(ls[n], ps) == id && line_features(
                ls[n],
            ).contains(f))),
        some_line_upto(ls, ps, id, n + 1) <==> (some_line_upto(ls, ps, id, n) || (resolves(
            ls[n],
            ps,
        ) && resolved_id(ls[n], ps) == id)),
{
    assert forall|f: Seq<char>|
        #[trigger] union_upto(ls, ps, id, n + 1).contains(f) <==> (union_upto(
            ls,
            ps,
            id,
            n,
        ).contains(f) || (resolves(ls[n], ps) && resolved_id(ls[n], ps) == id && line_features(
            ls[n],
        ).contains(f))) by {
        if union_upto(ls, ps, id, n + 1).contains(f) {
            let i = choose|i: int|
                0 <= i < n + 1 && resolves(#[trigger] ls[i], ps) && resolved_id(ls[i], ps) == id
                    && line_features(ls[i]).contains(f);
            if i < n {
                assert(union_upto(ls, ps, id, n).contains(f));
            }
        }
        if union_upto(ls, ps, id, n).contains(f) {
            let i = choose|i: int|
                0 <= i < n && resolves(#[trigger] ls[i], ps) && resolved_id(ls[i], ps) == id
                    && line_features(ls[i]).contains(f);
            assert(union_upto(ls, ps, id, n + 1).contains(f));
        }
        if resolves(ls[n], ps) && resolved_id(ls[n], ps) == id && line_features(ls[n]).contains(
            f,
        ) {
            assert(union_upto(ls, ps, id, n + 1).contains(f));
        }
    }
    if some_line_upto(ls, ps, id, n + 1) {
        let i = choose|i: int|
            0 <= i < n + 1 && resolves(#[trigger] ls[i], ps) && resolved_id(ls[i], ps) == id;
        if i < n {
            assert(some_line_upto(ls, ps, id, n));
        }
    }
    if some_line_upto(ls, ps, id, n) {
        let i = choose|i: int|
            0 <= i < n && resolves(#[trigger] ls[i], ps) && resolved_id(ls[i], ps) == id;
        assert(0 <= i < n + 1 && resolves(ls[i], ps) && resolved_id(ls[i], ps) == id);
    }
    if resolves(ls[n], ps) && resolved_id(ls[n], ps) == id {
        assert(0 <= n < n + 1 && resolves(ls[n], ps) && resolved_id(ls[n], ps) == id);
    }
}

/// The position of an identity among the map's keys, if present.
fn assoc_position(m: &Vec<(String, Vec<String>)>, id: &String) -> (r: Option<usize>)
    ensures
        match r {
            Some(idx) => idx < m@.len() && m@[idx as int].0@ == id@,
            None => forall|k: int| 0 <= k < m@.len() ==> m@[k].0@ != id@,
        },
{
    let mut idx: usize = 0;
    while idx < m.len()
        invariant
            idx <= m@.len(),
            forall|k: int| 0 <= k < idx ==> m@[k].0@ != id@,
        decreases m@.len() - idx,
    {
        if crate::order::string_eq(&m[idx].0, id) {
            return Some(idx);
        }
        idx = idx + 1;
    }
    None
}

/// Parses and resolves every line and accumulates one feature set per
/// package identity. A repeated identity has its feature sets unioned. Any
/// line that fails aborts the whole map.
pub fn make_package_map(crates: &Vec<String>, packages: &Vec<Package>) -> (r: Result<
    Vec<(String, Vec<String>)>,
    FeatureError,
>)
    ensures
        match r {
            Ok(m) => {
                &&& unique_keys(m@)
                &&& forall|i: int| 0 <= i < crates@.len() ==> resolves(#[trigger] views(crates@)[i], pviews(packages@))
                &&& forall|id: Seq<char>|
                    #[trigger] key_present(m@, id) <==> some_line_upto(
                        views(crates@),
                        pviews(packages@),
                        id,
                        crates@.len() as int,
                    )
                &&& forall|k: int|
                    0 <= k < m@.len() ==> same_members(
                        views(#[trigger] m@[k].1@),
                        union_upto(
                            views(crates@),
                            pviews(packages@),
                            m@[k].0@,
                            crates@.len() as int,
                        ),
                    )
            },
            Err(e) => {
                &&& (exists|i: int|
                    0 <= i < crates@.len() && !resolves(
                        #[trigger] views(crates@)[i],
                        pviews(packages@),
                    ))
                &&& (e == FeatureError::LineFormatError ==> exists|i: int|
                    0 <= i < crates@.len() && !line_shape_ok(#[trigger] views(crates@)[i]))
                &&& (e == FeatureError::VersionParseError ==> exists|i: int|
                    0 <= i < crates@.len() && line_shape_ok(#[trigger] views(crates@)[i])
                        && semver_of(line_version_token(views(crates@)[i])) is None)
                &&& (e == FeatureError::LookupError ==> exists|i: int|
                    0 <= i < crates@.len() && line_parses(#[trigger] views(crates@)[i])
                        && !resolves(views(crates@)[i], pviews(packages@)))
                &&& (e == FeatureError::LineFormatError || e == FeatureError::VersionParseError
                    || e == FeatureError::LookupError)
            },
        },
{
    let ghost ls = views(crates@);
    let ghost ps = pviews(packages@);
    let mut m: Vec<(String, Vec<String>)> = Vec::new();
    let mut i: usize = 0;
    while i < crates.len()
        invariant
            i <= crates@.len(),
            ls == views(crates@),
            ps == pviews(packages@),
            unique_keys(m@),
            forall|x: int| 0 <= x < i ==> resolves(#[trigger] ls[x], ps),
            forall|id: Seq<char>|
                #[trigger] key_present(m@, id) <==> some_line_upto(ls, ps, id, i as int),
            forall|k: int|
                0 <= k < m@.len() ==> same_members(
                    views(#[trigger] m@[k].1@),
                    union_upto(ls, ps, m@[k].0@, i as int),
                ),
        decreases crates@.len() - i,
    {
        let ghost l = ls[i as int];
        proof {
            assert(ls[i as int] == crates@[i as int]@);
        }
        let (name, version, feats) = match process_line(crates[i].as_str()) {
            Ok(t) => t,
            Err(e) => {
                assert(!line_parses(l));
                assert(!resolves(l, ps));
                return Err(e);
            },
        };
        let id = match find_package_id(&name, &version, packages) {
            Ok(id) => id,
            Err(e) => {
                proof {
                    assert forall|k: int| !is_resolution(l, ps, k) by {
                        if 0 <= k < ps.len() {
                            assert(!pkg_matches(ps[k], line_name(l), version@));
                        }
                    }
                }
                return Err(e);
            },
        };
        proof {
            let k = choose|k: int|
                0 <= k < ps.len() && pkg_matches(#[trigger] ps[k], name@, version@) && id@
                    == ps[k].2 && (forall|j: int|
                    0 <= j < k ==> !pkg_matches(#[trigger] ps[j], name@, version@));
            assert(is_resolution(l, ps, k));
            assert(resolves(l, ps));
            lemma_resolved_id_is(l, ps, k);
            assert(resolved_id(l, ps) == id@);
        }
        // Fold the line into the map: union on a repeated identity.
        let pos = assoc_position(&m, &id);
        let ghost mold = m@;
        let ghost fseq = feats@;
        let ghost inew = i + 1;
        match pos {
            Some(idx) => {
                assert(mold[idx as int].0@ == id@);
                let mut pair = m.remove(idx);
                let mut extra = feats;
                let ghost oldlist = pair.1@;
                pair.1.append(&mut extra);
                proof {
                    crate::order::lemma_views_append(oldlist, fseq);
                }
                m.push(pair);
                proof {
                    let idx_ = idx as int;
                    let last = m@.len() - 1;
                    assert(m@.len() == mold.len());
                    assert(forall|k: int| 0 <= k < idx_ ==> m@[k] == mold[k]);
                    assert(forall|k: int| idx_ <= k < last ==> m@[k] == mold[k + 1]);
                    assert(m@[last].0 == mold[idx_].0);
                    assert(views(m@[last].1@) =~= views(oldlist) + views(fseq));
                    assert forall|k1: int, k2: int|
                        0 <= k1 < k2 < m@.len() implies m@[k1].0@ != m@[k2].0@ by {
                        if k1 < idx_ && k2 == last {
                        } else if idx_ <= k1 < last && k2 == last {
                        }
                    }
                    assert forall|id2: Seq<char>|
                        #[trigger] key_present(m@, id2) <==> some_line_upto(ls, ps, id2, inew) by {
                        lemma_union_upto_step(ls, ps, id2, i as int);
                        if key_present(m@, id2) {
                            let k = choose|k: int| 0 <= k < m@.len() && #[trigger] m@[k].0@ == id2;
                            if k == last {
                                assert(mold[idx_].0@ == id2);
                            } else if k < idx_ {
                                assert(mold[k].0@ == id2);
                            } else {
                                assert(mold[k + 1].0@ == id2);
                            }
                            assert(key_present(mold, id2));
                            assert(some_line_upto(ls, ps, id2, i as int));
                        }
                        if some_line_upto(ls, ps, id2, inew) {
                            if some_line_upto(ls, ps, id2, i as int) {
                                assert(key_present(mold, id2));
                                let k = choose|k: int|
                                    0 <= k < mold.len() && #[trigger] mold[k].0@ == id2;
                                if k == idx_ {
                                    assert(m@[last].0@ == id2);
                                } else if k < idx_ {
                                    assert(m@[k].0@ == id2);
                                } else {
                                    assert(m@[k - 1].0@ == id2);
                                }
                            } else {
                                assert(id2 == id@);
                                assert(m@[last].0@ == id2);
                            }
                            assert(key_present(m@, id2));
                        }
                    }
                    assert forall|k: int|
                        0 <= k < m@.len() implies same_members(
                        views(#[trigger] m@[k].1@),
                        union_upto(ls, ps, m@[k].0@, inew),
                    ) by {
                        lemma_union_upto_step(ls, ps, m@[k].0@, i as int);
                        if k == last {
                            assert(m@[k].0@ == id@);
                            assert(same_members(
                                views(mold[idx_].1@),
                                union_upto(ls, ps, id@, i as int),
                            ));
                            assert forall|f: Seq<char>|
                                #[trigger] views(m@[k].1@).contains(f) <==> union_upto(
                                    ls,
                                    ps,
                                    id@,
                                    inew,
                                ).contains(f) by {
                                assert(views(oldlist + fseq).contains(f) <==> (views(
                                    oldlist,
                                ).contains(f) || views(fseq).contains(f)));
                                assert(views(oldlist).contains(f) <==> union_upto(
                                    ls,
                                    ps,
                                    id@,
                                    i as int,
                                ).contains(f));
                                assert(views(fseq).contains(f) <==> line_features(l).contains(f));
                            }
                        } else {
                            let orig: int = if k < idx_ {
                                k
                            } else {
                                k + 1
                            };
                            assert(m@[k] == mold[orig]);
                            assert(m@[k].0@ != id@) by {
                                if orig < idx_ {
                                } else {
                                }
                            }
                            assert(same_members(
                                views(mold[orig].1@),
                                union_upto(ls, ps, mold[orig].0@, i as int),
                            ));
                            assert forall|f: Seq<char>|
                                #[trigger] views(m@[k].1@).contains(f) <==> union_upto(
                                    ls,
                                    ps,
                                    m@[k].0@,
                                    inew,
                                ).contains(f) by {
                                assert(views(mold[orig].1@).contains(f) <==> union_upto(
                                    ls,
                                    ps,
                                    mold[orig].0@,
                                    i as int,
                                ).contains(f));
                            }
                        }
                    }
                }
            },
            None => {
                m.push((id, feats));
                proof {
                    let last = m@.len() - 1;
                    assert(forall|k: int| 0 <= k < last ==> m@[k] == mold[k]);
                    assert(m@[last].0@ == id@);
                    assert(views(m@[last].1@) == views(fseq));
                    assert forall|k1: int, k2: int|
                        0 <= k1 < k2 < m@.len() implies m@[k1].0@ != m@[k2].0@ by {
                        if k2 == last {
                            assert(mold[k1].0@ != id@);
                        }
                    }
                    assert forall|id2: Seq<char>|
                        #[trigger] key_present(m@, id2) <==> some_line_upto(ls, ps, id2, inew) by {
                        lemma_union_upto_step(ls, ps, id2, i as int);
                        if key_present(m@, id2) {
                            let k = choose|k: int| 0 <= k < m@.len() && #[trigger] m@[k].0@ == id2;
                            if k < last {
                                assert(mold[k].0@ == id2);
                                assert(key_present(mold, id2));
                                assert(some_line_upto(ls, ps, id2, i as int));
                            } else {
                                assert(id2 == id@);
                                assert(resolves(ls[i as int], ps) && resolved_id(ls[i as int], ps)
                                    == id2);
                            }
                        }
                        if some_line_upto(ls, ps, id2, inew) {
                            if some_line_upto(ls, ps, id2, i as int) {
                                assert(key_present(mold, id2));
                                let k = choose|k: int|
                                    0 <= k < mold.len() && #[trigger] mold[k].0@ == id2;
                                assert(m@[k].0@ == id2);
                            } else {
                                assert(id2 == id@);
                                assert(m@[last].0@ == id2);
                            }
                            assert(key_present(m@, id2));
                        }
                    }
                    assert forall|k: int|
                        0 <= k < m@.len() implies same_members(
                        views(#[trigger] m@[k].1@),
                        union_upto(ls, ps, m@[k].0@, inew),
                    ) by {
                        lemma_union_upto_step(ls, ps, m@[k].0@, i as int);
                        if k == last {
                            assert forall|f: Seq<char>|
                                #[trigger] views(m@[k].1@).contains(f) <==> union_upto(
                                    ls,
                                    ps,
                                    id@,
                                    inew,
                                ).contains(f) by {
                                assert(views(fseq).contains(f) <==> line_features(l).contains(f));
                                if union_upto(ls, ps, id@, i as int).contains(f) {
                                    assert(some_line_upto(ls, ps, id@, i as int)) by {
                                        let w = choose|w: int|
                                            0 <= w < i && resolves(#[trigger] ls[w], ps)
                                                && resolved_id(ls[w], ps) == id@ && line_features(
                                                ls[w],
                                            ).contains(f);
                                        assert(resolves(ls[w], ps) && resolved_id(ls[w], ps)
                                            == id@);
                                    }
                                    assert(key_present(mold, id@));
                                    let kk = choose|kk: int|
                                        0 <= kk < mold.len() && #[trigger] mold[kk].0@ == id@;
                                    assert(false);
                                }
                            }
                        } else {
                            assert(m@[k] == mold[k]);
                            assert(m@[k].0@ != id@);
                            assert(same_members(
                                views(mold[k].1@),
                                union_upto(ls, ps, mold[k].0@, i as int),
                            ));
                            assert forall|f: Seq<char>|
                                #[trigger] views(m@[k].1@).contains(f) <==> union_upto(
                                    ls,
                                    ps,
                                    m@[k].0@,
                                    inew,
                                ).contains(f) by {
                                assert(views(mold[k].1@).contains(f) <==> union_upto(
                                    ls,
                                    ps,
                                    mold[k].0@,
                                    i as int,
                                ).contains(f));
                            }
                        }
                    }
                }
            },
        }
        i = i + 1;
    }
    proof {
        assert(views(crates@).take(crates@.len() as int) =~= views(crates@));
    }
    Ok(m)
}

} // verus!
