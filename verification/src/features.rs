//! The orchestrator: runs the per-platform analysis over every configured
//! platform's dependency-tree lines, transposes the results, and
//! consolidates each package's features. No partial results: any failure
//! aborts the whole analysis.

use vstd::prelude::*;

use crate::catalog::Package;
use crate::catalog::pviews;
use crate::consolidate::Features;
use crate::consolidate::consolidate_features;
use crate::consolidate::consolidated;
use crate::consolidate::key_present;
use crate::consolidate::plat_map;
use crate::consolidate::same_members;
use crate::error::FeatureError;
use crate::line::line_features;
use crate::order::views;
use crate::order::contains_string;
use crate::order::lemma_views_push;
use crate::runner::filter_lines;
use crate::runner::line_kept;
use crate::runner::make_package_map;
use crate::runner::resolved_id;
use crate::runner::resolves;
use crate::runner::some_line_upto;
use crate::runner::union_upto;
use crate::transpose::has_cell;
use crate::transpose::inner_key_present;
use crate::transpose::row_cell;
use crate::transpose::transpose_keys;
use crate::transpose::unique_inner;
use crate::transpose::unique_outer;

verus! {

/// Some kept line of the listing resolves to this identity.
pub open spec fn kept_some(
    ls: Seq<Seq<char>>,
    ps: Seq<(Seq<char>, (int, int, int, Seq<char>, Seq<char>), Seq<char>)>,
    id: Seq<char>,
) -> bool {
    exists|i: int|
        0 <= i < ls.len() && line_kept(#[trigger] ls[i]) && resolves(ls[i], ps) && resolved_id(
            ls[i],
            ps,
        ) == id
}

/// The union of the feature sets of every kept line that resolves to this
/// identity.
pub open spec fn kept_union(
    ls: Seq<Seq<char>>,
    ps: Seq<(Seq<char>, (int, int, int, Seq<char>, Seq<char>), Seq<char>)>,
    id: Seq<char>,
) -> Set<Seq<char>> {
    Set::new(
        |f: Seq<char>|
            exists|i: int|
                0 <= i < ls.len() && line_kept(#[trigger] ls[i]) && resolves(ls[i], ps)
                    && resolved_id(ls[i], ps) == id && line_features(ls[i]).contains(f),
    )
}

/// The platform-to-feature-set map one package gets from the raw listings:
/// each platform whose kept lines report the package, mapped to the union
/// of the feature sets those lines report.
pub open spec fn platform_map_for(
    outs: Seq<(String, Vec<String>)>,
    ps: Seq<(Seq<char>, (int, int, int, Seq<char>, Seq<char>), Seq<char>)>,
    id: Seq<char>,
) -> Map<Seq<char>, Set<Seq<char>>> {
    Map::new(
        |t: Seq<char>|
            exists|k: int|
                0 <= k < outs.len() && #[trigger] outs[k].0@ == t && kept_some(
                    views(outs[k].1@),
                    ps,
                    id,
                ),
        |t: Seq<char>|
            {
                let k = choose|k: int|
                    0 <= k < outs.len() && #[trigger] outs[k].0@ == t && kept_some(
                        views(outs[k].1@),
                        ps,
                        id,
                    );
                kept_union(views(outs[k].1@), ps, id)
            },
    )
}

/// The package is reported by a kept line of at least one platform.
pub open spec fn reported(
    outs: Seq<(String, Vec<String>)>,
    ps: Seq<(Seq<char>, (int, int, int, Seq<char>, Seq<char>), Seq<char>)>,
    id: Seq<char>,
) -> bool {
    exists|k: int|
        0 <= k < outs.len() && kept_some(views((#[trigger] outs[k]).1@), ps, id)
}

/// The configured platform set: the primary target, if any, plus the
/// additional targets, deduplicated; configuration order does not matter.
pub fn configured_triples(target: &Option<String>, targets: &Option<Vec<String>>) -> (r: Vec<
    String,
>)
    ensures
        forall|i: int, j: int| 0 <= i < j < r@.len() ==> views(r@)[i] != views(r@)[j],
        forall|t: Seq<char>|
            #[trigger] views(r@).contains(t) <==> ((match target {
                Some(x) => x@ == t,
                None => false,
            }) || (match targets {
                Some(xs) => views(xs@).contains(t),
                None => false,
            })),
{
    let mut r: Vec<String> = Vec::new();
    if let Some(x) = target {
        r.push(x.clone());
        proof {
            lemma_views_push(Seq::empty(), r@[0]);
            assert(views(Seq::<String>::empty()).len() == 0);
            assert(views(r@) =~= Seq::empty().push(x@));
        }
    }
    if let Some(xs) = targets {
        let mut i: usize = 0;
        while i < xs.len()
            invariant
                i <= xs@.len(),
                forall|p: int, q: int| 0 <= p < q < r@.len() ==> views(r@)[p] != views(r@)[q],
                forall|t: Seq<char>|
                    #[trigger] views(r@).contains(t) <==> ((match target {
                        Some(x) => x@ == t,
                        None => false,
                    }) || views(xs@).take(i as int).contains(t)),
            decreases xs@.len() - i,
        {
            proof {
                crate::order::lemma_take_plus_one(views(xs@), i as int);
                assert(views(xs@)[i as int] == xs@[i as int]@);
            }
            if !contains_string(&r, &xs[i]) {
                let ghost before = r@;
                r.push(xs[i].clone());
                proof {
                    lemma_views_push(before, r@[r@.len() - 1]);
                    assert forall|p: int, q: int|
                        0 <= p < q < r@.len() implies views(r@)[p] != views(r@)[q] by {
                        if q == r@.len() - 1 {
                            assert(views(before).contains(views(before)[p]));
                        }
                    }
                }
            }
            i = i + 1;
        }
        proof {
            assert(views(xs@).take(xs@.len() as int) =~= views(xs@));
        }
    }
    r
}

/// A filtered listing's identities and unions are the raw listing's kept
/// identities and unions.
proof fn lemma_filtered_model(
    raw: Seq<String>,
    fl: Seq<String>,
    ps: Seq<(Seq<char>, (int, int, int, Seq<char>, Seq<char>), Seq<char>)>,
)
    requires
        forall|l: Seq<char>|
            #[trigger] views(fl).contains(l) <==> (views(raw).contains(l) && line_kept(l)),
    ensures
        forall|id: Seq<char>|
            #[trigger] some_line_upto(views(fl), ps, id, fl.len() as int) <==> kept_some(
                views(raw),
                ps,
                id,
            ),
        forall|id: Seq<char>, f: Seq<char>|
            #[trigger] union_upto(views(fl), ps, id, fl.len() as int).contains(f) <==> kept_union(
                views(raw),
                ps,
                id,
            ).contains(f),
        forall|i: int| 0 <= i < fl.len() ==> line_kept(#[trigger] views(fl)[i]),
{
    let lf = views(fl);
    let lr = views(raw);
    assert forall|i: int| 0 <= i < fl.len() implies line_kept(#[trigger] views(fl)[i]) by {
        assert(lf.contains(lf[i]));
    }
    assert forall|id: Seq<char>|
        #[trigger] some_line_upto(lf, ps, id, fl.len() as int) <==> kept_some(lr, ps, id) by {
        if some_line_upto(lf, ps, id, fl.len() as int) {
            let i = choose|i: int|
                0 <= i < lf.len() && resolves(#[trigger] lf[i], ps) && resolved_id(lf[i], ps)
                    == id;
            assert(lf.contains(lf[i]));
            assert(lr.contains(lf[i]) && line_kept(lf[i]));
            let j = choose|j: int| 0 <= j < lr.len() && lr[j] == lf[i];
            assert(line_kept(lr[j]) && resolves(lr[j], ps) && resolved_id(lr[j], ps) == id);
        }
        if kept_some(lr, ps, id) {
            let i = choose|i: int|
                0 <= i < lr.len() && line_kept(#[trigger] lr[i]) && resolves(lr[i], ps)
                    && resolved_id(lr[i], ps) == id;
            assert(lr.contains(lr[i]));
            assert(lf.contains(lr[i]));
            let j = choose|j: int| 0 <= j < lf.len() && lf[j] == lr[i];
            assert(resolves(lf[j], ps) && resolved_id(lf[j], ps) == id);
        }
    }
    assert forall|id: Seq<char>, f: Seq<char>|
        #[trigger] union_upto(lf, ps, id, fl.len() as int).contains(f) <==> kept_union(
            lr,
            ps,
            id,
        ).contains(f) by {
        if union_upto(lf, ps, id, fl.len() as int).contains(f) {
            let i = choose|i: int|
                0 <= i < lf.len() && resolves(#[trigger] lf[i], ps) && resolved_id(lf[i], ps)
                    == id && line_features(lf[i]).contains(f);
            assert(lf.contains(lf[i]));
            assert(lr.contains(lf[i]) && line_kept(lf[i]));
            let j = choose|j: int| 0 <= j < lr.len() && lr[j] == lf[i];
            assert(line_kept(lr[j]) && resolves(lr[j], ps) && resolved_id(lr[j], ps) == id
                && line_features(lr[j]).contains(f));
        }
        if kept_union(lr, ps, id).contains(f) {
            let i = choose|i: int|
                0 <= i < lr.len() && line_kept(#[trigger] lr[i]) && resolves(lr[i], ps)
                    && resolved_id(lr[i], ps) == id && line_features(lr[i]).contains(f);
            assert(lr.contains(lr[i]));
            assert(lf.contains(lr[i]));
            let j = choose|j: int| 0 <= j < lf.len() && lf[j] == lr[i];
            assert(resolves(lf[j], ps) && resolved_id(lf[j], ps) == id && line_features(
                lf[j],
            ).contains(f));
        }
    }
}

/// Everything the analysis promises of its output: identities are unique,
/// an identity stands in the output exactly when some platform reports it,
/// and each package's value consolidates its platform map.
pub open spec fn analysis_ok(
    outs: Seq<(String, Vec<String>)>,
    ps: Seq<(Seq<char>, (int, int, int, Seq<char>, Seq<char>), Seq<char>)>,
    out: Seq<(String, Features)>,
) -> bool {
    &&& forall|i: int, j: int| 0 <= i < j < out.len() ==> out[i].0@ != out[j].0@
    &&& forall|id: Seq<char>|
        (exists|k: int| 0 <= k < out.len() && (#[trigger] out[k]).0@ == id) <==> reported(
            outs,
            ps,
            id,
        )
    &&& forall|k: int|
        0 <= k < out.len() ==> consolidated(
            platform_map_for(outs, ps, (#[trigger] out[k]).0@),
            out[k].1@,
        )
}

/// Analyses every platform's raw listing and returns each reported
/// package's consolidated features, keyed by package identity. Any listing
/// line that fails to parse or resolve aborts the whole analysis.
#[verifier::rlimit(60)]
pub fn get_per_platform_features(
    tree_outputs: &Vec<(String, Vec<String>)>,
    packages: &Vec<Package>,
) -> (r: Result<Vec<(String, Features)>, FeatureError>)
    requires
        forall|i: int, j: int|
            0 <= i < j < tree_outputs@.len() ==> tree_outputs@[i].0@ != tree_outputs@[j].0@,
    ensures
        match r {
            Ok(out) => analysis_ok(tree_outputs@, pviews(packages@), out@),
            Err(e) => {
                &&& exists|k: int|
                    0 <= k < tree_outputs@.len() && exists|l: Seq<char>|
                        views((#[trigger] tree_outputs@[k]).1@).contains(l) && line_kept(l)
                            && !resolves(l, pviews(packages@))
                &&& (e == FeatureError::LineFormatError || e == FeatureError::VersionParseError
                    || e == FeatureError::LookupError)
            },
        },
{
    let ghost ps = pviews(packages@);
    let mut plat_assoc: Vec<(String, Vec<(String, Vec<String>)>)> = Vec::new();
    let mut k: usize = 0;
    while k < tree_outputs.len()
        invariant
            k <= tree_outputs@.len(),
            ps == pviews(packages@),
            forall|i: int, j: int|
                0 <= i < j < tree_outputs@.len() ==> tree_outputs@[i].0@ != tree_outputs@[j].0@,
            plat_assoc@.len() == k,
            forall|x: int|
                0 <= x < k ==> (#[trigger] plat_assoc@[x]).0@ == tree_outputs@[x].0@,
            unique_inner(plat_assoc@),
            forall|x: int, id: Seq<char>|
                0 <= x < k ==> (#[trigger] key_present(plat_assoc@[x].1@, id) <==> kept_some(
                    views(tree_outputs@[x].1@),
                    ps,
                    id,
                )),
            forall|x: int, j: int|
                0 <= x < k && 0 <= j < plat_assoc@[x].1@.len() ==> same_members(
                    views((#[trigger] plat_assoc@[x].1@[j]).1@),
                    kept_union(views(tree_outputs@[x].1@), ps, plat_assoc@[x].1@[j].0@),
                ),
        decreases tree_outputs@.len() - k,
    {
        let filtered = filter_lines(&tree_outputs[k].1);
        proof {
            lemma_filtered_model(tree_outputs@[k as int].1@, filtered@, ps);
        }
        let pm = match make_package_map(&filtered, packages) {
            Ok(pm) => pm,
            Err(e) => {
                proof {
                    let i = choose|i: int|
                        0 <= i < filtered@.len() && !resolves(#[trigger] views(filtered@)[i], ps);
                    assert(views(filtered@).contains(views(filtered@)[i]));
                    assert(views(tree_outputs@[k as int].1@).contains(views(filtered@)[i]));
                    assert(line_kept(views(filtered@)[i]));
                    assert(exists|l: Seq<char>|
                        views((tree_outputs@[k as int]).1@).contains(l) && line_kept(l)
                            && !resolves(l, ps));
                    assert(exists|k2: int|
                        0 <= k2 < tree_outputs@.len() && exists|l: Seq<char>|
                            views((#[trigger] tree_outputs@[k2]).1@).contains(l) && line_kept(l)
                                && !resolves(l, pviews(packages@)));
                }
                return Err(e);
            },
        };
        plat_assoc.push((tree_outputs[k].0.clone(), pm));
        proof {
            let x_ = k as int;
            assert(plat_assoc@[x_].1@ == pm@);
            assert(forall|x: int|
                0 <= x < x_ ==> plat_assoc@[x] == plat_assoc@.take(x_)[x]);
            assert forall|x: int, id: Seq<char>|
                0 <= x < x_ + 1 implies (#[trigger] key_present(plat_assoc@[x].1@, id)
                <==> kept_some(views(tree_outputs@[x].1@), ps, id)) by {
                if x == x_ {
                    assert(key_present(pm@, id) <==> some_line_upto(
                        views(filtered@),
                        ps,
                        id,
                        filtered@.len() as int,
                    ));
                }
            }
            assert forall|x: int, j: int|
                0 <= x < x_ + 1 && 0 <= j < plat_assoc@[x].1@.len() implies same_members(
                views((#[trigger] plat_assoc@[x].1@[j]).1@),
                kept_union(views(tree_outputs@[x].1@), ps, plat_assoc@[x].1@[j].0@),
            ) by {
                if x == x_ {
                    let id = pm@[j].0@;
                    assert(same_members(
                        views(pm@[j].1@),
                        union_upto(views(filtered@), ps, id, filtered@.len() as int),
                    ));
                    assert forall|f: Seq<char>|
                        #[trigger] views(pm@[j].1@).contains(f) <==> kept_union(
                            views(tree_outputs@[x_].1@),
                            ps,
                            id,
                        ).contains(f) by {
                        assert(views(pm@[j].1@).contains(f) <==> union_upto(
                            views(filtered@),
                            ps,
                            id,
                            filtered@.len() as int,
                        ).contains(f));
                        assert(union_upto(views(filtered@), ps, id, filtered@.len() as int).contains(
                            f,
                        ) <==> kept_union(views(tree_outputs@[x_].1@), ps, id).contains(f));
                    }
                }
            }
        }
        k = k + 1;
    }
    let rows = transpose_keys(&plat_assoc);
    let mut out: Vec<(String, Features)> = Vec::new();
    let mut r: usize = 0;
    while r < rows.len()
        invariant
            r <= rows@.len(),
            ps == pviews(packages@),
            forall|i: int, j: int|
                0 <= i < j < tree_outputs@.len() ==> tree_outputs@[i].0@ != tree_outputs@[j].0@,
            plat_assoc@.len() == tree_outputs@.len(),
            forall|x: int|
                0 <= x < plat_assoc@.len() ==> (#[trigger] plat_assoc@[x]).0@
                    == tree_outputs@[x].0@,
            unique_inner(plat_assoc@),
            forall|x: int, id: Seq<char>|
                0 <= x < plat_assoc@.len() ==> (#[trigger] key_present(plat_assoc@[x].1@, id)
                    <==> kept_some(views(tree_outputs@[x].1@), ps, id)),
            forall|x: int, j: int|
                0 <= x < plat_assoc@.len() && 0 <= j < plat_assoc@[x].1@.len() ==> same_members(
                    views((#[trigger] plat_assoc@[x].1@[j]).1@),
                    kept_union(views(tree_outputs@[x].1@), ps, plat_assoc@[x].1@[j].0@),
                ),
            unique_outer(rows@),
            unique_inner(rows@),
            forall|i: int| 0 <= i < rows@.len() ==> (#[trigger] rows@[i]).1@.len() > 0,
            forall|b: Seq<char>|
                (exists|i: int| 0 <= i < rows@.len() && (#[trigger] rows@[i]).0@ == b)
                    <==> inner_key_present(plat_assoc@, b),
            forall|a: Seq<char>, b: Seq<char>, fs: Seq<Seq<char>>|
                #[trigger] has_cell(rows@, b, a, fs) <==> has_cell(plat_assoc@, a, b, fs),
            out@.len() == r,
            forall|i: int| 0 <= i < r ==> (#[trigger] out@[i]).0@ == rows@[i].0@,
            forall|i: int|
                0 <= i < r ==> consolidated(
                    platform_map_for(tree_outputs@, ps, (#[trigger] out@[i]).0@),
                    out@[i].1@,
                ),
        decreases rows@.len() - r,
    {
        let ghost rid = rows@[r as int].0@;
        let ghost entries = rows@[r as int].1@;
        let f = consolidate_features(&rows[r].1);
        proof {
            let pmf = platform_map_for(tree_outputs@, ps, rid);
            assert forall|t: Seq<char>|
                plat_map(entries).dom().contains(t) <==> pmf.dom().contains(t) by {
                if plat_map(entries).dom().contains(t) {
                    let j = choose|j: int| 0 <= j < entries.len() && entries[j].0@ == t;
                    assert(row_cell(entries, t, views(entries[j].1@)));
                    assert(has_cell(rows@, rid, t, views(entries[j].1@))) by {
                        assert(rows@[r as int].0@ == rid);
                    }
                    assert(has_cell(plat_assoc@, t, rid, views(entries[j].1@)));
                    let x = choose|x: int|
                        0 <= x < plat_assoc@.len() && #[trigger] plat_assoc@[x].0@ == t && exists|
                            jj: int,
                        |
                            0 <= jj < plat_assoc@[x].1@.len() && (#[trigger] plat_assoc@[x].1@[jj]).0@
                                == rid && views(plat_assoc@[x].1@[jj].1@) == views(entries[j].1@);
                    assert(key_present(plat_assoc@[x].1@, rid));
                    assert(kept_some(views(tree_outputs@[x].1@), ps, rid));
                    assert(tree_outputs@[x].0@ == t);
                }
                if pmf.dom().contains(t) {
                    let x = choose|x: int|
                        0 <= x < tree_outputs@.len() && #[trigger] tree_outputs@[x].0@ == t
                            && kept_some(views(tree_outputs@[x].1@), ps, rid);
                    assert(key_present(plat_assoc@[x].1@, rid));
                    let jj = choose|jj: int|
                        0 <= jj < plat_assoc@[x].1@.len() && (#[trigger] plat_assoc@[x].1@[jj]).0@
                            == rid;
                    assert(has_cell(
                        plat_assoc@,
                        t,
                        rid,
                        views(plat_assoc@[x].1@[jj].1@),
                    )) by {
                        assert(plat_assoc@[x].0@ == t);
                    }
                    assert(has_cell(rows@, rid, t, views(plat_assoc@[x].1@[jj].1@)));
                    let rr = choose|rr: int|
                        0 <= rr < rows@.len() && #[trigger] rows@[rr].0@ == rid && exists|j2: int|
                            0 <= j2 < rows@[rr].1@.len() && (#[trigger] rows@[rr].1@[j2]).0@ == t
                                && views(rows@[rr].1@[j2].1@) == views(plat_assoc@[x].1@[jj].1@);
                    assert(rr == r as int) by {
                        if rr < r as int {
                            assert(rows@[rr].0@ != rows@[r as int].0@);
                        }
                        if rr > r as int {
                            assert(rows@[r as int].0@ != rows@[rr].0@);
                        }
                    }
                    let j2 = choose|j2: int|
                        0 <= j2 < rows@[rr].1@.len() && (#[trigger] rows@[rr].1@[j2]).0@ == t
                            && views(rows@[rr].1@[j2].1@) == views(plat_assoc@[x].1@[jj].1@);
                    assert(entries[j2].0@ == t);
                    assert(plat_map(entries).dom().contains(t));
                }
            }
            assert forall|t: Seq<char>|
                #[trigger] pmf.dom().contains(t) implies plat_map(entries)[t] == pmf[t] by {
                assert(plat_map(entries).dom().contains(t));
                let j = choose|j: int| 0 <= j < entries.len() && entries[j].0@ == t;
                crate::consolidate::lemma_plat_map_entry(entries, j);
                assert(plat_map(entries)[t] == views(entries[j].1@).to_set());
                assert(row_cell(entries, t, views(entries[j].1@)));
                assert(has_cell(rows@, rid, t, views(entries[j].1@))) by {
                    assert(rows@[r as int].0@ == rid);
                }
                assert(has_cell(plat_assoc@, t, rid, views(entries[j].1@)));
                let x = choose|x: int|
                    0 <= x < plat_assoc@.len() && #[trigger] plat_assoc@[x].0@ == t && exists|
                        jj: int,
                    |
                        0 <= jj < plat_assoc@[x].1@.len() && (#[trigger] plat_assoc@[x].1@[jj]).0@
                            == rid && views(plat_assoc@[x].1@[jj].1@) == views(entries[j].1@);
                let jj = choose|jj: int|
                    0 <= jj < plat_assoc@[x].1@.len() && (#[trigger] plat_assoc@[x].1@[jj]).0@
                        == rid && views(plat_assoc@[x].1@[jj].1@) == views(entries[j].1@);
                assert(same_members(
                    views(entries[j].1@),
                    kept_union(views(tree_outputs@[x].1@), ps, rid),
                ));
                let x0 = choose|x0: int|
                    0 <= x0 < tree_outputs@.len() && #[trigger] tree_outputs@[x0].0@ == t
                        && kept_some(views(tree_outputs@[x0].1@), ps, rid);
                assert(x0 == x) by {
                    assert(tree_outputs@[x].0@ == t);
                    if x0 < x {
                        assert(tree_outputs@[x0].0@ != tree_outputs@[x].0@);
                    }
                    if x < x0 {
                        assert(tree_outputs@[x].0@ != tree_outputs@[x0].0@);
                    }
                }
                assert(pmf[t] == kept_union(views(tree_outputs@[x].1@), ps, rid));
                assert forall|ff: Seq<char>|
                    views(entries[j].1@).to_set().contains(ff) <==> pmf[t].contains(ff) by {
                    assert(views(entries[j].1@).to_set().contains(ff) == views(
                        entries[j].1@,
                    ).contains(ff));
                }
                assert(plat_map(entries)[t] =~= pmf[t]);
            }
            assert(plat_map(entries).dom() =~= pmf.dom());
            assert(plat_map(entries) =~= pmf);
        }
        out.push((rows[r].0.clone(), f));
        proof {
            assert(out@[out@.len() - 1].0@ == rid);
            assert(out@[out@.len() - 1].1@ == f@);
        }
        r = r + 1;
    }
    proof {
        assert forall|i: int, j: int|
            0 <= i < j < out@.len() implies out@[i].0@ != out@[j].0@ by {
            assert(out@[i].0@ == rows@[i].0@);
            assert(out@[j].0@ == rows@[j].0@);
        }
        assert forall|id: Seq<char>|
            (exists|k2: int| 0 <= k2 < out@.len() && (#[trigger] out@[k2]).0@ == id)
                <==> reported(tree_outputs@, ps, id) by {
            if exists|k2: int| 0 <= k2 < out@.len() && (#[trigger] out@[k2]).0@ == id {
                let k2 = choose|k2: int| 0 <= k2 < out@.len() && (#[trigger] out@[k2]).0@ == id;
                assert(rows@[k2].0@ == id);
                assert(exists|i: int| 0 <= i < rows@.len() && (#[trigger] rows@[i]).0@ == id);
                assert(inner_key_present(plat_assoc@, id));
                let (x, j) = choose|x: int, j: int|
                    0 <= x < plat_assoc@.len() && 0 <= j < plat_assoc@[x].1@.len() && (#[trigger] plat_assoc@[x].1@[j]).0@
                        == id;
                assert(key_present(plat_assoc@[x].1@, id)) by {
                    assert((plat_assoc@[x].1@[j]).0@ == id);
                }
                assert(kept_some(views(tree_outputs@[x].1@), ps, id));
                assert(reported(tree_outputs@, ps, id)) by {
                    assert(kept_some(views((tree_outputs@[x]).1@), ps, id));
                }
            } else {
                if reported(tree_outputs@, ps, id) {
                    let x = choose|x: int|
                        0 <= x < tree_outputs@.len() && kept_some(
                            views((#[trigger] tree_outputs@[x]).1@),
                            ps,
                            id,
                        );
                    assert(key_present(plat_assoc@[x].1@, id));
                    let j = choose|j: int|
                        0 <= j < plat_assoc@[x].1@.len() && #[trigger] plat_assoc@[x].1@[j].0@
                            == id;
                    assert(inner_key_present(plat_assoc@, id)) by {
                        assert((plat_assoc@[x].1@[j]).0@ == id);
                    }
                    let i = choose|i: int|
                        0 <= i < rows@.len() && (#[trigger] rows@[i]).0@ == id;
                    assert(out@[i].0@ == id);
                    assert(false);
                }
            }
        }
    }
    proof {
        assert(analysis_ok(tree_outputs@, pviews(packages@), out@)) by {
            assert(forall|k2: int|
                0 <= k2 < out@.len() ==> consolidated(
                    platform_map_for(tree_outputs@, pviews(packages@), (#[trigger] out@[k2]).0@),
                    out@[k2].1@,
                ));
        }
    }
    Ok(out)
}

} // verus!
