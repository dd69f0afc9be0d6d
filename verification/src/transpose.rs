//! The transposer: inverts platform-indexed package data into
//! package-indexed platform data. A package absent from one platform's map
//! simply has that platform absent from its row.

use vstd::prelude::*;

use crate::order::views;
use crate::order::string_eq;
use crate::order::clone_strings;

verus! {

/// Among the first `n` outer entries, the one keyed `t` holds the feature
/// list `fs` under inner key `id`.
pub open spec fn cell_upto(
    o: Seq<(String, Vec<(String, Vec<String>)>)>,
    n: int,
    id: Seq<char>,
    t: Seq<char>,
    fs: Seq<Seq<char>>,
) -> bool {
    exists|x: int|
        0 <= x < n && #[trigger] o[x].0@ == t && exists|jj: int|
            0 <= jj < o[x].1@.len() && (#[trigger] o[x].1@[jj]).0@ == id && views(o[x].1@[jj].1@)
                == fs
}

/// The nested association holds the feature list `fs` under outer key `a`
/// and inner key `b`.
pub open spec fn has_cell(
    o: Seq<(String, Vec<(String, Vec<String>)>)>,
    a: Seq<char>,
    b: Seq<char>,
    fs: Seq<Seq<char>>,
) -> bool {
    cell_upto(o, o.len() as int, b, a, fs)
}

/// A flat association holds the feature list `fs` under key `t`.
pub open spec fn row_cell(
    row: Seq<(String, Vec<String>)>,
    t: Seq<char>,
    fs: Seq<Seq<char>>,
) -> bool {
    exists|j: int|
        0 <= j < row.len() && (#[trigger] row[j]).0@ == t && views(row[j].1@) == fs
}

/// An inner key under some outer entry.
pub open spec fn inner_key_present(
    o: Seq<(String, Vec<(String, Vec<String>)>)>,
    b: Seq<char>,
) -> bool {
    exists|i: int, j: int|
        0 <= i < o.len() && 0 <= j < o[i].1@.len() && (#[trigger] o[i].1@[j]).0@ == b
}

/// Unique keys at the outer level.
pub open spec fn unique_outer(o: Seq<(String, Vec<(String, Vec<String>)>)>) -> bool {
    forall|i: int, j: int| 0 <= i < j < o.len() ==> o[i].0@ != o[j].0@
}

/// Unique keys inside every inner list.
pub open spec fn unique_inner(o: Seq<(String, Vec<(String, Vec<String>)>)>) -> bool {
    forall|i: int| 0 <= i < o.len() ==> crate::consolidate::unique_keys(#[trigger] o[i].1@)
}

/// The distinct inner keys of the whole nested association, in first-seen
/// order.
fn collect_inner_keys(triples: &Vec<(String, Vec<(String, Vec<String>)>)>) -> (ids: Vec<String>)
    ensures
        forall|p: int, q: int| 0 <= p < q < ids@.len() ==> views(ids@)[p] != views(ids@)[q],
        forall|b: Seq<char>| #[trigger] views(ids@).contains(b) <==> inner_key_present(triples@, b),
{
    let mut ids: Vec<String> = Vec::new();
    let mut i: usize = 0;
    while i < triples.len()
        invariant
            i <= triples@.len(),
            forall|p: int, q: int| 0 <= p < q < ids@.len() ==> views(ids@)[p] != views(ids@)[q],
            forall|b: Seq<char>|
                #[trigger] views(ids@).contains(b) <==> exists|x: int, j: int|
                    0 <= x < i && 0 <= j < triples@[x].1@.len() && (#[trigger] triples@[x].1@[j]).0@
                        == b,
        decreases triples@.len() - i,
    {
        let row_len = triples[i].1.len();
        let mut j: usize = 0;
        while j < row_len
            invariant
                i < triples@.len(),
                j <= row_len,
                row_len == triples@[i as int].1@.len(),
                forall|p: int, q: int| 0 <= p < q < ids@.len() ==> views(ids@)[p] != views(ids@)[q],
                forall|b: Seq<char>|
                    #[trigger] views(ids@).contains(b) <==> ((exists|x: int, jj: int|
                        0 <= x < i && 0 <= jj < triples@[x].1@.len() && (#[trigger] triples@[x].1@[jj]).0@
                            == b) || (exists|jj: int|
                        0 <= jj < j && (#[trigger] triples@[i as int].1@[jj]).0@ == b)),
            decreases row_len - j,
        {
            let id = &triples[i].1[j].0;
            if !crate::order::contains_string(&ids, id) {
                let ghost before = ids@;
                ids.push(id.clone());
                proof {
                    crate::order::lemma_views_push(before, ids@[ids@.len() - 1]);
                    assert forall|p: int, q: int|
                        0 <= p < q < ids@.len() implies views(ids@)[p] != views(ids@)[q] by {
                        if q == ids@.len() - 1 {
                            assert(views(before).contains(views(before)[p]));
                        }
                    }
                }
            }
            proof {
                assert((triples@[i as int].1@[j as int]).0@ == id@);
            }
            j = j + 1;
        }
        i = i + 1;
    }
    ids
}

/// One package's row: every platform that reports it, with the feature list
/// it reports, in platform order.
fn collect_row(triples: &Vec<(String, Vec<(String, Vec<String>)>)>, id: &String) -> (row: Vec<
    (String, Vec<String>),
>)
    requires
        unique_outer(triples@),
        unique_inner(triples@),
    ensures
        crate::consolidate::unique_keys(row@),
        forall|t: Seq<char>, fs: Seq<Seq<char>>|
            #[trigger] row_cell(row@, t, fs) <==> has_cell(triples@, t, id@, fs),
        inner_key_present(triples@, id@) ==> row@.len() > 0,
{
    let mut row: Vec<(String, Vec<String>)> = Vec::new();
    let mut i: usize = 0;
    while i < triples.len()
        invariant
            i <= triples@.len(),
            unique_outer(triples@),
            unique_inner(triples@),
            forall|j1: int, j2: int| 0 <= j1 < j2 < row@.len() ==> row@[j1].0@ != row@[j2].0@,
            forall|j: int|
                0 <= j < row@.len() ==> exists|x: int|
                    0 <= x < i && triples@[x].0@ == (#[trigger] row@[j]).0@,
            forall|t: Seq<char>, fs: Seq<Seq<char>>|
                #[trigger] row_cell(row@, t, fs) <==> cell_upto(triples@, i as int, id@, t, fs),
            (exists|x: int, jj: int|
                0 <= x < i && 0 <= jj < triples@[x].1@.len() && (#[trigger] triples@[x].1@[jj]).0@
                    == id@) ==> row@.len() > 0,
        decreases triples@.len() - i,
    {
        let pm = &triples[i].1;
        let mut j: usize = 0;
        let ghost rbefore = row@;
        let mut added = false;
        while j < pm.len()
            invariant
                !added ==> row@ == rbefore,
                j <= pm@.len(),
                i < triples@.len(),
                pm@ == triples@[i as int].1@,
                added ==> row@.len() == rbefore.len() + 1,
                added ==> row@[row@.len() - 1].0@ == triples@[i as int].0@,
                added ==> (exists|jj: int|
                    0 <= jj < pm@.len() && (#[trigger] pm@[jj]).0@ == id@ && views(
                        row@[row@.len() - 1].1@,
                    ) == views(pm@[jj].1@)),
                forall|k: int| 0 <= k < rbefore.len() ==> row@[k] == rbefore[k],
                !added ==> forall|jj: int| 0 <= jj < j ==> (#[trigger] pm@[jj]).0@ != id@,
            decreases pm@.len() - j,
        {
            if !added && string_eq(&pm[j].0, id) {
                let fs = clone_strings(&pm[j].1);
                row.push((triples[i].0.clone(), fs));
                added = true;
                proof {
                    assert((pm@[j as int]).0@ == id@);
                    assert(views(row@[row@.len() - 1].1@) == views(pm@[j as int].1@));
                }
            } else {
                proof {
                    if !added {
                        assert((pm@[j as int]).0@ != id@);
                    }
                }
            }
            j = j + 1;
        }
        proof {
            let x_ = i as int;
            assert forall|t: Seq<char>, fs: Seq<Seq<char>>|
                #[trigger] row_cell(row@, t, fs) <==> cell_upto(
                triples@,
                x_ + 1,
                id@,
                t,
                fs,
            ) by {
                if row_cell(row@, t, fs) {
                    let jj = choose|jj: int|
                        0 <= jj < row@.len() && (#[trigger] row@[jj]).0@ == t && views(row@[jj].1@)
                            == fs;
                    if jj < rbefore.len() {
                        assert(rbefore[jj].0@ == t && views(rbefore[jj].1@) == fs);
                        assert(row_cell(rbefore, t, fs));
                        assert(cell_upto(triples@, x_, id@, t, fs));
                        let x = choose|x: int|
                            0 <= x < x_ && #[trigger] triples@[x].0@ == t && exists|j2: int|
                                0 <= j2 < triples@[x].1@.len() && (#[trigger] triples@[x].1@[j2]).0@
                                    == id@ && views(triples@[x].1@[j2].1@) == fs;
                        assert(cell_upto(triples@, x_ + 1, id@, t, fs));
                    } else {
                        assert(added);
                        assert(t == triples@[x_].0@);
                        let jin = choose|jin: int|
                            0 <= jin < pm@.len() && (#[trigger] pm@[jin]).0@ == id@ && views(
                                row@[row@.len() - 1].1@,
                            ) == views(pm@[jin].1@);
                        assert((triples@[x_].1@[jin]).0@ == id@ && views(triples@[x_].1@[jin].1@)
                            == fs);
                        assert(cell_upto(triples@, x_ + 1, id@, t, fs));
                    }
                }
                if cell_upto(triples@, x_ + 1, id@, t, fs) {
                    let x = choose|x: int|
                        0 <= x < x_ + 1 && #[trigger] triples@[x].0@ == t && exists|j2: int|
                            0 <= j2 < triples@[x].1@.len() && (#[trigger] triples@[x].1@[j2]).0@
                                == id@ && views(triples@[x].1@[j2].1@) == fs;
                    if x < x_ {
                        assert(cell_upto(triples@, x_, id@, t, fs));
                        assert(row_cell(rbefore, t, fs));
                        let jj0 = choose|jj0: int|
                            0 <= jj0 < rbefore.len() && (#[trigger] rbefore[jj0]).0@ == t && views(
                                rbefore[jj0].1@,
                            ) == fs;
                        assert((row@[jj0]).0@ == t && views(row@[jj0].1@) == fs);
                        assert(row_cell(row@, t, fs));
                    } else {
                        let j2 = choose|j2: int|
                            0 <= j2 < triples@[x].1@.len() && (#[trigger] triples@[x].1@[j2]).0@
                                == id@ && views(triples@[x].1@[j2].1@) == fs;
                        assert(added);
                        let jin = choose|jin: int|
                            0 <= jin < pm@.len() && (#[trigger] pm@[jin]).0@ == id@ && views(
                                row@[row@.len() - 1].1@,
                            ) == views(pm@[jin].1@);
                        assert(crate::consolidate::unique_keys(triples@[x_].1@));
                        assert(jin == j2) by {
                            if jin < j2 {
                                assert(triples@[x_].1@[jin].0@ != triples@[x_].1@[j2].0@);
                            }
                            if j2 < jin {
                                assert(triples@[x_].1@[j2].0@ != triples@[x_].1@[jin].0@);
                            }
                        }
                        assert((row@[row@.len() - 1]).0@ == t && views(row@[row@.len() - 1].1@)
                            == fs);
                        assert(row_cell(row@, t, fs));
                    }
                }
            }
            assert forall|j1: int, j2: int|
                0 <= j1 < j2 < row@.len() implies row@[j1].0@ != row@[j2].0@ by {
                if added && j2 == row@.len() - 1 {
                    assert(row@[j1] == rbefore[j1]);
                    assert(exists|x0: int| 0 <= x0 < i && triples@[x0].0@ == (rbefore[j1]).0@);
                    let x0 = choose|x0: int| 0 <= x0 < i && triples@[x0].0@ == (rbefore[j1]).0@;
                    assert(triples@[x0].0@ != triples@[x_].0@);
                } else {
                    assert(row@[j1] == rbefore[j1]);
                    assert(row@[j2] == rbefore[j2]);
                }
            }
            assert forall|j: int|
                0 <= j < row@.len() implies exists|x: int|
                0 <= x < i + 1 && triples@[x].0@ == (#[trigger] row@[j]).0@ by {
                if j < rbefore.len() {
                    assert(row@[j] == rbefore[j]);
                    assert(exists|x0: int| 0 <= x0 < i && triples@[x0].0@ == (rbefore[j]).0@);
                    let x0 = choose|x0: int| 0 <= x0 < i && triples@[x0].0@ == (rbefore[j]).0@;
                    assert(0 <= x0 < i + 1 && triples@[x0].0@ == row@[j].0@);
                } else {
                    assert(added);
                    assert(triples@[x_].0@ == row@[j].0@);
                }
            }
        }
        i = i + 1;
    }
    row
}

/// Inverts the nesting: platform-to-package becomes package-to-platform.
/// Every cell of the input stands once in the output under swapped keys.
pub fn transpose_keys(triples: &Vec<(String, Vec<(String, Vec<String>)>)>) -> (out: Vec<
    (String, Vec<(String, Vec<String>)>),
>)
    requires
        unique_outer(triples@),
        unique_inner(triples@),
    ensures
        unique_outer(out@),
        unique_inner(out@),
        forall|i: int| 0 <= i < out@.len() ==> (#[trigger] out@[i]).1@.len() > 0,
        forall|b: Seq<char>|
            (exists|i: int| 0 <= i < out@.len() && (#[trigger] out@[i]).0@ == b)
                <==> inner_key_present(triples@, b),
        forall|a: Seq<char>, b: Seq<char>, fs: Seq<Seq<char>>|
            #[trigger] has_cell(out@, b, a, fs) <==> has_cell(triples@, a, b, fs),
{
    let ids = collect_inner_keys(triples);
    let mut out: Vec<(String, Vec<(String, Vec<String>)>)> = Vec::new();
    let mut i: usize = 0;
    while i < ids.len()
        invariant
            i <= ids@.len(),
            unique_outer(triples@),
            unique_inner(triples@),
            forall|p: int, q: int| 0 <= p < q < ids@.len() ==> views(ids@)[p] != views(ids@)[q],
            forall|b: Seq<char>|
                #[trigger] views(ids@).contains(b) <==> inner_key_present(triples@, b),
            out@.len() == i,
            forall|k: int| 0 <= k < i ==> (#[trigger] out@[k]).0@ == views(ids@)[k],
            unique_inner(out@),
            forall|k: int| 0 <= k < out@.len() ==> (#[trigger] out@[k]).1@.len() > 0,
            forall|k: int, t: Seq<char>, fs: Seq<Seq<char>>|
                0 <= k < out@.len() ==> (#[trigger] row_cell((#[trigger] out@[k]).1@, t, fs)
                    <==> has_cell(triples@, t, out@[k].0@, fs)),
        decreases ids@.len() - i,
    {
        let row = collect_row(triples, &ids[i]);
        proof {
            assert(views(ids@)[i as int] == ids@[i as int]@);
            assert(views(ids@).contains(views(ids@)[i as int]));
            assert(inner_key_present(triples@, ids@[i as int]@));
        }
        out.push((ids[i].clone(), row));
        i = i + 1;
    }
    proof {
        assert forall|p: int, q: int|
            0 <= p < q < out@.len() implies out@[p].0@ != out@[q].0@ by {
            assert(out@[p].0@ == views(ids@)[p]);
            assert(out@[q].0@ == views(ids@)[q]);
        }
        assert forall|b: Seq<char>|
            (exists|i2: int| 0 <= i2 < out@.len() && (#[trigger] out@[i2]).0@ == b)
                <==> inner_key_present(triples@, b) by {
            if exists|i2: int| 0 <= i2 < out@.len() && (#[trigger] out@[i2]).0@ == b {
                let i2 = choose|i2: int| 0 <= i2 < out@.len() && (#[trigger] out@[i2]).0@ == b;
                assert(views(ids@)[i2] == b);
                assert(views(ids@).contains(b));
            }
            if inner_key_present(triples@, b) {
                assert(views(ids@).contains(b));
                let k = choose|k: int| 0 <= k < views(ids@).len() && views(ids@)[k] == b;
                assert(out@[k].0@ == b);
            }
        }
        assert forall|a: Seq<char>, b: Seq<char>, fs: Seq<Seq<char>>|
            #[trigger] has_cell(out@, b, a, fs) <==> has_cell(triples@, a, b, fs) by {
            if has_cell(out@, b, a, fs) {
                let k = choose|k: int|
                    0 <= k < out@.len() && #[trigger] out@[k].0@ == b && exists|j: int|
                        0 <= j < out@[k].1@.len() && (#[trigger] out@[k].1@[j]).0@ == a && views(
                            out@[k].1@[j].1@,
                        ) == fs;
                assert(row_cell(out@[k].1@, a, fs));
                assert(has_cell(triples@, a, out@[k].0@, fs));
            }
            if has_cell(triples@, a, b, fs) {
                assert(inner_key_present(triples@, b)) by {
                    let x = choose|x: int|
                        0 <= x < triples@.len() && #[trigger] triples@[x].0@ == a && exists|j: int|
                            0 <= j < triples@[x].1@.len() && (#[trigger] triples@[x].1@[j]).0@ == b
                                && views(triples@[x].1@[j].1@) == fs;
                    let j = choose|j: int|
                        0 <= j < triples@[x].1@.len() && (#[trigger] triples@[x].1@[j]).0@ == b
                            && views(triples@[x].1@[j].1@) == fs;
                    assert((triples@[x].1@[j]).0@ == b);
                }
                assert(views(ids@).contains(b));
                let k = choose|k: int| 0 <= k < views(ids@).len() && views(ids@)[k] == b;
                assert(out@[k].0@ == b);
                assert(row_cell(out@[k].1@, a, fs));
                let j = choose|j: int|
                    0 <= j < out@[k].1@.len() && (#[trigger] out@[k].1@[j]).0@ == a && views(
                        out@[k].1@[j].1@,
                    ) == fs;
                assert(has_cell(out@, b, a, fs));
            }
        }
    }
    out
}

} // verus!
