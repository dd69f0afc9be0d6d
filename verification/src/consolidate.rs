//! The consolidation algorithm: given the feature sets one package enables on
//! each platform, compute the features common to every platform and group the
//! remaining features by the exact set of platforms that enables them, in a
//! canonical order.

use vstd::prelude::*;

use crate::order::views;
use crate::order::sorted_strs;
use crate::order::strs_lt;
use crate::order::sort_dedup_strings;
use crate::order::contains_string;
use crate::order::string_eq;
use crate::order::vec_string_eq;
use crate::order::strs_lt_exec;
use crate::order::lemma_sorted_strs_unique;
use crate::order::lemma_sorted_unique;
use crate::order::lemma_strs_lt_asym;
use crate::order::lemma_strs_lt_trichotomy;
use crate::order::lemma_strs_lt_trans;
use crate::order::lemma_take_plus_one;
use crate::order::lemma_views_push;

verus! {

/// Features tied to one exact set of platforms: every feature in `features`
/// is enabled on every platform in `platforms` and on no other.
#[derive(Debug, Clone, PartialEq, Eq, PartialOrd, Ord)]
pub struct TargetedFeatures {
    pub platforms: Vec<String>,
    pub features: Vec<String>,
}

impl View for TargetedFeatures {
    type V = (Seq<Seq<char>>, Seq<Seq<char>>);

    open spec fn view(&self) -> Self::V {
        (views(self.platforms@), views(self.features@))
    }
}

/// The consolidated description of one package: the features enabled on
/// every platform, then the platform-specific groups.
#[derive(Debug, Clone, PartialEq, Eq, PartialOrd, Ord)]
pub struct Features {
    pub features: Vec<String>,
    pub targeted_features: Vec<TargetedFeatures>,
}

impl View for Features {
    type V = (Seq<Seq<char>>, Seq<(Seq<Seq<char>>, Seq<Seq<char>>)>);

    open spec fn view(&self) -> Self::V {
        (views(self.features@), self.targeted_features@.map_values(|g: TargetedFeatures| g@))
    }
}

impl Features {
    /// A description with no features at all.
    pub fn empty() -> (r: Features)
        ensures
            r@.0.len() == 0,
            r@.1.len() == 0,
    {
        Features { features: Vec::new(), targeted_features: Vec::new() }
    }
}

/// The mapping a platform-to-features list stands for: each platform name to
/// the set of features reported for it.
pub open spec fn plat_map(s: Seq<(String, Vec<String>)>) -> Map<Seq<char>, Set<Seq<char>>> {
    Map::new(
        |t: Seq<char>| exists|i: int| 0 <= i < s.len() && s[i].0@ == t,
        |t: Seq<char>|
            {
                let i = choose|i: int| 0 <= i < s.len() && s[i].0@ == t;
                views(s[i].1@).to_set()
            },
    )
}

/// No two list entries name the same platform.
pub open spec fn unique_keys(s: Seq<(String, Vec<String>)>) -> bool {
    forall|i: int, j: int| 0 <= i < j < s.len() ==> s[i].0@ != s[j].0@
}

/// The feature is reported on at least one platform of the map.
pub open spec fn in_some(m: Map<Seq<char>, Set<Seq<char>>>, f: Seq<char>) -> bool {
    exists|t: Seq<char>| #[trigger] m.dom().contains(t) && m[t].contains(f)
}

/// The feature is reported on every platform of the map (and on at least one).
pub open spec fn is_common(m: Map<Seq<char>, Set<Seq<char>>>, f: Seq<char>) -> bool {
    in_some(m, f) && forall|t: Seq<char>| #[trigger] m.dom().contains(t) ==> m[t].contains(f)
}

/// The set of platforms that report the feature.
pub open spec fn enablers(m: Map<Seq<char>, Set<Seq<char>>>, f: Seq<char>) -> Set<Seq<char>> {
    Set::new(|t: Seq<char>| m.dom().contains(t) && m[t].contains(f))
}

/// The feature is reported somewhere but not everywhere: it belongs in a
/// targeted group, not in the common list.
pub open spec fn is_targeted(m: Map<Seq<char>, Set<Seq<char>>>, f: Seq<char>) -> bool {
    in_some(m, f) && !is_common(m, f)
}

/// The order in which groups are emitted: more platforms first; among groups
/// with as many platforms, the lexicographically larger platform list first.
pub open spec fn group_gt(
    a: (Seq<Seq<char>>, Seq<Seq<char>>),
    b: (Seq<Seq<char>>, Seq<Seq<char>>),
) -> bool {
    a.0.len() > b.0.len() || (a.0.len() == b.0.len() && strs_lt(b.0, a.0))
}

/// One well-formed group of the map: sorted platform and feature lists, at
/// least one feature, and the features are exactly those whose enabling
/// platform set is the group's platform set.
pub open spec fn group_exact(
    m: Map<Seq<char>, Set<Seq<char>>>,
    g: (Seq<Seq<char>>, Seq<Seq<char>>),
) -> bool {
    &&& sorted_strs(g.0)
    &&& sorted_strs(g.1)
    &&& g.1.len() > 0
    &&& forall|f: Seq<char>|
        #[trigger] g.1.contains(f) ==> is_targeted(m, f) && enablers(m, f) == g.0.to_set()
    &&& forall|f: Seq<char>|
        is_targeted(m, f) && enablers(m, f) == g.0.to_set() ==> #[trigger] g.1.contains(f)
}

/// The whole contract of consolidation: `fv.0` is the sorted list of common
/// features, `fv.1` the exact groups of targeted features in descending
/// group order, every targeted feature placed.
pub open spec fn consolidated(
    m: Map<Seq<char>, Set<Seq<char>>>,
    fv: (Seq<Seq<char>>, Seq<(Seq<Seq<char>>, Seq<Seq<char>>)>),
) -> bool {
    &&& sorted_strs(fv.0)
    &&& forall|f: Seq<char>| #[trigger] fv.0.contains(f) <==> is_common(m, f)
    &&& forall|i: int| 0 <= i < fv.1.len() ==> group_exact(m, #[trigger] fv.1[i])
    &&& forall|f: Seq<char>|
        is_targeted(m, f) ==> exists|i: int| 0 <= i < fv.1.len() && #[trigger] fv.1[i].1.contains(f)
    &&& forall|i: int, j: int| 0 <= i < j < fv.1.len() ==> group_gt(fv.1[i], fv.1[j])
}

/// With unique platform names, the map holds each entry's feature set under
/// its platform name.
pub proof fn lemma_plat_map_entry(s: Seq<(String, Vec<String>)>, i: int)
    requires
        unique_keys(s),
        0 <= i < s.len(),
    ensures
        plat_map(s).dom().contains(s[i].0@),
        plat_map(s)[s[i].0@] == views(s[i].1@).to_set(),
{
    let t = s[i].0@;
    let j = choose|j: int| 0 <= j < s.len() && s[j].0@ == t;
    assert(j == i);
}

/// Every platform of the map comes from some entry.
pub proof fn lemma_plat_map_dom(s: Seq<(String, Vec<String>)>, t: Seq<char>)
    requires
        plat_map(s).dom().contains(t),
    ensures
        exists|i: int| 0 <= i < s.len() && s[i].0@ == t,
{
}


/// Membership of a string list matches a set.
pub open spec fn same_members(a: Seq<Seq<char>>, s: Set<Seq<char>>) -> bool {
    forall|t: Seq<char>| #[trigger] a.contains(t) <==> s.contains(t)
}

/// The feature appears in the list's first `n` entries' feature lists.
pub open spec fn common_prefix(s: Seq<(String, Vec<String>)>, n: int, f: Seq<char>) -> bool {
    forall|j: int| 0 <= j < n ==> views(#[trigger] s[j].1@).contains(f)
}

/// The feature stands as a key of the association list.
pub open spec fn key_present(a: Seq<(String, Vec<String>)>, f: Seq<char>) -> bool {
    exists|k: int| 0 <= k < a.len() && #[trigger] a[k].0@ == f
}

/// The features reported on every platform of the list (still unsorted and
/// possibly with duplicates).
fn intersect_common(entries: &Vec<(String, Vec<String>)>) -> (common: Vec<String>)
    requires
        entries@.len() > 0,
        unique_keys(entries@),
    ensures
        forall|f: Seq<char>|
            #[trigger] views(common@).contains(f) <==> is_common(plat_map(entries@), f),
{
    let ghost m = plat_map(entries@);
    let mut common: Vec<String> = crate::order::clone_strings(&entries[0].1);
    let mut k: usize = 1;
    while k < entries.len()
        invariant
            1 <= k <= entries@.len(),
            forall|f: Seq<char>|
                #[trigger] views(common@).contains(f) <==> common_prefix(entries@, k as int, f)
                    && views(entries@[0].1@).contains(f),
        decreases entries@.len() - k,
    {
        let ghost prev = common@;
        let mut next: Vec<String> = Vec::new();
        let mut idx: usize = 0;
        while idx < common.len()
            invariant
                idx <= common@.len(),
                k < entries@.len(),
                common@ == prev,
                forall|f: Seq<char>|
                    #[trigger] views(next@).contains(f) <==> (views(common@).take(
                        idx as int,
                    ).contains(f) && views(entries@[k as int].1@).contains(f)),
            decreases common@.len() - idx,
        {
            proof {
                lemma_take_plus_one(views(common@), idx as int);
            }
            if contains_string(&entries[k].1, &common[idx]) {
                let ghost before = next@;
                next.push(common[idx].clone());
                proof {
                    lemma_views_push(before, common@[idx as int]);
                    assert(views(common@)[idx as int] == common@[idx as int]@);
                }
            } else {
                assert(views(common@)[idx as int] == common@[idx as int]@);
            }
            idx = idx + 1;
        }
        assert(views(common@).take(common@.len() as int) =~= views(common@));
        common = next;
        assert forall|f: Seq<char>|
            #[trigger] views(common@).contains(f) <==> common_prefix(entries@, k + 1, f)
                && views(entries@[0].1@).contains(f) by {
            if common_prefix(entries@, k + 1, f) {
                assert(views(entries@[k as int].1@).contains(f));
                assert(common_prefix(entries@, k as int, f));
            }
            if views(common@).contains(f) {
                assert(common_prefix(entries@, k as int, f));
                assert forall|j: int| 0 <= j < k + 1 implies views(
                    #[trigger] entries@[j].1@,
                ).contains(f) by {
                    if j < k {
                        assert(common_prefix(entries@, k as int, f));
                    }
                }
            }
        }
        k = k + 1;
    }
    assert forall|f: Seq<char>|
        #[trigger] views(common@).contains(f) <==> is_common(m, f) by {
        if views(common@).contains(f) {
            assert(common_prefix(entries@, entries@.len() as int, f));
            assert forall|t: Seq<char>| #[trigger] m.dom().contains(t) implies m[t].contains(
                f,
            ) by {
                lemma_plat_map_dom(entries@, t);
                let i = choose|i: int| 0 <= i < entries@.len() && entries@[i].0@ == t;
                lemma_plat_map_entry(entries@, i);
                assert(views(entries@[i].1@).contains(f));
            }
            lemma_plat_map_entry(entries@, 0);
            assert(m.dom().contains(entries@[0].0@));
            assert(m[entries@[0].0@].contains(f));
        }
        if is_common(m, f) {
            assert forall|j: int| 0 <= j < entries@.len() implies views(
                #[trigger] entries@[j].1@,
            ).contains(f) by {
                lemma_plat_map_entry(entries@, j);
                assert(m[entries@[j].0@].contains(f));
            }
            assert(common_prefix(entries@, entries@.len() as int, f));
            assert(views(entries@[0].1@).contains(f));
        }
    }
    common
}

/// Whether the association list already holds the feature as a key.
fn assoc_has_key(attr: &Vec<(String, Vec<String>)>, f: &String) -> (r: bool)
    ensures
        r == key_present(attr@, f@),
{
    let mut i: usize = 0;
    while i < attr.len()
        invariant
            i <= attr@.len(),
            forall|k: int| 0 <= k < i ==> attr@[k].0@ != f@,
        decreases attr@.len() - i,
    {
        if string_eq(&attr[i].0, f) {
            assert(attr@[i as int].0@ == f@);
            return true;
        }
        i = i + 1;
    }
    false
}

/// The platforms whose feature lists hold `f`, in entry order.
fn enabler_list(entries: &Vec<(String, Vec<String>)>, f: &String) -> (plats: Vec<String>)
    requires
        unique_keys(entries@),
    ensures
        same_members(views(plats@), enablers(plat_map(entries@), f@)),
{
    let ghost m = plat_map(entries@);
    let mut plats: Vec<String> = Vec::new();
    let mut k: usize = 0;
    while k < entries.len()
        invariant
            k <= entries@.len(),
            forall|t: Seq<char>|
                #[trigger] views(plats@).contains(t) <==> exists|i: int|
                    0 <= i < k && #[trigger] entries@[i].0@ == t && views(
                        entries@[i].1@,
                    ).contains(f@),
        decreases entries@.len() - k,
    {
        if contains_string(&entries[k].1, f) {
            let ghost before = plats@;
            plats.push(entries[k].0.clone());
            proof {
                lemma_views_push(before, entries@[k as int].0);
            }
            assert forall|t: Seq<char>|
                #[trigger] views(plats@).contains(t) <==> exists|i: int|
                    0 <= i < k + 1 && #[trigger] entries@[i].0@ == t && views(
                        entries@[i].1@,
                    ).contains(f@) by {
                if views(plats@).contains(t) {
                    if t == entries@[k as int].0@ {
                        assert(entries@[k as int].0@ == t && views(
                            entries@[k as int].1@,
                        ).contains(f@));
                    }
                }
                if exists|i: int|
                    0 <= i < k + 1 && #[trigger] entries@[i].0@ == t && views(
                        entries@[i].1@,
                    ).contains(f@) {
                    let i = choose|i: int|
                        0 <= i < k + 1 && #[trigger] entries@[i].0@ == t && views(
                            entries@[i].1@,
                        ).contains(f@);
                    if i == k {
                        assert(t == entries@[k as int].0@);
                    }
                }
            }
        } else {
            assert forall|t: Seq<char>|
                #[trigger] views(plats@).contains(t) <==> exists|i: int|
                    0 <= i < k + 1 && #[trigger] entries@[i].0@ == t && views(
                        entries@[i].1@,
                    ).contains(f@) by {
                if exists|i: int|
                    0 <= i < k + 1 && #[trigger] entries@[i].0@ == t && views(
                        entries@[i].1@,
                    ).contains(f@) {
                    let i = choose|i: int|
                        0 <= i < k + 1 && #[trigger] entries@[i].0@ == t && views(
                            entries@[i].1@,
                        ).contains(f@);
                    assert(i < k);
                }
            }
        }
        k = k + 1;
    }
    assert forall|t: Seq<char>|
        #[trigger] views(plats@).contains(t) <==> enablers(m, f@).contains(t) by {
        if views(plats@).contains(t) {
            let i = choose|i: int|
                0 <= i < entries@.len() && #[trigger] entries@[i].0@ == t && views(
                    entries@[i].1@,
                ).contains(f@);
            lemma_plat_map_entry(entries@, i);
        }
        if enablers(m, f@).contains(t) {
            lemma_plat_map_dom(entries@, t);
            let i = choose|i: int| 0 <= i < entries@.len() && entries@[i].0@ == t;
            lemma_plat_map_entry(entries@, i);
            assert(views(entries@[i].1@).contains(f@));
        }
    }
    plats
}

/// One association entry per feature that is reported somewhere but is not
/// common: the feature, with every platform that reports it.
fn attribute_exclusive(entries: &Vec<(String, Vec<String>)>, common: &Vec<String>) -> (attr: Vec<
    (String, Vec<String>),
>)
    requires
        entries@.len() > 0,
        unique_keys(entries@),
        forall|f: Seq<char>|
            #[trigger] views(common@).contains(f) <==> is_common(plat_map(entries@), f),
    ensures
        forall|k1: int, k2: int| 0 <= k1 < k2 < attr@.len() ==> attr@[k1].0@ != attr@[k2].0@,
        forall|k: int|
            0 <= k < attr@.len() ==> is_targeted(plat_map(entries@), #[trigger] attr@[k].0@)
                && same_members(views(attr@[k].1@), enablers(plat_map(entries@), attr@[k].0@)),
        forall|f: Seq<char>| is_targeted(plat_map(entries@), f) ==> key_present(attr@, f),
{
    let ghost m = plat_map(entries@);
    let mut attr: Vec<(String, Vec<String>)> = Vec::new();
    let mut k: usize = 0;
    while k < entries.len()
        invariant
            k <= entries@.len(),
            entries@.len() > 0,
            unique_keys(entries@),
            m == plat_map(entries@),
            forall|f: Seq<char>|
                #[trigger] views(common@).contains(f) <==> is_common(m, f),
            forall|k1: int, k2: int| 0 <= k1 < k2 < attr@.len() ==> attr@[k1].0@ != attr@[k2].0@,
            forall|x: int|
                0 <= x < attr@.len() ==> is_targeted(m, #[trigger] attr@[x].0@) && same_members(
                    views(attr@[x].1@),
                    enablers(m, attr@[x].0@),
                ),
            forall|f: Seq<char>|
                (is_targeted(m, f) && exists|i: int|
                    0 <= i < k && views(#[trigger] entries@[i].1@).contains(f)) ==> key_present(
                    attr@,
                    f,
                ),
        decreases entries@.len() - k,
    {
        let row_len = entries[k].1.len();
        let mut j: usize = 0;
        while j < row_len
            invariant
                k < entries@.len(),
                j <= row_len,
                row_len == entries@[k as int].1@.len(),
                entries@.len() > 0,
                unique_keys(entries@),
                m == plat_map(entries@),
                forall|f: Seq<char>|
                    #[trigger] views(common@).contains(f) <==> is_common(m, f),
                forall|k1: int, k2: int|
                    0 <= k1 < k2 < attr@.len() ==> attr@[k1].0@ != attr@[k2].0@,
                forall|x: int|
                    0 <= x < attr@.len() ==> is_targeted(m, #[trigger] attr@[x].0@)
                        && same_members(views(attr@[x].1@), enablers(m, attr@[x].0@)),
                forall|f: Seq<char>|
                    (is_targeted(m, f) && (views(entries@[k as int].1@).take(j as int).contains(f)
                        || exists|i: int|
                        0 <= i < k && views(#[trigger] entries@[i].1@).contains(f)))
                        ==> key_present(attr@, f),
            decreases row_len - j,
        {
            proof {
                lemma_take_plus_one(views(entries@[k as int].1@), j as int);
                assert(views(entries@[k as int].1@)[j as int] == entries@[k as int].1@[j as int]@);
            }
            let f = &entries[k].1[j];
            if !contains_string(common, f) {
                if !assoc_has_key(&attr, f) {
                    let plats = enabler_list(entries, f);
                    let ghost before = attr@;
                    attr.push((f.clone(), plats));
                    proof {
                        lemma_plat_map_entry(entries@, k as int);
                        assert(m[entries@[k as int].0@].contains(f@)) by {
                            assert(views(entries@[k as int].1@).contains(f@));
                        }
                        assert(in_some(m, f@));
                        assert(forall|x: int|
                            0 <= x < before.len() ==> attr@[x] == before[x]);
                        assert(attr@[attr@.len() - 1].0@ == f@);
                        assert forall|ff: Seq<char>|
                            (is_targeted(m, ff) && (views(entries@[k as int].1@).take(
                                j + 1,
                            ).contains(ff) || exists|i: int|
                                0 <= i < k && views(#[trigger] entries@[i].1@).contains(ff)))
                            implies key_present(attr@, ff) by {
                            if ff == f@ {
                                assert(attr@[attr@.len() - 1].0@ == ff);
                            } else {
                                if key_present(before, ff) {
                                    let x = choose|x: int|
                                        0 <= x < before.len() && #[trigger] before[x].0@ == ff;
                                    assert(attr@[x].0@ == ff);
                                }
                            }
                        }
                    }
                } else {
                    proof {
                        assert(key_present(attr@, f@));
                    }
                }
            } else {
                proof {
                    assert(is_common(m, f@));
                }
            }
            j = j + 1;
        }
        proof {
            assert(views(entries@[k as int].1@).take(row_len as int) =~= views(
                entries@[k as int].1@,
            ));
            assert forall|f: Seq<char>|
                (is_targeted(m, f) && exists|i: int|
                    0 <= i < k + 1 && views(#[trigger] entries@[i].1@).contains(f)) implies
                key_present(attr@, f) by {
                let i = choose|i: int|
                    0 <= i < k + 1 && views(#[trigger] entries@[i].1@).contains(f);
                if i == k {
                    assert(views(entries@[k as int].1@).take(row_len as int).contains(f));
                }
            }
        }
        k = k + 1;
    }
    proof {
        assert forall|f: Seq<char>| is_targeted(m, f) implies key_present(attr@, f) by {
            let t = choose|t: Seq<char>| #[trigger] m.dom().contains(t) && m[t].contains(f);
            lemma_plat_map_dom(entries@, t);
            let i = choose|i: int| 0 <= i < entries@.len() && entries@[i].0@ == t;
            lemma_plat_map_entry(entries@, i);
            assert(views(entries@[i].1@).contains(f));
        }
    }
    attr
}


/// The sequence of views of a list of groups.
pub open spec fn gviews(s: Seq<TargetedFeatures>) -> Seq<(Seq<Seq<char>>, Seq<Seq<char>>)> {
    s.map_values(|g: TargetedFeatures| g@)
}

/// A group whose feature list holds exactly the association-list keys whose
/// enabling platform set is the group's platform set.
pub open spec fn group_collects(
    m: Map<Seq<char>, Set<Seq<char>>>,
    a: Seq<(String, Vec<String>)>,
    g: (Seq<Seq<char>>, Seq<Seq<char>>),
) -> bool {
    &&& sorted_strs(g.0)
    &&& sorted_strs(g.1)
    &&& g.1.len() > 0
    &&& forall|f: Seq<char>|
        #[trigger] g.1.contains(f) <==> (key_present(a, f) && enablers(m, f) == g.0.to_set())
}

/// Some group's feature list holds the feature.
pub open spec fn covered(gs: Seq<(Seq<Seq<char>>, Seq<Seq<char>>)>, f: Seq<char>) -> bool {
    exists|i: int| 0 <= i < gs.len() && #[trigger] gs[i].1.contains(f)
}

/// Whether some group already carries this exact platform list.
fn has_platform_list(groups: &Vec<TargetedFeatures>, key: &Vec<String>) -> (r: bool)
    ensures
        r == exists|i: int|
            0 <= i < groups@.len() && #[trigger] gviews(groups@)[i].0 == views(key@),
{
    let mut i: usize = 0;
    while i < groups.len()
        invariant
            i <= groups@.len(),
            forall|j: int| 0 <= j < i ==> #[trigger] gviews(groups@)[j].0 != views(key@),
        decreases groups@.len() - i,
    {
        if vec_string_eq(&groups[i].platforms, key) {
            assert(gviews(groups@)[i as int].0 == views(key@));
            return true;
        }
        assert(gviews(groups@)[i as int].0 == views(groups@[i as int].platforms@));
        i = i + 1;
    }
    false
}

/// Turns the feature-to-platforms association into groups: one group per
/// distinct platform set, holding the sorted platform list and the sorted
/// list of every feature enabled by exactly that set.
fn group_by_platforms(
    attr: &Vec<(String, Vec<String>)>,
    Ghost(m): Ghost<Map<Seq<char>, Set<Seq<char>>>>,
) -> (groups: Vec<TargetedFeatures>)
    requires
        forall|k1: int, k2: int| 0 <= k1 < k2 < attr@.len() ==> attr@[k1].0@ != attr@[k2].0@,
        forall|k: int|
            0 <= k < attr@.len() ==> is_targeted(m, #[trigger] attr@[k].0@) && same_members(
                views(attr@[k].1@),
                enablers(m, attr@[k].0@),
            ),
        forall|f: Seq<char>| is_targeted(m, f) ==> key_present(attr@, f),
    ensures
        forall|i: int, j: int|
            0 <= i < j < groups@.len() ==> gviews(groups@)[i].0 != gviews(groups@)[j].0,
        forall|i: int| 0 <= i < groups@.len() ==> group_exact(m, #[trigger] gviews(groups@)[i]),
        forall|f: Seq<char>| key_present(attr@, f) ==> covered(gviews(groups@), f),
{
    let mut groups: Vec<TargetedFeatures> = Vec::new();
    let mut n: usize = 0;
    while n < attr.len()
        invariant
            n <= attr@.len(),
            forall|k1: int, k2: int| 0 <= k1 < k2 < attr@.len() ==> attr@[k1].0@ != attr@[k2].0@,
            forall|k: int|
                0 <= k < attr@.len() ==> is_targeted(m, #[trigger] attr@[k].0@) && same_members(
                    views(attr@[k].1@),
                    enablers(m, attr@[k].0@),
                ),
            forall|i: int, j: int|
                0 <= i < j < groups@.len() ==> gviews(groups@)[i].0 != gviews(groups@)[j].0,
            forall|i: int|
                0 <= i < groups@.len() ==> group_collects(m, attr@, #[trigger] gviews(groups@)[i]),
            forall|x: int|
                0 <= x < n ==> covered(gviews(groups@), #[trigger] attr@[x].0@),
        decreases attr@.len() - n,
    {
        let key = sort_dedup_strings(&attr[n].1);
        proof {
            assert forall|t: Seq<char>|
                views(key@).to_set().contains(t) <==> enablers(m, attr@[n as int].0@).contains(
                    t,
                ) by {
                assert(views(key@).to_set().contains(t) == views(key@).contains(t));
                assert(views(key@).contains(t) == views(attr@[n as int].1@).contains(t));
            }
            assert(views(key@).to_set() =~= enablers(m, attr@[n as int].0@));
        }
        if !has_platform_list(&groups, &key) {
            let mut feats: Vec<String> = Vec::new();
            let mut i2: usize = 0;
            while i2 < attr.len()
                invariant
                    i2 <= attr@.len(),
                    forall|k1: int, k2: int|
                        0 <= k1 < k2 < attr@.len() ==> attr@[k1].0@ != attr@[k2].0@,
                    forall|k: int|
                        0 <= k < attr@.len() ==> is_targeted(m, #[trigger] attr@[k].0@)
                            && same_members(views(attr@[k].1@), enablers(m, attr@[k].0@)),
                    sorted_strs(views(key@)),
                    views(key@).to_set() == enablers(m, attr@[n as int].0@),
                    n < attr@.len(),
                    forall|t: Seq<char>|
                        #[trigger] views(key@).contains(t) <==> views(
                            attr@[n as int].1@,
                        ).contains(t),
                    forall|f: Seq<char>|
                        #[trigger] views(feats@).contains(f) <==> (exists|x: int|
                            0 <= x < i2 && #[trigger] attr@[x].0@ == f && enablers(m, f)
                                == views(key@).to_set()),
                decreases attr@.len() - i2,
            {
                let key2 = sort_dedup_strings(&attr[i2].1);
                proof {
                    assert forall|t: Seq<char>|
                        views(key2@).to_set().contains(t) <==> enablers(
                            m,
                            attr@[i2 as int].0@,
                        ).contains(t) by {
                        assert(views(key2@).to_set().contains(t) == views(key2@).contains(t));
                        assert(views(key2@).contains(t) == views(attr@[i2 as int].1@).contains(
                            t,
                        ));
                    }
                    assert(views(key2@).to_set() =~= enablers(m, attr@[i2 as int].0@));
                }
                if vec_string_eq(&key, &key2) {
                    let ghost before = feats@;
                    feats.push(attr[i2].0.clone());
                    proof {
                        lemma_views_push(before, attr@[i2 as int].0);
                        assert(enablers(m, attr@[i2 as int].0@) =~= views(key@).to_set());
                        assert forall|f: Seq<char>|
                            #[trigger] views(feats@).contains(f) <==> (exists|x: int|
                                0 <= x < i2 + 1 && #[trigger] attr@[x].0@ == f && enablers(m, f)
                                    == views(key@).to_set()) by {
                            if views(feats@).contains(f) {
                                if f == attr@[i2 as int].0@ {
                                    assert(attr@[i2 as int].0@ == f && enablers(m, f) == views(
                                        key@,
                                    ).to_set());
                                } else {
                                    assert(views(before).contains(f));
                                }
                            }
                            if exists|x: int|
                                0 <= x < i2 + 1 && #[trigger] attr@[x].0@ == f && enablers(m, f)
                                    == views(key@).to_set() {
                                let x = choose|x: int|
                                    0 <= x < i2 + 1 && #[trigger] attr@[x].0@ == f && enablers(
                                        m,
                                        f,
                                    ) == views(key@).to_set();
                                if x < i2 {
                                    assert(views(before).contains(f));
                                } else {
                                    assert(f == attr@[i2 as int].0@);
                                }
                            }
                        }
                    }
                } else {
                    proof {
                        if enablers(m, attr@[i2 as int].0@) == views(key@).to_set() {
                            assert forall|t: Seq<char>|
                                views(key2@).contains(t) <==> views(key@).contains(t) by {
                                assert(views(key2@).to_set().contains(t) == views(
                                    key2@,
                                ).contains(t));
                                assert(views(key@).to_set().contains(t) == views(key@).contains(
                                    t,
                                ));
                            }
                            lemma_sorted_strs_unique(views(key2@), views(key@));
                            assert(false);
                        }
                        assert forall|f: Seq<char>|
                            #[trigger] views(feats@).contains(f) <==> (exists|x: int|
                                0 <= x < i2 + 1 && #[trigger] attr@[x].0@ == f && enablers(m, f)
                                    == views(key@).to_set()) by {
                            if exists|x: int|
                                0 <= x < i2 + 1 && #[trigger] attr@[x].0@ == f && enablers(m, f)
                                    == views(key@).to_set() {
                                let x = choose|x: int|
                                    0 <= x < i2 + 1 && #[trigger] attr@[x].0@ == f && enablers(
                                        m,
                                        f,
                                    ) == views(key@).to_set();
                                assert(x < i2);
                            }
                        }
                    }
                }
                i2 = i2 + 1;
            }
            let sfeats = sort_dedup_strings(&feats);
            let ghost gold = groups@;
            proof {
                assert(attr@[n as int].0@ == attr@[n as int].0@ && enablers(
                    m,
                    attr@[n as int].0@,
                ) == views(key@).to_set());
                assert(views(feats@).contains(attr@[n as int].0@));
                assert(views(sfeats@).contains(attr@[n as int].0@));
            }
            groups.push(TargetedFeatures { platforms: key, features: sfeats });
            proof {
                assert(gviews(groups@) =~= gviews(gold).push(
                    (views(groups@[groups@.len() - 1].platforms@), views(
                        groups@[groups@.len() - 1].features@,
                    )),
                ));
                assert forall|i: int|
                    0 <= i < groups@.len() implies group_collects(
                    m,
                    attr@,
                    #[trigger] gviews(groups@)[i],
                ) by {
                    if i < gold.len() {
                        assert(gviews(groups@)[i] == gviews(gold)[i]);
                    } else {
                        let g = gviews(groups@)[i];
                        assert(g.0 == views(key@));
                        assert(g.1 == views(sfeats@));
                        assert forall|f: Seq<char>|
                            #[trigger] g.1.contains(f) <==> (key_present(attr@, f) && enablers(
                                m,
                                f,
                            ) == g.0.to_set()) by {
                            if g.1.contains(f) {
                                assert(views(feats@).contains(f));
                                let x = choose|x: int|
                                    0 <= x < attr@.len() && #[trigger] attr@[x].0@ == f
                                        && enablers(m, f) == views(key@).to_set();
                                assert(key_present(attr@, f));
                            }
                            if key_present(attr@, f) && enablers(m, f) == g.0.to_set() {
                                let x = choose|x: int|
                                    0 <= x < attr@.len() && #[trigger] attr@[x].0@ == f;
                                assert(attr@[x].0@ == f && enablers(m, f) == views(
                                    key@,
                                ).to_set());
                                assert(views(feats@).contains(f));
                            }
                        }
                    }
                }
                assert forall|x: int|
                    0 <= x < n + 1 implies covered(gviews(groups@), #[trigger] attr@[x].0@) by {
                    if x < n {
                        assert(covered(gviews(gold), attr@[x].0@));
                        let i = choose|i: int|
                            0 <= i < gviews(gold).len() && #[trigger] gviews(gold)[i].1.contains(
                                attr@[x].0@,
                            );
                        assert(gviews(groups@)[i].1.contains(attr@[x].0@));
                    } else {
                        assert(gviews(groups@)[groups@.len() - 1].1.contains(attr@[x].0@));
                    }
                }
            }
        } else {
            proof {
                let i = choose|i: int|
                    0 <= i < groups@.len() && #[trigger] gviews(groups@)[i].0 == views(key@);
                assert(group_collects(m, attr@, gviews(groups@)[i]));
                assert(attr@[n as int].0@ == attr@[n as int].0@);
                assert(key_present(attr@, attr@[n as int].0@));
                assert(enablers(m, attr@[n as int].0@) == gviews(groups@)[i].0.to_set());
                assert(gviews(groups@)[i].1.contains(attr@[n as int].0@));
                assert forall|x: int|
                    0 <= x < n + 1 implies covered(gviews(groups@), #[trigger] attr@[x].0@) by {
                    if x == n {
                        assert(gviews(groups@)[i].1.contains(attr@[x].0@));
                    }
                }
            }
        }
        n = n + 1;
    }
    proof {
        assert forall|f: Seq<char>| key_present(attr@, f) implies covered(
            gviews(groups@),
            f,
        ) by {
            let x = choose|x: int| 0 <= x < attr@.len() && #[trigger] attr@[x].0@ == f;
            assert(covered(gviews(groups@), attr@[x].0@));
        }
        assert forall|i: int|
            0 <= i < groups@.len() implies group_exact(m, #[trigger] gviews(groups@)[i]) by {
            let g = gviews(groups@)[i];
            assert(group_collects(m, attr@, g));
            assert forall|f: Seq<char>|
                #[trigger] g.1.contains(f) implies is_targeted(m, f) && enablers(m, f)
                    == g.0.to_set() by {
                let x = choose|x: int| 0 <= x < attr@.len() && #[trigger] attr@[x].0@ == f;
                assert(is_targeted(m, attr@[x].0@));
            }
        }
    }
    groups
}


pub proof fn lemma_group_gt_asym(a: (Seq<Seq<char>>, Seq<Seq<char>>), b: (Seq<Seq<char>>, Seq<Seq<char>>))
    ensures
        group_gt(a, b) ==> !group_gt(b, a),
{
    lemma_strs_lt_asym(a.0, b.0);
    lemma_strs_lt_asym(b.0, a.0);
}

pub proof fn lemma_group_gt_trichotomy(a: (Seq<Seq<char>>, Seq<Seq<char>>), b: (Seq<Seq<char>>, Seq<Seq<char>>))
    requires
        a.0 != b.0,
    ensures
        group_gt(a, b) || group_gt(b, a),
{
    if a.0.len() == b.0.len() {
        lemma_strs_lt_trichotomy(a.0, b.0);
    }
}

pub proof fn lemma_group_gt_trans(
    a: (Seq<Seq<char>>, Seq<Seq<char>>),
    b: (Seq<Seq<char>>, Seq<Seq<char>>),
    c: (Seq<Seq<char>>, Seq<Seq<char>>),
)
    ensures
        group_gt(a, b) && group_gt(b, c) ==> group_gt(a, c),
{
    if group_gt(a, b) && group_gt(b, c) && a.0.len() == b.0.len() && b.0.len() == c.0.len() {
        lemma_strs_lt_trans(c.0, b.0, a.0);
    }
}

/// Holds when membership in `rv` is membership in `ov` extended by `x`.
pub open spec fn g_extends_by(
    rv: Seq<(Seq<Seq<char>>, Seq<Seq<char>>)>,
    ov: Seq<(Seq<Seq<char>>, Seq<Seq<char>>)>,
    x: (Seq<Seq<char>>, Seq<Seq<char>>),
    g: (Seq<Seq<char>>, Seq<Seq<char>>),
) -> bool {
    rv.contains(g) <==> (ov.contains(g) || g == x)
}

/// Compares two groups in emission order.
fn group_gt_exec(a: &TargetedFeatures, b: &TargetedFeatures) -> (r: bool)
    ensures
        r == group_gt(a@, b@),
{
    if a.platforms.len() > b.platforms.len() {
        true
    } else if a.platforms.len() == b.platforms.len() {
        strs_lt_exec(&b.platforms, &a.platforms)
    } else {
        false
    }
}

/// The first position whose group does not come before `x`.
fn group_lower_bound(r: &Vec<TargetedFeatures>, x: &TargetedFeatures) -> (i: usize)
    ensures
        i <= r@.len(),
        forall|j: int| 0 <= j < i ==> group_gt(#[trigger] gviews(r@)[j], x@),
        i < r@.len() ==> !group_gt(gviews(r@)[i as int], x@),
{
    let mut i: usize = 0;
    while i < r.len()
        invariant
            i <= r@.len(),
            forall|j: int| 0 <= j < i ==> group_gt(#[trigger] gviews(r@)[j], x@),
        decreases r@.len() - i,
    {
        if !group_gt_exec(&r[i], x) {
            assert(gviews(r@)[i as int] == r@[i as int]@);
            return i;
        }
        assert(gviews(r@)[i as int] == r@[i as int]@);
        i = i + 1;
    }
    i
}

/// Inserts a group into a list sorted in emission order, keeping the order.
fn insert_group_sorted(r: &mut Vec<TargetedFeatures>, x: TargetedFeatures)
    requires
        forall|i: int, j: int|
            0 <= i < j < old(r)@.len() ==> group_gt(gviews(old(r)@)[i], gviews(old(r)@)[j]),
        forall|i: int| 0 <= i < old(r)@.len() ==> #[trigger] gviews(old(r)@)[i].0 != x@.0,
    ensures
        forall|i: int, j: int|
            0 <= i < j < final(r)@.len() ==> group_gt(gviews(final(r)@)[i], gviews(final(r)@)[j]),
        forall|g: (Seq<Seq<char>>, Seq<Seq<char>>)|
            #[trigger] g_extends_by(gviews(final(r)@), gviews(old(r)@), x@, g),
{
    let ghost orig = r@;
    let i = group_lower_bound(r, &x);
    if i < r.len() {
        proof {
            lemma_group_gt_trichotomy(gviews(r@)[i as int], x@);
        }
        assert(group_gt(x@, gviews(r@)[i as int]));
    }
    r.insert(i, x);
    assert(gviews(r@) =~= gviews(orig).insert(i as int, x@));
    assert forall|p: int, q: int|
        0 <= p < q < gviews(r@).len() implies group_gt(gviews(r@)[p], gviews(r@)[q]) by {
        let vi = gviews(orig);
        let i_ = i as int;
        if p == i_ && q > i_ {
            if q - 1 > i_ {
                lemma_group_gt_trans(x@, vi[i_], vi[q - 1]);
            }
        } else if p < i_ && q > i_ {
            if q - 1 > i_ {
                lemma_group_gt_trans(x@, vi[i_], vi[q - 1]);
            }
            lemma_group_gt_trans(vi[p], x@, vi[q - 1]);
        }
    }
    assert forall|g: (Seq<Seq<char>>, Seq<Seq<char>>)|
        #[trigger] g_extends_by(gviews(r@), gviews(orig), x@, g) by {
        if gviews(r@).contains(g) {
            let k = choose|k: int| 0 <= k < gviews(r@).len() && gviews(r@)[k] == g;
            if k < i {
                assert(gviews(orig)[k] == g);
            } else if k > i {
                assert(gviews(orig)[k - 1] == g);
            }
        }
        if gviews(orig).contains(g) {
            let k = choose|k: int| 0 <= k < gviews(orig).len() && gviews(orig)[k] == g;
            if k < i {
                assert(gviews(r@)[k] == g);
            } else {
                assert(gviews(r@)[k + 1] == g);
            }
        }
        if g == x@ {
            assert(gviews(r@)[i as int] == g);
        }
    }
}

/// Sorts groups into emission order: more platforms first, then the larger
/// platform list first.
fn sort_groups(v: Vec<TargetedFeatures>) -> (r: Vec<TargetedFeatures>)
    requires
        forall|i: int, j: int|
            0 <= i < j < v@.len() ==> gviews(v@)[i].0 != gviews(v@)[j].0,
    ensures
        forall|i: int, j: int|
            0 <= i < j < r@.len() ==> group_gt(gviews(r@)[i], gviews(r@)[j]),
        forall|g: (Seq<Seq<char>>, Seq<Seq<char>>)|
            #[trigger] gviews(r@).contains(g) <==> gviews(v@).contains(g),
{
    let ghost orig = v@;
    let mut v = v;
    let mut r: Vec<TargetedFeatures> = Vec::new();
    proof {
        assert(orig.take(orig.len() as int) =~= orig);
    }
    while v.len() > 0
        invariant
            v@.len() <= orig.len(),
            v@ == orig.take(v@.len() as int),
            forall|i: int, j: int|
                0 <= i < j < orig.len() ==> gviews(orig)[i].0 != gviews(orig)[j].0,
            forall|i: int, j: int|
                0 <= i < j < r@.len() ==> group_gt(gviews(r@)[i], gviews(r@)[j]),
            forall|g: (Seq<Seq<char>>, Seq<Seq<char>>)|
                #[trigger] gviews(r@).contains(g) <==> gviews(orig).skip(
                    v@.len() as int,
                ).contains(g),
        decreases v@.len(),
    {
        let ghost vlen = v@.len() as int;
        let popped = v.pop();
        let x = match popped {
            Some(x) => x,
            None => unreached(),
        };
        proof {
            assert(v@ =~= orig.take(vlen - 1));
            assert(x == orig.take(vlen)[vlen - 1]);
            assert(x@ == gviews(orig)[vlen - 1]);
        }
        assert forall|i: int| 0 <= i < r@.len() implies #[trigger] gviews(r@)[i].0 != x@.0 by {
            assert(gviews(r@).contains(gviews(r@)[i]));
            assert(gviews(orig).skip(vlen).contains(gviews(r@)[i]));
            let k = choose|k: int|
                0 <= k < gviews(orig).skip(vlen).len() && gviews(orig).skip(vlen)[k] == gviews(
                    r@,
                )[i];
            assert(gviews(orig)[k + vlen] == gviews(r@)[i]);
            assert(gviews(orig)[k + vlen].0 != gviews(orig)[vlen - 1].0);
        }
        let ghost rold = r@;
        insert_group_sorted(&mut r, x);
        assert forall|g: (Seq<Seq<char>>, Seq<Seq<char>>)|
            #[trigger] gviews(r@).contains(g) <==> gviews(orig).skip(vlen - 1).contains(g) by {
            assert(g_extends_by(gviews(r@), gviews(rold), x@, g));
            if gviews(orig).skip(vlen - 1).contains(g) {
                let k = choose|k: int|
                    0 <= k < gviews(orig).skip(vlen - 1).len() && #[trigger] gviews(orig).skip(
                        vlen - 1,
                    )[k] == g;
                if k == 0 {
                    assert(g == gviews(orig)[vlen - 1]);
                } else {
                    assert(gviews(orig).skip(vlen)[k - 1] == g);
                    assert(gviews(orig).skip(vlen).contains(g));
                }
            }
            if gviews(rold).contains(g) {
                let k = choose|k: int|
                    0 <= k < gviews(orig).skip(vlen).len() && #[trigger] gviews(orig).skip(
                        vlen,
                    )[k] == g;
                assert(gviews(orig).skip(vlen - 1)[k + 1] == g);
            }
            if g == x@ {
                assert(gviews(orig).skip(vlen - 1)[0] == g);
            }
        }
    }
    proof {
        assert(gviews(orig).skip(0) =~= gviews(orig));
    }
    r
}

/// Consolidates one package's platform-to-features listing into the common
/// feature list and the targeted groups, in canonical order.
pub fn consolidate_features(entries: &Vec<(String, Vec<String>)>) -> (r: Features)
    requires
        entries@.len() > 0,
        unique_keys(entries@),
    ensures
        consolidated(plat_map(entries@), r@),
{
    let ghost m = plat_map(entries@);
    let common = intersect_common(entries);
    let attr = attribute_exclusive(entries, &common);
    let groups = group_by_platforms(&attr, Ghost(m));
    let sorted = sort_groups(groups);
    let ghost groups_v = gviews(sorted@);
    let features = sort_dedup_strings(&common);
    let r = Features { features, targeted_features: sorted };
    proof {
        assert(r@.0 == views(r.features@));
        assert(r@.1 =~= gviews(r.targeted_features@));
        assert forall|i: int| 0 <= i < r@.1.len() implies group_exact(m, #[trigger] r@.1[i]) by {
            assert(gviews(sorted@).contains(gviews(sorted@)[i]));
            let j = choose|j: int|
                0 <= j < gviews(groups@).len() && #[trigger] gviews(groups@)[j] == gviews(
                    sorted@,
                )[i];
            assert(group_exact(m, gviews(groups@)[j]));
        }
        assert forall|f: Seq<char>| is_targeted(m, f) implies exists|i: int|
            0 <= i < r@.1.len() && #[trigger] r@.1[i].1.contains(f) by {
            assert(key_present(attr@, f));
            assert(covered(gviews(groups@), f));
            let j = choose|j: int|
                0 <= j < gviews(groups@).len() && #[trigger] gviews(groups@)[j].1.contains(f);
            assert(gviews(groups@).contains(gviews(groups@)[j]));
            assert(gviews(sorted@).contains(gviews(groups@)[j]));
            let i = choose|i: int|
                0 <= i < gviews(sorted@).len() && gviews(sorted@)[i] == gviews(groups@)[j];
            assert(r@.1[i].1.contains(f));
        }
    }
    r
}


/// Any group of one output also stands in the other: a group is determined
/// by the map and its platform set alone.
proof fn lemma_groups_contained(
    m: Map<Seq<char>, Set<Seq<char>>>,
    gs: Seq<(Seq<Seq<char>>, Seq<Seq<char>>)>,
    hs: Seq<(Seq<Seq<char>>, Seq<Seq<char>>)>,
)
    requires
        forall|i: int| 0 <= i < gs.len() ==> group_exact(m, #[trigger] gs[i]),
        forall|i: int| 0 <= i < hs.len() ==> group_exact(m, #[trigger] hs[i]),
        forall|f: Seq<char>|
            is_targeted(m, f) ==> exists|i: int|
                0 <= i < hs.len() && #[trigger] hs[i].1.contains(f),
    ensures
        forall|g: (Seq<Seq<char>>, Seq<Seq<char>>)| #[trigger] gs.contains(g) ==> hs.contains(g),
{
    assert forall|g: (Seq<Seq<char>>, Seq<Seq<char>>)|
        #[trigger] gs.contains(g) implies hs.contains(g) by {
        let gi = choose|gi: int| 0 <= gi < gs.len() && gs[gi] == g;
        assert(group_exact(m, g));
        let f0 = g.1[0];
        assert(g.1.contains(f0));
        assert(is_targeted(m, f0) && enablers(m, f0) == g.0.to_set());
        let hi = choose|hi: int| 0 <= hi < hs.len() && #[trigger] hs[hi].1.contains(f0);
        let h = hs[hi];
        assert(group_exact(m, h));
        assert(enablers(m, f0) == h.0.to_set());
        assert forall|t: Seq<char>| g.0.contains(t) <==> h.0.contains(t) by {
            assert(g.0.to_set().contains(t) == g.0.contains(t));
            assert(h.0.to_set().contains(t) == h.0.contains(t));
        }
        lemma_sorted_strs_unique(g.0, h.0);
        assert forall|f: Seq<char>| g.1.contains(f) <==> h.1.contains(f) by {
            if g.1.contains(f) {
                assert(is_targeted(m, f) && enablers(m, f) == g.0.to_set());
                assert(h.1.contains(f));
            }
            if h.1.contains(f) {
                assert(is_targeted(m, f) && enablers(m, f) == h.0.to_set());
                assert(g.1.contains(f));
            }
        }
        lemma_sorted_strs_unique(g.1, h.1);
        assert(g == h);
        assert(hs[hi] == g);
    }
}

/// Consolidation is canonical: two outputs that both satisfy the contract
/// for one platform map are identical, field for field.
pub proof fn lemma_consolidated_unique(
    m: Map<Seq<char>, Set<Seq<char>>>,
    x: (Seq<Seq<char>>, Seq<(Seq<Seq<char>>, Seq<Seq<char>>)>),
    y: (Seq<Seq<char>>, Seq<(Seq<Seq<char>>, Seq<Seq<char>>)>),
)
    requires
        consolidated(m, x),
        consolidated(m, y),
    ensures
        x == y,
{
    assert forall|f: Seq<char>| x.0.contains(f) <==> y.0.contains(f) by {
        assert(x.0.contains(f) <==> is_common(m, f));
        assert(y.0.contains(f) <==> is_common(m, f));
    }
    lemma_sorted_strs_unique(x.0, y.0);
    lemma_groups_contained(m, x.1, y.1);
    lemma_groups_contained(m, y.1, x.1);
    let gt = |a: (Seq<Seq<char>>, Seq<Seq<char>>), b: (Seq<Seq<char>>, Seq<Seq<char>>)|
        group_gt(a, b);
    assert forall|a: (Seq<Seq<char>>, Seq<Seq<char>>), b: (Seq<Seq<char>>, Seq<Seq<char>>)|
        #[trigger] gt(a, b) implies !gt(b, a) by {
        lemma_group_gt_asym(a, b);
    }
    assert(forall|i: int, j: int| 0 <= i < j < x.1.len() ==> gt(x.1[i], x.1[j]));
    assert(forall|i: int, j: int| 0 <= i < j < y.1.len() ==> gt(y.1[i], y.1[j]));
    assert(forall|g: (Seq<Seq<char>>, Seq<Seq<char>>)|
        x.1.contains(g) <==> y.1.contains(g));
    lemma_sorted_unique(gt, x.1, y.1);
}

/// Consolidation does not depend on the order of the entry list: two runs
/// over entry lists that stand for the same platform map, run twice over the
/// same list included, return equal values.
pub proof fn lemma_consolidation_deterministic(
    a: Seq<(String, Vec<String>)>,
    b: Seq<(String, Vec<String>)>,
    x: (Seq<Seq<char>>, Seq<(Seq<Seq<char>>, Seq<Seq<char>>)>),
    y: (Seq<Seq<char>>, Seq<(Seq<Seq<char>>, Seq<Seq<char>>)>),
)
    requires
        plat_map(a) == plat_map(b),
        consolidated(plat_map(a), x),
        consolidated(plat_map(b), y),
    ensures
        x == y,
{
    lemma_consolidated_unique(plat_map(a), x, y);
}

/// When every platform of the map carries one same feature set, nothing is
/// targeted: the output has no groups and its common list holds that set.
pub proof fn lemma_uniform_map_has_no_groups(
    m: Map<Seq<char>, Set<Seq<char>>>,
    s: Set<Seq<char>>,
    fv: (Seq<Seq<char>>, Seq<(Seq<Seq<char>>, Seq<Seq<char>>)>),
)
    requires
        exists|t: Seq<char>| #[trigger] m.dom().contains(t),
        forall|t: Seq<char>| #[trigger] m.dom().contains(t) ==> m[t] == s,
        consolidated(m, fv),
    ensures
        fv.1.len() == 0,
        forall|f: Seq<char>| #[trigger] fv.0.contains(f) <==> s.contains(f),
{
    let t0 = choose|t: Seq<char>| #[trigger] m.dom().contains(t);
    assert forall|f: Seq<char>| #[trigger] fv.0.contains(f) <==> s.contains(f) by {
        if s.contains(f) {
            assert(m.dom().contains(t0) && m[t0].contains(f));
            assert(in_some(m, f));
            assert(is_common(m, f));
        }
        if fv.0.contains(f) {
            assert(is_common(m, f));
            let t = choose|t: Seq<char>| #[trigger] m.dom().contains(t) && m[t].contains(f);
            assert(m[t] == s);
        }
    }
    if fv.1.len() > 0 {
        let g = fv.1[0];
        assert(group_exact(m, g));
        let f = g.1[0];
        assert(g.1.contains(f));
        assert(is_targeted(m, f));
        let t = choose|t: Seq<char>| #[trigger] m.dom().contains(t) && m[t].contains(f);
        assert(s.contains(f));
        assert forall|t2: Seq<char>| #[trigger] m.dom().contains(t2) implies m[t2].contains(
            f,
        ) by {
            assert(m[t2] == s);
        }
        assert(is_common(m, f));
        assert(false);
    }
}

/// A package reported on exactly one platform keeps that platform's feature
/// set as its common list and gets no targeted group.
pub proof fn lemma_single_platform(
    m: Map<Seq<char>, Set<Seq<char>>>,
    t: Seq<char>,
    fv: (Seq<Seq<char>>, Seq<(Seq<Seq<char>>, Seq<Seq<char>>)>),
)
    requires
        m.dom().contains(t),
        forall|t2: Seq<char>| #[trigger] m.dom().contains(t2) ==> t2 == t,
        consolidated(m, fv),
    ensures
        fv.1.len() == 0,
        forall|f: Seq<char>| #[trigger] fv.0.contains(f) <==> m[t].contains(f),
{
    assert forall|t2: Seq<char>| #[trigger] m.dom().contains(t2) implies m[t2] == m[t] by {
        assert(t2 == t);
    }
    lemma_uniform_map_has_no_groups(m, m[t], fv);
}

} // verus!
