//! Lexicographic ordering of strings and of string lists, as specification
//! relations together with executable comparators, plus sorted-and-unique
//! sequences and the helpers that build them.

use vstd::prelude::*;

verus! {

/// Strict order on characters, by code point.
pub open spec fn char_lt(a: char, b: char) -> bool {
    a < b
}

/// Strict lexicographic order on character sequences.
pub open spec fn str_lt(a: Seq<char>, b: Seq<char>) -> bool
    decreases a.len(),
{
    if b.len() == 0 {
        false
    } else if a.len() == 0 {
        true
    } else if char_lt(a[0], b[0]) {
        true
    } else if a[0] == b[0] {
        str_lt(a.skip(1), b.skip(1))
    } else {
        false
    }
}

/// The sequence of views of a list of strings.
pub open spec fn views(s: Seq<String>) -> Seq<Seq<char>> {
    s.map_values(|x: String| x@)
}

/// A list of strings in strictly increasing lexicographic order:
/// sorted and free of duplicates.
pub open spec fn sorted_strs(s: Seq<Seq<char>>) -> bool {
    forall|i: int, j: int| 0 <= i < j < s.len() ==> str_lt(s[i], s[j])
}

pub proof fn lemma_str_lt_asym(a: Seq<char>, b: Seq<char>)
    ensures
        str_lt(a, b) ==> !str_lt(b, a),
    decreases a.len(),
{
    if a.len() > 0 && b.len() > 0 && a[0] == b[0] {
        lemma_str_lt_asym(a.skip(1), b.skip(1));
    }
}

pub proof fn lemma_str_lt_trichotomy(a: Seq<char>, b: Seq<char>)
    ensures
        a == b || str_lt(a, b) || str_lt(b, a),
    decreases a.len(),
{
    if a.len() > 0 && b.len() > 0 {
        if a[0] == b[0] {
            lemma_str_lt_trichotomy(a.skip(1), b.skip(1));
            if a.skip(1) == b.skip(1) {
                assert(a.skip(1).len() == a.len() - 1);
                assert(b.skip(1).len() == b.len() - 1);
                assert(a.len() == b.len());
                assert forall|i: int| 0 <= i < a.len() implies a[i] == b[i] by {
                    if i > 0 {
                        assert(a[i] == a.skip(1)[i - 1]);
                        assert(b[i] == b.skip(1)[i - 1]);
                    }
                }
                assert(a =~= b);
            }
        } else {
            assert(char_lt(a[0], b[0]) || char_lt(b[0], a[0]));
        }
    }
}

pub proof fn lemma_str_lt_trans(a: Seq<char>, b: Seq<char>, c: Seq<char>)
    ensures
        str_lt(a, b) && str_lt(b, c) ==> str_lt(a, c),
    decreases a.len() + b.len() + c.len(),
{
    if a.len() > 0 && b.len() > 0 && c.len() > 0 {
        lemma_str_lt_trans(a.skip(1), b.skip(1), c.skip(1));
    }
}

/// Strict lexicographic order on lists of strings, element order `str_lt`.
pub open spec fn strs_lt(a: Seq<Seq<char>>, b: Seq<Seq<char>>) -> bool
    decreases a.len(),
{
    if b.len() == 0 {
        false
    } else if a.len() == 0 {
        true
    } else if str_lt(a[0], b[0]) {
        true
    } else if a[0] == b[0] {
        strs_lt(a.skip(1), b.skip(1))
    } else {
        false
    }
}

pub proof fn lemma_strs_lt_asym(a: Seq<Seq<char>>, b: Seq<Seq<char>>)
    ensures
        strs_lt(a, b) ==> !strs_lt(b, a),
    decreases a.len(),
{
    if a.len() > 0 && b.len() > 0 {
        lemma_str_lt_asym(a[0], b[0]);
        if a[0] == b[0] {
            lemma_strs_lt_asym(a.skip(1), b.skip(1));
        }
    }
}

pub proof fn lemma_strs_lt_trichotomy(a: Seq<Seq<char>>, b: Seq<Seq<char>>)
    ensures
        a == b || strs_lt(a, b) || strs_lt(b, a),
    decreases a.len(),
{
    if a.len() > 0 && b.len() > 0 {
        lemma_str_lt_trichotomy(a[0], b[0]);
        if a[0] == b[0] {
            lemma_strs_lt_trichotomy(a.skip(1), b.skip(1));
            if a.skip(1) == b.skip(1) {
                assert(a.skip(1).len() == a.len() - 1);
                assert(b.skip(1).len() == b.len() - 1);
                assert(a.len() == b.len());
                assert forall|i: int| 0 <= i < a.len() implies a[i] == b[i] by {
                    if i > 0 {
                        assert(a[i] == a.skip(1)[i - 1]);
                        assert(b[i] == b.skip(1)[i - 1]);
                    }
                }
                assert(a =~= b);
            }
        }
    }
}

pub proof fn lemma_strs_lt_trans(a: Seq<Seq<char>>, b: Seq<Seq<char>>, c: Seq<Seq<char>>)
    ensures
        strs_lt(a, b) && strs_lt(b, c) ==> strs_lt(a, c),
    decreases a.len() + b.len() + c.len(),
{
    if a.len() > 0 && b.len() > 0 && c.len() > 0 {
        lemma_str_lt_asym(a[0], b[0]);
        lemma_str_lt_trans(a[0], b[0], c[0]);
        lemma_strs_lt_trans(a.skip(1), b.skip(1), c.skip(1));
    }
}

/// Two sequences that are strictly sorted by one asymmetric relation and hold
/// the same elements are the same sequence. This is what makes every sorted,
/// duplicate-free output of this library canonical.
pub proof fn lemma_sorted_unique<T>(gt: spec_fn(T, T) -> bool, a: Seq<T>, b: Seq<T>)
    requires
        forall|x: T, y: T| #[trigger] gt(x, y) ==> !gt(y, x),
        forall|i: int, j: int| 0 <= i < j < a.len() ==> gt(a[i], a[j]),
        forall|i: int, j: int| 0 <= i < j < b.len() ==> gt(b[i], b[j]),
        forall|x: T| a.contains(x) <==> b.contains(x),
    ensures
        a == b,
    decreases a.len(),
{
    if a.len() == 0 {
        if b.len() > 0 {
            assert(b.contains(b[0]));
            assert(a.contains(b[0]));
        }
        assert(a =~= b);
    } else {
        assert(a.contains(a[0]));
        assert(b.contains(a[0]));
        let bi = choose|bi: int| 0 <= bi < b.len() && b[bi] == a[0];
        assert(a.contains(b[0]));
        let aj = choose|aj: int| 0 <= aj < a.len() && a[aj] == b[0];
        if a[0] != b[0] {
            assert(bi > 0 && aj > 0);
            assert(gt(b[0], b[bi]));
            assert(gt(a[0], a[aj]));
            assert(false);
        }
        let at = a.skip(1);
        let bt = b.skip(1);
        assert forall|x: T| at.contains(x) implies bt.contains(x) by {
            let k = choose|k: int| 0 <= k < at.len() && at[k] == x;
            assert(a[k + 1] == x);
            assert(a.contains(x));
            if x == a[0] {
                assert(gt(a[0], a[k + 1]));
                assert(false);
            }
            assert(b.contains(x));
            let l = choose|l: int| 0 <= l < b.len() && b[l] == x;
            assert(l > 0);
            assert(bt[l - 1] == x);
        }
        assert forall|x: T| bt.contains(x) implies at.contains(x) by {
            let k = choose|k: int| 0 <= k < bt.len() && bt[k] == x;
            assert(b[k + 1] == x);
            assert(b.contains(x));
            if x == b[0] {
                assert(gt(b[0], b[k + 1]));
                assert(false);
            }
            assert(a.contains(x));
            let l = choose|l: int| 0 <= l < a.len() && a[l] == x;
            assert(l > 0);
            assert(at[l - 1] == x);
        }
        lemma_sorted_unique(gt, at, bt);
        assert forall|i: int| 0 <= i < a.len() implies a[i] == b[i] by {
            if i > 0 {
                assert(a[i] == at[i - 1]);
                assert(b[i] == bt[i - 1]);
            }
        }
        assert(a =~= b);
    }
}

/// Sequences that are strictly sorted by `str_lt` and hold the same strings
/// are equal.
pub proof fn lemma_sorted_strs_unique(a: Seq<Seq<char>>, b: Seq<Seq<char>>)
    requires
        sorted_strs(a),
        sorted_strs(b),
        forall|x: Seq<char>| a.contains(x) <==> b.contains(x),
    ensures
        a == b,
{
    let lt = |x: Seq<char>, y: Seq<char>| str_lt(x, y);
    assert forall|x: Seq<char>, y: Seq<char>| #[trigger] lt(x, y) implies !lt(y, x) by {
        lemma_str_lt_asym(x, y);
    }
    assert(forall|i: int, j: int| 0 <= i < j < a.len() ==> lt(a[i], a[j]));
    assert(forall|i: int, j: int| 0 <= i < j < b.len() ==> lt(b[i], b[j]));
    lemma_sorted_unique(lt, a, b);
}

/// Compares two strings; returns whether `a@` comes strictly before `b@`.
pub fn str_lt_exec(a: &str, b: &str) -> (r: bool)
    ensures
        r == str_lt(a@, b@),
{
    let a_len = a.unicode_len();
    let b_len = b.unicode_len();
    let mut i: usize = 0;
    proof {
        assert(a@.skip(0) =~= a@);
        assert(b@.skip(0) =~= b@);
    }
    loop
        invariant
            i <= a_len,
            i <= b_len,
            a_len == a@.len(),
            b_len == b@.len(),
            forall|j: int| 0 <= j < i ==> a@[j] == b@[j],
            str_lt(a@, b@) == str_lt(a@.skip(i as int), b@.skip(i as int)),
        decreases a_len - i,
    {
        if i == b_len {
            return false;
        }
        if i == a_len {
            return true;
        }
        let ca = a.get_char(i);
        let cb = b.get_char(i);
        if ca < cb {
            assert(str_lt(a@.skip(i as int), b@.skip(i as int)));
            return true;
        }
        if cb < ca {
            assert(ca != cb);
            assert(!str_lt(a@.skip(i as int), b@.skip(i as int)));
            return false;
        }
        assert(ca == cb);
        assert(a@.skip(i as int).skip(1) =~= a@.skip(i + 1));
        assert(b@.skip(i as int).skip(1) =~= b@.skip(i + 1));
        i = i + 1;
    }
}

/// String equality, reflected to the views.
pub fn string_eq(a: &String, b: &String) -> (r: bool)
    ensures
        r == (a@ == b@),
{
    a.eq(b)
}

/// Whether some string of `v` has the view of `x`.
pub fn contains_string(v: &Vec<String>, x: &String) -> (r: bool)
    ensures
        r == views(v@).contains(x@),
{
    let mut i: usize = 0;
    while i < v.len()
        invariant
            i <= v@.len(),
            forall|j: int| 0 <= j < i ==> views(v@)[j] != x@,
        decreases v@.len() - i,
    {
        if string_eq(&v[i], x) {
            assert(views(v@)[i as int] == x@);
            return true;
        }
        i = i + 1;
    }
    false
}

/// Holds when membership in `rv` is membership in `ov` extended by `x`.
pub open spec fn extends_by(rv: Seq<Seq<char>>, ov: Seq<Seq<char>>, x: Seq<char>, s: Seq<char>) -> bool {
    rv.contains(s) <==> (ov.contains(s) || s == x)
}

/// The first position of a sorted list whose string is not below `x`.
fn lower_bound(r: &Vec<String>, x: &String) -> (i: usize)
    ensures
        i <= r@.len(),
        forall|j: int| 0 <= j < i ==> str_lt(views(r@)[j], x@),
        i < r@.len() ==> !str_lt(views(r@)[i as int], x@),
{
    let mut i: usize = 0;
    while i < r.len()
        invariant
            i <= r@.len(),
            forall|j: int| 0 <= j < i ==> str_lt(views(r@)[j], x@),
        decreases r@.len() - i,
    {
        if !str_lt_exec(r[i].as_str(), x.as_str()) {
            assert(views(r@)[i as int] == r@[i as int]@);
            return i;
        }
        assert(views(r@)[i as int] == r@[i as int]@);
        i = i + 1;
    }
    i
}

/// Inserts `x` into a strictly sorted list, keeping it sorted and
/// duplicate-free; a string already present is dropped.
pub fn insert_string_sorted(r: &mut Vec<String>, x: String)
    requires
        sorted_strs(views(old(r)@)),
    ensures
        sorted_strs(views(final(r)@)),
        forall|s: Seq<char>| #[trigger] extends_by(views(final(r)@), views(old(r)@), x@, s),
{
    let ghost orig = r@;
    let i = lower_bound(r, &x);
    if i < r.len() {
        if string_eq(&r[i], &x) {
            assert(views(r@).contains(x@)) by {
                assert(views(r@)[i as int] == x@);
            }
            assert(forall|s: Seq<char>| #[trigger] extends_by(views(r@), views(orig), x@, s));
            return ;
        }
        proof {
            lemma_str_lt_trichotomy(views(r@)[i as int], x@);
        }
    }
    assert(i < r@.len() ==> str_lt(x@, views(r@)[i as int]));
    r.insert(i, x);
    assert(views(r@) =~= views(orig).insert(i as int, x@));
    assert forall|p: int, q: int| 0 <= p < q < views(r@).len() implies str_lt(
        views(r@)[p],
        views(r@)[q],
    ) by {
        let vi = views(orig);
        let i_ = i as int;
        if p < i_ && q == i_ {
        } else if p == i_ && q > i_ {
            if i_ < vi.len() {
                lemma_str_lt_trans(x@, vi[i_], vi[q - 1]);
            }
        } else if p < i_ && q > i_ {
            if q - 1 > i_ {
                lemma_str_lt_trans(x@, vi[i_], vi[q - 1]);
            }
            lemma_str_lt_trans(vi[p], x@, vi[q - 1]);
        }
    }
    assert forall|s: Seq<char>| #[trigger] extends_by(views(r@), views(orig), x@, s) by {
        if views(r@).contains(s) {
            let k = choose|k: int| 0 <= k < views(r@).len() && views(r@)[k] == s;
            if k < i {
                assert(views(orig)[k] == s);
            } else if k > i {
                assert(views(orig)[k - 1] == s);
            }
        }
        if views(orig).contains(s) {
            let k = choose|k: int| 0 <= k < views(orig).len() && views(orig)[k] == s;
            if k < i {
                assert(views(r@)[k] == s);
            } else {
                assert(views(r@)[k + 1] == s);
            }
        }
        if s == x@ {
            assert(views(r@)[i as int] == s);
        }
    }
}

/// Sorts a list of strings lexicographically and removes duplicates:
/// the result holds the same strings, in strictly increasing order.
pub fn sort_dedup_strings(v: &Vec<String>) -> (r: Vec<String>)
    ensures
        sorted_strs(views(r@)),
        forall|s: Seq<char>| views(r@).contains(s) <==> views(v@).contains(s),
{
    let mut r: Vec<String> = Vec::new();
    let mut i: usize = 0;
    assert(views(r@) =~= Seq::<Seq<char>>::empty());
    while i < v.len()
        invariant
            i <= v@.len(),
            sorted_strs(views(r@)),
            forall|s: Seq<char>|
                views(r@).contains(s) <==> views(v@).take(i as int).contains(s),
        decreases v@.len() - i,
    {
        let ghost before = r@;
        insert_string_sorted(&mut r, v[i].clone());
        assert forall|s: Seq<char>|
            views(r@).contains(s) <==> views(v@).take(i + 1).contains(s) by {
            assert(extends_by(views(r@), views(before), v@[i as int]@, s));
            assert(views(v@).take(i + 1).drop_last() =~= views(v@).take(i as int));
            assert(views(v@).take(i + 1).last() == views(v@)[i as int]);
            if views(v@).take(i + 1).contains(s) {
                let k = choose|k: int|
                    0 <= k < i + 1 && #[trigger] views(v@).take(i + 1)[k] == s;
                if k < i {
                    assert(views(v@).take(i as int)[k] == s);
                } else {
                    assert(s == views(v@)[i as int]);
                }
            }
            if views(v@).take(i as int).contains(s) {
                let k = choose|k: int| 0 <= k < i && views(v@).take(i as int)[k] == s;
                assert(views(v@).take(i + 1)[k] == s);
            }
            if s == views(v@)[i as int] {
                assert(views(v@).take(i + 1)[i as int] == s);
            }
        }
        i = i + 1;
    }
    assert(views(v@).take(v@.len() as int) =~= views(v@));
    r
}

/// Whether two string lists agree element by element.
pub fn vec_string_eq(a: &Vec<String>, b: &Vec<String>) -> (r: bool)
    ensures
        r == (views(a@) == views(b@)),
{
    if a.len() != b.len() {
        assert(views(a@).len() != views(b@).len());
        return false;
    }
    let mut i: usize = 0;
    while i < a.len()
        invariant
            i <= a@.len(),
            a@.len() == b@.len(),
            forall|j: int| 0 <= j < i ==> views(a@)[j] == views(b@)[j],
        decreases a@.len() - i,
    {
        if !string_eq(&a[i], &b[i]) {
            assert(views(a@)[i as int] != views(b@)[i as int]);
            return false;
        }
        i = i + 1;
    }
    assert(views(a@) =~= views(b@));
    true
}


/// Membership in a one-longer prefix is membership in the prefix or the
/// element just past it.
pub proof fn lemma_take_plus_one(s: Seq<Seq<char>>, n: int)
    requires
        0 <= n < s.len(),
    ensures
        forall|f: Seq<char>|
            #[trigger] s.take(n + 1).contains(f) <==> (s.take(n).contains(f) || f == s[n]),
{
    assert forall|f: Seq<char>|
        #[trigger] s.take(n + 1).contains(f) <==> (s.take(n).contains(f) || f == s[n]) by {
        if s.take(n + 1).contains(f) {
            let k = choose|k: int| 0 <= k < n + 1 && #[trigger] s.take(n + 1)[k] == f;
            if k < n {
                assert(s.take(n)[k] == f);
            } else {
                assert(f == s[n]);
            }
        }
        if s.take(n).contains(f) {
            let k = choose|k: int| 0 <= k < n && #[trigger] s.take(n)[k] == f;
            assert(s.take(n + 1)[k] == f);
        }
        if f == s[n] {
            assert(s.take(n + 1)[n] == f);
        }
    }
}

/// Pushing one string extends the views by exactly its view.
pub proof fn lemma_views_push(s: Seq<String>, x: String)
    ensures
        views(s.push(x)) =~= views(s).push(x@),
        forall|f: Seq<char>|
            #[trigger] views(s.push(x)).contains(f) <==> (views(s).contains(f) || f == x@),
{
    assert(views(s.push(x)) =~= views(s).push(x@));
    assert forall|f: Seq<char>|
        #[trigger] views(s.push(x)).contains(f) <==> (views(s).contains(f) || f == x@) by {
        let w = views(s).push(x@);
        if w.contains(f) {
            let k = choose|k: int| 0 <= k < w.len() && w[k] == f;
            if k < views(s).len() {
                assert(views(s)[k] == f);
            }
        }
        if views(s).contains(f) {
            let k = choose|k: int| 0 <= k < views(s).len() && views(s)[k] == f;
            assert(w[k] == f);
        }
        if f == x@ {
            assert(w[w.len() - 1] == f);
        }
    }
}

/// Compares two string lists; returns whether the first comes strictly
/// before the second in lexicographic order.
pub fn strs_lt_exec(a: &Vec<String>, b: &Vec<String>) -> (r: bool)
    ensures
        r == strs_lt(views(a@), views(b@)),
{
    let ghost va = views(a@);
    let ghost vb = views(b@);
    let mut i: usize = 0;
    proof {
        assert(va.skip(0) =~= va);
        assert(vb.skip(0) =~= vb);
    }
    loop
        invariant
            i <= a@.len(),
            i <= b@.len(),
            va == views(a@),
            vb == views(b@),
            va.len() == a@.len(),
            vb.len() == b@.len(),
            strs_lt(va, vb) == strs_lt(va.skip(i as int), vb.skip(i as int)),
        decreases a@.len() - i,
    {
        if i == b.len() {
            return false;
        }
        if i == a.len() {
            return true;
        }
        if str_lt_exec(a[i].as_str(), b[i].as_str()) {
            assert(va.skip(i as int)[0] == va[i as int]);
            assert(strs_lt(va.skip(i as int), vb.skip(i as int)));
            return true;
        }
        if !string_eq(&a[i], &b[i]) {
            proof {
                lemma_str_lt_trichotomy(va[i as int], vb[i as int]);
            }
            assert(str_lt(vb[i as int], va[i as int]));
            proof {
                lemma_str_lt_asym(vb[i as int], va[i as int]);
            }
            assert(!strs_lt(va.skip(i as int), vb.skip(i as int)));
            return false;
        }
        assert(va[i as int] == vb[i as int]);
        assert(va.skip(i as int).skip(1) =~= va.skip(i + 1));
        assert(vb.skip(i as int).skip(1) =~= vb.skip(i + 1));
        i = i + 1;
    }
}


/// Clones a list of strings, element by element.
pub fn clone_strings(v: &Vec<String>) -> (r: Vec<String>)
    ensures
        r@ == v@,
{
    let mut r: Vec<String> = Vec::new();
    let mut i: usize = 0;
    while i < v.len()
        invariant
            i <= v@.len(),
            r@ == v@.take(i as int),
        decreases v@.len() - i,
    {
        r.push(v[i].clone());
        assert(r@ =~= v@.take(i + 1));
        i = i + 1;
    }
    assert(r@ =~= v@);
    r
}


/// Concatenating two string lists concatenates their views; membership is
/// membership in either part.
pub proof fn lemma_views_append(a: Seq<String>, b: Seq<String>)
    ensures
        views(a + b) =~= views(a) + views(b),
        forall|f: Seq<char>|
            #[trigger] views(a + b).contains(f) <==> (views(a).contains(f) || views(b).contains(
                f,
            )),
{
    assert(views(a + b) =~= views(a) + views(b));
    assert forall|f: Seq<char>|
        #[trigger] views(a + b).contains(f) <==> (views(a).contains(f) || views(b).contains(
            f,
        )) by {
        let w = views(a) + views(b);
        if w.contains(f) {
            let k = choose|k: int| 0 <= k < w.len() && w[k] == f;
            if k < views(a).len() {
                assert(views(a)[k] == f);
            } else {
                assert(views(b)[k - views(a).len()] == f);
            }
        }
        if views(a).contains(f) {
            let k = choose|k: int| 0 <= k < views(a).len() && views(a)[k] == f;
            assert(w[k] == f);
        }
        if views(b).contains(f) {
            let k = choose|k: int| 0 <= k < views(b).len() && views(b)[k] == f;
            assert(w[k + views(a).len()] == f);
        }
    }
}

} // verus!
