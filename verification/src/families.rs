//! Grouping of Miller-index triples into symmetry families.
//!
//! Two index lists belong to the same family when the multisets of their
//! absolute values agree: reordering the indices or flipping signs never
//! leaves the family.  Each family is reported under its numerically
//! greatest member together with its multiplicity.

use vstd::prelude::*;
use vstd::relations::{sorted_by, total_ordering};
use vstd::seq_lib::group_to_multiset_ensures;
use vstd::seq_lib::lemma_sorted_unique;
use vstd::multiset::Multiset;

verus! {

/// Reordering a sequence leaves the multiset of its images under any map
/// unchanged.
proof fn lemma_map_values_multiset<A, B>(s1: Seq<A>, s2: Seq<A>, f: spec_fn(A) -> B)
    requires
        s1.to_multiset() == s2.to_multiset(),
    ensures
        s1.map_values(f).to_multiset() == s2.map_values(f).to_multiset(),
    decreases s1.len(),
{
    broadcast use group_to_multiset_ensures;
    broadcast use vstd::multiset::group_multiset_axioms;

    if s1.len() == 0 {
        assert(s2.len() == s2.to_multiset().len());
        assert(s1.len() == s1.to_multiset().len());
        assert(s2.len() == 0);
        assert(s1.map_values(f) =~= s2.map_values(f));
    } else {
        let x = s1.last();
        assert(s1.contains(x));
        assert(s1.to_multiset().count(x) > 0);
        assert(s2.contains(x));
        let i = choose|i: int| 0 <= i < s2.len() && s2[i] == x;
        let s1p = s1.drop_last();
        let s2p = s2.remove(i);
        assert(s1.remove(s1.len() - 1) =~= s1p);
        assert(s1p.to_multiset() == s1.to_multiset().remove(x));
        assert(s2p.to_multiset() == s2.to_multiset().remove(x));
        lemma_map_values_multiset(s1p, s2p, f);
        // relate the mapped sequences to the mapped sub-sequences
        assert(s1.map_values(f) =~= s1p.map_values(f).push(f(x)));
        assert(s1.map_values(f).to_multiset() == s1p.map_values(f).to_multiset().insert(f(x)));
        assert(s2.map_values(f).remove(i) =~= s2p.map_values(f));
        assert(s2.map_values(f)[i] == f(x));
        assert(s2.map_values(f).remove(i).to_multiset() == s2.map_values(f).to_multiset().remove(
            f(x),
        ));
        // both multisets contain f(x), so removing and re-inserting it is the identity
        assert(s2.map_values(f).contains(f(x)));
        assert(s2.map_values(f).to_multiset().count(f(x)) > 0);
        assert(s1.map_values(f).to_multiset() =~= s2.map_values(f).to_multiset());
    }
}

/// Absolute value of a mathematical integer.
pub open spec fn abs_int(x: int) -> int {
    if x < 0 {
        -x
    } else {
        x
    }
}

/// The map taking a machine index to the absolute value of its
/// mathematical counterpart.
pub open spec fn abs_fn() -> spec_fn(i32) -> int {
    |x: i32| abs_int(x as int)
}

/// The sequence of absolute values of an index list.
pub open spec fn abs_seq(s: Seq<i32>) -> Seq<int> {
    s.map_values(abs_fn())
}

/// Family equivalence: equal length and equal multisets of absolute
/// values, so sign flips and reorderings are invisible.
#[verifier::opaque]
pub open spec fn hkl_equiv(a: Seq<i32>, b: Seq<i32>) -> bool {
    a.len() == b.len() && abs_seq(a).to_multiset() == abs_seq(b).to_multiset()
}

/// Family equivalence relates every index list to itself.
pub proof fn lemma_equiv_refl(a: Seq<i32>)
    ensures
        hkl_equiv(a, a),
{
    reveal(hkl_equiv);
}

/// Family equivalence is symmetric.
pub proof fn lemma_equiv_sym(a: Seq<i32>, b: Seq<i32>)
    ensures
        hkl_equiv(a, b) == hkl_equiv(b, a),
{
    reveal(hkl_equiv);
}

/// Two index lists in the family of a common third are in one family.
pub proof fn lemma_equiv_connect(a: Seq<i32>, b: Seq<i32>, c: Seq<i32>)
    requires
        hkl_equiv(a, b),
        hkl_equiv(a, c),
    ensures
        hkl_equiv(b, c),
{
    reveal(hkl_equiv);
}

/// Whether `h` is equivalent to the key of some reported family.
pub open spec fn in_some_family(h: Seq<i32>, fams: Seq<(Vec<i32>, usize)>) -> bool {
    exists|j: int| 0 <= j < fams.len() && hkl_equiv(h, #[trigger] fams[j].0@)
}

/// Whether `key` is the value of one of the members of a class.
pub open spec fn key_of_group(key: Seq<i32>, g: Seq<Vec<i32>>) -> bool {
    exists|k: int| 0 <= k < g.len() && #[trigger] g[k]@ == key
}

/// Whether `h` is the value of one of the input lists.
pub open spec fn appears_in(h: Seq<i32>, hkls: Seq<Vec<i32>>) -> bool {
    exists|i: int| 0 <= i < hkls.len() && #[trigger] hkls[i]@ == h
}

/// `b` carries the same values as `p`, position by position, up to sign.
pub open spec fn sign_variant_of(p: Seq<i32>, b: Seq<i32>) -> bool {
    b.len() == p.len() && forall|i: int|
        0 <= i < p.len() ==> #[trigger] b[i] == p[i] || b[i] as int == -(p[i] as int)
}

/// `b` arises from `a` by reordering its entries and flipping signs.
pub open spec fn signed_permutation_of(a: Seq<i32>, b: Seq<i32>) -> bool {
    exists|p: Seq<i32>| p.to_multiset() == a.to_multiset() && #[trigger] sign_variant_of(p, b)
}

/// Permutation closure: a sign or order permutation of an index list is
/// equivalent to exactly the same family keys, so any grouping that
/// assigns each list to the key it matches puts both in one family.
pub proof fn lemma_permutation_closure(a: Seq<i32>, b: Seq<i32>, key: Seq<i32>)
    requires
        signed_permutation_of(a, b),
    ensures
        hkl_equiv(a, key) == hkl_equiv(b, key),
        hkl_equiv(a, b),
{
    broadcast use group_to_multiset_ensures;

    reveal(hkl_equiv);
    let p = choose|p: Seq<i32>| p.to_multiset() == a.to_multiset() && #[trigger] sign_variant_of(
        p,
        b,
    );
    assert(p.to_multiset().len() == p.len());
    assert(a.to_multiset().len() == a.len());
    assert forall|i: int| 0 <= i < b.len() implies abs_seq(b)[i] == abs_seq(p)[i] by {
        assert(abs_seq(b)[i] == abs_fn()(b[i]));
        assert(abs_seq(p)[i] == abs_fn()(p[i]));
    }
    assert(abs_seq(b) =~= abs_seq(p));
    lemma_map_values_multiset(p, a, abs_fn());
}

/// The absolute values of an index list, each widened so that the
/// smallest machine integer keeps its magnitude.
fn abs_vec(v: &Vec<i32>) -> (r: Vec<i64>)
    ensures
        r@.len() == v@.len(),
        forall|k: int| 0 <= k < v@.len() ==> r@[k] as int == abs_int(v@[k] as int),
{
    let mut r: Vec<i64> = Vec::new();
    let mut i: usize = 0;
    while i < v.len()
        invariant
            i <= v@.len(),
            r@.len() == i,
            forall|k: int| 0 <= k < i ==> r@[k] as int == abs_int(v@[k] as int),
        decreases v@.len() - i,
    {
        let x = v[i];
        let a: i64 = if x < 0 {
            -(x as i64)
        } else {
            x as i64
        };
        r.push(a);
        i = i + 1;
    }
    r
}

/// Weak ascending order on machine integers.
pub open spec fn sorted64(s: Seq<i64>) -> bool {
    forall|i: int, j: int| 0 <= i < j < s.len() ==> s[i] <= s[j]
}

/// The map taking a widened index to its mathematical value.
pub open spec fn to_int_fn() -> spec_fn(i64) -> int {
    |x: i64| x as int
}

/// Selection sort: the result is ascending and holds exactly the input
/// values.
fn sort_i64(v: &Vec<i64>) -> (r: Vec<i64>)
    ensures
        sorted64(r@),
        r@.to_multiset() == v@.to_multiset(),
{
    broadcast use group_to_multiset_ensures;
    broadcast use vstd::multiset::group_multiset_axioms;

    let mut src: Vec<i64> = Vec::new();
    let mut i: usize = 0;
    while i < v.len()
        invariant
            i <= v@.len(),
            src@ == v@.take(i as int),
        decreases v@.len() - i,
    {
        src.push(v[i]);
        i = i + 1;
    }
    proof {
        assert(v@.take(v@.len() as int) =~= v@);
    }
    let mut out: Vec<i64> = Vec::new();
    while src.len() > 0
        invariant
            out@.to_multiset().add(src@.to_multiset()) == v@.to_multiset(),
            sorted64(out@),
            forall|k: int, l: int|
                0 <= k < out@.len() && 0 <= l < src@.len() ==> out@[k] <= src@[l],
        decreases src@.len(),
    {
        let mut mi: usize = 0;
        let mut j: usize = 1;
        while j < src.len()
            invariant
                src@.len() > 0,
                mi < j <= src@.len(),
                forall|k: int| 0 <= k < j ==> src@[mi as int] <= src@[k],
            decreases src@.len() - j,
        {
            if src[j] < src[mi] {
                mi = j;
            }
            j = j + 1;
        }
        let ghost old_src = src@;
        let ghost old_out = out@;
        let m = src.remove(mi);
        out.push(m);
        proof {
            broadcast use group_to_multiset_ensures;
            broadcast use vstd::multiset::group_multiset_axioms;

            assert(src@ == old_src.remove(mi as int));
            assert(old_src.remove(mi as int).to_multiset() == old_src.to_multiset().remove(m));
            assert(out@ == old_out.push(m));
            assert(old_out.push(m).to_multiset() == old_out.to_multiset().insert(m));
            assert(old_src.contains(m));
            assert(old_src.to_multiset().count(m) > 0);
            assert(out@.to_multiset().add(src@.to_multiset()) =~= old_out.to_multiset().add(
                old_src.to_multiset(),
            ));
            // the extracted minimum keeps both order invariants
            assert(forall|l: int| 0 <= l < src@.len() ==> m <= src@[l]) by {
                assert(forall|l: int|
                    0 <= l < src@.len() ==> src@[l] == old_src[if l < mi {
                        l
                    } else {
                        l + 1
                    }]);
            }
        }
    }
    proof {
        assert(src@.to_multiset().len() == src@.len());
        assert(src@.to_multiset() =~= Multiset::<i64>::empty());
        assert(out@.to_multiset() =~= v@.to_multiset());
    }
    out
}

/// Element-wise equality of two widened index lists.
fn vecs_equal_i64(a: &Vec<i64>, b: &Vec<i64>) -> (r: bool)
    ensures
        r == (a@ == b@),
{
    if a.len() != b.len() {
        proof {
            assert(a@ != b@);
        }
        return false;
    }
    let mut i: usize = 0;
    while i < a.len()
        invariant
            a@.len() == b@.len(),
            i <= a@.len(),
            forall|k: int| 0 <= k < i ==> a@[k] == b@[k],
        decreases a@.len() - i,
    {
        if a[i] != b[i] {
            return false;
        }
        i = i + 1;
    }
    proof {
        assert(a@ =~= b@);
    }
    true
}

/// Whether two index lists belong to the same symmetry family: equal
/// length and equal sorted absolute values.  Lists of different arity are
/// never equivalent.
pub fn is_permutation(hkl1: &Vec<i32>, hkl2: &Vec<i32>) -> (r: bool)
    ensures
        r == hkl_equiv(hkl1@, hkl2@),
{
    proof {
        reveal(hkl_equiv);
    }
    if hkl1.len() != hkl2.len() {
        return false;
    }
    let a1 = abs_vec(hkl1);
    let a2 = abs_vec(hkl2);
    let s1 = sort_i64(&a1);
    let s2 = sort_i64(&a2);
    let eq = vecs_equal_i64(&s1, &s2);
    proof {
        reveal(hkl_equiv);
        broadcast use group_to_multiset_ensures;

        assert(a1@.map_values(to_int_fn()) =~= abs_seq(hkl1@));
        assert(a2@.map_values(to_int_fn()) =~= abs_seq(hkl2@));
        lemma_map_values_multiset(s1@, a1@, to_int_fn());
        lemma_map_values_multiset(s2@, a2@, to_int_fn());
        if eq {
            assert(s1@.map_values(to_int_fn()) =~= s2@.map_values(to_int_fn()));
            assert(hkl_equiv(hkl1@, hkl2@));
        }
        if hkl_equiv(hkl1@, hkl2@) {
            let leq = |x: int, y: int| x <= y;
            let m1 = s1@.map_values(to_int_fn());
            let m2 = s2@.map_values(to_int_fn());
            assert(total_ordering(leq));
            assert(sorted_by(m1, leq));
            assert(sorted_by(m2, leq));
            assert(m1.to_multiset() == m2.to_multiset());
            lemma_sorted_unique(m1, m2, leq);
            assert(m1 =~= m2);
            assert(s1@.len() == s2@.len());
            assert forall|k: int| 0 <= k < s1@.len() implies s1@[k] == s2@[k] by {
                assert(m1[k] == s1@[k] as int);
                assert(m2[k] == s2@[k] as int);
            }
            assert(s1@ =~= s2@);
        }
    }
    eq
}

/// Weak lexicographic order on index lists of equal length: the first
/// differing position decides.
pub open spec fn lex_leq(a: Seq<i32>, b: Seq<i32>) -> bool
    recommends
        a.len() == b.len(),
    decreases a.len(),
{
    if a.len() == 0 {
        true
    } else if b.len() == 0 {
        false
    } else if a[0] != b[0] {
        a[0] < b[0]
    } else {
        lex_leq(a.drop_first(), b.drop_first())
    }
}

/// The lexicographic order is total on lists of equal length.
proof fn lemma_lex_total(a: Seq<i32>, b: Seq<i32>)
    requires
        a.len() == b.len(),
    ensures
        lex_leq(a, b) || lex_leq(b, a),
    decreases a.len(),
{
    if a.len() > 0 && a[0] == b[0] {
        lemma_lex_total(a.drop_first(), b.drop_first());
    }
}

/// The lexicographic order is transitive.
proof fn lemma_lex_trans(a: Seq<i32>, b: Seq<i32>, c: Seq<i32>)
    requires
        a.len() == b.len(),
        b.len() == c.len(),
        lex_leq(a, b),
        lex_leq(b, c),
    ensures
        lex_leq(a, c),
    decreases a.len(),
{
    if a.len() > 0 && a[0] == b[0] && b[0] == c[0] {
        lemma_lex_trans(a.drop_first(), b.drop_first(), c.drop_first());
    }
}

/// Lexicographic comparison of two index lists of equal length.
fn lex_le(a: &Vec<i32>, b: &Vec<i32>) -> (r: bool)
    requires
        a@.len() == b@.len(),
    ensures
        r == lex_leq(a@, b@),
{
    let mut i: usize = 0;
    proof {
        assert(a@.skip(0) =~= a@);
        assert(b@.skip(0) =~= b@);
    }
    while i < a.len()
        invariant
            a@.len() == b@.len(),
            i <= a@.len(),
            forall|k: int| 0 <= k < i ==> a@[k] == b@[k],
            a@.skip(0) =~= a@,
            b@.skip(0) =~= b@,
            lex_leq(a@, b@) == lex_leq(a@.skip(i as int), b@.skip(i as int)),
        decreases a@.len() - i,
    {
        let ghost sa = a@.skip(i as int);
        let ghost sb = b@.skip(i as int);
        if a[i] < b[i] {
            proof {
                assert(sa[0] == a@[i as int]);
                assert(lex_leq(sa, sb));
            }
            return true;
        }
        if a[i] > b[i] {
            proof {
                assert(sa[0] == a@[i as int]);
                assert(!lex_leq(sa, sb));
            }
            return false;
        }
        proof {
            assert(sa[0] == sb[0]);
            assert(sa.drop_first() =~= a@.skip(i + 1));
            assert(sb.drop_first() =~= b@.skip(i + 1));
        }
        i = i + 1;
    }
    proof {
        assert(a@.skip(a@.len() as int).len() == 0);
    }
    true
}

/// The position of the numerically greatest member of a non-empty class
/// of index lists of one common length.
fn max_member(g: &Vec<Vec<i32>>, n: usize) -> (best: usize)
    requires
        g@.len() >= 1,
        forall|k: int| 0 <= k < g@.len() ==> g@[k]@.len() == n,
    ensures
        best < g@.len(),
        forall|k: int| 0 <= k < g@.len() ==> lex_leq(g@[k]@, g@[best as int]@),
{
    let mut best: usize = 0;
    let mut k: usize = 1;
    proof {
        lemma_lex_total(g@[0]@, g@[0]@);
    }
    while k < g.len()
        invariant
            g@.len() >= 1,
            forall|l: int| 0 <= l < g@.len() ==> g@[l]@.len() == n,
            best < k <= g@.len(),
            forall|l: int| 0 <= l < k ==> lex_leq(g@[l]@, g@[best as int]@),
        decreases g@.len() - k,
    {
        let ghost old_best = best as int;
        if lex_le(&g[best], &g[k]) {
            best = k;
        }
        proof {
            if best == k {
                assert forall|l: int| 0 <= l < k + 1 implies lex_leq(g@[l]@, g@[best as int]@) by {
                    if l < k {
                        lemma_lex_trans(g@[l]@, g@[old_best]@, g@[best as int]@);
                    } else {
                        lemma_lex_total(g@[l]@, g@[l]@);
                    }
                }
            } else {
                lemma_lex_total(g@[old_best]@, g@[k as int]@);
            }
        }
        k = k + 1;
    }
    best
}

/// An exact copy of an index list.
fn clone_hkl(v: &Vec<i32>) -> (r: Vec<i32>)
    ensures
        r@ == v@,
{
    let mut r: Vec<i32> = Vec::new();
    let mut i: usize = 0;
    while i < v.len()
        invariant
            i <= v@.len(),
            r@ == v@.take(i as int),
        decreases v@.len() - i,
    {
        r.push(v[i]);
        i = i + 1;
    }
    proof {
        assert(v@.take(v@.len() as int) =~= v@);
    }
    r
}

/// How many index lists in a sequence belong to the family of `key`.
pub open spec fn count_matching(hs: Seq<Vec<i32>>, key: Seq<i32>) -> int
    decreases hs.len(),
{
    if hs.len() == 0 {
        0
    } else {
        count_matching(hs.drop_last(), key) + if hkl_equiv(hs.last()@, key) {
            1int
        } else {
            0int
        }
    }
}

/// The sum of the reported multiplicities.
pub open spec fn total_count(fams: Seq<(Vec<i32>, usize)>) -> int
    decreases fams.len(),
{
    if fams.len() == 0 {
        0
    } else {
        total_count(fams.drop_last()) + fams.last().1
    }
}

/// The sum of the class sizes of a collection of classes.
spec fn group_sizes(groups: Seq<Vec<Vec<i32>>>) -> int
    decreases groups.len(),
{
    if groups.len() == 0 {
        0
    } else {
        group_sizes(groups.drop_last()) + groups.last()@.len()
    }
}

proof fn lemma_count_push(hs: Seq<Vec<i32>>, key: Seq<i32>, v: Vec<i32>)
    ensures
        count_matching(hs.push(v), key) == count_matching(hs, key) + if hkl_equiv(v@, key) {
            1int
        } else {
            0int
        },
{
    assert(hs.push(v).drop_last() =~= hs);
}

/// Equivalent keys match exactly the same index lists, so they count alike.
proof fn lemma_count_equiv_key(hs: Seq<Vec<i32>>, k1: Seq<i32>, k2: Seq<i32>)
    requires
        hkl_equiv(k1, k2),
    ensures
        count_matching(hs, k1) == count_matching(hs, k2),
    decreases hs.len(),
{
    reveal(hkl_equiv);
    if hs.len() > 0 {
        lemma_count_equiv_key(hs.drop_last(), k1, k2);
    }
}

/// A key that matches no list in a sequence counts zero there.
proof fn lemma_count_zero(hs: Seq<Vec<i32>>, key: Seq<i32>)
    requires
        forall|i: int| 0 <= i < hs.len() ==> !hkl_equiv(hs[i]@, key),
    ensures
        count_matching(hs, key) == 0,
    decreases hs.len(),
{
    if hs.len() > 0 {
        lemma_count_zero(hs.drop_last(), key);
    }
}

proof fn lemma_total_push(fams: Seq<(Vec<i32>, usize)>, f: (Vec<i32>, usize))
    ensures
        total_count(fams.push(f)) == total_count(fams) + f.1,
{
    assert(fams.push(f).drop_last() =~= fams);
}

proof fn lemma_sizes_push(groups: Seq<Vec<Vec<i32>>>, g: Vec<Vec<i32>>)
    ensures
        group_sizes(groups.push(g)) == group_sizes(groups) + g@.len(),
{
    assert(groups.push(g).drop_last() =~= groups);
}

proof fn lemma_sizes_update(groups: Seq<Vec<Vec<i32>>>, m: int, g: Vec<Vec<i32>>)
    requires
        0 <= m < groups.len(),
    ensures
        group_sizes(groups.update(m, g)) == group_sizes(groups) - groups[m]@.len() + g@.len(),
    decreases groups.len(),
{
    let u = groups.update(m, g);
    if m == groups.len() - 1 {
        assert(u.drop_last() =~= groups.drop_last());
        assert(u.last() == g);
    } else {
        assert(u.drop_last() =~= groups.drop_last().update(m, g));
        assert(u.last() == groups.last());
        lemma_sizes_update(groups.drop_last(), m, g);
    }
}

proof fn lemma_sizes_take(groups: Seq<Vec<Vec<i32>>>, m: int)
    requires
        0 <= m < groups.len(),
    ensures
        group_sizes(groups.take(m + 1)) == group_sizes(groups.take(m)) + groups[m]@.len(),
{
    assert(groups.take(m + 1).drop_last() =~= groups.take(m));
    assert(groups.take(m + 1).last() == groups[m]);
}

/// The first class whose representative (its first member) is in the same
/// family as `h`, if any.
fn find_class(groups: &Vec<Vec<Vec<i32>>>, h: &Vec<i32>) -> (r: Option<usize>)
    requires
        forall|m: int| 0 <= m < groups@.len() ==> groups@[m]@.len() >= 1,
    ensures
        match r {
            Some(m) => m < groups@.len() && hkl_equiv(h@, groups@[m as int]@[0]@) && forall|
                m2: int,
            | 0 <= m2 < m ==> !hkl_equiv(h@, groups@[m2]@[0]@),
            None => forall|m2: int| 0 <= m2 < groups@.len() ==> !hkl_equiv(h@, groups@[m2]@[0]@),
        },
{
    let mut m: usize = 0;
    while m < groups.len()
        invariant
            forall|m0: int| 0 <= m0 < groups@.len() ==> groups@[m0]@.len() >= 1,
            m <= groups@.len(),
            forall|m2: int| 0 <= m2 < m ==> !hkl_equiv(h@, groups@[m2]@[0]@),
        decreases groups@.len() - m,
    {
        if is_permutation(h, &groups[m][0]) {
            return Some(m);
        }
        m = m + 1;
    }
    None
}

/// A well-formed classification of the first `upto` input lists:
/// non-empty classes of mutually equivalent members with pairwise
/// inequivalent representatives (first members), whose sizes count the
/// matching inputs exactly and which together hold every processed list.
/// Every class member is one of the first `upto` input lists.
#[verifier::opaque]
spec fn members_from_inputs(hkls: Seq<Vec<i32>>, upto: int, groups: Seq<Vec<Vec<i32>>>) -> bool {
    forall|m: int, k: int|
        0 <= m < groups.len() && 0 <= k < groups[m]@.len() ==> exists|i: int|
            0 <= i < upto && hkls[i]@ == #[trigger] groups[m]@[k]@
}

/// Each of the first `upto` input lists sits in a class whose
/// representative it is equivalent to.
#[verifier::opaque]
spec fn inputs_covered(hkls: Seq<Vec<i32>>, upto: int, groups: Seq<Vec<Vec<i32>>>) -> bool {
    forall|i: int|
        0 <= i < upto ==> exists|m: int, k: int|
            #![trigger groups[m]@[k]@]
            0 <= m < groups.len() && 0 <= k < groups[m]@.len() && hkl_equiv(
                #[trigger] hkls[i]@,
                groups[m]@[0]@,
            ) && groups[m]@[k]@ == hkls[i]@
}

spec fn classes_wf(hkls: Seq<Vec<i32>>, upto: int, groups: Seq<Vec<Vec<i32>>>) -> bool {
    &&& forall|m: int| 0 <= m < groups.len() ==> groups[m]@.len() >= 1
    &&& forall|m: int|
        0 <= m < groups.len() ==> groups[m]@.len() as int == count_matching(
            hkls.take(upto),
            #[trigger] groups[m]@[0]@,
        )
    &&& forall|m1: int, m2: int|
        0 <= m1 < m2 < groups.len() ==> !hkl_equiv(groups[m1]@[0]@, groups[m2]@[0]@)
    &&& forall|m: int, k: int|
        0 <= m < groups.len() && 0 <= k < groups[m]@.len() ==> hkl_equiv(
            #[trigger] groups[m]@[k]@,
            groups[m]@[0]@,
        )
    &&& members_from_inputs(hkls, upto, groups)
    &&& inputs_covered(hkls, upto, groups)
    &&& group_sizes(groups) == upto
}

/// Assign every input list to the class of the first earlier list it is
/// equivalent to, or open a new class for it.
#[verifier::rlimit(100)]
#[verifier::spinoff_prover]
fn build_classes(hkls: &Vec<Vec<i32>>) -> (groups: Vec<Vec<Vec<i32>>>)
    ensures
        classes_wf(hkls@, hkls@.len() as int, groups@),
{
    let mut groups: Vec<Vec<Vec<i32>>> = Vec::new();
    let mut idx: usize = 0;
    proof {
        assert(members_from_inputs(hkls@, 0, groups@)) by {
            reveal(members_from_inputs);
        }
        assert(inputs_covered(hkls@, 0, groups@)) by {
            reveal(inputs_covered);
        }
    }
    while idx < hkls.len()
        invariant
            idx <= hkls@.len(),
            classes_wf(hkls@, idx as int, groups@),
        decreases hkls@.len() - idx,
    {
        let h = &hkls[idx];
        let ghost old_groups = groups@;
        let ghost prefix = hkls@.take(idx as int);
        proof {
            assert(hkls@.take(idx + 1).drop_last() =~= prefix);
            assert(hkls@.take(idx + 1).last() == hkls@[idx as int]);
        }
        match find_class(&groups, h) {
            Some(m) => {
                let hv = clone_hkl(h);
                let mut g = groups.remove(m);
                let ghost old_g = g@;
                g.push(hv);
                groups.insert(m, g);
                proof {
                    assert(groups@ =~= old_groups.update(m as int, g));
                    assert(g@ == old_g.push(hv));
                    lemma_sizes_update(old_groups, m as int, g);
                    // the new member leaves every representative in place
                    assert(forall|m0: int|
                        0 <= m0 < groups@.len() ==> #[trigger] groups@[m0]@[0]@
                            == old_groups[m0]@[0]@);
                    // the new list matches no class but the one it joined
                    assert forall|m0: int| 0 <= m0 < groups@.len() && m0 != m implies !hkl_equiv(
                        h@,
                        #[trigger] old_groups[m0]@[0]@,
                    ) by {
                        if m0 > m && hkl_equiv(h@, old_groups[m0]@[0]@) {
                            lemma_equiv_connect(
                                h@,
                                old_groups[m as int]@[0]@,
                                old_groups[m0]@[0]@,
                            );
                            assert(false);
                        }
                    }
                    // so every class size still counts its matches exactly
                    assert forall|m0: int| 0 <= m0 < groups@.len() implies groups@[m0]@.len()
                        as int == count_matching(
                        hkls@.take(idx + 1),
                        #[trigger] groups@[m0]@[0]@,
                    ) by {
                        lemma_count_push(prefix, old_groups[m0]@[0]@, hkls[idx as int]);
                    }
                    // class members still come from the processed prefix
                    assert(members_from_inputs(hkls@, idx + 1, groups@)) by {
                        reveal(members_from_inputs);
                        assert forall|m0: int, k: int|
                            0 <= m0 < groups@.len() && 0 <= k < groups@[m0]@.len() implies exists|
                            i: int,
                        | 0 <= i < idx + 1 && hkls@[i]@ == #[trigger] groups@[m0]@[k]@ by {
                            if m0 == m && k == groups@[m0]@.len() - 1 {
                                assert(hkls@[idx as int]@ == groups@[m0]@[k]@);
                            } else {
                                assert(groups@[m0]@[k]@ == old_groups[m0]@[k]@);
                                let i0 = choose|i: int|
                                    0 <= i < idx && hkls@[i]@ == old_groups[m0]@[k]@;
                                assert(hkls@[i0]@ == groups@[m0]@[k]@);
                            }
                        }
                    }
                    // and the processed prefix is still covered
                    assert(inputs_covered(hkls@, idx + 1, groups@)) by {
                        reveal(inputs_covered);
                        assert forall|i: int| 0 <= i < idx + 1 implies exists|m0: int, k: int|
                            #![trigger groups@[m0]@[k]@]
                            0 <= m0 < groups@.len() && 0 <= k < groups@[m0]@.len() && hkl_equiv(
                                #[trigger] hkls@[i]@,
                                groups@[m0]@[0]@,
                            ) && groups@[m0]@[k]@ == hkls@[i]@ by {
                            if i < idx {
                                let (m0, k): (int, int) = choose|m0: int, k: int|
                                    #![trigger old_groups[m0]@[k]@]
                                    0 <= m0 < old_groups.len() && 0 <= k < old_groups[m0]@.len()
                                        && hkl_equiv(hkls@[i]@, old_groups[m0]@[0]@)
                                        && old_groups[m0]@[k]@ == hkls@[i]@;
                                assert(0 <= m0 < groups@.len() && 0 <= k < groups@[m0]@.len()
                                    && hkl_equiv(hkls@[i]@, groups@[m0]@[0]@) && groups@[m0]@[k]@
                                    == hkls@[i]@);
                            } else {
                                let k = groups@[m as int]@.len() - 1;
                                assert(groups@[m as int]@[k]@ == hkls@[i]@);
                            }
                        }
                    }
                    assert(classes_wf(hkls@, idx + 1, groups@));
                }
            },
            None => {
                let hv = clone_hkl(h);
                let mut g: Vec<Vec<i32>> = Vec::new();
                g.push(hv);
                groups.push(g);
                proof {
                    lemma_equiv_refl(h@);
                    assert(groups@ =~= old_groups.push(g));
                    lemma_sizes_push(old_groups, g);
                    assert(forall|m0: int|
                        0 <= m0 < old_groups.len() ==> #[trigger] groups@[m0]@[0]@
                            == old_groups[m0]@[0]@);
                    assert(groups@[old_groups.len() as int]@[0]@ == h@);
                    // no earlier list matches the new representative
                    assert forall|i: int| 0 <= i < idx implies !hkl_equiv(
                        #[trigger] prefix[i]@,
                        h@,
                    ) by {
                        reveal(inputs_covered);
                        if hkl_equiv(hkls@[i]@, h@) {
                            let (m0, k): (int, int) = choose|m0: int, k: int|
                                #![trigger old_groups[m0]@[k]@]
                                0 <= m0 < old_groups.len() && 0 <= k < old_groups[m0]@.len()
                                    && hkl_equiv(hkls@[i]@, old_groups[m0]@[0]@)
                                    && old_groups[m0]@[k]@ == hkls@[i]@;
                            lemma_equiv_sym(hkls@[i]@, h@);
                            lemma_equiv_connect(hkls@[i]@, h@, old_groups[m0]@[0]@);
                            assert(false);
                        }
                    }
                    lemma_count_zero(prefix, h@);
                    assert forall|m0: int| 0 <= m0 < groups@.len() implies groups@[m0]@.len()
                        as int == count_matching(
                        hkls@.take(idx + 1),
                        #[trigger] groups@[m0]@[0]@,
                    ) by {
                        lemma_count_push(prefix, groups@[m0]@[0]@, hkls[idx as int]);
                        if m0 < old_groups.len() {
                            lemma_equiv_sym(h@, old_groups[m0]@[0]@);
                        }
                    }
                    assert(members_from_inputs(hkls@, idx + 1, groups@)) by {
                        reveal(members_from_inputs);
                        assert forall|m0: int, k: int|
                            0 <= m0 < groups@.len() && 0 <= k < groups@[m0]@.len() implies exists|
                            i: int,
                        | 0 <= i < idx + 1 && hkls@[i]@ == #[trigger] groups@[m0]@[k]@ by {
                            if m0 == old_groups.len() as int {
                                assert(hkls@[idx as int]@ == groups@[m0]@[k]@);
                            } else {
                                assert(groups@[m0]@[k]@ == old_groups[m0]@[k]@);
                                let i0 = choose|i: int|
                                    0 <= i < idx && hkls@[i]@ == old_groups[m0]@[k]@;
                                assert(hkls@[i0]@ == groups@[m0]@[k]@);
                            }
                        }
                    }
                    assert(inputs_covered(hkls@, idx + 1, groups@)) by {
                        reveal(inputs_covered);
                        assert forall|i: int| 0 <= i < idx + 1 implies exists|m0: int, k: int|
                            #![trigger groups@[m0]@[k]@]
                            0 <= m0 < groups@.len() && 0 <= k < groups@[m0]@.len() && hkl_equiv(
                                #[trigger] hkls@[i]@,
                                groups@[m0]@[0]@,
                            ) && groups@[m0]@[k]@ == hkls@[i]@ by {
                            if i < idx {
                                let (m0, k): (int, int) = choose|m0: int, k: int|
                                    #![trigger old_groups[m0]@[k]@]
                                    0 <= m0 < old_groups.len() && 0 <= k < old_groups[m0]@.len()
                                        && hkl_equiv(hkls@[i]@, old_groups[m0]@[0]@)
                                        && old_groups[m0]@[k]@ == hkls@[i]@;
                                assert(0 <= m0 < groups@.len() && 0 <= k < groups@[m0]@.len()
                                    && hkl_equiv(hkls@[i]@, groups@[m0]@[0]@) && groups@[m0]@[k]@
                                    == hkls@[i]@);
                            } else {
                                let m0 = old_groups.len() as int;
                                assert(0 <= m0 < groups@.len() && 0 <= 0 < groups@[m0]@.len()
                                    && hkl_equiv(hkls@[i]@, groups@[m0]@[0]@) && groups@[m0]@[0]@
                                    == hkls@[i]@);
                            }
                        }
                    }
                    assert forall|m0: int| 0 <= m0 < old_groups.len() implies !hkl_equiv(
                        #[trigger] groups@[m0]@[0]@,
                        h@,
                    ) by {
                        lemma_equiv_sym(h@, old_groups[m0]@[0]@);
                    }
                    assert(classes_wf(hkls@, idx + 1, groups@));
                }
            },
        }
        idx = idx + 1;
    }
    groups
}

/// All members of a class have the length of its representative.
proof fn lemma_members_same_len(g: Seq<Vec<i32>>, n: int)
    requires
        g.len() >= 1,
        g[0]@.len() == n,
        forall|k: int| 0 <= k < g.len() ==> hkl_equiv(#[trigger] g[k]@, g[0]@),
    ensures
        forall|k: int| 0 <= k < g.len() ==> (#[trigger] g[k]@).len() == n,
{
    reveal(hkl_equiv);
}

/// Translate the classification facts into the public contract of the
/// family report.
#[verifier::rlimit(100)]
#[verifier::spinoff_prover]
proof fn lemma_report(hkls: Seq<Vec<i32>>, groups: Seq<Vec<Vec<i32>>>, fams: Seq<(Vec<i32>, usize)>)
    requires
        classes_wf(hkls, hkls.len() as int, groups),
        fams.len() == groups.len(),
        forall|j: int| 0 <= j < fams.len() ==> hkl_equiv(#[trigger] fams[j].0@, groups[j]@[0]@),
        forall|j: int| 0 <= j < fams.len() ==> key_of_group(#[trigger] fams[j].0@, groups[j]@),
        forall|j: int, k: int|
            0 <= j < fams.len() && 0 <= k < groups[j]@.len() ==> lex_leq(
                #[trigger] groups[j]@[k]@,
                fams[j].0@,
            ),
        forall|j: int| 0 <= j < fams.len() ==> #[trigger] fams[j].1 as int == groups[j]@.len(),
        total_count(fams) == group_sizes(groups),
    ensures
        forall|j1: int, j2: int|
            0 <= j1 < j2 < fams.len() ==> !hkl_equiv(fams[j1].0@, fams[j2].0@),
        forall|i: int| 0 <= i < hkls.len() ==> in_some_family(#[trigger] hkls[i]@, fams),
        forall|j: int|
            0 <= j < fams.len() ==> fams[j].1 == count_matching(hkls, #[trigger] fams[j].0@),
        forall|j: int| 0 <= j < fams.len() ==> appears_in(#[trigger] fams[j].0@, hkls),
        forall|j: int, i: int|
            0 <= j < fams.len() && 0 <= i < hkls.len() && #[trigger] hkl_equiv(
                hkls[i]@,
                fams[j].0@,
            ) ==> lex_leq(hkls[i]@, fams[j].0@),
        total_count(fams) == hkls.len(),
{
    assert(hkls.take(hkls.len() as int) =~= hkls);
    // the reported keys of distinct classes are never equivalent
    assert forall|j1: int, j2: int| 0 <= j1 < j2 < fams.len() implies !hkl_equiv(
        fams[j1].0@,
        fams[j2].0@,
    ) by {
        if hkl_equiv(fams[j1].0@, fams[j2].0@) {
            lemma_equiv_connect(fams[j1].0@, groups[j1]@[0]@, fams[j2].0@);
            lemma_equiv_sym(groups[j1]@[0]@, fams[j2].0@);
            lemma_equiv_connect(fams[j2].0@, groups[j1]@[0]@, groups[j2]@[0]@);
            assert(false);
        }
    }
    // each size equals the number of inputs matching the reported key
    assert forall|j: int| 0 <= j < fams.len() implies fams[j].1 as int == count_matching(
        hkls,
        #[trigger] fams[j].0@,
    ) by {
        lemma_count_equiv_key(hkls, fams[j].0@, groups[j]@[0]@);
    }
    // every input is equivalent to some reported key
    assert forall|i: int| 0 <= i < hkls.len() implies in_some_family(
        #[trigger] hkls[i]@,
        fams,
    ) by {
        reveal(inputs_covered);
        let (m0, k): (int, int) = choose|m0: int, k: int|
            #![trigger groups[m0]@[k]@]
            0 <= m0 < groups.len() && 0 <= k < groups[m0]@.len() && hkl_equiv(
                hkls[i]@,
                groups[m0]@[0]@,
            ) && groups[m0]@[k]@ == hkls[i]@;
        lemma_equiv_sym(hkls[i]@, groups[m0]@[0]@);
        lemma_equiv_sym(fams[m0].0@, groups[m0]@[0]@);
        lemma_equiv_connect(groups[m0]@[0]@, hkls[i]@, fams[m0].0@);
        assert(hkl_equiv(hkls[i]@, fams[m0].0@));
        assert(in_some_family(hkls[i]@, fams));
    }
    // each reported key is an input list
    assert forall|j: int| 0 <= j < fams.len() implies appears_in(
        #[trigger] fams[j].0@,
        hkls,
    ) by {
        reveal(members_from_inputs);
        let k = choose|k: int| 0 <= k < groups[j]@.len() && #[trigger] groups[j]@[k]@
            == fams[j].0@;
        let i0 = choose|i: int| 0 <= i < hkls.len() && hkls[i]@ == groups[j]@[k]@;
        assert(hkls[i0]@ == fams[j].0@);
        assert(appears_in(fams[j].0@, hkls));
    }
    // and no matching input exceeds it
    assert forall|j: int, i: int|
        0 <= j < fams.len() && 0 <= i < hkls.len() && #[trigger] hkl_equiv(
            hkls[i]@,
            fams[j].0@,
        ) implies lex_leq(hkls[i]@, fams[j].0@) by {
        reveal(inputs_covered);
        let (m0, k): (int, int) = choose|m0: int, k: int|
            #![trigger groups[m0]@[k]@]
            0 <= m0 < groups.len() && 0 <= k < groups[m0]@.len() && hkl_equiv(
                hkls[i]@,
                groups[m0]@[0]@,
            ) && groups[m0]@[k]@ == hkls[i]@;
        if m0 != j {
            lemma_equiv_connect(hkls[i]@, fams[j].0@, groups[m0]@[0]@);
            lemma_equiv_sym(fams[j].0@, groups[m0]@[0]@);
            lemma_equiv_connect(fams[j].0@, groups[m0]@[0]@, groups[j]@[0]@);
            lemma_equiv_sym(groups[m0]@[0]@, groups[j]@[0]@);
            assert(false);
        }
        assert(lex_leq(groups[j]@[k]@, fams[j].0@));
    }
}

/// Report each class under its numerically greatest member, with its size.
#[verifier::rlimit(100)]
#[verifier::spinoff_prover]
fn report_families(hkls: &Vec<Vec<i32>>, groups: &Vec<Vec<Vec<i32>>>) -> (fams: Vec<
    (Vec<i32>, usize),
>)
    requires
        classes_wf(hkls@, hkls@.len() as int, groups@),
    ensures
        forall|j1: int, j2: int|
            0 <= j1 < j2 < fams@.len() ==> !hkl_equiv(fams@[j1].0@, fams@[j2].0@),
        forall|i: int| 0 <= i < hkls@.len() ==> in_some_family(#[trigger] hkls@[i]@, fams@),
        forall|j: int|
            0 <= j < fams@.len() ==> fams@[j].1 == count_matching(hkls@, #[trigger] fams@[j].0@),
        forall|j: int| 0 <= j < fams@.len() ==> appears_in(#[trigger] fams@[j].0@, hkls@),
        forall|j: int, i: int|
            0 <= j < fams@.len() && 0 <= i < hkls@.len() && #[trigger] hkl_equiv(
                hkls@[i]@,
                fams@[j].0@,
            ) ==> lex_leq(hkls@[i]@, fams@[j].0@),
        total_count(fams@) == hkls@.len(),
{
    proof {
        assert(hkls@.take(hkls@.len() as int) =~= hkls@);
    }
    let mut fams: Vec<(Vec<i32>, usize)> = Vec::new();
    let mut m: usize = 0;
    while m < groups.len()
        invariant
            classes_wf(hkls@, hkls@.len() as int, groups@),
            hkls@.take(hkls@.len() as int) == hkls@,
            m <= groups@.len(),
            fams@.len() == m,
            forall|j: int| 0 <= j < m ==> hkl_equiv(#[trigger] fams@[j].0@, groups@[j]@[0]@),
            forall|j: int| 0 <= j < m ==> key_of_group(#[trigger] fams@[j].0@, groups@[j]@),
            forall|j: int, k: int|
                0 <= j < m && 0 <= k < groups@[j]@.len() ==> lex_leq(
                    #[trigger] groups@[j]@[k]@,
                    fams@[j].0@,
                ),
            forall|j: int| 0 <= j < m ==> #[trigger] fams@[j].1 as int == groups@[j]@.len(),
            total_count(fams@) == group_sizes(groups@.take(m as int)),
        decreases groups@.len() - m,
    {
        let n0 = groups[m][0].len();
        proof {
            lemma_members_same_len(groups@[m as int]@, n0 as int);
        }
        let bi = max_member(&groups[m], n0);
        let key = clone_hkl(&groups[m][bi]);
        let cnt = groups[m].len();
        let ghost old_fams = fams@;
        fams.push((key, cnt));
        proof {
            lemma_total_push(old_fams, (key, cnt));
            lemma_sizes_take(groups@, m as int);
            assert(groups@[m as int]@[bi as int]@ == fams@[m as int].0@);
            assert(key_of_group(fams@[m as int].0@, groups@[m as int]@));
            assert(hkl_equiv(groups@[m as int]@[bi as int]@, groups@[m as int]@[0]@));
        }
        m = m + 1;
    }
    proof {
        assert(groups@.take(groups@.len() as int) =~= groups@);
        lemma_report(hkls@, groups@, fams@);
    }
    fams
}

/// Group index lists into symmetry families.
///
/// Each family is reported once, under its numerically greatest member,
/// together with the number of input lists that belong to it.  Families
/// appear in the order in which their first member appears in the input.
#[verifier::rlimit(100)]
#[verifier::spinoff_prover]
pub fn get_unique_families(hkls: &Vec<Vec<i32>>) -> (fams: Vec<(Vec<i32>, usize)>)
    ensures
        // no family is reported twice
        forall|j1: int, j2: int|
            0 <= j1 < j2 < fams@.len() ==> !hkl_equiv(fams@[j1].0@, fams@[j2].0@),
        // every input list belongs to a reported family
        forall|i: int| 0 <= i < hkls@.len() ==> in_some_family(#[trigger] hkls@[i]@, fams@),
        // each multiplicity is the exact number of matching input lists
        forall|j: int|
            0 <= j < fams@.len() ==> fams@[j].1 == count_matching(hkls@, #[trigger] fams@[j].0@),
        // each key is itself one of the input lists
        forall|j: int| 0 <= j < fams@.len() ==> appears_in(#[trigger] fams@[j].0@, hkls@),
        // and the numerically greatest member of its family
        forall|j: int, i: int|
            0 <= j < fams@.len() && 0 <= i < hkls@.len() && #[trigger] hkl_equiv(
                hkls@[i]@,
                fams@[j].0@,
            ) ==> lex_leq(hkls@[i]@, fams@[j].0@),
        // the multiplicities sum to the input length
        total_count(fams@) == hkls@.len(),
{
    let groups = build_classes(hkls);
    report_families(hkls, &groups)
}

} // verus!
