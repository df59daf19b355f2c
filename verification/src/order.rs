//! Lexicographic order on character sequences and a stable insertion sort.
use vstd::prelude::*;

verus! {

/// Strict lexicographic order by code point: the order of Rust's `str`/`String` `cmp`.
pub open spec fn lex_lt(a: Seq<char>, b: Seq<char>) -> bool
    decreases a.len(),
{
    if a.len() == 0 {
        b.len() > 0
    } else if b.len() == 0 {
        false
    } else if (a[0] as int) < (b[0] as int) {
        true
    } else if a[0] == b[0] {
        lex_lt(a.drop_first(), b.drop_first())
    } else {
        false
    }
}

pub proof fn lemma_lex_irreflexive(a: Seq<char>)
    ensures
        !lex_lt(a, a),
    decreases a.len(),
{
    if a.len() > 0 {
        lemma_lex_irreflexive(a.drop_first());
    }
}

pub proof fn lemma_lex_asymmetric(a: Seq<char>, b: Seq<char>)
    ensures
        lex_lt(a, b) ==> !lex_lt(b, a),
    decreases a.len(),
{
    if a.len() > 0 && b.len() > 0 && a[0] == b[0] {
        lemma_lex_asymmetric(a.drop_first(), b.drop_first());
    }
}

pub proof fn lemma_lex_transitive(a: Seq<char>, b: Seq<char>, c: Seq<char>)
    ensures
        lex_lt(a, b) && lex_lt(b, c) ==> lex_lt(a, c),
    decreases a.len(),
{
    if a.len() > 0 && b.len() > 0 && c.len() > 0 {
        lemma_lex_transitive(a.drop_first(), b.drop_first(), c.drop_first());
    }
}

/// Lexicographic order is total: of two different sequences one is smaller.
pub proof fn lemma_lex_total(a: Seq<char>, b: Seq<char>)
    ensures
        a != b ==> lex_lt(a, b) || lex_lt(b, a),
    decreases a.len(),
{
    if a.len() > 0 && b.len() > 0 {
        lemma_lex_total(a.drop_first(), b.drop_first());
        if a[0] != b[0] {
            assert((a[0] as int) != (b[0] as int));
        }
        if a[0] == b[0] && a.drop_first() == b.drop_first() {
            assert(a =~= seq![a[0]] + a.drop_first());
            assert(b =~= seq![b[0]] + b.drop_first());
        }
    } else if a.len() == 0 && b.len() == 0 {
        assert(a =~= b);
    }
}

/// Three-way comparison: negative, zero or positive as `a` is below, equal to or above `b`.
pub fn compare_chars(a: &Vec<char>, b: &Vec<char>) -> (r: i8)
    ensures
        r < 0 <==> lex_lt(a@, b@),
        r == 0 <==> a@ == b@,
        r > 0 <==> lex_lt(b@, a@),
{
    let mut i: usize = 0;
    proof {
        assert(a@.skip(0) =~= a@);
        assert(b@.skip(0) =~= b@);
    }
    while i < a.len() && i < b.len() && a[i] == b[i]
        invariant
            i <= a.len(),
            i <= b.len(),
            a@.take(i as int) == b@.take(i as int),
            lex_lt(a@, b@) == lex_lt(a@.skip(i as int), b@.skip(i as int)),
            lex_lt(b@, a@) == lex_lt(b@.skip(i as int), a@.skip(i as int)),
        decreases a.len() - i,
    {
        proof {
            assert(a@.skip(i as int).drop_first() =~= a@.skip(i + 1));
            assert(b@.skip(i as int).drop_first() =~= b@.skip(i + 1));
            assert(a@.take(i + 1) =~= a@.take(i as int).push(a@[i as int]));
            assert(b@.take(i + 1) =~= b@.take(i as int).push(b@[i as int]));
        }
        i = i + 1;
    }
    proof {
        lemma_lex_irreflexive(a@);
        lemma_lex_asymmetric(a@, b@);
        lemma_lex_total(a@, b@);
    }
    if i < a.len() && i < b.len() {
        if a[i] < b[i] {
            assert(lex_lt(a@.skip(i as int), b@.skip(i as int)));
            -1
        } else {
            assert(lex_lt(b@.skip(i as int), a@.skip(i as int)));
            assert(a@[i as int] != b@[i as int]);
            assert(a@ != b@);
            1
        }
    } else if i < b.len() {
        assert(a@.len() == i);
        assert(a@.skip(i as int).len() == 0);
        assert(lex_lt(a@.skip(i as int), b@.skip(i as int)));
        -1
    } else if i < a.len() {
        assert(b@.skip(i as int).len() == 0);
        assert(lex_lt(b@.skip(i as int), a@.skip(i as int)));
        1
    } else {
        assert(a@ =~= a@.take(i as int));
        assert(b@ =~= b@.take(i as int));
        0
    }
}

// ------------------------------------------------------------------- sort

/// No element of `s` is strictly below an earlier one.
pub open spec fn sorted_by<T>(s: Seq<T>, lt: spec_fn(T, T) -> bool) -> bool {
    forall|i: int, j: int| 0 <= i < j < s.len() ==> !lt(s[j], s[i])
}

/// `lt` is a strict order: asymmetric and transitive.
pub open spec fn strict_order<T>(lt: spec_fn(T, T) -> bool) -> bool {
    &&& forall|a: T, b: T| #[trigger] lt(a, b) ==> !lt(b, a)
    &&& forall|a: T, b: T, c: T| #[trigger] lt(a, b) && #[trigger] lt(b, c) ==> lt(a, c)
}

/// The first index from `j` on whose element `x` is strictly below, else the length.
pub open spec fn insert_pos<T>(s: Seq<T>, x: T, lt: spec_fn(T, T) -> bool, j: int) -> int
    decreases s.len() - j,
{
    if j >= s.len() {
        s.len() as int
    } else if lt(x, s[j]) {
        j
    } else {
        insert_pos(s, x, lt, j + 1)
    }
}

/// The stable sort of `s` by `lt`: each element, in order, placed after every
/// element that it is not strictly below.
pub open spec fn stable_sorted<T>(s: Seq<T>, lt: spec_fn(T, T) -> bool) -> Seq<T>
    decreases s.len(),
{
    if s.len() == 0 {
        s
    } else {
        let p = stable_sorted(s.drop_last(), lt);
        p.insert(insert_pos(p, s.last(), lt, 0), s.last())
    }
}

pub proof fn lemma_insert_pos_range<T>(s: Seq<T>, x: T, lt: spec_fn(T, T) -> bool, j: int)
    requires
        0 <= j <= s.len(),
    ensures
        j <= insert_pos(s, x, lt, j) <= s.len(),
        forall|k: int| j <= k < insert_pos(s, x, lt, j) ==> !lt(x, #[trigger] s[k]),
        insert_pos(s, x, lt, j) < s.len() ==> lt(x, s[insert_pos(s, x, lt, j)]),
    decreases s.len() - j,
{
    if j < s.len() && !lt(x, s[j]) {
        lemma_insert_pos_range(s, x, lt, j + 1);
    }
}

pub proof fn lemma_stable_sorted_len<T>(s: Seq<T>, lt: spec_fn(T, T) -> bool)
    ensures
        stable_sorted(s, lt).len() == s.len(),
    decreases s.len(),
{
    if s.len() > 0 {
        lemma_stable_sorted_len(s.drop_last(), lt);
        lemma_insert_pos_range(stable_sorted(s.drop_last(), lt), s.last(), lt, 0);
    }
}

proof fn lemma_insert_pos_map<A, B>(s: Seq<A>, x: A, f: spec_fn(A) -> B, lta: spec_fn(A, A) -> bool, ltb: spec_fn(B, B) -> bool, j: int)
    requires
        0 <= j,
        forall|a: A, b: A| #[trigger] lta(a, b) == ltb(f(a), f(b)),
    ensures
        insert_pos(s, x, lta, j) == insert_pos(s.map_values(f), f(x), ltb, j),
    decreases s.len() - j,
{
    if j < s.len() {
        assert(s.map_values(f)[j] == f(s[j]));
        lemma_insert_pos_map(s, x, f, lta, ltb, j + 1);
    }
}

/// Sorting commutes with a map that carries one order onto the other.
pub proof fn lemma_stable_sorted_map<A, B>(s: Seq<A>, f: spec_fn(A) -> B, lta: spec_fn(A, A) -> bool, ltb: spec_fn(B, B) -> bool)
    requires
        forall|a: A, b: A| #[trigger] lta(a, b) == ltb(f(a), f(b)),
    ensures
        stable_sorted(s, lta).map_values(f) == stable_sorted(s.map_values(f), ltb),
    decreases s.len(),
{
    if s.len() > 0 {
        lemma_stable_sorted_map(s.drop_last(), f, lta, ltb);
        assert(s.map_values(f).drop_last() =~= s.drop_last().map_values(f));
        let p = stable_sorted(s.drop_last(), lta);
        lemma_insert_pos_map(p, s.last(), f, lta, ltb, 0);
        lemma_stable_sorted_len(s.drop_last(), lta);
        lemma_insert_pos_range(p, s.last(), lta, 0);
        let i = insert_pos(p, s.last(), lta, 0);
        assert(p.insert(i, s.last()).map_values(f) =~= p.map_values(f).insert(i, f(s.last())));
    }
}

/// The stable sort is sorted and a permutation, when `lt` is a strict order.
pub proof fn lemma_stable_sorted_props<T>(s: Seq<T>, lt: spec_fn(T, T) -> bool)
    requires
        strict_order(lt),
    ensures
        sorted_by(stable_sorted(s, lt), lt),
        stable_sorted(s, lt).to_multiset() == s.to_multiset(),
    decreases s.len(),
{
    broadcast use vstd::seq_lib::group_to_multiset_ensures;
    if s.len() > 0 {
        lemma_stable_sorted_props(s.drop_last(), lt);
        let r0 = stable_sorted(s.drop_last(), lt);
        let x = s.last();
        lemma_insert_pos_range(r0, x, lt, 0);
        let p = insert_pos(r0, x, lt, 0);
        let r = r0.insert(p, x);
        assert forall|i: int, j: int| 0 <= i < j < r.len() implies !lt(r[j], r[i]) by {
            if j < p {
            } else if j == p {
                assert(r[i] == r0[i]);
            } else if i == p {
                assert(r[j] == r0[j - 1]);
                if p < r0.len() {
                    if lt(r0[j - 1], x) {
                        if j - 1 > p {
                            assert(!lt(r0[j - 1], r0[p]));
                        }
                    }
                }
            } else if i < p {
                assert(r[i] == r0[i]);
                assert(r[j] == r0[j - 1]);
            } else {
                assert(r[i] == r0[i - 1]);
                assert(r[j] == r0[j - 1]);
            }
        }
        vstd::seq_lib::to_multiset_insert(r0, p, x);
        vstd::seq_lib::to_multiset_build(s.drop_last(), x);
        assert(s.drop_last().push(x) =~= s);
    }
}

/// Sorting keeps, with multiplicity, what any map makes of the elements.
pub proof fn lemma_stable_sorted_map_multiset<T, U>(s: Seq<T>, lt: spec_fn(T, T) -> bool, f: spec_fn(T) -> U)
    ensures
        stable_sorted(s, lt).map_values(f).to_multiset() == s.map_values(f).to_multiset(),
    decreases s.len(),
{
    broadcast use vstd::seq_lib::group_to_multiset_ensures;
    if s.len() > 0 {
        lemma_stable_sorted_map_multiset(s.drop_last(), lt, f);
        let r0 = stable_sorted(s.drop_last(), lt);
        let x = s.last();
        lemma_stable_sorted_len(s.drop_last(), lt);
        lemma_insert_pos_range(r0, x, lt, 0);
        let p = insert_pos(r0, x, lt, 0);
        assert(r0.insert(p, x).map_values(f) =~= r0.map_values(f).insert(p, f(x)));
        vstd::seq_lib::to_multiset_insert(r0.map_values(f), p, f(x));
        assert(s.map_values(f) =~= s.drop_last().map_values(f).push(f(x)));
        vstd::seq_lib::to_multiset_build(s.drop_last().map_values(f), f(x));
    }
}

/// Stable insertion sort by a strict order; `less` computes `lt`.
pub fn sort_by<T, F: Fn(&T, &T) -> bool>(v: Vec<T>, less: F, Ghost(lt): Ghost<spec_fn(T, T) -> bool>) -> (r: Vec<T>)
    requires
        forall|a: &T, b: &T| #[trigger] less.requires((a, b)),
        forall|a: &T, b: &T, x: bool| #[trigger] less.ensures((a, b), x) ==> x == lt(*a, *b),
    ensures
        r@ == stable_sorted(v@, lt),
        r@.len() == v@.len(),
{
    let mut v = v;
    let ghost orig = v@;
    let mut rest: Vec<T> = Vec::new();
    while v.len() > 0
        invariant
            v@ + rest@.reverse() == orig,
        decreases v.len(),
    {
        let ghost v0 = v@;
        let ghost rest0 = rest@;
        let x = v.pop().unwrap();
        proof {
            assert(rest0.push(x).reverse() =~= seq![x] + rest0.reverse());
            assert(v0 =~= v@.push(x));
        }
        rest.push(x);
        proof {
            assert(v@ + rest@.reverse() =~= orig);
        }
    }
    assert(rest@.reverse() =~= orig);
    let mut r: Vec<T> = Vec::new();
    let ghost mut k: int = 0;
    assert(orig.take(0) =~= Seq::<T>::empty());
    while rest.len() > 0
        invariant
            0 <= k <= orig.len(),
            rest@.reverse() == orig.skip(k),
            r@ == stable_sorted(orig.take(k), lt),
            forall|a: &T, b: &T| #[trigger] less.requires((a, b)),
            forall|a: &T, b: &T, x: bool| #[trigger] less.ensures((a, b), x) ==> x == lt(*a, *b),
        decreases rest.len(),
    {
        let ghost rest0 = rest@;
        let x = rest.pop().unwrap();
        proof {
            assert(rest0 =~= rest@.push(x));
            assert(rest0.reverse() =~= seq![x] + rest@.reverse());
            assert(orig.skip(k).len() == rest0.len());
            assert(k < orig.len());
            assert(orig.skip(k)[0] == orig[k]);
            assert(orig.skip(k + 1) =~= orig.skip(k).drop_first());
            assert(rest@.reverse() =~= orig.skip(k + 1));
            assert(orig.take(k + 1).drop_last() =~= orig.take(k));
            assert(orig.take(k + 1).last() == x);
        }
        let mut p: usize = 0;
        while p < r.len() && !less(&x, &r[p])
            invariant
                p <= r.len(),
                insert_pos(r@, x, lt, 0) == insert_pos(r@, x, lt, p as int),
                forall|a: &T, b: &T| #[trigger] less.requires((a, b)),
                forall|a: &T, b: &T, y: bool| #[trigger] less.ensures((a, b), y) ==> y == lt(*a, *b),
            decreases r.len() - p,
        {
            p = p + 1;
        }
        let ghost r0 = r@;
        r.insert(p, x);
        proof {
            k = k + 1;
            assert(r@ =~= r0.insert(p as int, x));
        }
    }
    proof {
        assert(orig.take(k) =~= orig);
        lemma_stable_sorted_len(orig, lt);
    }
    r
}

/// Every element of the stable sort comes from the input, and the other way round.
pub proof fn lemma_stable_sorted_elems<T>(s: Seq<T>, lt: spec_fn(T, T) -> bool)
    requires
        strict_order(lt),
    ensures
        forall|x: T| #![trigger stable_sorted(s, lt).contains(x)] #![trigger s.contains(x)]
            stable_sorted(s, lt).contains(x) <==> s.contains(x),
{
    broadcast use vstd::seq_lib::group_to_multiset_ensures;
    lemma_stable_sorted_props(s, lt);
    assert forall|x: T| stable_sorted(s, lt).contains(x) <==> s.contains(x) by {
        assert(stable_sorted(s, lt).to_multiset().count(x) == s.to_multiset().count(x));
    }
}

/// Strict text order on character sequences.
pub open spec fn lex_lt_s(a: String, b: String) -> bool {
    lex_lt(a@, b@)
}

/// A strict order that ranks by a key: when `a` is below `b`, any `c` is above
/// `a` or below `b`.
pub open spec fn ranks<T>(lt: spec_fn(T, T) -> bool) -> bool {
    &&& strict_order(lt)
    &&& forall|a: T, b: T, c: T| #![trigger lt(a, b), lt(a, c)] lt(a, b) ==> lt(a, c) || lt(c, b)
}

/// The stable sort keeps the input order of elements that neither is below the
/// other: two such elements of the sort stand at increasing places of the input.
pub proof fn lemma_stable_sorted_stable<T>(s: Seq<T>, lt: spec_fn(T, T) -> bool)
    requires
        ranks(lt),
    ensures
        forall|i: int, j: int| #![trigger stable_sorted(s, lt)[i], stable_sorted(s, lt)[j]]
            0 <= i < j < stable_sorted(s, lt).len() && !lt(stable_sorted(s, lt)[i], stable_sorted(s, lt)[j])
                && !lt(stable_sorted(s, lt)[j], stable_sorted(s, lt)[i])
            ==> exists|a: int, b: int| 0 <= a < b < s.len() && s[a] == stable_sorted(s, lt)[i] && s[b] == stable_sorted(s, lt)[j],
    decreases s.len(),
{
    if s.len() > 0 {
        let s0 = s.drop_last();
        lemma_stable_sorted_stable(s0, lt);
        lemma_stable_sorted_props(s0, lt);
        lemma_stable_sorted_elems(s0, lt);
        lemma_stable_sorted_len(s0, lt);
        let p = stable_sorted(s0, lt);
        let x = s.last();
        lemma_insert_pos_range(p, x, lt, 0);
        let pos = insert_pos(p, x, lt, 0);
        let r = stable_sorted(s, lt);
        assert(r == p.insert(pos, x));
        assert forall|i: int, j: int| 0 <= i < j < r.len() && !lt(r[i], r[j]) && !lt(r[j], r[i])
            implies exists|a: int, b: int| 0 <= a < b < s.len() && s[a] == r[i] && s[b] == r[j] by {
            if j < pos {
                assert(r[i] == p[i] && r[j] == p[j]);
                let (a, b) = choose|a: int, b: int| 0 <= a < b < s0.len() && s0[a] == p[i] && s0[b] == p[j];
                assert(s[a] == s0[a] && s[b] == s0[b]);
            } else if i < pos && j == pos {
                assert(r[i] == p[i] && r[j] == x);
                assert(p.contains(p[i]));
                assert(s0.contains(p[i]));
                let a = choose|a: int| 0 <= a < s0.len() && s0[a] == p[i];
                assert(s[a] == s0[a]);
                assert(s[s.len() - 1] == x);
            } else if i < pos {
                assert(r[i] == p[i] && r[j] == p[j - 1]);
                let (a, b) = choose|a: int, b: int| 0 <= a < b < s0.len() && s0[a] == p[i] && s0[b] == p[j - 1];
                assert(s[a] == s0[a] && s[b] == s0[b]);
            } else if i == pos {
                assert(r[i] == x && r[j] == p[j - 1]);
                assert(lt(x, p[pos]));
                if j - 1 > pos {
                    assert(!lt(p[j - 1], p[pos]));
                }
                assert(lt(x, p[pos]) ==> lt(x, p[j - 1]) || lt(p[j - 1], p[pos]));
            } else {
                assert(r[i] == p[i - 1] && r[j] == p[j - 1]);
                let (a, b) = choose|a: int, b: int| 0 <= a < b < s0.len() && s0[a] == p[i - 1] && s0[b] == p[j - 1];
                assert(s[a] == s0[a] && s[b] == s0[b]);
            }
        }
    }
}

} // verus!
