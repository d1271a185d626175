//! Lexicographic order on character sequences, and the order of measured results.
use vstd::prelude::*;
use vstd::relations::{sorted_by, total_ordering};

verus! {

/// `a` comes before or equals `b` in lexicographic order by Unicode scalar values
/// (the order of Rust's `str`, whose UTF-8 byte order agrees with it).
pub open spec fn lex_le(a: Seq<char>, b: Seq<char>) -> bool
    decreases a.len(),
{
    if a.len() == 0 {
        true
    } else if b.len() == 0 {
        false
    } else if a[0] != b[0] {
        (a[0] as u32) < (b[0] as u32)
    } else {
        lex_le(a.drop_first(), b.drop_first())
    }
}

/// Strict lexicographic order.
pub open spec fn lex_lt(a: Seq<char>, b: Seq<char>) -> bool {
    lex_le(a, b) && a != b
}

/// Characters with the same code are equal.
pub proof fn lemma_char_u32_injective(x: char, y: char)
    requires
        (x as u32) == (y as u32),
    ensures
        x == y,
{
    vstd::utf8::char_u32_cast(x, x as u32);
    vstd::utf8::char_u32_cast(y, y as u32);
}

/// The lexicographic order is reflexive.
pub proof fn lemma_lex_le_reflexive(a: Seq<char>)
    ensures
        lex_le(a, a),
    decreases a.len(),
{
    if a.len() > 0 {
        lemma_lex_le_reflexive(a.drop_first());
    }
}

/// The lexicographic order is antisymmetric.
pub proof fn lemma_lex_le_antisymmetric(a: Seq<char>, b: Seq<char>)
    requires
        lex_le(a, b),
        lex_le(b, a),
    ensures
        a == b,
    decreases a.len(),
{
    if a.len() > 0 && b.len() > 0 {
        if a[0] != b[0] {
            if (a[0] as u32) == (b[0] as u32) {
                lemma_char_u32_injective(a[0], b[0]);
            }
        } else {
            lemma_lex_le_antisymmetric(a.drop_first(), b.drop_first());
            assert(a =~= seq![a[0]] + a.drop_first());
            assert(b =~= seq![b[0]] + b.drop_first());
        }
    }
}

/// The lexicographic order is transitive.
pub proof fn lemma_lex_le_transitive(a: Seq<char>, b: Seq<char>, c: Seq<char>)
    requires
        lex_le(a, b),
        lex_le(b, c),
    ensures
        lex_le(a, c),
    decreases a.len(),
{
    if a.len() > 0 && b.len() > 0 && c.len() > 0 {
        if a[0] == b[0] && b[0] == c[0] {
            lemma_lex_le_transitive(a.drop_first(), b.drop_first(), c.drop_first());
        } else if a[0] == c[0] {
            if (a[0] as u32) == (b[0] as u32) {
                lemma_char_u32_injective(a[0], b[0]);
            }
        }
    }
}

/// Any two sequences are comparable in lexicographic order.
pub proof fn lemma_lex_le_total(a: Seq<char>, b: Seq<char>)
    ensures
        lex_le(a, b) || lex_le(b, a),
    decreases a.len(),
{
    if a.len() > 0 && b.len() > 0 {
        if a[0] == b[0] {
            lemma_lex_le_total(a.drop_first(), b.drop_first());
        } else if (a[0] as u32) == (b[0] as u32) {
            lemma_char_u32_injective(a[0], b[0]);
        }
    }
}

/// The lexicographic order is a total order.
pub proof fn lemma_lex_le_total_ordering()
    ensures
        total_ordering(|a: Seq<char>, b: Seq<char>| lex_le(a, b)),
{
    assert forall|a: Seq<char>| #[trigger] lex_le(a, a) by {
        lemma_lex_le_reflexive(a);
    }
    assert forall|a: Seq<char>, b: Seq<char>| #[trigger] lex_le(a, b) && #[trigger] lex_le(b, a) implies a == b by {
        lemma_lex_le_antisymmetric(a, b);
    }
    assert forall|a: Seq<char>, b: Seq<char>, c: Seq<char>| #[trigger] lex_le(a, b) && #[trigger] lex_le(b, c) implies lex_le(a, c) by {
        lemma_lex_le_transitive(a, b, c);
    }
    assert forall|a: Seq<char>, b: Seq<char>| #[trigger] lex_le(a, b) || #[trigger] lex_le(b, a) by {
        lemma_lex_le_total(a, b);
    }
}

/// Compares two character slices lexicographically: whether `a` comes before or equals `b`.
pub fn lex_le_chars(a: &[char], b: &[char]) -> (r: bool)
    ensures
        r == lex_le(a@, b@),
{
    let mut i: usize = 0;
    assert(a@.skip(0) =~= a@);
    assert(b@.skip(0) =~= b@);
    while i < a.len() && i < b.len()
        invariant
            i <= a@.len(),
            i <= b@.len(),
            forall|k: int| 0 <= k < i ==> a@[k] == b@[k],
            lex_le(a@, b@) == lex_le(a@.skip(i as int), b@.skip(i as int)),
        decreases a@.len() - i,
    {
        if a[i] != b[i] {
            return (a[i] as u32) < (b[i] as u32);
        }
        assert(a@.skip(i as int).drop_first() =~= a@.skip(i + 1));
        assert(b@.skip(i as int).drop_first() =~= b@.skip(i + 1));
        i = i + 1;
    }
    i == a.len()
}

/// A measured result: a prefix edit distance and the stored string.
pub open spec fn measure_le(x: (nat, Seq<char>), y: (nat, Seq<char>)) -> bool {
    x.0 < y.0 || (x.0 == y.0 && lex_le(x.1, y.1))
}

/// Results are ordered by distance first and then lexicographically; this is a total order.
pub proof fn lemma_measure_le_total_ordering()
    ensures
        total_ordering(|x: (nat, Seq<char>), y: (nat, Seq<char>)| measure_le(x, y)),
{
    lemma_lex_le_total_ordering();
    assert forall|x: (nat, Seq<char>), y: (nat, Seq<char>)| #[trigger] measure_le(x, y) && #[trigger] measure_le(y, x) implies x == y by {
        lemma_lex_le_antisymmetric(x.1, y.1);
    }
    assert forall|x: (nat, Seq<char>), y: (nat, Seq<char>), z: (nat, Seq<char>)| #[trigger] measure_le(x, y) && #[trigger] measure_le(y, z) implies measure_le(x, z) by {
        if x.0 == y.0 && y.0 == z.0 {
            lemma_lex_le_transitive(x.1, y.1, z.1);
        }
    }
    assert forall|x: (nat, Seq<char>), y: (nat, Seq<char>)| #[trigger] measure_le(x, y) || #[trigger] measure_le(y, x) by {
        lemma_lex_le_total(x.1, y.1);
    }
    assert forall|x: (nat, Seq<char>)| #[trigger] measure_le(x, x) by {
        lemma_lex_le_reflexive(x.1);
    }
}

/// Compares two measured results (distance, then characters).
pub fn measure_le_exec(d1: usize, s1: &[char], d2: usize, s2: &[char]) -> (r: bool)
    ensures
        r == measure_le((d1 as nat, s1@), (d2 as nat, s2@)),
{
    if d1 != d2 {
        d1 < d2
    } else {
        lex_le_chars(s1, s2)
    }
}

/// Inserting into a sequence adds one occurrence to its multiset.
pub proof fn lemma_insert_to_multiset<A>(s: Seq<A>, p: int, x: A)
    requires
        0 <= p <= s.len(),
    ensures
        s.insert(p, x).to_multiset() =~= s.to_multiset().insert(x),
{
    broadcast use vstd::seq_lib::group_to_multiset_ensures;
    let l = s.subrange(0, p);
    let r = s.subrange(p, s.len() as int);
    assert(s =~= l + r);
    vstd::seq_lib::lemma_multiset_commutative(l, r);
    vstd::seq_lib::lemma_multiset_commutative(l.push(x), r);
}

/// Removing the last element of a sequence removes one occurrence from its multiset.
pub proof fn lemma_drop_last_to_multiset<A>(s: Seq<A>)
    requires
        s.len() > 0,
    ensures
        s.drop_last().to_multiset() =~= s.to_multiset().remove(s.last()),
        s.to_multiset() =~= s.drop_last().to_multiset().insert(s.last()),
{
    broadcast use vstd::seq_lib::group_to_multiset_ensures;
    assert(s.drop_last().push(s.last()) =~= s);
}

/// `s` is strictly increasing under `lt`.
pub open spec fn strictly_increasing<T>(s: Seq<T>, lt: spec_fn(T, T) -> bool) -> bool {
    forall|i: int, j: int| 0 <= i < j < s.len() ==> lt(#[trigger] s[i], #[trigger] s[j])
}

/// `lt` is a strict total order.
pub open spec fn strict_total_order<T>(lt: spec_fn(T, T) -> bool) -> bool {
    &&& forall|a: T| !#[trigger] lt(a, a)
    &&& forall|a: T, b: T, c: T| #[trigger] lt(a, b) && #[trigger] lt(b, c) ==> lt(a, c)
    &&& forall|a: T, b: T| a != b ==> #[trigger] lt(a, b) || lt(b, a)
}

/// The elements of `set` in increasing order under `lt`.
pub open spec fn increasing_elems<T>(set: Set<T>, lt: spec_fn(T, T) -> bool) -> Seq<T> {
    choose|s: Seq<T>| strictly_increasing(s, lt) && s.to_set() == set
}

/// Two strictly increasing sequences with the same elements are equal.
pub proof fn lemma_increasing_unique<T>(x: Seq<T>, y: Seq<T>, lt: spec_fn(T, T) -> bool)
    requires
        strict_total_order(lt),
        strictly_increasing(x, lt),
        strictly_increasing(y, lt),
        x.to_set() == y.to_set(),
    ensures
        x == y,
    decreases x.len(),
{
    broadcast use vstd::seq_lib::group_seq_properties;
    if x.len() == 0 {
        if y.len() > 0 {
            assert(y.to_set().contains(y[0]));
        }
        assert(x =~= y);
    } else {
        assert(x.to_set().contains(x[0]));
        assert(y.contains(x[0]));
        let j = choose|j: int| 0 <= j < y.len() && y[j] == x[0];
        assert(y.to_set().contains(y[0]));
        assert(x.contains(y[0]));
        let i = choose|i: int| 0 <= i < x.len() && x[i] == y[0];
        if x[0] != y[0] {
            assert(i > 0 && j > 0);
            assert(lt(x[0], x[i]));
            assert(lt(y[0], y[j]));
            assert(lt(x[0], x[0]));
        }
        let xs = x.drop_first();
        let ys = y.drop_first();
        assert forall|a: T| xs.to_set().contains(a) <==> ys.to_set().contains(a) by {
            if xs.to_set().contains(a) {
                assert(xs.contains(a));
                let k = choose|k: int| 0 <= k < xs.len() && xs[k] == a;
                assert(x[k + 1] == a);
                assert(lt(x[0], a));
                assert(x.to_set().contains(a));
                assert(y.contains(a));
                let m = choose|m: int| 0 <= m < y.len() && y[m] == a;
                if m == 0 {
                    assert(lt(a, a));
                }
                assert(ys[m - 1] == a);
            }
            if ys.to_set().contains(a) {
                assert(ys.contains(a));
                let k = choose|k: int| 0 <= k < ys.len() && ys[k] == a;
                assert(y[k + 1] == a);
                assert(lt(y[0], a));
                assert(y.to_set().contains(a));
                assert(x.contains(a));
                let m = choose|m: int| 0 <= m < x.len() && x[m] == a;
                if m == 0 {
                    assert(lt(a, a));
                }
                assert(xs[m - 1] == a);
            }
        }
        assert(xs.to_set() =~= ys.to_set());
        assert(strictly_increasing(xs, lt)) by {
            assert forall|a: int, b: int| 0 <= a < b < xs.len() implies lt(#[trigger] xs[a], #[trigger] xs[b]) by {
                assert(xs[a] == x[a + 1] && xs[b] == x[b + 1]);
            }
        }
        assert(strictly_increasing(ys, lt)) by {
            assert forall|a: int, b: int| 0 <= a < b < ys.len() implies lt(#[trigger] ys[a], #[trigger] ys[b]) by {
                assert(ys[a] == y[a + 1] && ys[b] == y[b + 1]);
            }
        }
        lemma_increasing_unique(xs, ys, lt);
        assert(x =~= seq![x[0]] + xs);
        assert(y =~= seq![y[0]] + ys);
    }
}

/// A strictly increasing sequence is the increasing enumeration of its elements.
pub proof fn lemma_increasing_elems<T>(s: Seq<T>, lt: spec_fn(T, T) -> bool)
    requires
        strict_total_order(lt),
        strictly_increasing(s, lt),
    ensures
        increasing_elems(s.to_set(), lt) == s,
{
    let e = increasing_elems(s.to_set(), lt);
    assert(strictly_increasing(e, lt) && e.to_set() == s.to_set());
    lemma_increasing_unique(e, s, lt);
}

/// The strict lexicographic order of character sequences.
pub open spec fn lex_lt_order() -> spec_fn(Seq<char>, Seq<char>) -> bool {
    |a: Seq<char>, b: Seq<char>| lex_lt(a, b)
}

/// The strict lexicographic order is a strict total order.
pub proof fn lemma_lex_lt_strict_total()
    ensures
        strict_total_order(lex_lt_order()),
{
    let lt = lex_lt_order();
    assert forall|a: Seq<char>, b: Seq<char>, c: Seq<char>| #[trigger] lt(a, b) && #[trigger] lt(b, c) implies lt(a, c) by {
        lemma_lex_le_transitive(a, b, c);
        if a == c {
            lemma_lex_le_antisymmetric(a, b);
        }
    }
    assert forall|a: Seq<char>, b: Seq<char>| a != b implies #[trigger] lt(a, b) || lt(b, a) by {
        lemma_lex_le_total(a, b);
    }
}

/// The order of integers of type `u64`.
pub open spec fn u64_lt() -> spec_fn(u64, u64) -> bool {
    |a: u64, b: u64| a < b
}

/// The order of `u64` is a strict total order.
pub proof fn lemma_int_orders()
    ensures
        strict_total_order(u64_lt()),
{
}

} // verus!
