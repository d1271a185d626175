//! Edit distance and prefix edit distance between character sequences.
use vstd::prelude::*;
use vstd::std_specs::iter::IteratorSpec;
use vstd::relations::{sorted_by, total_ordering};
use vstd::multiset::Multiset;
use crate::measured::{MeasuredPrefix, measured_keys};
use crate::order::{measure_le, measure_le_exec, lemma_measure_le_total_ordering, lemma_insert_to_multiset, lemma_drop_last_to_multiset, lemma_lex_le_reflexive};

verus! {

/// The smaller of two naturals.
pub open spec fn min_nat(x: nat, y: nat) -> nat {
    if x <= y { x } else { y }
}

/// Levenshtein edit distance between `a` and `b`: the least number of single
/// character insertions, deletions and substitutions that turn `a` into `b`.
pub open spec fn lev(a: Seq<char>, b: Seq<char>) -> nat
    decreases a.len() + b.len(),
{
    if a.len() == 0 {
        b.len()
    } else if b.len() == 0 {
        a.len()
    } else {
        let diff: nat = if a.last() == b.last() { 0 } else { 1 };
        min_nat(
            lev(a.drop_last(), b.drop_last()) + diff,
            min_nat(lev(a.drop_last(), b) + 1, lev(a, b.drop_last()) + 1),
        )
    }
}

/// Prefix edit distance: the least edit distance between `a` and a prefix of `b`.
pub open spec fn ped(a: Seq<char>, b: Seq<char>) -> nat
    decreases b.len(),
{
    if b.len() == 0 {
        lev(a, b)
    } else {
        min_nat(ped(a, b.drop_last()), lev(a, b))
    }
}

/// The edit distance never exceeds the length of the longer sequence.
pub proof fn lemma_lev_upper_bound(a: Seq<char>, b: Seq<char>)
    ensures
        lev(a, b) <= if a.len() >= b.len() { a.len() } else { b.len() },
    decreases a.len() + b.len(),
{
    if a.len() > 0 && b.len() > 0 {
        lemma_lev_upper_bound(a.drop_last(), b.drop_last());
    }
}

/// The edit distance is symmetric.
pub proof fn lemma_lev_symmetric(a: Seq<char>, b: Seq<char>)
    ensures
        lev(a, b) == lev(b, a),
    decreases a.len() + b.len(),
{
    if a.len() > 0 && b.len() > 0 {
        lemma_lev_symmetric(a.drop_last(), b.drop_last());
        lemma_lev_symmetric(a.drop_last(), b);
        lemma_lev_symmetric(a, b.drop_last());
    }
}

/// A sequence is at edit distance zero from itself.
pub proof fn lemma_lev_self(a: Seq<char>)
    ensures
        lev(a, a) == 0,
    decreases a.len(),
{
    if a.len() > 0 {
        lemma_lev_self(a.drop_last());
    }
}

/// Only equal sequences are at edit distance zero.
pub proof fn lemma_lev_zero(a: Seq<char>, b: Seq<char>)
    requires
        lev(a, b) == 0,
    ensures
        a == b,
    decreases a.len() + b.len(),
{
    if a.len() > 0 && b.len() > 0 {
        lemma_lev_zero(a.drop_last(), b.drop_last());
        assert(a =~= a.drop_last().push(a.last()));
        assert(b =~= b.drop_last().push(b.last()));
    } else {
        assert(a =~= b);
    }
}

/// The edit distance is at least the difference of the lengths.
pub proof fn lemma_lev_lower_bound(a: Seq<char>, b: Seq<char>)
    ensures
        lev(a, b) >= if a.len() >= b.len() { a.len() - b.len() } else { b.len() - a.len() },
    decreases a.len() + b.len(),
{
    if a.len() > 0 && b.len() > 0 {
        lemma_lev_lower_bound(a.drop_last(), b.drop_last());
        lemma_lev_lower_bound(a.drop_last(), b);
        lemma_lev_lower_bound(a, b.drop_last());
    }
}

/// The prefix edit distance is the least edit distance between `a` and a prefix of `b`:
/// it is at most the distance to every prefix, and equal to the distance to one of them.
pub proof fn lemma_ped_is_least(a: Seq<char>, b: Seq<char>)
    ensures
        forall|j: int| 0 <= j <= b.len() ==> ped(a, b) <= #[trigger] lev(a, b.take(j)),
        exists|j: int| 0 <= j <= b.len() && ped(a, b) == #[trigger] lev(a, b.take(j)),
    decreases b.len(),
{
    assert(b.take(b.len() as int) =~= b);
    if b.len() > 0 {
        let c = b.drop_last();
        lemma_ped_is_least(a, c);
        assert forall|j: int| 0 <= j <= b.len() implies ped(a, b) <= #[trigger] lev(a, b.take(j)) by {
            if j < b.len() {
                assert(b.take(j) =~= c.take(j));
            }
        }
        if ped(a, c) <= lev(a, b) {
            let j = choose|j: int| 0 <= j <= c.len() && ped(a, c) == #[trigger] lev(a, c.take(j));
            assert(b.take(j) =~= c.take(j));
            assert(ped(a, b) == lev(a, b.take(j)));
        } else {
            assert(ped(a, b) == lev(a, b.take(b.len() as int)));
        }
    } else {
        assert(ped(a, b) == lev(a, b.take(0)));
    }
}

/// The prefix edit distance is at most the edit distance and at most the length of `a`.
pub proof fn lemma_ped_bounds(a: Seq<char>, b: Seq<char>)
    ensures
        ped(a, b) <= lev(a, b),
        ped(a, b) <= a.len(),
{
    lemma_ped_is_least(a, b);
    assert(b.take(b.len() as int) =~= b);
    assert(b.take(0) =~= Seq::<char>::empty());
    assert(ped(a, b) <= lev(a, b.take(0)));
}

/// A query that starts a stored string is at prefix edit distance zero from it.
pub proof fn lemma_ped_of_extension(a: Seq<char>, x: Seq<char>)
    ensures
        ped(a, a + x) == 0,
{
    lemma_ped_is_least(a, a + x);
    assert((a + x).take(a.len() as int) =~= a);
    lemma_lev_self(a);
    assert(ped(a, a + x) <= lev(a, (a + x).take(a.len() as int)));
}

/// Inserting one character into `b` moves it at most one edit away from `a`.
pub proof fn lemma_lev_insert(a: Seq<char>, b: Seq<char>, i: int, c: char)
    requires
        0 <= i <= b.len(),
    ensures
        lev(a, b.insert(i, c)) <= lev(a, b) + 1,
    decreases a.len() + b.len(),
{
    let bi = b.insert(i, c);
    if a.len() == 0 {
    } else if i == b.len() {
        assert(bi.drop_last() =~= b);
    } else {
        assert(bi.last() == b.last());
        assert(bi.drop_last() =~= b.drop_last().insert(i, c));
        lemma_lev_insert(a.drop_last(), b.drop_last(), i, c);
        lemma_lev_insert(a.drop_last(), b, i, c);
        lemma_lev_insert(a, b.drop_last(), i, c);
    }
}

/// Dropping the last character of `a` moves it at most one edit away from `b`.
proof fn lemma_lev_drop_last_first(a: Seq<char>, b: Seq<char>)
    requires
        a.len() > 0,
    ensures
        lev(a, b) <= lev(a.drop_last(), b) + 1,
{
    lemma_lev_symmetric(a, b);
    lemma_lev_symmetric(a.drop_last(), b);
    assert(a.drop_last().insert(a.len() - 1, a.last()) =~= a);
    lemma_lev_insert(b, a.drop_last(), a.len() - 1, a.last());
}

/// Removing one character of `b` moves it at most one edit away from `a`.
pub proof fn lemma_lev_remove(a: Seq<char>, b: Seq<char>, i: int)
    requires
        0 <= i < b.len(),
    ensures
        lev(a, b.remove(i)) <= lev(a, b) + 1,
    decreases a.len() + b.len(),
{
    let br = b.remove(i);
    if a.len() == 0 {
    } else if i == b.len() - 1 {
        assert(br =~= b.drop_last());
        lemma_lev_drop_last_first(a, b.drop_last());
        lemma_lev_remove(a.drop_last(), b, i);
    } else {
        assert(br.last() == b.last());
        assert(br.drop_last() =~= b.drop_last().remove(i));
        lemma_lev_remove(a.drop_last(), b.drop_last(), i);
        lemma_lev_remove(a.drop_last(), b, i);
        lemma_lev_remove(a, b.drop_last(), i);
    }
}

/// Replacing one character of `b` moves it at most one edit away from `a`.
pub proof fn lemma_lev_update(a: Seq<char>, b: Seq<char>, i: int, c: char)
    requires
        0 <= i < b.len(),
    ensures
        lev(a, b.update(i, c)) <= lev(a, b) + 1,
    decreases a.len() + b.len(),
{
    let bu = b.update(i, c);
    if a.len() == 0 {
    } else if i == b.len() - 1 {
        assert(bu.drop_last() =~= b.drop_last());
        lemma_lev_update(a.drop_last(), b, i, c);
    } else {
        assert(bu.last() == b.last());
        assert(bu.drop_last() =~= b.drop_last().update(i, c));
        lemma_lev_update(a.drop_last(), b.drop_last(), i, c);
        lemma_lev_update(a.drop_last(), b, i, c);
        lemma_lev_update(a, b.drop_last(), i, c);
    }
}

/// Appending the same character to both sequences keeps their edit distance.
pub proof fn lemma_lev_push_same(a: Seq<char>, b: Seq<char>, c: char)
    ensures
        lev(a.push(c), b.push(c)) == lev(a, b),
{
    let ac = a.push(c);
    let bc = b.push(c);
    assert(ac.drop_last() =~= a);
    assert(bc.drop_last() =~= b);
    assert(bc.remove(b.len() as int) =~= b);
    lemma_lev_remove(a, bc, b.len() as int);
    assert(ac.remove(a.len() as int) =~= a);
    lemma_lev_remove(b, ac, a.len() as int);
    lemma_lev_symmetric(b, a);
    lemma_lev_symmetric(b, ac);
}

/// `(x, y)` is a pair of equal characters of `a` and `b` (their `x`-th and `y`-th, counting
/// from 1), or the pair of empty prefixes.
pub open spec fn match_pair(a: Seq<char>, b: Seq<char>, x: int, y: int) -> bool {
    &&& 0 <= x <= a.len()
    &&& 0 <= y <= b.len()
    &&& ((x == 0 && y == 0) || (x > 0 && y > 0 && a[x - 1] == b[y - 1]))
}

/// The longer of the remainders of `a` and `b` after their first `x` and `y` characters.
pub open spec fn longer_rest(a: Seq<char>, b: Seq<char>, x: int, y: int) -> int {
    if a.len() - x >= b.len() - y { a.len() - x } else { b.len() - y }
}

/// The edit distance of `a` and `b` is reached through a last pair of equal characters (or
/// the empty prefixes): the distance of the prefixes up to that pair plus the longer of the
/// two remainders is at most the edit distance.
pub proof fn lemma_lev_last_match(a: Seq<char>, b: Seq<char>) -> (r: (int, int))
    ensures
        match_pair(a, b, r.0, r.1),
        lev(a.take(r.0), b.take(r.1)) + longer_rest(a, b, r.0, r.1) <= lev(a, b),
    decreases a.len() + b.len(),
{
    if a.len() == 0 || b.len() == 0 {
        assert(a.take(0).len() == 0 && b.take(0).len() == 0);
        (0, 0)
    } else if a.last() == b.last() {
        assert(a.take(a.len() as int) =~= a);
        assert(b.take(b.len() as int) =~= b);
        (a.len() as int, b.len() as int)
    } else {
        let a1 = a.drop_last();
        let b1 = b.drop_last();
        if lev(a, b) == lev(a1, b1) + 1 {
            let r = lemma_lev_last_match(a1, b1);
            assert(a1.take(r.0) =~= a.take(r.0));
            assert(b1.take(r.1) =~= b.take(r.1));
            r
        } else if lev(a, b) == lev(a1, b) + 1 {
            let r = lemma_lev_last_match(a1, b);
            assert(a1.take(r.0) =~= a.take(r.0));
            r
        } else {
            let r = lemma_lev_last_match(a, b1);
            assert(b1.take(r.1) =~= b.take(r.1));
            r
        }
    }
}

/// Two sequences that end in the same character and are at edit distance at least 1 have
/// an earlier pair of equal characters (or the empty prefixes) whose prefixes are closer.
pub proof fn lemma_lev_earlier_match(a: Seq<char>, b: Seq<char>) -> (r: (int, int))
    requires
        a.len() > 0,
        b.len() > 0,
        a.last() == b.last(),
        lev(a, b) >= 1,
    ensures
        match_pair(a, b, r.0, r.1),
        r.0 < a.len(),
        r.1 < b.len(),
        lev(a.take(r.0), b.take(r.1)) < lev(a, b),
    decreases a.len(),
{
    let a1 = a.drop_last();
    let b1 = b.drop_last();
    assert(a =~= a1.push(a.last()));
    assert(b =~= b1.push(b.last()));
    lemma_lev_push_same(a1, b1, a.last());
    let r = lemma_lev_last_match(a1, b1);
    if longer_rest(a1, b1, r.0, r.1) >= 1 {
        assert(a1.take(r.0) =~= a.take(r.0));
        assert(b1.take(r.1) =~= b.take(r.1));
        r
    } else {
        assert(r.0 == a1.len() && r.1 == b1.len());
        assert(a1.take(r.0) =~= a1);
        assert(b1.take(r.1) =~= b1);
        if r.0 == 0 {
            assert(a1.len() == 0 && b1.len() == 0);
            assert(lev(a1, b1) == 0);
        }
        let r2 = lemma_lev_earlier_match(a1, b1);
        assert(a1.take(r2.0) =~= a.take(r2.0));
        assert(b1.take(r2.1) =~= b.take(r2.1));
        r2
    }
}

/// Extending both sequences costs at most the length of the longer extension.
pub proof fn lemma_lev_extend(a: Seq<char>, b: Seq<char>, x: Seq<char>, y: Seq<char>)
    ensures
        lev(a + x, b + y) <= lev(a, b) + if x.len() >= y.len() { x.len() } else { y.len() },
    decreases x.len() + y.len(),
{
    if x.len() == 0 && y.len() == 0 {
        assert(a + x =~= a);
        assert(b + y =~= b);
    } else if x.len() > 0 && y.len() > 0 {
        lemma_lev_extend(a, b, x.drop_last(), y.drop_last());
        assert((a + x).drop_last() =~= a + x.drop_last());
        assert((b + y).drop_last() =~= b + y.drop_last());
    } else if x.len() > 0 {
        lemma_lev_extend(a, b, x.drop_last(), y);
        assert((a + x).drop_last() =~= a + x.drop_last());
        lemma_lev_drop_last_first(a + x, b + y);
    } else {
        lemma_lev_extend(a, b, x, y.drop_last());
        let by = b + y.drop_last();
        assert(by.insert(by.len() as int, y.last()) =~= b + y);
        lemma_lev_insert(a + x, by, by.len() as int, y.last());
    }
}

/// Returns the last row of the edit distance matrix between `first` and the
/// prefixes of `second`: entry `j` is the edit distance between `first` and
/// the first `j` characters of `second`.
pub fn final_lev_row(first: &[char], second: &[char]) -> (row: Vec<usize>)
    ensures
        row@.len() == second@.len() + 1,
        forall|j: int| 0 <= j <= second@.len() ==> #[trigger] row@[j] == lev(first@, second@.take(j)),
{
    let n = second.len();
    let mut prev_row: Vec<usize> = Vec::new();
    prev_row.push(0);
    let mut j: usize = 0;
    while j < n
        invariant
            n == second@.len(),
            j <= n,
            prev_row@.len() == j + 1,
            forall|k: int| 0 <= k <= j ==> #[trigger] prev_row@[k] == k,
        decreases n - j,
    {
        prev_row.push(j + 1);
        j = j + 1;
    }
    assert forall|k: int| 0 <= k <= n implies #[trigger] prev_row@[k] == lev(first@.take(0), second@.take(k)) by {
        assert(first@.take(0).len() == 0);
    }
    let row_len = prev_row.len();
    assert(n < usize::MAX);
    let mut current_row: Vec<usize> = prev_row.clone();
    let mut row: usize = 0;
    while row < first.len()
        invariant
            n == second@.len(),
            n < usize::MAX,
            row <= first@.len(),
            prev_row@.len() == n + 1,
            current_row@.len() == n + 1,
            forall|k: int| 0 <= k <= n ==> #[trigger] prev_row@[k] == lev(first@.take(row as int), second@.take(k)),
        decreases first@.len() - row,
    {
        let ghost a = first@.take(row + 1);
        current_row.set(0, row + 1);
        assert(second@.take(0).len() == 0);
        let mut column: usize = 0;
        while column < n
            invariant
                n == second@.len(),
                n < usize::MAX,
                row < first@.len(),
                a == first@.take(row + 1),
                column <= n,
                prev_row@.len() == n + 1,
                current_row@.len() == n + 1,
                forall|k: int| 0 <= k <= n ==> #[trigger] prev_row@[k] == lev(first@.take(row as int), second@.take(k)),
                forall|k: int| 0 <= k <= column ==> #[trigger] current_row@[k] == lev(a, second@.take(k)),
            decreases n - column,
        {
            let ghost b = second@.take(column + 1);
            assert(a.drop_last() == first@.take(row as int));
            assert(b.drop_last() == second@.take(column as int));
            assert(a.last() == first@[row as int]);
            assert(b.last() == second@[column as int]);
            proof {
                lemma_lev_upper_bound(first@.take(row as int), second@.take(column as int));
                lemma_lev_upper_bound(first@.take(row as int), b);
                lemma_lev_upper_bound(a, second@.take(column as int));
            }
            let diff: usize = if first[row] != second[column] { 1 } else { 0 };
            let replace_dist = prev_row[column] + diff;
            // insertion and erasure both cost one more than the smaller neighbour
            let insert_base = prev_row[column + 1];
            let erase_base = current_row[column];
            let inner = if insert_base <= erase_base { insert_base } else { erase_base } + 1;
            let dist = if replace_dist <= inner { replace_dist } else { inner };
            current_row.set(column + 1, dist);
            column = column + 1;
        }
        std::mem::swap(&mut prev_row, &mut current_row);
        row = row + 1;
    }
    assert(first@.take(first@.len() as int) == first@);
    prev_row
}

/// Returns the characters of `string`, in order.
pub fn to_char_vec(string: &str) -> (chars: Vec<char>)
    ensures
        chars@ == string@,
{
    let mut chars: Vec<char> = Vec::new();
    for c in it: string.chars()
        invariant
            it.seq() == string@,
            chars@ == it.seq().take(it.index()),
    {
        chars.push(c);
    }
    chars
}

/// The smallest entry of a non-empty row of edit distances, which is the prefix
/// edit distance when the row comes from `final_lev_row`.
fn row_min(first: Ghost<Seq<char>>, second: Ghost<Seq<char>>, row: &Vec<usize>) -> (m: usize)
    requires
        row@.len() == second@.len() + 1,
        forall|j: int| 0 <= j <= second@.len() ==> #[trigger] row@[j] == lev(first@, second@.take(j)),
    ensures
        m == ped(first@, second@),
{
    let mut m = row[0];
    let mut j: usize = 1;
    assert(second@.take(0).len() == 0);
    while j < row.len()
        invariant
            row@.len() == second@.len() + 1,
            forall|k: int| 0 <= k <= second@.len() ==> #[trigger] row@[k] == lev(first@, second@.take(k)),
            1 <= j <= row@.len(),
            m == ped(first@, second@.take(j - 1)),
        decreases row@.len() - j,
    {
        assert(second@.take(j as int).drop_last() == second@.take(j - 1));
        if row[j] < m {
            m = row[j];
        }
        j = j + 1;
    }
    assert(second@.take(second@.len() as int) =~= second@);
    m
}

/// Returns the prefix edit distance between two strings, where the prefixes of `second` vary
/// (the least edit distance between `first` and any prefix of `second`).
pub fn prefix_edit_distance(first: &str, second: &str) -> (distance: usize)
    ensures
        distance == ped(first@, second@),
{
    let first: Vec<char> = to_char_vec(first);
    let second: Vec<char> = to_char_vec(second);
    prefix_edit_distance_chars(&first, &second)
}

/// Returns the prefix edit distance between two character sequences, where the prefixes of `second` vary.
pub fn prefix_edit_distance_chars(first: &Vec<char>, second: &Vec<char>) -> (distance: usize)
    ensures
        distance == ped(first@, second@),
{
    let row = final_lev_row(first.as_slice(), second.as_slice());
    row_min(Ghost(first@), Ghost(second@), &row)
}

/// Returns the edit distance between two strings.
pub fn edit_distance(first: &str, second: &str) -> (distance: usize)
    ensures
        distance == lev(first@, second@),
{
    let first: Vec<char> = to_char_vec(first);
    let second: Vec<char> = to_char_vec(second);
    edit_distance_chars(first.as_slice(), second.as_slice())
}

/// Returns the edit distance between two char slices.
pub fn edit_distance_chars(first: &[char], second: &[char]) -> (distance: usize)
    ensures
        distance == lev(first@, second@),
{
    let row = final_lev_row(first, second);
    assert(second@.take(second@.len() as int) == second@);
    row[row.len() - 1]
}

/// The measure of each stored string against `query`: its prefix edit distance and its characters.
pub open spec fn measures(query: Seq<char>, strings: Seq<String>) -> Seq<(nat, Seq<char>)> {
    strings.map_values(|s: String| (ped(query, s@), s@))
}

/// The ordering relation of results.
pub open spec fn measure_order() -> spec_fn((nat, Seq<char>), (nat, Seq<char>)) -> bool {
    |x: (nat, Seq<char>), y: (nat, Seq<char>)| measure_le(x, y)
}

/// The `requested` best results: all measures sorted by distance and then
/// lexicographically, cut to at most `requested` entries.
pub open spec fn best_measures(query: Seq<char>, strings: Seq<String>, requested: nat) -> Seq<(nat, Seq<char>)> {
    let sorted = measures(query, strings).sort_by(measure_order());
    if requested <= strings.len() { sorted.take(requested as int) } else { sorted }
}

/// The sorted measures are in order and each is the prefix edit distance of its string.
pub proof fn lemma_sorted_measures(query: Seq<char>, strings: Seq<String>)
    ensures
        sorted_by(measures(query, strings).sort_by(measure_order()), measure_order()),
        measures(query, strings).sort_by(measure_order()).len() == strings.len(),
        forall|i: int| 0 <= i < strings.len() ==> #[trigger] measures(query, strings).sort_by(measure_order())[i].0
            == ped(query, measures(query, strings).sort_by(measure_order())[i].1),
{
    broadcast use vstd::seq_lib::group_to_multiset_ensures;
    let m = measures(query, strings);
    let sorted = m.sort_by(measure_order());
    lemma_measure_le_total_ordering();
    m.lemma_sort_by_ensures(measure_order());
    assert(sorted.to_multiset().len() == m.to_multiset().len());
    assert forall|i: int| 0 <= i < strings.len() implies #[trigger] sorted[i].0 == ped(query, sorted[i].1) by {
        assert(sorted.contains(sorted[i]));
        assert(m.contains(sorted[i]));
        let j = choose|j: int| 0 <= j < m.len() && m[j] == sorted[i];
        assert(m[j] == (ped(query, strings[j]@), strings[j]@));
    }
}

/// The measure of a kept candidate (distance, characters, index of the string).
spec fn candidate_key(t: (usize, Vec<char>, usize)) -> (nat, Seq<char>) {
    (t.0 as nat, t.1@)
}

/// The measures of a list of kept candidates.
spec fn candidate_keys(s: Seq<(usize, Vec<char>, usize)>) -> Seq<(nat, Seq<char>)> {
    s.map_values(|t: (usize, Vec<char>, usize)| candidate_key(t))
}

/// A sorted list of kept results followed by the sorted rejected ones, where every
/// kept one comes before every rejected one, is the sorted list of all of them.
proof fn lemma_kept_then_rejected(kept: Seq<(nat, Seq<char>)>, rejected: Seq<(nat, Seq<char>)>, all: Seq<(nat, Seq<char>)>)
    requires
        sorted_by(kept, measure_order()),
        forall|a: int, r: int| 0 <= a < kept.len() && 0 <= r < rejected.len() ==> measure_le(#[trigger] kept[a], #[trigger] rejected[r]),
        kept.to_multiset().add(rejected.to_multiset()) == all.to_multiset(),
    ensures
        all.sort_by(measure_order()).take(kept.len() as int) == kept,
        all.len() == kept.len() + rejected.len(),
        all.sort_by(measure_order()).len() == all.len(),
{
    broadcast use vstd::seq_lib::group_to_multiset_ensures;
    lemma_measure_le_total_ordering();
    let leq = measure_order();
    let rs = rejected.sort_by(leq);
    rejected.lemma_sort_by_ensures(leq);
    all.lemma_sort_by_ensures(leq);
    let t = kept + rs;
    assert forall|i: int, j: int| 0 <= i < j < t.len() implies #[trigger] leq(t[i], t[j]) by {
        if j >= kept.len() && i < kept.len() {
            assert(rs.to_multiset().count(rs[j - kept.len()]) > 0);
            assert(rejected.contains(rs[j - kept.len()]));
            let r = choose|r: int| 0 <= r < rejected.len() && rejected[r] == rs[j - kept.len()];
            assert(measure_le(kept[i], rejected[r]));
        }
    }
    vstd::seq_lib::lemma_multiset_commutative(kept, rs);
    vstd::seq_lib::lemma_sorted_unique(t, all.sort_by(leq), leq);
    assert(t.take(kept.len() as int) =~= kept);
    assert(all.to_multiset().len() == all.len());
    assert(all.sort_by(leq).to_multiset().len() == all.sort_by(leq).len());
}

/// Baseline autocomplete using the prefix edit distance that doesn't use an index:
/// returns the `requested` stored strings with the smallest prefix edit distance to
/// `query`, sorted by distance and then lexicographically (all of them if fewer are stored).
pub fn unindexed_autocomplete(query: &str, requested: usize, strings: &[String]) -> (result: Vec<MeasuredPrefix>)
    ensures
        measured_keys(result@) == best_measures(query@, strings@, requested as nat),
        result@.len() == if requested <= strings@.len() { requested as nat } else { strings@.len() },
        sorted_by(measured_keys(result@), measure_order()),
        forall|i: int| 0 <= i < result@.len() ==> #[trigger] result@[i].prefix_distance == ped(query@, result@[i].string@),
{
    let mut far: Vec<bool> = Vec::new();
    let mut i: usize = 0;
    while i < strings.len()
        invariant
            i <= strings@.len(),
            far@.len() == i,
            forall|k: int| 0 <= k < i ==> !#[trigger] far@[k],
        decreases strings@.len() - i,
    {
        far.push(false);
        i = i + 1;
    }
    best_measured(query, requested, strings, &far)
}

/// `s` is the characters of one of `strings`.
pub open spec fn is_one_of(strings: Seq<String>, s: Seq<char>) -> bool {
    exists|j: int| 0 <= j < strings.len() && #[trigger] strings[j]@ == s
}

/// The `requested` strings of `strings` with the smallest prefix edit distance to `query`,
/// sorted by distance and then lexicographically (all of them if fewer are given). A string
/// that `far` marks is known to be at prefix edit distance 3 or more: once `requested`
/// strings within distance 2 are kept, it is passed over without being measured.
pub(crate) fn best_measured(query: &str, requested: usize, strings: &[String], far: &Vec<bool>) -> (result: Vec<MeasuredPrefix>)
    requires
        far@.len() == strings@.len(),
        forall|k: int| 0 <= k < strings@.len() && #[trigger] far@[k] ==> ped(query@, strings@[k]@) >= 3,
    ensures
        measured_keys(result@) == best_measures(query@, strings@, requested as nat),
        result@.len() == if requested <= strings@.len() { requested as nat } else { strings@.len() },
        sorted_by(measured_keys(result@), measure_order()),
        forall|i: int| 0 <= i < result@.len() ==> #[trigger] result@[i].prefix_distance == ped(query@, result@[i].string@),
        forall|i: int| 0 <= i < result@.len() ==> is_one_of(strings@, #[trigger] result@[i].string@),
{
    broadcast use vstd::seq_lib::group_to_multiset_ensures;
    let q = to_char_vec(query);
    let ghost all = measures(query@, strings@);
    let mut best: Vec<(usize, Vec<char>, usize)> = Vec::new();
    let ghost mut rejected: Seq<(nat, Seq<char>)> = Seq::empty();
    proof {
        lemma_measure_le_total_ordering();
        assert(candidate_keys(best@) =~= Seq::empty());
        assert(all.take(0) =~= Seq::<(nat, Seq<char>)>::empty());
        assert(rejected.to_multiset() =~= Multiset::empty());
        assert(candidate_keys(best@).to_multiset() =~= Multiset::empty());
        assert(all.take(0).to_multiset() =~= Multiset::empty());
    }
    let mut i: usize = 0;
    while i < strings.len()
        invariant
            total_ordering(measure_order()),
            q@ == query@,
            all == measures(query@, strings@),
            far@.len() == strings@.len(),
            forall|k: int| 0 <= k < strings@.len() && #[trigger] far@[k] ==> ped(query@, strings@[k]@) >= 3,
            i <= strings@.len(),
            best@.len() == if requested <= i { requested as nat } else { i as nat },
            forall|k: int| 0 <= k < best@.len() ==> #[trigger] best@[k].2 < strings@.len()
                && strings@[best@[k].2 as int]@ == best@[k].1@,
            sorted_by(candidate_keys(best@), measure_order()),
            forall|a: int, r: int| 0 <= a < best@.len() && 0 <= r < rejected.len()
                ==> measure_le(#[trigger] candidate_keys(best@)[a], #[trigger] rejected[r]),
            candidate_keys(best@).to_multiset().add(rejected.to_multiset()) == all.take(i as int).to_multiset(),
        decreases strings@.len() - i,
    {
        if far[i] && requested > 0 && best.len() == requested && best[requested - 1].0 <= 2 {
            // string `i` is at distance 3 or more, after every kept one: it is passed over
            proof {
                let x = all[i as int];
                let keys = candidate_keys(best@);
                assert(x == (ped(query@, strings@[i as int]@), strings@[i as int]@));
                assert forall|a: int| 0 <= a < keys.len() implies measure_le(#[trigger] keys[a], x) by {
                    assert(keys[keys.len() - 1] == candidate_key(best@[requested - 1]));
                    if a < keys.len() - 1 {
                        assert(measure_order()(keys[a], keys[keys.len() - 1]));
                    }
                }
                assert(all.take(i + 1) =~= all.take(i as int).push(x));
                all.take(i as int).to_multiset_ensures();
                rejected.to_multiset_ensures();
                assert(rejected.push(x).to_multiset() =~= rejected.to_multiset().insert(x));
                rejected = rejected.push(x);
                assert(candidate_keys(best@).to_multiset().add(rejected.to_multiset()) =~= all.take(i + 1).to_multiset());
                assert(forall|a: int, r: int| 0 <= a < best@.len() && 0 <= r < rejected.len()
                    ==> measure_le(#[trigger] candidate_keys(best@)[a], #[trigger] rejected[r]));
            }
            i = i + 1;
            continue;
        }
        let s = to_char_vec(strings[i].as_str());
        let d = prefix_edit_distance_chars(&q, &s);
        let ghost x = (d as nat, s@);
        assert(x == all[i as int]);
        let mut p: usize = 0;
        while p < best.len() && measure_le_exec(best[p].0, best[p].1.as_slice(), d, s.as_slice())
            invariant
                x == (d as nat, s@),
                p <= best@.len(),
                forall|k: int| 0 <= k < p ==> measure_le(#[trigger] candidate_keys(best@)[k], x),
            decreases best@.len() - p,
        {
            assert(candidate_keys(best@)[p as int] == candidate_key(best@[p as int]));
            p = p + 1;
        }
        let ghost old_keys = candidate_keys(best@);
        assert(forall|k: int| p <= k < old_keys.len() ==> measure_le(x, #[trigger] old_keys[k])) by {
            if p < old_keys.len() {
                assert(!measure_le(old_keys[p as int], x));
                assert forall|k: int| p <= k < old_keys.len() implies measure_le(x, #[trigger] old_keys[k]) by {
                    assert(measure_order()(old_keys[p as int], x) || measure_order()(x, old_keys[p as int]));
                    if k > p {
                        assert(measure_order()(old_keys[p as int], old_keys[k]));
                    }
                }
            }
        }
        best.insert(p, (d, s, i));
        let ghost ins_keys = candidate_keys(best@);
        assert(ins_keys =~= old_keys.insert(p as int, x));
        proof {
            lemma_insert_to_multiset(old_keys, p as int, x);
            assert(all.take(i + 1) =~= all.take(i as int).push(x));
            all.take(i as int).to_multiset_ensures();
            assert forall|a: int, b: int| 0 <= a < b < ins_keys.len() implies #[trigger] measure_order()(ins_keys[a], ins_keys[b]) by {
                if a < p && b > p {
                    assert(measure_order()(old_keys[a], x));
                }
            }
        }
        if best.len() > requested {
            let ghost z = ins_keys.last();
            best.pop();
            proof {
                lemma_drop_last_to_multiset(ins_keys);
                assert(candidate_keys(best@) =~= ins_keys.drop_last());
                let new_keys = candidate_keys(best@);
                assert forall|a: int, r: int| 0 <= a < new_keys.len() && 0 <= r < rejected.len() + 1
                    implies measure_le(#[trigger] new_keys[a], #[trigger] rejected.push(z)[r]) by {
                    assert(measure_order()(ins_keys[a], ins_keys[ins_keys.len() - 1]));
                    if r < rejected.len() {
                        assert(rejected.push(z)[r] == rejected[r]);
                        if a < p {
                            assert(new_keys[a] == old_keys[a]);
                        } else if a > p {
                            assert(new_keys[a] == old_keys[a - 1]);
                        } else {
                            // the new entry is kept, so the removed last entry was an old one
                            assert(ins_keys.len() - 1 > p);
                            assert(z == old_keys[old_keys.len() - 1]);
                            assert(measure_le(old_keys[old_keys.len() - 1], rejected[r]));
                            assert(measure_order()(x, z));
                            assert(measure_order()(z, rejected[r]));
                        }
                    }
                }
                rejected.to_multiset_ensures();
                rejected = rejected.push(z);
                assert(forall|a: int, r: int| 0 <= a < best@.len() && 0 <= r < rejected.len()
                    ==> measure_le(#[trigger] candidate_keys(best@)[a], #[trigger] rejected[r]));
            }
        } else {
            proof {
                // nothing was rejected yet: every string seen so far is kept
                let m = candidate_keys(best@).to_multiset().add(rejected.to_multiset());
                candidate_keys(best@).to_multiset_ensures();
                rejected.to_multiset_ensures();
                all.take(i + 1).to_multiset_ensures();
                assert(m.len() == i + 1);
                assert(candidate_keys(best@).to_multiset().len() == candidate_keys(best@).len());
                assert(rejected.to_multiset().len() == rejected.len());
                assert(rejected.len() == 0);
            }
        }
        assert(forall|a: int, r: int| 0 <= a < best@.len() && 0 <= r < rejected.len()
            ==> measure_le(#[trigger] candidate_keys(best@)[a], #[trigger] rejected[r]));
        i = i + 1;
    }
    proof {
        assert(all.take(strings@.len() as int) =~= all);
        lemma_kept_then_rejected(candidate_keys(best@), rejected, all);
    }
    let mut result: Vec<MeasuredPrefix> = Vec::new();
    let mut k: usize = 0;
    while k < best.len()
        invariant
            k <= best@.len(),
            result@.len() == k,
            forall|j: int| 0 <= j < best@.len() ==> #[trigger] best@[j].2 < strings@.len()
                && strings@[best@[j].2 as int]@ == best@[j].1@,
            forall|j: int| 0 <= j < k ==> #[trigger] result@[j].key() == candidate_keys(best@)[j],
            forall|j: int| 0 <= j < k ==> strings@[best@[j].2 as int]@ == #[trigger] result@[j].string@,
        decreases best@.len() - k,
    {
        let string = strings[best[k].2].clone();
        result.push(MeasuredPrefix { string, prefix_distance: best[k].0 });
        k = k + 1;
    }
    assert(measured_keys(result@) =~= candidate_keys(best@));
    proof {
        lemma_sorted_measures(query@, strings@);
        let sorted = measures(query@, strings@).sort_by(measure_order());
        let keys = measured_keys(result@);
        assert(keys.len() == result@.len());
        assert forall|i: int| 0 <= i < result@.len() implies #[trigger] result@[i].prefix_distance == ped(query@, result@[i].string@) by {
            assert(keys[i] == result@[i].key());
            assert(result@.len() <= strings@.len());
            assert(keys[i] == sorted[i]);
            assert(sorted[i].0 == ped(query@, sorted[i].1));
        }
        assert forall|i: int, j: int| 0 <= i < j < keys.len() implies (measure_order())(#[trigger] keys[i], #[trigger] keys[j]) by {
            assert(keys[i] == sorted[i] && keys[j] == sorted[j]);
        }
        assert forall|i: int| 0 <= i < result@.len() implies is_one_of(strings@, #[trigger] result@[i].string@) by {
            let j = best@[i].2 as int;
            assert(strings@[j]@ == result@[i].string@);
        }
    }
    result
}

/// The best results are the best: with `requested > 0`, every measured string that they
/// leave out comes after the last one kept, so none has a smaller prefix edit distance.
pub proof fn lemma_best_measures_are_best(query: Seq<char>, strings: Seq<String>, requested: nat)
    requires
        requested > 0,
    ensures
        forall|i: int| 0 <= i < strings.len() && !best_measures(query, strings, requested).contains(#[trigger] measures(query, strings)[i])
            ==> measure_le(best_measures(query, strings, requested).last(), measures(query, strings)[i])
                && best_measures(query, strings, requested).last().0 <= ped(query, strings[i]@),
{
    broadcast use vstd::seq_lib::group_to_multiset_ensures;
    let m = measures(query, strings);
    let sorted = m.sort_by(measure_order());
    let best = best_measures(query, strings, requested);
    lemma_measure_le_total_ordering();
    m.lemma_sort_by_ensures(measure_order());
    lemma_sorted_measures(query, strings);
    assert forall|i: int| 0 <= i < strings.len() && !best.contains(#[trigger] m[i])
        implies measure_le(best.last(), m[i]) && best.last().0 <= ped(query, strings[i]@) by {
        assert(m.to_multiset().count(m[i]) > 0);
        assert(sorted.to_multiset().count(m[i]) > 0);
        assert(sorted.contains(m[i]));
        let j = choose|j: int| 0 <= j < sorted.len() && sorted[j] == m[i];
        if requested <= strings.len() {
            if j < requested {
                assert(best[j] == m[i]);
            }
            assert(best.last() == sorted[requested - 1]);
            if j > requested - 1 {
                assert(measure_order()(sorted[requested - 1], sorted[j]));
            } else {
                assert(j == requested - 1);
                lemma_lex_le_reflexive(sorted[j].1);
            }
        } else {
            assert(best[j] == m[i]);
        }
    }
}

} // verus!
