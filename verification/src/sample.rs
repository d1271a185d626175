//! Random edits of stored strings, used to build queries at a known distance from them.
use vstd::prelude::*;
use rand::Rng;
use rand::rngs::ThreadRng;
use rand::distributions::{Alphanumeric, Distribution, Uniform};
use rand::seq::SliceRandom;
use crate::levenshtein::{lev, lemma_lev_insert, lemma_lev_remove, lemma_lev_update, lemma_lev_self, to_char_vec};

verus! {

#[verifier::external_type_specification]
#[verifier::external_body]
pub struct ExThreadRng(ThreadRng);

/// An ASCII letter or digit.
pub open spec fn is_ascii_alphanumeric(c: char) -> bool {
    ('0' <= c <= '9') || ('A' <= c <= 'Z') || ('a' <= c <= 'z')
}

/// `t` is `s` after one edit of the kind that `random_edits` makes: an ASCII letter or digit
/// inserted anywhere, or, in a non-empty `s`, a character deleted or replaced with an ASCII
/// letter or digit.
pub open spec fn one_edit(s: Seq<char>, t: Seq<char>) -> bool {
    ||| exists|i: int, c: char| 0 <= i <= s.len() && is_ascii_alphanumeric(c) && t == #[trigger] s.insert(i, c)
    ||| exists|i: int| 0 <= i < s.len() && t == #[trigger] s.remove(i)
    ||| exists|i: int, c: char| 0 <= i < s.len() && is_ascii_alphanumeric(c) && t == #[trigger] s.update(i, c)
}

/// `t` is reached from `s` by exactly `k` edits of the kind that `random_edits` makes.
pub open spec fn edits_reach(s: Seq<char>, t: Seq<char>, k: nat) -> bool
    decreases k,
{
    if k == 0 {
        t == s
    } else {
        exists|m: Seq<char>| edits_reach(s, m, (k - 1) as nat) && #[trigger] one_edit(m, t)
    }
}

/// One more edit after `k` edits makes `k + 1` edits.
pub proof fn lemma_edits_step(s: Seq<char>, m: Seq<char>, t: Seq<char>, k: nat)
    requires
        edits_reach(s, m, k),
        one_edit(m, t),
    ensures
        edits_reach(s, t, k + 1),
{
    let k1: nat = k + 1;
    assert((k1 - 1) as nat == k);
    assert(edits_reach(s, t, k1));
}

/// `rand::thread_rng`: the random number generator of the current thread (nothing is
/// claimed of it).
#[verifier::external_body]
fn new_thread_rng() -> (rng: ThreadRng) {
    rand::thread_rng()
}

/// `Alphanumeric` sampled with `rng`, as a character: rand draws one of the 62 ASCII
/// letters and digits.
#[verifier::external_body]
fn sample_alphanumeric(rng: &mut ThreadRng) -> (c: char)
    ensures
        is_ascii_alphanumeric(c),
{
    Alphanumeric.sample(rng) as char
}

/// `Uniform::new_inclusive(low, high)` sampled with `rng`: an integer in `[low, high]`
/// (rand panics when `low > high`).
#[verifier::external_body]
fn sample_uniform_inclusive(low: usize, high: usize, rng: &mut ThreadRng) -> (r: usize)
    requires
        low <= high,
    ensures
        low <= r <= high,
{
    Uniform::new_inclusive(low, high).sample(rng)
}

/// `Rng::gen_range(low..high)`: an integer in `[low, high)` (rand panics on an empty range).
#[verifier::external_body]
fn gen_range(rng: &mut ThreadRng, low: usize, high: usize) -> (r: usize)
    requires
        low < high,
    ensures
        low <= r < high,
{
    rng.gen_range(low..high)
}

/// `Rng::gen_range(low..=high)`: an integer in `[low, high]` (rand panics on an empty range).
#[verifier::external_body]
fn gen_range_inclusive(rng: &mut ThreadRng, low: usize, high: usize) -> (r: usize)
    requires
        low <= high,
    ensures
        low <= r <= high,
{
    rng.gen_range(low..=high)
}

/// `SliceRandom::choose`: one of the strings of `source`, or `None` when it is empty.
#[verifier::external_body]
fn choose_string<'s>(source: &'s [&'s str], rng: &mut ThreadRng) -> (r: Option<&'s &'s str>)
    ensures
        match r {
            Some(s) => exists|i: int| 0 <= i < source@.len() && source@[i] == *s,
            None => source@.len() == 0,
        },
{
    source.choose(rng)
}

/// `String::push`: appends `c` to `s`.
#[verifier::external_body]
fn push_char(s: &mut String, c: char)
    ensures
        final(s)@ == old(s)@.push(c),
{
    s.push(c)
}

/// Applies one edit to `chars`: edit type 1 inserts `character` at `index`, 2 deletes the
/// character at `index`, 3 replaces it with `character`; any other type changes nothing.
pub fn apply_edit(chars: &mut Vec<char>, edit_type: usize, index: usize, character: char)
    requires
        edit_type == 1 ==> index <= old(chars)@.len(),
        edit_type == 2 || edit_type == 3 ==> index < old(chars)@.len(),
    ensures
        final(chars)@ == if edit_type == 1 {
            old(chars)@.insert(index as int, character)
        } else if edit_type == 2 {
            old(chars)@.remove(index as int)
        } else if edit_type == 3 {
            old(chars)@.update(index as int, character)
        } else {
            old(chars)@
        },
{
    match edit_type {
        // insert
        1 => {
            chars.insert(index, character);
        },
        // delete
        2 => {
            chars.remove(index);
        },
        // replace
        3 => {
            chars.set(index, character);
        },
        _ => {},
    }
}

/// Returns a string with a number of random `edits` to `string`: each inserts, deletes or
/// replaces one character (with a random ASCII letter or digit) at a random place.
///
/// Does not guarantee that the edits are non-overlapping (edit distance may be less than `edits`)
pub fn random_edits(string: &str, edits: usize) -> (result: String)
    ensures
        edits_reach(string@, result@, edits as nat),
        lev(string@, result@) <= edits,
{
    let mut chars: Vec<char> = to_char_vec(string);
    let mut rng = new_thread_rng();
    proof {
        lemma_lev_self(string@);
    }
    let mut i: usize = 0;
    while i < edits
        invariant
            i <= edits,
            edits_reach(string@, chars@, i as nat),
            lev(string@, chars@) <= i,
        decreases edits - i,
    {
        let character = sample_alphanumeric(&mut rng);
        let edit_type: usize;
        if chars.len() == 0 {
            // can only insert
            edit_type = 1;
        } else {
            // can insert, delete, or replace
            edit_type = sample_uniform_inclusive(1, 3, &mut rng);
        }
        let index: usize;
        if edit_type != 1 {
            // index for delete and replace
            index = gen_range(&mut rng, 0, chars.len());
        } else {
            index = gen_range_inclusive(&mut rng, 0, chars.len());
        }
        let ghost before = chars@;
        apply_edit(&mut chars, edit_type, index, character);
        proof {
            if edit_type == 1 {
                lemma_lev_insert(string@, before, index as int, character);
                assert(chars@ == before.insert(index as int, character));
            } else if edit_type == 2 {
                lemma_lev_remove(string@, before, index as int);
                assert(chars@ == before.remove(index as int));
            } else {
                lemma_lev_update(string@, before, index as int, character);
                assert(chars@ == before.update(index as int, character));
            }
            assert(one_edit(before, chars@));
            lemma_edits_step(string@, before, chars@, i as nat);
        }
        i = i + 1;
    }
    let mut result = String::new();
    let mut k: usize = 0;
    while k < chars.len()
        invariant
            k <= chars@.len(),
            result@ == chars@.take(k as int),
        decreases chars@.len() - k,
    {
        push_char(&mut result, chars[k]);
        proof {
            assert(chars@.take(k + 1) =~= chars@.take(k as int).push(chars@[k as int]));
        }
        k = k + 1;
    }
    proof {
        assert(chars@.take(chars@.len() as int) =~= chars@);
    }
    result
}

/// The most edits that `sample_edited_string` makes: `ed`, but no more than 5.
pub fn edit_budget(ed: usize) -> (most: usize)
    ensures
        most == if ed <= 5 { ed } else { 5 },
{
    if ed <= 5 { ed } else { 5 }
}

/// Returns (a random string from `source`, a string with a random number of edits between 0
/// and 5, and at most `ed`, made to it, the number of edits made).
pub fn sample_edited_string<'s>(source: &'s [&'s str], rng: &mut ThreadRng, ed: usize) -> (r: (&'s str, String, usize))
    requires
        source@.len() > 0,
    ensures
        exists|i: int| 0 <= i < source@.len() && source@[i] == r.0,
        r.2 <= 5,
        r.2 <= ed,
        edits_reach(r.0@, r.1@, r.2 as nat),
        lev(r.0@, r.1@) <= r.2,
{
    let chosen = choose_string(source, rng);
    let string: &str = match chosen {
        Some(s) => *s,
        None => {
            proof {
                assert(false);
            }
            ""
        },
    };
    let most = edit_budget(ed);
    let edits = sample_uniform_inclusive(0, most, rng);
    let edited_string = random_edits(string, edits);
    (string, edited_string, edits)
}

} // verus!
