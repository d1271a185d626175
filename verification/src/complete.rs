//! Autocompletion with the META index: the matchings of a query within edit distance 2
//! are assembled with the help of the cache of prefix states, and mark the stored strings
//! that lie further away, so that the best strings are measured against the query.
use vstd::prelude::*;
use crate::cache::{Cache, PState, state_valid};
use crate::levenshtein::{to_char_vec, unindexed_autocomplete, measures, measure_order, ped, best_measures, best_measured, is_one_of};
use vstd::relations::sorted_by;
use crate::measured::{MeasuredPrefix, measured_keys};
use vstd::string::StrSliceExecFns;
use crate::meta::{Matching, MatchingSet, MetaAutocompleter, NodeID, merge_min, set_nodes_below, lemma_merge_min_below};

verus! {

impl MetaAutocompleter<u8, u32> {
    /// Adds to `acc` the matchings at edit distance `t` of the second deduction for the
    /// whole query `chars`, taken from `state` where it holds them and stored in it otherwise.
    fn assemble_second(&self, acc: &mut MatchingSet<u8>, state: &mut PState, chars: &Vec<char>, t: usize)
        requires
            self.wf(),
            1 <= t <= 2,
            1 <= chars@.len() <= 255,
            set_nodes_below(old(acc)@, self.node_count()),
            old(state).sets@.len() >= t,
            old(state).sets@.len() <= 3,
            old(state).sets@.len() > t ==> old(state).sets@[t as int]@ == self.sd_result(old(acc)@, chars@, chars@.len() as int, t as int),
        ensures
            final(acc)@ == merge_min(old(acc)@, self.sd_result(old(acc)@, chars@, chars@.len() as int, t as int)),
            set_nodes_below(final(acc)@, self.node_count()),
            final(state).sets@.len() == if old(state).sets@.len() > t { old(state).sets@.len() } else { (t + 1) as nat },
            forall|u: int| 0 <= u < final(state).sets@.len() && u != t ==> #[trigger] final(state).sets@[u]@ == old(state).sets@[u]@,
            final(state).sets@[t as int]@ == self.sd_result(old(acc)@, chars@, chars@.len() as int, t as int),
            final(state).prio == old(state).prio,
            final(state).ix == old(state).ix,
    {
        proof {
            self.lemma_trie_wf();
            let r = self.sd_result(acc@, chars@, chars@.len() as int, t as int);
            assert(set_nodes_below(r, self.node_count()));
            lemma_merge_min_below(acc@, r, self.node_count());
        }
        if state.sets.len() > t {
            acc.extend(&state.sets[t]);
        } else {
            let new = self.second_deducing(acc, chars.as_slice(), chars.len(), t);
            acc.extend(&new);
            state.sets.push(new);
        }
    }

    /// P(|q|, 2): the matching of the root with the empty query prefix and every matching of
    /// query `q` within edit distance 2, with its edit distance (built from the first
    /// deductions over each prefix of `q` and the second deductions at edit distances 1 and 2
    /// for the whole query), taken from `cache` where it holds them, and deduced and stored in
    /// it where it does not.
    pub fn assemble(&self, q: &str, cache: &mut Cache) -> (set: MatchingSet<u8>)
        requires
            self.wf(),
            old(cache).valid_for(self),
            q@.len() <= 255,
        ensures
            set@ == self.matchings_within(q@, 2),
            final(cache).valid_for(self),
            forall|j: int| 1 <= j <= q@.len() ==> #[trigger] final(cache).states().contains_key(q@.take(j)),
    {
        let chars = to_char_vec(q);
        let n = chars.len();
        proof {
            self.lemma_trie_wf();
            assert(chars@.take(0) =~= Seq::<char>::empty());
        }
        let mut acc = MatchingSet::new_trie(&self.trie);
        let mut prefix: Vec<char> = Vec::new();
        let mut i: usize = 0;
        while i < n
            invariant
                self.wf(),
                chars@ == q@,
                n == chars@.len(),
                n <= 255,
                i <= n,
                prefix@ == chars@.take(i as int),
                i < n ==> acc@ == self.fd_acc(chars@.take(i as int)),
                i == n ==> acc@ == self.assemble_spec(chars@),
                cache.valid_for(self),
                forall|j: int| 1 <= j <= i ==> #[trigger] cache.states().contains_key(chars@.take(j)),
            decreases n - i,
        {
            let c = chars[i];
            prefix.push(c);
            let ghost p = chars@.take(i + 1);
            let ghost old_states = cache.states();
            proof {
                assert(prefix@ =~= p);
                assert(p.drop_last() =~= chars@.take(i as int));
                self.lemma_fd_acc_below(chars@.take(i as int));
                self.lemma_trie_wf();
            }
            let mut state = cache.visit(q, &prefix);
            proof {
                state.lemma_view();
            }
            if state.sets.len() > 0 {
                proof {
                    assert(old_states.contains_key(p));
                    assert(state_valid(self, p, old_states[p].0));
                    assert(state.sets@[0]@ == state@.0[0]);
                }
                acc.extend(&state.sets[0]);
            } else {
                let delta = self.first_deducing(&acc, c, i + 1, 0);
                acc.extend(&delta);
                let mut sets: Vec<MatchingSet<u8>> = Vec::new();
                sets.push(delta);
                state.sets = sets;
            }
            proof {
                assert(acc@ == self.fd_acc(p));
                assert(state.sets@[0]@ == self.fd_result(self.fd_acc(p.drop_last()), p.last(), p.len() as int, 0));
            }
            let ghost state1 = state;
            if i + 1 == n {
                proof {
                    assert(p =~= chars@);
                    self.lemma_fd_acc_below(p);
                    if state.sets@.len() > 1 {
                        assert(old_states.contains_key(p));
                        assert(state_valid(self, p, old_states[p].0));
                        assert(state.sets@[1]@ == state@.0[1]);
                    }
                }
                self.assemble_second(&mut acc, &mut state, &chars, 1);
                proof {
                    if state.sets@.len() > 2 {
                        assert(old_states.contains_key(p));
                        assert(state_valid(self, p, old_states[p].0));
                        assert(state1.sets@[2]@ == old_states[p].0[2]);
                        assert(state1.sets@[1]@ == old_states[p].0[1]);
                    }
                }
                self.assemble_second(&mut acc, &mut state, &chars, 2);
            }
            proof {
                state.lemma_view();
                assert(state_valid(self, p, state@.0)) by {
                    if old_states.contains_key(p) {
                        assert(state_valid(self, p, old_states[p].0));
                    }
                }
            }
            let ghost mid_states = cache.states();
            cache.restore(&prefix, state);
            proof {
                assert forall|q2: Seq<char>| #[trigger] cache.states().contains_key(q2) implies state_valid(self, q2, cache.states()[q2].0) by {
                    if q2 != p {
                        assert(mid_states.contains_key(q2));
                        assert(old_states.contains_key(q2));
                    }
                }
                assert forall|j: int| 1 <= j <= i + 1 implies #[trigger] cache.states().contains_key(chars@.take(j)) by {
                    if j <= i {
                        assert(old_states.contains_key(chars@.take(j)));
                        assert(chars@.take(j) != p);
                    }
                }
            }
            i = i + 1;
        }
        proof {
            self.lemma_assemble_exact(chars@);
        }
        acc
    }
}

/// A query cut to its first 255 characters.
pub open spec fn truncated(query: Seq<char>) -> Seq<char> {
    if query.len() <= 255 { query } else { query.take(255) }
}

/// Only queries longer than 255 characters (the most that a node depth of type `u8` can
/// count) are cut, and then to exactly their first 255 characters: a query of at most 255
/// characters is kept whole.
pub proof fn lemma_truncated_cut(query: Seq<char>)
    ensures
        query.len() <= 255 ==> truncated(query) == query,
        query.len() > 255 ==> truncated(query) == query.take(255) && truncated(query).len() == 255,
        truncated(query).is_prefix_of(query),
{
    assert(query.subrange(0, truncated(query).len() as int) =~= truncated(query));
}

/// Measures each of `strings` against `query` by prefix edit distance and sorts the
/// results by distance and then lexicographically.
pub fn measure_results(strings: Vec<String>, query: &str) -> (result: Vec<MeasuredPrefix>)
    ensures
        measured_keys(result@) == measures(query@, strings@).sort_by(measure_order()),
        result@.len() == strings@.len(),
        sorted_by(measured_keys(result@), measure_order()),
        forall|i: int| 0 <= i < result@.len() ==> #[trigger] result@[i].prefix_distance == ped(query@, result@[i].string@),
{
    broadcast use vstd::seq_lib::group_to_multiset_ensures;
    proof {
        crate::order::lemma_measure_le_total_ordering();
        measures(query@, strings@).lemma_sort_by_ensures(measure_order());
        assert(measures(query@, strings@).sort_by(measure_order()).to_multiset().len() == strings@.len());
    }
    let result = unindexed_autocomplete(query, strings.len(), strings.as_slice());
    proof {
        let sorted = measures(query@, strings@).sort_by(measure_order());
        assert(sorted.take(strings@.len() as int) =~= sorted);
    }
    result
}

/// Stored string `k` lies below a matching `e` of the query `q` whose distance plus the
/// characters of `q` after its prefix is at most 2.
pub(crate) open spec fn covered_by(ac: &MetaAutocompleter<u8, u32>, e: Matching<u8>, qlen: int, k: int) -> bool {
    &&& e.query_prefix_len <= qlen
    &&& e.edit_distance + qlen - e.query_prefix_len <= 2
    &&& ac.node_strings(e.node as int).0 <= k < ac.node_strings(e.node as int).1
}

impl MetaAutocompleter<u8, u32> {
    /// Marks the stored strings that are at prefix edit distance 3 or more from the query of
    /// characters `q`: those below no matching of P(|q|, 2) (given as `set`) whose distance
    /// plus the characters of `q` after its prefix is at most 2.
    fn far_strings(&self, set: &MatchingSet<u8>, q: &Vec<char>) -> (far: Vec<bool>)
        requires
            self.wf(),
            q@.len() <= 255,
            set@ == self.matchings_within(q@, 2),
        ensures
            far@.len() == self.stored_strings().len(),
            forall|k: int| 0 <= k < self.stored_strings().len() && #[trigger] far@[k]
                ==> ped(q@, self.stored_strings()[k]@) >= 3,
    {
        proof {
            self.lemma_accessors();
            self.lemma_node_strings();
            self.lemma_within_below(q@, 2);
        }
        let n = self.trie.strings.len();
        let mut far: Vec<bool> = Vec::new();
        let mut i: usize = 0;
        while i < n
            invariant
                n == self.stored_strings().len(),
                i <= n,
                far@.len() == i,
                forall|k: int| 0 <= k < i ==> #[trigger] far@[k],
            decreases n - i,
        {
            far.push(true);
            i = i + 1;
        }
        let entries = set.iter();
        let qlen = q.len();
        let mut a: usize = 0;
        while a < entries.len()
            invariant
                n == self.stored_strings().len(),
                n == self.stored().len(),
                qlen == q@.len(),
                qlen <= 255,
                far@.len() == n,
                a <= entries@.len(),
                set_nodes_below(set@, self.node_count()),
                self.node_count() == self.trie.nodes@.len(),
                forall|j: int| #[trigger] self.node_strings(j) == (self.trie.nodes@[j].string_range.start as int,
                    self.trie.nodes@[j].string_range.end as int),
                forall|j: int| 0 <= j < self.node_count() ==> 0 <= #[trigger] self.node_strings(j).0 <= self.node_strings(j).1 <= self.stored().len(),
                forall|e: int| #![trigger entries@[e]] 0 <= e < entries@.len() ==> set@.contains_key(entries@[e].key())
                    && set@[entries@[e].key()] == entries@[e].edit_distance,
                forall|k: int, e: int| 0 <= k < n && #[trigger] far@[k] && 0 <= e < a ==> !covered_by(self, #[trigger] entries@[e], qlen as int, k),
            decreases entries@.len() - a,
        {
            let e = entries[a];
            assert(set@.contains_key(e.key()));
            if (e.query_prefix_len as usize) <= qlen && e.edit_distance as usize + qlen - e.query_prefix_len as usize <= 2 {
                let start = self.trie.nodes[e.node].string_range.start as usize;
                let end = self.trie.nodes[e.node].string_range.end as usize;
                assert(self.node_strings(e.node as int) == (start as int, end as int));
                assert(e.node < self.node_count());
                assert(0 <= self.node_strings(e.node as int).0 <= self.node_strings(e.node as int).1 <= self.stored().len());
                assert(end <= n);
                let mut k = start;
                while k < end
                    invariant
                        far@.len() == n,
                        start <= k <= end <= n,
                        e == entries@[a as int],
                        e.query_prefix_len <= qlen,
                        e.edit_distance + qlen - e.query_prefix_len <= 2,
                        self.node_strings(e.node as int) == (start as int, end as int),
                        forall|kk: int, ee: int| 0 <= kk < n && #[trigger] far@[kk] && 0 <= ee < a ==> !covered_by(self, #[trigger] entries@[ee], qlen as int, kk),
                        forall|kk: int| start <= kk < k ==> !#[trigger] far@[kk],
                    decreases end - k,
                {
                    far.set(k, false);
                    k = k + 1;
                }
                proof {
                    assert forall|kk: int, ee: int| 0 <= kk < n && #[trigger] far@[kk] && 0 <= ee < a + 1
                        implies !covered_by(self, #[trigger] entries@[ee], qlen as int, kk) by {
                        if ee == a && covered_by(self, entries@[ee], qlen as int, kk) {
                            assert(!far@[kk]);
                        }
                    }
                }
            }
            a = a + 1;
        }
        proof {
            assert forall|k: int| 0 <= k < self.stored_strings().len() && #[trigger] far@[k]
                implies ped(q@, self.stored_strings()[k]@) >= 3 by {
                assert(self.stored_strings()[k]@ == self.stored()[k]);
                if ped(q@, self.stored()[k]) <= 2 {
                    self.lemma_near_strings_covered(q@, k);
                    let key = choose|key: (u8, NodeID)| #[trigger] self.matchings_within(q@, 2).contains_key(key)
                        && self.matchings_within(q@, 2)[key] + q@.len() - key.0 <= 2
                        && self.node_strings(key.1 as int).0 <= k < self.node_strings(key.1 as int).1;
                    let e = choose|e: int| 0 <= e < entries@.len() && #[trigger] entries@[e].key() == key;
                    assert(covered_by(self, entries@[e], qlen as int, k));
                }
            }
        }
        far
    }

    /// Returns the top `requested` stored strings by prefix edit distance from `query` (cut
    /// to its first 255 characters), sorted by prefix edit distance and then lexicographically,
    /// or all stored strings if fewer are stored. The matchings within edit distance 2
    /// assembled for the query, with the help of `cache`, mark the strings that lie further
    /// away, which are passed over unmeasured once enough closer ones are found.
    pub fn autocomplete(&self, query: &str, requested: usize, cache: &mut Cache) -> (result: Vec<MeasuredPrefix>)
        requires
            self.wf(),
            old(cache).valid_for(self),
        ensures
            final(cache).valid_for(self),
            measured_keys(result@) == best_measures(truncated(query@), self.stored_strings(), requested as nat),
            result@.len() == if requested <= self.stored().len() { requested as nat } else { self.stored().len() },
            sorted_by(measured_keys(result@), measure_order()),
            forall|i: int| 0 <= i < result@.len() ==> #[trigger] result@[i].prefix_distance == ped(truncated(query@), result@[i].string@),
            forall|i: int| 0 <= i < result@.len() ==> self.stored().contains(#[trigger] result@[i].string@),
            query@.len() <= 255 ==> measured_keys(result@) == best_measures(query@, self.stored_strings(), requested as nat),
            query@.len() <= 255 ==> forall|i: int| 0 <= i < result@.len()
                ==> #[trigger] result@[i].prefix_distance == ped(query@, result@[i].string@),
            query@.len() > 255 ==> measured_keys(result@) == best_measures(query@.take(255), self.stored_strings(), requested as nat),
    {
        proof {
            lemma_truncated_cut(query@);
        }
        let q: &str = if query.unicode_len() > 255 { query.substring_char(0, 255) } else { query };
        proof {
            self.lemma_accessors();
            self.lemma_node_strings();
        }
        assert(q@ == truncated(query@));
        let set = self.assemble(q, cache);
        let chars = to_char_vec(q);
        let far = self.far_strings(&set, &chars);
        let result = best_measured(q, requested, self.trie.strings.as_slice(), &far);
        proof {
            assert forall|i: int| 0 <= i < result@.len() implies self.stored().contains(#[trigger] result@[i].string@) by {
                assert(is_one_of(self.stored_strings(), result@[i].string@));
                let j = choose|j: int| 0 <= j < self.stored_strings().len() && #[trigger] self.stored_strings()[j]@ == result@[i].string@;
                assert(self.stored()[j] == result@[i].string@);
            }
        }
        result
    }
}

} // verus!
