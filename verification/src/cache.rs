//! The cache of prefix states kept between queries: a prefix tree from query prefixes to
//! the matching sets deduced for them, with a least-recently-used index over its entries.
use vstd::prelude::*;
use vstd::string::StrSliceExecFns;
use std::collections::{BTreeMap, BTreeSet};
use ptrie::Trie as PTrie;
use slab::Slab;
use crate::meta::{MatchingSet, MetaAutocompleter, NodeID, TreeStringT, merge_min};
use crate::levenshtein::to_char_vec;
use crate::order::{increasing_elems, strictly_increasing, lemma_increasing_elems, lemma_int_orders, u64_lt};
use vstd::std_specs::iter::IteratorSpec;
use vstd::std_specs::cmp::OrdSpec;

verus! {

#[verifier::external_type_specification]
#[verifier::external_body]
#[verifier::reject_recursive_types(K)]
#[verifier::reject_recursive_types(V)]
pub struct ExPTrie<K: Eq + Ord + Clone, V>(PTrie<K, V>);

#[verifier::external_type_specification]
#[verifier::external_body]
#[verifier::reject_recursive_types(T)]
pub struct ExSlab<T>(Slab<T>);

/// The view of a prefix state: its deduced matching sets, its last visit and its key in
/// the string slab.
pub type PStateView = (Seq<Map<(u8, NodeID), u8>>, u64, usize);

/// What a prefix tree of prefix states holds: the state stored under each key.
pub uninterp spec fn prefix_states(t: PTrie<char, PState>) -> Map<Seq<char>, PStateView>;

/// What a slab of strings holds: the string stored under each key.
pub uninterp spec fn slab_strings(s: Slab<String>) -> Map<usize, Seq<char>>;

/// `ptrie::Trie::new`: a prefix tree that holds nothing.
#[verifier::external_body]
fn ptrie_new() -> (tree: PTrie<char, PState>)
    ensures
        prefix_states(tree).is_empty(),
{
    PTrie::new()
}

/// `ptrie::Trie::insert`: stores `value` under `key`, replacing what was there.
#[verifier::external_body]
fn ptrie_insert(t: &mut PTrie<char, PState>, key: &Vec<char>, value: PState)
    ensures
        prefix_states(*final(t)) == prefix_states(*old(t)).insert(key@, value@),
{
    t.insert(key.iter().copied(), value)
}

/// `ptrie::Trie::remove`: takes the value stored under `key` out of the tree, if any.
#[verifier::external_body]
fn ptrie_remove(t: &mut PTrie<char, PState>, key: &Vec<char>) -> (r: Option<PState>)
    ensures
        prefix_states(*final(t)) == prefix_states(*old(t)).remove(key@),
        match r {
            Some(v) => prefix_states(*old(t)).contains_key(key@) && v@ == prefix_states(*old(t))[key@],
            None => !prefix_states(*old(t)).contains_key(key@),
        },
{
    t.remove(key.iter().copied())
}

/// `ptrie::Trie::iter`, keeping the keys: every key that holds a value, once each.
#[verifier::external_body]
fn ptrie_keys(t: &PTrie<char, PState>) -> (keys: Vec<Vec<char>>)
    ensures
        forall|i: int| 0 <= i < keys@.len() ==> prefix_states(*t).contains_key(#[trigger] keys@[i]@),
        forall|k: Seq<char>| #[trigger] prefix_states(*t).contains_key(k) ==> exists|i: int| 0 <= i < keys@.len() && #[trigger] keys@[i]@ == k,
{
    t.iter().map(|(key, _)| key).collect()
}

/// `slab::Slab::new`: a slab that holds nothing.
#[verifier::external_body]
fn slab_new() -> (slab: Slab<String>)
    ensures
        slab_strings(slab).is_empty(),
{
    Slab::new()
}

/// `slab::Slab::insert`: stores `value` under a key that was vacant and returns the key.
#[verifier::external_body]
fn slab_insert(s: &mut Slab<String>, value: String) -> (key: usize)
    ensures
        !slab_strings(*old(s)).contains_key(key),
        slab_strings(*final(s)) == slab_strings(*old(s)).insert(key, value@),
{
    s.insert(value)
}

/// `slab::Slab::get`: the string stored under `key`, if any.
#[verifier::external_body]
fn slab_get(s: &Slab<String>, key: usize) -> (r: Option<&String>)
    ensures
        match r {
            Some(v) => slab_strings(*s).contains_key(key) && v@ == slab_strings(*s)[key],
            None => !slab_strings(*s).contains_key(key),
        },
{
    s.get(key)
}

/// The state kept for one query prefix.
#[derive(Debug, Clone)]
pub struct PState {
    /// The deduced sets: index 0 holds P(i, 0) minus P(i - 1, 0), index `t` (t = 1, 2) the
    /// matchings added at edit distance `t`
    pub(crate) sets: Vec<MatchingSet<u8>>,
    /// The time of the last visit
    pub(crate) prio: u64,
    /// Key of the query that created the state in the string slab
    pub(crate) ix: usize,
}

impl View for PState {
    type V = PStateView;

    closed spec fn view(&self) -> PStateView {
        (self.sets@.map_values(|s: MatchingSet<u8>| s@), self.prio, self.ix)
    }
}

impl PState {
    /// The view of a state is made of its fields.
    pub(crate) proof fn lemma_view(&self)
        ensures
            self@ == (self.sets@.map_values(|s: MatchingSet<u8>| s@), self.prio, self.ix),
    {
    }
}

/// `m` with `k` removed from the set of time `t`, where that time is present.
pub open spec fn prio_removed(m: Map<u64, Set<usize>>, t: u64, k: usize) -> Map<u64, Set<usize>> {
    if m.contains_key(t) { m.insert(t, m[t].remove(k)) } else { m }
}

/// `m` with `k` added to the set of time `t`, which is created if absent.
pub open spec fn prio_added(m: Map<u64, Set<usize>>, t: u64, k: usize) -> Map<u64, Set<usize>> {
    m.insert(t, if m.contains_key(t) { m[t].insert(k) } else { set![k] })
}

/// Priorities of cache entries: for each time, the slab keys of the entries last visited then.
pub trait PrioMap {
    /// The times and, for each, its set of keys.
    spec fn prio_view(&self) -> Map<u64, Set<usize>>;

    /// Removes `k` from the set of time `t`; returns whether time `t` was present.
    fn rm(&mut self, t: &u64, k: &usize) -> (r: bool)
        ensures
            r == old(self).prio_view().contains_key(*t),
            final(self).prio_view() == prio_removed(old(self).prio_view(), *t, *k),
    ;

    /// Adds `k` to the set of time `t`, creating the set if needed.
    fn add(&mut self, t: u64, k: usize)
        ensures
            final(self).prio_view() == prio_added(old(self).prio_view(), t, k),
    ;
}

impl PrioMap for BTreeMap<u64, BTreeSet<usize>> {
    open spec fn prio_view(&self) -> Map<u64, Set<usize>> {
        self@.map_values(|s: BTreeSet<usize>| s@)
    }

    fn rm(&mut self, t: &u64, k: &usize) -> (r: bool) {
        match self.remove(t) {
            Some(mut set) => {
                set.remove(k);
                self.insert(*t, set);
                proof {
                    assert(self.prio_view() =~= prio_removed(old(self).prio_view(), *t, *k));
                }
                true
            },
            None => {
                proof {
                    assert(self.prio_view() =~= old(self).prio_view());
                }
                false
            },
        }
    }

    fn add(&mut self, t: u64, k: usize) {
        match self.remove(&t) {
            Some(mut set) => {
                set.insert(k);
                self.insert(t, set);
            },
            None => {
                let mut set = BTreeSet::new();
                set.insert(k);
                self.insert(t, set);
            },
        }
        proof {
            assert(self.prio_view() =~= prio_added(old(self).prio_view(), t, k));
        }
    }
}

/// The least-recently-used index of the cache: the strings of the queries that created
/// entries, and for each visit time the keys of the entries last visited then.
pub struct CacheMap {
    pub(crate) slab: Slab<String>,
    /// Priority --> set of slab keys; ascending, old to new
    pub(crate) prio: BTreeMap<u64, BTreeSet<usize>>,
    /// The time of the next visit
    pub(crate) clock: u64,
}

/// The cache of prefix states, shared by the queries of one autocompleter.
pub struct Cache {
    pub(crate) cached_prefix: PTrie<char, PState>,
    pub(crate) lru: CacheMap,
}

/// The sets stored for query prefix `p` are those that autocompleter `ac` deduces for it:
/// first its first deduction, then, where present, its second deductions at edit distances
/// 1 and 2 (made when `p` was a whole query).
pub open spec fn state_valid(ac: &MetaAutocompleter<u8, u32>, p: Seq<char>, sets: Seq<Map<(u8, NodeID), u8>>) -> bool {
    let n = p.len() as int;
    &&& n >= 1
    &&& sets.len() <= 3
    &&& sets.len() >= 1 ==> sets[0] == ac.fd_result(ac.fd_acc(p.drop_last()), p.last(), n, 0)
    &&& sets.len() >= 2 ==> sets[1] == ac.sd_result(ac.fd_acc(p), p, n, 1)
    &&& sets.len() >= 3 ==> sets[2] == ac.sd_result(merge_min(ac.fd_acc(p), sets[1]), p, n, 2)
}

/// The clock after one tick (it stops at its greatest value).
pub open spec fn tick(clock: u64) -> u64 {
    if clock < u64::MAX { (clock + 1) as u64 } else { clock }
}

impl Cache {
    /// The state stored for each query prefix.
    pub closed spec fn states(&self) -> Map<Seq<char>, PStateView> {
        prefix_states(self.cached_prefix)
    }

    /// The strings of the slab, by key.
    pub closed spec fn strings(&self) -> Map<usize, Seq<char>> {
        slab_strings(self.lru.slab)
    }

    /// The priorities: for each visit time, the slab keys of the entries last visited then.
    pub closed spec fn priorities(&self) -> Map<u64, Set<usize>> {
        self.lru.prio.prio_view()
    }

    /// The time of the next visit.
    pub closed spec fn clock(&self) -> u64 {
        self.lru.clock
    }

    /// Every key that the priorities or the states name is a key of the slab.
    pub open spec fn wf(&self) -> bool {
        &&& forall|t: u64, k: usize| self.priorities().contains_key(t) && #[trigger] self.priorities()[t].contains(k)
            ==> self.strings().contains_key(k)
        &&& forall|p: Seq<char>| #[trigger] self.states().contains_key(p) ==> self.strings().contains_key(self.states()[p].2)
    }

    /// The cache holds, for every prefix it stores, what autocompleter `ac` deduces for that
    /// prefix.
    pub open spec fn valid_for(&self, ac: &MetaAutocompleter<u8, u32>) -> bool {
        &&& self.wf()
        &&& forall|p: Seq<char>| #[trigger] self.states().contains_key(p) ==> state_valid(ac, p, self.states()[p].0)
    }

    /// An empty cache.
    pub fn new() -> (cache: Self)
        ensures
            cache.states().is_empty(),
            cache.strings().is_empty(),
            cache.priorities().is_empty(),
            cache.clock() == 0,
            cache.wf(),
    {
        let cache = Cache {
            cached_prefix: ptrie_new(),
            lru: CacheMap { slab: slab_new(), prio: BTreeMap::new(), clock: 0 },
        };
        proof {
            assert(cache.priorities() =~= Map::<u64, Set<usize>>::empty());
        }
        cache
    }

    /// Reads the clock and advances it.
    fn now(&mut self) -> (t: u64)
        ensures
            t == old(self).clock(),
            final(self).clock() == tick(old(self).clock()),
            final(self).states() == old(self).states(),
            final(self).strings() == old(self).strings(),
            final(self).priorities() == old(self).priorities(),
    {
        let t = self.lru.clock;
        self.lru.clock = self.lru.clock.saturating_add(1);
        t
    }

    /// Takes the state of `prefix`, a prefix of `query`, out of the cache and renews its
    /// priority: an entry visited as the whole query is filed under the current time; a
    /// prefix met for the first time gets a new state whose slab entry holds `query`.
    pub fn visit(&mut self, query: &str, prefix: &Vec<char>) -> (state: PState)
        requires
            old(self).wf(),
        ensures
            final(self).wf(),
            final(self).states() == old(self).states().remove(prefix@),
            final(self).strings().contains_key(state@.2),
            old(self).states().contains_key(prefix@) ==> {
                let last = prefix@.len() == query@.len();
                let old_state = old(self).states()[prefix@];
                let removed = prio_removed(old(self).priorities(), old_state.1, old_state.2);
                &&& state@.0 == old_state.0
                &&& state@.2 == old_state.2
                &&& state@.1 == if last { old(self).clock() } else { old_state.1 }
                &&& final(self).strings() == old(self).strings()
                &&& final(self).priorities() == if last { prio_added(removed, old(self).clock(), old_state.2) } else { removed }
                &&& final(self).clock() == if last { tick(old(self).clock()) } else { old(self).clock() }
            },
            !old(self).states().contains_key(prefix@) ==> {
                &&& state@.0.len() == 0
                &&& state@.1 == old(self).clock()
                &&& !old(self).strings().contains_key(state@.2)
                &&& final(self).strings() == old(self).strings().insert(state@.2, query@)
                &&& final(self).priorities() == old(self).priorities()
                &&& final(self).clock() == tick(old(self).clock())
            },
    {
        let ghost before = *self;
        match ptrie_remove(&mut self.cached_prefix, prefix) {
            Some(mut state) => {
                proof {
                    state.lemma_view();
                    assert(before.states().contains_key(prefix@));
                    assert(self.strings().contains_key(state.ix));
                }
                let ghost p0 = self.priorities();
                self.lru.prio.rm(&state.prio, &state.ix);
                proof {
                    assert forall|t: u64, k: usize| self.priorities().contains_key(t) && #[trigger] self.priorities()[t].contains(k)
                        implies self.strings().contains_key(k) by {
                        assert(p0 == before.priorities());
                        if t == state.prio {
                            assert(p0[t].remove(state.ix).contains(k));
                        }
                        assert(p0.contains_key(t) && p0[t].contains(k));
                        assert(before.priorities().contains_key(t) && before.priorities()[t].contains(k));
                    }
                }
                if prefix.len() == query.unicode_len() {
                    let now = self.now();
                    state.prio = now;
                    let ghost p1 = self.priorities();
                    self.lru.prio.add(now, state.ix);
                    proof {
                        assert forall|t: u64, k: usize| self.priorities().contains_key(t) && #[trigger] self.priorities()[t].contains(k)
                            implies self.strings().contains_key(k) by {
                            if k != state.ix {
                                assert(p1.contains_key(t) && p1[t].contains(k));
                            }
                        }
                    }
                }
                proof {
                    state.lemma_view();
                    assert forall|p: Seq<char>| #[trigger] self.states().contains_key(p) implies self.strings().contains_key(self.states()[p].2) by {
                        assert(before.states().contains_key(p));
                    }
                }
                state
            },
            None => {
                let prio = self.now();
                let ix = slab_insert(&mut self.lru.slab, TreeStringT::from_owned(query.to_owned()));
                let state = PState { sets: Vec::new(), prio, ix };
                proof {
                    state.lemma_view();
                    assert forall|t: u64, k: usize| self.priorities().contains_key(t) && #[trigger] self.priorities()[t].contains(k)
                        implies self.strings().contains_key(k) by {
                        assert(before.priorities().contains_key(t) && before.priorities()[t].contains(k));
                    }
                    assert forall|p: Seq<char>| #[trigger] self.states().contains_key(p) implies self.strings().contains_key(self.states()[p].2) by {
                        assert(before.states().contains_key(p));
                    }
                }
                state
            },
        }
    }

    /// Stores `state` as the state of `prefix`.
    pub fn restore(&mut self, prefix: &Vec<char>, state: PState)
        requires
            old(self).wf(),
            old(self).strings().contains_key(state@.2),
        ensures
            final(self).wf(),
            final(self).states() == old(self).states().insert(prefix@, state@),
            final(self).strings() == old(self).strings(),
            final(self).priorities() == old(self).priorities(),
            final(self).clock() == old(self).clock(),
    {
        let ghost before = *self;
        let ghost st = state@;
        ptrie_insert(&mut self.cached_prefix, prefix, state);
        proof {
            assert forall|p: Seq<char>| #[trigger] self.states().contains_key(p) implies self.strings().contains_key(self.states()[p].2) by {
                if p != prefix@ {
                    assert(before.states().contains_key(p));
                }
            }
            assert forall|t: u64, k: usize| self.priorities().contains_key(t) && #[trigger] self.priorities()[t].contains(k)
                implies self.strings().contains_key(k) by {
                assert(before.priorities().contains_key(t) && before.priorities()[t].contains(k));
            }
        }
    }
}

impl Default for Cache {
    fn default() -> (cache: Self)
        ensures
            cache.states().is_empty(),
            cache.strings().is_empty(),
            cache.priorities().is_empty(),
            cache.clock() == 0,
            cache.wf(),
    {
        Cache::new()
    }
}

/// The number of visit times that pruning keeps (the newest, and one more).
pub const MAX_TIMES: usize = 1000;

/// The visit time from which pruning keeps the priorities: the one with `MAX_TIMES` newer
/// times after it.
pub open spec fn prune_cutoff(prio: Map<u64, Set<usize>>) -> u64 {
    let times = increasing_elems(prio.dom(), u64_lt());
    times[times.len() - 1 - MAX_TIMES]
}

/// Prefix `p` is dropped by pruning: an entry filed under a time before `cutoff` was
/// created by a query that is a prefix of `p`.
pub open spec fn pruned(prio: Map<u64, Set<usize>>, strings: Map<usize, Seq<char>>, cutoff: u64, p: Seq<char>) -> bool {
    exists|t: u64, ix: usize| #![trigger prio[t].contains(ix)] prio.contains_key(t) && t < cutoff && prio[t].contains(ix)
        && strings.contains_key(ix) && strings[ix].is_prefix_of(p)
}

/// What pruning keeps of `states`: the states of the prefixes that no entry filed before
/// `cutoff` leads to dropping.
pub open spec fn kept_states(prio: Map<u64, Set<usize>>, strings: Map<usize, Seq<char>>, cutoff: u64,
    states: Map<Seq<char>, PStateView>) -> Map<Seq<char>, PStateView> {
    states.restrict(Set::new(|p: Seq<char>| !pruned(prio, strings, cutoff, p)))
}

/// Pruning drops whole subtrees: no kept prefix starts with the query of an entry filed
/// before `cutoff`; and it drops nothing else: every state whose prefix starts with none of
/// those queries is kept unchanged.
pub proof fn lemma_prune_drops_extensions(prio: Map<u64, Set<usize>>, strings: Map<usize, Seq<char>>, cutoff: u64,
    states: Map<Seq<char>, PStateView>)
    ensures
        forall|t: u64, ix: usize, p: Seq<char>|
            #![trigger prio[t].contains(ix), kept_states(prio, strings, cutoff, states).contains_key(p)]
            prio.contains_key(t) && t < cutoff && prio[t].contains(ix) && strings.contains_key(ix)
            && kept_states(prio, strings, cutoff, states).contains_key(p) ==> !strings[ix].is_prefix_of(p),
        forall|p: Seq<char>| #[trigger] states.contains_key(p)
            && (forall|t: u64, ix: usize| #![trigger prio[t].contains(ix)] prio.contains_key(t) && t < cutoff
                && prio[t].contains(ix) && strings.contains_key(ix) ==> !strings[ix].is_prefix_of(p))
            ==> kept_states(prio, strings, cutoff, states).contains_key(p)
                && kept_states(prio, strings, cutoff, states)[p] == states[p],
        forall|p: Seq<char>| #[trigger] kept_states(prio, strings, cutoff, states).contains_key(p)
            ==> states.contains_key(p) && kept_states(prio, strings, cutoff, states)[p] == states[p],
{
}

/// Slab entry `ix` holds a query that is a prefix of `p`.
pub open spec fn dropped_by(strings: Map<usize, Seq<char>>, ix: usize, p: Seq<char>) -> bool {
    strings.contains_key(ix) && strings[ix].is_prefix_of(p)
}

/// Times that a map iteration yields in increasing order are strictly increasing integers.
proof fn lemma_increasing_times(items: Seq<&u64>)
    requires
        vstd::std_specs::btree::increasing_seq(items),
    ensures
        strictly_increasing(items.unref(), u64_lt()),
{
    broadcast use vstd::std_specs::btree::group_btree_axioms;
    assert(vstd::laws_cmp::obeys_cmp::<u64>());
    assert(vstd::laws_cmp::obeys_cmp::<&u64>());
    vstd::std_specs::btree::axiom_increasing_seq_meaning(items);
    let u = items.unref();
    assert forall|a: int, b: int| 0 <= a < b < u.len() implies u64_lt()(#[trigger] u[a], #[trigger] u[b]) by {
        assert(OrdSpec::cmp_spec(&items[a], &items[b]) is Less);
    }
}

/// In a strictly increasing enumeration of `dom`, the elements from position `from` on are
/// those of `dom` that are at least the one at `from`.
proof fn lemma_times_from(times: Seq<u64>, dom: Set<u64>, from: int)
    requires
        strictly_increasing(times, u64_lt()),
        times.to_set() == dom,
        0 <= from < times.len(),
    ensures
        dom.intersect(Set::new(|t: u64| t >= times[from])).len() == times.len() - from,
{
    let tail = times.subrange(from, times.len() as int);
    assert(tail.no_duplicates()) by {
        assert forall|i: int, j: int| 0 <= i < tail.len() && 0 <= j < tail.len() && i != j implies tail[i] != tail[j] by {
            if i < j {
                assert(u64_lt()(times[from + i], times[from + j]));
            } else {
                assert(u64_lt()(times[from + j], times[from + i]));
            }
        }
    }
    tail.unique_seq_to_set();
    let goal = dom.intersect(Set::new(|t: u64| t >= times[from]));
    assert forall|t: u64| #[trigger] tail.to_set().contains(t) <==> goal.contains(t) by {
        if tail.to_set().contains(t) {
            assert(tail.contains(t));
            let i = choose|i: int| 0 <= i < tail.len() && tail[i] == t;
            assert(times[from + i] == t);
            assert(times.contains(t));
            if i > 0 {
                assert(u64_lt()(times[from], times[from + i]));
            }
        }
        if goal.contains(t) {
            assert(times.to_set().contains(t));
            assert(times.contains(t));
            let i = choose|i: int| 0 <= i < times.len() && times[i] == t;
            if i < from {
                assert(u64_lt()(times[i], times[from]));
            }
            assert(tail[i - from] == t);
            assert(tail.contains(t));
        }
    }
    assert(tail.to_set() =~= goal);
}

/// Whether `prefix` is a prefix of `key`.
fn starts_with(key: &Vec<char>, prefix: &Vec<char>) -> (r: bool)
    ensures
        r == prefix@.is_prefix_of(key@),
{
    if prefix.len() > key.len() {
        return false;
    }
    let mut i: usize = 0;
    while i < prefix.len()
        invariant
            prefix@.len() <= key@.len(),
            i <= prefix@.len(),
            forall|j: int| 0 <= j < i ==> prefix@[j] == key@[j],
        decreases prefix@.len() - i,
    {
        if prefix[i] != key[i] {
            return false;
        }
        i = i + 1;
    }
    true
}

/// Removes from `tree` every key of `keys` that starts with `prefix`; `keys` lists every
/// key that `tree` holds.
fn remove_subtree(tree: &mut PTrie<char, PState>, keys: &Vec<Vec<char>>, prefix: &Vec<char>)
    requires
        forall|p: Seq<char>| #[trigger] prefix_states(*old(tree)).contains_key(p) ==> exists|i: int| 0 <= i < keys@.len() && #[trigger] keys@[i]@ == p,
    ensures
        prefix_states(*final(tree)) == prefix_states(*old(tree)).restrict(Set::new(|p: Seq<char>| !prefix@.is_prefix_of(p))),
{
    let ghost start = prefix_states(*tree);
    let mut i: usize = 0;
    while i < keys.len()
        invariant
            i <= keys@.len(),
            forall|p: Seq<char>| #[trigger] start.contains_key(p) ==> exists|i: int| 0 <= i < keys@.len() && #[trigger] keys@[i]@ == p,
            prefix_states(*tree) == start.restrict(Set::new(|p: Seq<char>| !(prefix@.is_prefix_of(p)
                && exists|j: int| 0 <= j < i && #[trigger] keys@[j]@ == p))),
        decreases keys@.len() - i,
    {
        if starts_with(&keys[i], prefix) {
            ptrie_remove(tree, &keys[i]);
        }
        proof {
            let s1 = Set::new(|p: Seq<char>| !(prefix@.is_prefix_of(p) && exists|j: int| 0 <= j < i + 1 && #[trigger] keys@[j]@ == p));
            assert forall|p: Seq<char>| s1.contains(p) <==> (!(prefix@.is_prefix_of(p) && exists|j: int| 0 <= j < i && #[trigger] keys@[j]@ == p)
                && !(prefix@.is_prefix_of(p) && p == keys@[i as int]@)) by {
                if prefix@.is_prefix_of(p) && exists|j: int| 0 <= j < i + 1 && #[trigger] keys@[j]@ == p {
                    let j = choose|j: int| 0 <= j < i + 1 && #[trigger] keys@[j]@ == p;
                    if j < i {
                        assert(exists|j: int| 0 <= j < i && #[trigger] keys@[j]@ == p);
                    }
                }
            }
            assert(prefix_states(*tree) =~= start.restrict(s1));
        }
        i = i + 1;
    }
    proof {
        let all = Set::new(|p: Seq<char>| !(prefix@.is_prefix_of(p) && exists|j: int| 0 <= j < keys@.len() && #[trigger] keys@[j]@ == p));
        let goal = Set::new(|p: Seq<char>| !prefix@.is_prefix_of(p));
        assert(start.restrict(all) =~= start.restrict(goal));
    }
}

impl MetaAutocompleter<u8, u32> {
    /// Prunes the cache when it files entries under more than `MAX_TIMES` visit times:
    /// for every entry filed before the cutoff time (the one with `MAX_TIMES` newer times),
    /// drops the states of the query that created it and of all its extensions, and keeps
    /// only the priorities from the cutoff on.
    pub fn prune(&mut self, cache: &mut Cache)
        requires
            old(cache).wf(),
            old(cache).priorities().len() != MAX_TIMES,
        ensures
            *final(self) == *old(self),
            final(cache).wf(),
            old(cache).valid_for(old(self)) ==> final(cache).valid_for(old(self)),
            final(cache).strings() == old(cache).strings(),
            final(cache).clock() == old(cache).clock(),
            old(cache).priorities().len() < MAX_TIMES ==> {
                &&& final(cache).states() == old(cache).states()
                &&& final(cache).priorities() == old(cache).priorities()
            },
            old(cache).priorities().len() > MAX_TIMES ==> {
                let cutoff = prune_cutoff(old(cache).priorities());
                &&& final(cache).priorities() == old(cache).priorities().restrict(Set::new(|t: u64| t >= cutoff))
                &&& final(cache).priorities().len() == MAX_TIMES + 1
                &&& final(cache).states() == old(cache).states().restrict(Set::new(|p: Seq<char>|
                    !pruned(old(cache).priorities(), old(cache).strings(), cutoff, p)))
            },
            old(cache).priorities().len() > MAX_TIMES ==> forall|t: u64, ix: usize, p: Seq<char>|
                #![trigger old(cache).priorities()[t].contains(ix), final(cache).states().contains_key(p)]
                old(cache).priorities().contains_key(t) && t < prune_cutoff(old(cache).priorities())
                && old(cache).priorities()[t].contains(ix) && old(cache).strings().contains_key(ix)
                && final(cache).states().contains_key(p) ==> !old(cache).strings()[ix].is_prefix_of(p),
            old(cache).priorities().len() > MAX_TIMES ==> forall|p: Seq<char>| #[trigger] old(cache).states().contains_key(p)
                && (forall|t: u64, ix: usize| #![trigger old(cache).priorities()[t].contains(ix)]
                    old(cache).priorities().contains_key(t) && t < prune_cutoff(old(cache).priorities())
                    && old(cache).priorities()[t].contains(ix) && old(cache).strings().contains_key(ix)
                    ==> !old(cache).strings()[ix].is_prefix_of(p))
                ==> final(cache).states().contains_key(p) && final(cache).states()[p] == old(cache).states()[p],
    {
        broadcast use vstd::std_specs::btree::group_btree_axioms;
        proof {
            assert(cache.priorities().dom() =~= cache.lru.prio@.dom());
            lemma_prune_drops_extensions(cache.priorities(), cache.strings(), prune_cutoff(cache.priorities()), cache.states());
        }
        if cache.lru.prio.len() < MAX_TIMES {
            return;
        }
        let ghost clock0 = cache.clock();
        let ghost prio0 = cache.priorities();
        let ghost strings0 = cache.strings();
        let ghost states0 = cache.states();
        let mut prio: BTreeMap<u64, BTreeSet<usize>> = BTreeMap::new();
        std::mem::swap(&mut prio, &mut cache.lru.prio);
        let ghost time_items = vstd::std_specs::btree::spec_keys_iter(&prio).remaining();
        let mut times: Vec<u64> = Vec::new();
        for t in it: prio.keys()
            invariant
                it.seq() == time_items,
                times@ == time_items.take(it.index() as int).unref(),
        {
            times.push(*t);
            proof {
                assert(time_items.take(it.index() + 1).unref() =~= time_items.take(it.index() as int).unref().push(*t));
            }
        }
        proof {
            lemma_int_orders();
            assert(time_items.take(time_items.len() as int) =~= time_items);
            lemma_increasing_times(time_items);
            assert(prio.prio_view().dom() =~= prio@.dom());
            lemma_increasing_elems(times@, u64_lt());
            assert(times@ == increasing_elems(prio0.dom(), u64_lt()));
        }
        proof {
            assert(times@.len() == prio0.dom().len()) by {
                assert(times@.to_set() == prio0.dom());
                times@.unique_seq_to_set();
            }
        }
        let cutoff = times[times.len() - 1 - MAX_TIMES];
        let keys = ptrie_keys(&cache.cached_prefix);
        let mut kept: BTreeMap<u64, BTreeSet<usize>> = BTreeMap::new();
        let prio_iter = prio.iter();
        let ghost pairs = prio_iter.remaining();
        proof {
            assert forall|a: int, b: int| 0 <= a < b < pairs.len() implies *pairs[a].0 != *pairs[b].0 by {
                if *pairs[a].0 == *pairs[b].0 {
                    assert(prio@.contains_key(*pairs[a].0) && prio@[*pairs[a].0] == *pairs[a].1);
                    assert(prio@.contains_key(*pairs[b].0) && prio@[*pairs[b].0] == *pairs[b].1);
                    assert(pairs[a] == pairs[b]);
                }
            }
            assert(kept.prio_view() =~= prio0.restrict(Set::new(|t: u64| t >= cutoff && exists|b: int| 0 <= b < 0 && *pairs[b].0 == t)));
            assert(cache.states() =~= states0.restrict(Set::new(|p: Seq<char>| !exists|b: int, ix: usize| 0 <= b < 0
                && *pairs[b].0 < cutoff && (*pairs[b].1)@.contains(ix) && dropped_by(strings0, ix, p))));
        }
        for kv in it: prio_iter
            invariant
                it.seq() == pairs,
                forall|a: int| 0 <= a < pairs.len() ==> #[trigger] prio@.contains_key(*pairs[a].0) && prio@[*pairs[a].0] == *pairs[a].1,
                forall|t: u64| #[trigger] prio@.contains_key(t) ==> exists|a: int| 0 <= a < pairs.len() && *pairs[a].0 == t,
                forall|a: int, b: int| 0 <= a < b < pairs.len() ==> *pairs[a].0 != *pairs[b].0,
                prio0 == prio.prio_view(),
                forall|t: u64, k: usize| prio0.contains_key(t) && #[trigger] prio0[t].contains(k) ==> strings0.contains_key(k),
                forall|p: Seq<char>| #[trigger] states0.contains_key(p) ==> exists|i: int| 0 <= i < keys@.len() && #[trigger] keys@[i]@ == p,
                cache.strings() == strings0,
                cache.clock() == clock0,
                kept.prio_view() == prio0.restrict(Set::new(|t: u64| t >= cutoff && exists|b: int| 0 <= b < it.index() && *pairs[b].0 == t)),
                cache.states() == states0.restrict(Set::new(|p: Seq<char>| !exists|b: int, ix: usize| 0 <= b < it.index()
                    && *pairs[b].0 < cutoff && (*pairs[b].1)@.contains(ix) && dropped_by(strings0, ix, p))),
        {
            let ghost a = it.index() as int;
            proof {
                assert(kv == pairs[a]);
                assert(0 <= a < pairs.len());
                assert(prio@.contains_key(*pairs[a].0));
            }
            let ghost done = Set::new(|p: Seq<char>| !exists|b: int, ix: usize| 0 <= b < a
                && *pairs[b].0 < cutoff && (*pairs[b].1)@.contains(ix) && dropped_by(strings0, ix, p));
            if *kv.0 < cutoff {
                let ghost set_items = vstd::std_specs::btree::spec_btree_keys_iter(kv.1).remaining();
                proof {
                    assert(prio@.contains_key(*pairs[a].0) && prio@[*pairs[a].0] == *pairs[a].1);
                    assert(prio0[*kv.0] == (*kv.1)@);
                    assert(cache.states() =~= states0.restrict(done.intersect(Set::new(|p: Seq<char>| !exists|c: int| 0 <= c < 0
                        && dropped_by(strings0, *set_items[c], p)))));
                }
                for ix in it2: kv.1.iter()
                    invariant
                        it2.seq() == set_items,
                        set_items.unref().to_set() == (*kv.1)@,
                        *kv.0 < cutoff,
                        prio0.contains_key(*kv.0),
                        prio0[*kv.0] == (*kv.1)@,
                        forall|t: u64, k: usize| prio0.contains_key(t) && #[trigger] prio0[t].contains(k) ==> strings0.contains_key(k),
                        forall|p: Seq<char>| #[trigger] states0.contains_key(p) ==> exists|i: int| 0 <= i < keys@.len() && #[trigger] keys@[i]@ == p,
                        cache.strings() == strings0,
                        cache.clock() == clock0,
                        cache.states() == states0.restrict(done.intersect(Set::new(|p: Seq<char>| !exists|c: int| 0 <= c < it2.index()
                            && dropped_by(strings0, *set_items[c], p)))),
                {
                    let ghost c = it2.index() as int;
                    proof {
                        assert(ix == set_items[c]);
                        assert(set_items.unref().to_set().contains(*ix)) by {
                            assert(set_items.unref()[c] == *ix);
                        }
                        assert(strings0.contains_key(*ix));
                    }
                    match slab_get(&cache.lru.slab, *ix) {
                        Some(prefix) => {
                            let prefix_chars = to_char_vec(prefix.as_str());
                            let ghost before = cache.states();
                            proof {
                                assert forall|p: Seq<char>| #[trigger] prefix_states(cache.cached_prefix).contains_key(p)
                                    implies exists|i: int| 0 <= i < keys@.len() && #[trigger] keys@[i]@ == p by {
                                    assert(states0.contains_key(p));
                                }
                            }
                            remove_subtree(&mut cache.cached_prefix, &keys, &prefix_chars);
                            proof {
                                let s0 = done.intersect(Set::new(|p: Seq<char>| !exists|c2: int| 0 <= c2 < c
                                    && dropped_by(strings0, *set_items[c2], p)));
                                let s1 = done.intersect(Set::new(|p: Seq<char>| !exists|c2: int| 0 <= c2 < c + 1
                                    && dropped_by(strings0, *set_items[c2], p)));
                                let gone = Set::new(|p: Seq<char>| !prefix_chars@.is_prefix_of(p));
                                assert forall|p: Seq<char>| s1.contains(p) <==> s0.contains(p) && gone.contains(p) by {
                                    if exists|c2: int| 0 <= c2 < c + 1 && dropped_by(strings0, *set_items[c2], p) {
                                        let c2 = choose|c2: int| 0 <= c2 < c + 1 && dropped_by(strings0, *set_items[c2], p);
                                        if c2 < c {
                                            assert(exists|c3: int| 0 <= c3 < c && dropped_by(strings0, *set_items[c3], p));
                                        }
                                    }
                                    if !gone.contains(p) {
                                        assert(dropped_by(strings0, *set_items[c], p));
                                    }
                                }
                                assert(cache.states() =~= states0.restrict(s1));
                            }
                        },
                        None => {},
                    }
                }
                proof {
                    let inner = Set::new(|p: Seq<char>| !exists|c: int| 0 <= c < set_items.len()
                        && dropped_by(strings0, *set_items[c], p));
                    let next = Set::new(|p: Seq<char>| !exists|b: int, ix: usize| 0 <= b < a + 1
                        && *pairs[b].0 < cutoff && (*pairs[b].1)@.contains(ix) && dropped_by(strings0, ix, p));
                    assert forall|p: Seq<char>| next.contains(p) <==> done.contains(p) && inner.contains(p) by {
                        if exists|b: int, ix: usize| 0 <= b < a + 1 && *pairs[b].0 < cutoff && (*pairs[b].1)@.contains(ix) && dropped_by(strings0, ix, p) {
                            let (b, ix) = choose|b: int, ix: usize| 0 <= b < a + 1 && *pairs[b].0 < cutoff && (*pairs[b].1)@.contains(ix) && dropped_by(strings0, ix, p);
                            if b < a {
                                assert(!done.contains(p));
                            } else {
                                assert(set_items.unref().to_set().contains(ix));
                                assert(set_items.unref().contains(ix));
                                let c = choose|c: int| 0 <= c < set_items.unref().len() && set_items.unref()[c] == ix;
                                assert(!inner.contains(p));
                            }
                        }
                        if !inner.contains(p) {
                            let c = choose|c: int| 0 <= c < set_items.len() && dropped_by(strings0, *set_items[c], p);
                            assert(set_items.unref()[c] == *set_items[c]);
                            assert(set_items.unref().to_set().contains(*set_items[c]));
                            assert(!next.contains(p));
                        }
                        if !done.contains(p) {
                            let (b, ix) = choose|b: int, ix: usize| 0 <= b < a && *pairs[b].0 < cutoff && (*pairs[b].1)@.contains(ix) && dropped_by(strings0, ix, p);
                            assert(!next.contains(p));
                        }
                    }
                    assert(cache.states() =~= states0.restrict(next));
                    let sa = Set::new(|t: u64| t >= cutoff && exists|b: int| 0 <= b < a + 1 && *pairs[b].0 == t);
                    let sb = Set::new(|t: u64| t >= cutoff && exists|b: int| 0 <= b < a && *pairs[b].0 == t);
                    assert forall|t: u64| #[trigger] sa.contains(t) == sb.contains(t) by {
                        if sa.contains(t) {
                            let b = choose|b: int| 0 <= b < a + 1 && *pairs[b].0 == t;
                            assert(b != a);
                        }
                    }
                    assert(sa =~= sb);
                    assert(kept.prio_view() =~= prio0.restrict(Set::new(|t: u64| t >= cutoff && exists|b: int| 0 <= b < a + 1 && *pairs[b].0 == t)));
                }
            } else {
                let ghost before = kept.prio_view();
                let copy = kv.1.clone();
                kept.insert(*kv.0, copy);
                proof {
                    assert(prio@.contains_key(*pairs[a].0) && prio@[*pairs[a].0] == *pairs[a].1);
                    assert(prio0[*kv.0] == (*kv.1)@);
                    assert(kept.prio_view() =~= before.insert(*kv.0, (*kv.1)@));
                    let sa = Set::new(|t: u64| t >= cutoff && exists|b: int| 0 <= b < a + 1 && *pairs[b].0 == t);
                    let sb = Set::new(|t: u64| t >= cutoff && exists|b: int| 0 <= b < a && *pairs[b].0 == t);
                    assert forall|t: u64| #[trigger] sa.contains(t) == sb.insert(*kv.0).contains(t) by {
                        if sa.contains(t) && t != *kv.0 {
                            let b = choose|b: int| 0 <= b < a + 1 && *pairs[b].0 == t;
                            assert(b != a);
                        }
                        if t == *kv.0 {
                            assert(*pairs[a].0 == t);
                        }
                    }
                    assert(sa =~= sb.insert(*kv.0));
                    assert(kept.prio_view() =~= prio0.restrict(Set::new(|t: u64| t >= cutoff && exists|b: int| 0 <= b < a + 1 && *pairs[b].0 == t)));
                    assert(cache.states() =~= states0.restrict(Set::new(|p: Seq<char>| !exists|b: int, ix: usize| 0 <= b < a + 1
                        && *pairs[b].0 < cutoff && (*pairs[b].1)@.contains(ix) && dropped_by(strings0, ix, p))));
                }
            }
        }
        cache.lru.prio = kept;
        proof {
            assert(cache.priorities() =~= prio0.restrict(Set::new(|t: u64| t >= cutoff)));
            lemma_times_from(times@, prio0.dom(), times@.len() - 1 - MAX_TIMES);
            assert(cache.priorities().dom() =~= prio0.dom().intersect(Set::new(|t: u64| t >= cutoff)));
            let all = Set::new(|p: Seq<char>| !exists|b: int, ix: usize| 0 <= b < pairs.len()
                && *pairs[b].0 < cutoff && (*pairs[b].1)@.contains(ix) && dropped_by(strings0, ix, p));
            let goal = Set::new(|p: Seq<char>| !pruned(prio0, strings0, cutoff, p));
            assert forall|p: Seq<char>| all.contains(p) <==> goal.contains(p) by {
                if !all.contains(p) {
                    let (b, ix) = choose|b: int, ix: usize| 0 <= b < pairs.len() && *pairs[b].0 < cutoff && (*pairs[b].1)@.contains(ix) && dropped_by(strings0, ix, p);
                    assert(prio0.contains_key(*pairs[b].0) && prio0[*pairs[b].0].contains(ix));
                }
                if !goal.contains(p) {
                    let (t, ix) = choose|t: u64, ix: usize| #![trigger prio0[t].contains(ix)] prio0.contains_key(t) && t < cutoff && prio0[t].contains(ix)
                        && strings0.contains_key(ix) && strings0[ix].is_prefix_of(p);
                    let b = choose|b: int| 0 <= b < pairs.len() && *pairs[b].0 == t;
                    assert(!all.contains(p));
                }
            }
            assert(cache.states() =~= states0.restrict(goal));
        }
    }
}

} // verus!
