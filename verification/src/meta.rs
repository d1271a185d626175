//! A trie over a sorted, deduplicated list of stored strings, laid out in pre-order:
//! every node covers the range of stored strings that share its prefix, and the range
//! of node ids of its descendants.
use vstd::prelude::*;
use core::ops::Range;
use core::marker::PhantomData;
use vstd::std_specs::iter::IteratorSpec;
use std::collections::{BTreeMap, HashMap};
use crate::levenshtein::{lev, final_lev_row, lemma_lev_lower_bound, lemma_lev_self, lemma_lev_zero, lemma_lev_push_same, lemma_lev_last_match, lemma_lev_earlier_match, longer_rest, ped, lemma_ped_is_least};
use crate::order::{lex_le, lex_lt, lemma_char_u32_injective, lemma_lex_le_antisymmetric, lex_lt_order, lemma_lex_lt_strict_total, lemma_increasing_unique};

verus! {

/// Stored strings are strictly increasing in lexicographic order (sorted, no duplicates).
pub open spec fn strictly_sorted(s: Seq<Seq<char>>) -> bool {
    forall|i: int, j: int| #![trigger s[i], s[j]] 0 <= i < j < s.len() ==> lex_lt(s[i], s[j])
}

/// `p` is a prefix of `s` that is strictly shorter than `s`.
pub open spec fn proper_prefix(p: Seq<char>, s: Seq<char>) -> bool {
    p.is_prefix_of(s) && p.len() < s.len()
}

/// Sum over the stored strings `s[lo..hi]` of the number of characters after the first `depth`.
pub open spec fn suffix_total(s: Seq<Seq<char>>, lo: int, hi: int, depth: int) -> nat
    decreases hi - lo,
{
    if lo >= hi {
        0
    } else {
        let l = s[lo].len() - depth;
        (if l > 0 { l as nat } else { 0nat }) + suffix_total(s, lo + 1, hi, depth)
    }
}

/// Total number of characters in a list of strings.
pub open spec fn total_chars(s: Seq<Seq<char>>) -> nat {
    suffix_total(s, 0, s.len() as int, 0)
}

/// The suffix total of a range is the sum of the totals of its two parts.
pub proof fn lemma_suffix_total_split(s: Seq<Seq<char>>, lo: int, mid: int, hi: int, depth: int)
    requires
        lo <= mid <= hi,
    ensures
        suffix_total(s, lo, hi, depth) == suffix_total(s, lo, mid, depth) + suffix_total(s, mid, hi, depth),
    decreases mid - lo,
{
    if lo < mid {
        lemma_suffix_total_split(s, lo + 1, mid, hi, depth);
    }
}

/// When each string in a range is longer than `depth`, dropping one more character
/// from each lowers the total by the number of strings.
pub proof fn lemma_suffix_total_deeper(s: Seq<Seq<char>>, lo: int, hi: int, depth: int)
    requires
        lo <= hi,
        0 <= depth,
        forall|k: int| lo <= k < hi ==> #[trigger] s[k].len() > depth,
    ensures
        suffix_total(s, lo, hi, depth) == suffix_total(s, lo, hi, depth + 1) + (hi - lo),
    decreases hi - lo,
{
    if lo < hi {
        lemma_suffix_total_deeper(s, lo + 1, hi, depth);
    }
}

/// Every string in a range has at least one character: the total counts at least one per string.
pub proof fn lemma_suffix_total_count(s: Seq<Seq<char>>, lo: int, hi: int)
    requires
        lo <= hi,
        forall|k: int| lo <= k < hi ==> #[trigger] s[k].len() > 0,
    ensures
        suffix_total(s, lo, hi, 0) >= hi - lo,
    decreases hi - lo,
{
    if lo < hi {
        lemma_suffix_total_count(s, lo + 1, hi);
    }
}

/// Under a common prefix `p`, sorted strings that continue past `p` are ordered by
/// the character that follows `p`.
pub proof fn lemma_next_char_ordered(a: Seq<char>, b: Seq<char>, p: Seq<char>)
    requires
        lex_le(a, b),
        p.is_prefix_of(a),
        p.is_prefix_of(b),
        a.len() > p.len(),
        b.len() > p.len(),
    ensures
        (a[p.len() as int] as u32) <= (b[p.len() as int] as u32),
    decreases p.len(),
{
    if p.len() == 0 {
        if a[0] == b[0] {
        }
    } else {
        assert(a[0] == p[0] && b[0] == p[0]);
        lemma_next_char_ordered(a.drop_first(), b.drop_first(), p.drop_first());
        assert(a.drop_first()[p.len() - 1] == a[p.len() as int]);
        assert(b.drop_first()[p.len() - 1] == b[p.len() as int]);
    }
}

/// Under a common prefix `p`, only `p` itself can come before `p` in sorted order.
pub proof fn lemma_prefix_is_least(a: Seq<char>, b: Seq<char>, p: Seq<char>)
    requires
        lex_le(a, b),
        p.is_prefix_of(a),
        b == p,
    ensures
        a == p,
    decreases p.len(),
{
    if p.len() == 0 {
        assert(a.len() == 0);
        assert(a =~= p);
    } else {
        assert(a[0] == p[0]);
        lemma_prefix_is_least(a.drop_first(), b.drop_first(), p.drop_first());
        assert(a =~= seq![a[0]] + a.drop_first());
        assert(p =~= seq![p[0]] + p.drop_first());
    }
}

/// In a strictly sorted list, only the first string can be empty.
pub proof fn lemma_only_first_empty(s: Seq<Seq<char>>)
    requires
        strictly_sorted(s),
    ensures
        forall|k: int| 1 <= k < s.len() ==> #[trigger] s[k].len() > 0,
{
    assert forall|k: int| 1 <= k < s.len() implies #[trigger] s[k].len() > 0 by {
        assert(lex_lt(s[0], s[k]));
        if s[k].len() == 0 {
            assert(lex_le(s[k], s[0]));
            lemma_lex_le_antisymmetric(s[0], s[k]);
        }
    }
}

/// The Unicode scalar value of a character.
pub open spec fn char_code(c: char) -> u32 {
    c as u32
}

/// Calls `char::from_u32`, which (as its documentation states) returns the `char`
/// whose scalar value is `code`, and `None` exactly when `code` is a surrogate or above
/// `char::MAX`. The contract claims that the result carries `code` and that every
/// scalar value gives `Some`.
#[verifier::external_body]
fn char_from_u32(code: u32) -> (c: Option<char>)
    ensures
        c matches Some(x) ==> x as u32 == code,
        vstd::utf8::is_scalar(code) ==> c is Some,
{
    char::from_u32(code)
}

/// Returns an Option with the next valid Unicode scalar value after `character`, unless `character` is `char::MAX`.
pub fn char_succ(character: char) -> (next: Option<char>)
    ensures
        next matches Some(s) ==> (character as u32) < (s as u32) && forall|x: char|
            (character as u32) < #[trigger] char_code(x) ==> (s as u32) <= char_code(x),
        next is None ==> forall|x: char| #[trigger] char_code(x) <= (character as u32),
{
    let code = character as u32;
    proof {
        vstd::utf8::char_is_scalar(character);
        assert forall|x: char| #[trigger] char_code(x) <= 0x10FFFF && !(0xD800 <= char_code(x) <= 0xDFFF) by {
            vstd::utf8::char_is_scalar(x);
        }
    }
    if code == 0x10FFFF {
        None
    } else if code == 0xD7FF {
        char_from_u32(0xE000)
    } else {
        char_from_u32(code + 1)
    }
}

/// A trie node: one character of a stored prefix, with the ids of its descendants
/// and the indices of the stored strings that start with its prefix.
#[derive(Debug, PartialEq, Eq, Hash)]
pub struct Node<UUU, SSS> {
    /// One Unicode character
    pub(crate) character: char,
    /// Range of indices into descendant nodes
    pub(crate) descendant_range: Range<SSS>,
    /// Range of indices into strings with the prefix from this node
    pub(crate) string_range: Range<SSS>,
    /// Length of the prefix from this node
    pub(crate) depth: UUU,
}

impl Node<u8, u32> {
    /// Returns the index into the trie where the node is
    pub(crate) fn id(&self) -> (id: usize)
        requires
            self.descendant_range.start >= 1,
        ensures
            id == self.descendant_range.start - 1,
    {
        self.descendant_range.start as usize - 1
    }

    /// Returns the id of the first child/descendant, which is equivalent to the id for sorting
    pub(crate) fn first_descendant_id(&self) -> (id: usize)
        ensures
            id == self.descendant_range.start,
    {
        self.descendant_range.start as usize
    }
}

/// A trie over a set of stored strings.
pub struct Trie<UUU, SSS> {
    pub(crate) nodes: Vec<Node<UUU, SSS>>,
    /// Stored strings
    pub strings: Vec<String>,
    /// The characters of each stored string
    pub(crate) chars: Vec<Vec<char>>,
    /// The prefix that each node stands for
    pub(crate) prefixes: Ghost<Seq<Seq<char>>>,
}

impl Trie<u8, u32> {
    /// Returns the root node of the trie (node 0, the node of the empty prefix).
    pub(crate) fn root(&self) -> (root: &Node<u8, u32>)
        requires
            self.nodes@.len() >= 1,
        ensures
            *root == self.nodes@[0],
    {
        &self.nodes[0]
    }
}

/// Strings kept by the trie: made from a borrowed or an owned string, and read as a `str`.
pub trait TreeStringT: Sized {
    /// The characters of the string.
    spec fn chars_view(&self) -> Seq<char>;

    /// The string of `sx`.
    fn from_string(sx: &String) -> (s: Self)
        ensures
            s.chars_view() == sx@,
    ;

    /// The string as a `str`.
    fn to_str(&self) -> (s: &str)
        ensures
            s@ == self.chars_view(),
    ;

    /// The string that `sx` becomes.
    fn from_owned(sx: String) -> (s: Self)
        ensures
            s.chars_view() == sx@,
    ;
}

impl TreeStringT for String {
    open spec fn chars_view(&self) -> Seq<char> {
        self@
    }

    fn from_string(sx: &String) -> (s: Self) {
        sx.clone()
    }

    fn to_str(&self) -> (s: &str) {
        self.as_str()
    }

    fn from_owned(sx: String) -> (s: Self) {
        sx
    }
}

/// The characters of each of a list of character vectors.
pub open spec fn char_views(v: Seq<Vec<char>>) -> Seq<Seq<char>> {
    v.map_values(|c: Vec<char>| c@)
}

impl Trie<u8, u32> {
    /// The stored strings, as characters.
    pub closed spec fn stored(&self) -> Seq<Seq<char>> {
        char_views(self.chars@)
    }

    /// The public list of stored strings.
    pub closed spec fn stored_strings(&self) -> Seq<String> {
        self.strings@
    }

    /// The prefix that node `j` stands for.
    pub closed spec fn prefix_of(&self, j: int) -> Seq<char> {
        self.prefixes@[j]
    }

    /// The stored strings are sorted and distinct, hold at most 255 characters, and
    /// agree with their character vectors.
    pub closed spec fn storage_ok(&self) -> bool {
        &&& self.chars@.len() == self.strings@.len()
        &&& forall|k: int| 0 <= k < self.strings@.len() ==> #[trigger] self.strings@[k]@ == self.chars@[k]@
        &&& strictly_sorted(self.stored())
        &&& forall|k: int| 0 <= k < self.stored().len() ==> #[trigger] self.stored()[k].len() <= 255
        &&& self.stored().len() <= u32::MAX
    }

    /// Node `j` records the depth, last character and exact string range of its prefix.
    pub closed spec fn node_fields_ok(&self, j: int) -> bool {
        let node = self.nodes@[j];
        let p = self.prefixes@[j];
        &&& node.depth == p.len()
        &&& node.character == if p.len() == 0 { '\0' } else { p.last() }
        &&& node.string_range.start <= node.string_range.end <= self.stored().len()
        &&& forall|k: int| 0 <= k < self.stored().len() ==> ((node.string_range.start <= k < node.string_range.end)
            <==> #[trigger] p.is_prefix_of(self.stored()[k]))
        &&& p.len() > 0 ==> node.string_range.start < node.string_range.end
    }

    /// Node `j` records the depth and last character of its prefix, and a string range within
    /// `[ws, we)` that holds exactly the strings of `[ws, we)` that its prefix begins.
    pub closed spec fn node_fields_in(&self, j: int, ws: int, we: int) -> bool {
        let node = self.nodes@[j];
        let p = self.prefixes@[j];
        &&& node.depth == p.len()
        &&& node.character == if p.len() == 0 { '\0' } else { p.last() }
        &&& ws <= node.string_range.start <= node.string_range.end <= we
        &&& forall|k: int| ws <= k < we ==> ((node.string_range.start <= k < node.string_range.end)
            <==> #[trigger] p.is_prefix_of(self.stored()[k]))
    }

    /// Node `j`'s descendant range starts right after it, ends by `hi`, and among the
    /// nodes in `[lo, hi)` covers exactly those whose prefix strictly extends its own.
    pub closed spec fn desc_ok_within(&self, j: int, lo: int, hi: int) -> bool {
        let node = self.nodes@[j];
        &&& node.descendant_range.start == j + 1
        &&& j + 1 <= node.descendant_range.end <= hi
        &&& forall|m: int| lo <= m < hi ==> ((j < m < node.descendant_range.end)
            <==> #[trigger] proper_prefix(self.prefixes@[j], self.prefixes@[m]))
    }

    /// Well-formedness: the nodes are exactly the distinct prefixes of the stored strings
    /// in pre-order with children by ascending character, which is the lexicographic order
    /// of their prefixes, the root (node 0) standing for the empty prefix.
    pub closed spec fn wf(&self) -> bool {
        let n = self.nodes@.len();
        &&& self.storage_ok()
        &&& n == self.prefixes@.len()
        &&& 1 <= n <= u32::MAX
        &&& self.prefixes@[0].len() == 0
        &&& forall|j: int| 0 <= j < n ==> #[trigger] self.node_fields_ok(j)
        &&& forall|j: int| 0 <= j < n ==> #[trigger] self.desc_ok_within(j, 0, n as int)
        &&& forall|j: int, m: int| #![trigger self.prefixes@[j], self.prefixes@[m]]
            0 <= j < n && 0 <= m < n && j != m ==> self.prefixes@[j] != self.prefixes@[m]
        &&& forall|j: int, m: int| #![trigger self.prefixes@[j], self.prefixes@[m]]
            0 <= j < m < n ==> lex_lt(self.prefixes@[j], self.prefixes@[m])
        &&& forall|q: Seq<char>, k: int| 0 <= k < self.stored().len() && #[trigger] q.is_prefix_of(self.stored()[k])
            ==> exists|j: int| 0 <= j < n && #[trigger] self.prefixes@[j] == q
    }
}

/// Extending a prefix by one character: `p + [c]` is a prefix of `s` exactly when `p` is
/// and `s` continues with `c`.
pub proof fn lemma_prefix_push(p: Seq<char>, c: char, s: Seq<char>)
    ensures
        p.push(c).is_prefix_of(s) <==> (p.is_prefix_of(s) && s.len() > p.len() && s[p.len() as int] == c),
{
    if p.push(c).is_prefix_of(s) {
        assert(s.subrange(0, p.len() as int) =~= p.push(c).subrange(0, p.len() as int));
        assert(p.push(c).subrange(0, p.len() as int) =~= p);
        assert(p.push(c)[p.len() as int] == c);
    }
    if p.is_prefix_of(s) && s.len() > p.len() && s[p.len() as int] == c {
        assert(s.subrange(0, p.len() as int + 1) =~= p.push(c));
    }
}

/// A prefix of `s` as long as `s` is `s` itself.
pub proof fn lemma_full_prefix(p: Seq<char>, s: Seq<char>)
    requires
        p.is_prefix_of(s),
        p.len() >= s.len(),
    ensures
        p == s,
{
    assert(s.subrange(0, s.len() as int) =~= s);
    assert(p =~= s);
}

/// Prefixes of one string are ordered by length.
pub proof fn lemma_prefix_of_prefix(p: Seq<char>, q: Seq<char>, s: Seq<char>)
    requires
        p.is_prefix_of(s),
        q.is_prefix_of(s),
        p.len() <= q.len(),
    ensures
        p.is_prefix_of(q),
{
    assert(q.subrange(0, p.len() as int) =~= s.subrange(0, p.len() as int));
}

/// Prefix is transitive.
pub proof fn lemma_prefix_transitive(p: Seq<char>, q: Seq<char>, s: Seq<char>)
    requires
        p.is_prefix_of(q),
        q.is_prefix_of(s),
    ensures
        p.is_prefix_of(s),
{
    assert(s.subrange(0, p.len() as int) =~= q.subrange(0, p.len() as int));
}

/// A sequence that agrees with another before index `d` and has the smaller character at
/// `d` comes first in lexicographic order.
pub proof fn lemma_lex_lt_at(a: Seq<char>, b: Seq<char>, d: int)
    requires
        0 <= d < a.len(),
        d < b.len(),
        forall|i: int| 0 <= i < d ==> #[trigger] a[i] == b[i],
        (a[d] as u32) < (b[d] as u32),
    ensures
        lex_lt(a, b),
    decreases d,
{
    assert(a[d] != b[d]);
    assert(a != b);
    if d > 0 {
        assert(a[0] == b[0]);
        assert forall|i: int| 0 <= i < d - 1 implies #[trigger] a.drop_first()[i] == b.drop_first()[i] by {
            assert(a[i + 1] == b[i + 1]);
        }
        lemma_lex_lt_at(a.drop_first(), b.drop_first(), d - 1);
    }
}

/// A proper prefix comes before the sequences that it begins.
pub proof fn lemma_lex_lt_proper_prefix(p: Seq<char>, s: Seq<char>)
    requires
        proper_prefix(p, s),
    ensures
        lex_lt(p, s),
    decreases p.len(),
{
    assert(p != s);
    if p.len() > 0 {
        assert(p[0] == s.subrange(0, p.len() as int)[0]);
        assert(s.drop_first().subrange(0, p.len() - 1) =~= p.drop_first()) by {
            assert forall|i: int| 0 <= i < p.len() - 1 implies #[trigger] s.drop_first().subrange(0, p.len() - 1)[i] == p.drop_first()[i] by {
                assert(s.subrange(0, p.len() as int)[i + 1] == p[i + 1]);
            }
        }
        lemma_lex_lt_proper_prefix(p.drop_first(), s.drop_first());
    }
}

impl Trie<u8, u32> {
    /// The nodes `[lo, hi)` form the pre-order block of the subtree of prefix `p`,
    /// which covers the stored strings `[start, end)`.
    pub closed spec fn block_ok(&self, lo: int, hi: int, p: Seq<char>, start: int, end: int) -> bool {
        &&& 0 <= lo < hi <= self.nodes@.len()
        &&& self.prefixes@.len() == self.nodes@.len()
        &&& self.prefixes@[lo] == p
        &&& forall|j: int| lo <= j < hi ==> #[trigger] self.node_fields_in(j, start, end)
        &&& forall|j: int| lo < j < hi ==> #[trigger] self.strings_of(j).0 < self.strings_of(j).1
        &&& forall|j: int| lo <= j < hi ==> #[trigger] self.desc_ok_within(j, lo, hi)
        &&& forall|j: int| lo <= j < hi ==> p.is_prefix_of(#[trigger] self.prefixes@[j])
        &&& forall|j: int, m: int| #![trigger self.prefixes@[j], self.prefixes@[m]]
            lo <= j < hi && lo <= m < hi && j != m ==> self.prefixes@[j] != self.prefixes@[m]
        &&& forall|j: int, m: int| #![trigger self.prefixes@[j], self.prefixes@[m]]
            lo <= j < m < hi ==> lex_lt(self.prefixes@[j], self.prefixes@[m])
        &&& forall|q: Seq<char>, k: int| start <= k < end && p.is_prefix_of(q) && #[trigger] q.is_prefix_of(self.stored()[k])
            ==> exists|j: int| lo <= j < hi && #[trigger] self.prefixes@[j] == q
    }

    /// The nodes `(id0, hi)` are the blocks of the children of prefix `p` built so far, over
    /// the stored strings `[ws, we)`.
    pub closed spec fn children_ok(&self, id0: int, hi: int, p: Seq<char>, ws: int, we: int) -> bool {
        &&& 0 <= id0 < hi <= self.nodes@.len()
        &&& self.prefixes@.len() == self.nodes@.len()
        &&& forall|j: int| id0 < j < hi ==> #[trigger] self.node_fields_in(j, ws, we)
        &&& forall|j: int| id0 < j < hi ==> #[trigger] self.strings_of(j).0 < self.strings_of(j).1
        &&& forall|j: int| id0 < j < hi ==> #[trigger] self.desc_ok_within(j, id0 + 1, hi)
        &&& forall|j: int| id0 < j < hi ==> proper_prefix(p, #[trigger] self.prefixes@[j])
        &&& forall|j: int, m: int| #![trigger self.prefixes@[j], self.prefixes@[m]]
            id0 < j < hi && id0 < m < hi && j != m ==> self.prefixes@[j] != self.prefixes@[m]
        &&& forall|j: int, m: int| #![trigger self.prefixes@[j], self.prefixes@[m]]
            id0 < j < m < hi ==> lex_lt(self.prefixes@[j], self.prefixes@[m])
    }

    /// Appending the block of a child whose next character comes after those of all
    /// earlier children keeps the children's blocks well formed.
    proof fn lemma_children_extend(old_t: Self, new_t: Self, id0: int, c0: int, c1: int, p: Seq<char>, c: char, cs: int, ce: int,
        ws: int, we: int)
        requires
            old_t.children_ok(id0, c0, p, ws, we),
            ws <= cs < ce <= we,
            forall|k: int| ws <= k < we ==> ((cs <= k < ce) <==> #[trigger] p.push(c).is_prefix_of(old_t.stored()[k])),
            old_t.nodes@.len() == c0,
            new_t.nodes@.take(c0) == old_t.nodes@,
            new_t.prefixes@.take(c0) == old_t.prefixes@,
            new_t.chars == old_t.chars,
            new_t.nodes@.len() == c1,
            new_t.block_ok(c0, c1, p.push(c), cs, ce),
            forall|j: int| id0 < j < c0 ==> (#[trigger] old_t.prefixes@[j][p.len() as int] as u32) < (c as u32),
        ensures
            new_t.children_ok(id0, c1, p, ws, we),
            forall|j: int| id0 < j < c1 ==> (#[trigger] new_t.prefixes@[j][p.len() as int] as u32) <= (c as u32),
            forall|j: int| c0 <= j < c1 ==> #[trigger] new_t.prefixes@[j][p.len() as int] == c,
    {
        let d = p.len() as int;
        assert forall|j: int| c0 <= j < c1 implies #[trigger] new_t.prefixes@[j][d] == c && proper_prefix(p, new_t.prefixes@[j]) by {
            assert(p.push(c).is_prefix_of(new_t.prefixes@[j]));
            lemma_prefix_push(p, c, new_t.prefixes@[j]);
        }
        assert forall|j: int| id0 < j < c0 implies new_t.nodes@[j] == old_t.nodes@[j] && #[trigger] new_t.prefixes@[j] == old_t.prefixes@[j] by {
            assert(new_t.nodes@.take(c0)[j] == new_t.nodes@[j]);
            assert(new_t.prefixes@.take(c0)[j] == new_t.prefixes@[j]);
        }
        assert(new_t.stored() == old_t.stored());
        assert forall|j: int| id0 < j < c1 implies #[trigger] new_t.node_fields_in(j, ws, we)
            && new_t.strings_of(j).0 < new_t.strings_of(j).1 by {
            if j < c0 {
                assert(old_t.node_fields_in(j, ws, we));
                assert(old_t.strings_of(j).0 < old_t.strings_of(j).1);
                assert(new_t.nodes@[j] == old_t.nodes@[j]);
                assert(new_t.prefixes@[j] == old_t.prefixes@[j]);
            } else {
                assert(new_t.node_fields_in(j, cs, ce));
                let q = new_t.prefixes@[j];
                assert(p.push(c).is_prefix_of(q));
                assert forall|k: int| ws <= k < we && !(cs <= k < ce) implies !#[trigger] q.is_prefix_of(new_t.stored()[k]) by {
                    if q.is_prefix_of(new_t.stored()[k]) {
                        lemma_prefix_transitive(p.push(c), q, new_t.stored()[k]);
                        assert(p.push(c).is_prefix_of(old_t.stored()[k]));
                    }
                }
                if j == c0 {
                    assert(q == p.push(c));
                    assert(p.push(c).is_prefix_of(old_t.stored()[cs]));
                    assert(new_t.prefixes@[j].is_prefix_of(new_t.stored()[cs]));
                    assert(new_t.nodes@[j].string_range.start <= cs < new_t.nodes@[j].string_range.end);
                } else {
                    assert(new_t.strings_of(j).0 < new_t.strings_of(j).1);
                }
            }
        }
        assert forall|j: int| id0 < j < c1 implies #[trigger] new_t.strings_of(j).0 < new_t.strings_of(j).1 by {
            assert(new_t.node_fields_in(j, ws, we));
        }
        assert forall|j: int| id0 < j < c1 implies #[trigger] new_t.desc_ok_within(j, id0 + 1, c1) by {
            if j < c0 {
                assert(old_t.desc_ok_within(j, id0 + 1, c0));
                assert forall|m: int| id0 + 1 <= m < c1 implies ((j < m < new_t.nodes@[j].descendant_range.end)
                    <==> #[trigger] proper_prefix(new_t.prefixes@[j], new_t.prefixes@[m])) by {
                    if m >= c0 {
                        if proper_prefix(new_t.prefixes@[j], new_t.prefixes@[m]) {
                            assert(new_t.prefixes@[m][d] == new_t.prefixes@[j][d]);
                        }
                    } else {
                        assert(new_t.prefixes@[m] == old_t.prefixes@[m]);
                        assert(proper_prefix(old_t.prefixes@[j], old_t.prefixes@[m]) <==> (j < m < old_t.nodes@[j].descendant_range.end));
                    }
                }
            } else {
                assert(new_t.desc_ok_within(j, c0, c1));
                assert forall|m: int| id0 + 1 <= m < c1 implies ((j < m < new_t.nodes@[j].descendant_range.end)
                    <==> #[trigger] proper_prefix(new_t.prefixes@[j], new_t.prefixes@[m])) by {
                    if m < c0 {
                        if proper_prefix(new_t.prefixes@[j], new_t.prefixes@[m]) {
                            assert(new_t.prefixes@[m][d] == new_t.prefixes@[j][d]);
                            assert(new_t.prefixes@[m] == old_t.prefixes@[m]);
                        }
                    }
                }
            }
        }
        assert forall|j: int, m: int| #![trigger new_t.prefixes@[j], new_t.prefixes@[m]]
            id0 < j < c1 && id0 < m < c1 && j != m implies new_t.prefixes@[j] != new_t.prefixes@[m] by {
            if j < c0 && m < c0 {
                assert(old_t.prefixes@[j] != old_t.prefixes@[m]);
            } else if j < c0 && m >= c0 {
                assert(old_t.prefixes@[j][d] != c);
            } else if j >= c0 && m < c0 {
                assert(old_t.prefixes@[m][d] != c);
            }
        }
        assert forall|j: int, m: int| #![trigger new_t.prefixes@[j], new_t.prefixes@[m]]
            id0 < j < m < c1 implies lex_lt(new_t.prefixes@[j], new_t.prefixes@[m]) by {
            if m < c0 {
                assert(lex_lt(old_t.prefixes@[j], old_t.prefixes@[m]));
            } else if j < c0 {
                let a = new_t.prefixes@[j];
                let b = new_t.prefixes@[m];
                assert forall|i: int| 0 <= i < d implies #[trigger] a[i] == b[i] by {
                    assert(a.subrange(0, d)[i] == p[i]);
                    assert(b.subrange(0, d)[i] == p[i]);
                }
                lemma_lex_lt_at(a, b, d);
            }
        }
    }
}

/// Returns the first index in `[lo, hi)` whose string has a character at `depth` no
/// smaller than `bound` (or `hi`), given that those characters increase along the range.
fn partition_by_char(chars: &Vec<Vec<char>>, depth: usize, lo: usize, hi: usize, bound: char) -> (r: usize)
    requires
        lo <= hi <= chars@.len(),
        forall|k: int| lo <= k < hi ==> #[trigger] chars@[k]@.len() > depth,
        forall|k: int, l: int| #![trigger chars@[k], chars@[l]] lo <= k <= l < hi
            ==> (chars@[k]@[depth as int] as u32) <= (chars@[l]@[depth as int] as u32),
    ensures
        lo <= r <= hi,
        forall|k: int| lo <= k < r ==> (#[trigger] chars@[k]@[depth as int] as u32) < (bound as u32),
        forall|k: int| r <= k < hi ==> (#[trigger] chars@[k]@[depth as int] as u32) >= (bound as u32),
{
    let mut low = lo;
    let mut high = hi;
    while low < high
        invariant
            lo <= low <= high <= hi <= chars@.len(),
            forall|k: int| lo <= k < hi ==> #[trigger] chars@[k]@.len() > depth,
            forall|k: int, l: int| #![trigger chars@[k], chars@[l]] lo <= k <= l < hi
                ==> (chars@[k]@[depth as int] as u32) <= (chars@[l]@[depth as int] as u32),
            forall|k: int| lo <= k < low ==> (#[trigger] chars@[k]@[depth as int] as u32) < (bound as u32),
            forall|k: int| high <= k < hi ==> (#[trigger] chars@[k]@[depth as int] as u32) >= (bound as u32),
        decreases high - low,
    {
        let mid = low + (high - low) / 2;
        let c = chars[mid][depth];
        if (c as u32) < (bound as u32) {
            assert forall|k: int| lo <= k < mid + 1 implies (#[trigger] chars@[k]@[depth as int] as u32) < (bound as u32) by {
                if k >= low {
                    assert(chars@[k]@[depth as int] as u32 <= chars@[mid as int]@[depth as int] as u32);
                }
            }
            low = mid + 1;
        } else {
            assert forall|k: int| mid <= k < hi implies (#[trigger] chars@[k]@[depth as int] as u32) >= (bound as u32) by {
                if k < high {
                    assert(chars@[mid as int]@[depth as int] as u32 <= chars@[k]@[depth as int] as u32);
                }
            }
            high = mid;
        }
    }
    low
}

impl Trie<u8, u32> {
    /// Pushes the node for `prefix` (whose last character is `last_char`), covering the stored
    /// strings `[start, end)`, followed by the nodes of all its descendants in pre-order.
    #[verifier::rlimit(50)]
    fn init_nodes(
        &mut self,
        node_id: &mut usize,
        depth: u8,
        prefix: Ghost<Seq<char>>,
        last_char: char,
        start: usize,
        end: usize,
    )
        requires
            old(self).storage_ok(),
            old(self).nodes@.len() == old(self).prefixes@.len(),
            *old(node_id) == old(self).nodes@.len(),
            prefix@.len() == depth,
            start <= end <= old(self).stored().len(),
            forall|k: int| start <= k < end ==> #[trigger] prefix@.is_prefix_of(old(self).stored()[k]),
            prefix@.len() > 0 ==> last_char == prefix@.last(),
            prefix@.len() == 0 ==> last_char == '\0',
            old(self).nodes@.len() + 1 + suffix_total(old(self).stored(), start as int, end as int, depth as int) <= u32::MAX,
        ensures
            final(self).chars == old(self).chars,
            final(self).strings == old(self).strings,
            final(self).nodes@.len() == *final(node_id),
            old(self).nodes@.len() < final(self).nodes@.len() <= old(self).nodes@.len() + 1
                + suffix_total(old(self).stored(), start as int, end as int, depth as int),
            final(self).nodes@.take(old(self).nodes@.len() as int) == old(self).nodes@,
            final(self).prefixes@.take(old(self).nodes@.len() as int) == old(self).prefixes@,
            final(self).block_ok(old(self).nodes@.len() as int, final(self).nodes@.len() as int, prefix@, start as int, end as int),
        decreases 256 - depth,
    {
        let ghost old_nodes = self.nodes@;
        let ghost old_prefixes = self.prefixes@;
        let ghost stored = self.stored();
        let ghost p = prefix@;
        let ghost d = depth as int;
        let current_id = *node_id;
        let ghost id0 = current_id as int;
        proof {
            lemma_suffix_total_split(stored, start as int, start as int, end as int, d);
        }
        let current_node = Node::<u8, u32> {
            character: last_char,
            // the descendant range is set once all descendants are in place
            descendant_range: Range { start: 0, end: 0 },
            string_range: Range { start: start as u32, end: end as u32 },
            depth,
        };
        // the current node is added before all the descendants, and its location in `nodes` is `current_id`
        self.nodes.push(current_node);
        self.prefixes = Ghost(self.prefixes@.push(p));
        *node_id = *node_id + 1;
        proof {
            assert(self.stored() == stored);
            assert(self.node_fields_in(id0, start as int, end as int));
            assert(self.nodes@.take(id0) =~= old_nodes);
            assert(self.prefixes@.take(id0) =~= old_prefixes);
            // only the first string of the range can equal the prefix itself
            assert forall|k: int| start < k < end implies #[trigger] stored[k].len() > d by {
                assert(p.is_prefix_of(stored[k]));
                assert(p.is_prefix_of(stored[start as int]));
                if stored[k].len() <= d {
                    lemma_full_prefix(p, stored[k]);
                    assert(lex_lt(stored[start as int], stored[k]));
                    lemma_prefix_is_least(stored[start as int], stored[k], p);
                }
            }
        }
        let mut child_start = start;
        while child_start != end
            invariant
                self.chars == old(self).chars,
                self.strings == old(self).strings,
                self.stored() == stored,
                self.storage_ok(),
                start <= child_start <= end <= stored.len(),
                p.len() == d,
                d == depth,
                forall|k: int| start <= k < end ==> #[trigger] p.is_prefix_of(stored[k]),
                forall|k: int| start < k < end ==> #[trigger] stored[k].len() > d,
                self.nodes@.len() == *node_id,
                self.prefixes@.len() == self.nodes@.len(),
                id0 + 1 <= *node_id <= id0 + 1 + suffix_total(stored, start as int, child_start as int, d),
                id0 + 1 + suffix_total(stored, start as int, end as int, d) <= u32::MAX,
                self.nodes@.take(id0) == old_nodes,
                self.prefixes@.take(id0) == old_prefixes,
                self.prefixes@[id0] == p,
                self.nodes@[id0] == current_node,
                self.node_fields_in(id0, start as int, end as int),
                self.children_ok(id0, *node_id as int, p, start as int, end as int),
                forall|j: int, k: int| #![trigger self.prefixes@[j], stored[k]]
                    id0 < j < *node_id && child_start <= k < end && stored[k].len() > d
                    ==> (self.prefixes@[j][d] as u32) < (stored[k][d] as u32),
                forall|k: int, l: int| #![trigger stored[k], stored[l]]
                    start <= k < child_start <= l < end && stored[k].len() > d && stored[l].len() > d
                    ==> (stored[k][d] as u32) < (stored[l][d] as u32),
                forall|q: Seq<char>, k: int| start <= k < child_start && proper_prefix(p, q) && #[trigger] q.is_prefix_of(stored[k])
                    ==> exists|j: int| id0 < j < *node_id && #[trigger] self.prefixes@[j] == q,
            decreases end - child_start,
        {
            let ghost c0 = *node_id as int;
            let ghost cs = child_start as int;
            if (depth as usize) < self.chars[child_start].len() {
                let next_char = self.chars[child_start][depth as usize];
                assert(next_char == stored[cs][d]);
                proof {
                    assert forall|k: int, l: int| #![trigger self.chars@[k], self.chars@[l]] cs <= k <= l < end
                        implies (self.chars@[k]@[d] as u32) <= (self.chars@[l]@[d] as u32) by {
                        assert(stored[k] == self.chars@[k]@);
                        assert(stored[l] == self.chars@[l]@);
                        if k < l {
                            assert(lex_lt(stored[k], stored[l]));
                            lemma_next_char_ordered(stored[k], stored[l], p);
                        }
                    }
                    assert forall|k: int| cs <= k < end implies #[trigger] self.chars@[k]@.len() > d by {
                        assert(stored[k] == self.chars@[k]@);
                    }
                }
                // strings in `[child_start, child_end)` continue the prefix with `next_char`
                let succ_char = char_succ(next_char);
                let child_end = match succ_char {
                    Some(succ) => partition_by_char(&self.chars, depth as usize, child_start, end, succ),
                    None => end,
                };
                let ghost ce = child_end as int;
                let ghost cp = p.push(next_char);
                proof {
                    assert forall|k: int| cs <= k < ce implies #[trigger] stored[k].len() > d && stored[k][d] == next_char by {
                        assert(stored[k] == self.chars@[k]@);
                        assert((next_char as u32) <= (stored[k][d] as u32));
                        if (next_char as u32) < (stored[k][d] as u32) {
                            match succ_char {
                                Some(succ) => {
                                    assert((succ as u32) <= char_code(stored[k][d]));
                                    assert((self.chars@[k]@[d] as u32) < (succ as u32));
                                },
                                None => {
                                    assert(char_code(stored[k][d]) <= (next_char as u32));
                                },
                            }
                        }
                        lemma_char_u32_injective(next_char, stored[k][d]);
                    }
                    assert forall|k: int| ce <= k < end && stored[k].len() > d implies (next_char as u32) < (#[trigger] stored[k][d] as u32) by {
                        assert(stored[k] == self.chars@[k]@);
                    }
                    assert forall|k: int| start <= k < end implies ((cs <= k < ce) <==> #[trigger] cp.is_prefix_of(stored[k])) by {
                        lemma_prefix_push(p, next_char, stored[k]);
                        if start <= k < cs && stored[k].len() > d {
                            assert((stored[k][d] as u32) < (stored[cs][d] as u32));
                        }
                    }
                    lemma_suffix_total_split(stored, start as int, cs, ce, d);
                    lemma_suffix_total_split(stored, start as int, ce, end as int, d);
                    lemma_suffix_total_deeper(stored, cs, ce, d);
                    assert(depth < 255) by {
                        assert(stored[cs].len() <= 255);
                    }
                }
                let ghost before = *self;
                self.init_nodes(node_id, depth + 1, Ghost(cp), next_char, child_start, child_end);
                proof {
                    let c1 = *node_id as int;
                    assert(self.stored() == stored);
                    assert forall|j: int| id0 < j < c0 implies (#[trigger] before.prefixes@[j][d] as u32) < (next_char as u32) by {
                        assert((before.prefixes@[j][d] as u32) < (stored[cs][d] as u32));
                    }
                    assert(self.nodes@.take(c0) == before.nodes@);
                    assert(self.prefixes@.take(c0) == before.prefixes@);
                    assert(cs < ce) by {
                        assert(cp.is_prefix_of(stored[cs])) by {
                            assert(stored[cs].len() > d && stored[cs][d] == next_char);
                            lemma_prefix_push(p, next_char, stored[cs]);
                        }
                    }
                    assert(before.stored() == stored);
                    Self::lemma_children_extend(before, *self, id0, c0, c1, p, next_char, cs, ce, start as int, end as int);
                    assert(self.nodes@.take(id0) =~= old_nodes) by {
                        assert(self.nodes@.take(id0) =~= self.nodes@.take(c0).take(id0));
                    }
                    assert(self.prefixes@.take(id0) =~= old_prefixes) by {
                        assert(self.prefixes@.take(id0) =~= self.prefixes@.take(c0).take(id0));
                    }
                    assert(self.prefixes@[id0] == p) by {
                        assert(self.prefixes@.take(c0)[id0] == self.prefixes@[id0]);
                    }
                    assert(self.nodes@[id0] == current_node) by {
                        assert(self.nodes@.take(c0)[id0] == self.nodes@[id0]);
                    }
                    assert forall|j: int, k: int| #![trigger self.prefixes@[j], stored[k]]
                        id0 < j < c1 && ce <= k < end && stored[k].len() > d
                        implies (self.prefixes@[j][d] as u32) < (stored[k][d] as u32) by {
                        assert((self.prefixes@[j][d] as u32) <= (next_char as u32));
                    }
                    assert forall|k: int, l: int| #![trigger stored[k], stored[l]]
                        start <= k < ce <= l < end && stored[k].len() > d && stored[l].len() > d
                        implies (stored[k][d] as u32) < (stored[l][d] as u32) by {
                        if k >= cs {
                            assert(stored[k][d] == next_char);
                        }
                    }
                    assert forall|q: Seq<char>, k: int| start <= k < ce && proper_prefix(p, q) && #[trigger] q.is_prefix_of(stored[k])
                        implies exists|j: int| id0 < j < c1 && #[trigger] self.prefixes@[j] == q by {
                        if k >= cs {
                            lemma_prefix_of_prefix(p, q, stored[k]);
                            assert(q[d] == stored[k][d]) by {
                                assert(stored[k].subrange(0, q.len() as int)[d] == stored[k][d]);
                            }
                            lemma_prefix_push(p, next_char, q);
                            assert(cp.is_prefix_of(q));
                            let j = choose|j: int| c0 <= j < c1 && #[trigger] self.prefixes@[j] == q;
                        } else {
                            let j = choose|j: int| id0 < j < c0 && #[trigger] before.prefixes@[j] == q;
                            assert(self.prefixes@.take(c0)[j] == self.prefixes@[j]);
                        }
                    }
                    assert(self.node_fields_in(id0, start as int, end as int));
                }
                // look at strings with a different next character in their prefix
                child_start = child_end;
            } else {
                // this string has already been accounted for by the current node,
                // whose prefix is equal to the whole string
                proof {
                    assert(stored[cs] == self.chars@[cs]@);
                    assert(p.is_prefix_of(stored[cs]));
                    assert forall|q: Seq<char>, k: int| start <= k < cs + 1 && proper_prefix(p, q) && #[trigger] q.is_prefix_of(stored[k])
                        implies exists|j: int| id0 < j < *node_id && #[trigger] self.prefixes@[j] == q by {
                        if k == cs {
                            assert(q.len() <= stored[cs].len());
                        }
                    }
                    lemma_suffix_total_split(stored, start as int, cs, cs + 1, d);
                    lemma_suffix_total_split(stored, cs + 1, cs + 1, cs + 1, d);
                }
                child_start = child_start + 1;
            }
        }
        // node_id is now one greater than the id of the last node in the subtree of the current node
        let final_node = Node::<u8, u32> {
            character: last_char,
            descendant_range: Range { start: current_id as u32 + 1, end: *node_id as u32 },
            string_range: Range { start: start as u32, end: end as u32 },
            depth,
        };
        let ghost before = *self;
        self.nodes.set(current_id, final_node);
        proof {
            let id1 = *node_id as int;
            assert(self.stored() == stored);
            assert forall|j: int| 0 <= j < id1 && j != id0 implies #[trigger] self.nodes@[j] == before.nodes@[j] by {}
            assert(self.nodes@.take(id0) =~= old_nodes) by {
                assert(self.nodes@.take(id0) =~= before.nodes@.take(id0));
            }
            assert(self.node_fields_in(id0, start as int, end as int));
            assert forall|j: int| id0 <= j < id1 implies #[trigger] self.node_fields_in(j, start as int, end as int) by {
                if j > id0 {
                    assert(before.node_fields_in(j, start as int, end as int));
                }
            }
            assert forall|j: int| id0 < j < id1 implies #[trigger] self.strings_of(j).0 < self.strings_of(j).1 by {
                assert(before.strings_of(j).0 < before.strings_of(j).1);
            }
            assert forall|j: int| id0 <= j < id1 implies #[trigger] self.desc_ok_within(j, id0, id1) by {
                if j > id0 {
                    assert(before.desc_ok_within(j, id0 + 1, id1));
                    assert(proper_prefix(p, self.prefixes@[j]));
                } else {
                    assert forall|m: int| id0 <= m < id1 implies ((j < m < id1)
                        <==> #[trigger] proper_prefix(self.prefixes@[j], self.prefixes@[m])) by {
                        if m > id0 {
                            assert(proper_prefix(p, self.prefixes@[m]));
                        }
                    }
                }
            }
            assert forall|j: int| id0 <= j < id1 implies p.is_prefix_of(#[trigger] self.prefixes@[j]) by {
                if j == id0 {
                    assert(p.subrange(0, p.len() as int) =~= p);
                } else {
                    assert(proper_prefix(p, self.prefixes@[j]));
                }
            }
            assert forall|j: int, m: int| #![trigger self.prefixes@[j], self.prefixes@[m]]
                id0 <= j < id1 && id0 <= m < id1 && j != m implies self.prefixes@[j] != self.prefixes@[m] by {
                if j == id0 {
                    assert(proper_prefix(p, self.prefixes@[m]));
                } else if m == id0 {
                    assert(proper_prefix(p, self.prefixes@[j]));
                }
            }
            assert forall|j: int, m: int| #![trigger self.prefixes@[j], self.prefixes@[m]]
                id0 <= j < m < id1 implies lex_lt(self.prefixes@[j], self.prefixes@[m]) by {
                if j == id0 {
                    assert(proper_prefix(p, self.prefixes@[m]));
                    lemma_lex_lt_proper_prefix(p, self.prefixes@[m]);
                } else {
                    assert(lex_lt(before.prefixes@[j], before.prefixes@[m]));
                }
            }
            assert forall|q: Seq<char>, k: int| start <= k < end && p.is_prefix_of(q) && #[trigger] q.is_prefix_of(self.stored()[k])
                implies exists|j: int| id0 <= j < id1 && #[trigger] self.prefixes@[j] == q by {
                if q.len() == p.len() {
                    lemma_full_prefix(p, q);
                    assert(self.prefixes@[id0] == q);
                } else {
                    assert(proper_prefix(p, q));
                    let j = choose|j: int| id0 < j < id1 && #[trigger] before.prefixes@[j] == q;
                }
            }
        }
    }
}

/// The characters of each of a list of strings.
pub open spec fn string_views(v: Seq<String>) -> Seq<Seq<char>> {
    v.map_values(|s: String| s@)
}

/// Sums over ranges that hold the same strings are equal.
pub proof fn lemma_suffix_total_shift(s: Seq<Seq<char>>, t: Seq<Seq<char>>, lo: int, hi: int, off: int, depth: int)
    requires
        forall|k: int| lo <= k < hi ==> #[trigger] s[k] == t[k + off],
    ensures
        suffix_total(s, lo, hi, depth) == suffix_total(t, lo + off, hi + off, depth),
    decreases hi - lo,
{
    if lo < hi {
        lemma_suffix_total_shift(s, t, lo + 1, hi, off, depth);
    }
}

/// Inserting a string adds its length to the total number of characters.
pub proof fn lemma_total_chars_insert(s: Seq<Seq<char>>, p: int, x: Seq<char>)
    requires
        0 <= p <= s.len(),
    ensures
        total_chars(s.insert(p, x)) == total_chars(s) + x.len(),
{
    let t = s.insert(p, x);
    let n = s.len() as int;
    lemma_suffix_total_split(t, 0, p, n + 1, 0);
    lemma_suffix_total_split(t, p, p + 1, n + 1, 0);
    lemma_suffix_total_split(s, 0, p, n, 0);
    lemma_suffix_total_shift(s, t, 0, p, 0, 0);
    lemma_suffix_total_shift(s, t, p, n, 1, 0);
    lemma_suffix_total_split(t, p + 1, p + 1, p + 1, 0);
}

/// Returns the first index of a strictly sorted list whose string comes at or after `x`.
fn lower_bound(v: &Vec<Vec<char>>, x: &Vec<char>) -> (r: usize)
    requires
        strictly_sorted(char_views(v@)),
    ensures
        r <= v@.len(),
        forall|k: int| 0 <= k < r ==> lex_lt(#[trigger] v@[k]@, x@),
        forall|k: int| r <= k < v@.len() ==> lex_le(x@, #[trigger] v@[k]@),
{
    proof {
        crate::order::lemma_lex_le_total_ordering();
    }
    let mut low: usize = 0;
    let mut high: usize = v.len();
    while low < high
        invariant
            low <= high <= v@.len(),
            strictly_sorted(char_views(v@)),
            vstd::relations::total_ordering(|a: Seq<char>, b: Seq<char>| lex_le(a, b)),
            forall|k: int| 0 <= k < low ==> lex_lt(#[trigger] v@[k]@, x@),
            forall|k: int| high <= k < v@.len() ==> lex_le(x@, #[trigger] v@[k]@),
        decreases high - low,
    {
        let mid = low + (high - low) / 2;
        if crate::order::lex_le_chars(x.as_slice(), v[mid].as_slice()) {
            assert forall|k: int| mid <= k < v@.len() implies lex_le(x@, #[trigger] v@[k]@) by {
                if mid < k && k < high {
                    assert(char_views(v@)[mid as int] == v@[mid as int]@);
                    assert(char_views(v@)[k] == v@[k]@);
                    assert(lex_lt(v@[mid as int]@, v@[k]@));
                    crate::order::lemma_lex_le_transitive(x@, v@[mid as int]@, v@[k]@);
                }
            }
            high = mid;
        } else {
            assert(lex_lt(v@[mid as int]@, x@)) by {
                assert((|a: Seq<char>, b: Seq<char>| lex_le(a, b))(x@, v@[mid as int]@)
                    || (|a: Seq<char>, b: Seq<char>| lex_le(a, b))(v@[mid as int]@, x@));
            }
            assert forall|k: int| 0 <= k < mid + 1 implies lex_lt(#[trigger] v@[k]@, x@) by {
                if low <= k && k < mid {
                    assert(char_views(v@)[mid as int] == v@[mid as int]@);
                    assert(char_views(v@)[k] == v@[k]@);
                    assert(lex_lt(v@[k]@, v@[mid as int]@));
                    crate::order::lemma_lex_le_transitive(v@[k]@, v@[mid as int]@, x@);
                    if v@[k]@ == x@ {
                        lemma_lex_le_antisymmetric(v@[k]@, v@[mid as int]@);
                    }
                }
            }
            low = mid + 1;
        }
    }
    low
}

impl Trie<u8, u32> {
    /// Returns a trie over `source`, which it sorts and deduplicates; `len` is a capacity hint.
    ///
    /// Each stored string holds at most 255 characters (node depths are `u8`), and the
    /// total number of characters is below `u32::MAX` (node ids are `u32`).
    pub fn new(len: usize, source: Vec<String>) -> (trie: Self)
        requires
            len <= usize::MAX / 3,
            forall|i: int| 0 <= i < source@.len() ==> #[trigger] source@[i]@.len() <= 255,
            total_chars(string_views(source@)) < u32::MAX,
        ensures
            trie.wf(),
            trie.stored().to_set() == string_views(source@).to_set(),
            strictly_sorted(trie.stored()),
            string_views(trie.stored_strings()) == trie.stored(),
            trie.prefix_list().len() == trie.node_list().len(),
            strictly_sorted(trie.prefix_list()),
            trie.prefix_list().to_set() == trie_prefixes(trie.stored()),
            trie.layout_ok(),
    {
        let ghost sv = string_views(source@);
        let mut strings: Vec<String> = Vec::with_capacity(len);
        let mut chars: Vec<Vec<char>> = Vec::with_capacity(len);
        // sort and dedup to compute the `string_range` for each node using binary search
        let mut i: usize = 0;
        while i < source.len()
            invariant
                sv == string_views(source@),
                forall|i: int| 0 <= i < source@.len() ==> #[trigger] source@[i]@.len() <= 255,
                total_chars(sv) < u32::MAX,
                i <= source@.len(),
                chars@.len() == strings@.len(),
                forall|k: int| 0 <= k < strings@.len() ==> #[trigger] strings@[k]@ == chars@[k]@,
                strictly_sorted(char_views(chars@)),
                forall|k: int| 0 <= k < chars@.len() ==> #[trigger] chars@[k]@.len() <= 255,
                total_chars(char_views(chars@)) <= suffix_total(sv, 0, i as int, 0),
                forall|x: Seq<char>| char_views(chars@).contains(x) <==> exists|k: int| 0 <= k < i && #[trigger] sv[k] == x,
            decreases source@.len() - i,
        {
            let c = crate::levenshtein::to_char_vec(source[i].as_str());
            let p = lower_bound(&chars, &c);
            let ghost cv = char_views(chars@);
            proof {
                lemma_suffix_total_split(sv, 0, i as int, i + 1, 0);
                lemma_suffix_total_split(sv, i + 1, i + 1, i + 1, 0);
                assert(sv[i as int] == c@);
            }
            if p < chars.len() && crate::order::lex_le_chars(chars[p].as_slice(), c.as_slice()) {
                // already stored
                proof {
                    lemma_lex_le_antisymmetric(chars@[p as int]@, c@);
                    assert(cv[p as int] == c@);
                    assert forall|x: Seq<char>| cv.contains(x) <==> exists|k: int| 0 <= k < i + 1 && #[trigger] sv[k] == x by {
                        if x == c@ {
                            assert(cv[p as int] == x);
                        }
                    }
                }
            } else {
                let ghost x = c@;
                chars.insert(p, c);
                strings.insert(p, source[i].clone());
                proof {
                    let nv = char_views(chars@);
                    assert(nv =~= cv.insert(p as int, x));
                    cv.insert_ensures(p as int, x);
                    lemma_total_chars_insert(cv, p as int, x);
                    if p < cv.len() {
                        assert(lex_le(x, cv[p as int]));
                        assert(x != cv[p as int]);
                    }
                    assert forall|a: int, b: int| #![trigger nv[a], nv[b]] 0 <= a < b < nv.len() implies lex_lt(nv[a], nv[b]) by {
                        if a < p && b > p {
                            assert(lex_lt(cv[a], x));
                            assert(lex_le(x, cv[b - 1]));
                            crate::order::lemma_lex_le_transitive(cv[a], x, cv[b - 1]);
                            if cv[a] == cv[b - 1] {
                                lemma_lex_le_antisymmetric(cv[a], x);
                            }
                        } else if a == p && b > p {
                            assert(lex_le(x, cv[b - 1]));
                            if b - 1 > p {
                                assert(lex_lt(cv[p as int], cv[b - 1]));
                                crate::order::lemma_lex_le_transitive(x, cv[p as int], cv[b - 1]);
                                if x == cv[b - 1] {
                                    lemma_lex_le_antisymmetric(x, cv[p as int]);
                                }
                            }
                        } else if a < p && b == p {
                            assert(lex_lt(cv[a], x));
                        } else if a > p {
                            assert(lex_lt(cv[a - 1], cv[b - 1]));
                        } else {
                            assert(lex_lt(cv[a], cv[b]));
                        }
                    }
                    assert forall|y: Seq<char>| nv.contains(y) <==> exists|k: int| 0 <= k < i + 1 && #[trigger] sv[k] == y by {
                        if nv.contains(y) {
                            let m = choose|m: int| 0 <= m < nv.len() && nv[m] == y;
                            if m != p {
                                let mm = if m < p { m } else { m - 1 };
                                assert(cv[mm] == y);
                                assert(cv.contains(y));
                                let k = choose|k: int| 0 <= k < i && #[trigger] sv[k] == y;
                                assert(sv[k] == y);
                            } else {
                                assert(sv[i as int] == y);
                            }
                        }
                        if exists|k: int| 0 <= k < i + 1 && #[trigger] sv[k] == y {
                            let k = choose|k: int| 0 <= k < i + 1 && #[trigger] sv[k] == y;
                            if y == x {
                                assert(nv[p as int] == y);
                            } else {
                                assert(k < i);
                                assert(cv.contains(y));
                                let m = choose|m: int| 0 <= m < cv.len() && cv[m] == y;
                                if m < p {
                                    assert(nv[m] == y);
                                } else {
                                    assert(nv[m + 1] == y);
                                }
                            }
                        }
                    }
                    assert forall|k: int| 0 <= k < chars@.len() implies #[trigger] chars@[k]@.len() <= 255 by {
                        assert(chars@[k]@ == nv[k]);
                    }
                }
            }
            i = i + 1;
        }
        let ghost stored = char_views(chars@);
        proof {
            lemma_suffix_total_split(sv, 0, source@.len() as int, source@.len() as int, 0);
            lemma_only_first_empty(stored);
            if stored.len() > 0 {
                lemma_suffix_total_count(stored, 1, stored.len() as int);
                lemma_suffix_total_split(stored, 0, 1, stored.len() as int, 0);
            }
        }
        // rough estimate on the size of the trie
        let nodes: Vec<Node<u8, u32>> = Vec::with_capacity(3 * len);
        let mut trie = Self { nodes, strings, chars, prefixes: Ghost(Seq::empty()) };
        let end = trie.chars.len();
        let mut node_id: usize = 0;
        proof {
            assert(trie.stored() == stored);
            assert forall|k: int| 0 <= k < stored.len() implies #[trigger] Seq::<char>::empty().is_prefix_of(stored[k]) by {
                assert(stored[k].subrange(0, 0) =~= Seq::<char>::empty());
            }
        }
        // construct all nodes
        trie.init_nodes(&mut node_id, 0, Ghost(Seq::empty()), '\0', 0, end);
        proof {
            let n = trie.nodes@.len() as int;
            assert(trie.stored() == stored);
            assert forall|j: int| 0 <= j < n implies #[trigger] trie.node_fields_ok(j) by {
                assert(trie.node_fields_in(j, 0, end as int));
                if j > 0 {
                    assert(trie.strings_of(j).0 < trie.strings_of(j).1);
                }
            }
            assert forall|q: Seq<char>, k: int| 0 <= k < stored.len() && #[trigger] q.is_prefix_of(trie.stored()[k])
                implies exists|j: int| 0 <= j < n && #[trigger] trie.prefixes@[j] == q by {
                assert(Seq::<char>::empty().is_prefix_of(q)) by {
                    assert(q.subrange(0, 0) =~= Seq::<char>::empty());
                }
            }
            assert(stored.to_set() =~= sv.to_set()) by {
                assert forall|x: Seq<char>| stored.to_set().contains(x) <==> sv.to_set().contains(x) by {
                    if sv.contains(x) {
                        let k = choose|k: int| 0 <= k < sv.len() && sv[k] == x;
                    }
                }
            }
            assert(trie.storage_ok());
            assert(string_views(trie.stored_strings()) =~= trie.stored());
            trie.lemma_prefix_order();
            trie.lemma_layout_ok();
        }
        trie
    }
}

/// The prefixes that a trie over the strings `stored` has nodes for: the empty prefix and
/// every prefix of a stored string.
pub open spec fn trie_prefixes(stored: Seq<Seq<char>>) -> Set<Seq<char>> {
    Set::new(|q: Seq<char>| q.len() == 0 || exists|k: int| 0 <= k < stored.len() && #[trigger] q.is_prefix_of(stored[k]))
}

impl Trie<u8, u32> {
    /// The nodes, in order of their ids.
    pub closed spec fn node_list(&self) -> Seq<Node<u8, u32>> {
        self.nodes@
    }

    /// The prefixes of the nodes, in order of their ids.
    pub closed spec fn prefix_list(&self) -> Seq<Seq<char>> {
        self.prefixes@
    }

    /// The nodes of a well-formed trie stand for its prefixes in strictly increasing
    /// lexicographic order.
    pub proof fn lemma_prefix_order(&self)
        requires
            self.wf(),
        ensures
            self.prefix_list().len() == self.node_list().len(),
            strictly_sorted(self.prefix_list()),
            self.prefix_list().to_set() == trie_prefixes(self.stored()),
    {
        let n = self.nodes@.len() as int;
        let ps = self.prefixes@;
        assert forall|q: Seq<char>| ps.to_set().contains(q) <==> #[trigger] trie_prefixes(self.stored()).contains(q) by {
            if ps.to_set().contains(q) {
                assert(ps.contains(q));
                let j = choose|j: int| 0 <= j < n && ps[j] == q;
                assert(self.node_fields_ok(j));
                if q.len() > 0 {
                    let k = self.nodes@[j].string_range.start as int;
                    assert(q.is_prefix_of(self.stored()[k]));
                }
            }
            if trie_prefixes(self.stored()).contains(q) {
                if q.len() == 0 {
                    assert(q =~= ps[0]);
                    assert(ps.contains(ps[0]));
                } else {
                    let k = choose|k: int| 0 <= k < self.stored().len() && #[trigger] q.is_prefix_of(self.stored()[k]);
                    let j = choose|j: int| 0 <= j < n && #[trigger] self.prefixes@[j] == q;
                    assert(ps.contains(ps[j]));
                }
            }
        }
        assert(ps.to_set() =~= trie_prefixes(self.stored()));
    }

    /// The node of prefix `p`, with its string range and descendant end, is fixed by `p`, the
    /// stored strings and the prefixes of all nodes.
    proof fn lemma_node_fixed(t1: &Self, t2: &Self, j: int)
        requires
            t1.wf(),
            t2.wf(),
            t1.stored() == t2.stored(),
            t1.prefixes@ == t2.prefixes@,
            0 <= j < t1.nodes@.len(),
        ensures
            t1.nodes@[j] == t2.nodes@[j],
    {
        let n = t1.nodes@.len() as int;
        let a = t1.nodes@[j];
        let b = t2.nodes@[j];
        let p = t1.prefixes@[j];
        let len = t1.stored().len() as int;
        assert(t1.node_fields_ok(j) && t2.node_fields_ok(j));
        assert(t1.desc_ok_within(j, 0, n) && t2.desc_ok_within(j, 0, n));
        let s1 = a.string_range.start as int;
        let e1 = a.string_range.end as int;
        let s2 = b.string_range.start as int;
        let e2 = b.string_range.end as int;
        if s1 < e1 && s2 < e2 {
            assert(p.is_prefix_of(t1.stored()[s1]));
            assert(p.is_prefix_of(t1.stored()[s2]));
            assert(p.is_prefix_of(t1.stored()[e1 - 1]));
            assert(p.is_prefix_of(t1.stored()[e2 - 1]));
        } else {
            assert(p.len() == 0);
            if len > 0 {
                assert(p.is_prefix_of(t1.stored()[0])) by {
                    assert(t1.stored()[0].subrange(0, 0) =~= p);
                }
            }
        }
        assert(a.string_range == b.string_range);
        let d1 = a.descendant_range.end as int;
        let d2 = b.descendant_range.end as int;
        if d1 < d2 {
            assert(proper_prefix(t2.prefixes@[j], t2.prefixes@[d1]));
        } else if d2 < d1 {
            assert(proper_prefix(t1.prefixes@[j], t1.prefixes@[d2]));
        }
        assert(a.descendant_range == b.descendant_range);
    }

    /// Tries over the same set of strings are laid out alike: two well-formed tries whose
    /// stored strings form the same set have the same stored strings, in the same order, and
    /// the same nodes, with the same ids.
    pub proof fn lemma_same_strings_same_nodes(t1: &Self, t2: &Self)
        requires
            t1.wf(),
            t2.wf(),
            t1.stored().to_set() == t2.stored().to_set(),
        ensures
            t1.stored() == t2.stored(),
            string_views(t1.stored_strings()) == string_views(t2.stored_strings()),
            t1.node_list() == t2.node_list(),
    {
        assert(string_views(t1.stored_strings()) =~= t1.stored());
        assert(string_views(t2.stored_strings()) =~= t2.stored());
        lemma_lex_lt_strict_total();
        let lt = lex_lt_order();
        assert forall|i: int, j: int| 0 <= i < j < t1.stored().len() implies lt(#[trigger] t1.stored()[i], #[trigger] t1.stored()[j]) by {
            assert(lex_lt(t1.stored()[i], t1.stored()[j]));
        }
        assert forall|i: int, j: int| 0 <= i < j < t2.stored().len() implies lt(#[trigger] t2.stored()[i], #[trigger] t2.stored()[j]) by {
            assert(lex_lt(t2.stored()[i], t2.stored()[j]));
        }
        lemma_increasing_unique(t1.stored(), t2.stored(), lt);
        t1.lemma_prefix_order();
        t2.lemma_prefix_order();
        assert forall|i: int, j: int| 0 <= i < j < t1.prefixes@.len() implies lt(#[trigger] t1.prefixes@[i], #[trigger] t1.prefixes@[j]) by {
            assert(lex_lt(t1.prefixes@[i], t1.prefixes@[j]));
        }
        assert forall|i: int, j: int| 0 <= i < j < t2.prefixes@.len() implies lt(#[trigger] t2.prefixes@[i], #[trigger] t2.prefixes@[j]) by {
            assert(lex_lt(t2.prefixes@[i], t2.prefixes@[j]));
        }
        lemma_increasing_unique(t1.prefixes@, t2.prefixes@, lt);
        assert forall|j: int| 0 <= j < t1.nodes@.len() implies #[trigger] t1.nodes@[j] == t2.nodes@[j] by {
            Self::lemma_node_fixed(t1, t2, j);
        }
        assert(t1.nodes@ =~= t2.nodes@);
    }
}

/// Inverted index from META: for each depth, the ids of the trie nodes at that depth by character.
pub(crate) struct InvertedIndex<UUU, SSS> {
    /// depth |-> (character code |-> node ids in the trie, increasing)
    index: Vec<HashMap<u32, Vec<SSS>>>,
    /// Marker for the type that bounds depths
    u_marker: PhantomData<UUU>,
}

/// A sequence of ids is strictly increasing.
pub open spec fn increasing_ids(v: Seq<u32>) -> bool {
    forall|a: int, b: int| #![trigger v[a], v[b]] 0 <= a < b < v.len() ==> v[a] < v[b]
}

impl Trie<u8, u32> {
    /// Node `j` sits at `depth` with character `c`.
    pub closed spec fn node_at(&self, j: int, depth: int, c: char) -> bool {
        &&& 0 <= j < self.nodes@.len()
        &&& self.nodes@[j].depth == depth
        &&& self.nodes@[j].character == c
    }

    /// Number of nodes.
    pub closed spec fn node_count(&self) -> nat {
        self.nodes@.len()
    }

    /// Depth of node `j` (length of its prefix).
    pub closed spec fn depth_of(&self, j: int) -> int {
        self.nodes@[j].depth as int
    }

    /// One past the last descendant of node `j`.
    pub closed spec fn descendants_end(&self, j: int) -> int {
        self.nodes@[j].descendant_range.end as int
    }

    /// The character of node `j`.
    pub closed spec fn character_of(&self, j: int) -> char {
        self.nodes@[j].character
    }

    /// The id of node `j` as the node records it (one before its first descendant).
    pub closed spec fn id_of(&self, j: int) -> int {
        self.nodes@[j].descendant_range.start - 1
    }

    /// The id of the first descendant of node `j`.
    pub closed spec fn first_descendant_of(&self, j: int) -> int {
        self.nodes@[j].descendant_range.start as int
    }

    /// The range of indices of the stored strings below node `j`.
    pub closed spec fn strings_of(&self, j: int) -> (int, int) {
        (self.nodes@[j].string_range.start as int, self.nodes@[j].string_range.end as int)
    }

    /// The layout of the trie. Node 0 is the root, of the empty prefix and character `'\0'`;
    /// the nodes stand for exactly the prefixes of the stored strings, each once, in
    /// increasing lexicographic order (a prefix before its extensions, children by ascending
    /// character); a node's depth and character are the length and last character of its
    /// prefix; each node records its own id, and its descendants are the nodes from id + 1 up
    /// to its descendant end, the pre-order block of exactly the nodes whose prefix extends its
    /// own; and its string range holds exactly the stored strings that its prefix begins.
    pub open spec fn layout_ok(&self) -> bool {
        let n = self.node_count();
        &&& 1 <= n
        &&& self.prefix_of(0).len() == 0
        &&& forall|j: int, m: int| #![trigger self.prefix_of(j), self.prefix_of(m)]
            0 <= j < m < n ==> lex_lt(self.prefix_of(j), self.prefix_of(m))
        &&& forall|q: Seq<char>, k: int| 0 <= k < self.stored().len() && #[trigger] q.is_prefix_of(self.stored()[k])
            ==> exists|j: int| 0 <= j < n && #[trigger] self.prefix_of(j) == q
        &&& forall|j: int| 0 <= j < n ==> #[trigger] self.depth_of(j) == self.prefix_of(j).len()
            && self.character_of(j) == if self.prefix_of(j).len() == 0 { '\0' } else { self.prefix_of(j).last() }
        &&& forall|j: int| 0 <= j < n ==> #[trigger] self.id_of(j) == j && self.first_descendant_of(j) == j + 1
            && j + 1 <= self.descendants_end(j) <= n
        &&& forall|j: int, m: int| 0 <= j < n && 0 <= m < n
            ==> ((j < m < #[trigger] self.descendants_end(j)) <==> proper_prefix(self.prefix_of(j), #[trigger] self.prefix_of(m)))
        &&& forall|j: int| 0 <= j < n ==> 0 <= #[trigger] self.strings_of(j).0 <= self.strings_of(j).1 <= self.stored().len()
            && (j > 0 ==> self.strings_of(j).0 < self.strings_of(j).1)
        &&& forall|j: int, k: int| 0 <= j < n && 0 <= k < self.stored().len()
            ==> ((self.strings_of(j).0 <= k < self.strings_of(j).1) <==> #[trigger] self.prefix_of(j).is_prefix_of(self.stored()[k]))
    }

    /// A well-formed trie has the layout of `layout_ok`.
    #[verifier::spinoff_prover]
    pub proof fn lemma_layout_ok(&self)
        requires
            self.wf(),
        ensures
            self.layout_ok(),
    {
        let n = self.nodes@.len() as int;
        assert forall|j: int| 0 <= j < n implies #[trigger] self.depth_of(j) == self.prefix_of(j).len()
            && self.character_of(j) == if self.prefix_of(j).len() == 0 { '\0' } else { self.prefix_of(j).last() } by {
            assert(self.node_fields_ok(j));
        }
        assert forall|j: int| 0 <= j < n implies #[trigger] self.id_of(j) == j && self.first_descendant_of(j) == j + 1
            && j + 1 <= self.descendants_end(j) <= n by {
            assert(self.desc_ok_within(j, 0, n));
        }
        assert forall|j: int, m: int| 0 <= j < n && 0 <= m < n
            implies ((j < m < #[trigger] self.descendants_end(j)) <==> proper_prefix(self.prefix_of(j), #[trigger] self.prefix_of(m))) by {
            assert(self.desc_ok_within(j, 0, n));
        }
        assert forall|j: int| 0 <= j < n implies 0 <= #[trigger] self.strings_of(j).0 <= self.strings_of(j).1 <= self.stored().len()
            && (j > 0 ==> self.strings_of(j).0 < self.strings_of(j).1) by {
            assert(self.node_fields_ok(j));
            if j > 0 && self.prefix_of(j).len() == 0 {
                assert(self.prefixes@[j] =~= self.prefixes@[0]);
            }
        }
        assert forall|j: int, k: int| 0 <= j < n && 0 <= k < self.stored().len()
            implies ((self.strings_of(j).0 <= k < self.strings_of(j).1) <==> #[trigger] self.prefix_of(j).is_prefix_of(self.stored()[k])) by {
            assert(self.node_fields_ok(j));
        }
        assert forall|q: Seq<char>, k: int| 0 <= k < self.stored().len() && #[trigger] q.is_prefix_of(self.stored()[k])
            implies exists|j: int| 0 <= j < n && #[trigger] self.prefix_of(j) == q by {
            let j = choose|j: int| 0 <= j < n && #[trigger] self.prefixes@[j] == q;
            assert(self.prefix_of(j) == q);
        }
        assert forall|j: int, m: int| #![trigger self.prefix_of(j), self.prefix_of(m)]
            0 <= j < m < n implies lex_lt(self.prefix_of(j), self.prefix_of(m)) by {
            assert(lex_lt(self.prefixes@[j], self.prefixes@[m]));
        }
    }
}

impl InvertedIndex<u8, u32> {
    /// The index lists, for every depth and character, exactly the nodes of `trie` there,
    /// in increasing order; its length is one more than the greatest depth.
    pub(crate) closed spec fn index_ok(&self, trie: &Trie<u8, u32>) -> bool {
        let n = trie.nodes@.len();
        &&& self.index@.len() >= 1
        &&& forall|j: int| 0 <= j < n ==> #[trigger] trie.nodes@[j].depth < self.index@.len()
        &&& exists|j: int| 0 <= j < n && #[trigger] trie.nodes@[j].depth == self.index@.len() - 1
        &&& forall|d: int, code: u32| #![trigger self.index@[d]@.contains_key(code)] 0 <= d < self.index@.len() ==> (
            self.index@[d]@.contains_key(code) <==> exists|j: int| 0 <= j < n && #[trigger] trie.nodes@[j].depth == d
                && char_code(trie.nodes@[j].character) == code)
        &&& forall|d: int, code: u32| #![trigger self.index@[d]@[code]] 0 <= d < self.index@.len() && self.index@[d]@.contains_key(code) ==> {
            let v = self.index@[d]@[code]@;
            &&& increasing_ids(v)
            &&& forall|x: u32| v.contains(x) <==> (x < n && trie.nodes@[x as int].depth == d && char_code(trie.nodes@[x as int].character) == code)
        }
    }
}

impl InvertedIndex<u8, u32> {
    /// Constructs an inverted index from depth to character to nodes using a trie
    fn new(trie: &Trie<u8, u32>) -> (index: Self)
        requires
            trie.wf(),
        ensures
            index.index_ok(trie),
    {
        let n = trie.nodes.len();
        let mut max_depth: usize = 0;
        let mut j: usize = 0;
        assert(trie.node_fields_ok(0));
        assert(trie.nodes@[0].depth == max_depth);
        while j < n
            invariant
                n == trie.nodes@.len(),
                trie.wf(),
                j <= n,
                max_depth <= 255,
                forall|k: int| 0 <= k < j ==> #[trigger] trie.nodes@[k].depth <= max_depth,
                exists|k: int| 0 <= k < n && #[trigger] trie.nodes@[k].depth == max_depth,
            decreases n - j,
        {
            if trie.nodes[j].depth as usize > max_depth {
                max_depth = trie.nodes[j].depth as usize;
            }
            j = j + 1;
        }
        let mut index: Vec<HashMap<u32, Vec<u32>>> = Vec::with_capacity(max_depth + 1);
        let mut d: usize = 0;
        while d <= max_depth
            invariant
                max_depth <= 255,
                d <= max_depth + 1,
                index@.len() == d,
                forall|e: int| 0 <= e < d ==> #[trigger] index@[e]@ == Map::<u32, Vec<u32>>::empty(),
            decreases max_depth + 1 - d,
        {
            index.push(HashMap::new());
            d = d + 1;
        }
        // put all nodes into the index at their depth and character
        let mut j: usize = 0;
        while j < n
            invariant
                n == trie.nodes@.len(),
                trie.wf(),
                j <= n,
                index@.len() == max_depth + 1,
                forall|k: int| 0 <= k < n ==> #[trigger] trie.nodes@[k].depth <= max_depth,
                forall|e: int, code: u32| #![trigger index@[e]@.contains_key(code)] 0 <= e < index@.len() ==> (
                    index@[e]@.contains_key(code) <==> exists|k: int| 0 <= k < j && #[trigger] trie.nodes@[k].depth == e
                        && char_code(trie.nodes@[k].character) == code),
                forall|e: int, code: u32| #![trigger index@[e]@[code]] 0 <= e < index@.len() && index@[e]@.contains_key(code) ==> {
                    let v = index@[e]@[code]@;
                    &&& increasing_ids(v)
                    &&& forall|x: u32| v.contains(x) ==> x < j
                    &&& forall|x: u32| v.contains(x) <==> (x < j && trie.nodes@[x as int].depth == e && char_code(trie.nodes@[x as int].character) == code)
                },
            decreases n - j,
        {
            let node = &trie.nodes[j];
            let depth = node.depth as usize;
            let code = node.character as u32;
            proof {
                assert(trie.desc_ok_within(j as int, 0, n as int));
            }
            let id = node.id() as u32;
            assert(id == j);
            let ghost before = index@;
            match index[depth].remove(&code) {
                Some(mut nodes) => {
                    nodes.push(id);
                    index[depth].insert(code, nodes);
                },
                None => {
                    let mut nodes: Vec<u32> = Vec::new();
                    nodes.push(id);
                    index[depth].insert(code, nodes);
                },
            }
            proof {
                assert(index@[depth as int]@.contains_key(code));
                if before[depth as int]@.contains_key(code) {
                    assert(index@[depth as int]@[code]@ == before[depth as int]@[code]@.push(id));
                } else {
                    assert(index@[depth as int]@[code]@ == seq![id]);
                }
                assert forall|e: int| 0 <= e < index@.len() && e != depth implies #[trigger] index@[e] == before[e] by {}
                let v = index@[depth as int]@[code]@;
                assert forall|x: u32| v.contains(x) <==> (x < j + 1 && trie.nodes@[x as int].depth == depth && char_code(trie.nodes@[x as int].character) == code) by {
                    assert(code == char_code(trie.nodes@[j as int].character));
                    assert(trie.nodes@[j as int].depth == depth);
                    if before[depth as int]@.contains_key(code) {
                        let old_v = before[depth as int]@[code]@;
                        assert(v =~= old_v.push(id));
                        if x == id {
                            assert(v[v.len() - 1] == x);
                        }
                        if v.contains(x) && x != id {
                            let i = choose|i: int| 0 <= i < v.len() && v[i] == x;
                            assert(old_v[i] == x);
                            assert(old_v.contains(x));
                        }
                        if x < j + 1 && trie.nodes@[x as int].depth == depth && char_code(trie.nodes@[x as int].character) == code && x != j {
                            assert(old_v.contains(x));
                            let i = choose|i: int| 0 <= i < old_v.len() && old_v[i] == x;
                            assert(v[i] == x);
                        }
                    } else {
                        assert(v =~= seq![id]);
                        if x == id {
                            assert(v[0] == x);
                        }
                        if v.contains(x) {
                            let i = choose|i: int| 0 <= i < v.len() && v[i] == x;
                            assert(x == id);
                        }
                        if x < j && trie.nodes@[x as int].depth == depth && char_code(trie.nodes@[x as int].character) == code {
                            assert(before[depth as int]@.contains_key(code));
                        }
                    }
                }
                if before[depth as int]@.contains_key(code) {
                    let old_v = before[depth as int]@[code]@;
                    assert forall|a: int, b: int| #![trigger v[a], v[b]] 0 <= a < b < v.len() implies v[a] < v[b] by {
                        if b == v.len() - 1 {
                            assert(old_v.contains(v[a]));
                        }
                    }
                }
            }
            j = j + 1;
        }
        Self { index, u_marker: PhantomData }
    }

    /// Returns the node ids with `depth` and `character`
    fn get(&self, depth: usize, character: char) -> (ids: Option<&Vec<u32>>)
        requires
            depth < self.index@.len(),
        ensures
            match ids {
                Some(v) => self.index@[depth as int]@.contains_key(character as u32)
                    && *v == self.index@[depth as int]@[character as u32],
                None => !self.index@[depth as int]@.contains_key(character as u32),
            },
    {
        self.index[depth].get(&(character as u32))
    }

    /// Returns maximum depth of nodes stored in the index
    fn max_depth(&self) -> (depth: usize)
        requires
            self.index@.len() >= 1,
        ensures
            depth == self.index@.len() - 1,
    {
        self.index.len() - 1
    }
}

/// Structure that allows for autocompletion based on a string dataset
pub struct MetaAutocompleter<UUU = u8, SSS = u32> {
    pub trie: Trie<UUU, SSS>,
    pub(crate) inverted_index: InvertedIndex<UUU, SSS>,
}

/// Returns the first position of a strictly increasing list whose id is at least `bound`.
fn partition_ids(ids: &Vec<u32>, bound: u32) -> (r: usize)
    requires
        increasing_ids(ids@),
    ensures
        r <= ids@.len(),
        forall|k: int| 0 <= k < r ==> #[trigger] ids@[k] < bound,
        forall|k: int| r <= k < ids@.len() ==> #[trigger] ids@[k] >= bound,
{
    let mut low: usize = 0;
    let mut high: usize = ids.len();
    while low < high
        invariant
            low <= high <= ids@.len(),
            increasing_ids(ids@),
            forall|k: int| 0 <= k < low ==> #[trigger] ids@[k] < bound,
            forall|k: int| high <= k < ids@.len() ==> #[trigger] ids@[k] >= bound,
        decreases high - low,
    {
        let mid = low + (high - low) / 2;
        if ids[mid] < bound {
            assert forall|k: int| 0 <= k < mid + 1 implies #[trigger] ids@[k] < bound by {
                if k < mid {
                    assert(ids@[k] < ids@[mid as int]);
                }
            }
            low = mid + 1;
        } else {
            assert forall|k: int| mid <= k < ids@.len() implies #[trigger] ids@[k] >= bound by {
                if k > mid {
                    assert(ids@[mid as int] < ids@[k]);
                }
            }
            high = mid;
        }
    }
    low
}

impl MetaAutocompleter<u8, u32> {
    /// The trie and the inverted index agree and are well formed.
    #[verifier::opaque]
    pub closed spec fn wf(&self) -> bool {
        &&& self.trie.wf()
        &&& self.inverted_index.index_ok(&self.trie)
    }

    /// The stored strings, sorted and deduplicated, as characters.
    pub closed spec fn stored(&self) -> Seq<Seq<char>> {
        self.trie.stored()
    }

    /// Consequences of well-formedness that the searches use.
    proof fn lemma_wf_facts(&self)
        requires
            self.wf(),
        ensures
            self.inverted_index.index@.len() >= 1,
            0 <= self.max_depth_spec() <= 255,
            self.trie.node_count() >= 1,
            forall|j: int| 0 <= j < self.trie.node_count() ==> #[trigger] self.trie.depth_of(j) <= self.max_depth_spec(),
            forall|j: int, x: int| 0 <= j < self.trie.node_count() && j < x < #[trigger] self.trie.descendants_end(j)
                ==> #[trigger] self.trie.depth_of(x) > self.trie.depth_of(j) && x < self.trie.node_count(),
    {
        reveal(MetaAutocompleter::wf);
        let j0 = choose|j: int| 0 <= j < self.trie.nodes@.len() && #[trigger] self.trie.nodes@[j].depth == self.inverted_index.index@.len() - 1;
        let n = self.trie.nodes@.len() as int;
        assert forall|j: int, x: int| 0 <= j < self.trie.node_count() && j < x < #[trigger] self.trie.descendants_end(j)
            implies #[trigger] self.trie.depth_of(x) > self.trie.depth_of(j) && x < self.trie.node_count() by {
            assert(self.trie.desc_ok_within(j, 0, n));
            assert(x < n);
            assert(proper_prefix(self.trie.prefixes@[j], self.trie.prefixes@[x]));
            assert(self.trie.node_fields_ok(j));
            assert(self.trie.node_fields_ok(x));
        }
    }

    /// A well-formed autocompleter has a well-formed trie.
    pub(crate) proof fn lemma_trie_wf(&self)
        requires
            self.wf(),
        ensures
            self.trie.wf(),
            self.node_count() == self.trie.node_count(),
    {
        reveal(MetaAutocompleter::wf);
    }

    /// The depth of node `j` (the length of its prefix).
    pub closed spec fn node_depth(&self, j: int) -> int {
        self.trie.depth_of(j)
    }

    /// The range of indices of the stored strings below node `j`.
    pub closed spec fn node_strings(&self, j: int) -> (int, int) {
        (self.trie.nodes@[j].string_range.start as int, self.trie.nodes@[j].string_range.end as int)
    }

    /// The stored strings (sorted and deduplicated), as kept by the trie.
    pub closed spec fn stored_strings(&self) -> Seq<String> {
        self.trie.strings@
    }

    /// The accessors on the autocompleter read its trie.
    pub(crate) proof fn lemma_accessors(&self)
        ensures
            self.node_count() == self.trie.nodes@.len(),
            self.stored_strings() == self.trie.strings@,
            forall|j: int| #[trigger] self.node_depth(j) == self.trie.nodes@[j].depth,
            forall|j: int| #[trigger] self.node_strings(j) == (self.trie.nodes@[j].string_range.start as int,
                self.trie.nodes@[j].string_range.end as int),
    {
    }

    /// The string ranges of nodes lie within the stored strings, whose views are the
    /// characters of `stored()`.
    pub proof fn lemma_node_strings(&self)
        requires
            self.wf(),
        ensures
            self.stored_strings().len() == self.stored().len(),
            self.stored().len() <= u32::MAX,
            forall|i: int| 0 <= i < self.stored().len() ==> #[trigger] self.stored_strings()[i]@ == self.stored()[i],
            forall|j: int| 0 <= j < self.node_count() ==> 0 <= #[trigger] self.node_strings(j).0 <= self.node_strings(j).1 <= self.stored().len(),
            forall|j: int| 0 <= j < self.node_count() ==> 0 <= #[trigger] self.node_depth(j) <= 255,
    {
        reveal(MetaAutocompleter::wf);
        assert forall|j: int| 0 <= j < self.node_count() implies 0 <= #[trigger] self.node_strings(j).0 <= self.node_strings(j).1 <= self.stored().len() by {
            assert(self.trie.node_fields_ok(j));
        }
        assert forall|i: int| 0 <= i < self.stored().len() implies #[trigger] self.stored_strings()[i]@ == self.stored()[i] by {
            assert(self.trie.strings@[i]@ == self.trie.chars@[i]@);
        }
    }

    /// The number of nodes of the trie.
    pub closed spec fn node_count(&self) -> nat {
        self.trie.node_count()
    }

    /// The nodes of the trie, in order of their ids.
    pub closed spec fn node_list(&self) -> Seq<Node<u8, u32>> {
        self.trie.node_list()
    }

    /// Autocompleters over the same set of strings are laid out alike: their stored strings
    /// and their trie nodes, with their ids and prefixes, are the same.
    pub proof fn lemma_same_strings_same_nodes(a1: &Self, a2: &Self)
        requires
            a1.wf(),
            a2.wf(),
            a1.stored().to_set() == a2.stored().to_set(),
        ensures
            a1.stored() == a2.stored(),
            a1.node_list() == a2.node_list(),
            forall|j: int| 0 <= j < a1.node_count() ==> #[trigger] a1.node_prefix(j) == a2.node_prefix(j),
    {
        reveal(MetaAutocompleter::wf);
        Trie::lemma_same_strings_same_nodes(&a1.trie, &a2.trie);
        a1.trie.lemma_prefix_order();
        a2.trie.lemma_prefix_order();
        lemma_lex_lt_strict_total();
        let lt = lex_lt_order();
        assert forall|i: int, j: int| 0 <= i < j < a1.trie.prefixes@.len() implies lt(#[trigger] a1.trie.prefixes@[i], #[trigger] a1.trie.prefixes@[j]) by {
            assert(lex_lt(a1.trie.prefixes@[i], a1.trie.prefixes@[j]));
        }
        assert forall|i: int, j: int| 0 <= i < j < a2.trie.prefixes@.len() implies lt(#[trigger] a2.trie.prefixes@[i], #[trigger] a2.trie.prefixes@[j]) by {
            assert(lex_lt(a2.trie.prefixes@[i], a2.trie.prefixes@[j]));
        }
        lemma_increasing_unique(a1.trie.prefixes@, a2.trie.prefixes@, lt);
    }

    /// The character of node `j`: the last of its prefix (`'\0'` for the root).
    pub closed spec fn node_character(&self, j: int) -> char {
        self.trie.nodes@[j].character
    }

    /// One past the last descendant of node `j`.
    pub closed spec fn node_descendants_end(&self, j: int) -> int {
        self.trie.descendants_end(j)
    }

    /// The layout of the trie. Node 0 is the root, of the empty prefix; the nodes stand for
    /// exactly the prefixes of the stored strings, in increasing lexicographic order of their
    /// prefixes (a prefix before its extensions, children by ascending character), so that
    /// the stored strings fix the node ids; a node's depth and character are the length and
    /// last character of its prefix; its descendants are the nodes after it up to its
    /// descendant end, exactly those whose prefix extends its own; and its string range holds
    /// exactly the stored strings that its prefix begins.
    #[verifier::spinoff_prover]
    pub proof fn lemma_layout(&self)
        requires
            self.wf(),
        ensures
            1 <= self.node_count(),
            self.node_prefix(0).len() == 0,
            forall|j: int, m: int| #![trigger self.node_prefix(j), self.node_prefix(m)]
                0 <= j < m < self.node_count() ==> lex_lt(self.node_prefix(j), self.node_prefix(m)),
            forall|q: Seq<char>, k: int| 0 <= k < self.stored().len() && #[trigger] q.is_prefix_of(self.stored()[k])
                ==> exists|j: int| 0 <= j < self.node_count() && #[trigger] self.node_prefix(j) == q,
            forall|j: int| 0 <= j < self.node_count() ==> #[trigger] self.node_depth(j) == self.node_prefix(j).len()
                && self.node_character(j) == if self.node_prefix(j).len() == 0 { '\0' } else { self.node_prefix(j).last() },
            forall|j: int| 0 <= j < self.node_count() ==> 0 <= #[trigger] self.node_strings(j).0 <= self.node_strings(j).1 <= self.stored().len()
                && (j > 0 ==> self.node_strings(j).0 < self.node_strings(j).1),
            forall|j: int, k: int| 0 <= j < self.node_count() && 0 <= k < self.stored().len()
                ==> ((self.node_strings(j).0 <= k < self.node_strings(j).1) <==> #[trigger] self.node_prefix(j).is_prefix_of(self.stored()[k])),
            forall|j: int| 0 <= j < self.node_count() ==> j + 1 <= #[trigger] self.node_descendants_end(j) <= self.node_count(),
            forall|j: int, m: int| 0 <= j < self.node_count() && 0 <= m < self.node_count()
                ==> ((j < m < #[trigger] self.node_descendants_end(j)) <==> proper_prefix(self.node_prefix(j), #[trigger] self.node_prefix(m))),
    {
        reveal(MetaAutocompleter::wf);
        self.lemma_prefix_facts();
        let t = self.trie;
        let n = t.nodes@.len() as int;
        assert forall|j: int| 0 <= j < self.node_count() implies #[trigger] self.node_depth(j) == self.node_prefix(j).len()
            && self.node_character(j) == if self.node_prefix(j).len() == 0 { '\0' } else { self.node_prefix(j).last() } by {
            assert(t.node_fields_ok(j));
        }
        assert forall|j: int| 0 <= j < self.node_count() implies 0 <= #[trigger] self.node_strings(j).0 <= self.node_strings(j).1 <= self.stored().len()
            && (j > 0 ==> self.node_strings(j).0 < self.node_strings(j).1) by {
            assert(t.node_fields_ok(j));
            if j > 0 {
                assert(self.node_prefix(j).len() > 0);
            }
        }
        assert forall|q: Seq<char>, k: int| 0 <= k < self.stored().len() && #[trigger] q.is_prefix_of(self.stored()[k])
            implies exists|j: int| 0 <= j < self.node_count() && #[trigger] self.node_prefix(j) == q by {
            assert(t.stored() == self.stored());
            let j = choose|j: int| 0 <= j < n && #[trigger] t.prefixes@[j] == q;
            assert(self.node_prefix(j) == q);
        }
        assert forall|j: int, k: int| 0 <= j < self.node_count() && 0 <= k < self.stored().len()
            implies ((self.node_strings(j).0 <= k < self.node_strings(j).1) <==> #[trigger] self.node_prefix(j).is_prefix_of(self.stored()[k])) by {
            assert(t.node_fields_ok(j));
        }
        assert forall|j: int| 0 <= j < self.node_count() implies j + 1 <= #[trigger] self.node_descendants_end(j) <= self.node_count() by {
            assert(t.desc_ok_within(j, 0, n));
        }
        assert forall|j: int, m: int| 0 <= j < self.node_count() && 0 <= m < self.node_count()
            implies ((j < m < #[trigger] self.node_descendants_end(j)) <==> proper_prefix(self.node_prefix(j), #[trigger] self.node_prefix(m))) by {
            assert(self.node_descendants_end(j) == t.descendants_end(j));
        }
    }

    /// The number of entries of the public list of stored strings.
    pub closed spec fn num_strings(&self) -> nat {
        self.trie.strings@.len()
    }

    /// The greatest depth of a node in the trie.
    pub closed spec fn max_depth_spec(&self) -> int {
        self.inverted_index.index@.len() - 1
    }

    /// Constructs an autocompleter given the string dataset `source` (sorted and deduplicated
    /// into its trie); `len` is a capacity hint.
    pub fn new(len: usize, source: Vec<String>) -> (autocompleter: Self)
        requires
            len <= usize::MAX / 3,
            forall|i: int| 0 <= i < source@.len() ==> #[trigger] source@[i]@.len() <= 255,
            total_chars(string_views(source@)) < u32::MAX,
        ensures
            autocompleter.wf(),
            autocompleter.stored().to_set() == string_views(source@).to_set(),
            strictly_sorted(autocompleter.stored()),
            string_views(autocompleter.stored_strings()) == autocompleter.stored(),
    {
        let trie = Trie::<u8, u32>::new(len, source);
        let inverted_index = InvertedIndex::<u8, u32>::new(&trie);
        let autocompleter = Self { trie, inverted_index };
        proof {
            reveal(MetaAutocompleter::wf);
        }
        autocompleter
    }

    /// Returns the number of stored strings.
    pub fn len(&self) -> (n: usize)
        ensures
            n == self.num_strings(),
            self.wf() ==> n == self.stored().len(),
    {
        proof {
            reveal(MetaAutocompleter::wf);
        }
        self.trie.strings.len()
    }

    /// Returns, in increasing order, the descendants of node `node` at `depth` whose
    /// character is `character` (the nodes the inverted index lists there within the
    /// node's descendant range).
    fn traverse_inverted_index(&self, node: usize, depth: usize, character: char) -> (ids: Vec<usize>)
        requires
            self.wf(),
            node < self.trie.node_count(),
            depth <= self.max_depth_spec(),
        ensures
            forall|a: int, b: int| #![trigger ids@[a], ids@[b]] 0 <= a < b < ids@.len() ==> ids@[a] < ids@[b],
            forall|x: usize| ids@.contains(x) <==> (node < x < self.trie.descendants_end(node as int)
                && self.trie.node_at(x as int, depth as int, character)),
    {
        proof {
            reveal(MetaAutocompleter::wf);
        }
        let ghost n = self.trie.nodes@.len();
        let mut ids: Vec<usize> = Vec::new();
        let current = &self.trie.nodes[node];
        proof {
            assert(self.trie.desc_ok_within(node as int, 0, n as int));
        }
        match self.inverted_index.get(depth, character) {
            Some(nodes) => {
                let ghost code = character as u32;
                assert(self.inverted_index.index@[depth as int]@.contains_key(code));
                // the index where the first descendant of the node would be
                let start = partition_ids(nodes, current.first_descendant_id() as u32);
                // the index where the first node after all descendants would be
                let end = partition_ids(nodes, current.descendant_range.end);
                if start > end {
                    assert(nodes@[end as int] < node + 1);
                }
                let mut k = start;
                while k < end
                    invariant
                        start <= k <= end,
                        end <= nodes@.len(),
                        increasing_ids(nodes@),
                        forall|a: int| 0 <= a < start ==> #[trigger] nodes@[a] < node + 1,
                        forall|a: int| end <= a < nodes@.len() ==> #[trigger] nodes@[a] >= current.descendant_range.end,
                        ids@.len() == k - start,
                        forall|a: int| 0 <= a < ids@.len() ==> #[trigger] ids@[a] == nodes@[start + a],
                    decreases end - k,
                {
                    ids.push(nodes[k] as usize);
                    k = k + 1;
                }
                proof {
                    let v = nodes@;
                    assert(forall|x: u32| v.contains(x) <==> (x < n && self.trie.nodes@[x as int].depth == depth
                        && char_code(self.trie.nodes@[x as int].character) == code));
                    assert forall|x: usize| ids@.contains(x) <==> (node < x < self.trie.descendants_end(node as int)
                        && self.trie.node_at(x as int, depth as int, character)) by {
                        if ids@.contains(x) {
                            let a = choose|a: int| 0 <= a < ids@.len() && ids@[a] == x;
                            assert(v.contains(v[start + a]));
                            assert(v[start + a] >= node + 1);
                            if start + a < end {
                                assert(v[start + a] < current.descendant_range.end);
                            }
                        }
                        if node < x < self.trie.descendants_end(node as int) && self.trie.node_at(x as int, depth as int, character) {
                            assert(v.contains(x as u32));
                            let i = choose|i: int| 0 <= i < v.len() && v[i] == x as u32;
                            assert(start <= i < end);
                            assert(ids@[i - start] == x);
                        }
                    }
                }
            },
            None => {
                proof {
                    assert forall|x: usize| !(node < x < self.trie.descendants_end(node as int)
                        && self.trie.node_at(x as int, depth as int, character)) by {
                        if node < x < self.trie.descendants_end(node as int) && self.trie.node_at(x as int, depth as int, character) {
                            assert(self.inverted_index.index@[depth as int]@.contains_key(character as u32));
                        }
                    }
                }
            },
        }
        ids
    }
}

/// Index of a node in the trie
pub type NodeID = usize;

/// A matching from META: a prefix of the query of length `query_prefix_len` matches
/// the prefix of trie node `node` within `edit_distance`.
#[derive(Clone, Copy)]
pub(crate) struct Matching<UUU>
    where
        UUU: Clone,
{
    pub(crate) query_prefix_len: UUU,
    pub(crate) node: NodeID,
    pub(crate) edit_distance: UUU,
}

/// The smaller of two integers.
pub open spec fn min_int(a: int, b: int) -> int {
    if a <= b { a } else { b }
}

/// The larger of two integers.
pub open spec fn max_int(a: int, b: int) -> int {
    if a >= b { a } else { b }
}

/// `a - b`, or 0 when `b` exceeds `a`.
pub open spec fn sat_sub(a: int, b: int) -> int {
    if a >= b { a - b } else { 0 }
}

/// The bound of Matching::deduced_edit_distance: the edit distance of the matching plus
/// the larger of the remaining query length and the remaining stored length.
pub open spec fn deduced_ed(edit_distance: int, query_prefix_len: int, node_depth: int, query_len: int, stored_len: int) -> int {
    edit_distance + max_int(sat_sub(query_len, query_prefix_len), sat_sub(stored_len, node_depth))
}

/// The deduced edit distance bounds the edit distance: if the first `query_prefix_len`
/// characters of `query` are within `edit_distance` of a prefix `node_prefix` of `stored`,
/// then the first `query_len` characters of `query` are within the deduced edit distance of
/// the first `stored_len` characters of `stored`, for every longer `query_len` and `stored_len`.
pub proof fn lemma_deduced_ed_bound(query: Seq<char>, stored: Seq<char>, node_prefix: Seq<char>,
    query_prefix_len: int, edit_distance: int, query_len: int, stored_len: int)
    requires
        0 <= query_prefix_len <= query_len <= query.len(),
        node_prefix.is_prefix_of(stored),
        node_prefix.len() <= stored_len <= stored.len(),
        crate::levenshtein::lev(query.take(query_prefix_len), node_prefix) <= edit_distance,
    ensures
        crate::levenshtein::lev(query.take(query_len), stored.take(stored_len))
            <= deduced_ed(edit_distance, query_prefix_len, node_prefix.len() as int, query_len, stored_len),
{
    let x = query.subrange(query_prefix_len, query_len);
    let y = stored.subrange(node_prefix.len() as int, stored_len);
    assert(query.take(query_prefix_len) + x =~= query.take(query_len));
    assert(node_prefix + y =~= stored.take(stored_len));
    crate::levenshtein::lemma_lev_extend(query.take(query_prefix_len), node_prefix, x, y);
}

/// `a - b`, or 0 when `b` exceeds `a`.
fn saturating_sub(a: usize, b: usize) -> (r: usize)
    ensures
        r == sat_sub(a as int, b as int),
{
    if a >= b { a - b } else { 0 }
}

/// The distance between `a` and `b`.
fn abs_diff(a: usize, b: usize) -> (r: usize)
    ensures
        r == if a >= b { a - b } else { b - a },
{
    if a >= b { a - b } else { b - a }
}

impl Matching<u8> {
    /// Returns an upper bound on the edit distance between the query and a prefix of length `stored_len` that intersects
    /// with the matching node's prefix
    fn deduced_edit_distance(&self, query_len: usize, stored_len: usize, nodes: &Vec<Node<u8, u32>>) -> (d: usize)
        requires
            self.node < nodes@.len(),
            query_len <= 255,
            stored_len <= 255,
        ensures
            d == deduced_ed(self.edit_distance as int, self.query_prefix_len as int, nodes@[self.node as int].depth as int,
                query_len as int, stored_len as int),
            d <= 510,
    {
        let a = saturating_sub(query_len, self.query_prefix_len as usize);
        let b = saturating_sub(stored_len, nodes[self.node].depth as usize);
        self.edit_distance as usize + if a >= b { a } else { b }
    }

    /// Returns an upper bound on the edit distance between the query and the matching node's prefix
    fn deduced_prefix_edit_distance(&self, query_len: usize) -> (d: usize)
        requires
            query_len <= 255,
        ensures
            d == self.edit_distance + sat_sub(query_len as int, self.query_prefix_len as int),
    {
        self.edit_distance as usize + saturating_sub(query_len, self.query_prefix_len as usize)
    }
}

/// A set of matchings: maps the query prefix length and node of each matching to its edit distance.
#[derive(Debug, Clone)]
pub struct MatchingSet<UUU>
    where
        UUU: Clone,
{
    /// Maps the first two parts of a matching to the edit distance
    pub matchings: BTreeMap<(UUU, NodeID), UUU>,
}

impl View for MatchingSet<u8> {
    type V = Map<(u8, NodeID), u8>;

    open spec fn view(&self) -> Map<(u8, NodeID), u8> {
        self.matchings@
    }
}

impl Default for MatchingSet<u8> {
    fn default() -> (set: Self)
        ensures
            set@ == Map::<(u8, NodeID), u8>::empty(),
    {
        MatchingSet { matchings: BTreeMap::new() }
    }
}

/// Merging two matching sets keeps every key of either, with the smaller edit distance
/// where both have it.
pub open spec fn merge_min(a: Map<(u8, NodeID), u8>, b: Map<(u8, NodeID), u8>) -> Map<(u8, NodeID), u8> {
    Map::new(
        |k: (u8, NodeID)| a.contains_key(k) || b.contains_key(k),
        |k: (u8, NodeID)| if a.contains_key(k) && b.contains_key(k) {
            if a[k] <= b[k] { a[k] } else { b[k] }
        } else if a.contains_key(k) {
            a[k]
        } else {
            b[k]
        },
    )
}

/// Merging keeps the matchings within the nodes of a trie.
pub proof fn lemma_merge_min_below(a: Map<(u8, NodeID), u8>, b: Map<(u8, NodeID), u8>, count: nat)
    requires
        set_nodes_below(a, count),
        set_nodes_below(b, count),
    ensures
        set_nodes_below(merge_min(a, b), count),
{
    assert forall|k: (u8, NodeID)| #[trigger] merge_min(a, b).contains_key(k) implies k.1 < count by {
        if a.contains_key(k) {
        } else {
            assert(b.contains_key(k));
        }
    }
}

/// The keys of matchings are ordered by query prefix length and then node.
pub open spec fn key_lt(a: (u8, NodeID), b: (u8, NodeID)) -> bool {
    a.0 < b.0 || (a.0 == b.0 && a.1 < b.1)
}

/// The map that inserting the matchings of `entries` in turn into an empty matching set
/// builds.
pub(crate) open spec fn inserted_all(entries: Seq<Matching<u8>>) -> Map<(u8, NodeID), u8>
    decreases entries.len(),
{
    if entries.len() == 0 {
        Map::empty()
    } else {
        inserted_all(entries.drop_last()).insert(entries.last().key(), entries.last().edit_distance)
    }
}

/// Inserting, in turn, matchings with distinct keys that are exactly the entries of `m`
/// builds `m`.
proof fn lemma_inserted_all(entries: Seq<Matching<u8>>, m: Map<(u8, NodeID), u8>)
    requires
        forall|a: int| #![trigger entries[a]] 0 <= a < entries.len() ==> m.contains_key(entries[a].key())
            && m[entries[a].key()] == entries[a].edit_distance,
        forall|k: (u8, NodeID)| m.contains_key(k) ==> exists|a: int| 0 <= a < entries.len() && #[trigger] entries[a].key() == k,
        forall|a: int, b: int| #![trigger entries[a], entries[b]] 0 <= a < b < entries.len() ==> entries[a].key() != entries[b].key(),
    ensures
        inserted_all(entries) == m,
    decreases entries.len(),
{
    if entries.len() == 0 {
        assert forall|k: (u8, NodeID)| !m.contains_key(k) by {
            if m.contains_key(k) {
                let a = choose|a: int| 0 <= a < entries.len() && #[trigger] entries[a].key() == k;
            }
        }
        assert(m =~= Map::empty());
    } else {
        let n = entries.len() - 1;
        let last = entries[n];
        let rest = entries.drop_last();
        let m2 = m.remove(last.key());
        assert forall|a: int| #![trigger rest[a]] 0 <= a < rest.len() implies m2.contains_key(rest[a].key())
            && m2[rest[a].key()] == rest[a].edit_distance by {
            assert(rest[a] == entries[a]);
            assert(entries[a].key() != entries[n].key());
        }
        assert forall|k: (u8, NodeID)| m2.contains_key(k) implies exists|a: int| 0 <= a < rest.len() && #[trigger] rest[a].key() == k by {
            let a = choose|a: int| 0 <= a < entries.len() && #[trigger] entries[a].key() == k;
            assert(a != n);
            assert(rest[a] == entries[a]);
        }
        assert forall|a: int, b: int| #![trigger rest[a], rest[b]] 0 <= a < b < rest.len() implies rest[a].key() != rest[b].key() by {
            assert(rest[a] == entries[a] && rest[b] == entries[b]);
        }
        lemma_inserted_all(rest, m2);
        assert(m2.insert(last.key(), last.edit_distance) =~= m);
    }
}

/// Keys that a map iteration yields in increasing order are ordered by `key_lt`.
proof fn lemma_increasing_keys_lt(keys: Seq<(u8, NodeID)>)
    requires
        vstd::std_specs::btree::increasing_seq(keys),
    ensures
        forall|a: int, b: int| 0 <= a < b < keys.len() ==> key_lt(#[trigger] keys[a], #[trigger] keys[b]),
{
    broadcast use vstd::std_specs::btree::group_btree_axioms;
    broadcast use vstd::laws_cmp::group_laws_cmp;
    assert(vstd::laws_cmp::obeys_cmp::<(u8, NodeID)>());
    vstd::std_specs::btree::axiom_increasing_seq_meaning(keys);
    assert forall|a: int, b: int| 0 <= a < b < keys.len() implies key_lt(#[trigger] keys[a], #[trigger] keys[b]) by {
        assert(vstd::std_specs::cmp::OrdSpec::cmp_spec(&keys[a], &keys[b]) is Less);
    }
}

impl MatchingSet<u8> {
    /// Builds a matching set from its map.
    pub fn new(matchings: BTreeMap<(u8, NodeID), u8>) -> (set: Self)
        ensures
            set@ == matchings@,
    {
        MatchingSet { matchings }
    }

    /// Inserts `matching` into the MatchingSet
    pub(crate) fn insert(&mut self, matching: Matching<u8>)
        ensures
            final(self)@ == old(self)@.insert((matching.query_prefix_len, matching.node), matching.edit_distance),
    {
        self.matchings.insert((matching.query_prefix_len, matching.node), matching.edit_distance);
    }

    /// Returns whether there is a matching for `query_prefix_len` and `node`
    pub(crate) fn contains(&self, query_prefix_len: u8, node: NodeID) -> (r: bool)
        ensures
            r == self@.contains_key((query_prefix_len, node)),
    {
        self.matchings.contains_key(&(query_prefix_len, node))
    }

    /// Returns a matching set with a matching for the root of the `trie` and an empty query
    pub(crate) fn new_trie(trie: &Trie<u8, u32>) -> (set: Self)
        requires
            trie.wf(),
        ensures
            set@ == Map::<(u8, NodeID), u8>::empty().insert((0u8, 0usize), 0u8),
    {
        let mut matchings = BTreeMap::<(u8, NodeID), u8>::new();
        let query_prefix_len: u8 = 0;
        let node = trie.root();
        proof {
            assert(trie.desc_ok_within(0, 0, trie.nodes@.len() as int));
        }
        let edit_distance: u8 = 0;
        matchings.insert((query_prefix_len, node.id()), edit_distance);
        Self { matchings }
    }

    /// Adds the matchings of `new`, keeping the smaller edit distance for a matching in both.
    pub(crate) fn extend(&mut self, new: &Self)
        ensures
            final(self)@ == merge_min(old(self)@, new@),
    {
        let ghost start = self@;
        let entries = new.iter();
        let mut i: usize = 0;
        while i < entries.len()
            invariant
                i <= entries@.len(),
                forall|a: int| #![trigger entries@[a]] 0 <= a < entries@.len() ==> new@.contains_key(entries@[a].key())
                    && new@[entries@[a].key()] == entries@[a].edit_distance,
                forall|k: (u8, NodeID)| new@.contains_key(k) ==> exists|a: int| 0 <= a < entries@.len() && #[trigger] entries@[a].key() == k,
                forall|a: int, b: int| #![trigger entries@[a], entries@[b]] 0 <= a < b < entries@.len() ==> entries@[a].key() != entries@[b].key(),
                self@ == merge_min(start, new@.restrict(Set::new(|k: (u8, NodeID)| exists|a: int| 0 <= a < i && #[trigger] entries@[a].key() == k))),
            decreases entries@.len() - i,
        {
            let e = entries[i];
            let k = (e.query_prefix_len, e.node);
            let v = e.edit_distance;
            let ghost before = self@;
            match self.matchings.get(&k) {
                Some(old_v) => {
                    let m = if *old_v <= v { *old_v } else { v };
                    self.matchings.insert(k, m);
                },
                None => {
                    self.matchings.insert(k, v);
                },
            }
            proof {
                let s0 = Set::new(|k: (u8, NodeID)| exists|a: int| 0 <= a < i && #[trigger] entries@[a].key() == k);
                let s1 = Set::new(|k: (u8, NodeID)| exists|a: int| 0 <= a < i + 1 && #[trigger] entries@[a].key() == k);
                assert(entries@[i as int].key() == k);
                assert(!s0.contains(k)) by {
                    if s0.contains(k) {
                        let a = choose|a: int| 0 <= a < i && #[trigger] entries@[a].key() == k;
                        assert(entries@[a].key() != entries@[i as int].key());
                    }
                }
                assert(s1 =~= s0.insert(k));
                assert(self@ =~= merge_min(start, new@.restrict(s1)));
            }
            i = i + 1;
        }
        proof {
            let s = Set::new(|k: (u8, NodeID)| exists|a: int| 0 <= a < entries@.len() && #[trigger] entries@[a].key() == k);
            assert(new@.restrict(s) =~= new@);
        }
    }

    /// Returns the matchings, ordered by query prefix length and then node.
    #[verifier::spinoff_prover]
    pub(crate) fn iter(&self) -> (entries: Vec<Matching<u8>>)
        ensures
            inserted_all(entries@) == self@,
            forall|a: int, b: int| 0 <= a < b < entries@.len() ==> key_lt(#[trigger] entries@[a].key(), #[trigger] entries@[b].key()),
            forall|a: int| #![trigger entries@[a]] 0 <= a < entries@.len() ==> self@.contains_key(entries@[a].key())
                && self@[entries@[a].key()] == entries@[a].edit_distance,
            forall|k: (u8, NodeID)| self@.contains_key(k) ==> exists|a: int| 0 <= a < entries@.len() && #[trigger] entries@[a].key() == k,
            forall|a: int, b: int| #![trigger entries@[a], entries@[b]] 0 <= a < b < entries@.len() ==> entries@[a].key() != entries@[b].key(),
    {
        broadcast use vstd::std_specs::btree::group_btree_axioms;
        broadcast use vstd::laws_cmp::group_laws_cmp;
        assert(vstd::laws_cmp::obeys_cmp::<(u8, NodeID)>());
        let mut entries: Vec<Matching<u8>> = Vec::new();
        let ghost pairs = vstd::std_specs::btree::spec_btree_map_iter(&self.matchings).remaining();
        for kv in it: self.matchings.iter()
            invariant
                it.seq() == pairs,
                entries@.len() == it.index(),
                forall|a: int| 0 <= a < entries@.len() ==> #[trigger] entries@[a].key() == *it.seq()[a].0
                    && entries@[a].edit_distance == *it.seq()[a].1,
        {
            let key = *kv.0;
            let edit_distance = *kv.1;
            entries.push(Matching { query_prefix_len: key.0, node: key.1, edit_distance });
        }
        proof {
            let keys = pairs.map_values(|kv: (&(u8, NodeID), &u8)| *kv.0);
            lemma_increasing_keys_lt(keys);
            assert forall|a: int, b: int| 0 <= a < b < entries@.len() implies key_lt(#[trigger] entries@[a].key(), #[trigger] entries@[b].key()) by {
                assert(entries@[a].key() == keys[a]);
                assert(entries@[b].key() == keys[b]);
            }
            assert(pairs.len() == entries@.len());
            assert forall|k: (u8, NodeID)| self@.contains_key(k) implies exists|a: int| 0 <= a < entries@.len() && #[trigger] entries@[a].key() == k by {
                assert(pairs.contains((&k, &self@[k])));
                let a = choose|a: int| 0 <= a < pairs.len() && pairs[a] == (&k, &self@[k]);
                assert(entries@[a].key() == k);
            }
            assert forall|a: int, b: int| #![trigger entries@[a], entries@[b]] 0 <= a < b < entries@.len() implies entries@[a].key() != entries@[b].key() by {
                if entries@[a].key() == entries@[b].key() {
                    assert(self@.contains_key(*pairs[a].0) && self@[*pairs[a].0] == *pairs[a].1);
                    assert(self@.contains_key(*pairs[b].0) && self@[*pairs[b].0] == *pairs[b].1);
                    assert(pairs[a] == pairs[b]);
                }
            }
        }
        proof {
            lemma_inserted_all(entries@, self@);
        }
        entries
    }
}

impl Matching<u8> {
    /// The key of the matching in a matching set.
    pub(crate) open spec fn key(&self) -> (u8, NodeID) {
        (self.query_prefix_len, self.node)
    }
}

/// Every matching of the set refers to a node of the trie.
pub open spec fn set_nodes_below(set: Map<(u8, NodeID), u8>, count: nat) -> bool {
    forall|k: (u8, NodeID)| #[trigger] set.contains_key(k) ==> k.1 < count
}

/// A witness of the first deduction (from P(i-1, b) to P(i, b)): matching `key` of `set`
/// extends to descendant `id` at `depth` carrying `character`.
pub type Witness = ((u8, NodeID), int, int);

impl MetaAutocompleter<u8, u32> {
    /// `(key, depth, id)` is a candidate of the first deduction for a query of length
    /// `query_len` whose last character is `character`, within edit distance `b`: matching
    /// `key` of `set` is within `b`, its query prefix within `b` of the query's last but one
    /// character, and node `id` is a descendant of the node of `key`, at `depth` within `b`
    /// of the query length and at most `b + 1` below that node, ending in `character`, with a
    /// deduced edit distance within `b`.
    #[verifier::opaque]
    pub open spec fn fd_witness(&self, set: Map<(u8, NodeID), u8>, character: char, query_len: int, b: int, t: Witness) -> bool {
        let key = t.0;
        let depth = t.1;
        let id = t.2;
        let nd = self.node_depth(key.1 as int);
        &&& set.contains_key(key)
        &&& set[key] <= b
        &&& sat_sub(query_len, 1 + b) <= key.0 <= sat_sub(query_len, 1)
        &&& key.1 < self.node_count()
        &&& nd + 1 <= depth <= min_int(nd + b + 1, self.max_depth_spec())
        &&& (if query_len >= depth { query_len - depth } else { depth - query_len }) <= b
        &&& key.1 < id < self.node_descendants_end(key.1 as int)
        &&& 0 <= id < self.node_count()
        &&& self.node_depth(id) == depth
        &&& self.node_character(id) == character
        &&& self.fd_value(set, query_len, t) <= b
    }

    /// The edit distance that the first deduction deduces from candidate `t`: the distance of
    /// its matching plus the larger of the query characters and the node characters after it.
    pub open spec fn fd_value(&self, set: Map<(u8, NodeID), u8>, query_len: int, t: Witness) -> int {
        deduced_ed(set[t.0] as int, t.0.0 as int, self.node_depth(t.0.1 as int), sat_sub(query_len, 1), sat_sub(t.1, 1))
    }

    /// `delta` holds, for each node reached by a candidate in `seen`, the smallest deduced distance.
    #[verifier::opaque]
    pub(crate) closed spec fn fd_delta_ok(&self, delta: Map<(u8, NodeID), u8>, set: Map<(u8, NodeID), u8>, character: char, query_len: int, b: int, seen: Set<Witness>) -> bool {
        &&& forall|t: Witness| #[trigger] seen.contains(t) ==> self.fd_witness(set, character, query_len, b, t)
        &&& forall|k: (u8, NodeID)| #[trigger] delta.contains_key(k) <==> (k.0 == query_len && exists|t: Witness| #[trigger] seen.contains(t) && t.2 == k.1)
        &&& forall|k: (u8, NodeID)| #[trigger] delta.contains_key(k) ==> (exists|t: Witness| #[trigger] seen.contains(t) && t.2 == k.1
                && self.fd_value(set, query_len, t) == delta[k])
            && (forall|t: Witness| #[trigger] seen.contains(t) && t.2 == k.1 ==> delta[k] <= self.fd_value(set, query_len, t))
    }

    /// The result of the first deduction: for every node reached by a candidate, the
    /// matching of query length `query_len` with the smallest deduced edit distance.
    pub open spec fn fd_result(&self, set: Map<(u8, NodeID), u8>, character: char, query_len: int, b: int) -> Map<(u8, NodeID), u8> {
        Map::new(
            |k: (u8, NodeID)| k.0 == query_len && exists|t: Witness| t.2 == k.1 && #[trigger] self.fd_witness(set, character, query_len, b, t),
            |k: (u8, NodeID)| choose|v: u8| #[trigger] self.fd_is_min(set, character, query_len, b, k.1, v as int),
        )
    }

    /// `v` is the smallest edit distance that a candidate deduces for node `node`.
    pub open spec fn fd_is_min(&self, set: Map<(u8, NodeID), u8>, character: char, query_len: int, b: int, node: NodeID, v: int) -> bool {
        &&& exists|t: Witness| t.2 == node && #[trigger] self.fd_witness(set, character, query_len, b, t)
            && self.fd_value(set, query_len, t) == v
        &&& forall|t: Witness| t.2 == node && #[trigger] self.fd_witness(set, character, query_len, b, t)
            ==> v <= self.fd_value(set, query_len, t)
    }

    /// A map that holds, for each node reached by a candidate, the smallest deduced edit
    /// distance is the result of the first deduction.
    proof fn lemma_fd_result(&self, delta: Map<(u8, NodeID), u8>, set: Map<(u8, NodeID), u8>, character: char, query_len: int, b: int)
        requires
            forall|k: (u8, NodeID)| #[trigger] delta.contains_key(k) <==> (k.0 == query_len
                && exists|t: Witness| t.2 == k.1 && #[trigger] self.fd_witness(set, character, query_len, b, t)),
            forall|k: (u8, NodeID)| #[trigger] delta.contains_key(k) ==> (exists|t: Witness| t.2 == k.1
                && #[trigger] self.fd_witness(set, character, query_len, b, t)
                && self.fd_value(set, query_len, t) == delta[k])
                && (forall|t: Witness| t.2 == k.1 && #[trigger] self.fd_witness(set, character, query_len, b, t)
                    ==> delta[k] <= self.fd_value(set, query_len, t)),
        ensures
            delta == self.fd_result(set, character, query_len, b),
    {
        let r = self.fd_result(set, character, query_len, b);
        assert forall|k: (u8, NodeID)| #[trigger] delta.contains_key(k) implies r.contains_key(k) && delta[k] == r[k] by {
            let v = delta[k];
            let t0 = choose|t: Witness| t.2 == k.1 && #[trigger] self.fd_witness(set, character, query_len, b, t)
                && self.fd_value(set, query_len, t) == v;
            let w = r[k];
            assert(self.fd_is_min(set, character, query_len, b, k.1, v as int));
            let t1 = choose|t: Witness| t.2 == k.1 && #[trigger] self.fd_witness(set, character, query_len, b, t)
                && self.fd_value(set, query_len, t) == w;
            assert(w <= self.fd_value(set, query_len, t0));
            assert(v <= self.fd_value(set, query_len, t1));
        }
        assert(delta =~= r);
    }

    /// Extending the set from P(i-1,b) to P(i,b): returns the matchings of query length
    /// `query_len` (whose last character is `character`) deduced from `set`, each with the
    /// smallest deduced edit distance.
    pub(crate) fn first_deducing(&self, set: &MatchingSet<u8>, character: char, query_len: usize, b: usize) -> (delta: MatchingSet<u8>)
        requires
            self.wf(),
            set_nodes_below(set@, self.trie.node_count()),
            query_len <= 255,
            b <= 255,
        ensures
            forall|k: (u8, NodeID)| #[trigger] delta@.contains_key(k) <==> (k.0 == query_len
                && exists|t: Witness| t.2 == k.1 && #[trigger] self.fd_witness(set@, character, query_len as int, b as int, t)),
            forall|k: (u8, NodeID)| #[trigger] delta@.contains_key(k) ==> (exists|t: Witness| t.2 == k.1
                && #[trigger] self.fd_witness(set@, character, query_len as int, b as int, t)
                && self.fd_value(set@, query_len as int, t) == delta@[k])
                && (forall|t: Witness| t.2 == k.1 && #[trigger] self.fd_witness(set@, character, query_len as int, b as int, t)
                    ==> delta@[k] <= self.fd_value(set@, query_len as int, t)),
            delta@ == self.fd_result(set@, character, query_len as int, b as int),
    {
        let ghost ql = query_len as int;
        let ghost bb = b as int;
        let mut delta = MatchingSet::default();
        let ghost mut seen: Set<Witness> = Set::empty();
        let entries = set.iter();
        proof {
            reveal(MetaAutocompleter::fd_delta_ok);
        }
        let mut i: usize = 0;
        while i < entries.len()
            invariant
                ql == query_len as int,
                bb == b as int,
                self.wf(),
                set_nodes_below(set@, self.trie.node_count()),
                query_len <= 255,
                b <= 255,
                i <= entries@.len(),
                forall|a: int| #![trigger entries@[a]] 0 <= a < entries@.len() ==> set@.contains_key(entries@[a].key())
                    && set@[entries@[a].key()] == entries@[a].edit_distance,
                forall|k: (u8, NodeID)| set@.contains_key(k) ==> exists|a: int| 0 <= a < entries@.len() && #[trigger] entries@[a].key() == k,
                self.fd_delta_ok(delta@, set@, character, ql, bb, seen),
                forall|t: Witness| #[trigger] self.fd_witness(set@, character, ql, bb, t)
                    && (exists|a: int| 0 <= a < i && #[trigger] entries@[a].key() == t.0) ==> seen.contains(t),
            decreases entries@.len() - i,
        {
            let m1 = entries[i];
            let ghost key1 = m1.key();
            let ghost before_seen = seen;
            let new_seen = self.fd_process_matching(&mut delta, Ghost(seen), set, character, query_len, b, m1);
            proof {
                seen = new_seen@;
                assert forall|t: Witness| #[trigger] self.fd_witness(set@, character, ql, bb, t)
                    && (exists|a: int| 0 <= a < i + 1 && #[trigger] entries@[a].key() == t.0) implies seen.contains(t) by {
                    let a = choose|a: int| 0 <= a < i + 1 && #[trigger] entries@[a].key() == t.0;
                    if a < i {
                        assert(before_seen.contains(t));
                    }
                }
            }
            i = i + 1;
        }
        proof {
            assert forall|t: Witness| #[trigger] self.fd_witness(set@, character, ql, bb, t) implies seen.contains(t) by {
                reveal(MetaAutocompleter::fd_witness);
                assert(set@.contains_key(t.0));
                let a = choose|a: int| 0 <= a < entries@.len() && #[trigger] entries@[a].key() == t.0;
            }
            reveal(MetaAutocompleter::fd_delta_ok);
            self.lemma_fd_result(delta@, set@, character, ql, bb);
        }
        delta
    }

    /// First deduction for the candidates that start from matching `m1`.
    fn fd_process_matching(
        &self,
        delta: &mut MatchingSet<u8>,
        seen: Ghost<Set<Witness>>,
        set: &MatchingSet<u8>,
        character: char,
        query_len: usize,
        b: usize,
        m1: Matching<u8>,
    ) -> (new_seen: Ghost<Set<Witness>>)
        requires
            self.wf(),
            set_nodes_below(set@, self.trie.node_count()),
            query_len <= 255,
            b <= 255,
            set@.contains_key(m1.key()),
            set@[m1.key()] == m1.edit_distance,
            self.fd_delta_ok(old(delta)@, set@, character, query_len as int, b as int, seen@),
        ensures
            self.fd_delta_ok(final(delta)@, set@, character, query_len as int, b as int, new_seen@),
            forall|t: Witness| #[trigger] seen@.contains(t) ==> new_seen@.contains(t),
            forall|t: Witness| #[trigger] self.fd_witness(set@, character, query_len as int, b as int, t) && t.0 == m1.key()
                ==> new_seen@.contains(t),
    {
        let ghost ql = query_len as int;
        let ghost bb = b as int;
        let ghost key1 = m1.key();
        let ghost mut cur = seen@;
        proof {
            self.lemma_wf_facts();
        }
        if m1.edit_distance as usize <= b && m1.query_prefix_len as usize >= saturating_sub(query_len, 1 + b)
            && m1.query_prefix_len as usize <= saturating_sub(query_len, 1) {
            assert(m1.node < self.trie.node_count());
            let m1_depth = self.trie.nodes[m1.node].depth as usize;
            assert(self.trie.depth_of(m1.node as int) == m1_depth);
            let max_d = self.inverted_index.max_depth();
            let upper = if m1_depth + b + 1 <= max_d { m1_depth + b + 1 } else { max_d };
            let mut depth = m1_depth + 1;
            proof {
                reveal(MetaAutocompleter::fd_witness);
            }
            while depth <= upper
                invariant
                    ql == query_len as int,
                    bb == b as int,
                    self.wf(),
                    set_nodes_below(set@, self.trie.node_count()),
                    query_len <= 255,
                    b <= 255,
                    key1 == m1.key(),
                    set@.contains_key(key1),
                    set@[key1] == m1.edit_distance,
                    m1.edit_distance <= b,
                    sat_sub(ql, 1 + bb) <= m1.query_prefix_len,
                    m1.query_prefix_len <= sat_sub(ql, 1),
                    m1_depth == self.trie.depth_of(m1.node as int),
                    m1.node < self.trie.node_count(),
                    upper == min_int(m1_depth + bb + 1, self.max_depth_spec()),
                    upper <= 255,
                    m1_depth + 1 <= depth <= upper + 1,
                    self.fd_delta_ok(delta@, set@, character, ql, bb, cur),
                    forall|t: Witness| #[trigger] seen@.contains(t) ==> cur.contains(t),
                    forall|t: Witness| #[trigger] self.fd_witness(set@, character, ql, bb, t)
                        && t.0 == key1 && t.1 < depth ==> cur.contains(t),
                decreases upper + 1 - depth,
            {
                // theorem ed-delta
                if abs_diff(query_len, depth) <= b {
                    let ids = self.traverse_inverted_index(m1.node, depth, character);
                    let ghost before = cur;
                    let next = self.fd_process_ids(delta, Ghost(cur), set, character, query_len, b, m1, depth, &ids);
                    proof {
                        cur = next@;
                    }
                } else {
                    proof {
                        reveal(MetaAutocompleter::fd_witness);
                    }
                }
                depth = depth + 1;
            }
        }
        proof {
            reveal(MetaAutocompleter::fd_witness);
        }
        Ghost(cur)
    }

    /// First deduction for the candidates from matching `m1` to the descendants `ids` at `depth`.
    fn fd_process_ids(
        &self,
        delta: &mut MatchingSet<u8>,
        seen: Ghost<Set<Witness>>,
        set: &MatchingSet<u8>,
        character: char,
        query_len: usize,
        b: usize,
        m1: Matching<u8>,
        depth: usize,
        ids: &Vec<usize>,
    ) -> (new_seen: Ghost<Set<Witness>>)
        requires
            self.wf(),
            query_len <= 255,
            b <= 255,
            set@.contains_key(m1.key()),
            set@[m1.key()] == m1.edit_distance,
            m1.edit_distance <= b,
            sat_sub(query_len as int, 1 + b) <= m1.query_prefix_len,
            m1.query_prefix_len <= sat_sub(query_len as int, 1),
            m1.node < self.trie.node_count(),
            self.trie.depth_of(m1.node as int) + 1 <= depth <= min_int(self.trie.depth_of(m1.node as int) + b + 1, self.max_depth_spec()),
            (if query_len >= depth { query_len - depth } else { depth - query_len }) <= b,
            forall|x: usize| ids@.contains(x) <==> (m1.node < x < self.trie.descendants_end(m1.node as int)
                && self.trie.node_at(x as int, depth as int, character)),
            self.fd_delta_ok(old(delta)@, set@, character, query_len as int, b as int, seen@),
        ensures
            self.fd_delta_ok(final(delta)@, set@, character, query_len as int, b as int, new_seen@),
            forall|t: Witness| #[trigger] seen@.contains(t) ==> new_seen@.contains(t),
            forall|t: Witness| #[trigger] self.fd_witness(set@, character, query_len as int, b as int, t)
                && t.0 == m1.key() && t.1 == depth ==> new_seen@.contains(t),
    {
        let ghost ql = query_len as int;
        let ghost bb = b as int;
        let ghost key1 = m1.key();
        let ghost mut cur = seen@;
        let mut k: usize = 0;
        while k < ids.len()
            invariant
                ql == query_len as int,
                bb == b as int,
                self.wf(),
                query_len <= 255,
                b <= 255,
                key1 == m1.key(),
                set@.contains_key(key1),
                set@[key1] == m1.edit_distance,
                m1.edit_distance <= b,
                sat_sub(ql, 1 + bb) <= m1.query_prefix_len,
                    m1.query_prefix_len <= sat_sub(ql, 1),
                m1.node < self.trie.node_count(),
                self.trie.depth_of(m1.node as int) + 1 <= depth <= min_int(self.trie.depth_of(m1.node as int) + bb + 1, self.max_depth_spec()),
                (if ql >= depth { ql - depth } else { depth - ql }) <= bb,
                k <= ids@.len(),
                forall|x: usize| ids@.contains(x) <==> (m1.node < x < self.trie.descendants_end(m1.node as int)
                    && self.trie.node_at(x as int, depth as int, character)),
                self.fd_delta_ok(delta@, set@, character, ql, bb, cur),
                forall|t: Witness| #[trigger] seen@.contains(t) ==> cur.contains(t),
                forall|t: Witness| #[trigger] self.fd_witness(set@, character, ql, bb, t)
                    && t.0 == key1 && t.1 == depth && (exists|c: int| 0 <= c < k && #[trigger] ids@[c] == t.2) ==> cur.contains(t),
            decreases ids@.len() - k,
        {
            let id = ids[k];
            assert(ids@.contains(id));
            // the depth of a node is equal to the length of its associated prefix
            let q1 = saturating_sub(query_len, 1);
            let s1 = saturating_sub(depth, 1);
            let ded = m1.deduced_edit_distance(q1, s1, &self.trie.nodes);
            let ghost t: Witness = (key1, depth as int, id as int);
            assert(self.trie.depth_of(m1.node as int) == self.trie.nodes@[m1.node as int].depth);
            assert(set@[t.0] == m1.edit_distance);
            assert(t.0.0 == m1.query_prefix_len);
            assert(ded == deduced_ed(m1.edit_distance as int, m1.query_prefix_len as int, self.trie.nodes@[m1.node as int].depth as int, q1 as int, s1 as int));
            assert(q1 == sat_sub(ql, 1));
            assert(s1 == sat_sub(t.1, 1));
            assert(ded == self.fd_value(set@, ql, t));
            if ded <= b {
                let ded = ded as u8;
                assert(self.fd_witness(set@, character, ql, bb, t)) by {
                    reveal(MetaAutocompleter::fd_witness);
                }
                fd_relax(delta, query_len as u8, id, ded, Ghost(cur), Ghost(t), Ghost(set@), Ghost(self), character, Ghost(bb));
                proof {
                    cur = cur.insert(t);
                }
            }
            proof {
                assert forall|u: Witness| #[trigger] self.fd_witness(set@, character, ql, bb, u)
                    && u.0 == key1 && u.1 == depth && (exists|c: int| 0 <= c < k + 1 && #[trigger] ids@[c] == u.2)
                    implies cur.contains(u) by {
                    let c = choose|c: int| 0 <= c < k + 1 && #[trigger] ids@[c] == u.2;
                    if c == k {
                        assert(u == t);
                        reveal(MetaAutocompleter::fd_witness);
                    }
                }
            }
            k = k + 1;
        }
        proof {
            assert forall|u: Witness| #[trigger] self.fd_witness(set@, character, ql, bb, u)
                && u.0 == key1 && u.1 == depth implies cur.contains(u) by {
                reveal(MetaAutocompleter::fd_witness);
                assert(ids@.contains(u.2 as usize));
                let c = choose|c: int| 0 <= c < ids@.len() && ids@[c] == u.2 as usize;
            }
        }
        Ghost(cur)
    }
}

/// Records candidate `t` with deduced distance `ded` for node `id`: keeps the smaller distance.
fn fd_relax(
    delta: &mut MatchingSet<u8>,
    query_len: u8,
    id: NodeID,
    ded: u8,
    seen: Ghost<Set<Witness>>,
    t: Ghost<Witness>,
    set: Ghost<Map<(u8, NodeID), u8>>,
    autocompleter: Ghost<&MetaAutocompleter<u8, u32>>,
    character: char,
    b: Ghost<int>,
)
    requires
        autocompleter@.fd_delta_ok(old(delta)@, set@, character, query_len as int, b@, seen@),
        autocompleter@.fd_witness(set@, character, query_len as int, b@, t@),
        t@.2 == id,
        autocompleter@.fd_value(set@, query_len as int, t@) == ded,
    ensures
        autocompleter@.fd_delta_ok(final(delta)@, set@, character, query_len as int, b@, seen@.insert(t@)),
{
    reveal(MetaAutocompleter::fd_delta_ok);
    let ghost ql = query_len as int;
    let ghost s = autocompleter@;
    let ghost seen = seen@;
    let ghost t = t@;
    let ghost set = set@;
    let key = (query_len, id);
    let ghost before = delta@;
    match delta.matchings.get(&key) {
        Some(old_ed) => {
            if ded < *old_ed {
                delta.matchings.insert(key, ded);
            }
        },
        None => {
            delta.matchings.insert(key, ded);
        },
    }
    proof {
        let new_seen = seen.insert(t);
        assert(delta@.contains_key(key));
        assert(forall|kk: (u8, NodeID)| kk != key ==> (delta@.contains_key(kk) == before.contains_key(kk)));
        assert forall|kk: (u8, NodeID)| #[trigger] delta@.contains_key(kk) <==> (kk.0 == ql
            && exists|u: Witness| #[trigger] new_seen.contains(u) && u.2 == kk.1) by {
            if kk == key {
                assert(new_seen.contains(t));
            } else {
                if kk.0 == ql && exists|u: Witness| #[trigger] new_seen.contains(u) && u.2 == kk.1 {
                    let u = choose|u: Witness| #[trigger] new_seen.contains(u) && u.2 == kk.1;
                    assert(u != t);
                    assert(seen.contains(u));
                    assert(before.contains_key(kk));
                }
                if delta@.contains_key(kk) {
                    assert(before.contains_key(kk));
                    let u = choose|u: Witness| #[trigger] seen.contains(u) && u.2 == kk.1;
                    assert(new_seen.contains(u));
                }
            }
        }
        assert forall|kk: (u8, NodeID)| #[trigger] delta@.contains_key(kk) implies (exists|u: Witness| #[trigger] new_seen.contains(u) && u.2 == kk.1
            && s.fd_value(set, ql, u) == delta@[kk])
            && (forall|u: Witness| #[trigger] new_seen.contains(u) && u.2 == kk.1 ==> delta@[kk] <= s.fd_value(set, ql, u)) by {
            if kk == key {
                if before.contains_key(key) {
                    let u0 = choose|u: Witness| #[trigger] seen.contains(u) && u.2 == kk.1
                        && s.fd_value(set, ql, u) == before[kk];
                    if ded < before[key] {
                        assert(new_seen.contains(t));
                    } else {
                        assert(new_seen.contains(u0));
                    }
                } else {
                    assert(new_seen.contains(t));
                    assert forall|u: Witness| #[trigger] new_seen.contains(u) && u.2 == kk.1 implies delta@[kk] <= s.fd_value(set, ql, u) by {
                        if u != t {
                            assert(seen.contains(u));
                            assert(before.contains_key(kk));
                        }
                    }
                }
            } else {
                assert(before.contains_key(kk));
                let u0 = choose|u: Witness| #[trigger] seen.contains(u) && u.2 == kk.1
                    && s.fd_value(set, ql, u) == before[kk];
                assert(new_seen.contains(u0));
            }
        }
    }
}

impl MetaAutocompleter<u8, u32> {
    /// `k` is a matching of `query`: a non-empty query prefix of length `k.0` and a node `k.1`
    /// other than the root whose prefix ends in the same character.
    pub open spec fn is_matching(&self, query: Seq<char>, k: (u8, NodeID)) -> bool {
        &&& 1 <= k.0 <= query.len()
        &&& 0 < k.1 < self.node_count()
        &&& self.node_prefix(k.1 as int).last() == query[k.0 - 1]
    }

    /// The edit distance of matching `k` of `query`: between the query prefix of length `k.0`
    /// and the prefix of node `k.1`.
    pub open spec fn matching_ed(&self, query: Seq<char>, k: (u8, NodeID)) -> nat {
        lev(query.take(k.0 as int), self.node_prefix(k.1 as int))
    }

    /// P(|query|, b): the matching of the root with the empty query prefix at edit distance 0,
    /// and every matching of `query` within edit distance `b`, with its edit distance.
    pub open spec fn matchings_within(&self, query: Seq<char>, b: int) -> Map<(u8, NodeID), u8> {
        Map::new(
            |k: (u8, NodeID)| k == (0u8, 0usize) || (self.is_matching(query, k) && self.matching_ed(query, k) <= b),
            |k: (u8, NodeID)| if k == (0u8, 0usize) { 0u8 } else { self.matching_ed(query, k) as u8 },
        )
    }

    /// Matching `m` of `set` leads the second deduction at edit distance `b` to matching `k`:
    /// `m` is within edit distance `b - 1`, its query prefix is shorter than that of `k`, and
    /// the node of `k` descends from the node of `m`.
    pub open spec fn sd_source(&self, set: Map<(u8, NodeID), u8>, m: (u8, NodeID), k: (u8, NodeID), b: int) -> bool {
        &&& set.contains_key(m)
        &&& set[m] < b
        &&& m.0 < k.0
        &&& m.1 < k.1 < self.node_descendants_end(m.1 as int)
    }

    /// The matchings that the second deduction at edit distance `b` can reach: those of the
    /// query prefixes of length at most `query_len` at edit distance exactly `b` that `set`
    /// lacks and that some matching of `set` leads to.
    pub open spec fn sd_reaches(&self, set: Map<(u8, NodeID), u8>, query: Seq<char>, query_len: int, b: int, k: (u8, NodeID)) -> bool {
        &&& k.0 <= query_len
        &&& self.is_matching(query, k)
        &&& self.matching_ed(query, k) == b
        &&& !set.contains_key(k)
        &&& exists|m: (u8, NodeID)| #[trigger] self.sd_source(set, m, k, b)
    }

    /// The result of the second deduction: every matching it reaches, at distance `b`.
    pub open spec fn sd_result(&self, set: Map<(u8, NodeID), u8>, query: Seq<char>, query_len: int, b: int) -> Map<(u8, NodeID), u8> {
        Map::new(
            |k: (u8, NodeID)| self.sd_reaches(set, query, query_len, b, k),
            |k: (u8, NodeID)| b as u8,
        )
    }

    /// The matchings accumulated by the first deductions over the characters of `chars`, from
    /// the matching of the root with the empty query: P(|chars|, 0) with every earlier delta.
    pub open spec fn fd_acc(&self, chars: Seq<char>) -> Map<(u8, NodeID), u8>
        decreases chars.len(),
    {
        if chars.len() == 0 {
            Map::<(u8, NodeID), u8>::empty().insert((0u8, 0usize), 0u8)
        } else {
            let prev = self.fd_acc(chars.drop_last());
            merge_min(prev, self.fd_result(prev, chars.last(), chars.len() as int, 0))
        }
    }

    /// The matching set assembled for a query of characters `chars`: the accumulated first
    /// deductions and, for a non-empty query, the second deductions at edit distances 1 and 2.
    pub open spec fn assemble_spec(&self, chars: Seq<char>) -> Map<(u8, NodeID), u8> {
        let a = self.fd_acc(chars);
        if chars.len() > 0 {
            let a1 = merge_min(a, self.sd_result(a, chars, chars.len() as int, 1));
            merge_min(a1, self.sd_result(a1, chars, chars.len() as int, 2))
        } else {
            a
        }
    }

    /// The first deduction only finds nodes of the trie.
    pub proof fn lemma_fd_result_below(&self, set: Map<(u8, NodeID), u8>, character: char, query_len: int, b: int)
        requires
            self.wf(),
            set_nodes_below(set, self.node_count()),
        ensures
            set_nodes_below(self.fd_result(set, character, query_len, b), self.node_count()),
    {
        self.lemma_wf_facts();
        assert(self.node_count() == self.trie.node_count());
        let r = self.fd_result(set, character, query_len, b);
        assert forall|k: (u8, NodeID)| #[trigger] r.contains_key(k) implies k.1 < self.node_count() by {
            let t = choose|t: Witness| t.2 == k.1 && #[trigger] self.fd_witness(set, character, query_len, b, t);
            reveal(MetaAutocompleter::fd_witness);
            assert(self.trie.depth_of(t.2) > self.trie.depth_of(t.0.1 as int));
        }
    }

    /// The matchings within an edit distance only hold nodes of the trie.
    pub proof fn lemma_within_below(&self, query: Seq<char>, b: int)
        requires
            self.wf(),
        ensures
            set_nodes_below(self.matchings_within(query, b), self.node_count()),
    {
        self.lemma_wf_facts();
    }

    /// P(|q|, 0) is what the first deductions accumulate: over the characters of a query of at
    /// most 255 characters they find exactly the matchings at edit distance 0.
    pub proof fn lemma_fd_acc_is_exact(&self, chars: Seq<char>)
        requires
            self.wf(),
            chars.len() <= 255,
        ensures
            self.fd_acc(chars) == self.matchings_within(chars, 0),
    {
        self.lemma_wf_facts();
        self.lemma_prefix_facts();
        self.lemma_fd_acc_exact(chars);
        let acc = self.fd_acc(chars);
        let mw = self.matchings_within(chars, 0);
        assert forall|k: (u8, NodeID)| acc.contains_key(k) <==> #[trigger] mw.contains_key(k) by {
            if acc.contains_key(k) {
                let p = self.node_prefix(k.1 as int);
                assert(p == chars.take(k.0 as int));
                if k.0 == 0 {
                    assert(k.1 == 0);
                } else {
                    assert(k.1 != 0);
                    lemma_lev_self(p);
                }
            }
            if mw.contains_key(k) {
                if k == (0u8, 0usize) {
                    assert(chars.take(0) =~= self.node_prefix(0));
                } else {
                    lemma_lev_zero(chars.take(k.0 as int), self.node_prefix(k.1 as int));
                }
            }
        }
        assert forall|k: (u8, NodeID)| #[trigger] acc.contains_key(k) implies acc[k] == mw[k] by {
            if k != (0u8, 0usize) {
                lemma_lev_self(self.node_prefix(k.1 as int));
            }
        }
        assert(acc =~= mw);
    }

    /// Every matching of `query` at edit distance `b >= 1` is led to by a matching within
    /// `b - 1` of a shorter query prefix, at an ancestor of its node.
    proof fn lemma_sd_source_exists(&self, query: Seq<char>, b: int, k: (u8, NodeID))
        requires
            self.wf(),
            query.len() <= 255,
            1 <= b,
            self.is_matching(query, k),
            self.matching_ed(query, k) == b,
        ensures
            exists|m: (u8, NodeID)| #[trigger] self.sd_source(self.matchings_within(query, b - 1), m, k, b),
    {
        self.lemma_wf_facts();
        self.lemma_prefix_facts();
        self.lemma_trie_wf();
        let p = self.matchings_within(query, b - 1);
        let i = k.0 as int;
        let qi = query.take(i);
        let pn = self.node_prefix(k.1 as int);
        let r = lemma_lev_earlier_match(qi, pn);
        let x = r.0;
        let y = r.1;
        let py = pn.take(y);
        assert(py.is_prefix_of(pn)) by {
            assert(pn.subrange(0, y) =~= py);
        }
        let j = choose|m: int| 0 <= m < self.trie.node_count() && #[trigger] self.node_prefix(m) == py;
        let m = (x as u8, j as NodeID);
        assert(m.0 as int == x && m.1 as int == j);
        assert(qi.take(x) =~= query.take(x));
        let v = lev(query.take(x), py);
        assert(self.trie.depth_of(j) <= self.max_depth_spec());
        crate::levenshtein::lemma_lev_upper_bound(query.take(x), py);
        if x == 0 {
            assert(py.len() == 0);
            assert(j == 0);
            assert(p.contains_key(m));
        } else {
            assert(py.len() > 0);
            assert(j != 0);
            assert(py.last() == pn[y - 1]);
            assert(qi[x - 1] == query[x - 1]);
            assert(self.is_matching(query, m));
            assert(self.matching_ed(query, m) == v);
            assert(p.contains_key(m));
            assert(p[m] as int == v);
        }
        assert(proper_prefix(py, pn));
        assert(self.node_descendants_end(j) == self.trie.descendants_end(j));
        assert(self.sd_source(p, m, k, b));
    }

    /// One second deduction takes P(|q|, b - 1) to P(|q|, b): what it adds to the matchings
    /// within edit distance `b - 1` are exactly those at edit distance `b`.
    pub proof fn lemma_second_deduction_step(&self, query: Seq<char>, b: int)
        requires
            self.wf(),
            query.len() <= 255,
            1 <= b,
        ensures
            merge_min(self.matchings_within(query, b - 1),
                self.sd_result(self.matchings_within(query, b - 1), query, query.len() as int, b))
                == self.matchings_within(query, b),
    {
        let p = self.matchings_within(query, b - 1);
        let d = self.sd_result(p, query, query.len() as int, b);
        let m = merge_min(p, d);
        let w = self.matchings_within(query, b);
        assert forall|k: (u8, NodeID)| m.contains_key(k) <==> #[trigger] w.contains_key(k) by {
            if w.contains_key(k) && !p.contains_key(k) {
                self.lemma_sd_source_exists(query, b, k);
            }
        }
        assert forall|k: (u8, NodeID)| #[trigger] m.contains_key(k) implies m[k] == w[k] by {
            if p.contains_key(k) {
                assert(!d.contains_key(k));
            }
        }
        assert(m =~= w);
    }

    /// The assembled matching set of a query of at most 255 characters is P(|q|, 2): the
    /// matching of the root with the empty prefix and every matching within edit distance 2.
    pub proof fn lemma_assemble_exact(&self, chars: Seq<char>)
        requires
            self.wf(),
            chars.len() <= 255,
        ensures
            self.assemble_spec(chars) == self.matchings_within(chars, 2),
    {
        self.lemma_fd_acc_is_exact(chars);
        if chars.len() > 0 {
            self.lemma_second_deduction_step(chars, 1);
            self.lemma_second_deduction_step(chars, 2);
        } else {
            assert(self.matchings_within(chars, 0) =~= self.matchings_within(chars, 2));
        }
    }

    /// The stored strings within prefix edit distance 2 of `query` lie below P(|q|, 2): for
    /// each of them, some matching of `query` within edit distance 2, whose distance plus the
    /// characters of the query after its prefix is at most 2, has a node whose string range
    /// holds it.
    pub proof fn lemma_near_strings_covered(&self, query: Seq<char>, k: int)
        requires
            self.wf(),
            query.len() <= 255,
            0 <= k < self.stored().len(),
            ped(query, self.stored()[k]) <= 2,
        ensures
            exists|key: (u8, NodeID)| #[trigger] self.matchings_within(query, 2).contains_key(key)
                && self.matchings_within(query, 2)[key] + query.len() - key.0 <= 2
                && self.node_strings(key.1 as int).0 <= k < self.node_strings(key.1 as int).1,
    {
        self.lemma_wf_facts();
        self.lemma_prefix_facts();
        self.lemma_trie_wf();
        self.lemma_layout();
        let w = self.matchings_within(query, 2);
        let s = self.stored()[k];
        lemma_ped_is_least(query, s);
        let jj = choose|j: int| 0 <= j <= s.len() && ped(query, s) == #[trigger] lev(query, s.take(j));
        let p = s.take(jj);
        let r = lemma_lev_last_match(query, p);
        let x = r.0;
        let y = r.1;
        let py = p.take(y);
        assert(py =~= s.take(y));
        assert(py.is_prefix_of(s)) by {
            assert(s.subrange(0, y) =~= py);
        }
        let j = choose|j: int| 0 <= j < self.node_count() && #[trigger] self.node_prefix(j) == py;
        assert(self.node_strings(j).0 <= k < self.node_strings(j).1);
        let key = (x as u8, j as NodeID);
        assert(key.0 as int == x && key.1 as int == j);
        let v = lev(query.take(x), py);
        assert(v + longer_rest(query, p, x, y) <= 2);
        if x == 0 {
            assert(py.len() == 0);
            assert(j == 0);
            assert(w.contains_key(key));
        } else {
            assert(py.len() > 0);
            assert(j != 0);
            assert(py.last() == p[y - 1]);
            assert(self.is_matching(query, key));
            assert(self.matching_ed(query, key) == v);
            assert(w.contains_key(key));
            assert(w[key] as int == v);
        }
        assert(w[key] + query.len() - key.0 <= 2);
    }

    /// The accumulated first deductions only hold nodes of the trie.
    pub proof fn lemma_fd_acc_below(&self, chars: Seq<char>)
        requires
            self.wf(),
        ensures
            set_nodes_below(self.fd_acc(chars), self.node_count()),
        decreases chars.len(),
    {
        self.lemma_wf_facts();
        assert(self.node_count() == self.trie.node_count());
        if chars.len() > 0 {
            let prev = self.fd_acc(chars.drop_last());
            self.lemma_fd_acc_below(chars.drop_last());
            self.lemma_fd_result_below(prev, chars.last(), chars.len() as int, 0);
            lemma_merge_min_below(prev, self.fd_result(prev, chars.last(), chars.len() as int, 0), self.node_count());
        }
    }

    /// The prefix that node `j` stands for.
    pub closed spec fn node_prefix(&self, j: int) -> Seq<char> {
        self.trie.prefixes@[j]
    }

    /// Facts on the prefixes of the nodes: the root is the only node of the empty prefix,
    /// every prefix of a node's prefix has a node, descendants are the nodes whose prefix
    /// extends, and a node's depth and character are its prefix's length and last character.
    proof fn lemma_prefix_facts(&self)
        requires
            self.wf(),
        ensures
            forall|j: int| 0 <= j < self.trie.node_count() && #[trigger] self.node_prefix(j).len() == 0 ==> j == 0,
            self.node_prefix(0).len() == 0,
            self.trie.node_count() <= u32::MAX,
            forall|j: int, p: Seq<char>| 0 <= j < self.trie.node_count() && #[trigger] p.is_prefix_of(self.node_prefix(j))
                ==> exists|m: int| 0 <= m < self.trie.node_count() && #[trigger] self.node_prefix(m) == p,
            forall|j: int, m: int| 0 <= j < self.trie.node_count() && 0 <= m < self.trie.node_count()
                ==> ((j < m < #[trigger] self.trie.descendants_end(j)) <==> proper_prefix(self.node_prefix(j), #[trigger] self.node_prefix(m))),
            forall|m: int| 0 <= m < self.trie.node_count() ==> #[trigger] self.trie.depth_of(m) == self.node_prefix(m).len()
                && (self.node_prefix(m).len() > 0 ==> self.trie.nodes@[m].character == self.node_prefix(m).last()),
    {
        reveal(MetaAutocompleter::wf);
        let t = self.trie;
        let n = t.nodes@.len() as int;
        assert forall|j: int| 0 <= j < self.trie.node_count() && #[trigger] self.node_prefix(j).len() == 0 implies j == 0 by {
            if j != 0 {
                assert(t.prefixes@[j] =~= t.prefixes@[0]);
            }
        }
        assert forall|j: int, p: Seq<char>| 0 <= j < self.trie.node_count() && #[trigger] p.is_prefix_of(self.node_prefix(j))
            implies exists|m: int| 0 <= m < self.trie.node_count() && #[trigger] self.node_prefix(m) == p by {
            assert(t.node_fields_ok(j));
            if t.prefixes@[j].len() == 0 {
                assert(p =~= t.prefixes@[0]);
                assert(self.node_prefix(0) == p);
            } else {
                let k = t.nodes@[j].string_range.start as int;
                assert(t.prefixes@[j].is_prefix_of(t.stored()[k]));
                lemma_prefix_transitive(p, t.prefixes@[j], t.stored()[k]);
                assert(p.is_prefix_of(t.stored()[k]));
                let m = choose|m: int| 0 <= m < n && #[trigger] t.prefixes@[m] == p;
                assert(self.node_prefix(m) == p);
            }
        }
        assert forall|j: int, m: int| 0 <= j < self.trie.node_count() && 0 <= m < self.trie.node_count()
            implies ((j < m < #[trigger] self.trie.descendants_end(j)) <==> proper_prefix(self.node_prefix(j), #[trigger] self.node_prefix(m))) by {
            assert(t.desc_ok_within(j, 0, n));
        }
        assert forall|m: int| 0 <= m < self.trie.node_count() implies #[trigger] self.trie.depth_of(m) == self.node_prefix(m).len()
            && (self.node_prefix(m).len() > 0 ==> self.trie.nodes@[m].character == self.node_prefix(m).last()) by {
            assert(t.node_fields_ok(m));
        }
    }

    /// P(i, 0): the first deductions over `chars` hold exactly the matchings of the query
    /// prefixes that are prefixes of stored strings with their nodes, all at edit distance 0.
    pub proof fn lemma_fd_acc_exact(&self, chars: Seq<char>)
        requires
            self.wf(),
            chars.len() <= 255,
        ensures
            forall|k: (u8, NodeID)| #[trigger] self.fd_acc(chars).contains_key(k) <==> (k.0 <= chars.len()
                && k.1 < self.node_count() && self.node_prefix(k.1 as int) == chars.take(k.0 as int)),
            forall|k: (u8, NodeID)| #[trigger] self.fd_acc(chars).contains_key(k) ==> self.fd_acc(chars)[k] == 0,
        decreases chars.len(),
    {
        self.lemma_wf_facts();
        self.lemma_prefix_facts();
        let acc = self.fd_acc(chars);
        let cnt = self.trie.node_count();
        assert(self.node_count() == cnt);
        if chars.len() == 0 {
            assert forall|k: (u8, NodeID)| #[trigger] acc.contains_key(k) <==> (k.0 <= chars.len()
                && k.1 < cnt && self.node_prefix(k.1 as int) == chars.take(k.0 as int)) by {
                if k.0 <= chars.len() && k.1 < cnt && self.node_prefix(k.1 as int) == chars.take(k.0 as int) {
                    assert(self.node_prefix(k.1 as int).len() == 0);
                }
                if acc.contains_key(k) {
                    assert(chars.take(0) =~= self.node_prefix(0));
                }
            }
        } else {
            let n = chars.len() as int;
            let c = chars.last();
            let prefix = chars.drop_last();
            let prev = self.fd_acc(prefix);
            self.lemma_fd_acc_exact(prefix);
            let delta = self.fd_result(prev, c, n, 0);
            assert(acc == merge_min(prev, delta));
            assert(prefix =~= chars.take(n - 1));
            assert forall|k: (u8, NodeID)| #[trigger] delta.contains_key(k) <==> (k.0 == n
                && k.1 < cnt && self.node_prefix(k.1 as int) == chars) by {
                if delta.contains_key(k) {
                    let t = choose|t: Witness| t.2 == k.1 && #[trigger] self.fd_witness(prev, c, n, 0, t);
                    reveal(MetaAutocompleter::fd_witness);
                    let j = t.0.1 as int;
                    assert(self.node_prefix(j) == prefix.take(t.0.0 as int));
                    assert(prefix.take(t.0.0 as int) =~= prefix);
                    assert(proper_prefix(self.node_prefix(j), self.node_prefix(t.2)));
                    assert(self.trie.node_at(t.2, n, c));
                    assert(self.trie.depth_of(t.2) == n);
                    assert(self.node_prefix(t.2).len() == n);
                    assert(self.node_prefix(t.2).last() == c);
                    assert(chars =~= prefix.push(c));
                    assert forall|i: int| 0 <= i < n implies #[trigger] self.node_prefix(t.2)[i] == chars[i] by {
                        if i < n - 1 {
                            assert(self.node_prefix(t.2).subrange(0, n - 1)[i] == self.node_prefix(t.2)[i]);
                        }
                    }
                    assert(self.node_prefix(t.2) =~= chars);
                }
                if k.0 == n && k.1 < cnt && self.node_prefix(k.1 as int) == chars {
                    let id = k.1 as int;
                    assert(prefix.is_prefix_of(self.node_prefix(id)));
                    let j = choose|m: int| 0 <= m < cnt && #[trigger] self.node_prefix(m) == prefix;
                    assert(prefix.take(n - 1) =~= prefix);
                    let key = (sat_sub(n, 1) as u8, j as NodeID);
                    assert(key.0 == n - 1);
                    assert(key.1 == j);
                    assert(j < self.node_count());
                    assert(self.node_prefix(key.1 as int) == prefix.take(key.0 as int));
                    assert(prev.contains_key(key));
                    assert(proper_prefix(self.node_prefix(j), self.node_prefix(id)));
                    assert(self.trie.descendants_end(j) > id);
                    let t: Witness = ((sat_sub(n, 1) as u8, j as NodeID), n, id);
                    assert(self.fd_witness(prev, c, n, 0, t)) by {
                        reveal(MetaAutocompleter::fd_witness);
                        assert(self.trie.depth_of(j) == n - 1);
                        assert(self.trie.depth_of(id) == n);
                    }
                }
            }
            assert forall|k: (u8, NodeID)| #[trigger] delta.contains_key(k) implies delta[k] == 0 by {
                let t0 = choose|t: Witness| t.2 == k.1 && #[trigger] self.fd_witness(prev, c, n, 0, t);
                assert(self.fd_value(prev, n, t0) <= 0) by {
                    reveal(MetaAutocompleter::fd_witness);
                }
                assert(self.fd_is_min(prev, c, n, 0, k.1, 0u8 as int));
                let v = delta[k];
                assert(self.fd_is_min(prev, c, n, 0, k.1, v as int));
                assert(v <= self.fd_value(prev, n, t0));
            }
            assert forall|k: (u8, NodeID)| #[trigger] acc.contains_key(k) <==> (k.0 <= chars.len()
                && k.1 < cnt && self.node_prefix(k.1 as int) == chars.take(k.0 as int)) by {
                if k.0 < n {
                    assert(chars.take(k.0 as int) =~= prefix.take(k.0 as int));
                }
                if k.0 == n {
                    assert(chars.take(n) =~= chars);
                    if prev.contains_key(k) {
                        assert(k.0 <= prefix.len());
                    }
                }
            }
            assert forall|k: (u8, NodeID)| #[trigger] acc.contains_key(k) implies acc[k] == 0 by {
                if prev.contains_key(k) {
                    assert(prev[k] == 0);
                }
                if delta.contains_key(k) {
                    assert(delta[k] == 0);
                }
            }
        }
    }

    /// Matching `k` at edit distance `ed` is sound for `query`: `ed` bounds the edit distance
    /// between the query prefix and the node's prefix.
    pub open spec fn sound(&self, query: Seq<char>, k: (u8, NodeID), ed: int) -> bool {
        &&& k.0 <= query.len()
        &&& k.1 < self.node_count()
        &&& crate::levenshtein::lev(query.take(k.0 as int), self.node_prefix(k.1 as int)) <= ed
    }

    /// Every matching of `set` is sound for `query`.
    pub open spec fn all_sound(&self, query: Seq<char>, set: Map<(u8, NodeID), u8>) -> bool {
        forall|k: (u8, NodeID)| #[trigger] set.contains_key(k) ==> self.sound(query, k, set[k] as int)
    }

    /// Deducing from a sound matching `key` for a descendant `id` whose character is the
    /// query's character at `qpl - 1` gives a bound on the edit distance of `id`.
    proof fn lemma_deduction_bound(&self, query: Seq<char>, key: (u8, NodeID), ed: int, id: int, qpl: int)
        requires
            self.wf(),
            self.sound(query, key, ed),
            key.1 < id < self.trie.descendants_end(key.1 as int),
            key.0 < qpl <= query.len(),
            self.node_prefix(id).len() > 0,
            self.trie.nodes@[id].character == query[qpl - 1],
        ensures
            id < self.node_count(),
            crate::levenshtein::lev(query.take(qpl), self.node_prefix(id))
                <= deduced_ed(ed, key.0 as int, self.trie.depth_of(key.1 as int), qpl - 1, self.trie.depth_of(id) - 1),
    {
        self.lemma_wf_facts();
        self.lemma_prefix_facts();
        self.lemma_trie_wf();
        let j = key.1 as int;
        let p = self.node_prefix(id);
        let p1 = self.node_prefix(j);
        let d = p.len() as int;
        assert(j < self.trie.node_count());
        assert(j < id < self.trie.descendants_end(j));
        assert(self.trie.depth_of(id) > self.trie.depth_of(j) && id < self.trie.node_count()) by {
            reveal(MetaAutocompleter::wf);
            assert(self.trie.desc_ok_within(j, 0, self.trie.nodes@.len() as int));
            assert(id < self.trie.nodes@.len());
            assert(proper_prefix(self.trie.prefixes@[j], self.trie.prefixes@[id]));
            assert(self.trie.node_fields_ok(j));
            assert(self.trie.node_fields_ok(id));
        }
        assert(proper_prefix(p1, p));
        assert(self.trie.depth_of(id) == d);
        assert(self.trie.depth_of(j) == p1.len());
        assert(p1.is_prefix_of(p.drop_last())) by {
            assert(p.drop_last().subrange(0, p1.len() as int) =~= p.subrange(0, p1.len() as int));
        }
        lemma_deduced_ed_bound(query, p.drop_last(), p1, key.0 as int, ed, qpl - 1, d - 1);
        assert(p.drop_last().take(d - 1) =~= p.drop_last());
        assert(query.take(qpl).drop_last() =~= query.take(qpl - 1));
        assert(query.take(qpl).last() == p.last());
    }

    /// When a candidate of the first deduction for node `node` deduces at most `n`, some
    /// value is the least that the candidates for `node` deduce.
    proof fn lemma_fd_min_exists(&self, set: Map<(u8, NodeID), u8>, character: char, query_len: int, b: int, node: NodeID, n: nat)
        requires
            n <= 255,
            exists|t: Witness| t.2 == node && #[trigger] self.fd_witness(set, character, query_len, b, t)
                && self.fd_value(set, query_len, t) <= n,
        ensures
            exists|v: u8| #[trigger] self.fd_is_min(set, character, query_len, b, node, v as int),
        decreases n,
    {
        let t = choose|t: Witness| t.2 == node && #[trigger] self.fd_witness(set, character, query_len, b, t)
            && self.fd_value(set, query_len, t) <= n;
        if n > 0 && exists|t2: Witness| t2.2 == node && #[trigger] self.fd_witness(set, character, query_len, b, t2)
            && self.fd_value(set, query_len, t2) <= n - 1 {
            self.lemma_fd_min_exists(set, character, query_len, b, node, (n - 1) as nat);
        } else {
            assert(self.fd_value(set, query_len, t) >= 0);
            assert(self.fd_value(set, query_len, t) == n) by {
                if self.fd_value(set, query_len, t) < n {
                    assert(n > 0);
                }
            }
            assert(self.fd_is_min(set, character, query_len, b, node, (n as u8) as int));
        }
    }

    /// The first deduction keeps soundness: from sound matchings, with `character` the
    /// query's character at `query_len - 1`, it deduces sound matchings.
    pub proof fn lemma_fd_result_sound(&self, query: Seq<char>, set: Map<(u8, NodeID), u8>, character: char, query_len: int, b: int)
        requires
            self.wf(),
            0 <= b <= 255,
            1 <= query_len <= query.len(),
            query_len <= 255,
            query[query_len - 1] == character,
            self.all_sound(query, set),
        ensures
            self.all_sound(query, self.fd_result(set, character, query_len, b)),
    {
        self.lemma_wf_facts();
        self.lemma_prefix_facts();
        let r = self.fd_result(set, character, query_len, b);
        assert forall|k: (u8, NodeID)| #[trigger] r.contains_key(k) implies self.sound(query, k, r[k] as int) by {
            let t0 = choose|t: Witness| t.2 == k.1 && #[trigger] self.fd_witness(set, character, query_len, b, t);
            assert(self.fd_value(set, query_len, t0) <= b) by {
                reveal(MetaAutocompleter::fd_witness);
            }
            self.lemma_fd_min_exists(set, character, query_len, b, k.1, b as nat);
            let v = r[k];
            assert(self.fd_is_min(set, character, query_len, b, k.1, v as int));
            let t = choose|t: Witness| t.2 == k.1 && #[trigger] self.fd_witness(set, character, query_len, b, t)
                && self.fd_value(set, query_len, t) == v;
            reveal(MetaAutocompleter::fd_witness);
            assert(set.contains_key(t.0));
            assert(self.sound(query, t.0, set[t.0] as int));
            assert(self.trie.node_at(t.2, t.1, character));
            assert(self.trie.depth_of(t.2) == t.1);
            assert(self.node_prefix(t.2).len() == t.1);
            self.lemma_deduction_bound(query, t.0, set[t.0] as int, t.2, query_len);
            assert(k.1 == t.2);
        }
    }

    /// For a matching of the first `i` characters of `query` with node `n` within edit
    /// distance `b`, the first deduction from P(i - 1, b) has a candidate for `n` that
    /// deduces at most its edit distance.
    proof fn lemma_fd_candidate(&self, query: Seq<char>, i: int, b: int, n: NodeID) -> (t: Witness)
        requires
            self.wf(),
            1 <= i <= query.len(),
            i <= 255,
            0 <= b <= 255,
            self.is_matching(query.take(i), (i as u8, n)),
            self.matching_ed(query.take(i), (i as u8, n)) <= b,
        ensures
            t.2 == n,
            self.fd_witness(self.matchings_within(query.take(i - 1), b), query[i - 1], i, b, t),
            self.fd_value(self.matchings_within(query.take(i - 1), b), i, t) <= self.matching_ed(query.take(i), (i as u8, n)),
    {
        self.lemma_wf_facts();
        self.lemma_prefix_facts();
        self.lemma_trie_wf();
        let q = query.take(i);
        let q1 = query.take(i - 1);
        let c = query[i - 1];
        let p = self.matchings_within(q1, b);
        let pn = self.node_prefix(n as int);
        let d = pn.len() as int;
        let e = self.matching_ed(q, (i as u8, n));
        assert((i as u8) as int == i);
        assert(q.take(i) =~= q);
        assert(e == lev(q, pn));
        assert(d > 0);
        let bb = pn.drop_last();
        assert(q1 =~= q.drop_last());
        assert(q =~= q1.push(c));
        assert(pn =~= bb.push(c));
        lemma_lev_push_same(q1, bb, c);
        lemma_lev_lower_bound(q, pn);
        let r = lemma_lev_last_match(q1, bb);
        let x = r.0;
        let y = r.1;
        let py = pn.take(y);
        assert(bb.take(y) =~= py);
        assert(py.is_prefix_of(pn)) by {
            assert(pn.subrange(0, y) =~= py);
        }
        let j = choose|m: int| 0 <= m < self.trie.node_count() && #[trigger] self.node_prefix(m) == py;
        let key = (x as u8, j as NodeID);
        let v = lev(q1.take(x), py);
        assert(v + longer_rest(q1, bb, x, y) <= e);
        if x == 0 {
            assert(py.len() == 0);
            assert(j == 0);
            assert(q1.take(0).len() == 0);
            assert(v == 0);
            assert(p.contains_key(key));
            assert(p[key] == 0);
        } else {
            assert(py.len() > 0);
            assert(j != 0);
            assert(py.last() == bb[y - 1]);
            assert(self.is_matching(q1, key));
            assert(self.matching_ed(q1, key) == v);
            assert(p.contains_key(key));
            assert(p[key] == v);
        }
        assert(self.node_depth(j) == y);
        assert(proper_prefix(py, pn));
        assert(self.node_descendants_end(j) == self.trie.descendants_end(j));
        let t: Witness = (key, d, n as int);
        assert(key.0 as int == x && key.1 as int == j);
        assert(p[key] as int == v);
        assert(q1.len() == i - 1 && bb.len() == d - 1);
        assert(self.fd_value(p, i, t) == v + longer_rest(q1, bb, x, y));
        assert(self.fd_value(p, i, t) <= e);
        assert(self.node_depth(n as int) == d);
        assert(self.node_character(n as int) == c);
        assert(d <= self.max_depth_spec());
        assert(j < n < self.node_descendants_end(j));
        assert(self.fd_witness(p, c, i, b, t)) by {
            reveal(MetaAutocompleter::fd_witness);
        }
        t
    }

    /// One first deduction takes P(i - 1, b) to P(i, b): from the matchings within edit
    /// distance `b` of the first `i - 1` characters of `query`, it finds exactly the
    /// matchings of the first `i` characters with query prefix length `i` within `b`, each at
    /// its edit distance.
    pub proof fn lemma_first_deduction_step(&self, query: Seq<char>, i: int, b: int)
        requires
            self.wf(),
            1 <= i <= query.len(),
            i <= 255,
            0 <= b <= 255,
        ensures
            merge_min(self.matchings_within(query.take(i - 1), b),
                self.fd_result(self.matchings_within(query.take(i - 1), b), query[i - 1], i, b))
                == self.matchings_within(query.take(i), b),
    {
        self.lemma_wf_facts();
        self.lemma_prefix_facts();
        self.lemma_trie_wf();
        let q = query.take(i);
        let q1 = query.take(i - 1);
        let c = query[i - 1];
        let p = self.matchings_within(q1, b);
        let dl = self.fd_result(p, c, i, b);
        let m = merge_min(p, dl);
        let w = self.matchings_within(q, b);
        assert(q1 =~= q.drop_last());
        assert forall|k: (u8, NodeID)| #[trigger] p.contains_key(k) implies w.contains_key(k) && w[k] == p[k] && k.0 < i by {
            if k != (0u8, 0usize) {
                assert(q.take(k.0 as int) =~= q1.take(k.0 as int));
                assert(q[k.0 - 1] == q1[k.0 - 1]);
            }
        }
        assert(self.all_sound(q, p)) by {
            assert forall|k: (u8, NodeID)| #[trigger] p.contains_key(k) implies self.sound(q, k, p[k] as int) by {
                if k == (0u8, 0usize) {
                    lemma_lev_self(q.take(0));
                    assert(self.node_prefix(0) =~= q.take(0));
                }
            }
        }
        self.lemma_fd_result_sound(q, p, c, i, b);
        assert forall|k: (u8, NodeID)| #[trigger] dl.contains_key(k) implies w.contains_key(k) && w[k] == dl[k] && k.0 == i by {
            let t0 = choose|t: Witness| t.2 == k.1 && #[trigger] self.fd_witness(p, c, i, b, t);
            assert(self.fd_value(p, i, t0) <= b && 0 < k.1 < self.node_count()
                && self.node_depth(k.1 as int) == t0.1 && self.node_character(k.1 as int) == c) by {
                reveal(MetaAutocompleter::fd_witness);
            }
            self.lemma_fd_min_exists(p, c, i, b, k.1, b as nat);
            let v = dl[k];
            assert(self.fd_is_min(p, c, i, b, k.1, v as int));
            assert(self.sound(q, k, v as int));
            assert(self.node_prefix(k.1 as int).len() > 0);
            assert(self.is_matching(q, k));
            assert(self.matching_ed(q, k) <= v);
            let t1 = self.lemma_fd_candidate(query, i, b, k.1);
            assert(v <= self.fd_value(p, i, t1));
        }
        assert forall|k: (u8, NodeID)| #[trigger] w.contains_key(k) && k.0 == i implies dl.contains_key(k) by {
            let t1 = self.lemma_fd_candidate(query, i, b, k.1);
        }
        assert forall|k: (u8, NodeID)| m.contains_key(k) <==> #[trigger] w.contains_key(k) by {
            if w.contains_key(k) && k.0 < i && k != (0u8, 0usize) {
                assert(q.take(k.0 as int) =~= q1.take(k.0 as int));
                assert(q[k.0 - 1] == q1[k.0 - 1]);
                assert(p.contains_key(k));
            }
        }
        assert forall|k: (u8, NodeID)| #[trigger] m.contains_key(k) implies m[k] == w[k] by {
            if p.contains_key(k) {
                assert(!dl.contains_key(k));
            }
        }
        assert(m =~= w);
    }

    /// Expands the set from P(i, b-1) to P(i, b), for i the query prefix length `query_len`:
    /// from each matching of `set` within edit distance `b - 1`, looks through the
    /// descendants of its node, by the inverted index, for the longer query prefixes, and
    /// returns the matchings found at edit distance exactly `b` that `set` lacks, each at
    /// distance `b`.
    pub(crate) fn second_deducing(&self, set: &MatchingSet<u8>, query: &[char], query_len: usize, b: usize) -> (p4: MatchingSet<u8>)
        requires
            self.wf(),
            set_nodes_below(set@, self.node_count()),
            1 <= query_len <= query@.len(),
            query_len <= 255,
            1 <= b <= 255,
        ensures
            p4@ == self.sd_result(set@, query@, query_len as int, b as int),
            forall|k: (u8, NodeID)| #[trigger] p4@.contains_key(k) ==> p4@[k] == b
                && exists|m: (u8, NodeID)| #[trigger] set@.contains_key(m) && set@[m] < b && m.0 < k.0
                    && m.1 < k.1 < self.node_descendants_end(m.1 as int),
    {
        let ghost sd = self.sd_result(set@, query@, query_len as int, b as int);
        let entries = set.iter();
        let mut p4: MatchingSet<u8> = MatchingSet::default();
        let mut a: usize = 0;
        while a < entries.len()
            invariant
                sd == self.sd_result(set@, query@, query_len as int, b as int),
                self.wf(),
                set_nodes_below(set@, self.node_count()),
                1 <= query_len <= query@.len(),
                query_len <= 255,
                1 <= b <= 255,
                a <= entries@.len(),
                forall|e: int| #![trigger entries@[e]] 0 <= e < entries@.len() ==> set@.contains_key(entries@[e].key())
                    && set@[entries@[e].key()] == entries@[e].edit_distance,
                forall|k: (u8, NodeID)| set@.contains_key(k) ==> exists|e: int| 0 <= e < entries@.len() && #[trigger] entries@[e].key() == k,
                forall|k: (u8, NodeID)| #[trigger] p4@.contains_key(k) <==> self.sd_core(set@, query@, query_len as int, b as int, k)
                    && exists|e: int| 0 <= e < a && #[trigger] self.sd_source(set@, entries@[e].key(), k, b as int),
                forall|k: (u8, NodeID)| #[trigger] p4@.contains_key(k) ==> p4@[k] == b,
            decreases entries@.len() - a,
        {
            let m = entries[a];
            let ghost before = p4@;
            assert(set@.contains_key(m.key()));
            if (m.edit_distance as usize) < b && (m.query_prefix_len as usize) < query_len {
                self.sd_from_matching(&mut p4, set, query, query_len, b, m);
            }
            proof {
                assert forall|k: (u8, NodeID)| #[trigger] p4@.contains_key(k) <==> self.sd_core(set@, query@, query_len as int, b as int, k)
                    && exists|e: int| 0 <= e < a + 1 && #[trigger] self.sd_source(set@, entries@[e].key(), k, b as int) by {
                    if self.sd_core(set@, query@, query_len as int, b as int, k)
                        && exists|e: int| 0 <= e < a + 1 && #[trigger] self.sd_source(set@, entries@[e].key(), k, b as int) {
                        let e = choose|e: int| 0 <= e < a + 1 && #[trigger] self.sd_source(set@, entries@[e].key(), k, b as int);
                        if e < a {
                            assert(before.contains_key(k));
                        }
                    }
                    if p4@.contains_key(k) && !before.contains_key(k) {
                        assert(self.sd_source(set@, entries@[a as int].key(), k, b as int));
                    }
                }
            }
            a = a + 1;
        }
        proof {
            assert forall|k: (u8, NodeID)| p4@.contains_key(k) <==> #[trigger] sd.contains_key(k) by {
                if sd.contains_key(k) {
                    let m = choose|m: (u8, NodeID)| #[trigger] self.sd_source(set@, m, k, b as int);
                    let e = choose|e: int| 0 <= e < entries@.len() && #[trigger] entries@[e].key() == m;
                    assert(self.sd_source(set@, entries@[e].key(), k, b as int));
                }
            }
            assert(p4@ =~= sd);
            assert forall|k: (u8, NodeID)| #[trigger] p4@.contains_key(k) implies p4@[k] == b
                && exists|m: (u8, NodeID)| #[trigger] set@.contains_key(m) && set@[m] < b && m.0 < k.0
                    && m.1 < k.1 < self.node_descendants_end(m.1 as int) by {
                let e = choose|e: int| 0 <= e < a && #[trigger] self.sd_source(set@, entries@[e].key(), k, b as int);
                let m = entries@[e].key();
                assert(set@.contains_key(m));
            }
        }
        p4
    }
}

impl MetaAutocompleter<u8, u32> {
    /// `k` is a matching of the first `query_len` characters of `query` at edit distance
    /// exactly `b` that `set` lacks.
    pub open spec fn sd_core(&self, set: Map<(u8, NodeID), u8>, query: Seq<char>, query_len: int, b: int, k: (u8, NodeID)) -> bool {
        &&& k.0 <= query_len
        &&& self.is_matching(query, k)
        &&& self.matching_ed(query, k) == b
        &&& !set.contains_key(k)
    }

    /// Adds to `p4` the matchings of the second deduction at edit distance `b` that matching
    /// `m` of `set` leads to: for each longer query prefix, the descendants of the node of
    /// `m` at the depths within `b` of the prefix's length, ending in its last character.
    fn sd_from_matching(
        &self,
        p4: &mut MatchingSet<u8>,
        set: &MatchingSet<u8>,
        query: &[char],
        query_len: usize,
        b: usize,
        m: Matching<u8>,
    )
        requires
            self.wf(),
            set_nodes_below(set@, self.node_count()),
            1 <= query_len <= query@.len(),
            query_len <= 255,
            1 <= b <= 255,
            set@.contains_key(m.key()),
            set@[m.key()] == m.edit_distance,
            m.edit_distance < b,
            m.query_prefix_len < query_len,
            forall|k: (u8, NodeID)| #[trigger] old(p4)@.contains_key(k) ==> old(p4)@[k] == b,
        ensures
            forall|k: (u8, NodeID)| #[trigger] final(p4)@.contains_key(k) <==> old(p4)@.contains_key(k)
                || (self.sd_core(set@, query@, query_len as int, b as int, k) && self.sd_source(set@, m.key(), k, b as int)),
            forall|k: (u8, NodeID)| #[trigger] final(p4)@.contains_key(k) ==> final(p4)@[k] == b,
    {
        let ghost start = p4@;
        let ghost key = m.key();
        proof {
            self.lemma_wf_facts();
            self.lemma_prefix_facts();
            self.lemma_trie_wf();
        }
        let node = m.node;
        assert(node < self.trie.node_count());
        let nd = self.trie.nodes[node].depth as usize;
        assert(nd == self.node_depth(node as int));
        let max_d = self.inverted_index.max_depth();
        let mut prefix: Vec<char> = Vec::new();
        let mut j: usize = 0;
        while j < m.query_prefix_len as usize
            invariant
                j <= m.query_prefix_len,
                m.query_prefix_len < query_len <= query@.len(),
                prefix@ == query@.take(j as int),
            decreases m.query_prefix_len - j,
        {
            prefix.push(query[j]);
            proof {
                assert(prefix@ =~= query@.take(j + 1));
            }
            j = j + 1;
        }
        let mut i: usize = m.query_prefix_len as usize + 1;
        while i <= query_len
            invariant
                key == m.key(),
                node == m.node,
                self.wf(),
                set_nodes_below(set@, self.node_count()),
                1 <= query_len <= query@.len(),
                query_len <= 255,
                1 <= b <= 255,
                set@.contains_key(key),
                set@[key] == m.edit_distance,
                m.edit_distance < b,
                node < self.node_count(),
                nd == self.node_depth(node as int),
                max_d == self.max_depth_spec(),
                0 <= self.max_depth_spec() <= 255,
                m.query_prefix_len + 1 <= i <= query_len + 1,
                prefix@ == query@.take(i - 1),
                forall|k: (u8, NodeID)| #[trigger] p4@.contains_key(k) <==> start.contains_key(k)
                    || (self.sd_core(set@, query@, query_len as int, b as int, k) && self.sd_source(set@, key, k, b as int) && k.0 < i),
                forall|k: (u8, NodeID)| #[trigger] p4@.contains_key(k) ==> p4@[k] == b,
            decreases query_len + 1 - i,
        {
            let c = query[i - 1];
            prefix.push(c);
            proof {
                assert(prefix@ =~= query@.take(i as int));
            }
            let lo0 = if i > b { i - b } else { 0 };
            let lo = if lo0 > nd + 1 { lo0 } else { nd + 1 };
            let hi = if i + b <= max_d { i + b } else { max_d };
            proof {
                self.lemma_wf_facts();
                self.lemma_prefix_facts();
                assert forall|k: (u8, NodeID)| #[trigger] self.sd_core(set@, query@, query_len as int, b as int, k)
                    && self.sd_source(set@, key, k, b as int) && k.0 == i implies lo <= self.node_depth(k.1 as int) <= hi by {
                    lemma_lev_lower_bound(query@.take(i as int), self.node_prefix(k.1 as int));
                    assert(self.trie.depth_of(k.1 as int) == self.node_prefix(k.1 as int).len());
                    assert(self.node_descendants_end(node as int) == self.trie.descendants_end(node as int));
                    assert(self.trie.depth_of(k.1 as int) > self.trie.depth_of(node as int));
                }
            }
            let mut d = lo;
            while d <= hi
                invariant
                    key == m.key(),
                    node == m.node,
                    self.wf(),
                    1 <= i <= query_len <= query@.len(),
                    query_len <= 255,
                    1 <= b <= 255,
                    node < self.node_count(),
                    set@.contains_key(key),
                    set@[key] == m.edit_distance,
                    m.edit_distance < b,
                    m.query_prefix_len + 1 <= i,
                    1 <= lo <= d,
                    hi <= self.max_depth_spec() <= 255,
                    prefix@ == query@.take(i as int),
                    forall|k: (u8, NodeID)| #[trigger] self.sd_core(set@, query@, query_len as int, b as int, k)
                        && self.sd_source(set@, key, k, b as int) && k.0 == i ==> lo <= self.node_depth(k.1 as int) <= hi,
                    forall|k: (u8, NodeID)| #[trigger] p4@.contains_key(k) <==> start.contains_key(k)
                        || (self.sd_core(set@, query@, query_len as int, b as int, k) && self.sd_source(set@, key, k, b as int)
                        && (k.0 < i || (k.0 == i && self.node_depth(k.1 as int) < d))),
                    forall|k: (u8, NodeID)| #[trigger] p4@.contains_key(k) ==> p4@[k] == b,
                decreases hi + 1 - d,
            {
                let ghost before = p4@;
                self.sd_check_depth(p4, set, query, &prefix, i, d, b, query_len, node);
                proof {
                    assert forall|k: (u8, NodeID)| #[trigger] p4@.contains_key(k) <==> start.contains_key(k)
                        || (self.sd_core(set@, query@, query_len as int, b as int, k) && self.sd_source(set@, key, k, b as int)
                        && (k.0 < i || (k.0 == i && self.node_depth(k.1 as int) < d + 1))) by {
                        if p4@.contains_key(k) && !before.contains_key(k) {
                            assert(self.node_descendants_end(node as int) == self.trie.descendants_end(node as int));
                        }
                        if self.sd_core(set@, query@, query_len as int, b as int, k) && self.sd_source(set@, key, k, b as int)
                            && k.0 == i && self.node_depth(k.1 as int) == d {
                            assert(self.node_descendants_end(node as int) == self.trie.descendants_end(node as int));
                        }
                    }
                }
                d = d + 1;
            }
            i = i + 1;
        }
    }

    /// Adds to `p4` the matchings at edit distance exactly `b` of the query prefix `prefix`,
    /// of length `i`, with the descendants of `node` at depth `d`, that `set` lacks.
    fn sd_check_depth(
        &self,
        p4: &mut MatchingSet<u8>,
        set: &MatchingSet<u8>,
        query: &[char],
        prefix: &Vec<char>,
        i: usize,
        d: usize,
        b: usize,
        query_len: usize,
        node: usize,
    )
        requires
            self.wf(),
            1 <= i <= query_len <= query@.len(),
            query_len <= 255,
            prefix@ == query@.take(i as int),
            1 <= d <= self.max_depth_spec(),
            1 <= b <= 255,
            node < self.node_count(),
            forall|k: (u8, NodeID)| #[trigger] old(p4)@.contains_key(k) ==> old(p4)@[k] == b,
        ensures
            forall|k: (u8, NodeID)| #[trigger] final(p4)@.contains_key(k) <==> old(p4)@.contains_key(k)
                || (k.0 == i && self.node_depth(k.1 as int) == d && node < k.1 < self.trie.descendants_end(node as int)
                && self.sd_core(set@, query@, query_len as int, b as int, k)),
            forall|k: (u8, NodeID)| #[trigger] final(p4)@.contains_key(k) ==> final(p4)@[k] == b,
    {
        let ghost start = p4@;
        proof {
            self.lemma_wf_facts();
            self.lemma_prefix_facts();
            self.lemma_trie_wf();
        }
        let c = prefix[i - 1];
        let ids = self.traverse_inverted_index(node, d, c);
        let mut a: usize = 0;
        while a < ids.len()
            invariant
                self.wf(),
                self.trie.wf(),
                1 <= i <= query_len <= query@.len(),
                query_len <= 255,
                prefix@ == query@.take(i as int),
                c == query@[i - 1],
                1 <= d,
                1 <= b <= 255,
                node < self.node_count(),
                a <= ids@.len(),
                forall|x: usize| ids@.contains(x) <==> (node < x < self.trie.descendants_end(node as int)
                    && self.trie.node_at(x as int, d as int, c)),
                forall|k: (u8, NodeID)| #[trigger] p4@.contains_key(k) <==> start.contains_key(k)
                    || (k.0 == i && self.node_depth(k.1 as int) == d && node < k.1 < self.trie.descendants_end(node as int)
                    && self.sd_core(set@, query@, query_len as int, b as int, k)
                    && exists|e: int| 0 <= e < a && #[trigger] ids@[e] == k.1),
                forall|k: (u8, NodeID)| #[trigger] p4@.contains_key(k) ==> p4@[k] == b,
            decreases ids@.len() - a,
        {
            let id = ids[a];
            let ghost key = (i as u8, id);
            proof {
                self.lemma_wf_facts();
                self.lemma_prefix_facts();
                assert(ids@.contains(id));
                assert(id < self.trie.node_count());
                assert(self.trie.node_fields_ok(id as int));
                assert(self.trie.depth_of(id as int) == d);
                assert(self.node_prefix(id as int).len() == d);
            }
            let k = self.trie.nodes[id].string_range.start as usize;
            let ghost s = self.trie.chars@[k as int]@;
            proof {
                assert(self.trie.stored()[k as int] == s);
                assert(self.node_prefix(id as int).is_prefix_of(s));
                assert(s.take(d as int) =~= self.node_prefix(id as int));
            }
            let row = final_lev_row(prefix.as_slice(), self.trie.chars[k].as_slice());
            let found = row[d] == b && !set.contains(i as u8, id);
            proof {
                assert(self.node_depth(id as int) == d);
                assert(self.sd_core(set@, query@, query_len as int, b as int, key) <==> found);
            }
            if found {
                p4.insert(Matching { query_prefix_len: i as u8, node: id, edit_distance: b as u8 });
            }
            proof {
                assert forall|kk: (u8, NodeID)| #[trigger] p4@.contains_key(kk) <==> start.contains_key(kk)
                    || (kk.0 == i && self.node_depth(kk.1 as int) == d && node < kk.1 < self.trie.descendants_end(node as int)
                    && self.sd_core(set@, query@, query_len as int, b as int, kk)
                    && exists|e: int| 0 <= e < a + 1 && #[trigger] ids@[e] == kk.1) by {
                    if kk.0 == i && self.sd_core(set@, query@, query_len as int, b as int, kk)
                        && exists|e: int| 0 <= e < a + 1 && #[trigger] ids@[e] == kk.1 {
                        let e = choose|e: int| 0 <= e < a + 1 && #[trigger] ids@[e] == kk.1;
                        if e == a {
                            assert(kk == key);
                        }
                    }
                }
            }
            a = a + 1;
        }
        proof {
            assert forall|kk: (u8, NodeID)| #[trigger] self.sd_core(set@, query@, query_len as int, b as int, kk) && kk.0 == i
                && self.node_depth(kk.1 as int) == d && node < kk.1 < self.trie.descendants_end(node as int)
                implies exists|e: int| 0 <= e < ids@.len() && #[trigger] ids@[e] == kk.1 by {
                let mm = kk.1 as int;
                assert(self.trie.node_at(mm, d as int, c));
                assert(ids@.contains(kk.1));
            }
        }
    }
}

} // verus!
