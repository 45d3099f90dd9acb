//! An in-memory index over finite sets of `u64` elements: a set-trie.
//!
//! The trie stores (set, value) pairs — the same set may carry several
//! values — and answers, besides exact membership, the two containment
//! queries that make the structure worthwhile: all stored values whose set
//! is a *subset* of a query set, and all whose set is a *superset* of it.
//!
//! Every operation takes its key as a [`DefinitelySorted`] view, a borrowed
//! slice together with the guarantee that it is strictly ascending; the
//! sortedness of the keys and of every node's child list is what the
//! branch-and-bound pruning of the containment queries rests on.

use vstd::prelude::*;
use vstd::seq_lib::group_to_multiset_ensures;
use vstd::multiset::group_multiset_axioms;
use vstd::multiset::Multiset;
use vstd::laws_eq::obeys_concrete_eq;
use vstd::std_specs::cmp::PartialEqSpec;

verus! {

/// A sequence is strictly ascending: no duplicates, in order.
pub open spec fn strictly_sorted(s: Seq<u64>) -> bool {
    forall|i: int, j: int| 0 <= i < j < s.len() ==> s[i] < s[j]
}

/// In a strictly ascending sequence, every element is larger than every
/// earlier one, not only than its neighbour; this closes the gap between
/// the adjacent-pair check that the code performs and [`strictly_sorted`].
proof fn lemma_adjacent_implies_sorted(s: Seq<u64>)
    requires
        forall|j: int| 0 < j < s.len() ==> #[trigger] s[j] > s[j - 1],
    ensures
        strictly_sorted(s),
{
    assert forall|i: int, j: int| 0 <= i < j < s.len() implies s[i] < s[j] by {
        lemma_chain_up(s, i, j);
    }
}

proof fn lemma_chain_up(s: Seq<u64>, i: int, j: int)
    requires
        forall|j: int| 0 < j < s.len() ==> #[trigger] s[j] > s[j - 1],
        0 <= i < j < s.len(),
    ensures
        s[i] < s[j],
    decreases j - i,
{
    if i + 1 < j {
        lemma_chain_up(s, i, j - 1);
    }
}

/// A borrowed slice of elements carrying the proof that it is strictly
/// ascending. It is a capability token over caller-owned memory: all trie
/// operations accept only this type, which pushes the sortedness
/// precondition to the boundary where the data is made.
#[derive(Clone, Copy)]
pub struct DefinitelySorted<'a>(&'a [u64]);

impl<'a> View for DefinitelySorted<'a> {
    type V = Seq<u64>;

    closed spec fn view(&self) -> Seq<u64> {
        self.0@
    }
}

impl<'a> DefinitelySorted<'a> {
    /// The view is what it claims to be: strictly ascending.
    pub closed spec fn wf(self) -> bool {
        strictly_sorted(self.0@)
    }

    /// Sorts the caller's vector in place and returns a view over it.
    /// Duplicate elements are collapsed, so that the result is a set in the
    /// strict sense and the view's invariant holds unconditionally; the
    /// element set of the data is preserved. Always succeeds.
    pub fn new(v: &'a mut Vec<u64>) -> (s: DefinitelySorted<'a>)
        ensures
            s.wf(),
            strictly_sorted(s@),
            forall|x: u64| s@.contains(x) <==> old(v)@.contains(x),
            final(v)@ == s@,
    {
        sort_dedup(v);
        DefinitelySorted(v.as_slice())
    }

    /// The unchecked construction path: no scan, no cost. The sortedness
    /// obligation rests wholly on the caller; a verified caller discharges
    /// it statically, an unverified one must know its data. This is the
    /// one place correctness depends on a caller contract: handing in an
    /// unsorted slice does not crash, it silently corrupts query results
    /// and mutation invariants.
    pub fn hasty_new(v: &'a [u64]) -> (s: DefinitelySorted<'a>)
        requires
            strictly_sorted(v@),
        ensures
            s.wf(),
            s@ == v@,
    {
        DefinitelySorted(v)
    }
}

/// Sorts the caller's data in place and returns a sorted view over it;
/// a free-function spelling of [`DefinitelySorted::new`].
pub fn make_sorted<'a>(v: &'a mut Vec<u64>) -> (s: DefinitelySorted<'a>)
    ensures
        s.wf(),
        strictly_sorted(s@),
        forall|x: u64| s@.contains(x) <==> old(v)@.contains(x),
        final(v)@ == s@,
{
    DefinitelySorted::new(v)
}

/// Scans once and returns a view only over a slice that is already strictly
/// ascending; `None` reports the defensive check's failure.
pub fn assert_sorted<'a>(v: &'a [u64]) -> (r: Option<DefinitelySorted<'a>>)
    ensures
        r is Some <==> strictly_sorted(v@),
        r matches Some(s) ==> s.wf() && s@ == v@,
{
    let mut i: usize = 1;
    while i < v.len()
        invariant
            1 <= i,
            forall|j: int| 0 < j < i && j < v@.len() ==> #[trigger] v@[j] > v@[j - 1],
        decreases v@.len() - i,
    {
        if v[i - 1] >= v[i] {
            return None;
        }
        i += 1;
    }
    proof {
        lemma_adjacent_implies_sorted(v@);
    }
    Some(DefinitelySorted(v))
}

/// Sorts in place, dropping repeated elements: the element set is kept, the
/// order becomes strictly ascending.
fn sort_dedup(v: &mut Vec<u64>)
    ensures
        strictly_sorted(final(v)@),
        forall|x: u64| final(v)@.contains(x) <==> old(v)@.contains(x),
{
    let mut out: Vec<u64> = Vec::new();
    let mut i: usize = 0;
    while i < v.len()
        invariant
            i <= v@.len(),
            v@ == old(v)@,
            strictly_sorted(out@),
            forall|x: u64| out@.contains(x) <==> v@.take(i as int).contains(x),
        decreases v@.len() - i,
    {
        let x = v[i];
        let ghost pre = out@;
        proof {
            assert(v@.take(i + 1) =~= v@.take(i as int).push(v@[i as int]));
        }
        let mut j: usize = 0;
        while j < out.len() && out[j] < x
            invariant
                j <= out@.len(),
                out@ == pre,
                forall|l: int| 0 <= l < j ==> out@[l] < x,
            decreases out@.len() - j,
        {
            j += 1;
        }
        if j == out.len() || x < out[j] {
            out.insert(j, x);
            proof {
                pre.insert_ensures(j as int, x);
                assert forall|p: int, q: int|
                    0 <= p < q < out@.len() implies out@[p] < out@[q] by {
                    if q < j {
                        assert(out@[p] == pre[p] && out@[q] == pre[q]);
                    } else if p >= j + 1 {
                        assert(out@[p] == pre[p - 1] && out@[q] == pre[q - 1]);
                    } else if q == j {
                        assert(out@[p] == pre[p] && pre[p] < x);
                    } else if p == j {
                        assert(out@[q] == pre[q - 1]);
                        assert(j < pre.len() ==> x < pre[j as int]);
                        assert(q - 1 > j ==> pre[j as int] < pre[q - 1]);
                    } else {
                        assert(out@[p] == pre[p] && out@[q] == pre[q - 1]);
                        assert(pre[p] < x);
                        assert(j < pre.len() ==> x < pre[j as int]);
                        assert(q - 1 > j ==> pre[j as int] < pre[q - 1]);
                    }
                }
                assert(out@[j as int] == x);
                assert forall|y: u64| out@.contains(y) implies v@.take(i + 1).contains(y) by {
                    let l = choose|l: int| 0 <= l < out@.len() && #[trigger] out@[l] == y;
                    if l < j {
                        assert(pre[l] == y);
                        assert(pre.contains(y));
                        assert(v@.take(i as int).contains(y));
                        let m = choose|m: int| 0 <= m < i && #[trigger] v@.take(i as int)[m] == y;
                        assert(v@.take(i + 1)[m] == y);
                    } else if l > j {
                        assert(pre[l - 1] == y);
                        assert(pre.contains(y));
                        assert(v@.take(i as int).contains(y));
                        let m = choose|m: int| 0 <= m < i && #[trigger] v@.take(i as int)[m] == y;
                        assert(v@.take(i + 1)[m] == y);
                    } else {
                        assert(v@.take(i + 1)[i as int] == y);
                    }
                }
                assert forall|y: u64| v@.take(i + 1).contains(y) implies out@.contains(y) by {
                    let l = choose|l: int| 0 <= l < i + 1 && #[trigger] v@.take(i + 1)[l] == y;
                    if l == i {
                        assert(out@[j as int] == y);
                    } else {
                        assert(v@.take(i as int)[l] == y);
                        assert(pre.contains(y));
                        let m = choose|m: int| 0 <= m < pre.len() && #[trigger] pre[m] == y;
                        if m < j {
                            assert(out@[m] == y);
                        } else {
                            assert(out@[m + 1] == y);
                        }
                    }
                }
            }
        } else {
            proof {
                assert(out@[j as int] == x);
                assert forall|y: u64| v@.take(i + 1).contains(y) implies out@.contains(y) by {
                    let l = choose|l: int| 0 <= l < i + 1 && #[trigger] v@.take(i + 1)[l] == y;
                    if l == i {
                        assert(out@[j as int] == y);
                    } else {
                        assert(v@.take(i as int)[l] == y);
                    }
                }
                assert forall|y: u64| out@.contains(y) implies v@.take(i + 1).contains(y) by {
                    assert(v@.take(i as int).contains(y));
                    let m = choose|m: int| 0 <= m < i && #[trigger] v@.take(i as int)[m] == y;
                    assert(v@.take(i + 1)[m] == y);
                }
            }
        }
        i += 1;
    }
    proof {
        assert(v@.take(v@.len() as int) =~= v@);
    }
    *v = out;
}


/// Keys at or beyond this length are refused by `insert`: a defensive
/// ceiling on the recursion depth of the descent.
pub const KEY_LEN_LIMIT: usize = 1024;

/// A trie node: an ordered list of (element, child) edges, strictly
/// ascending by element, plus the values whose set ends exactly here.
pub struct Node<V> {
    children: Vec<(u64, Node<V>)>,
    terminals: Vec<V>,
}

/// The set-trie: its root stands for the empty prefix.
pub struct SetTrie<V> {
    pub root: Node<V>,
}

impl<V> Node<V> {
    /// The edges out of this node are strictly ascending by element.
    pub closed spec fn locally_sorted(self) -> bool {
        forall|i: int, j: int|
            0 <= i < j < self.children@.len()
                ==> (#[trigger] self.children@[i]).0 < (#[trigger] self.children@[j]).0
    }

    /// Every edge out of this node is labelled strictly above `b`.
    pub closed spec fn elems_above(self, b: u64) -> bool {
        forall|i: int| 0 <= i < self.children@.len() ==> (#[trigger] self.children@[i]).0 > b
    }

    /// A dangling node: no edges and no values.
    pub closed spec fn is_empty_node(self) -> bool {
        self.children@.len() == 0 && self.terminals@.len() == 0
    }

    /// Some edge out of this node is labelled `e`.
    pub closed spec fn has_child(self, e: u64) -> bool {
        exists|i: int| 0 <= i < self.children@.len() && (#[trigger] self.children@[i]).0 == e
    }

    pub closed spec fn child_index(self, e: u64) -> int {
        choose|i: int| 0 <= i < self.children@.len() && (#[trigger] self.children@[i]).0 == e
    }

    /// The subtree the edge labelled `e` leads to.
    pub closed spec fn child(self, e: u64) -> Node<V> {
        self.children@[self.child_index(e)].1
    }

    /// The node reached from here by consuming `k` edge by edge.
    pub closed spec fn node_at(self, k: Seq<u64>) -> Option<Node<V>>
        decreases k.len(),
    {
        if k.len() == 0 {
            Some(self)
        } else if self.has_child(k[0]) {
            self.child(k[0]).node_at(k.drop_first())
        } else {
            None
        }
    }

    /// How many copies of the value `v` are stored under the set `k` in
    /// this subtree: the node-level mathematical model of the trie.
    pub closed spec fn count(self, k: Seq<u64>, v: V) -> nat {
        match self.node_at(k) {
            Some(m) => m.terminals@.to_multiset().count(v),
            None => 0,
        }
    }

    /// Well-formedness: edges strictly ascending at every node, every
    /// subtree's own edges strictly above the edge leading to it (hence
    /// every stored path is strictly ascending), and no reachable node
    /// both childless and valueless.
    pub closed spec fn inv(self) -> bool
        decreases self,
    {
        &&& self.locally_sorted()
        &&& forall|i: int|
            0 <= i < self.children@.len() ==> {
                let c = #[trigger] self.children@[i];
                &&& !c.1.is_empty_node()
                &&& c.1.elems_above(c.0)
                &&& c.1.inv()
            }
    }
}

impl<V> SetTrie<V> {
    /// The whole structure is well-formed.
    pub closed spec fn wf(self) -> bool {
        self.root.inv()
    }

    /// How many copies of `v` the trie stores under the set `k`: the
    /// trie's mathematical model, of which every operation's contract
    /// speaks.
    pub closed spec fn count(self, k: Seq<u64>, v: V) -> nat {
        self.root.count(k, v)
    }

    /// The trie stores `v` under `k` at least once.
    pub open spec fn stores(self, k: Seq<u64>, v: V) -> bool {
        self.count(k, v) > 0
    }
}

impl<V> Node<V> {
    /// Under sortedness an edge label determines its position: the model's
    /// `child_index`/`child` agree with any index found by search.
    proof fn lemma_child_index(self, e: u64, ci: int)
        requires
            self.locally_sorted(),
            0 <= ci < self.children@.len(),
            self.children@[ci].0 == e,
        ensures
            self.has_child(e),
            self.child_index(e) == ci,
            self.child(e) == self.children@[ci].1,
    {
        assert(self.has_child(e));
        let j = self.child_index(e);
        if j < ci {
            assert((self.children@[j]).0 < (self.children@[ci]).0);
        } else if j > ci {
            assert((self.children@[ci]).0 < (self.children@[j]).0);
        }
    }

    /// One descent step of the count model.
    proof fn lemma_count_step(self, k: Seq<u64>, v: V)
        requires
            k.len() > 0,
        ensures
            self.count(k, v) == if self.has_child(k[0]) {
                self.child(k[0]).count(k.drop_first(), v)
            } else {
                0nat
            },
    {
    }

    /// A dangling node stores nothing at all.
    proof fn lemma_empty_node_count(self, k: Seq<u64>, v: V)
        requires
            self.is_empty_node(),
        ensures
            self.count(k, v) == 0,
    {
        broadcast use group_to_multiset_ensures;

        if k.len() == 0 {
            assert(!self.terminals@.contains(v));
        } else {
            assert(!self.has_child(k[0]));
        }
    }

    /// Nodes with the same edge list store the same sets below them.
    proof fn lemma_same_children_count(self, other: Node<V>, k: Seq<u64>, v: V)
        requires
            self.locally_sorted(),
            other.children@ == self.children@,
            k.len() > 0,
        ensures
            other.count(k, v) == self.count(k, v),
    {
        self.lemma_count_step(k, v);
        other.lemma_count_step(k, v);
        if self.has_child(k[0]) {
            let ci = self.child_index(k[0]);
            self.lemma_child_index(k[0], ci);
            other.lemma_child_index(k[0], ci);
        } else {
            assert(!other.has_child(k[0]));
        }
    }

    /// Replacing the subtree of one edge only moves the counts that pass
    /// through that edge.
    proof fn lemma_update_child_count(self, other: Node<V>, ci: int, k: Seq<u64>, v: V)
        requires
            self.locally_sorted(),
            0 <= ci < self.children@.len(),
            other.children@.len() == self.children@.len(),
            forall|j: int|
                0 <= j < self.children@.len()
                    ==> (#[trigger] other.children@[j]).0 == self.children@[j].0,
            forall|j: int|
                0 <= j < self.children@.len() && j != ci
                    ==> (#[trigger] other.children@[j]).1 == self.children@[j].1,
            other.terminals@ == self.terminals@,
        ensures
            other.locally_sorted(),
            k.len() == 0 ==> other.count(k, v) == self.count(k, v),
            k.len() > 0 && k[0] == self.children@[ci].0 ==> self.count(k, v)
                == self.children@[ci].1.count(k.drop_first(), v) && other.count(k, v)
                == other.children@[ci].1.count(k.drop_first(), v),
            k.len() > 0 && k[0] != self.children@[ci].0 ==> other.count(k, v) == self.count(
                k,
                v,
            ),
    {
        assert forall|p: int, q: int|
            0 <= p < q < other.children@.len() implies (other.children@[p]).0 < (
        other.children@[q]).0 by {
            assert((self.children@[p]).0 < (self.children@[q]).0);
        }
        if k.len() > 0 {
            let e = k[0];
            self.lemma_count_step(k, v);
            other.lemma_count_step(k, v);
            if e == self.children@[ci].0 {
                self.lemma_child_index(e, ci);
                other.lemma_child_index(e, ci);
            } else if self.has_child(e) {
                let j = self.child_index(e);
                self.lemma_child_index(e, j);
                other.lemma_child_index(e, j);
            } else {
                assert(!other.has_child(e));
            }
        }
    }

    /// Splicing a new edge in at its sorted position leaves every count
    /// through the old edges unchanged, and routes exactly the keys that
    /// begin with the new element through the new subtree.
    proof fn lemma_insert_child_count(
        self,
        other: Node<V>,
        ip: int,
        e: u64,
        c: Node<V>,
        k: Seq<u64>,
        v: V,
    )
        requires
            self.locally_sorted(),
            0 <= ip <= self.children@.len(),
            forall|j: int| 0 <= j < ip ==> (#[trigger] self.children@[j]).0 < e,
            forall|j: int|
                ip <= j < self.children@.len() ==> (#[trigger] self.children@[j]).0 > e,
            other.children@ == self.children@.insert(ip, (e, c)),
            other.terminals@ == self.terminals@,
        ensures
            other.locally_sorted(),
            k.len() == 0 ==> other.count(k, v) == self.count(k, v),
            k.len() > 0 && k[0] == e ==> self.count(k, v) == 0 && other.count(k, v) == c.count(
                k.drop_first(),
                v,
            ),
            k.len() > 0 && k[0] != e ==> other.count(k, v) == self.count(k, v),
    {
        self.children@.insert_ensures(ip, (e, c));
        assert forall|p: int, q: int|
            0 <= p < q < other.children@.len() implies (other.children@[p]).0 < (
        other.children@[q]).0 by {
            if q < ip {
                assert(other.children@[p] == self.children@[p]);
                assert(other.children@[q] == self.children@[q]);
            } else if p > ip {
                assert(other.children@[p] == self.children@[p - 1]);
                assert(other.children@[q] == self.children@[q - 1]);
            } else if p == ip {
                assert(other.children@[q] == self.children@[q - 1]);
            } else if q == ip {
                assert(other.children@[p] == self.children@[p]);
            } else {
                assert(other.children@[p] == self.children@[p]);
                assert(other.children@[q] == self.children@[q - 1]);
            }
        }
        if k.len() > 0 {
            self.lemma_count_step(k, v);
            other.lemma_count_step(k, v);
            if k[0] == e {
                assert(other.children@[ip] == (e, c));
                other.lemma_child_index(e, ip);
                if self.has_child(e) {
                    let j = self.child_index(e);
                    assert(self.children@[j].0 == e);
                }
                assert(!self.has_child(e));
            } else if self.has_child(k[0]) {
                let j = self.child_index(k[0]);
                self.lemma_child_index(k[0], j);
                if j < ip {
                    assert(other.children@[j] == self.children@[j]);
                    other.lemma_child_index(k[0], j);
                } else {
                    assert(other.children@[j + 1] == self.children@[j]);
                    other.lemma_child_index(k[0], j + 1);
                }
            } else {
                assert forall|j: int|
                    0 <= j < other.children@.len() && (other.children@[j]).0 == k[0]
                        implies false by {
                    if j < ip {
                        assert(self.children@[j].0 == k[0]);
                    } else if j > ip {
                        assert(self.children@[j - 1].0 == k[0]);
                    }
                }
                assert(!other.has_child(k[0]));
            }
        }
    }

    /// Cutting one edge out removes exactly the counts that passed through
    /// it and leaves every other count unchanged.
    proof fn lemma_remove_child_count(self, other: Node<V>, ci: int, k: Seq<u64>, v: V)
        requires
            self.locally_sorted(),
            0 <= ci < self.children@.len(),
            other.children@ == self.children@.remove(ci),
            other.terminals@ == self.terminals@,
        ensures
            other.locally_sorted(),
            k.len() == 0 ==> other.count(k, v) == self.count(k, v),
            k.len() > 0 && k[0] == self.children@[ci].0 ==> other.count(k, v) == 0
                && self.count(k, v) == self.children@[ci].1.count(k.drop_first(), v),
            k.len() > 0 && k[0] != self.children@[ci].0 ==> other.count(k, v) == self.count(
                k,
                v,
            ),
    {
        self.children@.remove_ensures(ci);
        let e = self.children@[ci].0;
        assert forall|p: int, q: int|
            0 <= p < q < other.children@.len() implies (other.children@[p]).0 < (
        other.children@[q]).0 by {
            if q < ci {
                assert(other.children@[p] == self.children@[p]);
                assert(other.children@[q] == self.children@[q]);
            } else if p >= ci {
                assert(other.children@[p] == self.children@[p + 1]);
                assert(other.children@[q] == self.children@[q + 1]);
            } else {
                assert(other.children@[p] == self.children@[p]);
                assert(other.children@[q] == self.children@[q + 1]);
            }
        }
        if k.len() > 0 {
            self.lemma_count_step(k, v);
            other.lemma_count_step(k, v);
            if k[0] == e {
                self.lemma_child_index(e, ci);
                assert forall|j: int|
                    0 <= j < other.children@.len() && (other.children@[j]).0 == e
                        implies false by {
                    if j < ci {
                        assert(self.children@[j].0 == e);
                        assert(self.children@[j].0 < self.children@[ci].0);
                    } else {
                        assert(self.children@[j + 1].0 == e);
                        assert(self.children@[ci].0 < self.children@[j + 1].0);
                    }
                }
                assert(!other.has_child(e));
            } else if self.has_child(k[0]) {
                let j = self.child_index(k[0]);
                self.lemma_child_index(k[0], j);
                if j < ci {
                    assert(other.children@[j] == self.children@[j]);
                    other.lemma_child_index(k[0], j);
                } else {
                    assert(j > ci);
                    assert(other.children@[j - 1] == self.children@[j]);
                    other.lemma_child_index(k[0], j - 1);
                }
            } else {
                assert forall|j: int|
                    0 <= j < other.children@.len() && (other.children@[j]).0 == k[0]
                        implies false by {
                    if j < ci {
                        assert(self.children@[j].0 == k[0]);
                    } else {
                        assert(self.children@[j + 1].0 == k[0]);
                    }
                }
                assert(!other.has_child(k[0]));
            }
        }
    }
}

/// Two sequences are equal exactly when their heads and tails are.
proof fn lemma_head_tail_eq(a: Seq<u64>, b: Seq<u64>)
    requires
        a.len() > 0,
        b.len() > 0,
    ensures
        (a == b) <==> (a[0] == b[0] && a.drop_first() == b.drop_first()),
{
    if a[0] == b[0] && a.drop_first() == b.drop_first() {
        assert(a.drop_first().len() == b.drop_first().len());
        assert(a.len() == b.len());
        assert forall|i: int| 0 <= i < a.len() implies a[i] == b[i] by {
            if i > 0 {
                assert(a[i] == a.drop_first()[i - 1]);
                assert(b[i] == b.drop_first()[i - 1]);
            }
        }
        assert(a =~= b);
    }
}

impl<V: PartialEq> Node<V> {
    /// Binary search over the sorted edges: the exact position of `e`, or
    /// the slot where it belongs.
    fn find_child(&self, e: u64) -> (r: Result<usize, usize>)
        requires
            self.locally_sorted(),
        ensures
            match r {
                Ok(ci) => ci < self.children@.len() && self.children@[ci as int].0 == e,
                Err(ins) => {
                    &&& ins <= self.children@.len()
                    &&& forall|j: int| 0 <= j < ins ==> (#[trigger] self.children@[j]).0 < e
                    &&& forall|j: int|
                        ins <= j < self.children@.len()
                            ==> (#[trigger] self.children@[j]).0 > e
                },
            },
    {
        let mut lo: usize = 0;
        let mut hi: usize = self.children.len();
        while lo < hi
            invariant
                lo <= hi <= self.children@.len(),
                self.locally_sorted(),
                forall|j: int| 0 <= j < lo ==> (#[trigger] self.children@[j]).0 < e,
                forall|j: int|
                    hi <= j < self.children@.len() ==> (#[trigger] self.children@[j]).0 > e,
            decreases hi - lo,
        {
            let mid = lo + (hi - lo) / 2;
            let me = self.children[mid].0;
            if me < e {
                lo = mid + 1;
            } else if e < me {
                hi = mid;
            } else {
                return Ok(mid);
            }
        }
        Err(lo)
    }

    /// A fresh chain of single-child nodes for the key suffix from `i` on,
    /// ending in a node that holds exactly `{v}`.
    fn new_chain(k: &[u64], i: usize, v: V) -> (n: Node<V>)
        requires
            strictly_sorted(k@),
            i <= k@.len(),
        ensures
            n.inv(),
            !n.is_empty_node(),
            i < k@.len() ==> n.children@.len() == 1 && n.children@[0].0 == k@[i as int],
            i == k@.len() ==> n.children@.len() == 0,
            forall|k2: Seq<u64>, v2: V|
                #[trigger] n.count(k2, v2) == if k2 == k@.skip(i as int) && v2 == v {
                    1nat
                } else {
                    0nat
                },
        decreases k@.len() - i,
    {
        if i == k.len() {
            let mut terminals: Vec<V> = Vec::new();
            terminals.push(v);
            let n = Node { children: Vec::new(), terminals };
            proof {
                broadcast use group_to_multiset_ensures;
                broadcast use group_multiset_axioms;

                assert(k@.skip(i as int) =~= Seq::<u64>::empty());
                assert(n.terminals@ =~= Seq::<V>::empty().push(v));
                assert forall|k2: Seq<u64>, v2: V|
                    #[trigger] n.count(k2, v2) == if k2 == k@.skip(i as int) && v2 == v {
                        1nat
                    } else {
                        0nat
                    } by {
                    if k2.len() == 0 {
                        assert(k2 =~= k@.skip(i as int));
                        assert(Seq::<V>::empty().to_multiset() =~= Multiset::<V>::empty());
                        assert(n.terminals@.to_multiset() =~= Multiset::<V>::empty().insert(v));
                    } else {
                        assert(!n.has_child(k2[0]));
                    }
                }
            }
            n
        } else {
            let head = k[i];
            let sub = Self::new_chain(k, i + 1, v);
            let mut children: Vec<(u64, Node<V>)> = Vec::new();
            children.push((head, sub));
            let n = Node { children, terminals: Vec::new() };
            proof {
                broadcast use group_to_multiset_ensures;

                assert(n.children@.len() == 1);
                assert(n.children@[0] == (head, sub));
                assert(n.inv()) by {
                    assert forall|p: int| 0 <= p < sub.children@.len() implies (
                    #[trigger] sub.children@[p]).0 > head by {
                        assert(sub.children@[p].0 == k@[i + 1]);
                    }
                }
                let ghost ks = k@.skip(i as int);
                assert(ks.len() > 0 && ks[0] == k@[i as int]);
                assert(ks.drop_first() =~= k@.skip(i + 1));
                assert forall|k2: Seq<u64>, v2: V|
                    #[trigger] n.count(k2, v2) == if k2 == ks && v2 == v {
                        1nat
                    } else {
                        0nat
                    } by {
                    if k2.len() == 0 {
                        assert(!n.terminals@.contains(v2));
                    } else {
                        n.lemma_count_step(k2, v2);
                        if k2[0] == head {
                            n.lemma_child_index(head, 0);
                            assert(n.count(k2, v2) == sub.count(k2.drop_first(), v2));
                            lemma_head_tail_eq(k2, ks);
                        } else {
                            assert(!n.has_child(k2[0]));
                        }
                    }
                }
            }
            n
        }
    }
}


impl<V: PartialEq> Node<V> {
    /// Recursive descent of `insert`: consumes `k` from position `i` on,
    /// descending through existing edges and splicing a fresh chain at the
    /// first missing one.
    fn insert_rec(&mut self, k: &[u64], i: usize, v: V)
        requires
            old(self).inv(),
            strictly_sorted(k@),
            i <= k@.len(),
        ensures
            final(self).inv(),
            final(self).count(k@.skip(i as int), v) == old(self).count(k@.skip(i as int), v)
                + 1,
            forall|k2: Seq<u64>, v2: V|
                !(k2 == k@.skip(i as int) && v2 == v) ==> #[trigger] final(self).count(k2, v2)
                    == old(self).count(k2, v2),
            final(self).children@.len() >= old(self).children@.len(),
            final(self).terminals@.len() >= old(self).terminals@.len(),
            forall|b: u64|
                old(self).elems_above(b) && ((i as int) < k@.len() ==> b < k@[i as int])
                    ==> #[trigger] final(self).elems_above(b),
        decreases k@.len() - i,
    {
        if i == k.len() {
            let ghost oldn = *self;
            self.terminals.push(v);
            proof {
                broadcast use group_to_multiset_ensures;
                broadcast use group_multiset_axioms;

                let ghost fin = *self;
                let ghost ks = k@.skip(i as int);
                assert(ks =~= Seq::<u64>::empty());
                assert(fin.children@ == oldn.children@);
                assert(fin.terminals@ == oldn.terminals@.push(v));
                assert(fin.terminals@.to_multiset() =~= oldn.terminals@.to_multiset().insert(
                    v,
                ));
                assert forall|k2: Seq<u64>, v2: V| k2.len() > 0 implies #[trigger] fin.count(
                    k2,
                    v2,
                ) == oldn.count(k2, v2) by {
                    oldn.lemma_same_children_count(fin, k2, v2);
                }
                assert(fin.count(ks, v) == oldn.count(ks, v) + 1);
                assert forall|k2: Seq<u64>| k2.len() == 0 implies k2 == ks by {
                    assert(k2 =~= ks);
                }
                assert forall|v2: V| v2 != v implies #[trigger] fin.count(ks, v2) == oldn.count(
                    ks,
                    v2,
                ) by {
                    assert(fin.terminals@.to_multiset().count(v2)
                        == oldn.terminals@.to_multiset().count(v2));
                }
                assert forall|j: int| 0 <= j < fin.children@.len() implies {
                    let c = #[trigger] fin.children@[j];
                    &&& !c.1.is_empty_node()
                    &&& c.1.elems_above(c.0)
                    &&& c.1.inv()
                } by {
                    assert(oldn.children@[j] == fin.children@[j]);
                }
                assert(fin.inv());
            }
        } else {
            let e = k[i];
            match self.find_child(e) {
                Ok(ci) => {
                    let ghost oldn = *self;
                    let mut pair = self.children.remove(ci);
                    let ghost mid = *self;
                    let ghost oldpair = pair;
                    pair.1.insert_rec(k, i + 1, v);
                    let ghost newpair = pair;
                    self.children.insert(ci, pair);
                    proof {
                        let ghost fin = *self;
                        oldn.children@.remove_ensures(ci as int);
                        mid.children@.insert_ensures(ci as int, newpair);
                        assert(fin.children@ == mid.children@.insert(ci as int, newpair));
                        assert(fin.children@.len() == oldn.children@.len());
                        assert forall|j: int| 0 <= j < oldn.children@.len() implies (
                        #[trigger] fin.children@[j]).0 == oldn.children@[j].0 && (j != ci
                            ==> fin.children@[j].1 == oldn.children@[j].1) by {
                            if j < ci {
                                assert(fin.children@[j] == mid.children@[j]);
                                assert(mid.children@[j] == oldn.children@[j]);
                            } else if j == ci {
                                assert(fin.children@[j] == newpair);
                                assert(newpair.0 == oldpair.0);
                                assert(oldpair == oldn.children@[ci as int]);
                            } else {
                                assert(fin.children@[j] == mid.children@[j - 1]);
                                assert(mid.children@[j - 1] == oldn.children@[j]);
                            }
                        }
                        assert(fin.terminals@ == oldn.terminals@);
                        let ghost ks = k@.skip(i as int);
                        assert(ks.len() > 0);
                        assert(ks[0] == k@[i as int]);
                        assert(ks.drop_first() =~= k@.skip(i + 1));
                        assert(oldpair == oldn.children@[ci as int]);
                        assert(oldpair.1.inv() && !oldpair.1.is_empty_node()
                            && oldpair.1.elems_above(e));
                        assert forall|k2: Seq<u64>, v2: V|
                            #[trigger] fin.count(k2, v2) == oldn.count(k2, v2) + (
                        if k2 == ks && v2 == v {
                            1nat
                        } else {
                            0nat
                        }) by {
                            oldn.lemma_update_child_count(fin, ci as int, k2, v2);
                            if k2.len() == 0 {
                            } else if k2[0] == e {
                                lemma_head_tail_eq(k2, ks);
                                assert(fin.children@[ci as int].1 == newpair.1);
                                assert(fin.count(k2, v2) == newpair.1.count(
                                    k2.drop_first(),
                                    v2,
                                ));
                                assert(oldn.count(k2, v2) == oldpair.1.count(
                                    k2.drop_first(),
                                    v2,
                                ));
                                if k2.drop_first() == k@.skip(i + 1) && v2 == v {
                                    assert(k2 == ks);
                                } else {
                                    assert(newpair.1.count(k2.drop_first(), v2)
                                        == oldpair.1.count(k2.drop_first(), v2));
                                }
                            } else {
                                assert(k2 != ks);
                            }
                        }
                        assert(fin.inv()) by {
                            oldn.lemma_update_child_count(
                                fin,
                                ci as int,
                                Seq::<u64>::empty(),
                                v,
                            );
                            assert forall|j: int| 0 <= j < fin.children@.len() implies {
                                let c = #[trigger] fin.children@[j];
                                &&& !c.1.is_empty_node()
                                &&& c.1.elems_above(c.0)
                                &&& c.1.inv()
                            } by {
                                if j == ci {
                                    assert(fin.children@[j] == newpair);
                                    assert((i + 1 < k@.len()) ==> e < k@[i + 1]);
                                    assert(newpair.1.elems_above(e));
                                    assert(newpair.1.children@.len()
                                        >= oldpair.1.children@.len());
                                    assert(!newpair.1.is_empty_node());
                                } else {
                                    assert(fin.children@[j].1 == oldn.children@[j].1);
                                    assert(fin.children@[j].0 == oldn.children@[j].0);
                                }
                            }
                        }
                        assert forall|b: u64| oldn.elems_above(b) implies #[trigger] fin.elems_above(
                            b,
                        ) by {
                            assert forall|j: int| 0 <= j < fin.children@.len() implies (
                            #[trigger] fin.children@[j]).0 > b by {
                                assert(fin.children@[j].0 == oldn.children@[j].0);
                            }
                        }
                    }
                }
                Err(ins) => {
                    let ghost oldn = *self;
                    let chain = Self::new_chain(k, i + 1, v);
                    self.children.insert(ins, (e, chain));
                    proof {
                        let ghost fin = *self;
                        assert(fin.children@ == oldn.children@.insert(ins as int, (e, chain)));
                        oldn.children@.insert_ensures(ins as int, (e, chain));
                        assert(fin.terminals@ == oldn.terminals@);
                        let ghost ks = k@.skip(i as int);
                        assert(ks.len() > 0);
                        assert(ks[0] == k@[i as int]);
                        assert(ks.drop_first() =~= k@.skip(i + 1));
                        assert forall|k2: Seq<u64>, v2: V|
                            #[trigger] fin.count(k2, v2) == oldn.count(k2, v2) + (
                        if k2 == ks && v2 == v {
                            1nat
                        } else {
                            0nat
                        }) by {
                            oldn.lemma_insert_child_count(fin, ins as int, e, chain, k2, v2);
                            if k2.len() == 0 {
                            } else if k2[0] == e {
                                lemma_head_tail_eq(k2, ks);
                                assert(fin.count(k2, v2) == chain.count(k2.drop_first(), v2));
                            } else {
                                assert(k2 != ks);
                            }
                        }
                        assert(fin.inv()) by {
                            oldn.lemma_insert_child_count(
                                fin,
                                ins as int,
                                e,
                                chain,
                                Seq::<u64>::empty(),
                                v,
                            );
                            assert forall|j: int| 0 <= j < fin.children@.len() implies {
                                let c = #[trigger] fin.children@[j];
                                &&& !c.1.is_empty_node()
                                &&& c.1.elems_above(c.0)
                                &&& c.1.inv()
                            } by {
                                if j < ins {
                                    assert(fin.children@[j] == oldn.children@[j]);
                                } else if j == ins {
                                    assert(fin.children@[j] == (e, chain));
                                    assert(chain.elems_above(e)) by {
                                        if i + 1 < k@.len() {
                                            assert(chain.children@[0].0 == k@[i + 1]);
                                            assert(k@[i as int] < k@[i + 1]);
                                        }
                                    }
                                } else {
                                    assert(fin.children@[j] == oldn.children@[j - 1]);
                                }
                            }
                        }
                        assert forall|b: u64|
                            oldn.elems_above(b) && b < k@[i as int] implies #[trigger] fin.elems_above(
                            b,
                        ) by {
                            assert forall|j: int| 0 <= j < fin.children@.len() implies (
                            #[trigger] fin.children@[j]).0 > b by {
                                if j < ins {
                                    assert(fin.children@[j] == oldn.children@[j]);
                                } else if j == ins {
                                    assert(fin.children@[j].0 == e);
                                } else {
                                    assert(fin.children@[j] == oldn.children@[j - 1]);
                                }
                            }
                        }
                    }
                }
            }
        }
    }
}

impl<V: PartialEq> SetTrie<V> {
    /// An empty trie: a root with no edges and no values, storing nothing.
    pub fn new() -> (t: Self)
        ensures
            t.wf(),
            forall|k: Seq<u64>, v: V| #[trigger] t.count(k, v) == 0,
    {
        let t = SetTrie { root: Node { children: Vec::new(), terminals: Vec::new() } };
        proof {
            assert forall|k: Seq<u64>, v: V| #[trigger] t.count(k, v) == 0 by {
                t.root.lemma_empty_node_count(k, v);
            }
        }
        t
    }

    /// Stores one more copy of `v` under the set `k`: exactly the
    /// multiplicity of `(k, v)` grows by one, every other pair keeps its
    /// multiplicity, and well-formedness is preserved.
    pub fn insert(&mut self, k: DefinitelySorted<'_>, v: V)
        requires
            old(self).wf(),
            k.wf(),
            k@.len() < KEY_LEN_LIMIT,
        ensures
            final(self).wf(),
            final(self).count(k@, v) == old(self).count(k@, v) + 1,
            forall|k2: Seq<u64>, v2: V|
                !(k2 == k@ && v2 == v) ==> #[trigger] final(self).count(k2, v2) == old(
                    self,
                ).count(k2, v2),
    {
        proof {
            assert(k@.skip(0) =~= k@);
        }
        self.root.insert_rec(k.0, 0, v);
    }
}


/// With a lawful `==` on `V` — vstd's `obeys_concrete_eq` — the runtime
/// comparison coincides with mathematical equality, which is what the
/// value-scanning operations rest on.
proof fn lemma_concrete_eq_unfold<V: PartialEq>()
    requires
        obeys_concrete_eq::<V>(),
    ensures
        V::obeys_eq_spec(),
        forall|x: V, y: V| #[trigger] x.eq_spec(&y) <==> x == y,
{
    reveal(obeys_concrete_eq);
}

impl<V: PartialEq> Node<V> {
    /// Recursive descent of `contains`: read-only twin of `remove_rec`.
    #[verifier::loop_isolation(false)]
    fn contains_rec(&self, k: &[u64], i: usize, v: &V) -> (r: bool)
        requires
            self.inv(),
            i <= k@.len(),
            obeys_concrete_eq::<V>(),
        ensures
            r == (self.count(k@.skip(i as int), *v) > 0),
        decreases k@.len() - i,
    {
        proof {
            lemma_concrete_eq_unfold::<V>();
        }
        if i == k.len() {
            proof {
                broadcast use group_to_multiset_ensures;

                assert(k@.skip(i as int) =~= Seq::<u64>::empty());
            }
            let mut j: usize = 0;
            while j < self.terminals.len()
                invariant
                    j <= self.terminals@.len(),
                    forall|l: int| 0 <= l < j ==> self.terminals@[l] != *v,
                decreases self.terminals@.len() - j,
            {
                if *v == self.terminals[j] {
                    proof {
                        broadcast use group_to_multiset_ensures;

                        assert(self.terminals@.contains(*v));
                    }
                    return true;
                }
                j += 1;
            }
            proof {
                broadcast use group_to_multiset_ensures;

                assert(!self.terminals@.contains(*v));
            }
            false
        } else {
            let e = k[i];
            match self.find_child(e) {
                Ok(ci) => {
                    proof {
                        self.lemma_child_index(e, ci as int);
                        self.lemma_count_step(k@.skip(i as int), *v);
                        assert(k@.skip(i as int)[0] == e);
                        assert(k@.skip(i as int).drop_first() =~= k@.skip(i + 1));
                    }
                    self.children[ci].1.contains_rec(k, i + 1, v)
                }
                Err(_) => {
                    proof {
                        let ghost ks = k@.skip(i as int);
                        assert(ks[0] == e);
                        if self.has_child(e) {
                            let j = self.child_index(e);
                            assert(self.children@[j].0 == e);
                        }
                        self.lemma_count_step(ks, *v);
                    }
                    false
                }
            }
        }
    }

    /// Recursive descent of `remove`: the same binary-search walk, plus
    /// the unconditional bottom-up pruning of emptied nodes on the unwind.
    #[verifier::loop_isolation(false)]
    fn remove_rec(&mut self, k: &[u64], i: usize, v: &V) -> (r: Option<V>)
        requires
            old(self).inv(),
            i <= k@.len(),
            obeys_concrete_eq::<V>(),
        ensures
            final(self).inv(),
            old(self).count(k@.skip(i as int), *v) > 0 ==> r == Some(*v) && final(self).count(
                k@.skip(i as int),
                *v,
            ) == old(self).count(k@.skip(i as int), *v) - 1,
            old(self).count(k@.skip(i as int), *v) == 0 ==> r is None && final(self).count(
                k@.skip(i as int),
                *v,
            ) == 0,
            forall|k2: Seq<u64>, v2: V|
                !(k2 == k@.skip(i as int) && v2 == *v) ==> #[trigger] final(self).count(k2, v2)
                    == old(self).count(k2, v2),
            final(self).children@.len() <= old(self).children@.len(),
            final(self).terminals@.len() <= old(self).terminals@.len(),
            forall|b: u64| old(self).elems_above(b) ==> #[trigger] final(self).elems_above(b),
        decreases k@.len() - i,
    {
        proof {
            lemma_concrete_eq_unfold::<V>();
        }
        if i == k.len() {
            proof {
                broadcast use group_to_multiset_ensures;

                assert(k@.skip(i as int) =~= Seq::<u64>::empty());
                assert forall|k2: Seq<u64>| #[trigger] k2.len() == 0 implies k2 == k@.skip(
                    i as int,
                ) by {
                    assert(k2 =~= k@.skip(i as int));
                }
            }
            let ghost oldn = *self;
            let mut j: usize = 0;
            while j < self.terminals.len()
                invariant
                    j <= self.terminals@.len(),
                    *self == oldn,
                    forall|l: int| 0 <= l < j ==> self.terminals@[l] != *v,
                decreases self.terminals@.len() - j,
            {
                if *v == self.terminals[j] {
                    let w = self.terminals.remove(j);
                    proof {
                        broadcast use group_to_multiset_ensures;
                        broadcast use group_multiset_axioms;

                        let ghost fin = *self;
                        assert(w == *v);
                        assert(oldn.terminals@.contains(*v));
                        assert(fin.terminals@ == oldn.terminals@.remove(j as int));
                        assert(fin.terminals@.to_multiset() =~= oldn.terminals@.to_multiset()
                            .remove(*v));
                        assert(fin.children@ == oldn.children@);
                        assert forall|k2: Seq<u64>, v2: V| k2.len() > 0 implies #[trigger] fin.count(
                            k2,
                            v2,
                        ) == oldn.count(k2, v2) by {
                            oldn.lemma_same_children_count(fin, k2, v2);
                        }
                        assert forall|l: int| 0 <= l < fin.children@.len() implies {
                            let c = #[trigger] fin.children@[l];
                            &&& !c.1.is_empty_node()
                            &&& c.1.elems_above(c.0)
                            &&& c.1.inv()
                        } by {
                            assert(oldn.children@[l] == fin.children@[l]);
                        }
                        assert(fin.inv());
                    }
                    return Some(w);
                }
                j += 1;
            }
            proof {
                broadcast use group_to_multiset_ensures;

                assert(!self.terminals@.contains(*v));
            }
            None
        } else {
            let e = k[i];
            let ghost ks = k@.skip(i as int);
            proof {
                assert(ks[0] == e);
                assert(ks.drop_first() =~= k@.skip(i + 1));
            }
            match self.find_child(e) {
                Ok(ci) => {
                    let ghost oldn = *self;
                    let mut pair = self.children.remove(ci);
                    let ghost mid = *self;
                    let ghost oldpair = pair;
                    let ret = pair.1.remove_rec(k, i + 1, v);
                    proof {
                        oldn.children@.remove_ensures(ci as int);
                        assert(mid.children@ == oldn.children@.remove(ci as int));
                        assert(oldpair == oldn.children@[ci as int]);
                        assert(oldpair.1.inv() && !oldpair.1.is_empty_node()
                            && oldpair.1.elems_above(e));
                        lemma_head_tail_eq_all(ks);
                    }
                    if pair.1.children.is_empty() && pair.1.terminals.is_empty() {
                        proof {
                            let ghost fin = *self;
                            let ghost newc = pair.1;
                            assert(newc.is_empty_node());
                            assert(ret is Some) by {
                                if ret is None {
                                    lemma_nonempty_has_witness(oldpair.1);
                                    let (p, w) = choose|p: Seq<u64>, w: V|
                                        #[trigger] oldpair.1.count(p, w) > 0;
                                    newc.lemma_empty_node_count(p, w);
                                    if p == k@.skip(i + 1) && w == *v {
                                        assert(oldpair.1.count(k@.skip(i + 1), *v) > 0);
                                    } else {
                                        assert(newc.count(p, w) == oldpair.1.count(p, w));
                                    }
                                }
                            }
                            assert(fin.children@ == mid.children@);
                            assert(fin.terminals@ == oldn.terminals@);
                            assert forall|k2: Seq<u64>, v2: V|
                                !(k2 == ks && v2 == *v) implies #[trigger] fin.count(k2, v2)
                                == oldn.count(k2, v2) by {
                                oldn.lemma_remove_child_count(fin, ci as int, k2, v2);
                                if k2.len() > 0 && k2[0] == e {
                                    lemma_head_tail_eq(k2, ks);
                                    assert(oldn.count(k2, v2) == oldpair.1.count(
                                        k2.drop_first(),
                                        v2,
                                    ));
                                    assert(oldpair.1.count(k2.drop_first(), v2) == newc.count(
                                        k2.drop_first(),
                                        v2,
                                    ));
                                    newc.lemma_empty_node_count(k2.drop_first(), v2);
                                }
                            }
                            oldn.lemma_remove_child_count(fin, ci as int, ks, *v);
                            newc.lemma_empty_node_count(k@.skip(i + 1), *v);
                            assert(fin.count(ks, *v) == 0);
                            assert(oldn.count(ks, *v) == oldpair.1.count(
                                k@.skip(i + 1),
                                *v,
                            ));
                            assert(fin.inv()) by {
                                assert forall|l: int| 0 <= l < fin.children@.len() implies {
                                    let c = #[trigger] fin.children@[l];
                                    &&& !c.1.is_empty_node()
                                    &&& c.1.elems_above(c.0)
                                    &&& c.1.inv()
                                } by {
                                    if l < ci {
                                        assert(fin.children@[l] == oldn.children@[l]);
                                    } else {
                                        assert(fin.children@[l] == oldn.children@[l + 1]);
                                    }
                                }
                            }
                            assert forall|b: u64| oldn.elems_above(b) implies #[trigger] fin.elems_above(
                                b,
                            ) by {
                                assert forall|l: int| 0 <= l < fin.children@.len() implies (
                                #[trigger] fin.children@[l]).0 > b by {
                                    if l < ci {
                                        assert(fin.children@[l] == oldn.children@[l]);
                                    } else {
                                        assert(fin.children@[l] == oldn.children@[l + 1]);
                                    }
                                }
                            }
                        }
                        ret
                    } else {
                        let ghost newpair = pair;
                        self.children.insert(ci, pair);
                        proof {
                            let ghost fin = *self;
                            mid.children@.insert_ensures(ci as int, newpair);
                            assert(fin.children@ == mid.children@.insert(ci as int, newpair));
                            assert(fin.children@.len() == oldn.children@.len());
                            assert forall|j: int| 0 <= j < oldn.children@.len() implies (
                            #[trigger] fin.children@[j]).0 == oldn.children@[j].0 && (j != ci
                                ==> fin.children@[j].1 == oldn.children@[j].1) by {
                                if j < ci {
                                    assert(fin.children@[j] == mid.children@[j]);
                                    assert(mid.children@[j] == oldn.children@[j]);
                                } else if j == ci {
                                    assert(fin.children@[j] == newpair);
                                    assert(newpair.0 == oldpair.0);
                                } else {
                                    assert(fin.children@[j] == mid.children@[j - 1]);
                                    assert(mid.children@[j - 1] == oldn.children@[j]);
                                }
                            }
                            assert(fin.terminals@ == oldn.terminals@);
                            assert forall|k2: Seq<u64>, v2: V|
                                !(k2 == ks && v2 == *v) implies #[trigger] fin.count(k2, v2)
                                == oldn.count(k2, v2) by {
                                oldn.lemma_update_child_count(fin, ci as int, k2, v2);
                                if k2.len() > 0 && k2[0] == e {
                                    lemma_head_tail_eq(k2, ks);
                                    assert(fin.count(k2, v2) == newpair.1.count(
                                        k2.drop_first(),
                                        v2,
                                    ));
                                    assert(oldn.count(k2, v2) == oldpair.1.count(
                                        k2.drop_first(),
                                        v2,
                                    ));
                                }
                            }
                            oldn.lemma_update_child_count(fin, ci as int, ks, *v);
                            assert(fin.count(ks, *v) == newpair.1.count(k@.skip(i + 1), *v));
                            assert(oldn.count(ks, *v) == oldpair.1.count(k@.skip(i + 1), *v));
                            assert(fin.inv()) by {
                                assert forall|j: int| 0 <= j < fin.children@.len() implies {
                                    let c = #[trigger] fin.children@[j];
                                    &&& !c.1.is_empty_node()
                                    &&& c.1.elems_above(c.0)
                                    &&& c.1.inv()
                                } by {
                                    if j == ci {
                                        assert(fin.children@[j] == newpair);
                                        assert(newpair.1.elems_above(e));
                                        assert(!newpair.1.is_empty_node());
                                    } else {
                                        assert(fin.children@[j].1 == oldn.children@[j].1);
                                        assert(fin.children@[j].0 == oldn.children@[j].0);
                                    }
                                }
                            }
                            assert forall|b: u64| oldn.elems_above(b) implies #[trigger] fin.elems_above(
                                b,
                            ) by {
                                assert forall|l: int| 0 <= l < fin.children@.len() implies (
                                #[trigger] fin.children@[l]).0 > b by {
                                    assert(fin.children@[l].0 == oldn.children@[l].0);
                                }
                            }
                        }
                        ret
                    }
                }
                Err(_) => {
                    proof {
                        if self.has_child(e) {
                            let j = self.child_index(e);
                            assert(self.children@[j].0 == e);
                        }
                        self.lemma_count_step(ks, *v);
                    }
                    None
                }
            }
        }
    }
}

/// A well-formed node that is not dangling stores at least one
/// (set, value) pair somewhere below it: the heart of why unconditional
/// pruning never has to look deeper than "both lists empty".
proof fn lemma_nonempty_has_witness<V>(n: Node<V>)
    requires
        n.inv(),
        !n.is_empty_node(),
    ensures
        exists|p: Seq<u64>, w: V| #[trigger] n.count(p, w) > 0,
    decreases n,
{
    broadcast use group_to_multiset_ensures;

    if n.terminals@.len() > 0 {
        let w = n.terminals@[0];
        assert(n.terminals@.contains(w));
        assert(n.count(Seq::<u64>::empty(), w) > 0);
    } else {
        let c = n.children@[0];
        assert(c.1.inv() && !c.1.is_empty_node());
        lemma_nonempty_has_witness(c.1);
        let (p, w) = choose|p: Seq<u64>, w: V| #[trigger] c.1.count(p, w) > 0;
        let p2 = seq![c.0] + p;
        n.lemma_child_index(c.0, 0);
        n.lemma_count_step(p2, w);
        assert(p2[0] == c.0);
        assert(p2.drop_first() =~= p);
        assert(n.count(p2, w) > 0);
    }
}

/// Any key sequence is either empty or rebuilt from its head and tail;
/// stated for one sequence so quantified frame proofs can invoke it.
proof fn lemma_head_tail_eq_all(s: Seq<u64>)
    requires
        s.len() > 0,
    ensures
        forall|t: Seq<u64>|
            t.len() > 0 && t[0] == s[0] && t.drop_first() == s.drop_first() ==> t == s,
{
    assert forall|t: Seq<u64>|
        t.len() > 0 && t[0] == s[0] && t.drop_first() == s.drop_first() implies t == s by {
        lemma_head_tail_eq(t, s);
    }
}




impl<V: PartialEq> SetTrie<V> {
    /// Is `v` stored under the set `k`? Read-only; equality of values is
    /// the `PartialEq` of `V`.
    pub fn contains(&self, k: DefinitelySorted<'_>, v: &V) -> (r: bool)
        requires
            self.wf(),
            k.wf(),
            obeys_concrete_eq::<V>(),
        ensures
            r == self.stores(k@, *v),
    {
        proof {
            assert(k@.skip(0) =~= k@);
        }
        self.root.contains_rec(k.0, 0, v)
    }

    /// Removes one copy of `v` stored under `k` and returns it, or reports
    /// that no such copy exists. Exactly the multiplicity of `(k, v)` falls
    /// by one when it was positive; every other pair keeps its
    /// multiplicity; emptied nodes are pruned, so well-formedness — the
    /// no-dangling-node invariant included — is preserved.
    pub fn remove(&mut self, k: DefinitelySorted<'_>, v: &V) -> (r: Option<V>)
        requires
            old(self).wf(),
            k.wf(),
            obeys_concrete_eq::<V>(),
        ensures
            final(self).wf(),
            old(self).stores(k@, *v) ==> r == Some(*v) && final(self).count(k@, *v) == old(
                self,
            ).count(k@, *v) - 1,
            !old(self).stores(k@, *v) ==> r is None && final(self).count(k@, *v) == 0,
            forall|k2: Seq<u64>, v2: V|
                !(k2 == k@ && v2 == *v) ==> #[trigger] final(self).count(k2, v2) == old(
                    self,
                ).count(k2, v2),
    {
        proof {
            assert(k@.skip(0) =~= k@);
        }
        self.root.remove_rec(k.0, 0, v)
    }
}

/// `a`'s elements all occur in `b`: containment of the element sets, the
/// relation both containment queries are specified with.
pub open spec fn subset_elems(a: Seq<u64>, b: Seq<u64>) -> bool {
    forall|x: u64| a.contains(x) ==> b.contains(x)
}

/// The value `v` occurs among the references collected in `s`.
pub open spec fn has_val<V>(s: Seq<&V>, v: V) -> bool {
    exists|j: int| 0 <= j < s.len() && *s[j] == v
}

/// The values behind a sequence of references, in order.
pub open spec fn vals<V>(s: Seq<&V>) -> Seq<V> {
    s.map_values(|r: &V| *r)
}

impl<V> Node<V> {
    /// The subset query's result below this node for the query suffix `q`,
    /// in traversal order: this node's terminals first, then, for each
    /// query position in ascending order whose element labels an edge
    /// here, that subtree's own result.
    spec fn subs_seq(self, q: Seq<u64>) -> Seq<V>
        decreases q.len(), q.len() + 1,
    {
        self.terminals@ + self.subs_from(q, 0)
    }

    /// The children's part of `subs_seq`, from query position `j` on.
    spec fn subs_from(self, q: Seq<u64>, j: int) -> Seq<V>
        decreases q.len(), q.len() - j,
    {
        if j < 0 || j >= q.len() {
            Seq::empty()
        } else {
            (if self.has_child(q[j]) {
                self.child(q[j]).subs_seq(q.skip(j + 1))
            } else {
                Seq::empty()
            }) + self.subs_from(q, j + 1)
        }
    }

    /// The children's part of `subs_seq` up to (excluding) query position
    /// `b`: what a scan of the first `b` query elements has emitted.
    spec fn subs_pre(self, q: Seq<u64>, b: int) -> Seq<V>
        decreases q.len(), b,
    {
        if b <= 0 || b > q.len() {
            Seq::empty()
        } else {
            self.subs_pre(q, b - 1) + (if self.has_child(q[b - 1]) {
                self.child(q[b - 1]).subs_seq(q.skip(b))
            } else {
                Seq::empty()
            })
        }
    }

    /// The prefix and suffix of the subset scan assemble to the whole.
    proof fn lemma_subs_decomp(self, q: Seq<u64>, b: int)
        requires
            0 <= b <= q.len(),
        ensures
            self.subs_pre(q, b) + self.subs_from(q, b) == self.subs_from(q, 0),
        decreases b,
    {
        if b == 0 {
            assert(self.subs_pre(q, 0) + self.subs_from(q, 0) =~= self.subs_from(q, 0));
        } else {
            self.lemma_subs_decomp(q, b - 1);
            assert(self.subs_pre(q, b) + self.subs_from(q, b) =~= self.subs_pre(q, b - 1)
                + self.subs_from(q, b - 1));
        }
    }

    /// The superset query's result below this node for the query suffix
    /// `q`, in traversal order: with the query exhausted, this node's
    /// terminals first and then every subtree in ascending edge order;
    /// otherwise the subtrees of the edges up to the next query element,
    /// in ascending edge order, and nothing at or past the first larger
    /// edge.
    spec fn supers_seq(self, q: Seq<u64>) -> Seq<V>
        decreases self, self.children@.len() + 1,
    {
        (if q.len() == 0 {
            self.terminals@
        } else {
            Seq::<V>::empty()
        }) + self.supers_from(q, 0)
    }

    /// The children's part of `supers_seq`, from child index `i` on.
    spec fn supers_from(self, q: Seq<u64>, i: int) -> Seq<V>
        decreases self, self.children@.len() - i,
    {
        if i < 0 || i >= self.children@.len() {
            Seq::empty()
        } else {
            let e = self.children@[i].0;
            let c = self.children@[i].1;
            if q.len() == 0 {
                c.supers_seq(q) + self.supers_from(q, i + 1)
            } else if e < q[0] {
                c.supers_seq(q) + self.supers_from(q, i + 1)
            } else if e == q[0] {
                c.supers_seq(q.drop_first()) + self.supers_from(q, i + 1)
            } else {
                Seq::empty()
            }
        }
    }

    /// The children's part of `supers_seq` up to (excluding) child index
    /// `b`: what a scan of the first `b` edges has emitted.
    spec fn supers_pre(self, q: Seq<u64>, b: int) -> Seq<V>
        decreases self, b,
    {
        if b <= 0 || b > self.children@.len() {
            Seq::empty()
        } else {
            let e = self.children@[b - 1].0;
            let c = self.children@[b - 1].1;
            self.supers_pre(q, b - 1) + (if q.len() == 0 {
                c.supers_seq(q)
            } else if e < q[0] {
                c.supers_seq(q)
            } else if e == q[0] {
                c.supers_seq(q.drop_first())
            } else {
                Seq::<V>::empty()
            })
        }
    }

    /// Past an edge larger than the next query element nothing is emitted.
    proof fn lemma_supers_from_stopped(self, q: Seq<u64>, b: int)
        requires
            q.len() > 0,
            0 <= b <= self.children@.len(),
            b < self.children@.len() ==> self.children@[b].0 > q[0],
        ensures
            self.supers_from(q, b) == Seq::<V>::empty(),
    {
    }

    /// The prefix and suffix of the sorted child scan assemble to the
    /// whole.
    proof fn lemma_supers_decomp(self, q: Seq<u64>, b: int)
        requires
            self.locally_sorted(),
            0 <= b <= self.children@.len(),
        ensures
            self.supers_pre(q, b) + self.supers_from(q, b) == self.supers_from(q, 0),
        decreases b,
    {
        if b == 0 {
            assert(self.supers_pre(q, 0) + self.supers_from(q, 0) =~= self.supers_from(q, 0));
        } else {
            self.lemma_supers_decomp(q, b - 1);
            let e = self.children@[b - 1].0;
            if q.len() > 0 && e > q[0] {
                self.lemma_supers_from_stopped(q, b - 1);
                self.lemma_supers_from_stopped(q, b);
            }
            assert(self.supers_pre(q, b) + self.supers_from(q, b) =~= self.supers_pre(q, b - 1)
                + self.supers_from(q, b - 1));
        }
    }
}

impl<V> SetTrie<V> {
    /// The exact sequence of values `subsets` returns for the query `q`:
    /// a depth-first traversal that emits each visited node's terminals
    /// before anything from its descendants.
    pub closed spec fn subsets_seq(self, q: Seq<u64>) -> Seq<V> {
        self.root.subs_seq(q)
    }

    /// The exact sequence of values `supersets` returns for the query
    /// `q`: a depth-first traversal in ascending child order, a node's own
    /// terminals (once the query is exhausted there) before its
    /// descendants'.
    pub closed spec fn supersets_seq(self, q: Seq<u64>) -> Seq<V> {
        self.root.supers_seq(q)
    }
}

proof fn lemma_has_val_push<V>(s: Seq<&V>, r: &V)
    ensures
        forall|v: V| #[trigger] has_val(s.push(r), v) <==> has_val(s, v) || *r == v,
{
    assert forall|v: V| #[trigger] has_val(s.push(r), v) <==> has_val(s, v) || *r == v by {
        if has_val(s.push(r), v) {
            let j = choose|j: int| 0 <= j < s.push(r).len() && *s.push(r)[j] == v;
            if j < s.len() {
                assert(s[j] == s.push(r)[j]);
                assert(has_val(s, v));
            } else {
                assert(s.push(r)[s.len() as int] == r);
            }
        }
        if has_val(s, v) {
            let j = choose|j: int| 0 <= j < s.len() && *s[j] == v;
            assert(s.push(r)[j] == s[j]);
            assert(has_val(s.push(r), v));
        }
        if *r == v {
            assert(s.push(r)[s.len() as int] == r);
            assert(has_val(s.push(r), v));
        }
    }
}

/// A later suffix of a sequence is, as an element set, within an earlier one.
proof fn lemma_skip_subset(s: Seq<u64>, i: int, j: int)
    requires
        0 <= i <= j <= s.len(),
    ensures
        subset_elems(s.skip(j), s.skip(i)),
{
    assert forall|x: u64| s.skip(j).contains(x) implies s.skip(i).contains(x) by {
        let l = choose|l: int| 0 <= l < s.skip(j).len() && s.skip(j)[l] == x;
        assert(s.skip(i)[l + j - i] == x);
    }
}

/// In a strictly ascending sequence, an element of the suffix from `i`
/// that lies above `s[b]` lies in the suffix after `b`.
proof fn lemma_skip_above(s: Seq<u64>, i: int, b: int, x: u64)
    requires
        strictly_sorted(s),
        0 <= i <= b < s.len(),
        s.skip(i).contains(x),
        x > s[b],
    ensures
        s.skip(b + 1).contains(x),
{
    let l = choose|l: int| 0 <= l < s.skip(i).len() && s.skip(i)[l] == x;
    assert(s[i + l] == x);
    assert(i + l > b);
    assert(s.skip(b + 1)[i + l - b - 1] == x);
}

impl<V> Node<V> {
    /// Under the invariant every stored path is strictly ascending and
    /// starts at one of this node's own edges.
    proof fn lemma_paths_sorted(self, t: Seq<u64>)
        requires
            self.inv(),
            self.node_at(t) is Some,
        ensures
            strictly_sorted(t),
            t.len() > 0 ==> self.has_child(t[0]),
            t.len() > 0 ==> forall|l: int| 0 < l < t.len() ==> t[0] < #[trigger] t[l],
        decreases t.len(),
    {
        if t.len() > 0 {
            let e = t[0];
            let ci = self.child_index(e);
            assert(0 <= ci < self.children@.len() && self.children@[ci].0 == e);
            let c = self.child(e);
            assert(c.inv() && c.elems_above(e));
            let tr = t.drop_first();
            c.lemma_paths_sorted(tr);
            if tr.len() > 0 {
                let cj = c.child_index(tr[0]);
                assert(c.children@[cj].0 == tr[0]);
                assert(tr[0] > e);
            }
            assert forall|l: int| 0 < l < t.len() implies t[0] < #[trigger] t[l] by {
                assert(t[l] == tr[l - 1]);
                if l > 1 {
                    assert(tr[0] < tr[l - 1]);
                }
            }
            assert forall|p: int, q: int| 0 <= p < q < t.len() implies t[p] < t[q] by {
                if p > 0 {
                    assert(t[p] == tr[p - 1] && t[q] == tr[q - 1]);
                }
            }
        }
    }

    /// Some set stored below this node is contained, as an element set, in
    /// `q` and carries the value `v`.
    pub closed spec fn sub_match(self, q: Seq<u64>, v: V) -> bool {
        exists|t: Seq<u64>| #[trigger] self.count(t, v) > 0 && subset_elems(t, q)
    }

    /// As `sub_match`, restricted to stored sets that are empty or start
    /// with an element among the first `b` of `q`: what the query loop has
    /// covered after `b` steps.
    spec fn sub_match_before(self, q: Seq<u64>, b: int, v: V) -> bool {
        exists|t: Seq<u64>|
            #[trigger] self.count(t, v) > 0 && subset_elems(t, q) && (t.len() == 0
                || q.take(b).contains(t[0]))
    }
}


impl<V: PartialEq> Node<V> {
    /// Recursive walk of the subset query: emits this node's terminals
    /// unconditionally, then tries each remaining query element in turn as
    /// the next edge.
    #[verifier::loop_isolation(false)]
    fn report_subsets<'a>(&'a self, k: &[u64], i: usize, out: &mut Vec<&'a V>)
        requires
            self.inv(),
            strictly_sorted(k@),
            i <= k@.len(),
        ensures
            old(out)@.len() <= final(out)@.len(),
            forall|j: int| 0 <= j < old(out)@.len() ==> final(out)@[j] == old(out)@[j],
            forall|v: V|
                #[trigger] has_val(final(out)@, v) <==> has_val(old(out)@, v)
                    || self.sub_match(k@.skip(i as int), v),
            vals(final(out)@) == vals(old(out)@) + self.subs_seq(k@.skip(i as int)),
        decreases k@.len() - i,
    {
        let ghost q = k@.skip(i as int);
        let ghost out0 = out@;
        proof {
            assert(vals(out@) =~= vals(out0) + self.terminals@.take(0));
        }
        let mut ti: usize = 0;
        while ti < self.terminals.len()
            invariant
                ti <= self.terminals@.len(),
                out0.len() <= out@.len(),
                vals(out@) == vals(out0) + self.terminals@.take(ti as int),
                forall|j: int| 0 <= j < out0.len() ==> out@[j] == out0[j],
                forall|v: V|
                    #[trigger] has_val(out@, v) <==> has_val(out0, v) || (exists|l: int|
                        0 <= l < ti && #[trigger] self.terminals@[l] == v),
            decreases self.terminals@.len() - ti,
        {
            let ghost prev = out@;
            let r = &self.terminals[ti];
            out.push(r);
            proof {
                lemma_has_val_push(prev, r);
                assert(vals(out@) =~= vals(prev).push(self.terminals@[ti as int]));
                assert(self.terminals@.take(ti + 1) =~= self.terminals@.take(ti as int).push(
                    self.terminals@[ti as int],
                ));
                assert(vals(out@) =~= vals(out0) + self.terminals@.take(ti + 1));
                assert forall|v: V|
                    #[trigger] has_val(out@, v) <==> has_val(out0, v) || (exists|l: int|
                        0 <= l < ti + 1 && #[trigger] self.terminals@[l] == v) by {
                    if has_val(out@, v) && !has_val(out0, v) {
                        if has_val(prev, v) {
                            let l = choose|l: int| 0 <= l < ti && #[trigger] self.terminals@[l] == v;
                            assert(0 <= l < ti + 1 && self.terminals@[l] == v);
                        } else {
                            assert(*r == v);
                            assert(self.terminals@[ti as int] == v);
                        }
                    }
                    if exists|l: int| 0 <= l < ti + 1 && #[trigger] self.terminals@[l] == v {
                        let l = choose|l: int| 0 <= l < ti + 1 && #[trigger] self.terminals@[l] == v;
                        if l < ti {
                            assert(has_val(prev, v));
                        } else {
                            assert(*r == v);
                        }
                        assert(has_val(out@, v));
                    }
                    if has_val(out0, v) {
                        assert(has_val(prev, v));
                        assert(has_val(out@, v));
                    }
                }
            }
            ti += 1;
        }
        proof {
            broadcast use group_to_multiset_ensures;

            assert(q.take(0) =~= Seq::<u64>::empty());
            assert(self.terminals@.take(self.terminals@.len() as int) =~= self.terminals@);
            assert(vals(out@) =~= vals(out0) + self.terminals@ + self.subs_pre(q, 0));
            assert forall|v: V|
                ((exists|l: int| 0 <= l < self.terminals@.len() && #[trigger] self.terminals@[l] == v)
                    <==> self.sub_match_before(q, 0, v)) by {
                if exists|l: int| 0 <= l < self.terminals@.len() && #[trigger] self.terminals@[l] == v {
                    assert(self.terminals@.contains(v));
                    let ghost t0 = Seq::<u64>::empty();
                    assert(self.count(t0, v) > 0);
                    assert(subset_elems(t0, q)) by {
                        assert forall|x: u64| t0.contains(x) implies q.contains(x) by {
                            assert(false);
                        }
                    }
                    assert(self.sub_match_before(q, 0, v));
                }
                if self.sub_match_before(q, 0, v) {
                    let t = choose|t: Seq<u64>|
                        #[trigger] self.count(t, v) > 0 && subset_elems(t, q) && (t.len() == 0
                            || q.take(0).contains(t[0]));
                    if t.len() == 0 {
                        assert(t =~= Seq::<u64>::empty());
                        assert(self.terminals@.to_multiset().count(v) > 0);
                        assert(self.terminals@.contains(v));
                    } else {
                        assert(q.take(0).contains(t[0]));
                        assert(false);
                    }
                }
            }
        }
        let mut qi: usize = i;
        while qi < k.len()
            invariant
                i <= qi <= k@.len(),
                out0.len() <= out@.len(),
                vals(out@) == vals(out0) + self.terminals@ + self.subs_pre(q, qi - i),
                forall|j: int| 0 <= j < out0.len() ==> out@[j] == out0[j],
                forall|v: V|
                    #[trigger] has_val(out@, v) <==> has_val(out0, v) || self.sub_match_before(
                        q,
                        qi - i,
                        v,
                    ),
            decreases k@.len() - qi,
        {
            let e = k[qi];
            let ghost prev = out@;
            let ghost b = (qi - i) as int;
            proof {
                assert(q[b] == e);
                assert(q.take(b + 1) =~= q.take(b).push(q[b]));
            }
            match self.find_child(e) {
                Ok(ci) => {
                    proof {
                        self.lemma_child_index(e, ci as int);
                    }
                    let pair = &self.children[ci];
                    pair.1.report_subsets(k, qi + 1, out);
                    proof {
                        let ghost c = self.children@[ci as int].1;
                        assert(c == self.child(e));
                        assert(q.skip(b + 1) =~= k@.skip(qi + 1));
                        assert(self.subs_pre(q, b + 1) == self.subs_pre(q, b) + c.subs_seq(
                            q.skip(b + 1),
                        ));
                        assert(vals(out@) =~= vals(out0) + self.terminals@ + self.subs_pre(
                            q,
                            b + 1,
                        ));
                        assert forall|v: V|
                            #[trigger] has_val(out@, v) <==> has_val(out0, v)
                                || self.sub_match_before(q, b + 1, v) by {
                            if has_val(out@, v) && !has_val(out0, v) {
                                if has_val(prev, v) {
                                    let t = choose|t: Seq<u64>|
                                        #[trigger] self.count(t, v) > 0 && subset_elems(t, q)
                                            && (t.len() == 0 || q.take(b).contains(t[0]));
                                    if t.len() > 0 {
                                        let l = choose|l: int|
                                            0 <= l < q.take(b).len() && #[trigger] q.take(b)[l] == t[0];
                                        assert(q.take(b + 1)[l] == t[0]);
                                        assert(q.take(b + 1).contains(t[0]));
                                    }
                                    assert(self.sub_match_before(q, b + 1, v));
                                } else {
                                    let t1 = choose|t1: Seq<u64>|
                                        #[trigger] c.count(t1, v) > 0 && subset_elems(
                                            t1,
                                            k@.skip(qi + 1),
                                        );
                                    let t = seq![e] + t1;
                                    self.lemma_count_step(t, v);
                                    assert(t[0] == e);
                                    assert(t.drop_first() =~= t1);
                                    assert(self.count(t, v) > 0);
                                    lemma_skip_subset(k@, i as int, qi + 1);
                                    assert forall|x: u64| t.contains(x) implies q.contains(
                                        x,
                                    ) by {
                                        let l = choose|l: int|
                                            0 <= l < t.len() && #[trigger] t[l] == x;
                                        if l == 0 {
                                            assert(q[b] == x);
                                        } else {
                                            assert(t1[l - 1] == x);
                                            assert(t1.contains(x));
                                            assert(k@.skip(qi + 1).contains(x));
                                        }
                                    }
                                    assert(q.take(b + 1)[b] == e);
                                    assert(q.take(b + 1).contains(t[0]));
                                    assert(self.sub_match_before(q, b + 1, v));
                                }
                            }
                            if has_val(out0, v) {
                                let l = choose|l: int| 0 <= l < out0.len() && *(#[trigger] out0[l]) == v;
                                assert(*out@[l] == v);
                                assert(has_val(out@, v));
                            }
                            if !has_val(out0, v) && self.sub_match_before(q, b + 1, v) {
                                let t = choose|t: Seq<u64>|
                                    #[trigger] self.count(t, v) > 0 && subset_elems(t, q) && (
                                    t.len() == 0 || q.take(b + 1).contains(t[0]));
                                if t.len() == 0 || q.take(b).contains(t[0]) {
                                    assert(self.sub_match_before(q, b, v));
                                    assert(has_val(prev, v));
                                    let l = choose|l: int| 0 <= l < prev.len() && *(#[trigger] prev[l]) == v;
                                    assert(*out@[l] == v);
                                    assert(has_val(out@, v));
                                } else {
                                    let l = choose|l: int|
                                        0 <= l < q.take(b + 1).len() && #[trigger] q.take(b + 1)[l] == t[0];
                                    if l < b {
                                        assert(q.take(b)[l] == t[0]);
                                        assert(q.take(b).contains(t[0]));
                                    }
                                    assert(l == b);
                                    assert(t[0] == e);
                                    self.lemma_count_step(t, v);
                                    assert(c.count(t.drop_first(), v) > 0);
                                    self.lemma_paths_sorted(t);
                                    assert forall|x: u64|
                                        t.drop_first().contains(x) implies k@.skip(
                                        qi + 1,
                                    ).contains(x) by {
                                        let m = choose|m: int|
                                            0 <= m < t.drop_first().len() && #[trigger] t.drop_first()[m]
                                                == x;
                                        assert(t[m + 1] == x);
                                        assert(x > t[0]);
                                        assert(t.contains(x));
                                        assert(q.contains(x));
                                        lemma_skip_above(k@, i as int, qi as int, x);
                                    }
                                    assert(c.sub_match(k@.skip(qi + 1), v));
                                    assert(has_val(out@, v));
                                }
                            }
                        }
                    }
                }
                Err(_) => {
                    proof {
                        if self.has_child(e) {
                            let j = self.child_index(e);
                            assert(self.children@[j].0 == e);
                        }
                        assert(!self.has_child(e));
                        assert(self.subs_pre(q, b + 1) =~= self.subs_pre(q, b));
                        assert(vals(out@) =~= vals(out0) + self.terminals@ + self.subs_pre(
                            q,
                            b + 1,
                        ));
                        assert forall|v: V|
                            self.sub_match_before(q, b + 1, v) <==> self.sub_match_before(
                                q,
                                b,
                                v,
                            ) by {
                            if self.sub_match_before(q, b + 1, v) {
                                let t = choose|t: Seq<u64>|
                                    #[trigger] self.count(t, v) > 0 && subset_elems(t, q) && (
                                    t.len() == 0 || q.take(b + 1).contains(t[0]));
                                if t.len() > 0 && !q.take(b).contains(t[0]) {
                                    let l = choose|l: int|
                                        0 <= l < q.take(b + 1).len() && #[trigger] q.take(b + 1)[l] == t[0];
                                    if l < b {
                                        assert(q.take(b)[l] == t[0]);
                                        assert(q.take(b).contains(t[0]));
                                    }
                                    assert(l == b);
                                    assert(t[0] == e);
                                    self.lemma_count_step(t, v);
                                    assert(false);
                                }
                                assert(self.sub_match_before(q, b, v));
                            }
                            if self.sub_match_before(q, b, v) {
                                let t = choose|t: Seq<u64>|
                                    #[trigger] self.count(t, v) > 0 && subset_elems(t, q) && (
                                    t.len() == 0 || q.take(b).contains(t[0]));
                                if t.len() > 0 {
                                    let l = choose|l: int|
                                        0 <= l < q.take(b).len() && #[trigger] q.take(b)[l] == t[0];
                                    assert(q.take(b + 1)[l] == t[0]);
                                    assert(q.take(b + 1).contains(t[0]));
                                }
                                assert(self.sub_match_before(q, b + 1, v));
                            }
                        }
                    }
                }
            }
            qi += 1;
        }
        proof {
            assert(q.take(k@.len() - i) =~= q);
            self.lemma_subs_decomp(q, q.len() as int);
            assert(self.subs_from(q, q.len() as int) =~= Seq::<V>::empty());
            assert(self.subs_from(q, 0) =~= self.subs_pre(q, q.len() as int));
            assert(vals(out@) =~= vals(out0) + self.subs_seq(q));
            assert forall|v: V|
                self.sub_match_before(q, k@.len() - i, v) <==> self.sub_match(q, v) by {
                if self.sub_match_before(q, k@.len() - i, v) {
                    let t = choose|t: Seq<u64>|
                        #[trigger] self.count(t, v) > 0 && subset_elems(t, q) && (t.len() == 0
                            || q.take(k@.len() - i).contains(t[0]));
                    assert(self.sub_match(q, v));
                }
                if self.sub_match(q, v) {
                    let t = choose|t: Seq<u64>|
                        #[trigger] self.count(t, v) > 0 && subset_elems(t, q);
                    if t.len() > 0 {
                        assert(t.contains(t[0]));
                        assert(q.contains(t[0]));
                    }
                    assert(self.sub_match_before(q, k@.len() - i, v));
                }
            }
        }
    }
}

impl<V: PartialEq> SetTrie<V> {
    /// Every stored value whose set is contained in the query set, by
    /// reference, each stored copy exactly once: the result is, value for
    /// value and in order, [`Self::subsets_seq`] — the traversal that
    /// emits each visited node's terminals before anything from its
    /// descendants. In particular `v` appears among the results exactly
    /// when some stored set `t` with `t ⊆ k` carries it.
    pub fn subsets<'a>(&'a self, k: DefinitelySorted<'a>) -> (r: Vec<&'a V>)
        requires
            self.wf(),
            k.wf(),
        ensures
            forall|v: V|
                #[trigger] has_val(r@, v) <==> exists|t: Seq<u64>|
                    #[trigger] self.count(t, v) > 0 && subset_elems(t, k@),
            vals(r@) == self.subsets_seq(k@),
    {
        let mut ret: Vec<&V> = Vec::new();
        proof {
            assert(k@.skip(0) =~= k@);
        }
        self.root.report_subsets(k.0, 0, &mut ret);
        proof {
            assert(vals(Seq::<&V>::empty()) =~= Seq::<V>::empty());
            assert(vals(ret@) =~= self.subsets_seq(k@));
        }
        proof {
            assert forall|v: V|
                #[trigger] has_val(ret@, v) <==> exists|t: Seq<u64>|
                    #[trigger] self.count(t, v) > 0 && subset_elems(t, k@) by {
                assert(!has_val(Seq::<&V>::empty(), v));
                if has_val(ret@, v) {
                    let t = choose|t: Seq<u64>|
                        #[trigger] self.root.count(t, v) > 0 && subset_elems(t, k@);
                    assert(self.count(t, v) > 0 && subset_elems(t, k@));
                }
                if exists|t: Seq<u64>| #[trigger] self.count(t, v) > 0 && subset_elems(t, k@) {
                    let t = choose|t: Seq<u64>|
                        #[trigger] self.count(t, v) > 0 && subset_elems(t, k@);
                    assert(self.root.count(t, v) > 0);
                    assert(self.root.sub_match(k@, v));
                }
            }
        }
        ret
    }
}


impl<V> Node<V> {
    /// Some set stored below this node contains every element of `q` and
    /// carries the value `v`.
    pub closed spec fn super_match(self, q: Seq<u64>, v: V) -> bool {
        exists|t: Seq<u64>| #[trigger] self.count(t, v) > 0 && subset_elems(q, t)
    }

    /// As `super_match`, restricted to stored sets entered through one of
    /// the first `c` edges of this node: what the child scan has covered.
    spec fn super_match_upto(self, q: Seq<u64>, c: int, v: V) -> bool {
        exists|t: Seq<u64>|
            #[trigger] self.count(t, v) > 0 && subset_elems(q, t) && t.len() > 0 && (exists|
                j: int,
            | 0 <= j < c && (#[trigger] self.children@[j]).0 == t[0])
    }
}

impl<V: PartialEq> Node<V> {
    /// Recursive walk of the superset query. With the query exhausted,
    /// everything below this node qualifies; otherwise the sorted child
    /// scan follows edges below the next query element with the query
    /// unconsumed, follows the equal edge with it consumed, and stops at
    /// the first larger edge — no stored set through it can still contain
    /// the next query element.
    #[verifier::loop_isolation(false)]
    fn report_supersets<'a>(&'a self, k: &[u64], i: usize, out: &mut Vec<&'a V>)
        requires
            self.inv(),
            strictly_sorted(k@),
            i <= k@.len(),
        ensures
            old(out)@.len() <= final(out)@.len(),
            forall|j: int| 0 <= j < old(out)@.len() ==> final(out)@[j] == old(out)@[j],
            forall|v: V|
                #[trigger] has_val(final(out)@, v) <==> has_val(old(out)@, v)
                    || self.super_match(k@.skip(i as int), v),
            vals(final(out)@) == vals(old(out)@) + self.supers_seq(k@.skip(i as int)),
        decreases self,
    {
        let ghost q = k@.skip(i as int);
        let ghost out0 = out@;
        if i == k.len() {
            proof {
                assert(q =~= Seq::<u64>::empty());
            }
            proof {
                assert(vals(out@) =~= vals(out0) + self.terminals@.take(0));
            }
            let mut ti: usize = 0;
            while ti < self.terminals.len()
                invariant
                    ti <= self.terminals@.len(),
                    out0.len() <= out@.len(),
                    vals(out@) == vals(out0) + self.terminals@.take(ti as int),
                    forall|j: int| 0 <= j < out0.len() ==> out@[j] == out0[j],
                    forall|v: V|
                        #[trigger] has_val(out@, v) <==> has_val(out0, v) || (exists|l: int|
                            0 <= l < ti && #[trigger] self.terminals@[l] == v),
                decreases self.terminals@.len() - ti,
            {
                let ghost prev = out@;
                let r = &self.terminals[ti];
                out.push(r);
                proof {
                    lemma_has_val_push(prev, r);
                    assert(vals(out@) =~= vals(prev).push(self.terminals@[ti as int]));
                    assert(self.terminals@.take(ti + 1) =~= self.terminals@.take(
                        ti as int,
                    ).push(self.terminals@[ti as int]));
                    assert(vals(out@) =~= vals(out0) + self.terminals@.take(ti + 1));
                    assert forall|v: V|
                        #[trigger] has_val(out@, v) <==> has_val(out0, v) || (exists|l: int|
                            0 <= l < ti + 1 && #[trigger] self.terminals@[l] == v) by {
                        if has_val(out@, v) && !has_val(out0, v) {
                            if has_val(prev, v) {
                                let l = choose|l: int|
                                    0 <= l < ti && #[trigger] self.terminals@[l] == v;
                                assert(0 <= l < ti + 1 && self.terminals@[l] == v);
                            } else {
                                assert(self.terminals@[ti as int] == v);
                            }
                        }
                        if exists|l: int| 0 <= l < ti + 1 && #[trigger] self.terminals@[l]
                            == v {
                            let l = choose|l: int|
                                0 <= l < ti + 1 && #[trigger] self.terminals@[l] == v;
                            if l < ti {
                                assert(has_val(prev, v));
                            } else {
                                assert(*r == v);
                            }
                            assert(has_val(out@, v));
                        }
                        if has_val(out0, v) {
                            assert(has_val(prev, v));
                            assert(has_val(out@, v));
                        }
                    }
                }
                ti += 1;
            }
            proof {
                assert(self.terminals@.take(self.terminals@.len() as int)
                    =~= self.terminals@);
                assert(vals(out@) =~= vals(out0) + self.terminals@ + self.supers_pre(q, 0));
            }
            let mut ci: usize = 0;
            while ci < self.children.len()
                invariant
                    ci <= self.children@.len(),
                    out0.len() <= out@.len(),
                    vals(out@) == vals(out0) + self.terminals@ + self.supers_pre(q, ci as int),
                    forall|j: int| 0 <= j < out0.len() ==> out@[j] == out0[j],
                    forall|v: V|
                        #[trigger] has_val(out@, v) <==> has_val(out0, v) || (exists|l: int|
                            0 <= l < self.terminals@.len() && #[trigger] self.terminals@[l]
                                == v) || self.super_match_upto(q, ci as int, v),
                decreases self.children@.len() - ci,
            {
                let ghost prev = out@;
                let pair = &self.children[ci];
                proof {
                    assert(decreases_to!(self => pair.1));
                    self.lemma_child_index(pair.0, ci as int);
                }
                pair.1.report_supersets(k, i, out);
                proof {
                    let ghost e = self.children@[ci as int].0;
                    let ghost c = self.children@[ci as int].1;
                    assert(self.supers_pre(q, ci + 1) == self.supers_pre(q, ci as int)
                        + c.supers_seq(q));
                    assert(vals(out@) =~= vals(out0) + self.terminals@ + self.supers_pre(
                        q,
                        ci + 1,
                    ));
                    assert forall|v: V|
                        #[trigger] has_val(out@, v) <==> has_val(out0, v) || (exists|l: int|
                            0 <= l < self.terminals@.len() && #[trigger] self.terminals@[l]
                                == v) || self.super_match_upto(q, ci + 1, v) by {
                        if has_val(out@, v) && !has_val(prev, v) {
                            let t1 = choose|t1: Seq<u64>|
                                #[trigger] c.count(t1, v) > 0 && subset_elems(q, t1);
                            let t = seq![e] + t1;
                            self.lemma_count_step(t, v);
                            assert(t[0] == e);
                            assert(t.drop_first() =~= t1);
                            assert(self.count(t, v) > 0);
                            assert(subset_elems(q, t));
                            assert(0 <= ci < ci + 1 && self.children@[ci as int].0 == t[0]);
                            assert(self.super_match_upto(q, ci + 1, v));
                        }
                        if has_val(prev, v) {
                            let l = choose|l: int| 0 <= l < prev.len() && *(#[trigger] prev[l])
                                == v;
                            assert(*out@[l] == v);
                            assert(has_val(out@, v));
                            if !has_val(out0, v) && !(exists|l: int|
                                0 <= l < self.terminals@.len()
                                    && #[trigger] self.terminals@[l] == v) {
                                let t = choose|t: Seq<u64>|
                                    #[trigger] self.count(t, v) > 0 && subset_elems(q, t)
                                        && t.len() > 0 && (exists|j: int|
                                        0 <= j < ci && (#[trigger] self.children@[j]).0 == t[0]);
                                let j = choose|j: int|
                                    0 <= j < ci && (#[trigger] self.children@[j]).0 == t[0];
                                assert(0 <= j < ci + 1 && self.children@[j].0 == t[0]);
                                assert(self.super_match_upto(q, ci + 1, v));
                            }
                        }
                        if !has_val(prev, v) && self.super_match_upto(q, ci + 1, v) {
                            let t = choose|t: Seq<u64>|
                                #[trigger] self.count(t, v) > 0 && subset_elems(q, t)
                                    && t.len() > 0 && (exists|j: int|
                                    0 <= j < ci + 1 && (#[trigger] self.children@[j]).0 == t[0]);
                            let j = choose|j: int|
                                0 <= j < ci + 1 && (#[trigger] self.children@[j]).0 == t[0];
                            if j < ci {
                                assert(self.super_match_upto(q, ci as int, v));
                                assert(has_val(out@, v));
                            } else {
                                assert(t[0] == e);
                                self.lemma_count_step(t, v);
                                assert(c.count(t.drop_first(), v) > 0);
                                assert(subset_elems(q, t.drop_first()));
                                assert(c.super_match(q, v));
                                assert(has_val(out@, v));
                            }
                        }
                    }
                }
                ci += 1;
            }
            proof {
                broadcast use group_to_multiset_ensures;

                let ghost cn = self.children@.len() as int;
                self.lemma_supers_decomp(q, cn);
                assert(self.supers_from(q, cn) =~= Seq::<V>::empty());
                assert(self.supers_from(q, 0) =~= self.supers_pre(q, cn));
                assert(vals(out@) =~= vals(out0) + self.supers_seq(q));
                assert forall|v: V|
                    ((exists|l: int|
                        0 <= l < self.terminals@.len() && #[trigger] self.terminals@[l] == v)
                        || self.super_match_upto(q, cn, v)) <==> self.super_match(q, v) by {
                    if exists|l: int|
                        0 <= l < self.terminals@.len() && #[trigger] self.terminals@[l] == v {
                        assert(self.terminals@.contains(v));
                        let ghost t0 = Seq::<u64>::empty();
                        assert(self.count(t0, v) > 0);
                        assert(subset_elems(q, t0));
                        assert(self.super_match(q, v));
                    }
                    if self.super_match_upto(q, cn, v) {
                        let t = choose|t: Seq<u64>|
                            #[trigger] self.count(t, v) > 0 && subset_elems(q, t) && t.len() > 0
                                && (exists|j: int|
                                0 <= j < cn && (#[trigger] self.children@[j]).0 == t[0]);
                        assert(self.super_match(q, v));
                    }
                    if self.super_match(q, v) {
                        let t = choose|t: Seq<u64>|
                            #[trigger] self.count(t, v) > 0 && subset_elems(q, t);
                        if t.len() == 0 {
                            assert(t =~= Seq::<u64>::empty());
                            assert(self.terminals@.to_multiset().count(v) > 0);
                            assert(self.terminals@.contains(v));
                        } else {
                            assert(self.has_child(t[0]));
                            let j = self.child_index(t[0]);
                            assert(0 <= j < cn && self.children@[j].0 == t[0]);
                            assert(self.super_match_upto(q, cn, v));
                        }
                    }
                }
            }
        } else {
            let c0 = k[i];
            proof {
                assert(q.len() > 0);
                assert(q[0] == c0);
                assert(q.drop_first() =~= k@.skip(i + 1));
                assert forall|v: V| !self.super_match_upto(q, 0, v) by {
                    if self.super_match_upto(q, 0, v) {
                        let t = choose|t: Seq<u64>|
                            #[trigger] self.count(t, v) > 0 && subset_elems(q, t) && t.len() > 0
                                && (exists|j: int|
                                0 <= j < 0 && (#[trigger] self.children@[j]).0 == t[0]);
                        let j = choose|j: int|
                            0 <= j < 0 && (#[trigger] self.children@[j]).0 == t[0];
                    }
                }
            }
            proof {
                assert(vals(out@) =~= vals(out0) + self.supers_pre(q, 0));
            }
            let mut ci: usize = 0;
            let mut go = true;
            while go && ci < self.children.len()
                invariant
                    ci <= self.children@.len(),
                    out0.len() <= out@.len(),
                    vals(out@) == vals(out0) + self.supers_pre(q, ci as int),
                    forall|j: int| 0 <= j < out0.len() ==> out@[j] == out0[j],
                    !go ==> ci < self.children@.len() && self.children@[ci as int].0 > c0,
                    forall|v: V|
                        #[trigger] has_val(out@, v) <==> has_val(out0, v)
                            || self.super_match_upto(q, ci as int, v),
                decreases self.children@.len() - ci + (if go { 1int } else { 0int }),
            {
                let e = self.children[ci].0;
                if e > c0 {
                    go = false;
                } else {
                    let ghost prev = out@;
                    let pair = &self.children[ci];
                    proof {
                        assert(decreases_to!(self => pair.1));
                        self.lemma_child_index(e, ci as int);
                    }
                    let ghost c = self.children@[ci as int].1;
                    let ghost qc: Seq<u64> = if e == c0 {
                        q.drop_first()
                    } else {
                        q
                    };
                    if e < c0 {
                        pair.1.report_supersets(k, i, out);
                    } else {
                        pair.1.report_supersets(k, i + 1, out);
                    }
                    proof {
                        assert(self.supers_pre(q, ci + 1) == self.supers_pre(q, ci as int)
                            + c.supers_seq(qc));
                        assert(vals(out@) =~= vals(out0) + self.supers_pre(q, ci + 1));
                        assert forall|v: V|
                            #[trigger] has_val(out@, v) <==> has_val(out0, v)
                                || self.super_match_upto(q, ci + 1, v) by {
                            if has_val(out@, v) && !has_val(prev, v) {
                                let t1 = choose|t1: Seq<u64>|
                                    #[trigger] c.count(t1, v) > 0 && subset_elems(qc, t1);
                                let t = seq![e] + t1;
                                self.lemma_count_step(t, v);
                                assert(t[0] == e);
                                assert(t.drop_first() =~= t1);
                                assert(self.count(t, v) > 0);
                                assert(subset_elems(q, t)) by {
                                    assert forall|x: u64| q.contains(x) implies t.contains(
                                        x,
                                    ) by {
                                        let l = choose|l: int|
                                            0 <= l < q.len() && #[trigger] q[l] == x;
                                        if e == c0 && l == 0 {
                                            assert(t[0] == x);
                                        } else {
                                            if e == c0 {
                                                assert(q.drop_first()[l - 1] == x);
                                                assert(qc.contains(x));
                                            } else {
                                                assert(qc.contains(x));
                                            }
                                            let m = choose|m: int|
                                                0 <= m < t1.len() && #[trigger] t1[m] == x;
                                            assert(t[m + 1] == x);
                                        }
                                    }
                                }
                                assert(0 <= ci < ci + 1 && self.children@[ci as int].0 == t[0]);
                                assert(self.super_match_upto(q, ci + 1, v));
                            }
                            if has_val(prev, v) {
                                let l = choose|l: int| 0 <= l < prev.len() && *(
                                #[trigger] prev[l]) == v;
                                assert(*out@[l] == v);
                                assert(has_val(out@, v));
                                if !has_val(out0, v) {
                                    let t = choose|t: Seq<u64>|
                                        #[trigger] self.count(t, v) > 0 && subset_elems(q, t)
                                            && t.len() > 0 && (exists|j: int|
                                            0 <= j < ci && (#[trigger] self.children@[j]).0
                                                == t[0]);
                                    let j = choose|j: int|
                                        0 <= j < ci && (#[trigger] self.children@[j]).0 == t[0];
                                    assert(0 <= j < ci + 1 && self.children@[j].0 == t[0]);
                                    assert(self.super_match_upto(q, ci + 1, v));
                                }
                            }
                            if !has_val(prev, v) && self.super_match_upto(q, ci + 1, v) {
                                let t = choose|t: Seq<u64>|
                                    #[trigger] self.count(t, v) > 0 && subset_elems(q, t)
                                        && t.len() > 0 && (exists|j: int|
                                        0 <= j < ci + 1 && (#[trigger] self.children@[j]).0
                                            == t[0]);
                                let j = choose|j: int|
                                    0 <= j < ci + 1 && (#[trigger] self.children@[j]).0 == t[0];
                                if j < ci {
                                    assert(self.super_match_upto(q, ci as int, v));
                                    assert(has_val(out@, v));
                                } else {
                                    assert(t[0] == e);
                                    self.lemma_count_step(t, v);
                                    assert(c.count(t.drop_first(), v) > 0);
                                    self.lemma_paths_sorted(t);
                                    assert(subset_elems(qc, t.drop_first())) by {
                                        assert forall|x: u64| qc.contains(x) implies t.drop_first().contains(
                                            x,
                                        ) by {
                                            let l = choose|l: int|
                                                0 <= l < qc.len() && #[trigger] qc[l] == x;
                                            if e == c0 {
                                                assert(q[l + 1] == x);
                                            }
                                            assert(q.contains(x));
                                            assert(x >= q[0]) by {
                                                let l2 = choose|l2: int|
                                                    0 <= l2 < q.len() && #[trigger] q[l2] == x;
                                                assert(q[l2] == k@[i + l2]);
                                            }
                                            assert(x > e) by {
                                                if e == c0 {
                                                    assert(x == q[l + 1]);
                                                    assert(k@[i + l + 1] > k@[i as int]);
                                                }
                                            }
                                            assert(t.contains(x));
                                            let m = choose|m: int|
                                                0 <= m < t.len() && #[trigger] t[m] == x;
                                            assert(m > 0) by {
                                                if m == 0 {
                                                    assert(x == e);
                                                }
                                            }
                                            assert(t.drop_first()[m - 1] == x);
                                        }
                                    }
                                    assert(c.super_match(qc, v));
                                    assert(has_val(out@, v));
                                }
                            }
                        }
                    }
                    ci += 1;
                }
            }
            proof {
                self.lemma_supers_decomp(q, ci as int);
                assert(self.supers_from(q, ci as int) =~= Seq::<V>::empty());
                assert(self.supers_from(q, 0) =~= self.supers_pre(q, ci as int));
                assert(vals(out@) =~= vals(out0) + self.supers_seq(q));
                assert forall|v: V|
                    self.super_match(q, v) <==> self.super_match_upto(q, ci as int, v) by {
                    if self.super_match_upto(q, ci as int, v) {
                        let t = choose|t: Seq<u64>|
                            #[trigger] self.count(t, v) > 0 && subset_elems(q, t) && t.len() > 0
                                && (exists|j: int|
                                0 <= j < ci && (#[trigger] self.children@[j]).0 == t[0]);
                        assert(self.super_match(q, v));
                    }
                    if self.super_match(q, v) {
                        let t = choose|t: Seq<u64>|
                            #[trigger] self.count(t, v) > 0 && subset_elems(q, t);
                        assert(q.contains(q[0]));
                        assert(t.contains(q[0]));
                        assert(t.len() > 0);
                        self.lemma_paths_sorted(t);
                        assert(t[0] <= q[0]) by {
                            let m = choose|m: int| 0 <= m < t.len() && #[trigger] t[m] == q[0];
                            if m > 0 {
                                assert(t[0] < t[m]);
                            }
                        }
                        assert(self.has_child(t[0]));
                        let j = self.child_index(t[0]);
                        assert(self.children@[j].0 == t[0]);
                        assert(j < ci) by {
                            if !go {
                                if j >= ci {
                                    assert(self.children@[ci as int].0
                                        <= self.children@[j].0);
                                }
                            }
                        }
                        assert(self.super_match_upto(q, ci as int, v));
                    }
                }
            }
        }
    }
}

impl<V: PartialEq> SetTrie<V> {
    /// Every stored value whose set contains the query set, by reference,
    /// each stored copy exactly once: the result is, value for value and
    /// in order, [`Self::supersets_seq`] — the depth-first traversal in
    /// ascending child order that emits a node's own terminals, once the
    /// query is exhausted there, before its descendants'. In particular
    /// `v` appears among the results exactly when some stored set `t`
    /// with `t ⊇ k` carries it.
    pub fn supersets<'a>(&'a self, k: DefinitelySorted<'a>) -> (r: Vec<&'a V>)
        requires
            self.wf(),
            k.wf(),
        ensures
            forall|v: V|
                #[trigger] has_val(r@, v) <==> exists|t: Seq<u64>|
                    #[trigger] self.count(t, v) > 0 && subset_elems(k@, t),
            vals(r@) == self.supersets_seq(k@),
    {
        let mut ret: Vec<&V> = Vec::new();
        proof {
            assert(k@.skip(0) =~= k@);
        }
        self.root.report_supersets(k.0, 0, &mut ret);
        proof {
            assert(vals(Seq::<&V>::empty()) =~= Seq::<V>::empty());
            assert(vals(ret@) =~= self.supersets_seq(k@));
        }
        proof {
            assert forall|v: V|
                #[trigger] has_val(ret@, v) <==> exists|t: Seq<u64>|
                    #[trigger] self.count(t, v) > 0 && subset_elems(k@, t) by {
                assert(!has_val(Seq::<&V>::empty(), v));
                if has_val(ret@, v) {
                    let t = choose|t: Seq<u64>|
                        #[trigger] self.root.count(t, v) > 0 && subset_elems(k@, t);
                    assert(self.count(t, v) > 0 && subset_elems(k@, t));
                }
                if exists|t: Seq<u64>| #[trigger] self.count(t, v) > 0 && subset_elems(k@, t) {
                    let t = choose|t: Seq<u64>|
                        #[trigger] self.count(t, v) > 0 && subset_elems(k@, t);
                    assert(self.root.count(t, v) > 0);
                    assert(self.root.super_match(k@, v));
                }
            }
        }
        ret
    }
}


impl<V> SetTrie<V> {
    /// The node reached from the root along the path `p`, if any.
    pub closed spec fn node_at(self, p: Seq<u64>) -> Option<Node<V>> {
        self.root.node_at(p)
    }
}

impl<V> Node<V> {
    proof fn lemma_inv_no_dangling(self, p: Seq<u64>)
        requires
            self.inv(),
            p.len() > 0,
            self.node_at(p) is Some,
        ensures
            !self.node_at(p).unwrap().is_empty_node(),
        decreases p.len(),
    {
        let ci = self.child_index(p[0]);
        assert(0 <= ci < self.children@.len() && self.children@[ci].0 == p[0]);
        let c = self.child(p[0]);
        assert(c.inv() && !c.is_empty_node());
        if p.len() > 1 {
            c.lemma_inv_no_dangling(p.drop_first());
        } else {
            assert(p.drop_first().len() == 0);
        }
    }
}

/// Pruning invariant: in a well-formed trie no node reachable by a
/// nonempty path has both an empty child list and an empty value list —
/// only the root may be bare. Insertion and removal state `wf` in their
/// contracts, so this holds after any sequence of them.
pub proof fn lemma_no_dangling_nodes<V>(t: SetTrie<V>, p: Seq<u64>)
    requires
        t.wf(),
        p.len() > 0,
        t.node_at(p) is Some,
    ensures
        !t.node_at(p).unwrap().is_empty_node(),
{
    t.root.lemma_inv_no_dangling(p);
}

/// Round trip: after an insertion of `(k, v)` the pair is stored; a
/// removal of the same pair restores the old multiplicity, so the pair is
/// absent after the removal exactly when it was absent at the start. The
/// hypotheses are what `insert` and `remove` ensure about the counts.
pub proof fn lemma_round_trip<V>(
    before: SetTrie<V>,
    after_insert: SetTrie<V>,
    after_remove: SetTrie<V>,
    k: Seq<u64>,
    v: V,
)
    requires
        after_insert.count(k, v) == before.count(k, v) + 1,
        after_remove.count(k, v) == after_insert.count(k, v) - 1,
    ensures
        after_insert.stores(k, v),
        after_remove.count(k, v) == before.count(k, v),
        before.count(k, v) == 0 ==> !after_remove.stores(k, v),
{
}

/// Multiplicity: two insertions under one set — of distinct values here —
/// are kept independently; each pair's multiplicity rises by exactly one
/// and both are stored afterwards. The hypotheses are the two insertions'
/// contracts in sequence.
pub proof fn lemma_multiplicity_independent<V>(
    t0: SetTrie<V>,
    t1: SetTrie<V>,
    t2: SetTrie<V>,
    k: Seq<u64>,
    v1: V,
    v2: V,
)
    requires
        v1 != v2,
        t1.count(k, v1) == t0.count(k, v1) + 1,
        forall|k2: Seq<u64>, w: V|
            !(k2 == k && w == v1) ==> #[trigger] t1.count(k2, w) == t0.count(k2, w),
        t2.count(k, v2) == t1.count(k, v2) + 1,
        forall|k2: Seq<u64>, w: V|
            !(k2 == k && w == v2) ==> #[trigger] t2.count(k2, w) == t1.count(k2, w),
    ensures
        t2.count(k, v1) == t0.count(k, v1) + 1,
        t2.count(k, v2) == t0.count(k, v2) + 1,
        t2.stores(k, v1),
        t2.stores(k, v2),
{
}

/// Empty-set behaviour: the empty set is contained in every query, and
/// contains only the empty query. So a value stored under the empty set
/// matches every subset query, and matches a superset query exactly when
/// that query is empty.
pub proof fn lemma_empty_set_queries(q: Seq<u64>)
    ensures
        subset_elems(Seq::<u64>::empty(), q),
        subset_elems(q, Seq::<u64>::empty()) <==> q.len() == 0,
{
    if q.len() > 0 {
        assert(q.contains(q[0]));
        assert(!Seq::<u64>::empty().contains(q[0]));
    }
}

/// The corollary at the trie level: a value stored under the empty set is
/// among what `subsets` returns for any query, and among what `supersets`
/// returns for the empty query.
pub proof fn lemma_empty_set_matches<V>(t: SetTrie<V>, q: Seq<u64>, v: V)
    requires
        t.stores(Seq::<u64>::empty(), v),
    ensures
        exists|s: Seq<u64>| #[trigger] t.count(s, v) > 0 && subset_elems(s, q),
        q.len() == 0 ==> exists|s: Seq<u64>| #[trigger] t.count(s, v) > 0 && subset_elems(
            q,
            s,
        ),
{
    lemma_empty_set_queries(q);
    let ghost s0 = Seq::<u64>::empty();
    assert(t.count(s0, v) > 0 && subset_elems(s0, q));
    if q.len() == 0 {
        assert(subset_elems(q, s0));
    }
}



/// The other half of the empty set's behaviour at the trie level: a value
/// stored under the empty set and under no other set is reported by
/// `supersets` exactly for the empty query. (The hypothesis that no
/// nonempty set carries an equal value is needed: the queries report
/// values, and an equal value stored under a superset of the query is
/// reported in its own right.)
pub proof fn lemma_empty_set_only_in_empty_superset_query<V>(
    t: SetTrie<V>,
    q: Seq<u64>,
    v: V,
    r: Seq<&V>,
)
    requires
        t.stores(Seq::<u64>::empty(), v),
        forall|s: Seq<u64>| s.len() > 0 ==> #[trigger] t.count(s, v) == 0,
        forall|w: V|
            #[trigger] has_val(r, w) <==> exists|s: Seq<u64>|
                #[trigger] t.count(s, w) > 0 && subset_elems(q, s),
    ensures
        has_val(r, v) <==> q.len() == 0,
{
    if q.len() == 0 {
        assert(subset_elems(q, Seq::<u64>::empty())) by {
            lemma_empty_set_queries(q);
        }
        assert(t.count(Seq::<u64>::empty(), v) > 0);
    }
    if has_val(r, v) {
        let s = choose|s: Seq<u64>| #[trigger] t.count(s, v) > 0 && subset_elems(q, s);
        if s.len() > 0 {
            assert(t.count(s, v) == 0);
        } else {
            assert(s =~= Seq::<u64>::empty());
            lemma_empty_set_queries(q);
            if q.len() > 0 {
                assert(q.contains(q[0]));
                assert(s.contains(q[0]));
            }
        }
    }
}


impl<V> Node<V> {
    /// The total multiplicity of `v` over every stored set of the form
    /// `p` followed by a subsequence of `q`: a pure sum over the count
    /// model, one summand per subsequence.
    spec fn total_sub(self, p: Seq<u64>, q: Seq<u64>, v: V) -> nat
        decreases q.len(),
    {
        if q.len() == 0 {
            self.count(p, v)
        } else {
            self.total_sub(p, q.drop_first(), v) + self.total_sub(p.push(q[0]), q.drop_first(), v)
        }
    }

    /// The same total over the query positions from `j` on, one summand
    /// per position taken as the stored set's first element.
    spec fn total_sub_from(self, q: Seq<u64>, j: int, v: V) -> nat
        decreases q.len() - j,
    {
        if j < 0 || j >= q.len() {
            0
        } else {
            self.total_sub(seq![q[j]], q.skip(j + 1), v) + self.total_sub_from(q, j + 1, v)
        }
    }

    /// Prepending an element to the fixed prefix descends into the edge it
    /// labels, or contributes nothing when no such edge exists.
    proof fn lemma_total_sub_descend(self, e: u64, p: Seq<u64>, q: Seq<u64>, v: V)
        ensures
            self.total_sub(seq![e] + p, q, v) == if self.has_child(e) {
                self.child(e).total_sub(p, q, v)
            } else {
                0nat
            },
        decreases q.len(),
    {
        if q.len() == 0 {
            self.lemma_count_step(seq![e] + p, v);
            assert((seq![e] + p)[0] == e);
            assert((seq![e] + p).drop_first() =~= p);
        } else {
            self.lemma_total_sub_descend(e, p, q.drop_first(), v);
            self.lemma_total_sub_descend(e, p.push(q[0]), q.drop_first(), v);
            assert((seq![e] + p).push(q[0]) =~= seq![e] + p.push(q[0]));
        }
    }

    /// Shifting the position sum by one is summing over the query's tail.
    proof fn lemma_total_sub_from_shift(self, q: Seq<u64>, j: int, v: V)
        requires
            0 <= j,
            q.len() > 0,
        ensures
            self.total_sub_from(q, j + 1, v) == self.total_sub_from(q.drop_first(), j, v),
        decreases q.len() - j,
    {
        if j + 1 < q.len() {
            assert(seq![q[j + 1]] =~= seq![q.drop_first()[j]]);
            assert(q.skip(j + 2) =~= q.drop_first().skip(j + 1));
            self.lemma_total_sub_from_shift(q, j + 1, v);
        }
    }

    /// The subsequence sum splits into the empty set's own count plus one
    /// summand per choice of first element.
    proof fn lemma_total_sub_reindex(self, q: Seq<u64>, v: V)
        ensures
            self.total_sub(Seq::empty(), q, v) == self.count(Seq::empty(), v)
                + self.total_sub_from(q, 0, v),
        decreases q.len(),
    {
        if q.len() > 0 {
            self.lemma_total_sub_reindex(q.drop_first(), v);
            assert(Seq::<u64>::empty().push(q[0]) =~= seq![q[0]]);
            assert(q.skip(1) =~= q.drop_first());
            self.lemma_total_sub_from_shift(q, 0, v);
        }
    }

    /// The subset traversal emits each value exactly as often as the
    /// stored sets within the query suffix carry it.
    proof fn lemma_subs_seq_copies(self, q: Seq<u64>, v: V)
        ensures
            self.subs_seq(q).to_multiset().count(v) == self.total_sub(Seq::empty(), q, v),
        decreases q.len(), q.len() + 1,
    {
        broadcast use vstd::seq_lib::lemma_multiset_commutative;
        broadcast use group_multiset_axioms;

        self.lemma_total_sub_reindex(q, v);
        self.lemma_subs_from_copies(q, 0, v);
        assert(self.count(Seq::empty(), v) == self.terminals@.to_multiset().count(v));
    }

    proof fn lemma_subs_from_copies(self, q: Seq<u64>, j: int, v: V)
        requires
            0 <= j,
        ensures
            self.subs_from(q, j).to_multiset().count(v) == self.total_sub_from(q, j, v),
        decreases q.len(), q.len() - j,
    {
        broadcast use vstd::seq_lib::lemma_multiset_commutative;
        broadcast use group_multiset_axioms;

        if j >= q.len() {
            assert(!self.subs_from(q, j).contains(v)) by {
                broadcast use group_to_multiset_ensures;
            }
            assert(self.subs_from(q, j).to_multiset().count(v) == 0) by {
                broadcast use group_to_multiset_ensures;
            }
        } else {
            self.lemma_subs_from_copies(q, j + 1, v);
            self.lemma_total_sub_descend(q[j], Seq::empty(), q.skip(j + 1), v);
            assert(seq![q[j]] + Seq::<u64>::empty() =~= seq![q[j]]);
            if self.has_child(q[j]) {
                self.child(q[j]).lemma_subs_seq_copies(q.skip(j + 1), v);
            } else {
                assert(Seq::<V>::empty().to_multiset().count(v) == 0) by {
                    broadcast use group_to_multiset_ensures;

                    assert(!Seq::<V>::empty().contains(v));
                }
            }
        }
    }
}

impl<V> SetTrie<V> {
    /// The total multiplicity of `v` over every stored set whose elements
    /// all lie in `q`: a pure sum over the count model, one summand per
    /// subsequence of `q`.
    pub closed spec fn total_within(self, q: Seq<u64>, v: V) -> nat {
        self.root.total_sub(Seq::empty(), q, v)
    }
}

/// Copy-exactness of the subset query: the result sequence holds each
/// value exactly as often as the stored sets within the query carry it —
/// each stored matching copy appears exactly once, none is repeated and
/// none is dropped.
pub proof fn lemma_subsets_exact_copies<V>(t: SetTrie<V>, q: Seq<u64>, v: V)
    ensures
        t.subsets_seq(q).to_multiset().count(v) == t.total_within(q, v),
{
    t.root.lemma_subs_seq_copies(q, v);
}


impl<V> Node<V> {
    /// The total multiplicity of `v` over every stored set below this
    /// node — the path walked so far accumulated in `p` — whose full
    /// element set contains all of `q`: a pure filtered sum over the
    /// subtree, with no trace of the search order.
    spec fn total_super(self, p: Seq<u64>, q: Seq<u64>, v: V) -> nat
        decreases self, self.children@.len() + 1,
    {
        (if subset_elems(q, p) {
            self.terminals@.to_multiset().count(v)
        } else {
            0nat
        }) + self.total_super_from(p, q, 0, v)
    }

    spec fn total_super_from(self, p: Seq<u64>, q: Seq<u64>, i: int, v: V) -> nat
        decreases self, self.children@.len() - i,
    {
        if i < 0 || i >= self.children@.len() {
            0
        } else {
            self.children@[i].1.total_super(p.push(self.children@[i].0), q, v)
                + self.total_super_from(p, q, i + 1, v)
        }
    }

    /// A query element absent from the accumulated path and below every
    /// edge of this subtree keeps every stored set here from containing
    /// the query: the subtree's filtered sum is zero. This is why the
    /// sorted child scan may stop at the first edge above the next query
    /// element.
    proof fn lemma_total_super_zero(self, p: Seq<u64>, q: Seq<u64>, x: u64, v: V)
        requires
            self.inv(),
            self.elems_above(x),
            q.contains(x),
            !p.contains(x),
        ensures
            self.total_super(p, q, v) == 0,
        decreases self, self.children@.len() + 1,
    {
        assert(!subset_elems(q, p));
        self.lemma_total_super_from_zero(p, q, x, 0, v);
    }

    proof fn lemma_total_super_from_zero(self, p: Seq<u64>, q: Seq<u64>, x: u64, i: int, v: V)
        requires
            self.inv(),
            q.contains(x),
            !p.contains(x),
            0 <= i,
            forall|j: int|
                i <= j < self.children@.len() ==> (#[trigger] self.children@[j]).0 > x,
        ensures
            self.total_super_from(p, q, i, v) == 0,
        decreases self, self.children@.len() - i,
    {
        if i < self.children@.len() {
            let e = self.children@[i].0;
            let c = self.children@[i].1;
            assert(!p.push(e).contains(x)) by {
                if p.push(e).contains(x) {
                    let l = choose|l: int| 0 <= l < p.push(e).len() && #[trigger] p.push(e)[l]
                        == x;
                    if l < p.len() {
                        assert(p[l] == x);
                    }
                }
            }
            assert(c.elems_above(x)) by {
                assert forall|j: int| 0 <= j < c.children@.len() implies (
                #[trigger] c.children@[j]).0 > x by {
                    assert(c.children@[j].0 > e);
                }
            }
            c.lemma_total_super_zero(p.push(e), q, x, v);
            self.lemma_total_super_from_zero(p, q, x, i + 1, v);
        }
    }

    /// The superset traversal emits each value exactly as often as the
    /// stored sets containing the query carry it. `p` holds the path
    /// walked so far, `qres` the still unmatched residual of `q`: every
    /// query element is either matched in `p` or pending in `qres`, and
    /// nothing pending is matched yet.
    proof fn lemma_supers_seq_copies(self, p: Seq<u64>, q: Seq<u64>, qres: Seq<u64>, v: V)
        requires
            self.inv(),
            strictly_sorted(qres),
            forall|x: u64| q.contains(x) && !qres.contains(x) ==> p.contains(x),
            forall|x: u64| #[trigger] qres.contains(x) ==> q.contains(x) && !p.contains(x),
        ensures
            self.supers_seq(qres).to_multiset().count(v) == self.total_super(p, q, v),
        decreases self, self.children@.len() + 1,
    {
        broadcast use vstd::seq_lib::lemma_multiset_commutative;
        broadcast use group_multiset_axioms;
        broadcast use group_to_multiset_ensures;

        if qres.len() == 0 {
            assert(subset_elems(q, p));
        } else {
            assert(qres.contains(qres[0]));
            assert(!subset_elems(q, p));
            assert(!Seq::<V>::empty().contains(v));
        }
        self.lemma_supers_from_copies(p, q, qres, 0, v);
    }

    proof fn lemma_supers_from_copies(self, p: Seq<u64>, q: Seq<u64>, qres: Seq<u64>, i: int, v: V)
        requires
            self.inv(),
            strictly_sorted(qres),
            forall|x: u64| q.contains(x) && !qres.contains(x) ==> p.contains(x),
            forall|x: u64| #[trigger] qres.contains(x) ==> q.contains(x) && !p.contains(x),
            0 <= i,
        ensures
            self.supers_from(qres, i).to_multiset().count(v) == self.total_super_from(
                p,
                q,
                i,
                v,
            ),
        decreases self, self.children@.len() - i,
    {
        broadcast use vstd::seq_lib::lemma_multiset_commutative;
        broadcast use group_multiset_axioms;
        broadcast use group_to_multiset_ensures;

        if i >= self.children@.len() {
            assert(!Seq::<V>::empty().contains(v));
        } else {
            let e = self.children@[i].0;
            let c = self.children@[i].1;
            assert(c.inv() && c.elems_above(e));
            if qres.len() == 0 {
                assert forall|x: u64|
                    q.contains(x) && !qres.contains(x) implies p.push(e).contains(x) by {
                    assert(p.contains(x));
                    let l = choose|l: int| 0 <= l < p.len() && #[trigger] p[l] == x;
                    assert(p.push(e)[l] == x);
                }
                c.lemma_supers_seq_copies(p.push(e), q, qres, v);
                self.lemma_supers_from_copies(p, q, qres, i + 1, v);
            } else if e < qres[0] {
                assert forall|x: u64|
                    q.contains(x) && !qres.contains(x) implies p.push(e).contains(x) by {
                    assert(p.contains(x));
                    let l = choose|l: int| 0 <= l < p.len() && #[trigger] p[l] == x;
                    assert(p.push(e)[l] == x);
                }
                assert forall|x: u64| #[trigger] qres.contains(x) implies q.contains(x)
                    && !p.push(e).contains(x) by {
                    let l = choose|l: int| 0 <= l < qres.len() && #[trigger] qres[l] == x;
                    assert(x >= qres[0]);
                    if p.push(e).contains(x) {
                        let m = choose|m: int|
                            0 <= m < p.push(e).len() && #[trigger] p.push(e)[m] == x;
                        if m < p.len() {
                            assert(p[m] == x);
                        }
                    }
                }
                c.lemma_supers_seq_copies(p.push(e), q, qres, v);
                self.lemma_supers_from_copies(p, q, qres, i + 1, v);
            } else if e == qres[0] {
                let qd = qres.drop_first();
                assert(strictly_sorted(qd)) by {
                    assert forall|a: int, b: int| 0 <= a < b < qd.len() implies qd[a]
                        < qd[b] by {
                        assert(qd[a] == qres[a + 1] && qd[b] == qres[b + 1]);
                    }
                }
                assert forall|x: u64|
                    q.contains(x) && !qd.contains(x) implies p.push(e).contains(x) by {
                    if qres.contains(x) {
                        let l = choose|l: int| 0 <= l < qres.len() && #[trigger] qres[l] == x;
                        if l > 0 {
                            assert(qd[l - 1] == x);
                        }
                        assert(x == e);
                        assert(p.push(e)[p.len() as int] == x);
                    } else {
                        assert(p.contains(x));
                        let l = choose|l: int| 0 <= l < p.len() && #[trigger] p[l] == x;
                        assert(p.push(e)[l] == x);
                    }
                }
                assert forall|x: u64| #[trigger] qd.contains(x) implies q.contains(x)
                    && !p.push(e).contains(x) by {
                    let l = choose|l: int| 0 <= l < qd.len() && #[trigger] qd[l] == x;
                    assert(qres[l + 1] == x);
                    assert(qres.contains(x));
                    assert(x > qres[0]);
                    if p.push(e).contains(x) {
                        let m = choose|m: int|
                            0 <= m < p.push(e).len() && #[trigger] p.push(e)[m] == x;
                        if m < p.len() {
                            assert(p[m] == x);
                        }
                    }
                }
                c.lemma_supers_seq_copies(p.push(e), q, qd, v);
                self.lemma_supers_from_copies(p, q, qres, i + 1, v);
            } else {
                assert(!Seq::<V>::empty().contains(v));
                assert(qres.contains(qres[0]));
                assert(q.contains(qres[0]) && !p.contains(qres[0]));
                assert forall|j: int|
                    i <= j < self.children@.len() implies (#[trigger] self.children@[j]).0
                    > qres[0] by {
                    if j > i {
                        assert(self.children@[i].0 < self.children@[j].0);
                    }
                }
                self.lemma_total_super_from_zero(p, q, qres[0], i, v);
            }
        }
    }
}

impl<V> SetTrie<V> {
    /// The total multiplicity of `v` over every stored set that contains
    /// all of `q`'s elements: a pure filtered sum over the stored sets.
    pub closed spec fn total_containing(self, q: Seq<u64>, v: V) -> nat {
        self.root.total_super(Seq::empty(), q, v)
    }
}

/// Copy-exactness of the superset query: the result sequence holds each
/// value exactly as often as the stored sets containing the query carry
/// it — each stored matching copy appears exactly once, none is repeated
/// and none is dropped.
pub proof fn lemma_supersets_exact_copies<V>(t: SetTrie<V>, q: Seq<u64>, v: V)
    requires
        t.wf(),
        strictly_sorted(q),
    ensures
        t.supersets_seq(q).to_multiset().count(v) == t.total_containing(q, v),
{
    t.root.lemma_supers_seq_copies(Seq::empty(), q, q, v);
}


} // verus!
