//! Language-model interface and the sequence-state interner.
//!
//! The interner is a deduplicating tree of decoded prefixes: each distinct
//! (parent, token) pair is mapped, on first use, to a fresh node, and every
//! later request returns the same node. A node therefore identifies one
//! equivalence class of CTC paths — the same collapsed prefix with the same
//! trailing state — and two beam entries can be compared for mergeability in
//! constant time by comparing node identities.

use vstd::prelude::*;

verus! {

/// Token value handed to `SequenceStateRef::child` to mark end of sentence;
/// it aliases no valid token and leaves the tree untouched.
pub const EOS_TOKEN: i32 = -1;

/// The identity of one interned prefix: an index into the tree that produced
/// it. Two references are equal exactly when they name the same node of the
/// same tree; only references from one tree may be compared.
#[derive(Clone, Copy, PartialEq, Eq, Structural, Hash, Debug)]
pub struct SequenceStateRef {
    /// Index of the node inside its `SequenceState` tree.
    pub id: usize,
}

/// The deduplicating tree of decoded prefixes, stored as a flat arena:
/// node `p`'s child slot for token `t` sits at `p * n_vocab + t`.
/// The tree grows monotonically during one decode and is dropped afterwards.
#[derive(Debug)]
pub struct SequenceState {
    n_vocab: usize,
    node_count: usize,
    slots: Vec<Option<SequenceStateRef>>,
}

impl SequenceState {
    /// Size of the token alphabet this tree was built for.
    pub closed spec fn vocab(&self) -> int {
        self.n_vocab as int
    }

    /// Number of nodes interned so far; node 0 is the root.
    pub closed spec fn node_count(&self) -> int {
        self.node_count as int
    }

    /// Whether node `p` already has an interned child for token `t`.
    pub closed spec fn has_child(&self, p: int, t: int) -> bool {
        &&& 0 <= p < self.node_count as int
        &&& 0 <= t < self.n_vocab as int
        &&& self.slots@[p * self.n_vocab + t] is Some
    }

    /// The identity of the interned child of node `p` for token `t`.
    pub closed spec fn child_of(&self, p: int, t: int) -> int {
        self.slots@[p * self.n_vocab + t]->Some_0.id as int
    }

    /// Structural well-formedness: the arena is a full grid of slots, every
    /// filled slot points at a non-root node of the tree, and no two distinct
    /// slots point at the same node (interned children are unique).
    pub closed spec fn wf(&self) -> bool {
        &&& 1 <= self.node_count
        &&& 1 <= self.n_vocab
        &&& self.slots@.len() == self.node_count * self.n_vocab
        &&& forall|i: int|
            0 <= i < self.slots@.len() && self.slots@[i] is Some ==> 1 <= (
            #[trigger] self.slots@[i])->Some_0.id < self.node_count
        &&& forall|i: int, j: int|
            0 <= i < j < self.slots@.len() && self.slots@[i] is Some && #[trigger] self.slots@[j] is Some
                ==> (#[trigger] self.slots@[i])->Some_0.id != self.slots@[j]->Some_0.id
    }

    /// Creates a fresh tree holding only the root node.
    pub fn new(n_vocab: usize) -> (r: SequenceState)
        requires
            1 <= n_vocab,
        ensures
            r.wf(),
            r.vocab() == n_vocab as int,
            r.node_count() == 1,
            forall|p: int, t: int| !r.has_child(p, t),
    {
        let mut slots: Vec<Option<SequenceStateRef>> = Vec::new();
        let mut i: usize = 0;
        while i < n_vocab
            invariant
                i <= n_vocab,
                slots@.len() == i as int,
                forall|k: int| 0 <= k < i as int ==> slots@[k] is None,
            decreases n_vocab - i,
        {
            slots.push(None);
            i = i + 1;
        }
        let r = SequenceState { n_vocab, node_count: 1, slots };
        assert(r.slots@.len() == 1int * r.n_vocab);
        assert forall|p: int, t: int| !r.has_child(p, t) by {
            if 0 <= p < 1 && 0 <= t < r.n_vocab as int {
                assert(p * r.n_vocab as int == 0) by (nonlinear_arith)
                    requires
                        p == 0,
                ;
            }
        }
        r
    }
}

impl SequenceStateRef {
    /// The reference to the root node of any tree.
    pub fn new() -> (r: SequenceStateRef)
        ensures
            r.id == 0,
    {
        SequenceStateRef { id: 0 }
    }

    /// Returns the interned child of this node for `token`, allocating it on
    /// first use: later calls with the same node and token return the same
    /// identity, and the tree changes only by that one allocation. The end of
    /// sentence token returns the node itself and leaves the tree unchanged.
    pub fn child(&self, tree: &mut SequenceState, token: i32) -> (r: SequenceStateRef)
        requires
            old(tree).wf(),
            self.id < old(tree).node_count(),
            token == EOS_TOKEN || (0 <= token as int && (token as int) < old(tree).vocab()),
        ensures
            final(tree).wf(),
            final(tree).vocab() == old(tree).vocab(),
            old(tree).node_count() <= final(tree).node_count(),
            r.id < final(tree).node_count(),
            token == EOS_TOKEN ==> r == *self && *final(tree) == *old(tree),
            token != EOS_TOKEN ==> final(tree).has_child(self.id as int, token as int)
                && r.id as int == final(tree).child_of(self.id as int, token as int),
            token != EOS_TOKEN && old(tree).has_child(self.id as int, token as int)
                ==> *final(tree) == *old(tree)
                && r.id as int == old(tree).child_of(self.id as int, token as int),
            token != EOS_TOKEN && !old(tree).has_child(self.id as int, token as int)
                ==> r.id as int == old(tree).node_count()
                && final(tree).node_count() == old(tree).node_count() + 1,
            forall|p: int, t: int|
                #[trigger] old(tree).has_child(p, t) ==> final(tree).has_child(p, t)
                    && final(tree).child_of(p, t) == old(tree).child_of(p, t),
            forall|p: int, t: int|
                #[trigger] final(tree).has_child(p, t) ==> old(tree).has_child(p, t)
                    || (p == self.id as int && t == token as int),
    {
        if token == EOS_TOKEN {
            return SequenceStateRef { id: self.id };
        }
        let t = token as usize;
        let n_slots = tree.slots.len();
        proof {
            assert(self.id * tree.n_vocab + t < tree.node_count * tree.n_vocab)
                by (nonlinear_arith)
                requires
                    0 <= self.id < tree.node_count,
                    0 <= t < tree.n_vocab,
            ;
            assert(self.id * tree.n_vocab + t < n_slots);
        }
        let slot: usize = self.id * tree.n_vocab + t;
        match tree.slots[slot] {
            Some(existing) => {
                assert(tree.has_child(self.id as int, token as int));
                existing
            },
            None => {
                let new_ref = SequenceStateRef { id: tree.node_count };
                let ghost old_slots = tree.slots@;
                let ghost old_count = tree.node_count as int;
                let ghost v = tree.n_vocab as int;
                // One fresh row of empty slots for the new node.
                let mut j: usize = 0;
                while j < tree.n_vocab
                    invariant
                        j <= tree.n_vocab,
                        tree.n_vocab as int == v,
                        tree.node_count as int == old_count,
                        tree.slots@.len() == old_slots.len() + j as int,
                        tree.slots@.subrange(0, old_slots.len() as int) == old_slots,
                        forall|k: int|
                            old_slots.len() <= k < tree.slots@.len() ==> tree.slots@[k] is None,
                    decreases tree.n_vocab - j,
                {
                    tree.slots.push(None);
                    j = j + 1;
                }
                let new_len = tree.slots.len();
                proof {
                    assert(old_count * v + v == (old_count + 1) * v) by (nonlinear_arith);
                    assert(old_count + 1 <= (old_count + 1) * v) by (nonlinear_arith)
                        requires
                            1 <= old_count + 1 && 1 <= v,
                    ;
                    assert((old_count + 1) * v == new_len as int);
                    assert(old_count + 1 <= new_len as int);
                    assert(forall|k: int|
                        0 <= k < old_slots.len() ==> #[trigger] tree.slots@[k] == old_slots[k]);
                }
                tree.slots[slot] = Some(new_ref);
                tree.node_count = tree.node_count + 1;
                proof {
                    lemma_grid_preserved(old_slots, tree.slots@, old_count, v, slot as int);
                    let sid = self.id as int;
                    let tok = token as int;
                    assert(tree.slots@[slot as int] == Some(new_ref));
                    assert(tree.has_child(sid, tok));
                    assert forall|p: int, t2: int|
                        #[trigger] old(tree).has_child(p, t2) implies tree.has_child(p, t2)
                        && tree.child_of(p, t2) == old(tree).child_of(p, t2) by {
                        let s = p * v + t2;
                        assert(0 <= s < old_count * v) by (nonlinear_arith)
                            requires
                                0 <= p < old_count,
                                0 <= t2 < v,
                                s == p * v + t2,
                        ;
                        if s == slot as int {
                            assert(old_slots[s] is None);
                        } else {
                            assert(tree.slots@[s] == old_slots[s]);
                        }
                    }
                    assert forall|p: int, t2: int|
                        #[trigger] tree.has_child(p, t2) implies old(tree).has_child(p, t2) || (p
                        == sid && t2 == tok) by {
                        let s = p * v + t2;
                        if p < old_count {
                            assert(0 <= s < old_count * v) by (nonlinear_arith)
                                requires
                                    0 <= p < old_count,
                                    0 <= t2 < v,
                                    s == p * v + t2,
                            ;
                            if s == slot as int {
                                assert(p == sid && t2 == tok) by (nonlinear_arith)
                                    requires
                                        0 <= t2 < v,
                                        0 <= tok < v,
                                        0 <= p,
                                        0 <= sid,
                                        p * v + t2 == sid * v + tok,
                                ;
                            } else {
                                assert(tree.slots@[s] == old_slots[s]);
                            }
                        } else {
                            assert(s >= old_count * v) by (nonlinear_arith)
                                requires
                                    p >= old_count,
                                    0 <= t2,
                                    1 <= v,
                                    s == p * v + t2,
                            ;
                            assert((slot as int) < old_count * v);
                            assert(tree.slots@[s] is None);
                        }
                    }
                }
                new_ref
            },
        }
    }
}

/// After extending the arena by one row and filling one previously empty slot
/// with the fresh node identity, every old slot is unchanged and the
/// well-formedness grid facts carry over.
proof fn lemma_grid_preserved(
    old_slots: Seq<Option<SequenceStateRef>>,
    new_slots: Seq<Option<SequenceStateRef>>,
    old_count: int,
    v: int,
    slot: int,
)
    requires
        1 <= old_count,
        1 <= v,
        old_slots.len() == old_count * v,
        new_slots.len() == old_slots.len() + v,
        0 <= slot < old_slots.len(),
        old_slots[slot] is None,
        new_slots[slot] == Some(SequenceStateRef { id: old_count as usize }),
        forall|k: int|
            0 <= k < new_slots.len() && k != slot && k < old_slots.len() ==> new_slots[k]
                == old_slots[k],
        forall|k: int| old_slots.len() <= k < new_slots.len() ==> new_slots[k] is None,
        forall|i: int|
            0 <= i < old_slots.len() && old_slots[i] is Some ==> 1 <= (
            #[trigger] old_slots[i])->Some_0.id < old_count,
        forall|i: int, j: int|
            0 <= i < j < old_slots.len() && old_slots[i] is Some && #[trigger] old_slots[j] is Some
                ==> (#[trigger] old_slots[i])->Some_0.id != old_slots[j]->Some_0.id,
        old_count + 1 <= usize::MAX,
    ensures
        forall|i: int|
            0 <= i < new_slots.len() && new_slots[i] is Some ==> 1 <= (
            #[trigger] new_slots[i])->Some_0.id < old_count + 1,
        forall|i: int, j: int|
            0 <= i < j < new_slots.len() && new_slots[i] is Some && #[trigger] new_slots[j] is Some
                ==> (#[trigger] new_slots[i])->Some_0.id != new_slots[j]->Some_0.id,
{
    assert forall|i: int|
        0 <= i < new_slots.len() && new_slots[i] is Some implies 1 <= (
    #[trigger] new_slots[i])->Some_0.id < old_count + 1 by {
        if i != slot && i < old_slots.len() {
            assert(new_slots[i] == old_slots[i]);
        }
    }
    assert forall|i: int, j: int|
        0 <= i < j < new_slots.len() && new_slots[i] is Some && #[trigger] new_slots[j] is Some
        implies (#[trigger] new_slots[i])->Some_0.id != new_slots[j]->Some_0.id by {
        if i != slot && i < old_slots.len() && j != slot && j < old_slots.len() {
            assert(new_slots[i] == old_slots[i]);
            assert(new_slots[j] == old_slots[j]);
        } else if i == slot {
            if j != slot && j < old_slots.len() {
                assert(new_slots[j] == old_slots[j]);
            }
        } else if j == slot {
            if i != slot && i < old_slots.len() {
                assert(new_slots[i] == old_slots[i]);
            }
        }
    }
}

/// Distinct (parent, token) pairs intern distinct children: the tree is a
/// function from pairs to nodes and that function is injective.
pub proof fn lemma_children_distinct(tree: &SequenceState, p1: int, t1: int, p2: int, t2: int)
    requires
        tree.wf(),
        tree.has_child(p1, t1),
        tree.has_child(p2, t2),
        (p1, t1) != (p2, t2),
    ensures
        tree.child_of(p1, t1) != tree.child_of(p2, t2),
{
    let v = tree.vocab();
    let s1 = p1 * v + t1;
    let s2 = p2 * v + t2;
    assert(s1 != s2) by (nonlinear_arith)
        requires
            0 <= t1 < v,
            0 <= t2 < v,
            0 <= p1,
            0 <= p2,
            (p1, t1) != (p2, t2),
            s1 == p1 * v + t1,
            s2 == p2 * v + t2,
    ;
    assert(s1 < tree.node_count() * v && s2 < tree.node_count() * v) by (nonlinear_arith)
        requires
            0 <= t1 < v,
            0 <= t2 < v,
            0 <= p1 < tree.node_count(),
            0 <= p2 < tree.node_count(),
            s1 == p1 * v + t1,
            s2 == p2 * v + t2,
    ;
}

/// A language model for decoding: a start state, per-token continuation
/// scores, lazy state transitions, and an end-of-sentence score. Scores are
/// fixed-point log-probabilities in units of `2^-20`.
///
/// Each implementation fixes what its calls return through the four spec
/// functions: the methods are pure with respect to their state and token
/// arguments, so identical calls return identical answers even when the
/// implementation caches internally. States are small plain values held by
/// copy in every beam entry.
pub trait LM {
    type State: Copy;

    /// The model's sentence-begin context.
    spec fn start_spec() -> Self::State;

    /// The model's continuation score for extending `state` by `token`.
    spec fn score_spec(state: Self::State, token: i32) -> i64;

    /// The model's successor state after `token`.
    spec fn next_spec(state: Self::State, token: i32) -> Self::State;

    /// The model's sentence-end score for `state`.
    spec fn finish_spec(state: Self::State) -> i64;

    /// The sentence-begin context; called once per decode.
    fn start(&mut self) -> (r: Self::State)
        ensures
            r == Self::start_spec(),
    ;

    /// Log-probability contribution of extending `state` by `token`.
    fn score(&mut self, state: &Self::State, token: i32) -> (r: i64)
        ensures
            r == Self::score_spec(*state, token),
    ;

    /// Successor state; the beam core calls this only for surviving
    /// candidates that truly emitted `token`.
    fn next_state(&mut self, state: &Self::State, token: i32) -> (r: Self::State)
        ensures
            r == Self::next_spec(*state, token),
    ;

    /// Log-probability of sentence end given `state`.
    fn finish(&mut self, state: &Self::State) -> (r: i64)
        ensures
            r == Self::finish_spec(*state),
    ;
}

/// The trivial state of the zero language model.
#[derive(Clone, Copy, PartialEq, Eq, Structural, Debug)]
pub struct ZeroLMState;

/// A language model that scores everything zero; its states are trivial.
#[derive(Debug)]
pub struct ZeroLM;

impl LM for ZeroLM {
    type State = ZeroLMState;

    open spec fn start_spec() -> ZeroLMState {
        ZeroLMState
    }

    open spec fn score_spec(state: ZeroLMState, token: i32) -> i64 {
        0
    }

    open spec fn next_spec(state: ZeroLMState, token: i32) -> ZeroLMState {
        ZeroLMState
    }

    open spec fn finish_spec(state: ZeroLMState) -> i64 {
        0
    }

    fn start(&mut self) -> Self::State {
        ZeroLMState
    }

    fn score(&mut self, _state: &Self::State, _token: i32) -> i64 {
        0
    }

    fn next_state(&mut self, _state: &Self::State, _token: i32) -> Self::State {
        ZeroLMState
    }

    fn finish(&mut self, _state: &Self::State) -> i64 {
        0
    }
}

} // verus!
