use core::task::Waker;
use vstd::prelude::*;

use crate::node::{Node, is_chain, all_dead, all_live, disjoint, link_after, lemma_chain_frame};
use crate::pool::NodePool;

verus! {

/// The handles held by the active chain `c`, oldest first: the handle at
/// the head of the chain is the last one.
pub open spec fn handles_of(nodes: Seq<Node>, c: Seq<usize>) -> Seq<Waker> {
    Seq::new(c.len(), |j: int| nodes[c[c.len() - 1 - j] as int].waker->Some_0)
}

/// What `pop` returns on a list whose handles are `s`.
pub open spec fn popped(s: Seq<Waker>) -> Option<Waker> {
    if s.len() == 0 {
        None
    } else {
        Some(s.last())
    }
}

/// The handles that `pop` leaves of `s`.
pub open spec fn after_pop(s: Seq<Waker>) -> Seq<Waker> {
    if s.len() == 0 {
        s
    } else {
        s.drop_last()
    }
}

/// The handles after pushing each of `hs`, first to last, onto `s`.
pub open spec fn push_all(s: Seq<Waker>, hs: Seq<Waker>) -> Seq<Waker>
    decreases hs.len(),
{
    if hs.len() == 0 {
        s
    } else {
        push_all(s, hs.drop_last()).push(hs.last())
    }
}

/// What `n` successive pops return, first pop first, starting from `s`.
pub open spec fn pop_results(s: Seq<Waker>, n: nat) -> Seq<Option<Waker>>
    decreases n,
{
    if n == 0 {
        Seq::empty()
    } else {
        seq![popped(s)] + pop_results(after_pop(s), (n - 1) as nat)
    }
}

/// The handles that `n` successive pops leave of `s`.
pub open spec fn after_pops(s: Seq<Waker>, n: nat) -> Seq<Waker>
    decreases n,
{
    if n == 0 {
        s
    } else {
        after_pops(after_pop(s), (n - 1) as nat)
    }
}

/// A list with no handles, as `new` returns it, is empty, and `pop` on it
/// returns `None` and leaves it empty.
pub proof fn lemma_fresh_list_is_empty()
    ensures
        Seq::<Waker>::empty().len() == 0,
        popped(Seq::<Waker>::empty()) is None,
        after_pop(Seq::<Waker>::empty()) == Seq::<Waker>::empty(),
{
}

/// Pushing `hs` onto any list and then popping as many times returns the
/// handles of `hs` last first, and leaves the list as it was.
pub proof fn lemma_lifo_round_trip(s: Seq<Waker>, hs: Seq<Waker>)
    ensures
        pop_results(push_all(s, hs), hs.len()) == Seq::new(hs.len(), |j: int| Some(hs[hs.len() - 1 - j])),
        after_pops(push_all(s, hs), hs.len()) == s,
    decreases hs.len(),
{
    let n = hs.len();
    if n > 0 {
        let rest = hs.drop_last();
        let x = push_all(s, rest);
        let y = push_all(s, hs);
        lemma_lifo_round_trip(s, rest);
        assert(y == x.push(hs.last()));
        assert(after_pop(y) =~= x);
        assert(popped(y) == Some(hs.last()));
        let rev_rest = Seq::new(rest.len(), |j: int| Some(rest[rest.len() - 1 - j]));
        assert(pop_results(y, n) == seq![Some(hs.last())] + rev_rest);
        assert(pop_results(y, n) =~= Seq::new(n, |j: int| Some(hs[n - 1 - j]))) by {
            assert forall|j: int| 1 <= j < n implies (seq![Some(hs.last())] + rev_rest)[j] == Some(hs[n - 1 - j]) by {
                assert(rev_rest[j - 1] == Some(rest[rest.len() - j]));
            }
        }
    } else {
        assert(pop_results(push_all(s, hs), 0) =~= Seq::new(0, |j: int| Some(hs[0 - 1 - j])));
    }
}

/// `k` pops leave the first `s.len() - k` handles of `s`.
proof fn lemma_after_pops_prefix(s: Seq<Waker>, k: nat)
    requires
        k <= s.len(),
    ensures
        after_pops(s, k) == s.subrange(0, s.len() - k),
    decreases k,
{
    if k == 0 {
        assert(s.subrange(0, s.len() as int) =~= s);
    } else {
        lemma_after_pops_prefix(after_pop(s), (k - 1) as nat);
        assert(after_pop(s).subrange(0, after_pop(s).len() - (k - 1)) =~= s.subrange(0, s.len() - k));
    }
}

/// Once every handle of a list has been popped, the list is empty and a
/// further `pop` returns `None`.
pub proof fn lemma_drained_list_is_empty(s: Seq<Waker>)
    ensures
        after_pops(s, s.len()).len() == 0,
        popped(after_pops(s, s.len())) is None,
{
    lemma_after_pops_prefix(s, s.len());
}

/// A list of wake handles, popped most recent first.
///
/// Its nodes are slots of a `NodePool` that the list owns: `pop` puts the
/// slot back on the pool's free chain, and `push` takes a free slot before
/// it makes a new one. A list can be moved to another thread; it has no
/// shared state.
pub struct WakerList {
    pool: NodePool,
    head: Option<usize>,
    active: Ghost<Seq<usize>>,
}

impl View for WakerList {
    type V = Seq<Waker>;

    /// The handles in the list, oldest first.
    closed spec fn view(&self) -> Seq<Waker> {
        handles_of(self.pool.slots(), self.active@)
    }
}

impl WakerList {
    /// The active chain is well formed and holds live handles; every slot of
    /// the pool is either on it or on the free chain.
    pub closed spec fn wf(&self) -> bool {
        &&& self.pool.wf()
        &&& is_chain(self.pool.slots(), self.head, self.active@)
        &&& all_live(self.pool.slots(), self.active@)
        &&& disjoint(self.active@, self.pool.free_chain())
        &&& self.active@.len() + self.pool.free_chain().len() == self.pool.slots().len()
    }

    /// The number of slots that the list's pool has made.
    pub closed spec fn slots_made(&self) -> nat {
        self.pool.slots().len()
    }

    /// The number of slots that the list's pool holds free.
    pub closed spec fn slots_free(&self) -> nat {
        self.pool.free_chain().len()
    }

    /// Returns a new empty list; allocates nothing.
    pub fn new() -> (r: WakerList)
        ensures
            r.wf(),
            r@ == Seq::<Waker>::empty(),
            r.slots_made() == 0,
    {
        WakerList { pool: NodePool::new(), head: None, active: Ghost(Seq::empty()) }
    }

    /// Returns a new empty list that takes its nodes from `pool`, all of
    /// whose slots are free.
    pub fn with_pool(pool: NodePool) -> (r: WakerList)
        requires
            pool.wf(),
            pool.all_free(),
        ensures
            r.wf(),
            r@ == Seq::<Waker>::empty(),
            r.slots_made() == pool.slots().len(),
            r.slots_free() == pool.slots().len(),
    {
        WakerList { pool, head: None, active: Ghost(Seq::empty()) }
    }

    /// Returns true if no handles are stored.
    pub fn is_empty(&self) -> (r: bool)
        requires
            self.wf(),
        ensures
            r == (self@.len() == 0),
    {
        self.head.is_none()
    }

    /// The number of slots that the list's pool has made.
    pub fn slot_count(&self) -> (r: usize)
        ensures
            r == self.slots_made(),
    {
        self.pool.slot_count()
    }

    /// Adds a handle to the list. The node comes from the pool's free chain,
    /// and a new slot is made only when that chain is empty.
    pub fn push(&mut self, waker: Waker)
        requires
            old(self).wf(),
        ensures
            final(self).wf(),
            final(self)@ == old(self)@.push(waker),
            old(self).slots_free() > 0 ==> {
                &&& final(self).slots_made() == old(self).slots_made()
                &&& final(self).slots_free() == old(self).slots_free() - 1
            },
            old(self).slots_free() == 0 ==> {
                &&& final(self).slots_made() == old(self).slots_made() + 1
                &&& final(self).slots_free() == 0
            },
    {
        let ghost old_nodes = self.pool.slots();
        let ghost a = self.active@;
        let ghost w = waker;
        let i = self.pool.acquire_node();
        proof {
            assert(!a.contains(i)) by {
                if a.contains(i) {
                    let k = choose|k: int| 0 <= k < a.len() && a[k] == i;
                    if old(self).pool.free_chain().len() > 0 {
                        assert(old(self).pool.free_chain().contains(i));
                    }
                }
            }
        }
        self.pool.fill(i, waker, self.head);
        self.head = Some(i);
        let ghost c = seq![i] + a;
        proof {
            let nodes = self.pool.slots();
            assert forall|k: int| 0 <= k < a.len() implies #[trigger] nodes[a[k] as int] == old_nodes[a[k] as int] by {
                assert(a[k] != i);
            }
            lemma_chain_frame(old_nodes, nodes, old(self).head, a);
            assert forall|k: int| 0 <= k < c.len() implies #[trigger] c[k] < nodes.len()
                && nodes[c[k] as int].next == link_after(c, k)
                && nodes[c[k] as int].waker is Some by {
                if k > 0 {
                    assert(c[k] == a[k - 1]);
                }
            }
            assert(c.no_duplicates()) by {
                assert forall|x: int, y: int| 0 <= x < y < c.len() implies c[x] != c[y] by {
                    if x > 0 {
                        assert(c[x] == a[x - 1]);
                    } else {
                        assert(a.contains(a[y - 1]));
                    }
                }
            }
            let f = self.pool.free_chain();
            assert forall|k: int| 0 <= k < c.len() implies !f.contains(#[trigger] c[k]) by {
                if k > 0 {
                    assert(c[k] == a[k - 1]);
                    if f.contains(a[k - 1]) {
                        let m = choose|m: int| 0 <= m < f.len() && f[m] == a[k - 1];
                        if old(self).pool.free_chain().len() > 0 {
                            assert(f[m] == old(self).pool.free_chain()[m + 1]);
                        }
                    }
                }
            }
            assert(handles_of(nodes, c) =~= handles_of(old_nodes, a).push(w)) by {
                assert forall|j: int| 0 <= j < a.len() implies #[trigger] handles_of(nodes, c)[j]
                    == handles_of(old_nodes, a)[j] by {
                    assert(c[c.len() - 1 - j] == a[a.len() - 1 - j]);
                }
            }
        }
        self.active = Ghost(c);
    }

    /// Removes and returns the most recently pushed handle, or `None` if
    /// the list is empty. The node goes back to the pool's free chain.
    pub fn pop(&mut self) -> (r: Option<Waker>)
        requires
            old(self).wf(),
        ensures
            final(self).wf(),
            r == popped(old(self)@),
            final(self)@ == after_pop(old(self)@),
            final(self).slots_made() == old(self).slots_made(),
            old(self)@.len() > 0 ==> final(self).slots_free() == old(self).slots_free() + 1,
            old(self)@.len() == 0 ==> final(self).slots_free() == old(self).slots_free(),
    {
        match self.head {
            None => None,
            Some(i) => {
                let ghost old_nodes = self.pool.slots();
                let ghost a = self.active@;
                let ghost rest = a.drop_first();
                proof {
                    assert(a[0] == i);
                    assert(!self.pool.free_chain().contains(i));
                }
                let next = self.pool.next_of(i);
                let w = self.pool.take_waker(i);
                self.head = next;
                proof {
                    assert(!rest.contains(i)) by {
                        if rest.contains(i) {
                            let k = choose|k: int| 0 <= k < rest.len() && rest[k] == i;
                            assert(a[k + 1] == a[0]);
                        }
                    }
                }
                self.pool.release_node(i);
                proof {
                    let nodes = self.pool.slots();
                    let f = self.pool.free_chain();
                    assert forall|k: int| 0 <= k < rest.len() implies #[trigger] nodes[rest[k] as int]
                        == old_nodes[rest[k] as int] && rest[k] < nodes.len()
                        && nodes[rest[k] as int].next == link_after(rest, k)
                        && nodes[rest[k] as int].waker is Some
                        && !f.contains(rest[k]) by {
                        assert(rest[k] == a[k + 1]);
                        assert(rest[k] != i);
                        assert(!old(self).pool.free_chain().contains(a[k + 1]));
                        if f.contains(rest[k]) {
                            let m = choose|m: int| 0 <= m < f.len() && f[m] == rest[k];
                            if m > 0 {
                                assert(f[m] == old(self).pool.free_chain()[m - 1]);
                            }
                        }
                    }
                    assert(handles_of(nodes, rest) =~= handles_of(old_nodes, a).drop_last()) by {
                        assert forall|j: int| 0 <= j < rest.len() implies #[trigger] handles_of(nodes, rest)[j]
                            == handles_of(old_nodes, a)[j] by {
                            assert(rest[rest.len() - 1 - j] == a[a.len() - 1 - j]);
                        }
                    }
                    assert(handles_of(old_nodes, a).last() == old_nodes[i as int].waker->Some_0);
                }
                self.active = Ghost(rest);
                w
            },
        }
    }

    /// Destroys the list and returns its pool. Every handle still in the list
    /// is dropped in place, once; then the whole chain of the list's nodes is
    /// appended to the pool's free chain, so every slot of the returned pool
    /// is free.
    pub fn into_pool(self) -> (p: NodePool)
        requires
            self.wf(),
        ensures
            p.wf(),
            p.all_free(),
            p.slots().len() == self.slots_made(),
    {
        let WakerList { mut pool, head, active } = self;
        let ghost a = active@;
        let ghost f = pool.free_chain();
        let ghost n0 = pool.slots().len();
        let mut p = head;
        let ghost mut k: int = 0;
        loop
            invariant
                pool.wf(),
                pool.free_chain() == f,
                pool.slots().len() == n0,
                is_chain(pool.slots(), head, a),
                disjoint(a, f),
                0 <= k <= a.len(),
                p == (if k < a.len() { Some(a[k]) } else { None::<usize> }),
                forall|m: int| 0 <= m < k ==> (#[trigger] pool.slots()[a[m] as int]).waker is None,
            ensures
                pool.wf(),
                pool.free_chain() == f,
                pool.slots().len() == n0,
                is_chain(pool.slots(), head, a),
                all_dead(pool.slots(), a),
            decreases a.len() - k,
        {
            match p {
                None => {
                    break;
                },
                Some(i) => {
                    let ghost before = pool.slots();
                    proof {
                        assert(!f.contains(a[k]));
                    }
                    p = pool.next_of(i);
                    let _dead = pool.take_waker(i);
                    proof {
                        let nodes = pool.slots();
                        assert forall|m: int| 0 <= m < a.len() implies (#[trigger] nodes[a[m] as int]).next
                            == before[a[m] as int].next by {
                        }
                        assert forall|m: int| 0 <= m < k + 1 implies (#[trigger] nodes[a[m] as int]).waker is None by {
                            if m < k {
                                assert(a[m] != a[k]);
                            }
                        }
                        k = k + 1;
                    }
                },
            }
        }
        pool.release_list(head, Ghost(a));
        pool
    }

    /// The next handle of the list's consuming traversal: the same as `pop`.
    pub fn next(&mut self) -> (r: Option<Waker>)
        requires
            old(self).wf(),
        ensures
            final(self).wf(),
            r == popped(old(self)@),
            final(self)@ == after_pop(old(self)@),
            final(self).slots_made() == old(self).slots_made(),
    {
        self.pop()
    }
}

impl Default for WakerList {
    fn default() -> (r: WakerList)
        ensures
            r.wf(),
            r@ == Seq::<Waker>::empty(),
    {
        WakerList::new()
    }
}

} // verus!
