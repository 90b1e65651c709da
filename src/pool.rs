use core::task::Waker;
use vstd::prelude::*;

use crate::node::{Node, is_chain, all_dead, first_of, link_after, disjoint, lemma_chain_frame, lemma_chain_append};

verus! {

/// An arena of slots together with the chain of its free slots.
///
/// Slots are never given back to the allocator: the arena only grows, and a
/// slot that is released goes on the free chain to be handed out again.
/// Slots that are not on the free chain belong to whoever acquired them.
pub struct NodePool {
    nodes: Vec<Node>,
    head: Option<usize>,
    free: Ghost<Seq<usize>>,
}

impl NodePool {
    /// Every slot of the arena, by index.
    pub closed spec fn slots(&self) -> Seq<Node> {
        self.nodes@
    }

    /// The free chain, head first.
    pub closed spec fn free_chain(&self) -> Seq<usize> {
        self.free@
    }

    /// The free chain is a well-formed chain of dead slots.
    pub closed spec fn wf(&self) -> bool {
        &&& is_chain(self.nodes@, self.head, self.free@)
        &&& all_dead(self.nodes@, self.free@)
    }

    /// Whether every slot of the arena is free.
    pub open spec fn all_free(&self) -> bool {
        self.free_chain().len() == self.slots().len()
    }

    /// An empty pool: no slot, nothing allocated.
    pub fn new() -> (r: NodePool)
        ensures
            r.wf(),
            r.slots() == Seq::<Node>::empty(),
            r.free_chain() == Seq::<usize>::empty(),
    {
        NodePool { nodes: Vec::new(), head: None, free: Ghost(Seq::empty()) }
    }

    /// The number of slots in the arena.
    pub fn slot_count(&self) -> (r: usize)
        ensures
            r == self.slots().len(),
    {
        self.nodes.len()
    }

    /// Adds a fresh slot, with a dead handle and no link, to the arena.
    fn allocate_node(&mut self) -> (i: usize)
        requires
            old(self).wf(),
        ensures
            final(self).wf(),
            i == old(self).slots().len(),
            final(self).slots() == old(self).slots().push(Node { next: None, waker: None }),
            final(self).free_chain() == old(self).free_chain(),
    {
        let i = self.nodes.len();
        self.nodes.push(Node { next: None, waker: None });
        proof {
            lemma_chain_frame(old(self).nodes@, self.nodes@, self.head, self.free@);
        }
        i
    }

    /// Hands out a slot with a dead handle: the head of the free chain if
    /// there is one, else a fresh slot. The slot's link is left as it was;
    /// the caller sets it.
    pub(crate) fn acquire_node(&mut self) -> (i: usize)
        requires
            old(self).wf(),
        ensures
            final(self).wf(),
            i < final(self).slots().len(),
            final(self).slots()[i as int].waker is None,
            !final(self).free_chain().contains(i),
            old(self).free_chain().len() > 0 ==> {
                &&& i == old(self).free_chain()[0]
                &&& final(self).free_chain() == old(self).free_chain().drop_first()
                &&& final(self).slots() == old(self).slots()
            },
            old(self).free_chain().len() == 0 ==> {
                &&& i == old(self).slots().len()
                &&& final(self).free_chain() == old(self).free_chain()
                &&& final(self).slots() == old(self).slots().push(Node { next: None, waker: None })
            },
    {
        match self.head {
            Some(i) => {
                proof {
                    assert(self.free@[0] == i);
                }
                self.head = self.nodes[i].next;
                let ghost rest = self.free@.drop_first();
                proof {
                    assert forall|k: int| 0 <= k < rest.len() implies #[trigger] rest[k] < self.nodes@.len()
                        && self.nodes@[rest[k] as int].next == link_after(rest, k)
                        && self.nodes@[rest[k] as int].waker is None by {
                        assert(rest[k] == self.free@[k + 1]);
                    }
                    assert(!rest.contains(i)) by {
                        if rest.contains(i) {
                            let k = choose|k: int| 0 <= k < rest.len() && rest[k] == i;
                            assert(self.free@[k + 1] == self.free@[0]);
                        }
                    }
                }
                self.free = Ghost(rest);
                i
            },
            None => self.allocate_node(),
        }
    }

    /// Puts slot `i`, whose handle is dead, at the head of the free chain.
    pub(crate) fn release_node(&mut self, i: usize)
        requires
            old(self).wf(),
            i < old(self).slots().len(),
            !old(self).free_chain().contains(i),
            old(self).slots()[i as int].waker is None,
        ensures
            final(self).wf(),
            final(self).free_chain() == seq![i] + old(self).free_chain(),
            final(self).slots() == old(self).slots().update(
                i as int,
                Node { next: first_of(old(self).free_chain()), waker: None },
            ),
    {
        let ghost old_nodes = self.nodes@;
        let ghost old_free = self.free@;
        self.nodes[i].next = self.head;
        self.head = Some(i);
        let ghost c = seq![i] + old_free;
        proof {
            assert forall|k: int| 0 <= k < old_free.len() implies #[trigger] self.nodes@[old_free[k] as int]
                == old_nodes[old_free[k] as int] by {
                assert(old_free[k] != i);
            }
            assert forall|k: int| 0 <= k < c.len() implies #[trigger] c[k] < self.nodes@.len()
                && self.nodes@[c[k] as int].next == link_after(c, k)
                && self.nodes@[c[k] as int].waker is None by {
                if k > 0 {
                    assert(c[k] == old_free[k - 1]);
                }
            }
            assert(c.no_duplicates()) by {
                assert forall|a: int, b: int| 0 <= a < b < c.len() implies c[a] != c[b] by {
                    if a > 0 {
                        assert(c[a] == old_free[a - 1]);
                    } else {
                        assert(old_free.contains(old_free[b - 1]));
                    }
                }
            }
        }
        self.free = Ghost(c);
    }

    /// Appends chain `c`, starting at `head`, whose slots all hold dead
    /// handles, to the end of the free chain. Walks the free chain to its tail.
    pub(crate) fn release_list(&mut self, head: Option<usize>, Ghost(c): Ghost<Seq<usize>>)
        requires
            old(self).wf(),
            is_chain(old(self).slots(), head, c),
            all_dead(old(self).slots(), c),
            disjoint(c, old(self).free_chain()),
        ensures
            final(self).wf(),
            final(self).free_chain() == old(self).free_chain() + c,
            final(self).slots().len() == old(self).slots().len(),
    {
        let ghost old_nodes = self.nodes@;
        let ghost f = self.free@;
        let ghost all = f + c;
        match self.head {
            None => {
                self.head = head;
                proof {
                    assert(all =~= c);
                }
                self.free = Ghost(all);
            },
            Some(first) => {
                let mut p: usize = first;
                let ghost mut k: int = 0;
                loop
                    invariant
                        self.nodes@ == old_nodes,
                        self.free@ == f,
                        self.head == Some(first),
                        is_chain(old_nodes, Some(first), f),
                        0 <= k < f.len(),
                        p == f[k],
                    ensures
                        self.nodes@ == old_nodes,
                        self.free@ == f,
                        self.head == Some(first),
                        k + 1 == f.len(),
                        p == f[k],
                    decreases f.len() - k,
                {
                    match self.nodes[p].next {
                        Some(q) => {
                            proof {
                                assert(k + 1 < f.len());
                            }
                            p = q;
                            proof {
                                k = k + 1;
                            }
                        },
                        None => {
                            proof {
                                if k + 1 < f.len() {
                                    assert(old_nodes[f[k] as int].next == Some(f[k + 1]));
                                }
                            }
                            break;
                        },
                    }
                }
                self.nodes[p].next = head;
                proof {
                    lemma_chain_append(old_nodes, self.nodes@, f, c, head);
                }
                self.free = Ghost(all);
            },
        }
    }

    /// The slot's link.
    pub(crate) fn next_of(&self, i: usize) -> (r: Option<usize>)
        requires
            i < self.slots().len(),
        ensures
            r == self.slots()[i as int].next,
    {
        self.nodes[i].next
    }

    /// Makes slot `i`, which is not free, hold the live handle `w` and the link `next`.
    pub(crate) fn fill(&mut self, i: usize, w: Waker, next: Option<usize>)
        requires
            old(self).wf(),
            i < old(self).slots().len(),
            !old(self).free_chain().contains(i),
        ensures
            final(self).wf(),
            final(self).free_chain() == old(self).free_chain(),
            final(self).slots() == old(self).slots().update(i as int, Node { next, waker: Some(w) }),
    {
        self.nodes.set(i, Node { next, waker: Some(w) });
        proof {
            assert forall|k: int| 0 <= k < self.free@.len() implies #[trigger] self.nodes@[self.free@[k] as int]
                == old(self).nodes@[self.free@[k] as int] by {
                assert(self.free@[k] != i);
            }
            lemma_chain_frame(old(self).nodes@, self.nodes@, self.head, self.free@);
        }
    }

    /// Takes the handle out of slot `i`, which is not free, leaving it dead.
    pub(crate) fn take_waker(&mut self, i: usize) -> (r: Option<Waker>)
        requires
            old(self).wf(),
            i < old(self).slots().len(),
            !old(self).free_chain().contains(i),
        ensures
            final(self).wf(),
            r == old(self).slots()[i as int].waker,
            final(self).free_chain() == old(self).free_chain(),
            final(self).slots() == old(self).slots().update(
                i as int,
                Node { next: old(self).slots()[i as int].next, waker: None },
            ),
    {
        let r = self.nodes[i].waker.take();
        proof {
            assert forall|k: int| 0 <= k < self.free@.len() implies #[trigger] self.nodes@[self.free@[k] as int]
                == old(self).nodes@[self.free@[k] as int] by {
                assert(self.free@[k] != i);
            }
            lemma_chain_frame(old(self).nodes@, self.nodes@, self.head, self.free@);
            assert(self.nodes@ =~= old(self).nodes@.update(
                i as int,
                Node { next: old(self).nodes@[i as int].next, waker: None },
            ));
        }
        r
    }
}

} // verus!
