use core::task::Waker;
use vstd::prelude::*;

verus! {

/// Relies on `core::task::Waker` only as a type: handles are moved in and
/// out of slots and dropped, never inspected.
#[verifier::external_type_specification]
#[verifier::external_body]
pub struct ExWaker(Waker);

/// A reusable slot: the link to the next slot of its chain, and a handle
/// that is live (`Some`) or dead (`None`).
pub struct Node {
    pub next: Option<usize>,
    pub waker: Option<Waker>,
}

/// The first slot of a chain, or `None` for an empty chain.
pub open spec fn first_of(c: Seq<usize>) -> Option<usize> {
    if c.len() == 0 {
        None
    } else {
        Some(c[0])
    }
}

/// The link that the `k`-th slot of chain `c` must hold.
pub open spec fn link_after(c: Seq<usize>, k: int) -> Option<usize> {
    if k + 1 < c.len() {
        Some(c[k + 1])
    } else {
        None
    }
}

/// `c` lists, head first, the distinct slots of a finite chain that starts
/// at `head`, follows the links of `nodes` and ends in `None`.
pub open spec fn is_chain(nodes: Seq<Node>, head: Option<usize>, c: Seq<usize>) -> bool {
    &&& c.no_duplicates()
    &&& head == first_of(c)
    &&& forall|k: int| 0 <= k < c.len() ==> #[trigger] c[k] < nodes.len()
    &&& forall|k: int| 0 <= k < c.len() ==> (#[trigger] nodes[c[k] as int]).next == link_after(c, k)
}

/// Every slot of `c` holds a dead handle.
pub open spec fn all_dead(nodes: Seq<Node>, c: Seq<usize>) -> bool {
    forall|k: int| 0 <= k < c.len() ==> (#[trigger] nodes[c[k] as int]).waker is None
}

/// Every slot of `c` holds a live handle.
pub open spec fn all_live(nodes: Seq<Node>, c: Seq<usize>) -> bool {
    forall|k: int| 0 <= k < c.len() ==> (#[trigger] nodes[c[k] as int]).waker is Some
}

/// No slot is on both chains.
pub open spec fn disjoint(a: Seq<usize>, b: Seq<usize>) -> bool {
    forall|k: int| 0 <= k < a.len() ==> !b.contains(#[trigger] a[k])
}

/// `nodes2` keeps, on every slot of `c`, the link and the handle that `nodes` has there.
pub open spec fn same_on(nodes: Seq<Node>, nodes2: Seq<Node>, c: Seq<usize>) -> bool {
    &&& nodes.len() <= nodes2.len()
    &&& forall|k: int| 0 <= k < c.len() ==> #[trigger] nodes2[c[k] as int] == nodes[c[k] as int]
}

/// A chain, and what its slots hold, survive any change to slots off the chain.
pub proof fn lemma_chain_frame(nodes: Seq<Node>, nodes2: Seq<Node>, head: Option<usize>, c: Seq<usize>)
    requires
        is_chain(nodes, head, c),
        same_on(nodes, nodes2, c),
    ensures
        is_chain(nodes2, head, c),
        all_dead(nodes, c) ==> all_dead(nodes2, c),
        all_live(nodes, c) ==> all_live(nodes2, c),
{
    assert forall|k: int| 0 <= k < c.len() implies (#[trigger] nodes2[c[k] as int]).next == link_after(c, k) by {
        assert(nodes2[c[k] as int] == nodes[c[k] as int]);
    }
}

/// Linking the tail of a non-empty chain `f` to the head of a chain `c` of
/// other slots gives one chain `f + c`.
pub proof fn lemma_chain_append(
    nodes: Seq<Node>,
    nodes2: Seq<Node>,
    f: Seq<usize>,
    c: Seq<usize>,
    head: Option<usize>,
)
    requires
        f.len() > 0,
        is_chain(nodes, first_of(f), f),
        is_chain(nodes, head, c),
        all_dead(nodes, f),
        all_dead(nodes, c),
        disjoint(c, f),
        nodes2 == nodes.update(f.last() as int, Node { next: head, waker: nodes[f.last() as int].waker }),
    ensures
        is_chain(nodes2, first_of(f), f + c),
        all_dead(nodes2, f + c),
{
    let all = f + c;
    let t = f.len() - 1;
    assert forall|a: int, b: int| 0 <= a < b < all.len() implies all[a] != all[b] by {
        if a < f.len() && b >= f.len() {
            assert(all[b] == c[b - f.len()]);
            assert(!f.contains(c[b - f.len()]));
        } else if a >= f.len() {
            assert(all[a] == c[a - f.len()]);
            assert(all[b] == c[b - f.len()]);
        }
    }
    assert forall|m: int| 0 <= m < all.len() implies #[trigger] all[m] < nodes2.len()
        && nodes2[all[m] as int].next == link_after(all, m)
        && nodes2[all[m] as int].waker is None by {
        if m < f.len() {
            assert(all[m] == f[m]);
            if m < t {
                assert(f[m] != f[t]);
            }
        } else {
            assert(all[m] == c[m - f.len()]);
            assert(!f.contains(c[m - f.len()]));
            assert(f[t] != c[m - f.len()]);
        }
    }
}

} // verus!
