use vstd::prelude::*;
use crate::address::Address;
use crate::record::{Node, RECORD_LEN, blank, lemma_record_round_trip};
use crate::relink::{node_in, write_node, initialize_outcome, insert_outcome, link_tail, remove_outcome, unlink};
use crate::slots::SlotState;

verus! {

/// The position after `i` around a cycle of `n` positions.
pub open spec fn succ_index(i: int, n: int) -> int {
    if i + 1 == n {
        0
    } else {
        i + 1
    }
}

/// The position before `i` around a cycle of `n` positions.
pub open spec fn pred_index(i: int, n: int) -> int {
    if i == 0 {
        n - 1
    } else {
        i - 1
    }
}

/// Position `i` of `cycle` is a slot owned by `program` whose node links
/// forward to the next position and back to the previous one.
pub open spec fn linked_at(m: Map<Address, SlotState>, program: Address, cycle: Seq<Address>, i: int) -> bool {
    &&& m.contains_key(cycle[i])
    &&& m[cycle[i]].owner == program
    &&& node_in(m, cycle[i]) is Some
    &&& node_in(m, cycle[i])->Some_0.next == cycle[succ_index(i, cycle.len() as int)]
    &&& node_in(m, cycle[i])->Some_0.prev == cycle[pred_index(i, cycle.len() as int)]
}

/// The slots `m` hold a well-formed circular list whose nodes, from the head
/// `cycle[0]` on, are the distinct addresses of `cycle`: each node's `next`
/// names the following one, the last's names the head, each `prev` names the
/// one before, and a list of one node links to itself both ways.
pub open spec fn is_ring(m: Map<Address, SlotState>, program: Address, cycle: Seq<Address>) -> bool {
    &&& cycle.len() >= 1
    &&& cycle.no_duplicates()
    &&& forall|i: int| 0 <= i < cycle.len() ==> #[trigger] linked_at(m, program, cycle, i)
}

/// The address reached from `start` by following `next` links `k` times.
pub open spec fn walk(m: Map<Address, SlotState>, start: Address, k: nat) -> Address
    decreases k,
{
    if k == 0 {
        start
    } else {
        let a = walk(m, start, (k - 1) as nat);
        match node_in(m, a) {
            Some(n) => n.next,
            None => a,
        }
    }
}

/// Following `next` from the head of a well-formed list visits its nodes in
/// order and is back at the head after as many steps as there are nodes.
pub proof fn lemma_ring_walk(m: Map<Address, SlotState>, program: Address, cycle: Seq<Address>)
    requires
        is_ring(m, program, cycle),
    ensures
        forall|k: int| 0 <= k < cycle.len() ==> walk(m, cycle[0], k as nat) == #[trigger] cycle[k],
        walk(m, cycle[0], cycle.len()) == cycle[0],
{
    assert forall|k: int| 0 <= k < cycle.len() implies walk(m, cycle[0], k as nat) == #[trigger] cycle[k] by {
        lemma_walk_prefix(m, program, cycle, k);
    }
    lemma_walk_prefix(m, program, cycle, cycle.len() as int);
}

proof fn lemma_walk_prefix(m: Map<Address, SlotState>, program: Address, cycle: Seq<Address>, k: int)
    requires
        is_ring(m, program, cycle),
        0 <= k <= cycle.len(),
    ensures
        walk(m, cycle[0], k as nat) == cycle[if k == cycle.len() { 0 } else { k }],
    decreases k,
{
    if k > 0 {
        lemma_walk_prefix(m, program, cycle, k - 1);
        assert(linked_at(m, program, cycle, k - 1));
    }
}

proof fn lemma_write_node(m: Map<Address, SlotState>, a: Address, n: Node, b: Address)
    requires
        m.contains_key(a),
    ensures
        write_node(m, a, n).contains_key(b) == m.contains_key(b),
        m.contains_key(b) ==> write_node(m, a, n)[b].owner == m[b].owner,
        m.contains_key(b) ==> write_node(m, a, n)[b].lamports == m[b].lamports,
        node_in(write_node(m, a, n), b) == if b == a {
            Some(n)
        } else {
            node_in(m, b)
        },
{
    lemma_record_round_trip(n);
}

/// A successful Initialize leaves a well-formed list of the head alone.
pub proof fn initialize_makes_ring(m: Map<Address, SlotState>, program: Address, head: Address)
    requires
        initialize_outcome(m, program, head) is Ok,
    ensures
        is_ring(initialize_outcome(m, program, head)->Ok_0, program, seq![head]),
{
    let m2 = initialize_outcome(m, program, head)->Ok_0;
    lemma_write_node(m, head, Node { data: 0, prev: head, next: head }, head);
    assert(linked_at(m2, program, seq![head], 0));
    assert(seq![head].no_duplicates());
}

/// Inserting a node that is not yet in a well-formed list of N nodes gives a
/// well-formed list of N+1 nodes: the old ones in their order, then the new
/// one as the tail. A traversal from the head visits exactly these N+1
/// distinct addresses and then returns to the head. Every payload is kept
/// and the new node holds `data`.
pub proof fn insert_keeps_ring(
    m: Map<Address, SlotState>,
    program: Address,
    cycle: Seq<Address>,
    new: Address,
    data: u64,
)
    requires
        is_ring(m, program, cycle),
        m.contains_key(new),
        m[new].owner == program,
        m[new].data.len() == RECORD_LEN,
        !cycle.contains(new),
    ensures
        insert_outcome(m, program, cycle[0], new, data) is Ok,
        ({
            let m2 = insert_outcome(m, program, cycle[0], new, data)->Ok_0;
            let c2 = cycle.push(new);
            &&& is_ring(m2, program, c2)
            &&& forall|k: int| 0 <= k < c2.len() ==> walk(m2, cycle[0], k as nat) == #[trigger] c2[k]
            &&& walk(m2, cycle[0], c2.len()) == cycle[0]
            &&& node_in(m2, new)->Some_0.data == data
            &&& forall|i: int| 0 <= i < cycle.len() ==> (#[trigger] node_in(m2, cycle[i]))->Some_0.data
                == node_in(m, cycle[i])->Some_0.data
            &&& m2.dom() == m.dom()
            &&& forall|x: Address| m.contains_key(x) && !c2.contains(x) ==> #[trigger] m2[x] == m[x]
        }),
{
    let n = cycle.len() as int;
    let head = cycle[0];
    let tail = cycle[n - 1];
    assert(linked_at(m, program, cycle, 0));
    assert(linked_at(m, program, cycle, n - 1));
    let h = node_in(m, head)->Some_0;
    let t = node_in(m, tail)->Some_0;
    assert(h.prev == tail);
    assert(new != head && new != tail);
    let m1 = write_node(m, new, Node { data, prev: tail, next: head });
    let m2 = link_tail(m, head, h, tail, t, new, data);
    assert(insert_outcome(m, program, head, new, data) == Ok::<Map<Address, SlotState>, crate::error::ListError>(m2));
    let c2 = cycle.push(new);
    // What each slot of the new list holds.
    assert forall|b: Address| #[trigger] node_in(m2, b) == if b == new {
        Some(Node { data, prev: tail, next: head })
    } else if b == head && n == 1 {
        Some(Node { data: h.data, prev: new, next: new })
    } else if b == head {
        Some(h.with_prev(new))
    } else if b == tail {
        Some(t.with_next(new))
    } else {
        node_in(m, b)
    } by {
        lemma_write_node(m, new, Node { data, prev: tail, next: head }, b);
        if n == 1 {
            lemma_write_node(m1, head, Node { data: h.data, prev: new, next: new }, b);
        } else {
            lemma_write_node(m1, tail, t.with_next(new), b);
            lemma_write_node(write_node(m1, tail, t.with_next(new)), head, h.with_prev(new), b);
        }
    }
    assert forall|b: Address| m.contains_key(b) implies #[trigger] m2.contains_key(b) && m2[b].owner == m[b].owner by {
        lemma_write_node(m, new, Node { data, prev: tail, next: head }, b);
        if n == 1 {
            lemma_write_node(m1, head, Node { data: h.data, prev: new, next: new }, b);
        } else {
            lemma_write_node(m1, tail, t.with_next(new), b);
            lemma_write_node(write_node(m1, tail, t.with_next(new)), head, h.with_prev(new), b);
        }
    }
    assert forall|i: int| 0 <= i < c2.len() implies #[trigger] linked_at(m2, program, c2, i) by {
        if i < n {
            assert(linked_at(m, program, cycle, i));
            assert(c2[i] == cycle[i]);
            assert(m2.contains_key(c2[i]));
            assert(c2[i] != new);
            if 0 < i < n - 1 {
                assert(cycle[i] != head && cycle[i] != tail);
            }
        }
    }
    assert(c2.no_duplicates()) by {
        assert forall|i: int, j: int| 0 <= i < c2.len() && 0 <= j < c2.len() && i != j implies c2[i] != c2[j] by {
            if i == n {
                assert(cycle.contains(c2[j]) ==> c2[j] != new);
                if j < n {
                    assert(cycle.contains(cycle[j]));
                }
            } else if j == n {
                assert(cycle.contains(cycle[i]));
            }
        }
    }
    assert forall|i: int| 0 <= i < cycle.len() implies (#[trigger] node_in(m2, cycle[i]))->Some_0.data
        == node_in(m, cycle[i])->Some_0.data by {
        assert(linked_at(m, program, cycle, i));
        assert(cycle[i] != new);
    }
    lemma_ring_walk(m2, program, c2);
    assert(m2.dom() =~= m.dom());
    assert forall|x: Address| m.contains_key(x) && !c2.contains(x) implies #[trigger] m2[x] == m[x] by {
        assert(c2[0] == head && c2[n - 1] == tail && c2[n] == new);
    }
}

proof fn lemma_set_lamports(m: Map<Address, SlotState>, a: Address, l: u64, b: Address)
    requires
        m.contains_key(a),
    ensures
        m.insert(a, m[a].with_lamports(l)).contains_key(b) == m.contains_key(b),
        m.contains_key(b) ==> m.insert(a, m[a].with_lamports(l))[b].owner == m[b].owner,
        node_in(m.insert(a, m[a].with_lamports(l)), b) == node_in(m, b),
{
}

/// Removing any node but the head from a well-formed list of N >= 2 nodes
/// gives a well-formed list of the other N-1 nodes, in their order, with
/// their payloads kept. The removed slot's balance becomes zero and the
/// payer's grows by exactly that balance; the removed slot is blanked.
pub proof fn remove_keeps_ring(m: Map<Address, SlotState>, program: Address, cycle: Seq<Address>, k: int, payer: Address)
    requires
        is_ring(m, program, cycle),
        cycle.len() >= 2,
        1 <= k < cycle.len(),
        m.contains_key(payer),
        payer != cycle[k],
        m[payer].lamports + m[cycle[k]].lamports <= u64::MAX,
    ensures
        remove_outcome(m, program, payer, cycle[0], cycle[k]) is Ok,
        ({
            let m2 = remove_outcome(m, program, payer, cycle[0], cycle[k])->Ok_0;
            let c2 = cycle.remove(k);
            &&& is_ring(m2, program, c2)
            &&& m2[cycle[k]].lamports == 0
            &&& m2[payer].lamports == m[payer].lamports + m[cycle[k]].lamports
            &&& m2[cycle[k]].data == blank(RECORD_LEN as nat)
            &&& forall|i: int| 0 <= i < c2.len() ==> (#[trigger] node_in(m2, c2[i]))->Some_0.data
                == node_in(m, c2[i])->Some_0.data
        }),
{
    let n = cycle.len() as int;
    let head = cycle[0];
    let target = cycle[k];
    let pi = k - 1;
    let ni = succ_index(k, n);
    assert(linked_at(m, program, cycle, k));
    assert(linked_at(m, program, cycle, pi));
    assert(linked_at(m, program, cycle, ni));
    assert(linked_at(m, program, cycle, 0));
    let prev = cycle[pi];
    let next = cycle[ni];
    let t = node_in(m, target)->Some_0;
    let p = node_in(m, prev)->Some_0;
    let nn = node_in(m, next)->Some_0;
    assert(t.prev == prev && t.next == next);
    assert(prev != target && next != target);
    assert(head != target);
    assert(m[target].data.len() == RECORD_LEN) by {
        crate::record::lemma_record_len(t);
        assert(t.spec_bytes() == m[target].data);
    }
    let m3 = unlink(m, payer, head, target, t, p, nn);
    assert(remove_outcome(m, program, payer, head, target) == Ok::<Map<Address, SlotState>, crate::error::ListError>(m3));
    let m1 = write_node(m, prev, p.with_next(next));
    let n1 = if next == prev {
        p.with_next(next)
    } else {
        nn
    };
    let m2 = write_node(m1, next, n1.with_prev(prev));
    let credited = m2.insert(payer, m2[payer].with_lamports((m[payer].lamports + m[target].lamports) as u64));
    // What each slot other than the target holds afterwards.
    assert forall|b: Address| b != target implies #[trigger] node_in(m3, b) == if b == next {
        Some(n1.with_prev(prev))
    } else if b == prev {
        Some(p.with_next(next))
    } else {
        node_in(m, b)
    } && (m.contains_key(b) ==> m3.contains_key(b) && m3[b].owner == m[b].owner) by {
        lemma_write_node(m, prev, p.with_next(next), b);
        lemma_write_node(m1, next, n1.with_prev(prev), b);
        lemma_set_lamports(m2, payer, (m[payer].lamports + m[target].lamports) as u64, b);
    }
    let c2 = cycle.remove(k);
    assert forall|i: int| 0 <= i < c2.len() implies #[trigger] linked_at(m3, program, c2, i) && node_in(m3, c2[i])->Some_0.data
        == node_in(m, c2[i])->Some_0.data by {
        let oi = if i < k { i } else { i + 1 };
        assert(c2[i] == cycle[oi]);
        assert(oi != k);
        assert(linked_at(m, program, cycle, oi));
        assert(cycle[oi] != target);
        assert(c2[succ_index(i, n - 1)] == cycle[succ_index(oi, n)] || cycle[oi] == prev);
        assert(c2[pred_index(i, n - 1)] == cycle[pred_index(oi, n)] || cycle[oi] == next);
        if n == 2 {
            assert(prev == next);
        }
        if cycle[oi] == prev {
            assert(oi == pi);
        }
        if cycle[oi] == next {
            assert(oi == ni);
        }
    }
    assert(c2.no_duplicates()) by {
        assert forall|i: int, j: int| 0 <= i < c2.len() && 0 <= j < c2.len() && i != j implies c2[i] != c2[j] by {
            let oi = if i < k { i } else { i + 1 };
            let oj = if j < k { j } else { j + 1 };
            assert(c2[i] == cycle[oi] && c2[j] == cycle[oj]);
        }
    }
}

/// Removing the one node besides the head of a two-node list leaves the head
/// linking to itself both ways.
pub proof fn remove_last_leaves_head_alone(m: Map<Address, SlotState>, program: Address, cycle: Seq<Address>, payer: Address)
    requires
        is_ring(m, program, cycle),
        cycle.len() == 2,
        m.contains_key(payer),
        payer != cycle[1],
        m[payer].lamports + m[cycle[1]].lamports <= u64::MAX,
    ensures
        remove_outcome(m, program, payer, cycle[0], cycle[1]) is Ok,
        ({
            let h = node_in(remove_outcome(m, program, payer, cycle[0], cycle[1])->Ok_0, cycle[0]);
            h is Some && h->Some_0.prev == cycle[0] && h->Some_0.next == cycle[0]
        }),
{
    remove_keeps_ring(m, program, cycle, 1, payer);
    let m2 = remove_outcome(m, program, payer, cycle[0], cycle[1])->Ok_0;
    let c2 = cycle.remove(1);
    assert(linked_at(m2, program, c2, 0));
}

/// Two inserts of distinct new slots into a list of one node, made in
/// either order, give three-node lists over the same nodes and payloads,
/// anchored at the same head: the one inserted last is the tail next to the
/// head, the other follows the head.
pub proof fn disjoint_inserts_commute(
    m: Map<Address, SlotState>,
    program: Address,
    head: Address,
    a: Address,
    da: u64,
    b: Address,
    db: u64,
)
    requires
        is_ring(m, program, seq![head]),
        m.contains_key(a),
        m.contains_key(b),
        m[a].owner == program,
        m[b].owner == program,
        m[a].data.len() == RECORD_LEN,
        m[b].data.len() == RECORD_LEN,
        a != b,
        a != head,
        b != head,
    ensures
        insert_outcome(m, program, head, a, da) is Ok,
        insert_outcome(m, program, head, b, db) is Ok,
        ({
            let m_a = insert_outcome(m, program, head, a, da)->Ok_0;
            let m_b = insert_outcome(m, program, head, b, db)->Ok_0;
            let ab = insert_outcome(m_a, program, head, b, db);
            let ba = insert_outcome(m_b, program, head, a, da);
            &&& ab is Ok
            &&& ba is Ok
            &&& is_ring(ab->Ok_0, program, seq![head, a, b])
            &&& is_ring(ba->Ok_0, program, seq![head, b, a])
            &&& node_in(ab->Ok_0, a)->Some_0.data == da
            &&& node_in(ba->Ok_0, a)->Some_0.data == da
            &&& node_in(ab->Ok_0, b)->Some_0.data == db
            &&& node_in(ba->Ok_0, b)->Some_0.data == db
            &&& node_in(ab->Ok_0, head)->Some_0.data == node_in(ba->Ok_0, head)->Some_0.data
        }),
{
    let c = seq![head];
    insert_keeps_ring(m, program, c, a, da);
    insert_keeps_ring(m, program, c, b, db);
    let m_a = insert_outcome(m, program, head, a, da)->Ok_0;
    let m_b = insert_outcome(m, program, head, b, db)->Ok_0;
    let ca = c.push(a);
    let cb = c.push(b);
    assert(ca =~= seq![head, a]);
    assert(cb =~= seq![head, b]);
    assert(!ca.contains(b)) by {
        assert(ca[0] != b && ca[1] != b);
    }
    assert(!cb.contains(a)) by {
        assert(cb[0] != a && cb[1] != a);
    }
    assert(m_a[b] == m[b]);
    assert(m_b[a] == m[a]);
    insert_keeps_ring(m_a, program, ca, b, db);
    insert_keeps_ring(m_b, program, cb, a, da);
    assert(ca.push(b) =~= seq![head, a, b]);
    assert(cb.push(a) =~= seq![head, b, a]);
    assert(ca[0] == head && ca[1] == a);
    assert(cb[0] == head && cb[1] == b);
    assert(c[0] == head);
}

} // verus!
