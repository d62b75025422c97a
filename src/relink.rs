use vstd::prelude::*;
use crate::address::Address;
use crate::error::ListError;
use crate::record::{Node, RECORD_LEN, record_of, blank, lemma_record_round_trip};
use crate::slots::{SlotState, WorkingSet};

verus! {

/// The node that slot `a` holds in `m`, if `m` has that slot and it holds one.
pub open spec fn node_in(m: Map<Address, SlotState>, a: Address) -> Option<Node> {
    if m.contains_key(a) {
        record_of(m[a].data)
    } else {
        None
    }
}

/// `m` with the record of `n` written to slot `a`.
pub open spec fn write_node(m: Map<Address, SlotState>, a: Address, n: Node) -> Map<Address, SlotState> {
    m.insert(a, m[a].with_data(n.spec_bytes()))
}

/// What Initialize does to the slots `m` for the list anchored at `head`:
/// the head slot must be present, owned by `program`, and either blank or
/// empty; a blank slot of record size gets a node that links to itself.
pub open spec fn initialize_outcome(m: Map<Address, SlotState>, program: Address, head: Address) -> Result<
    Map<Address, SlotState>,
    ListError,
> {
    if !m.contains_key(head) {
        Err(ListError::MissingSlot)
    } else if m[head].owner != program {
        Err(ListError::NotAuthorized)
    } else if m[head].data.len() != 0 && m[head].data != blank(RECORD_LEN as nat) {
        Err(ListError::AlreadyInitialized)
    } else if m[head].data.len() != RECORD_LEN {
        Err(ListError::MalformedRecord)
    } else {
        Ok(write_node(m, head, Node { data: 0, prev: head, next: head }))
    }
}

/// The slots after `new` is linked in as the tail of the list anchored at
/// `head`, whose node is `h`; `tail` is `h.prev` and holds `t`.
pub open spec fn link_tail(
    m: Map<Address, SlotState>,
    head: Address,
    h: Node,
    tail: Address,
    t: Node,
    new: Address,
    data: u64,
) -> Map<Address, SlotState> {
    let m1 = write_node(m, new, Node { data, prev: tail, next: head });
    if tail == head {
        write_node(m1, head, Node { data: h.data, prev: new, next: new })
    } else {
        write_node(write_node(m1, tail, t.with_next(new)), head, h.with_prev(new))
    }
}

/// What Insert does to the slots `m`: `new` becomes the node just before
/// `head`, holding `data`. The head, its predecessor and `new` must be
/// present and owned by `program`; `new` must be a record-sized slot apart
/// from both of the others.
pub open spec fn insert_outcome(
    m: Map<Address, SlotState>,
    program: Address,
    head: Address,
    new: Address,
    data: u64,
) -> Result<Map<Address, SlotState>, ListError> {
    if !m.contains_key(head) || !m.contains_key(new) {
        Err(ListError::MissingSlot)
    } else if m[head].owner != program || m[new].owner != program {
        Err(ListError::NotAuthorized)
    } else {
        match record_of(m[head].data) {
            None => Err(ListError::MalformedRecord),
            Some(h) => {
                let tail = h.prev;
                if !m.contains_key(tail) {
                    Err(ListError::MissingSlot)
                } else if m[tail].owner != program {
                    Err(ListError::NotAuthorized)
                } else if new == head || new == tail {
                    Err(ListError::AliasedSlot)
                } else if m[new].data.len() != RECORD_LEN {
                    Err(ListError::MalformedRecord)
                } else {
                    match record_of(m[tail].data) {
                        None => Err(ListError::MalformedRecord),
                        Some(t) => Ok(link_tail(m, head, h, tail, t, new, data)),
                    }
                }
            },
        }
    }
}

/// The slots after `target`, which holds `t`, is unlinked from its
/// neighbours `p` (at `t.prev`) and `n` (at `t.next`). Removing the head
/// copies the successor's new record into the head slot; removing any other
/// node moves its balance to `payer` and blanks it.
pub open spec fn unlink(
    m: Map<Address, SlotState>,
    payer: Address,
    head: Address,
    target: Address,
    t: Node,
    p: Node,
    n: Node,
) -> Map<Address, SlotState> {
    let m1 = write_node(m, t.prev, p.with_next(t.next));
    let n1 = if t.next == t.prev {
        p.with_next(t.next)
    } else {
        n
    };
    let m2 = write_node(m1, t.next, n1.with_prev(t.prev));
    if target == head {
        m2.insert(head, m2[head].with_data(m2[t.next].data))
    } else {
        let credited = m2.insert(payer, m2[payer].with_lamports((m[payer].lamports + m[target].lamports) as u64));
        credited.insert(
            target,
            SlotState { owner: m[target].owner, lamports: 0, data: blank(m[target].data.len()) },
        )
    }
}

/// What Remove does to the slots `m`: `target` is unlinked from the list
/// anchored at `head`. The payer, head, target and the target's neighbours
/// must be present; all but the payer must be owned by `program`; the payer
/// must differ from the target, and the target must not link to itself.
pub open spec fn remove_outcome(
    m: Map<Address, SlotState>,
    program: Address,
    payer: Address,
    head: Address,
    target: Address,
) -> Result<Map<Address, SlotState>, ListError> {
    if !m.contains_key(payer) || !m.contains_key(head) || !m.contains_key(target) {
        Err(ListError::MissingSlot)
    } else if m[head].owner != program || m[target].owner != program {
        Err(ListError::NotAuthorized)
    } else if payer == target {
        Err(ListError::AliasedSlot)
    } else {
        match record_of(m[target].data) {
            None => Err(ListError::MalformedRecord),
            Some(t) => {
                if t.prev == target || t.next == target {
                    Err(ListError::SoleNode)
                } else if !m.contains_key(t.prev) || !m.contains_key(t.next) {
                    Err(ListError::MissingSlot)
                } else if m[t.prev].owner != program || m[t.next].owner != program {
                    Err(ListError::NotAuthorized)
                } else {
                    match (record_of(m[t.prev].data), record_of(m[t.next].data)) {
                        (Some(p), Some(n)) => {
                            if target != head && m[payer].lamports + m[target].lamports > u64::MAX {
                                Err(ListError::BalanceOverflow)
                            } else {
                                Ok(unlink(m, payer, head, target, t, p, n))
                            }
                        },
                        _ => Err(ListError::MalformedRecord),
                    }
                }
            },
        }
    }
}

/// Whether an operation on `old` with the given outcome left `new` and returned `r`.
pub open spec fn follows(
    outcome: Result<Map<Address, SlotState>, ListError>,
    old: Map<Address, SlotState>,
    new: Map<Address, SlotState>,
    r: Result<(), ListError>,
) -> bool {
    match outcome {
        Ok(m) => r is Ok && new == m,
        Err(e) => r == Err::<(), ListError>(e) && new == old,
    }
}

/// Reads the node held by slot `key` of `ws`.
fn read_node(ws: &WorkingSet, key: &Address) -> (r: Result<Node, ListError>)
    requires
        ws@.contains_key(*key),
    ensures
        r matches Ok(n) ==> record_of(ws@[*key].data) == Some(n),
        r is Err ==> r == Err::<Node, ListError>(ListError::MalformedRecord) && record_of(ws@[*key].data) is None,
{
    match ws.get(key) {
        Some(s) => Node::try_from_slice(s.data.as_slice()),
        None => Err(ListError::MalformedRecord),
    }
}

/// Writes the record of `n` to slot `key` of `ws`.
fn write(ws: &mut WorkingSet, key: &Address, n: &Node)
    requires
        old(ws)@.contains_key(*key),
    ensures
        final(ws)@ == write_node(old(ws)@, *key, *n),
{
    let bytes = n.to_bytes();
    ws.set_data(key, bytes);
}

/// Whether slot `key` of `ws` is present and owned by `program`.
fn owned_by(ws: &WorkingSet, key: &Address, program: &Address) -> (r: bool)
    ensures
        r == (ws@.contains_key(*key) && ws@[*key].owner == *program),
{
    match ws.get(key) {
        Some(s) => s.owner.same_as(program),
        None => false,
    }
}

/// Whether every byte of `b` is zero.
fn is_blank(b: &[u8]) -> (r: bool)
    ensures
        r == (b@ == blank(b@.len())),
{
    let len = b.len();
    let mut i: usize = 0;
    while i < len
        invariant
            len == b@.len(),
            i <= len,
            forall|j: int| 0 <= j < i ==> b@[j] == 0,
        decreases len - i,
    {
        if b[i] != 0 {
            assert(b@[i as int] != blank(b@.len())[i as int]);
            return false;
        }
        i = i + 1;
    }
    assert(b@ =~= blank(b@.len()));
    true
}

/// Anchors a new, empty list at `head`: the head slot gets a node with
/// payload 0 whose `prev` and `next` both name `head`.
pub fn initialize(ws: &mut WorkingSet, program: &Address, head: &Address) -> (r: Result<(), ListError>)
    ensures
        follows(initialize_outcome(old(ws)@, *program, *head), old(ws)@, final(ws)@, r),
        old(ws)@.contains_key(*head) && old(ws)@[*head].owner == *program
            && old(ws)@[*head].data == blank(RECORD_LEN as nat)
            ==> r is Ok && node_in(final(ws)@, *head) == Some((Node { data: 0, prev: *head, next: *head })),
        old(ws)@.contains_key(*head) && old(ws)@[*head].owner == *program
            && old(ws)@[*head].data.len() != 0 && old(ws)@[*head].data != blank(RECORD_LEN as nat)
            ==> r == Err::<(), ListError>(ListError::AlreadyInitialized),
{
    let len = match ws.get(head) {
        None => {
            return Err(ListError::MissingSlot);
        },
        Some(s) => {
            if !s.owner.same_as(program) {
                return Err(ListError::NotAuthorized);
            }
            let len = s.data.len();
            if len != 0 && (len != RECORD_LEN || !is_blank(s.data.as_slice())) {
                return Err(ListError::AlreadyInitialized);
            }
            len
        },
    };
    if len != RECORD_LEN {
        return Err(ListError::MalformedRecord);
    }
    let node = Node { data: 0, prev: *head, next: *head };
    write(ws, head, &node);
    proof {
        lemma_record_round_trip(node);
    }
    Ok(())
}

/// Links a new node holding `data`, stored in slot `new`, in just before
/// `head`, so that it becomes the list's tail.
pub fn insert(ws: &mut WorkingSet, program: &Address, head: &Address, new: &Address, data: u64) -> (r: Result<
    (),
    ListError,
>)
    ensures
        follows(insert_outcome(old(ws)@, *program, *head, *new, data), old(ws)@, final(ws)@, r),
        r is Ok ==> (node_in(final(ws)@, *head) matches Some(h) && h.prev == *new),
        r is Ok ==> (node_in(final(ws)@, *new) matches Some(n) && n.next == *head && n.data == data),
{
    let ghost m = ws@;
    if !owned_by(ws, head, program) || !owned_by(ws, new, program) {
        if ws.get(head).is_none() || ws.get(new).is_none() {
            return Err(ListError::MissingSlot);
        }
        return Err(ListError::NotAuthorized);
    }
    let h = match read_node(ws, head) {
        Ok(n) => n,
        Err(e) => {
            return Err(e);
        },
    };
    let tail = h.prev;
    if !owned_by(ws, &tail, program) {
        if ws.get(&tail).is_none() {
            return Err(ListError::MissingSlot);
        }
        return Err(ListError::NotAuthorized);
    }
    if new.same_as(head) || new.same_as(&tail) {
        return Err(ListError::AliasedSlot);
    }
    let fits = match ws.get(new) {
        Some(s) => s.data.len() == RECORD_LEN,
        None => false,
    };
    if !fits {
        return Err(ListError::MalformedRecord);
    }
    let t = match read_node(ws, &tail) {
        Ok(n) => n,
        Err(e) => {
            return Err(e);
        },
    };
    let node = Node { data, prev: tail, next: *head };
    write(ws, new, &node);
    let head_node = if tail.same_as(head) {
        Node { data: h.data, prev: *new, next: *new }
    } else {
        let tail_node = Node { data: t.data, prev: t.prev, next: *new };
        write(ws, &tail, &tail_node);
        Node { data: h.data, prev: *new, next: h.next }
    };
    write(ws, head, &head_node);
    proof {
        lemma_record_round_trip(node);
        lemma_record_round_trip(head_node);
        assert(final(ws)@ == link_tail(m, *head, h, tail, t, *new, data));
    }
    Ok(())
}

/// A run of `len` zero bytes.
fn blank_bytes(len: usize) -> (r: Vec<u8>)
    ensures
        r@ == blank(len as nat),
{
    let mut r: Vec<u8> = Vec::new();
    let mut i: usize = 0;
    while i < len
        invariant
            i <= len,
            r@ == blank(i as nat),
        decreases len - i,
    {
        r.push(0u8);
        i = i + 1;
        assert(r@ =~= blank(i as nat));
    }
    r
}

/// The balance of slot `key` of `ws`.
fn lamports_of(ws: &WorkingSet, key: &Address) -> (r: u64)
    requires
        ws@.contains_key(*key),
    ensures
        r == ws@[*key].lamports,
{
    match ws.get(key) {
        Some(s) => s.lamports,
        None => 0,
    }
}

/// Unlinks the node stored at `target` from the list anchored at `head` by
/// joining its predecessor and successor. A removed non-head node's balance
/// goes to `payer` and its slot is blanked; removing the head instead copies
/// its successor's new record into the head slot, which stays the anchor.
pub fn remove(ws: &mut WorkingSet, program: &Address, payer: &Address, head: &Address, target: &Address) -> (r:
    Result<(), ListError>)
    ensures
        follows(remove_outcome(old(ws)@, *program, *payer, *head, *target), old(ws)@, final(ws)@, r),
{
    let ghost m = ws@;
    if ws.get(payer).is_none() || ws.get(head).is_none() || ws.get(target).is_none() {
        return Err(ListError::MissingSlot);
    }
    if !owned_by(ws, head, program) || !owned_by(ws, target, program) {
        return Err(ListError::NotAuthorized);
    }
    if payer.same_as(target) {
        return Err(ListError::AliasedSlot);
    }
    let t = match read_node(ws, target) {
        Ok(n) => n,
        Err(e) => {
            return Err(e);
        },
    };
    if t.prev.same_as(target) || t.next.same_as(target) {
        return Err(ListError::SoleNode);
    }
    if ws.get(&t.prev).is_none() || ws.get(&t.next).is_none() {
        return Err(ListError::MissingSlot);
    }
    if !owned_by(ws, &t.prev, program) || !owned_by(ws, &t.next, program) {
        return Err(ListError::NotAuthorized);
    }
    let p = match read_node(ws, &t.prev) {
        Ok(n) => n,
        Err(e) => {
            return Err(e);
        },
    };
    let n = match read_node(ws, &t.next) {
        Ok(n) => n,
        Err(e) => {
            return Err(e);
        },
    };
    let removing_head = target.same_as(head);
    let credited: u64 = if removing_head {
        0
    } else {
        match lamports_of(ws, payer).checked_add(lamports_of(ws, target)) {
            Some(x) => x,
            None => {
                return Err(ListError::BalanceOverflow);
            },
        }
    };
    let target_len = match ws.get(target) {
        Some(s) => s.data.len(),
        None => 0,
    };
    let p1 = Node { data: p.data, prev: p.prev, next: t.next };
    write(ws, &t.prev, &p1);
    let n1 = if t.next.same_as(&t.prev) {
        p1
    } else {
        n
    };
    let n2 = Node { data: n1.data, prev: t.prev, next: n1.next };
    write(ws, &t.next, &n2);
    let ghost m2 = ws@;
    if removing_head {
        let bytes = n2.to_bytes();
        ws.set_data(head, bytes);
    } else {
        ws.set_lamports(payer, credited);
        ws.set_lamports(target, 0);
        ws.set_data(target, blank_bytes(target_len));
        proof {
            let credited_map = m2.insert(*payer, m2[*payer].with_lamports(credited));
            assert(final(ws)@ =~= credited_map.insert(
                *target,
                SlotState { owner: m[*target].owner, lamports: 0, data: blank(m[*target].data.len()) },
            ));
        }
    }
    Ok(())
}

} // verus!
