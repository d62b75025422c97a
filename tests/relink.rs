use circular_doubly_ll_solana::relink::{initialize, insert, remove};
use circular_doubly_ll_solana::{process_instruction, Address, ListError, Node, Slot, WorkingSet};

const RECORD: usize = 72;

fn addr(n: u8) -> Address {
    Address::new([n; 32])
}

fn program() -> Address {
    addr(200)
}

fn payer() -> Address {
    addr(201)
}

fn blank_slot(key: Address) -> Slot {
    Slot { key, owner: program(), lamports: 1000, data: vec![0u8; RECORD] }
}

fn ws_with(nodes: &[Address]) -> WorkingSet {
    let mut ws = WorkingSet::new();
    assert!(ws.add(Slot { key: payer(), owner: addr(202), lamports: 5000, data: vec![] }));
    for a in nodes {
        assert!(ws.add(blank_slot(*a)));
    }
    ws
}

fn node(ws: &WorkingSet, a: Address) -> Node {
    Node::try_from_slice(&ws.get(&a).unwrap().data).unwrap()
}

/// Follows `next` from `head` and returns the addresses visited before the
/// walk comes back to `head`.
fn traverse(ws: &WorkingSet, head: Address) -> Vec<Address> {
    let mut seen = vec![head];
    let mut at = node(ws, head).next;
    while at != head {
        assert!(seen.len() < 100);
        seen.push(at);
        at = node(ws, at).next;
    }
    seen
}

fn data_of(ws: &WorkingSet, a: Address) -> Vec<u8> {
    ws.get(&a).unwrap().data.clone()
}

#[test]
fn initialize_on_blank_slot_is_self_loop() {
    let h = addr(1);
    let mut ws = ws_with(&[h]);
    assert_eq!(initialize(&mut ws, &program(), &h), Ok(()));
    let n = node(&ws, h);
    assert_eq!((n.data, n.prev, n.next), (0, h, h));
    // A second initialize on the now linked slot is refused.
    assert_eq!(initialize(&mut ws, &program(), &h), Err(ListError::AlreadyInitialized));
}

#[test]
fn initialize_rejects_used_slot() {
    let h = addr(1);
    let mut ws = WorkingSet::new();
    let mut data = vec![0u8; RECORD];
    data[3] = 9;
    ws.add(Slot { key: h, owner: program(), lamports: 1, data: data.clone() });
    assert_eq!(initialize(&mut ws, &program(), &h), Err(ListError::AlreadyInitialized));
    assert_eq!(data_of(&ws, h), data);
    let other = addr(2);
    ws.add(Slot { key: other, owner: program(), lamports: 1, data: vec![0u8; 10] });
    assert_eq!(initialize(&mut ws, &program(), &other), Err(ListError::AlreadyInitialized));
}

#[test]
fn initialize_errors() {
    let h = addr(1);
    let mut ws = WorkingSet::new();
    assert_eq!(initialize(&mut ws, &program(), &h), Err(ListError::MissingSlot));
    ws.add(Slot { key: h, owner: addr(9), lamports: 1, data: vec![0u8; RECORD] });
    assert_eq!(initialize(&mut ws, &program(), &h), Err(ListError::NotAuthorized));
    let e = addr(3);
    ws.add(Slot { key: e, owner: program(), lamports: 1, data: vec![] });
    assert_eq!(initialize(&mut ws, &program(), &e), Err(ListError::MalformedRecord));
}

#[test]
fn insert_into_single_node_list() {
    let h = addr(1);
    let n = addr(2);
    let mut ws = ws_with(&[h, n]);
    initialize(&mut ws, &program(), &h).unwrap();
    assert_eq!(insert(&mut ws, &program(), &h, &n, 42), Ok(()));
    let head = node(&ws, h);
    let new = node(&ws, n);
    assert_eq!(head.prev, n);
    assert_eq!(head.next, n);
    assert_eq!(new.next, h);
    assert_eq!(new.prev, h);
    assert_eq!(new.data, 42);
    assert_eq!(head.data, 0);
}

#[test]
fn insert_keeps_cycle_and_appends_tail() {
    let h = addr(1);
    let others: Vec<Address> = (2..6).map(addr).collect();
    let mut all = vec![h];
    all.extend(others.iter().copied());
    let mut ws = ws_with(&all);
    initialize(&mut ws, &program(), &h).unwrap();
    for (i, a) in others.iter().enumerate() {
        insert(&mut ws, &program(), &h, a, 10 + i as u64).unwrap();
        let mut expected = vec![h];
        expected.extend_from_slice(&others[..=i]);
        assert_eq!(traverse(&ws, h), expected);
        assert_eq!(node(&ws, h).prev, *a);
        assert_eq!(node(&ws, *a).next, h);
    }
    for (i, a) in others.iter().enumerate() {
        assert_eq!(node(&ws, *a).data, 10 + i as u64);
        let prev = node(&ws, *a).prev;
        assert_eq!(node(&ws, prev).next, *a);
    }
}

#[test]
fn insert_order_of_two_inserts() {
    let h = addr(1);
    let a = addr(2);
    let b = addr(3);
    let mut first = ws_with(&[h, a, b]);
    initialize(&mut first, &program(), &h).unwrap();
    let mut second = ws_with(&[h, a, b]);
    initialize(&mut second, &program(), &h).unwrap();
    insert(&mut first, &program(), &h, &a, 7).unwrap();
    insert(&mut first, &program(), &h, &b, 9).unwrap();
    insert(&mut second, &program(), &h, &b, 9).unwrap();
    insert(&mut second, &program(), &h, &a, 7).unwrap();
    assert_eq!(traverse(&first, h), vec![h, a, b]);
    assert_eq!(traverse(&second, h), vec![h, b, a]);
    assert_eq!(node(&first, h).prev, b);
    assert_eq!(node(&second, h).prev, a);
    for ws in [&first, &second] {
        assert_eq!(node(ws, a).data, 7);
        assert_eq!(node(ws, b).data, 9);
    }
}

#[test]
fn insert_errors_leave_slots_unchanged() {
    let h = addr(1);
    let n = addr(2);
    let mut ws = ws_with(&[h, n]);
    initialize(&mut ws, &program(), &h).unwrap();
    let before = data_of(&ws, h);
    assert_eq!(insert(&mut ws, &program(), &h, &addr(50), 1), Err(ListError::MissingSlot));
    assert_eq!(insert(&mut ws, &program(), &h, &h, 1), Err(ListError::AliasedSlot));
    assert_eq!(insert(&mut ws, &addr(99), &h, &n, 1), Err(ListError::NotAuthorized));
    assert_eq!(data_of(&ws, h), before);

    // The tail named by the head is not among the slots.
    let lone = addr(3);
    let far = addr(4);
    let mut ws2 = ws_with(&[lone]);
    let rec = Node { data: 0, prev: far, next: far }.to_bytes();
    ws2.add(Slot { key: addr(5), owner: program(), lamports: 1, data: rec });
    assert_eq!(insert(&mut ws2, &program(), &addr(5), &lone, 1), Err(ListError::MissingSlot));

    // A new slot that cannot hold a record.
    let mut ws3 = ws_with(&[h]);
    initialize(&mut ws3, &program(), &h).unwrap();
    ws3.add(Slot { key: n, owner: program(), lamports: 1, data: vec![0u8; 8] });
    assert_eq!(insert(&mut ws3, &program(), &h, &n, 1), Err(ListError::MalformedRecord));

    // A head whose bytes are not a record.
    let mut ws4 = ws_with(&[n]);
    ws4.add(Slot { key: h, owner: program(), lamports: 1, data: vec![1u8; 5] });
    assert_eq!(insert(&mut ws4, &program(), &h, &n, 1), Err(ListError::MalformedRecord));
}

#[test]
fn remove_middle_node_moves_balance() {
    let h = addr(1);
    let a = addr(2);
    let b = addr(3);
    let c = addr(4);
    let mut ws = ws_with(&[h, a, b, c]);
    initialize(&mut ws, &program(), &h).unwrap();
    for (x, d) in [(a, 1), (b, 2), (c, 3)] {
        insert(&mut ws, &program(), &h, &x, d).unwrap();
    }
    let payer_before = ws.get(&payer()).unwrap().lamports;
    let target_before = ws.get(&b).unwrap().lamports;
    assert_eq!(remove(&mut ws, &program(), &payer(), &h, &b), Ok(()));
    assert_eq!(traverse(&ws, h), vec![h, a, c]);
    assert_eq!(node(&ws, c).prev, a);
    assert_eq!(node(&ws, a).next, c);
    assert_eq!(node(&ws, h).prev, c);
    assert_eq!(ws.get(&payer()).unwrap().lamports, payer_before + target_before);
    assert_eq!(ws.get(&b).unwrap().lamports, 0);
    assert_eq!(data_of(&ws, b), vec![0u8; RECORD]);
    assert_eq!(node(&ws, a).data, 1);
    assert_eq!(node(&ws, c).data, 3);
}

#[test]
fn remove_from_two_node_list_restores_self_loop() {
    let h = addr(1);
    let a = addr(2);
    let mut ws = ws_with(&[h, a]);
    initialize(&mut ws, &program(), &h).unwrap();
    insert(&mut ws, &program(), &h, &a, 5).unwrap();
    remove(&mut ws, &program(), &payer(), &h, &a).unwrap();
    let head = node(&ws, h);
    assert_eq!(head.prev, h);
    assert_eq!(head.next, h);
}

#[test]
fn remove_head_copies_successor() {
    let h = addr(1);
    let a = addr(2);
    let b = addr(3);
    let mut ws = ws_with(&[h, a, b]);
    initialize(&mut ws, &program(), &h).unwrap();
    insert(&mut ws, &program(), &h, &a, 7).unwrap();
    insert(&mut ws, &program(), &h, &b, 9).unwrap();
    let head_balance = ws.get(&h).unwrap().lamports;
    assert_eq!(remove(&mut ws, &program(), &payer(), &h, &h), Ok(()));
    // The successor now links back to the old tail, and the head slot holds
    // a copy of the successor's record.
    let succ = node(&ws, a);
    assert_eq!((succ.data, succ.prev, succ.next), (7, b, b));
    assert_eq!(node(&ws, b).next, a);
    assert_eq!(data_of(&ws, h), data_of(&ws, a));
    assert_eq!(ws.get(&h).unwrap().lamports, head_balance);
}

#[test]
fn remove_errors() {
    let h = addr(1);
    let a = addr(2);
    let mut ws = ws_with(&[h, a]);
    initialize(&mut ws, &program(), &h).unwrap();
    assert_eq!(remove(&mut ws, &program(), &payer(), &h, &h), Err(ListError::SoleNode));
    insert(&mut ws, &program(), &h, &a, 5).unwrap();
    assert_eq!(remove(&mut ws, &program(), &a, &h, &a), Err(ListError::AliasedSlot));
    assert_eq!(remove(&mut ws, &program(), &payer(), &h, &addr(77)), Err(ListError::MissingSlot));
    assert_eq!(remove(&mut ws, &addr(99), &payer(), &h, &a), Err(ListError::NotAuthorized));
    let before = data_of(&ws, h);

    let mut rich = WorkingSet::new();
    rich.add(Slot { key: payer(), owner: addr(202), lamports: u64::MAX, data: vec![] });
    rich.add(blank_slot(h));
    rich.add(blank_slot(a));
    initialize(&mut rich, &program(), &h).unwrap();
    insert(&mut rich, &program(), &h, &a, 5).unwrap();
    assert_eq!(remove(&mut rich, &program(), &payer(), &h, &a), Err(ListError::BalanceOverflow));
    assert_eq!(node(&rich, h).next, a);
    assert_eq!(data_of(&ws, h), before);

    // A target whose neighbour was not handed to the call.
    let far = addr(40);
    let mut ws2 = ws_with(&[h]);
    let rec = Node { data: 1, prev: far, next: h }.to_bytes();
    ws2.add(Slot { key: a, owner: program(), lamports: 1, data: rec });
    assert_eq!(remove(&mut ws2, &program(), &payer(), &h, &a), Err(ListError::MissingSlot));
}

#[test]
fn dispatch_checks_accounts_and_command() {
    let h = addr(1);
    let mut ws = ws_with(&[h]);
    assert_eq!(process_instruction(&program(), &[payer(), h], &mut ws, &[7]), Err(ListError::InvalidCommand));
    assert_eq!(process_instruction(&program(), &[payer()], &mut ws, &[0]), Err(ListError::MissingSlot));
    assert_eq!(process_instruction(&program(), &[payer(), h], &mut ws, &[0]), Ok(()));
    let mut add = vec![1u8];
    add.extend_from_slice(&3u64.to_le_bytes());
    assert_eq!(process_instruction(&program(), &[h, payer(), addr(2)], &mut ws, &add), Err(ListError::MissingSlot));
    let mut rm = vec![2u8];
    rm.extend_from_slice(&[2u8; 32]);
    assert_eq!(process_instruction(&program(), &[payer(), h, addr(3)], &mut ws, &rm), Err(ListError::MissingSlot));
}

#[test]
fn working_set_keeps_first_slot_per_address() {
    let mut ws = WorkingSet::new();
    assert!(ws.add(Slot { key: addr(1), owner: program(), lamports: 1, data: vec![1] }));
    assert!(!ws.add(Slot { key: addr(1), owner: program(), lamports: 2, data: vec![2] }));
    assert_eq!(ws.get(&addr(1)).unwrap().lamports, 1);
    assert!(ws.get(&addr(2)).is_none());
}
