use circular_doubly_ll_solana::{Address, InstructionData, ListError, Node};

#[test]
fn node_bytes_layout() {
    let n = Node { data: 0x0102_0304_0506_0708, prev: Address::new([7u8; 32]), next: Address::new([9u8; 32]) };
    let b = n.to_bytes();
    assert_eq!(b.len(), 72);
    assert_eq!(&b[0..8], &[8u8, 7, 6, 5, 4, 3, 2, 1]);
    assert_eq!(&b[8..40], &[7u8; 32]);
    assert_eq!(&b[40..72], &[9u8; 32]);
}

#[test]
fn node_round_trip() {
    let n = Node { data: 42, prev: Address::new([3u8; 32]), next: Address::new([4u8; 32]) };
    let back = Node::try_from_slice(&n.to_bytes()).unwrap();
    assert_eq!(back.data, 42);
    assert_eq!(back.prev, Address::new([3u8; 32]));
    assert_eq!(back.next, Address::new([4u8; 32]));
}

#[test]
fn node_reads_payload_little_endian() {
    let mut b = vec![0u8; 72];
    b[0] = 0x2a;
    b[1] = 0x01;
    let n = Node::try_from_slice(&b).unwrap();
    assert_eq!(n.data, 0x012a);
    assert_eq!(n.prev, Address::zero());
}

#[test]
fn node_rejects_wrong_length() {
    assert_eq!(Node::try_from_slice(&[0u8; 71]).unwrap_err(), ListError::MalformedRecord);
    assert_eq!(Node::try_from_slice(&[0u8; 73]).unwrap_err(), ListError::MalformedRecord);
    assert_eq!(Node::try_from_slice(&[]).unwrap_err(), ListError::MalformedRecord);
}

#[test]
fn command_bytes() {
    assert_eq!(InstructionData::InitializeList.try_to_vec().unwrap(), vec![0u8]);
    assert_eq!(InstructionData::AddNode { data: 42 }.try_to_vec().unwrap(), vec![1u8, 42, 0, 0, 0, 0, 0, 0, 0]);
    let mut remove = vec![2u8];
    remove.extend_from_slice(&[5u8; 32]);
    assert_eq!(InstructionData::RemoveNode { target_node: Address::new([5u8; 32]) }.try_to_vec().unwrap(), remove);
}

#[test]
fn command_decoding() {
    assert!(matches!(InstructionData::try_from_slice(&[0]), Ok(InstructionData::InitializeList)));
    match InstructionData::try_from_slice(&[1, 0, 1, 0, 0, 0, 0, 0, 0]) {
        Ok(InstructionData::AddNode { data }) => assert_eq!(data, 256),
        other => panic!("unexpected {:?}", other),
    }
    let mut remove = vec![2u8];
    remove.extend_from_slice(&[6u8; 32]);
    match InstructionData::try_from_slice(&remove) {
        Ok(InstructionData::RemoveNode { target_node }) => assert_eq!(target_node, Address::new([6u8; 32])),
        other => panic!("unexpected {:?}", other),
    }
}

#[test]
fn command_rejects_bad_bytes() {
    for bad in [vec![], vec![3u8], vec![0u8, 0], vec![1u8, 0, 0], vec![2u8; 32], vec![1u8; 10]] {
        assert_eq!(InstructionData::try_from_slice(&bad).unwrap_err(), ListError::InvalidCommand);
    }
}

#[test]
fn address_equality() {
    let mut b = [1u8; 32];
    assert_eq!(Address::new(b), Address::new(b));
    b[31] = 2;
    assert_ne!(Address::new(b), Address::new([1u8; 32]));
    assert!(Address::new(b).same_as(&Address::new(b)));
}
