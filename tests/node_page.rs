use blink_page::{ItemPtr, Node, NodeError, PAGE_SIZE, SENTINEL};

fn sample_node() -> Node {
    let children = vec![
        ItemPtr::new(3, 0),
        ItemPtr::new(4, 16),
        ItemPtr::new(5, 32),
        ItemPtr::new(6, 48),
    ];
    Node::new(2, ItemPtr::new(1, 2), ItemPtr::new(1, 2), vec![1, 2, 3, 4], children).unwrap()
}

#[test]
fn end_to_end_scenario() {
    let node = sample_node();
    assert_eq!(node.high_key, 4);
    assert!(node.leaf);
    assert_eq!(node.order, 2);
    assert_eq!(node.loc, ItemPtr::new(1, 2));
    assert_eq!(node.link, ItemPtr::new(1, 2));
    let page = node.clone().into_buffer(PAGE_SIZE).unwrap();
    assert_eq!(page.len(), 512);
    let back = Node::decode(&page).unwrap();
    assert_eq!(back, node);
    assert_eq!(back.high_key, 4);
    assert!(back.leaf);
    assert_eq!(back.keys, vec![1, 2, 3, 4]);
    assert_eq!(back.children.len(), 4);
}

#[test]
fn high_key_is_maximum_of_unsorted_keys() {
    let node = Node::new(4, ItemPtr::default(), ItemPtr::default(), vec![3, 9, 1, 4], vec![]).unwrap();
    assert_eq!(node.high_key, 9);
    assert_eq!(node.keys, vec![3, 9, 1, 4]);
    let single = Node::new(4, ItemPtr::default(), ItemPtr::default(), vec![7], vec![]).unwrap();
    assert_eq!(single.high_key, 7);
    let top = Node::new(4, ItemPtr::default(), ItemPtr::default(), vec![u32::MAX, 0], vec![]).unwrap();
    assert_eq!(top.high_key, u32::MAX);
}

#[test]
fn empty_keys_fail_to_construct() {
    let r = Node::new(2, ItemPtr::default(), ItemPtr::default(), vec![], vec![ItemPtr::new(1, 0)]);
    assert_eq!(r.err(), Some(NodeError::Construction));
}

#[test]
fn overflow_is_reported() {
    let keys: Vec<u32> = (0..100).collect();
    let node = Node::new(2, ItemPtr::new(1, 2), ItemPtr::new(1, 2), keys, vec![]).unwrap();
    assert_eq!(node.into_buffer(64).err(), Some(NodeError::PageOverflow));
}

#[test]
fn page_of_exact_size_fits_and_one_less_overflows() {
    let node = sample_node();
    let len = node.clone().encode().unwrap().len();
    assert_eq!(len, 49 + 4 * 4 + 12 * 4);
    let page = node.clone().into_buffer(len).unwrap();
    assert_eq!(page.len(), len);
    assert_eq!(Node::decode(&page).unwrap(), node);
    assert_eq!(node.into_buffer(len - 1).err(), Some(NodeError::PageOverflow));
}

#[test]
fn sentinel_semantics() {
    let d = ItemPtr::default();
    assert_eq!(d.page_no, SENTINEL);
    assert_eq!(d.page_no, -1);
    assert_eq!(d.offset, 0);
    assert!(d.is_null());
    assert!(ItemPtr::new(SENTINEL, 40).is_null());
    assert!(!ItemPtr::new(5, 10).is_null());
    assert_ne!(ItemPtr::new(5, 10), ItemPtr::default());
    assert_ne!(ItemPtr::new(SENTINEL, 1), ItemPtr::default());
    assert_eq!(ItemPtr::new(5, 10), ItemPtr::new(5, 10));
}

#[test]
fn padded_page_decodes_to_original() {
    let node = Node::new(9, ItemPtr::new(7, 8), ItemPtr::default(), vec![10, 20], vec![ItemPtr::new(2, 0)]).unwrap();
    let page = node.clone().into_buffer(512).unwrap();
    assert_eq!(page.len(), 512);
    let len = 49 + 4 * 2 + 12;
    assert!(page[len..].iter().all(|b| *b == 0));
    assert_eq!(Node::decode(&page).unwrap(), node);
}

#[test]
fn encoding_bytes_are_exact() {
    let node = Node::new(
        0x0102_0304,
        ItemPtr::new(-1, 0x0a0b),
        ItemPtr::new(2, 1),
        vec![0x1122_3344],
        vec![ItemPtr::new(-2, 5)],
    )
    .unwrap();
    let bytes = node.encode().unwrap();
    let mut expected: Vec<u8> = vec![1];
    expected.extend_from_slice(&[0x04, 0x03, 0x02, 0x01]);
    expected.extend_from_slice(&[0xff, 0xff, 0xff, 0xff]);
    expected.extend_from_slice(&[0x0b, 0x0a, 0, 0, 0, 0, 0, 0]);
    expected.extend_from_slice(&[2, 0, 0, 0]);
    expected.extend_from_slice(&[1, 0, 0, 0, 0, 0, 0, 0]);
    expected.extend_from_slice(&[0x44, 0x33, 0x22, 0x11]);
    expected.extend_from_slice(&[1, 0, 0, 0, 0, 0, 0, 0]);
    expected.extend_from_slice(&[0x44, 0x33, 0x22, 0x11]);
    expected.extend_from_slice(&[1, 0, 0, 0, 0, 0, 0, 0]);
    expected.extend_from_slice(&[0xfe, 0xff, 0xff, 0xff]);
    expected.extend_from_slice(&[5, 0, 0, 0, 0, 0, 0, 0]);
    assert_eq!(bytes, expected);
}

#[test]
fn round_trip_keeps_every_field() {
    let mut node = Node::new(
        u32::MAX,
        ItemPtr::new(i32::MIN, usize::MAX),
        ItemPtr::new(i32::MAX, 0),
        vec![5, 1, 5, 3],
        vec![ItemPtr::new(-1, 3), ItemPtr::new(0, 0), ItemPtr::new(8, 9)],
    )
    .unwrap();
    node.leaf = false;
    let bytes = node.clone().encode().unwrap();
    let back = Node::decode(&bytes).unwrap();
    assert!(!back.leaf);
    assert_eq!(back.order, u32::MAX);
    assert_eq!(back.loc, ItemPtr::new(i32::MIN, usize::MAX));
    assert_eq!(back.link, ItemPtr::new(i32::MAX, 0));
    assert_eq!(back.high_key, 5);
    assert_eq!(back.keys, vec![5, 1, 5, 3]);
    assert_eq!(back, node);
}

#[test]
fn trailing_bytes_are_ignored() {
    let node = sample_node();
    let mut bytes = node.clone().encode().unwrap();
    bytes.extend_from_slice(&[0xaa, 0xbb, 0xcc]);
    assert_eq!(Node::decode(&bytes).unwrap(), node);
}

#[test]
fn decode_rejects_malformed_bytes() {
    assert_eq!(Node::decode(&vec![]).err(), Some(NodeError::Decode));
    assert_eq!(Node::decode(&vec![0u8; 512]).err(), Some(NodeError::Decode));

    let good = sample_node().encode().unwrap();
    let truncated = good[..good.len() - 1].to_vec();
    assert_eq!(Node::decode(&truncated).err(), Some(NodeError::Decode));

    let mut bad_tag = good.clone();
    bad_tag[0] = 2;
    assert_eq!(Node::decode(&bad_tag).err(), Some(NodeError::Decode));

    let mut stale = good.clone();
    stale[29] = 3;
    assert_eq!(Node::decode(&stale).err(), Some(NodeError::Decode));

    let mut huge_count = good.clone();
    huge_count[40] = 0x7f;
    assert_eq!(Node::decode(&huge_count).err(), Some(NodeError::Decode));
}
