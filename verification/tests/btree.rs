use parity_scale_codec::{Decode, DecodeLength, Encode};
use std::collections::{BTreeMap, BTreeSet};

#[test]
fn sets_encode_their_items_in_ascending_order() {
    let mut set = BTreeSet::new();
    set.insert(3u8);
    set.insert(1u8);
    set.insert(2u8);
    assert_eq!(set.encode(), vec![12, 1, 2, 3]);
    assert_eq!(BTreeSet::<u8>::decode(&mut &set.encode()[..]), Ok(set));
}

#[test]
fn a_set_decoded_from_items_out_of_order_sorts_them() {
    let vector = vec![4u8, 3u8, 2u8, 1u8, 0u8];
    let vector_encoded = vector.encode();
    let btree = BTreeSet::<u8>::decode(&mut &vector_encoded[..]).unwrap();
    assert_eq!(vector_encoded, vec![0x14, 4, 3, 2, 1, 0]);
    assert_eq!(btree.encode(), vec![0x14, 0, 1, 2, 3, 4]);
}

#[test]
fn a_repeated_item_is_kept_once() {
    let encoded = vec![7u16, 7, 5].encode();
    let set = BTreeSet::<u16>::decode(&mut &encoded[..]).unwrap();
    assert_eq!(set.len(), 2);
    assert_eq!(set.encode(), vec![5u16, 7].encode());
}

#[test]
fn maps_encode_their_entries_in_ascending_order_of_key() {
    let mut map = BTreeMap::new();
    map.insert(2u16, 20u32);
    map.insert(1u16, 10u32);
    assert_eq!(map.encode(), vec![(1u16, 10u32), (2u16, 20u32)].encode());
    assert_eq!(BTreeMap::<u16, u32>::decode(&mut &map.encode()[..]), Ok(map));
}

#[test]
fn of_two_entries_with_the_same_key_the_later_wins() {
    let encoded = vec![(1u8, 5u8), (1u8, 6u8), (0u8, 9u8)].encode();
    let map = BTreeMap::<u8, u8>::decode(&mut &encoded[..]).unwrap();
    assert_eq!(map.len(), 2);
    assert_eq!(map.get(&1), Some(&6));
    assert_eq!(map.get(&0), Some(&9));
}

#[test]
fn ordered_collections_round_trip() {
    let t1: BTreeSet<u32> = FromIterator::from_iter((0..10).flat_map(|i| 0..i));
    let t4: BTreeMap<u16, u32> =
        FromIterator::from_iter((0..10).flat_map(|i| 0..i).map(|i| (i as u16, i + 10)));
    let t5: BTreeSet<Vec<u8>> = FromIterator::from_iter((0..10).map(|i| Vec::from_iter(0..i)));
    let t8: BTreeMap<Vec<u8>, u32> = FromIterator::from_iter(
        (0..10).map(|i| Vec::from_iter(0..i)).map(|i| (i.clone(), i.len() as u32)),
    );
    assert_eq!(Decode::decode(&mut &t1.encode()[..]), Ok(t1));
    assert_eq!(Decode::decode(&mut &t4.encode()[..]), Ok(t4));
    assert_eq!(Decode::decode(&mut &t5.encode()[..]), Ok(t5));
    assert_eq!(Decode::decode(&mut &t8.encode()[..]), Ok(t8));
}

#[test]
fn len_works_for_ordered_collections() {
    let mut btree_map: BTreeMap<u32, u32> = BTreeMap::new();
    btree_map.insert(1, 1);
    btree_map.insert(2, 2);
    let mut btree_set: BTreeSet<u32> = BTreeSet::new();
    btree_set.insert(1);
    btree_set.insert(2);
    assert_eq!(<BTreeMap<u32, u32> as DecodeLength>::len(&btree_map.encode()[..]).unwrap(), 2);
    assert_eq!(<BTreeSet<u32> as DecodeLength>::len(&btree_set.encode()[..]).unwrap(), 2);
}
