use code20::bitset::BitSet;
use code20::smallbitset::SmallBitSet;

#[test]
fn bitset_membership() {
    let mut b = BitSet::with_capacity(130);
    assert!(b.is_empty());
    // insert tells whether the member was there before
    assert!(!b.insert(5));
    assert!(b.insert(5));
    assert!(!b.insert(129));
    assert!(b.contains(5) && b.contains(129) && !b.contains(6));
    b.extend(&[64, 65]);
    assert_eq!(b.to_vec(), vec![5, 64, 65, 129]);
    let mut it = b.iter();
    let mut seen = Vec::new();
    while let Some(k) = it.next() {
        seen.push(k);
    }
    assert_eq!(seen, vec![5, 64, 65, 129]);
    b.clear();
    assert!(b.is_empty());
}

#[test]
fn bitset_set_operations() {
    let mut a = BitSet::from_vec(&[1, 2, 70], 100);
    let b = BitSet::from_vec(&[3, 70], 100);
    let c = BitSet::from_vec(&[4], 100);
    assert!(!a.is_disjoint(&b));
    assert!(a.is_disjoint(&c));
    a.or_inplace(&c);
    assert_eq!(a.to_vec(), vec![1, 2, 4, 70]);
    assert!(a.same_members(&BitSet::from_vec(&[70, 4, 2, 1, 1], 100)));
    assert!(a == BitSet::from_vec(&[1, 2, 4, 70], 100));
    assert!(a.clone() == a);
}

#[test]
fn small_bitset_membership() {
    let mut s = SmallBitSet::new();
    assert!(s.is_empty());
    s.set(3);
    s.set(300);
    assert!(s.contains(3) && s.contains(300) && !s.contains(4));
    assert_eq!(s.iter(), vec![3, 300]);
    assert_eq!(SmallBitSet::from_range(4).to_vec(), vec![0, 1, 2, 3]);
    assert!(SmallBitSet::from_range(2) == SmallBitSet::from_range(2));
}

#[test]
fn bitset_digest_is_fnv_over_the_words() {
    assert_eq!(BitSet::with_capacity(64).hash_value(), 12638153114141198995);
    assert_eq!(BitSet::from_vec(&[0, 2], 64).hash_value(), 12638147616583063340);
    assert_eq!(BitSet::with_capacity(100).hash_value(), 590684067953502186);
    // equal sets give equal digests
    assert_eq!(BitSet::from_vec(&[3, 70], 100).hash_value(), BitSet::from_vec(&[70, 3], 100).hash_value());
}

#[test]
fn a_set_from_a_list_holds_exactly_the_listed_numbers() {
    let v = [3usize, 70, 3, 129];
    let mut b = BitSet::from_vec(&v, 130);
    for i in 0..130 {
        assert_eq!(b.contains(i), v.contains(&i));
    }
    assert!(!b.insert(5));
    assert!(b.contains(5) && b.contains(70));
    assert!(b.insert(5));
}
