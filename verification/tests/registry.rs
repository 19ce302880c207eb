use neat::genome::neuron_gene::NeuronGene;
use neat::genome::ComparableGeneInterface;
use neat::utils::HashVec;

#[test]
fn test_insert() {
    let mut hv: HashVec<usize, usize> = HashVec::new();
    for i in 0..5 {
        hv.insert(i, i + 1);
    }

    for (i, val) in hv.iter().enumerate() {
        assert_eq!(i, val - 1);
    }
}

#[test]
fn test_get() {
    let mut hv: HashVec<usize, usize> = HashVec::new();

    let keys = &[1, 2, 3];
    let values = &[7, 8, 9];

    for (&key, &value) in keys.iter().zip(values.iter()) {
        hv.insert(key, value);
    }

    assert_eq!(*hv.get(2).unwrap(), 8);

    assert_eq!(hv.get(5), None);
}

#[test]
fn test_insert_ordered() {
    let mut hv: HashVec<usize, usize> = HashVec::new();

    let values = &[9, 8, 7];

    for (i, &val) in values.iter().enumerate() {
        hv.insert_ordered(i, val);
    }

    let values = &[7, 8, 9];

    for (&i1, &i2) in hv.iter().zip(values.iter()) {
        assert_eq!(i1, i2);
    }
}

#[test]
fn insert_appends_new_keys_and_reports_positions() {
    let mut hv: HashVec<u32, u32> = HashVec::new();
    assert_eq!(hv.len(), 0);
    assert_eq!(hv.insert(10, 5), 0);
    assert_eq!(hv.insert(20, 3), 1);
    assert_eq!(hv.insert(30, 4), 2);
    assert_eq!(hv.len(), 3);
    let items: Vec<u32> = hv.iter().copied().collect();
    assert_eq!(items, vec![5, 3, 4]);
    assert!(!hv.is_sorted());
}

#[test]
fn insert_on_a_used_key_keeps_the_position() {
    let mut hv: HashVec<u32, u32> = HashVec::new();
    hv.insert(10, 5);
    hv.insert(20, 3);
    assert_eq!(hv.insert(10, 8), 0);
    assert_eq!(hv.len(), 2);
    assert_eq!(hv.get(10), Some(&8));
    assert_eq!(hv.insert(20, 3), 1);
    assert_eq!(hv.get(20), Some(&3));
    let items: Vec<u32> = hv.iter().copied().collect();
    assert_eq!(items, vec![8, 3]);
}

#[test]
fn contains_tells_used_keys_from_others() {
    let mut hv: HashVec<u32, u32> = HashVec::new();
    assert!(!hv.contains(1));
    hv.insert(1, 100);
    hv.insert_ordered(2, 50);
    assert!(hv.contains(1));
    assert!(hv.contains(2));
    assert!(!hv.contains(3));
}

#[test]
fn insert_ordered_indexes_the_key() {
    let mut hv: HashVec<u32, u32> = HashVec::new();
    assert_eq!(hv.insert_ordered(7, 70), 0);
    assert_eq!(hv.insert_ordered(3, 30), 0);
    assert_eq!(hv.insert_ordered(5, 50), 1);
    assert_eq!(hv.insert_ordered(9, 90), 3);
    assert_eq!(hv.get(7), Some(&70));
    assert_eq!(hv.get(3), Some(&30));
    assert_eq!(hv.get(5), Some(&50));
    assert_eq!(hv.get(9), Some(&90));
    assert_eq!(hv.get(4), None);
    let items: Vec<u32> = hv.iter().copied().collect();
    assert_eq!(items, vec![30, 50, 70, 90]);
    assert!(hv.is_sorted());
}

#[test]
fn insert_ordered_goes_before_an_equal_item() {
    let mut hv: HashVec<u32, u32> = HashVec::new();
    assert_eq!(hv.insert_ordered(1, 5), 0);
    assert_eq!(hv.insert_ordered(2, 9), 1);
    assert_eq!(hv.insert_ordered(3, 5), 0);
    assert_eq!(hv.insert_ordered(4, 9), 2);
    let items: Vec<u32> = hv.iter().copied().collect();
    assert_eq!(items, vec![5, 5, 9, 9]);
    // the mutable accessor tells the two equal items apart
    *hv.get_mut(3).unwrap() = 4;
    let items: Vec<u32> = hv.iter().copied().collect();
    assert_eq!(items, vec![4, 5, 9, 9]);
}

#[test]
fn insert_ordered_sorts_an_unsorted_registry_first() {
    let mut hv: HashVec<u32, u32> = HashVec::new();
    hv.insert(0, 9);
    hv.insert(1, 8);
    hv.insert(2, 7);
    assert!(!hv.is_sorted());
    assert_eq!(hv.insert_ordered(3, 10), 3);
    let items: Vec<u32> = hv.iter().copied().collect();
    assert_eq!(items, vec![7, 8, 9, 10]);
    assert!(hv.is_sorted());
    // every key still finds its own item, at its new position
    assert_eq!(hv.get(0), Some(&9));
    assert_eq!(hv.get(1), Some(&8));
    assert_eq!(hv.get(2), Some(&7));
    assert_eq!(hv.get(3), Some(&10));
    assert_eq!(hv.insert(2, 7), 0);
    assert_eq!(hv.insert(1, 8), 1);
    assert_eq!(hv.insert(0, 9), 2);
}

#[test]
fn insert_ordered_on_a_used_key_replaces_in_place() {
    let mut hv: HashVec<u32, u32> = HashVec::new();
    hv.insert_ordered(0, 5);
    hv.insert_ordered(1, 7);
    // an equal item changes nothing
    assert_eq!(hv.insert_ordered(1, 7), 1);
    assert!(hv.is_sorted());
    // a different item takes the place of the old one, wherever it belongs
    assert_eq!(hv.insert_ordered(0, 9), 0);
    let items: Vec<u32> = hv.iter().copied().collect();
    assert_eq!(items, vec![9, 7]);
    assert!(!hv.is_sorted());
    // the next ordered insertion sorts again
    assert_eq!(hv.insert_ordered(2, 8), 1);
    let items: Vec<u32> = hv.iter().copied().collect();
    assert_eq!(items, vec![7, 8, 9]);
    assert_eq!(hv.get(0), Some(&9));
    assert_eq!(hv.get(1), Some(&7));
}

#[test]
fn positional_access_is_absent_out_of_range() {
    let mut hv: HashVec<u32, u32> = HashVec::new();
    assert_eq!(hv.get_index(0), None);
    assert!(hv.get_index_mut(0).is_none());
    hv.insert(4, 40);
    hv.insert(5, 50);
    assert_eq!(hv.get_index(0), Some(&40));
    assert_eq!(hv.get_index(1), Some(&50));
    assert_eq!(hv.get_index(2), None);
    assert!(hv.get_index_mut(2).is_none());
    assert!(hv.get_index_mut(usize::MAX).is_none());
    *hv.get_index_mut(1).unwrap() = 51;
    assert_eq!(hv.get(5), Some(&51));
    assert_eq!(hv[0], 40);
    hv[0] = 41;
    assert_eq!(hv.get(4), Some(&41));
}

#[test]
fn get_mut_changes_the_item_of_the_key() {
    let mut hv: HashVec<u32, u32> = HashVec::new();
    hv.insert(4, 40);
    hv.insert(5, 50);
    assert!(hv.get_mut(6).is_none());
    *hv.get_mut(4).unwrap() += 2;
    assert_eq!(hv.get(4), Some(&42));
    assert_eq!(hv.get(5), Some(&50));
}

#[test]
fn iter_mut_reaches_every_item_in_order() {
    let mut hv: HashVec<u32, u32> = HashVec::new();
    hv.insert_ordered(1, 10);
    hv.insert_ordered(2, 20);
    hv.insert_ordered(3, 30);
    let mut seen = Vec::new();
    for item in hv.iter_mut() {
        seen.push(*item);
        *item += 1;
    }
    assert_eq!(seen, vec![10, 20, 30]);
    let items: Vec<u32> = hv.iter().copied().collect();
    assert_eq!(items, vec![11, 21, 31]);
    assert_eq!(hv.len(), 3);
    assert_eq!(hv.get(2), Some(&21));
}

#[test]
fn sorting_keeps_equal_items_in_their_order() {
    let mut hv: HashVec<u32, ComparableGeneInterface<NeuronGene>> = HashVec::new();
    hv.insert(10, ComparableGeneInterface(NeuronGene::new(5, 1)));
    hv.insert(11, ComparableGeneInterface(NeuronGene::new(3, 2)));
    hv.insert(12, ComparableGeneInterface(NeuronGene::new(5, 3)));
    hv.insert(13, ComparableGeneInterface(NeuronGene::new(3, 4)));
    assert!(!hv.is_sorted());
    assert_eq!(hv.insert_ordered(14, ComparableGeneInterface(NeuronGene::new(4, 5))), 2);
    let classes: Vec<u32> = hv.iter().map(|gene| gene.get_class()).collect();
    assert_eq!(classes, vec![2, 4, 5, 1, 3]);
    assert_eq!(hv.get(10).unwrap().get_class(), 1);
    assert_eq!(hv.get(12).unwrap().get_class(), 3);
    assert_eq!(hv.get(13).unwrap().get_class(), 4);
    // an item equal by marking is not replaced
    assert_eq!(hv.insert_ordered(10, ComparableGeneInterface(NeuronGene::new(5, 9))), 3);
    assert_eq!(hv.get(10).unwrap().get_class(), 1);
    assert_eq!(hv.insert(12, ComparableGeneInterface(NeuronGene::new(5, 9))), 4);
    assert_eq!(hv.get(12).unwrap().get_class(), 3);
}

#[test]
fn iter_mut_hands_out_one_reference_for_each_position() {
    let mut hv: HashVec<u32, u32> = HashVec::new();
    assert!(hv.iter_mut().is_empty());
    hv.insert(7, 70);
    hv.insert(8, 80);
    hv.insert(9, 90);
    let mut refs = hv.iter_mut();
    assert_eq!(refs.len(), 3);
    assert_eq!(*refs[0], 70);
    assert_eq!(*refs[1], 80);
    assert_eq!(*refs[2], 90);
    *refs[2] = 91;
    *refs[0] = 71;
    *refs[0] = 72;
    let items: Vec<u32> = hv.iter().copied().collect();
    assert_eq!(items, vec![72, 80, 91]);
    assert_eq!(hv.get(7), Some(&72));
    assert_eq!(hv.get(8), Some(&80));
    assert_eq!(hv.get(9), Some(&91));
}
