use merkle_structures::{leaf_hash, pair_hash, MMR};

fn non_empty(mmr: &MMR) -> usize {
    mmr.peaks().iter().filter(|p| p.is_some()).count()
}

#[test]
fn test_bagged_peaks() {
    let mut mmr = MMR::new(2);
    mmr.append("A");
    mmr.append("B");
    mmr.append("C");
    mmr.append("D");
    mmr.append("E");
    mmr.append("F");
    mmr.append("G");
    mmr.append("H");

    let non_empty_peaks = mmr.peaks().iter().filter(|p| p.is_some()).count();
    assert_eq!(non_empty_peaks, 1, "Expected 1 non-empty peak, got {}", non_empty_peaks);

    let root1 = mmr.root();
    mmr.append("I");
    let root2 = mmr.root();
    assert_ne!(root1, root2);
}

#[test]
fn test_multiple_bagging() {
    let mut mmr = MMR::new(3);
    for i in 0..10 {
        mmr.append(&i.to_string());
    }

    let non_empty_peaks = mmr.peaks().iter().filter(|p| p.is_some()).count();
    assert!(non_empty_peaks <= (10 as f64).log2().ceil() as usize, "Num non-empty peaks <= log2(n)");

    let root1 = mmr.root();
    mmr.append("10");
    let root2 = mmr.root();
    assert_ne!(root1, root2, "Root should change after append");
}

#[test]
fn empty_range_has_no_root() {
    let mmr = MMR::new(2);
    assert_eq!(mmr.root(), None);
    assert!(mmr.peaks().is_empty());
    assert!(mmr.leaves().is_empty());
    assert_eq!(mmr.bag_size(), 2);
}

#[test]
fn first_leaf_is_the_root() {
    let mut mmr = MMR::new(2);
    mmr.append("A");
    assert_eq!(mmr.root(), Some(leaf_hash(b"A")));
    assert_eq!(mmr.leaves(), &vec![leaf_hash(b"A")]);
}

#[test]
fn carry_merges_with_stored_peak_on_the_left() {
    let mut mmr = MMR::new(3);
    mmr.append("A");
    mmr.append("B");
    let ab = pair_hash(&leaf_hash(b"A"), &leaf_hash(b"B"));
    assert_eq!(mmr.peaks(), &vec![None, Some(ab.clone())]);
    assert_eq!(mmr.root(), Some(ab.clone()));
    mmr.append("C");
    let c = leaf_hash(b"C");
    assert_eq!(mmr.peaks(), &vec![Some(c.clone()), Some(ab.clone())]);
    assert_eq!(mmr.root(), Some(pair_hash(&c, &ab)));
}

#[test]
fn full_window_is_bagged_into_its_first_slot() {
    let mut mmr = MMR::new(2);
    mmr.append("A");
    mmr.append("B");
    mmr.append("C");
    let ab = pair_hash(&leaf_hash(b"A"), &leaf_hash(b"B"));
    let mut joined = leaf_hash(b"C");
    joined.extend_from_slice(&ab);
    let bagged = leaf_hash(&joined);
    assert_eq!(mmr.peaks(), &vec![Some(bagged.clone()), None]);
    assert_eq!(mmr.root(), Some(bagged));
    assert_eq!(mmr.leaves().len(), 3);
}

#[test]
fn peak_count_stays_within_log2_for_bag_size_three() {
    let mut mmr = MMR::new(3);
    for n in 1..=10usize {
        mmr.append(&n.to_string());
        let bound = (n as f64).log2().ceil() as usize;
        assert!(non_empty(&mmr) <= bound.max(1));
    }
}

#[test]
fn root_changes_after_every_append() {
    let mut mmr = MMR::new(2);
    for item in ["A", "B", "C", "D", "E", "F", "G", "H"] {
        mmr.append(item);
    }
    assert_eq!(non_empty(&mmr), 1);
    let mut previous = mmr.root();
    for item in ["I", "J", "K", "L", "M"] {
        mmr.append(item);
        let now = mmr.root();
        assert_ne!(previous, now);
        previous = now;
    }
}

#[test]
fn peak_array_never_shrinks() {
    let mut mmr = MMR::new(2);
    let mut len = 0;
    for n in 0..20 {
        mmr.append(&n.to_string());
        assert!(mmr.peaks().len() >= len);
        len = mmr.peaks().len();
    }
    assert_eq!(mmr.leaves().len(), 20);
}
