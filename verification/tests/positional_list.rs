use ordered_btree::OrderedBList;

fn build<const BP: usize>(vals: &[char]) -> OrderedBList<char, BP> {
    let mut t = OrderedBList::<char, BP>::new();
    for (i, v) in vals.iter().enumerate() {
        t.insert_at(i, *v);
    }
    t
}

fn read_all<const BP: usize>(t: &OrderedBList<char, BP>) -> Vec<char> {
    let mut out = Vec::new();
    for i in 0..t.len() {
        let h = t.get_id(i);
        out.push(*t.value(&h));
    }
    out
}

fn check_ranks<const BP: usize>(t: &OrderedBList<char, BP>) {
    for i in 0..t.len() {
        let h = t.get_id(i);
        assert_eq!(t.get_index(&h), i);
    }
}

#[test]
fn it_works() {}

#[test]
fn empty_list_has_no_first_element() {
    let t = OrderedBList::<char, 4>::new();
    assert_eq!(t.len(), 0);
    assert!(t.try_get_id(0).is_none());
}

#[test]
fn six_elements_ranks_and_split() {
    let vals = ['A', 'B', 'C', 'D', 'E', 'F'];
    let mut t = OrderedBList::<char, 4>::new();
    for (i, v) in vals.iter().enumerate() {
        t.insert_at(i, *v);
        if t.len() <= 3 {
            assert_eq!(t.depth(), 0);
        }
    }
    // the fourth insertion filled the single leaf chunk and split it
    assert_eq!(t.depth(), 1);
    assert_eq!(read_all(&t), vals.to_vec());
    check_ranks(&t);
}

#[test]
fn remove_until_borrow() {
    let t = build::<4>(&['A', 'B', 'C', 'D', 'E', 'F']);
    let mut t = t;
    // first removal leaves the left leaf chunk at HALF: no rebalance
    let h = t.get_id(0);
    t.remove(&h);
    assert_eq!(read_all(&t), vec!['B', 'C', 'D', 'E', 'F']);
    assert_eq!(t.depth(), 1);
    // second removal underflows it; the right sibling lends an edge
    t.remove_at(0);
    assert_eq!(read_all(&t), vec!['C', 'D', 'E', 'F']);
    assert_eq!(t.depth(), 1);
    check_ranks(&t);
}

#[test]
fn remove_forcing_merge_and_root_demotion() {
    let mut t = build::<4>(&['A', 'B', 'C', 'D', 'E', 'F']);
    t.remove_at(0);
    t.remove_at(0);
    // sizes are now (2, 2); the next removal forces a merge, the root keeps
    // one child and the depth shrinks back
    t.remove_at(0);
    assert_eq!(read_all(&t), vec!['D', 'E', 'F']);
    assert_eq!(t.depth(), 0);
    check_ranks(&t);
}

#[test]
fn seventeen_elements_depth_three() {
    let vals: Vec<char> = (0..17u8).map(|i| (b'a' + i) as char).collect();
    let t = build::<4>(&vals);
    assert_eq!(t.len(), 17);
    assert_eq!(t.depth(), 3);
    assert_eq!(read_all(&t), vals);
    check_ranks(&t);
    // one more insertion in the middle keeps every rank consistent
    let mut t = t;
    t.insert_at(9, 'Z');
    let mut expect = vals.clone();
    expect.insert(9, 'Z');
    assert_eq!(read_all(&t), expect);
    check_ranks(&t);
}

#[test]
fn handle_stability_under_reshape() {
    let vals: Vec<char> = (0..10u8).map(|i| (b'A' + i) as char).collect();
    let mut t = build::<4>(&vals);
    let h = t.get_id(5);
    assert_eq!(*t.value(&h), 'F');
    for k in 0..5 {
        t.remove_at(0);
        // the handle keeps naming the same element; only its rank moves
        assert!(t.contains_id(&h));
        assert_eq!(*t.value(&h), 'F');
        assert_eq!(t.get_index(&h), 4 - k);
    }
    assert_eq!(t.get_index(&h), 0);
    // removing the handle's own element invalidates exactly that handle
    t.remove(&h);
    assert!(!t.contains_id(&h));
    assert_eq!(read_all(&t), vals[6..].to_vec());
}

#[test]
fn insert_relative_to_handles() {
    let mut t = OrderedBList::<char, 4>::new();
    t.insert_at(0, 'A');
    t.insert_at(1, 'C');
    let hc = t.get_id(1);
    t.insert_before_id('B', &hc);
    assert_eq!(read_all(&t), vec!['A', 'B', 'C']);
    assert_eq!(t.get_index(&hc), 2);
    let ha = t.get_id(0);
    t.insert_after_id('a', &ha);
    assert_eq!(read_all(&t), vec!['A', 'a', 'B', 'C']);
    check_ranks(&t);
}

#[test]
fn set_value_changes_only_one_element() {
    let mut t = build::<4>(&['A', 'B', 'C', 'D', 'E']);
    let h = t.get_id(2);
    t.set_value(&h, 'X');
    assert_eq!(read_all(&t), vec!['A', 'B', 'X', 'D', 'E']);
    assert_eq!(*t.value(&h), 'X');
    check_ranks(&t);
}

#[test]
fn shape_against_oracle_small_branching() {
    let mut t = OrderedBList::<char, 4>::new();
    let mut oracle: Vec<char> = Vec::new();
    let mut state: u64 = 9;
    for step in 0..600u64 {
        state = state.wrapping_mul(6364136223846793005).wrapping_add(1442695040888963407);
        let c = (b'a' + (step % 26) as u8) as char;
        if oracle.is_empty() || state % 3 != 0 {
            let at = if oracle.is_empty() {
                0
            } else {
                (state as usize / 7) % (oracle.len() + 1)
            };
            t.insert_at(at, c);
            oracle.insert(at, c);
        } else {
            let at = (state as usize / 7) % oracle.len();
            if state % 2 == 0 {
                t.remove_at(at);
            } else {
                let h = t.get_id(at);
                t.remove(&h);
            }
            oracle.remove(at);
        }
        assert_eq!(t.len(), oracle.len());
    }
    assert_eq!(read_all(&t), oracle);
    check_ranks(&t);
}

#[test]
fn shape_against_oracle_wider_branching() {
    let mut t = OrderedBList::<char, 8>::new();
    let mut oracle: Vec<char> = Vec::new();
    let mut state: u64 = 77;
    for step in 0..400u64 {
        state = state.wrapping_mul(6364136223846793005).wrapping_add(1442695040888963407);
        let c = (b'A' + (step % 26) as u8) as char;
        if oracle.len() < 30 || state % 4 != 0 {
            let at = (state as usize / 11) % (oracle.len() + 1);
            t.insert_at(at, c);
            oracle.insert(at, c);
        } else {
            let at = (state as usize / 11) % oracle.len();
            t.remove_at(at);
            oracle.remove(at);
        }
    }
    assert_eq!(read_all(&t), oracle);
    check_ranks(&t);
}

#[test]
fn drain_to_empty_and_rebuild() {
    let mut t = build::<4>(&['A', 'B', 'C', 'D', 'E', 'F', 'G']);
    while t.len() > 0 {
        t.remove_at(t.len() - 1);
    }
    assert_eq!(t.len(), 0);
    assert_eq!(t.depth(), 0);
    assert!(t.try_get_id(0).is_none());
    t.insert_at(0, 'Z');
    assert_eq!(read_all(&t), vec!['Z']);
    let h = t.get_id(0);
    assert_eq!(t.get_index(&h), 0);
}

#[test]
fn push_at_both_ends() {
    let mut t = OrderedBList::<char, 4>::new();
    t.push_back('B');
    t.push_back('C');
    t.push_front('A');
    t.push_back('D');
    assert_eq!(read_all(&t), vec!['A', 'B', 'C', 'D']);
    check_ranks(&t);
}

#[test]
fn try_get_id_at_boundary() {
    let t = build::<4>(&['A', 'B', 'C']);
    assert!(t.try_get_id(2).is_some());
    assert!(t.try_get_id(3).is_none());
    let h = t.try_get_id(1).unwrap();
    assert_eq!(*t.value(&h), 'B');
}
