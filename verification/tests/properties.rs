use set_trie::{assert_sorted, make_sorted, DefinitelySorted, SetTrie};

#[test]
fn round_trip_insert_remove() {
    let mut v = SetTrie::<char>::new();
    v.insert(assert_sorted(&[2, 5, 9]).unwrap(), 'x');
    assert!(v.contains(assert_sorted(&[2, 5, 9]).unwrap(), &'x'));
    assert_eq!(v.remove(assert_sorted(&[2, 5, 9]).unwrap(), &'x'), Some('x'));
    assert!(!v.contains(assert_sorted(&[2, 5, 9]).unwrap(), &'x'));
}

#[test]
fn remove_twice() {
    let mut v = SetTrie::<char>::new();
    v.insert(assert_sorted(&[1, 2, 3]).unwrap(), 'a');
    assert_eq!(v.remove(assert_sorted(&[1, 2, 3]).unwrap(), &'a'), Some('a'));
    assert_eq!(v.remove(assert_sorted(&[1, 2, 3]).unwrap(), &'a'), None);
    assert!(!v.contains(assert_sorted(&[1, 2, 3]).unwrap(), &'a'));
}

#[test]
fn multiplicity_two_values() {
    let mut v = SetTrie::<char>::new();
    v.insert(assert_sorted(&[4, 8]).unwrap(), 'a');
    v.insert(assert_sorted(&[4, 8]).unwrap(), 'b');
    assert!(v.contains(assert_sorted(&[4, 8]).unwrap(), &'a'));
    assert!(v.contains(assert_sorted(&[4, 8]).unwrap(), &'b'));
    let both = v.subsets(assert_sorted(&[4, 8]).unwrap());
    assert_eq!(both.len(), 2);
    assert!(both.contains(&&'a'));
    assert!(both.contains(&&'b'));
    // removing one value leaves the other untouched
    assert_eq!(v.remove(assert_sorted(&[4, 8]).unwrap(), &'a'), Some('a'));
    assert!(!v.contains(assert_sorted(&[4, 8]).unwrap(), &'a'));
    assert!(v.contains(assert_sorted(&[4, 8]).unwrap(), &'b'));
}

#[test]
fn multiplicity_same_value_twice() {
    let mut v = SetTrie::<char>::new();
    v.insert(assert_sorted(&[6]).unwrap(), 'z');
    v.insert(assert_sorted(&[6]).unwrap(), 'z');
    let r = v.supersets(assert_sorted(&[6]).unwrap());
    assert_eq!(r.len(), 2);
    assert_eq!(v.remove(assert_sorted(&[6]).unwrap(), &'z'), Some('z'));
    assert!(v.contains(assert_sorted(&[6]).unwrap(), &'z'));
    assert_eq!(v.remove(assert_sorted(&[6]).unwrap(), &'z'), Some('z'));
    assert!(!v.contains(assert_sorted(&[6]).unwrap(), &'z'));
}

#[test]
fn empty_set_behavior() {
    let mut v = SetTrie::<char>::new();
    v.insert(assert_sorted(&[]).unwrap(), 'e');
    v.insert(assert_sorted(&[3]).unwrap(), 'f');
    // the empty set is a subset of every query
    assert!(v.subsets(assert_sorted(&[]).unwrap()).contains(&&'e'));
    assert!(v.subsets(assert_sorted(&[1, 2]).unwrap()).contains(&&'e'));
    assert!(v.subsets(assert_sorted(&[9, 11, 40]).unwrap()).contains(&&'e'));
    // and a superset only of the empty query
    let empty_q = v.supersets(assert_sorted(&[]).unwrap());
    assert!(empty_q.contains(&&'e'));
    assert!(empty_q.contains(&&'f'));
    let nonempty_q = v.supersets(assert_sorted(&[3]).unwrap());
    assert!(!nonempty_q.contains(&&'e'));
    assert!(nonempty_q.contains(&&'f'));
}

#[test]
fn subsets_exact_membership() {
    let mut v = SetTrie::<u64>::new();
    v.insert(assert_sorted(&[1]).unwrap(), 10);
    v.insert(assert_sorted(&[1, 3]).unwrap(), 13);
    v.insert(assert_sorted(&[1, 3, 5]).unwrap(), 135);
    v.insert(assert_sorted(&[2]).unwrap(), 20);
    let r = v.subsets(assert_sorted(&[1, 3]).unwrap());
    assert_eq!(r.len(), 2);
    assert!(r.contains(&&10));
    assert!(r.contains(&&13));
}

#[test]
fn supersets_exact_membership() {
    let mut v = SetTrie::<u64>::new();
    v.insert(assert_sorted(&[1]).unwrap(), 10);
    v.insert(assert_sorted(&[1, 3]).unwrap(), 13);
    v.insert(assert_sorted(&[1, 3, 5]).unwrap(), 135);
    v.insert(assert_sorted(&[2, 3]).unwrap(), 23);
    let r = v.supersets(assert_sorted(&[1, 3]).unwrap());
    assert_eq!(r.len(), 2);
    assert!(r.contains(&&13));
    assert!(r.contains(&&135));
}

#[test]
fn make_sorted_sorts_and_collapses_duplicates() {
    let mut data = vec![9u64, 1, 5, 1, 9, 3];
    {
        let s = make_sorted(&mut data);
        let _ = s;
    }
    assert_eq!(data, vec![1u64, 3, 5, 9]);
}

#[test]
fn make_sorted_view_feeds_the_trie() {
    let mut v = SetTrie::<char>::new();
    let mut key = vec![5u64, 2, 5, 2];
    v.insert(make_sorted(&mut key), 'd');
    assert!(v.contains(assert_sorted(&[2, 5]).unwrap(), &'d'));
}

#[test]
fn assert_sorted_accepts_and_rejects() {
    assert!(assert_sorted(&[]).is_some());
    assert!(assert_sorted(&[7]).is_some());
    assert!(assert_sorted(&[1, 2, 9]).is_some());
    assert!(assert_sorted(&[1, 1]).is_none());
    assert!(assert_sorted(&[2, 1]).is_none());
    assert!(assert_sorted(&[1, 5, 4]).is_none());
}

#[test]
fn hasty_new_view() {
    let mut v = SetTrie::<char>::new();
    v.insert(DefinitelySorted::hasty_new(&[10, 20]), 'h');
    assert!(v.contains(DefinitelySorted::hasty_new(&[10, 20]), &'h'));
    assert!(!v.contains(DefinitelySorted::hasty_new(&[10]), &'h'));
}

#[test]
fn remove_absent_key_and_value() {
    let mut v = SetTrie::<char>::new();
    v.insert(assert_sorted(&[1, 2]).unwrap(), 'a');
    // absent set, shared prefix
    assert_eq!(v.remove(assert_sorted(&[1]).unwrap(), &'a'), None);
    // absent set, unknown edge
    assert_eq!(v.remove(assert_sorted(&[1, 4]).unwrap(), &'a'), None);
    // present set, wrong value
    assert_eq!(v.remove(assert_sorted(&[1, 2]).unwrap(), &'b'), None);
    assert!(v.contains(assert_sorted(&[1, 2]).unwrap(), &'a'));
}

#[test]
fn prefix_sets_are_independent() {
    let mut v = SetTrie::<char>::new();
    v.insert(assert_sorted(&[1, 2, 3]).unwrap(), 'a');
    v.insert(assert_sorted(&[1, 2]).unwrap(), 'c');
    assert_eq!(v.remove(assert_sorted(&[1, 2, 3]).unwrap(), &'a'), Some('a'));
    assert!(v.contains(assert_sorted(&[1, 2]).unwrap(), &'c'));
    assert!(!v.contains(assert_sorted(&[1, 2, 3]).unwrap(), &'a'));
}

#[test]
fn query_order_follows_traversal() {
    // subsets: each visited node's terminals come before anything from its
    // descendants; supersets: depth-first, ascending child order.
    let mut v = SetTrie::<char>::new();
    v.insert(assert_sorted(&[1, 2, 3]).unwrap(), 'a');
    v.insert(assert_sorted(&[1, 2]).unwrap(), 'c');
    v.insert(assert_sorted(&[]).unwrap(), 'e');
    let subs = v.subsets(assert_sorted(&[1, 2, 3]).unwrap());
    assert_eq!(subs, vec![&'e', &'c', &'a']);
    let sups = v.supersets(assert_sorted(&[1, 2]).unwrap());
    assert_eq!(sups, vec![&'c', &'a']);
}
