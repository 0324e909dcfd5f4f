use seq_set::SeqSet;

#[test]
fn len_tracks_inserts_and_removes() {
    // The length always equals the number of successful inserts minus the
    // number of successful removals.
    let mut set = SeqSet::new();
    assert!(set.insert(1));
    assert!(set.insert(2));
    assert!(set.insert(3));
    assert!(!set.insert(3)); // unsuccessful insert does not count
    assert!(set.remove(&1));
    assert!(!set.remove(&1)); // unsuccessful removal does not count
    assert_eq!(set.len(), 3 - 1);
    assert!(set.insert(1));
    assert_eq!(set.len(), 4 - 1);
}

#[test]
fn contains_until_removed() {
    // After a successful insert, `contains` stays true through unrelated
    // activity, until the value itself is removed.
    let mut set = SeqSet::new();
    assert!(set.insert("kept"));
    set.insert("other");
    set.remove(&"other");
    set.insert("another");
    assert!(set.contains(&"kept"));
    assert!(set.remove(&"kept"));
    assert!(!set.contains(&"kept"));
}

#[test]
fn order_stable_with_intervening_ops() {
    // Elements inserted in a given order keep their relative order while
    // other elements come and go.
    let mut set = SeqSet::new();
    set.insert(100);
    set.insert(200);
    set.insert(50);
    set.remove(&50);
    set.insert(75);
    set.remove(&75);

    let mut elements: Vec<i32> = Vec::new();
    let mut it = set.iter();
    while let Some(x) = it.next() {
        elements.push(*x);
    }
    assert_eq!(elements, vec![100, 200]);
}

#[test]
fn clear_then_queries_like_fresh() {
    // A cleared set answers every query as a freshly constructed one does.
    let mut cleared = SeqSet::new();
    cleared.insert(8);
    cleared.insert(9);
    cleared.clear();

    let mut fresh: SeqSet<i32> = SeqSet::new();
    assert_eq!(cleared.len(), fresh.len());
    assert_eq!(cleared.is_empty(), fresh.is_empty());
    assert_eq!(cleared.contains(&8), fresh.contains(&8));
    assert_eq!(cleared.remove(&9), fresh.remove(&9));

    let mut it = cleared.iter();
    assert!(it.next().is_none());
}

#[test]
fn consuming_matches_borrowing() {
    // A consuming traversal yields exactly what a borrowing traversal taken
    // immediately before yields, in the same order, and then exhausts.
    let mut set = SeqSet::new();
    set.insert("one");
    set.insert("two");
    set.insert("three");

    let mut borrowed: Vec<&str> = Vec::new();
    let mut it = set.iter();
    while let Some(x) = it.next() {
        borrowed.push(*x);
    }

    let mut consumed: Vec<&str> = Vec::new();
    let mut into = set.into_iter();
    while let Some(x) = into.next() {
        consumed.push(x);
    }
    assert_eq!(consumed, borrowed);
    assert!(into.next().is_none());
    assert_eq!(consumed.len(), 3);
}

#[test]
fn empty_set_queries() {
    let mut set: SeqSet<i32> = SeqSet::new();
    assert_eq!(set.len(), 0);
    assert!(set.is_empty());
    assert!(!set.contains(&1));
    assert!(!set.remove(&1));
    let mut into = set.into_iter();
    assert_eq!(into.next(), None);
}

#[test]
fn mutable_cursor_on_empty_set() {
    let mut set: SeqSet<i32> = SeqSet::new();
    let mut cursor = set.iter_mut();
    assert!(cursor.next(&mut set).is_none());
}

#[test]
fn borrowing_traversal_is_restartable() {
    // A fresh call of `iter` yields a fresh traversal over the same
    // elements.
    let mut set = SeqSet::new();
    set.insert(4);
    set.insert(5);

    let mut first_pass: Vec<i32> = Vec::new();
    let mut it = set.iter();
    while let Some(x) = it.next() {
        first_pass.push(*x);
    }
    assert!(it.next().is_none());

    let mut second_pass: Vec<i32> = Vec::new();
    let mut again = set.iter();
    while let Some(x) = again.next() {
        second_pass.push(*x);
    }
    assert_eq!(first_pass, second_pass);
    assert_eq!(first_pass, vec![4, 5]);
}
