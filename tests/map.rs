use restate::common::map::TransitionMap;

#[test]
fn lookup_returns_each_inserted_target() {
    let mut m: TransitionMap<u8, char, u32> = TransitionMap::new();
    m.insert('a', 1, 10);
    m.insert('b', 1, 11);
    m.insert('a', 2, 20);
    m.insert('c', 3, 30);

    assert_eq!(m.get(&'a', &1), Some(&10));
    assert_eq!(m.get(&'b', &1), Some(&11));
    assert_eq!(m.get(&'a', &2), Some(&20));
    assert_eq!(m.get(&'c', &3), Some(&30));
    assert_eq!(m.get(&'b', &2), None);
    assert_eq!(m.get(&'a', &4), None);
}

#[test]
fn empty_table_has_nothing() {
    let m: TransitionMap<u8, char, u32> = TransitionMap::new();
    assert_eq!(m.get(&'a', &1), None);
    assert_eq!(m.states().next(), None);
    assert_eq!(m.events().next(), None);
}

#[test]
fn get_mut_changes_only_that_target() {
    let mut m: TransitionMap<u8, char, u32> = TransitionMap::new();
    m.insert('a', 1, 10);
    m.insert('b', 1, 11);
    *m.get_mut(&'b', &1).unwrap() = 99;
    assert_eq!(m.get(&'a', &1), Some(&10));
    assert_eq!(m.get(&'b', &1), Some(&99));
    assert!(m.get_mut(&'z', &1).is_none());
}

#[test]
fn traversals_follow_table_order() {
    let mut m: TransitionMap<u8, char, u32> = TransitionMap::new();
    m.insert('a', 2, 0);
    m.insert('b', 1, 0);
    m.insert('c', 2, 0);

    let mut s = m.states();
    assert_eq!(s.next(), Some(&2));
    assert_eq!(s.next(), Some(&1));
    assert_eq!(s.next(), None);

    let mut e = m.events();
    assert_eq!(e.next(), Some(&'a'));
    assert_eq!(e.next(), Some(&'c'));
    assert_eq!(e.next(), Some(&'b'));
    assert_eq!(e.next(), None);
}

#[test]
fn second_registration_of_a_pair_keeps_the_first() {
    let mut m: TransitionMap<u8, char, u32> = TransitionMap::new();
    m.insert('a', 1, 10);
    m.insert('a', 1, 99);
    assert_eq!(m.get(&'a', &1), Some(&10));
    let mut e = m.events();
    assert_eq!(e.next(), Some(&'a'));
    assert_eq!(e.next(), None);
}
