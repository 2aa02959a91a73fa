use online_algorithms::access::{
    AccessDistr, AccessList, Condition, CountList, MtfList, SimpleList, TransList,
};

fn run(list: &mut AccessList, keys: &[usize]) -> Vec<usize> {
    keys.iter().map(|k| list.access(*k)).collect()
}

#[test]
fn simple_list_keeps_arrival_order() {
    let mut list = SimpleList::new();
    assert_eq!(list.access(5), 0);
    assert_eq!(list.access(7), 1);
    assert_eq!(list.access(5), 1);
    assert_eq!(list.access(7), 2);
    assert_eq!(list.access(9), 2);
    assert_eq!(list.access(9), 3);
}

#[test]
fn move_to_front_list() {
    let mut list = MtfList::new();
    assert_eq!(list.access(5), 0);
    assert_eq!(list.access(7), 1);
    assert_eq!(list.access(5), 2);
    assert_eq!(list.access(5), 1);
    assert_eq!(list.access(7), 2);
    assert_eq!(list.access(9), 2);
    assert_eq!(list.access(5), 3);
}

#[test]
fn transpose_list() {
    let mut list = TransList::new();
    assert_eq!(list.access(5), 0);
    assert_eq!(list.access(7), 1);
    assert_eq!(list.access(7), 2);
    assert_eq!(list.access(7), 1);
    assert_eq!(list.access(5), 2);
    assert_eq!(list.access(5), 1);
}

#[test]
fn count_list() {
    let mut list = CountList::new();
    assert_eq!(list.access(5), 0);
    assert_eq!(list.access(7), 1);
    // 7 now counts 2 against 1: it moves ahead of 5
    assert_eq!(list.access(7), 2);
    assert_eq!(list.access(7), 1);
    // 5 counts 2 against 3: it stays
    assert_eq!(list.access(5), 2);
    assert_eq!(list.access(5), 2);
    // 5 counts 3 against 3: it stays
    assert_eq!(list.access(5), 2);
    // 5 counts 4 against 3: it moves ahead
    assert_eq!(list.access(5), 1);
}

#[test]
fn access_list_dispatches_by_kind() {
    let keys = [3, 1, 3, 2, 1, 1];
    assert_eq!(run(&mut AccessList::Simple(SimpleList::new()), &keys), vec![0, 1, 1, 2, 2, 2]);
    assert_eq!(run(&mut AccessList::Mtf(MtfList::new()), &keys), vec![0, 1, 2, 2, 3, 1]);
    assert_eq!(run(&mut AccessList::Trans(TransList::new()), &keys), vec![0, 1, 1, 2, 2, 1]);
    assert_eq!(run(&mut AccessList::Count(CountList::new()), &keys), vec![0, 1, 1, 2, 2, 2]);
}

#[test]
fn cloned_lists_evolve_apart() {
    let mut list = AccessList::Mtf(MtfList::new());
    list.access(1);
    list.access(2);
    let mut copy = list.clone();
    assert_eq!(copy.access(1), 2);
    assert_eq!(list.access(2), 1);
}

#[test]
fn series_names() {
    let a = AccessDistr::new("mtf".to_string(), "uniform".to_string());
    assert_eq!(a.access, "mtf");
    assert_eq!(a.distr, "uniform");
    assert_eq!(a, AccessDistr::new("mtf".to_string(), "uniform".to_string()));
    assert_ne!(Condition::Access, Condition::Distribution);
}
