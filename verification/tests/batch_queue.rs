use sssp_core::batch_queue::DataStructureD;

#[test]
fn datastructure_d_ordering() {
    let mut d = DataStructureD::new();
    d.batch_prepend(vec![1, 2, 3]);
    d.batch_prepend(vec![4, 5]);
    let mut seen = Vec::new();
    while !d.is_empty() {
        seen.extend(d.pull());
    }
    assert!(seen.contains(&4) && seen.contains(&5));
}

#[test]
fn later_batch_is_delivered_first_each_from_its_back() {
    let mut d = DataStructureD::new();
    d.push(9);
    d.push(8);
    d.batch_prepend(vec![1, 2, 3]);
    d.batch_prepend(vec![]);
    d.batch_prepend(vec![4, 5]);
    assert!(!d.is_empty());
    assert_eq!(d.pull(), vec![5, 4, 3, 2, 1, 8, 9]);
    assert!(d.is_empty());
    assert_eq!(d.pull(), Vec::<u32>::new());
}
