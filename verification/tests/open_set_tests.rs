use rts_core::open_set::OpenSet;

#[test]
fn pops_in_priority_order() {
    let mut s = OpenSet::new();
    s.push((30, 1));
    s.push((10, 2));
    s.push((20, 3));
    s.push((10, 0));
    assert_eq!(s.len(), 4);
    assert_eq!(s.pop(), Some((10, 0)));
    assert_eq!(s.pop(), Some((10, 2)));
    assert_eq!(s.pop(), Some((20, 3)));
    assert_eq!(s.pop(), Some((30, 1)));
    assert_eq!(s.pop(), None);
    assert_eq!(s.len(), 0);
}

#[test]
fn many_entries_come_out_sorted() {
    let mut s = OpenSet::new();
    let mut expected = Vec::new();
    for i in 0..100u64 {
        let e = ((i * 37) % 101, i as usize);
        s.push(e);
        expected.push(e);
    }
    expected.sort();
    let mut got = Vec::new();
    while let Some(e) = s.pop() {
        got.push(e);
    }
    assert_eq!(got, expected);
}
