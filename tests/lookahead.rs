use mdplayscript::lookahead::Lookahead;

#[test]
fn lookahead() {
    let v = vec![0, 1, 2, 3];
    let mut v_it = v.into_iter();
    let mut it = Lookahead::new(&mut v_it, 1);

    assert_eq!(it.ahead(0), Some(&0));
    assert_eq!(it.ahead(1), Some(&1));
    assert_eq!(it.next(), Some(0));
    assert_eq!(it.ahead(0), Some(&1));
    assert_eq!(it.ahead(1), Some(&2));
    assert_eq!(it.next(), Some(1));
    assert_eq!(it.ahead(0), Some(&2));
    assert_eq!(it.ahead(1), Some(&3));
    assert_eq!(it.next(), Some(2));
    assert_eq!(it.ahead(0), Some(&3));
    assert_eq!(it.ahead(1), None);
    assert_eq!(it.next(), Some(3));
    assert_eq!(it.ahead(0), None);
    assert_eq!(it.next(), None);
}

#[test]
fn lookahead_into_inner_keeps_the_rest() {
    let v = vec![10, 11, 12, 13, 14];
    let it = Lookahead::new(v.into_iter(), 2);
    let rest: Vec<i32> = it.into_inner().collect();
    assert_eq!(rest, vec![13, 14]);
}

#[test]
fn lookahead_after_the_source_runs_out() {
    let v = vec![1, 2];
    let mut v_it = v.into_iter();
    let mut it = Lookahead::new(&mut v_it, 2);
    assert_eq!(it.ahead(1), Some(&2));
    assert_eq!(it.ahead(2), None);
    assert_eq!(it.next(), Some(1));
    assert_eq!(it.ahead(0), Some(&2));
    assert_eq!(it.next(), Some(2));
    assert_eq!(it.next(), None);
    assert_eq!(it.into_inner().next(), None);
}
