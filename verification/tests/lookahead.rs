use hoster::lookahead::LookaheadIter;

#[test]
fn it_iterates_multiple() {
    let items = vec![1, 2, 3];
    let mut iter = LookaheadIter::new(items.into_iter());

    assert_eq!(iter.next(), Some((1, Some(2))));
    assert_eq!(iter.next(), Some((2, Some(3))));
    assert_eq!(iter.next(), Some((3, None)));
    assert_eq!(iter.next(), None);
}

#[test]
fn it_iterates_with_for() {
    let items = vec![1, 2, 3];
    let mut iter = LookaheadIter::new(items.into_iter());
    let mut eq = vec![(1, Some(2)), (2, Some(3)), (3, None)].into_iter();

    while let Some((item, next)) = iter.next() {
        assert_eq!(eq.next(), Some((item, next)));
    }

    assert_eq!(eq.next(), None);
    assert_eq!(iter.next(), None);
}

#[test]
fn lookahead_of_nothing_is_nothing() {
    let items: Vec<u8> = vec![];
    let mut iter = LookaheadIter::new(items.into_iter());
    assert_eq!(iter.next(), None);
    assert_eq!(iter.next(), None);
}

#[test]
fn lookahead_of_one_item_has_nothing_behind_it() {
    let mut iter = LookaheadIter::new(vec!["a".to_string()].into_iter());
    assert_eq!(iter.next(), Some(("a".to_string(), None)));
    assert_eq!(iter.next(), None);
}

#[test]
fn lookahead_gives_one_pair_for_every_item() {
    let mut iter = LookaheadIter::new(vec!['a', 'b', 'c', 'd'].into_iter());
    assert_eq!(iter.next(), Some(('a', Some('b'))));
    assert_eq!(iter.next(), Some(('b', Some('c'))));
    assert_eq!(iter.next(), Some(('c', Some('d'))));
    assert_eq!(iter.next(), Some(('d', None)));
    assert_eq!(iter.next(), None);
}
