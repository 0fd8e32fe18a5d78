use flatland::ranker::Ranker;

#[test]
fn test_rank_sll() {
    let mut ranker = Ranker::new(vec![4, 2, 5, 1, 6, 3], 6);
    loop {
        let ordering =
            ranker.competitors()[ranker.current()].cmp(&ranker.competitors()[ranker.pivot()]);
        if !ranker.rank(ordering) {
            break;
        }
    }
    assert_eq!(ranker.competitors().as_slice(), &[6, 5, 4, 3, 2, 1]);
}

#[test]
fn test_rank_2() {
    let mut ranker = Ranker::new(vec![1, 2, 3, 4, 5, 6], 2);
    loop {
        let ordering =
            ranker.competitors()[ranker.current()].cmp(&ranker.competitors()[ranker.pivot()]);
        if !ranker.rank(ordering) {
            break;
        }
    }
    assert_eq!(ranker.competitors().as_slice(), &[6, 5, 3, 4, 2, 1]);
}

#[test]
fn rank_preserves_population() {
    let mut ranker = Ranker::new(vec![30, 10, 20, 50, 40], 3);
    loop {
        let ordering =
            ranker.competitors()[ranker.current()].cmp(&ranker.competitors()[ranker.pivot()]);
        if !ranker.rank(ordering) {
            break;
        }
    }
    let mut sorted = ranker.competitors().clone();
    sorted.sort();
    assert_eq!(sorted, vec![10, 20, 30, 40, 50]);
}
