use baken::export::ahead::{Ahead, Take};

fn take(a: &mut Ahead) -> Option<usize> {
    match a.take() {
        Take::Index(i) => Some(i),
        Take::Done => None,
        Take::Wait => panic!("the schedule waits"),
    }
}

#[test]
fn ahead_hands_out_every_index_once_within_the_window() {
    let mut ahead = Ahead::new(20, 8);
    let mut got = Vec::new();
    while got.len() < ahead.window {
        got.push(take(&mut ahead).unwrap());
    }
    ahead.set_written(3);
    for _ in 0..3 {
        got.push(take(&mut ahead).unwrap());
    }
    ahead.set_written(20);
    while let Some(i) = take(&mut ahead) {
        got.push(i);
    }
    assert_eq!(got, (0..20).collect::<Vec<_>>());
    let mut stopped = Ahead::new(5, 8);
    stopped.stop();
    assert_eq!(stopped.take(), Take::Done);
}

#[test]
fn the_window_holds_the_workers_back() {
    let mut a = Ahead::new(10, 1);
    assert_eq!((a.workers, a.window), (1, 2));
    assert_eq!(a.take(), Take::Index(0));
    assert_eq!(a.take(), Take::Index(1));
    assert_eq!(a.take(), Take::Wait);
    a.set_written(1);
    assert_eq!(a.take(), Take::Index(2));
    // never more workers than tracks
    assert_eq!(Ahead::new(1, 8).workers, 1);
    assert_eq!(Ahead::new(0, 0).workers, 1);
}
