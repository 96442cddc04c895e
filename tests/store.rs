use chanstats::store::{Lifecycle, LoadError, Store, BACKLOG_CAP};
use chanstats::tracker::{ChannelKey, ChannelTracker};

fn toks(text: &str) -> Vec<Vec<u8>> {
    text.split_whitespace().map(|w| w.as_bytes().to_vec()).collect()
}

fn key(guild: u64, channel: u64) -> ChannelKey {
    ChannelKey { guild, channel }
}

#[test]
fn replay_then_stale_live_message() {
    let mut s = Store::new();
    assert!(s.track(key(1, 7), 100));
    s.begin_replay();
    assert_eq!(s.lifecycle, Lifecycle::Replaying);
    let backlog = vec![(101, toks("cat cat")), (102, toks("dog")), (103, toks("dog"))];
    assert_eq!(s.apply_backlog(key(1, 7), &backlog), 3);
    s.finish_replay();
    assert_eq!(s.lifecycle, Lifecycle::Ready);
    let t = &s.trackers[s.find(key(1, 7)).unwrap()].1;
    assert_eq!(t.message_count, 3);
    assert_eq!(t.high_water_mark, 103);
    assert_eq!(t.frequency(&b"cat".to_vec()), 2);
    assert_eq!(t.frequency(&b"dog".to_vec()), 2);
    assert_eq!(t.words.len(), 2);
    s.process(key(1, 7), 102, &toks("fox"));
    let t = &s.trackers[0].1;
    assert_eq!(t.message_count, 3);
    assert_eq!(t.high_water_mark, 103);
    assert_eq!(t.frequency(&b"fox".to_vec()), 0);
    assert_eq!(t.words.len(), 2);
}

#[test]
fn same_id_twice_is_counted_once() {
    let mut t = ChannelTracker::new(0);
    t.update(5, &toks("a b a"));
    t.update(5, &toks("a b a"));
    assert_eq!(t.message_count, 1);
    assert_eq!(t.frequency(&b"a".to_vec()), 2);
    assert_eq!(t.frequency(&b"b".to_vec()), 1);
    assert_eq!(t.high_water_mark, 5);
}

#[test]
fn high_water_mark_never_decreases() {
    let mut t = ChannelTracker::new(10);
    t.update(20, &toks("x"));
    t.update(15, &toks("y"));
    assert_eq!(t.high_water_mark, 20);
    assert_eq!(t.message_count, 1);
    assert_eq!(t.frequency(&b"y".to_vec()), 0);
}

#[test]
fn untracked_key_is_ignored() {
    let mut s = Store::new();
    s.track(key(1, 1), 0);
    s.process(key(2, 2), 5, &toks("hello"));
    assert_eq!(s.trackers.len(), 1);
    assert!(s.find(key(2, 2)).is_none());
    assert_eq!(s.trackers[0].1.message_count, 0);
    assert_eq!(s.apply_backlog(key(2, 2), &vec![(1, toks("a"))]), 0);
}

#[test]
fn backlog_is_capped() {
    let mut s = Store::new();
    s.track(key(3, 4), 0);
    let backlog: Vec<(u64, Vec<Vec<u8>>)> = (1..=80u64).map(|i| (i, toks("w"))).collect();
    assert_eq!(s.apply_backlog(key(3, 4), &backlog), BACKLOG_CAP);
    let t = &s.trackers[0].1;
    assert_eq!(t.message_count, 50);
    assert_eq!(t.high_water_mark, 50);
    assert_eq!(t.frequency(&b"w".to_vec()), 50);
}

#[test]
fn tracking_twice_is_refused_and_watermarks_listed() {
    let mut s = Store::new();
    assert!(s.track(key(1, 2), 9));
    assert!(!s.track(key(1, 2), 11));
    assert!(s.track(key(1, 3), 4));
    assert_eq!(s.tracked_keys_with_watermarks(), vec![(key(1, 2), 9), (key(1, 3), 4)]);
}

#[test]
fn snapshot_restores_field_for_field() {
    let mut s = Store::new();
    s.track(key(1, 7), 100);
    s.track(key(2, 9), 0);
    s.finish_replay();
    s.process(key(1, 7), 101, &toks("cat cat dog"));
    s.process(key(2, 9), 3, &toks("hi"));
    let snap = s.snapshot();
    drop(s);
    let r = Store::restore(snap).unwrap();
    assert_eq!(r.lifecycle, Lifecycle::Loading);
    assert_eq!(r.trackers.len(), 2);
    let a = &r.trackers[0];
    assert_eq!(a.0, key(1, 7));
    assert_eq!((a.1.message_count, a.1.high_water_mark), (1, 101));
    assert_eq!(a.1.frequency(&b"cat".to_vec()), 2);
    assert_eq!(a.1.frequency(&b"dog".to_vec()), 1);
    let b = &r.trackers[1];
    assert_eq!(b.0, key(2, 9));
    assert_eq!((b.1.message_count, b.1.high_water_mark), (1, 3));
    assert_eq!(b.1.frequency(&b"hi".to_vec()), 1);
}

#[test]
fn restore_rejects_repeated_channel_or_word() {
    let dup = vec![(key(1, 1), ChannelTracker::new(0)), (key(1, 1), ChannelTracker::new(5))];
    assert_eq!(Store::restore(dup).err(), Some(LoadError::Corrupt));
    let mut t = ChannelTracker::new(0);
    t.words = vec![(b"a".to_vec(), 1), (b"a".to_vec(), 2)];
    assert_eq!(Store::restore(vec![(key(1, 1), t)]).err(), Some(LoadError::Corrupt));
}

#[test]
fn empty_backlog_changes_nothing() {
    let mut s = Store::new();
    s.track(key(5, 5), 40);
    s.process(key(5, 5), 41, &toks("a"));
    assert_eq!(s.apply_backlog(key(5, 5), &Vec::new()), 0);
    let t = &s.trackers[0].1;
    assert_eq!((t.message_count, t.high_water_mark), (1, 41));
    assert_eq!(t.frequency(&b"a".to_vec()), 1);
}

#[test]
fn replay_and_live_in_id_order_count_each_once() {
    let mut s = Store::new();
    s.track(key(8, 8), 0);
    s.apply_backlog(key(8, 8), &vec![(1, toks("x y")), (2, toks("y"))]);
    s.process(key(8, 8), 2, &toks("y"));
    s.process(key(8, 8), 3, &toks("z"));
    s.process(key(8, 8), 3, &toks("z"));
    let t = &s.trackers[0].1;
    assert_eq!((t.message_count, t.high_water_mark), (3, 3));
    assert_eq!(t.frequency(&b"x".to_vec()), 1);
    assert_eq!(t.frequency(&b"y".to_vec()), 2);
    assert_eq!(t.frequency(&b"z".to_vec()), 1);
}

#[test]
fn older_message_after_newer_is_dropped() {
    let mut t = ChannelTracker::new(0);
    t.update(2, &toks("b"));
    t.update(1, &toks("a"));
    assert_eq!((t.message_count, t.high_water_mark), (1, 2));
    assert_eq!(t.frequency(&b"a".to_vec()), 0);
}
