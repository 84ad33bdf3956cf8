use timing_wheel::{Handle, TimingWheel};

#[test]
fn test_basic_insert_and_tick() {
    let mut wheel = TimingWheel::new();
    let mut expired = Vec::new();

    wheel.insert("task1", 5);
    wheel.insert("task2", 10);
    wheel.insert("task3", 2);

    wheel.tick(&mut expired);
    wheel.tick(&mut expired);
    assert!(expired.is_empty());

    wheel.tick(&mut expired);
    assert_eq!(expired.len(), 1);
    assert_eq!(expired[0], "task3");

    expired.clear();

    wheel.tick(&mut expired);
    wheel.tick(&mut expired);

    wheel.tick(&mut expired);
    assert_eq!(expired.len(), 1);
    assert_eq!(expired[0], "task1");
}

#[test]
fn test_cascade_from_wheel_1() {
    let mut wheel = TimingWheel::new();
    let mut expired = Vec::new();

    wheel.insert("far_future", 100);

    for _ in 0..100 {
        wheel.tick(&mut expired);
    }

    assert!(expired.is_empty());

    wheel.tick(&mut expired);
    assert_eq!(expired.len(), 1);
    assert_eq!(expired[0], "far_future");
}

#[test]
fn test_cancel() {
    let mut wheel = TimingWheel::new();
    let mut expired = Vec::new();

    let id1 = wheel.insert("task1", 5);
    let _id2 = wheel.insert("task2", 10);

    let cancelled = wheel.cancel(id1);
    assert_eq!(cancelled, Some("task1"));

    for _ in 0..=10 {
        wheel.tick(&mut expired);
        assert!(!expired.contains(&"task1"));
    }

    assert!(expired.contains(&"task2"));
}

#[test]
fn deadlines_fire_on_their_own_tick_only() {
    let mut wheel = TimingWheel::new();
    wheel.insert(2u32, 2);
    wheel.insert(5u32, 5);
    wheel.insert(10u32, 10);
    let mut fired_at = Vec::new();
    for t in 0..20u64 {
        assert_eq!(wheel.current_time(), t);
        let mut expired = Vec::new();
        wheel.tick(&mut expired);
        for x in expired {
            fired_at.push((x, t));
        }
    }
    assert_eq!(fired_at, vec![(2, 2), (5, 5), (10, 10)]);
    assert_eq!(wheel.current_time(), 20);
}

#[test]
fn tick_appends_without_clearing() {
    let mut wheel = TimingWheel::new();
    let mut expired = vec!["old"];
    wheel.insert("new", 0);
    wheel.tick(&mut expired);
    assert_eq!(expired, vec!["old", "new"]);
}

#[test]
fn same_bucket_fires_most_recent_first() {
    let mut wheel = TimingWheel::new();
    wheel.insert('a', 3);
    wheel.insert('b', 3);
    wheel.insert('c', 3);
    let mut expired = Vec::new();
    for _ in 0..4 {
        wheel.tick(&mut expired);
    }
    assert_eq!(expired, vec!['c', 'b', 'a']);
}

#[test]
fn every_timer_fires_once_across_all_levels() {
    let mut wheel = TimingWheel::new();
    let mut deadlines: Vec<u64> = (1..=200).collect();
    deadlines.extend([64, 4095, 4096, 5000, 262143, 262144, 300000].iter().copied().filter(|d| *d > 200));
    for (i, d) in deadlines.iter().enumerate() {
        wheel.insert(i, *d);
    }
    let mut expired = Vec::new();
    while wheel.current_time() <= 300001 {
        wheel.tick(&mut expired);
    }
    assert_eq!(expired.len(), deadlines.len());
    let mut seen = expired.clone();
    seen.sort();
    seen.dedup();
    assert_eq!(seen.len(), deadlines.len());
}

#[test]
fn nothing_fires_before_its_deadline() {
    let mut wheel = TimingWheel::new();
    let deadlines: Vec<u64> = vec![1, 63, 64, 65, 127, 128, 4096, 4200, 262144, 262200];
    for d in &deadlines {
        wheel.insert(*d, *d);
    }
    let mut count = 0;
    while wheel.current_time() <= 262201 {
        let now = wheel.current_time();
        let mut expired = Vec::new();
        wheel.tick(&mut expired);
        for d in expired {
            assert_eq!(d, now);
            count += 1;
        }
    }
    assert_eq!(count, deadlines.len());
}

#[test]
fn handle_survives_cascade() {
    let mut wheel = TimingWheel::new();
    let mut expired = Vec::new();
    let far = wheel.insert("far", 100);
    for _ in 0..70 {
        wheel.tick(&mut expired);
    }
    let other = wheel.insert("other", 90);
    assert_ne!(other, far);
    assert_eq!(wheel.cancel(far), Some("far"));
    for _ in 0..40 {
        wheel.tick(&mut expired);
    }
    assert_eq!(expired, vec!["other"]);
}

#[test]
fn cancel_of_unknown_or_spent_handles() {
    let mut wheel = TimingWheel::new();
    let mut expired = Vec::new();
    assert_eq!(wheel.cancel(Handle(0)), None::<&str>);
    assert_eq!(wheel.cancel(Handle(7)), None);
    let a = wheel.insert("a", 1);
    let b = wheel.insert("b", 1);
    let c = wheel.insert("c", 1);
    assert_eq!(wheel.cancel(b), Some("b"));
    assert_eq!(wheel.cancel(b), None);
    wheel.tick(&mut expired);
    wheel.tick(&mut expired);
    assert_eq!(expired, vec!["c", "a"]);
    assert_eq!(wheel.cancel(a), None);
    assert_eq!(wheel.cancel(c), None);
}

#[test]
fn process_bucket_drains_one_bucket() {
    let mut wheel = TimingWheel::new();
    let mut expired = Vec::new();
    wheel.insert("now", 0);
    wheel.insert("later", 64);
    wheel.process_bucket(0, 0, &mut expired);
    assert_eq!(expired, vec!["now"]);
    wheel.process_bucket(1, 1, &mut expired);
    assert_eq!(expired, vec!["now"]);
    for _ in 0..65 {
        wheel.tick(&mut expired);
    }
    assert_eq!(expired, vec!["now", "later"]);
}

#[test]
fn slot_count_grows_only_without_free_slots() {
    let mut wheel = TimingWheel::new();
    assert_eq!(wheel.slot_count(), 0);
    let a = wheel.insert(1u8, 5);
    wheel.insert(2u8, 6);
    assert_eq!(wheel.slot_count(), 2);
    assert_eq!(wheel.cancel(a), Some(1));
    wheel.insert(3u8, 7);
    assert_eq!(wheel.slot_count(), 2);
}

#[test]
fn cascaded_timer_due_at_round_start_fires_on_its_tick() {
    let mut wheel = TimingWheel::new();
    wheel.insert("at64", 64);
    wheel.insert("at63", 63);
    let mut expired = Vec::new();
    for _ in 0..64 {
        wheel.tick(&mut expired);
    }
    assert_eq!(expired, vec!["at63"]);
    wheel.tick(&mut expired);
    assert_eq!(expired, vec!["at63", "at64"]);
}
