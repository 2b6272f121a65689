use crossbeam::channel::unbounded;
use crossbeam::channel::Receiver;
use scale::merged_chan::MergedChannels;

fn channel_of<T>(items: Vec<T>) -> Receiver<T> {
    let (s, r) = unbounded();
    for item in items {
        s.send(item).unwrap();
    }
    drop(s);
    r
}

fn drain<T: Ord>(m: &mut MergedChannels<T>) -> Vec<T> {
    let mut out = Vec::new();
    while let Some(v) = m.next() {
        out.push(v);
    }
    out
}

#[test]
fn happy_path() {
    let (s1, r1) = unbounded();
    let (s2, r2) = unbounded();

    let mut lines = ["hi", "okay", "abc"];
    lines.sort();
    for line in lines.iter() {
        s1.send(line.to_string()).unwrap();
    }
    drop(s1);

    let mut lines2 = ["bcd", "hoho", "zyz"];
    lines2.sort();
    for line in lines2.iter() {
        s2.send(line.to_string()).unwrap();
    }
    drop(s2);

    let mut m = MergedChannels::new(vec![r1, r2]);
    let out = drain(&mut m);
    assert_eq!(out, vec!["abc", "bcd", "hi", "hoho", "okay", "zyz"]);
}

#[test]
fn interleaves_two_channels() {
    let a = channel_of(vec![10u64, 30, 50]);
    let b = channel_of(vec![20u64, 40]);
    let mut m = MergedChannels::new(vec![a, b]);
    assert_eq!(m.next(), Some(10));
    assert_eq!(m.next(), Some(20));
    assert_eq!(m.next(), Some(30));
    assert_eq!(m.next(), Some(40));
    assert_eq!(m.next(), Some(50));
    assert_eq!(m.next(), None);
}

#[test]
fn refills_only_the_last_picked_channel() {
    let (sa, a) = unbounded();
    sa.send(10u64).unwrap();
    sa.send(30u64).unwrap();
    let b = channel_of(vec![20u64, 40]);
    let mut m = MergedChannels::new(vec![a, b]);
    // the third value of the first channel has not been sent yet
    assert_eq!(m.next(), Some(10));
    assert_eq!(m.next(), Some(20));
    assert_eq!(m.next(), Some(30));
    sa.send(50u64).unwrap();
    drop(sa);
    assert_eq!(m.next(), Some(40));
    assert_eq!(m.next(), Some(50));
    assert_eq!(m.next(), None);
}

#[test]
fn retired_channel_hands_its_slot_to_the_last() {
    let c0 = channel_of(vec![1u64, 5]);
    let c1 = channel_of(vec![2u64]);
    let c2 = channel_of(vec![3u64, 4, 6]);
    let mut m = MergedChannels::new(vec![c0, c1, c2]);
    assert_eq!(m.next(), Some(1));
    assert_eq!(m.next(), Some(2));
    // channel 1 runs dry here; channel 2 takes identifier 1 with its slot holding 3
    assert_eq!(m.next(), Some(3));
    assert_eq!(m.next(), Some(4));
    assert_eq!(m.next(), Some(5));
    assert_eq!(m.next(), Some(6));
    assert_eq!(m.next(), None);
}

#[test]
fn channel_empty_from_the_start_is_dropped() {
    let c0 = channel_of(Vec::<u64>::new());
    let c1 = channel_of(vec![7u64, 8]);
    let c2 = channel_of(Vec::<u64>::new());
    let c3 = channel_of(vec![1u64, 9]);
    let mut m = MergedChannels::new(vec![c0, c1, c2, c3]);
    assert_eq!(drain(&mut m), vec![1, 7, 8, 9]);
}

#[test]
fn no_channels_is_done_at_once() {
    let mut m = MergedChannels::<u64>::new(Vec::new());
    assert_eq!(m.next(), None);
    assert_eq!(m.next(), None);
}

#[test]
fn done_stays_done() {
    let a = channel_of(vec![1u64]);
    let mut m = MergedChannels::new(vec![a]);
    assert_eq!(m.next(), Some(1));
    for _ in 0..10 {
        assert_eq!(m.next(), None);
    }
}

#[test]
fn single_channel_passes_through() {
    let a = channel_of(vec![3u64, 3, 5, 8, 13]);
    let mut m = MergedChannels::new(vec![a]);
    assert_eq!(drain(&mut m), vec![3, 3, 5, 8, 13]);
}

#[test]
fn equal_values_are_all_kept() {
    let a = channel_of(vec![1u64, 2, 2, 4]);
    let b = channel_of(vec![2u64, 2, 3]);
    let c = channel_of(vec![2u64]);
    let mut m = MergedChannels::new(vec![a, b, c]);
    assert_eq!(drain(&mut m), vec![1, 2, 2, 2, 2, 2, 3, 4]);
}

#[test]
fn output_is_sorted_and_complete() {
    let mut streams: Vec<Vec<u64>> = Vec::new();
    let mut seed: u64 = 12345;
    for k in 0..6u64 {
        let mut s = Vec::new();
        let mut v = k;
        for _ in 0..(k * 7 % 11) {
            seed = seed.wrapping_mul(6364136223846793005).wrapping_add(1442695040888963407);
            v += seed >> 60;
            s.push(v);
        }
        streams.push(s);
    }
    let mut expected: Vec<u64> = streams.iter().flatten().cloned().collect();
    expected.sort();
    let chans = streams.into_iter().map(channel_of).collect();
    let mut m = MergedChannels::new(chans);
    let out = drain(&mut m);
    assert!(out.windows(2).all(|w| w[0] <= w[1]));
    assert_eq!(out, expected);
}
