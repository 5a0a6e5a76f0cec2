use pbtree::error::Error;
use pbtree::node::Freq;
use pbtree::priority_queue::PriorityQueue;
use rand::Rng;
use rand::SeedableRng;
use rand::XorShiftRng;

fn drain(q: &mut PriorityQueue<u64>) -> Vec<u64> {
    let mut out = Vec::new();
    while let Some(x) = q.poll() {
        out.push(x);
    }
    out
}

#[test]
fn a_new_queue_is_empty() {
    let mut q: PriorityQueue<u64> = PriorityQueue::new();
    assert!(q.empty());
    assert_eq!(q.poll(), None);
    assert!(!q.contains(&3));
}

#[test]
fn polls_ascend() {
    let mut q = PriorityQueue::new();
    for f in [5u64, 2, 9, 1, 7] {
        q.push(f);
    }
    assert!(!q.empty());
    assert_eq!(drain(&mut q), vec![1, 2, 5, 7, 9]);
    assert!(q.empty());
}

#[test]
fn push_then_poll_returns_the_item() {
    let mut q = PriorityQueue::new();
    q.push(42u64);
    assert_eq!(q.poll(), Some(42));
    assert_eq!(q.poll(), None);
    q.push(10);
    q.push(20);
    q.push(3);
    assert_eq!(q.poll(), Some(3));
}

#[test]
fn equal_items_all_come_out() {
    let mut q = PriorityQueue::new();
    q.append(vec![4u64, 4, 1, 4, 1].into_iter());
    assert_eq!(drain(&mut q), vec![1, 1, 4, 4, 4]);
}

#[test]
fn append_pushes_every_item() {
    let mut q = PriorityQueue::new();
    q.push(6u64);
    q.append(vec![8u64, 3, 7].into_iter());
    assert!(q.contains(&8));
    assert!(q.contains(&6));
    assert!(!q.contains(&5));
    assert_eq!(drain(&mut q), vec![3, 6, 7, 8]);
}

#[test]
fn contains_finds_an_element_below_a_greater_one() {
    let mut q = PriorityQueue::new();
    q.append(vec![1u64, 9, 2].into_iter());
    assert!(q.contains(&2));
    assert!(q.contains(&9));
    assert!(!q.contains(&0));
    assert!(!q.contains(&10));
}

#[test]
fn update_key_moves_the_element_down() {
    let mut q = PriorityQueue::new();
    q.append(vec![1u64, 2, 3, 4, 5].into_iter());
    let r = q.update_key(1, |x| *x += 10);
    assert!(r.is_ok());
    assert_eq!(drain(&mut q), vec![2, 3, 4, 5, 11]);
}

#[test]
fn update_key_of_an_absent_element_fails() {
    let mut q = PriorityQueue::new();
    q.append(vec![1u64, 2, 3].into_iter());
    let r = q.update_key(7, |x| *x += 10);
    assert!(matches!(r, Err(Error::NotFound)));
    assert_eq!(drain(&mut q), vec![1, 2, 3]);
    let mut e: PriorityQueue<u64> = PriorityQueue::new();
    assert!(matches!(e.update_key(1, |x| *x += 1), Err(Error::NotFound)));
}

#[test]
fn random_pushes_come_out_sorted() {
    let mut rng = XorShiftRng::from_seed([0, 1, 377, 6712]);
    let mut q = PriorityQueue::new();
    let mut want = Vec::new();
    for _ in 0..500 {
        let x: u64 = rng.gen_range(0, 1000);
        want.push(x);
        q.push(x);
    }
    want.sort();
    assert_eq!(drain(&mut q), want);
}

#[test]
fn the_least_frequent_record_is_polled_first() {
    let mut q = PriorityQueue::new();
    for (loc, freq) in [(10u64, 5u64), (20, 2), (30, 9), (40, 1), (50, 7)] {
        q.push(Freq { freq, loc });
    }
    assert!(q.contains(&Freq::new(30)));
    assert!(!q.contains(&Freq::new(31)));
    let mut freqs = Vec::new();
    let mut locs = Vec::new();
    while let Some(f) = q.poll() {
        freqs.push(f.freq);
        locs.push(f.loc);
    }
    assert_eq!(freqs, vec![1, 2, 5, 7, 9]);
    assert_eq!(locs, vec![40, 20, 10, 50, 30]);
}

#[test]
fn a_record_that_counts_more_moves_down() {
    let mut q = PriorityQueue::new();
    for loc in [1u64, 2, 3] {
        q.push(Freq::new(loc));
    }
    // The probe equals the record by its offset, whatever it counts.
    q.update_key(Freq { freq: 100, loc: 1 }, |x| x.freq += 1).unwrap();
    q.update_key(Freq::new(1), |x| x.freq += 1).unwrap();
    q.update_key(Freq::new(3), |x| x.freq += 1).unwrap();
    let mut out = Vec::new();
    while let Some(f) = q.poll() {
        out.push((f.loc, f.freq));
    }
    assert_eq!(out, vec![(2, 1), (3, 2), (1, 3)]);
}
