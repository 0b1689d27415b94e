use minimizer_queue::slots::SlotCounter;
use minimizer_queue::{ImplicitMinimizerQueue, MinimizerQueue};
use nohash_hasher::BuildNoHashHasher;

#[test]
fn test_get_min() {
    let mut queue = MinimizerQueue::with_hasher(3, BuildNoHashHasher::<usize>::default());

    let vals = [1usize, 2, 3, 0, 7, 8, 9, 100, 3, 4, 7, 8];
    let mut mins = Vec::with_capacity(vals.len() - queue.width() + 1);

    for &val in vals.iter().take(queue.width() - 1) {
        queue.insert(val);
    }
    for &val in vals.iter().skip(queue.width() - 1) {
        queue.insert(val);
        mins.push(queue.get_min());
    }

    assert_eq!(mins, vec![1, 0, 0, 0, 7, 8, 3, 3, 3, 4]);
}

#[test]
fn test_get_min_pos() {
    let mut queue = MinimizerQueue::with_hasher(3, BuildNoHashHasher::<usize>::default());

    let vals = [1usize, 2, 3, 0, 7, 8, 9, 100, 3, 4, 7, 8];
    let mut mins_pos = Vec::with_capacity(vals.len() - queue.width() + 1);

    for &val in vals.iter().take(queue.width() - 1) {
        queue.insert(val);
    }
    for &val in vals.iter().skip(queue.width() - 1) {
        queue.insert(val);
        mins_pos.push(queue.get_min_pos());
    }

    assert_eq!(
        mins_pos,
        vec![
            (1, 0),
            (0, 2),
            (0, 1),
            (0, 0),
            (7, 0),
            (8, 0),
            (3, 2),
            (3, 1),
            (3, 0),
            (4, 0)
        ]
    );
}

#[test]
fn test_implicit_get_min_pos() {
    let mut queue =
        ImplicitMinimizerQueue::with_hasher(3, BuildNoHashHasher::<usize>::default());

    let vals = [1usize, 2, 3, 0, 7, 8, 9, 100, 3, 4, 7, 8];
    let mut mins_pos = Vec::with_capacity(vals.len() - queue.width() + 1);

    for val in vals.iter().take(queue.width() - 1) {
        queue.insert(val);
    }
    for val in vals.iter().skip(queue.width() - 1) {
        queue.insert(val);
        mins_pos.push(queue.get_min_pos());
    }

    assert_eq!(mins_pos, vec![0, 2, 1, 0, 0, 0, 2, 1, 0, 0]);
}

fn brute_force_min(keys: &[u64], lo: usize, hi: usize) -> usize {
    let mut best = lo;
    for j in lo..=hi {
        if keys[j] < keys[best] {
            best = j;
        }
    }
    best
}

#[test]
fn window_minimum_matches_brute_force() {
    let width = 4usize;
    let keys: Vec<u64> = vec![9, 3, 3, 7, 1, 8, 1, 5, 5, 2, 6, 6, 6, 0, 4];
    let mut queue = MinimizerQueue::with_hasher(width as u16, BuildNoHashHasher::<u64>::default());
    for (i, &k) in keys.iter().enumerate() {
        queue.insert_with_hash(i, k);
        if i + 1 >= width {
            let arg = brute_force_min(&keys, i + 1 - width, i);
            let (item, rel) = queue.get_min_pos();
            assert_eq!(item, arg);
            assert_eq!(queue.get_min(), arg);
            assert_eq!(rel, (width - 1) - (i - arg));
        }
    }
}

#[test]
fn equal_hashes_keep_the_earliest() {
    let mut queue = MinimizerQueue::with_hasher(3, BuildNoHashHasher::<u64>::default());
    queue.insert_with_hash('a', 5);
    queue.insert_with_hash('b', 5);
    queue.insert_with_hash('c', 5);
    assert_eq!(queue.get_min_pos(), ('a', 0));
    queue.insert_with_hash('d', 5);
    assert_eq!(queue.get_min_pos(), ('b', 0));
    queue.insert_with_hash('e', 4);
    assert_eq!(queue.get_min_pos(), ('e', 2));
}

#[test]
fn clear_keeps_the_slot_counter() {
    let mut queue = MinimizerQueue::with_hasher(3, BuildNoHashHasher::<u64>::default());
    queue.insert_with_hash(10u32, 1);
    queue.insert_with_hash(11, 2);
    queue.clear();
    queue.insert_with_hash(12, 9);
    // one item in a window of three: it sits in the newest slot
    assert_eq!(queue.get_min_pos(), (12, 2));
    queue.insert_with_hash(13, 8);
    assert_eq!(queue.get_min_pos(), (13, 2));
    queue.insert_with_hash(14, 10);
    assert_eq!(queue.get_min_pos(), (13, 1));
    queue.insert_with_hash(15, 11);
    assert_eq!(queue.get_min_pos(), (13, 0));
    queue.insert_with_hash(16, 12);
    assert_eq!(queue.get_min_pos(), (14, 0));
}

#[test]
fn implicit_clear_keeps_the_slot_counter() {
    let mut queue = ImplicitMinimizerQueue::with_hasher(2, BuildNoHashHasher::<u64>::default());
    queue.insert_hash(3);
    queue.insert_hash(1);
    assert_eq!(queue.get_min_pos(), 1);
    queue.clear();
    queue.insert_hash(7);
    assert_eq!(queue.get_min_pos(), 1);
    queue.insert_hash(8);
    assert_eq!(queue.get_min_pos(), 0);
    queue.insert_hash(2);
    assert_eq!(queue.get_min_pos(), 1);
}

#[test]
fn width_one_reports_each_item() {
    let mut queue = MinimizerQueue::with_hasher(1, BuildNoHashHasher::<u64>::default());
    for (i, &k) in [5u64, 1, 9, 9, 0].iter().enumerate() {
        queue.insert_with_hash(i, k);
        assert_eq!(queue.get_min_pos(), (i, 0));
    }
}

#[test]
fn largest_width_does_not_overflow() {
    let width: u16 = u16::MAX;
    let mut queue = ImplicitMinimizerQueue::with_hasher(width, BuildNoHashHasher::<u64>::default());
    assert_eq!(queue.width(), 65535);
    let total: usize = width as usize + 2;
    for i in 0..total {
        let key = if i == width as usize - 1 { 0 } else { 10 };
        queue.insert_hash(key);
    }
    // the window holds items 2 ..= 65536; the minimum is item 65534
    assert_eq!(queue.get_min_pos(), 65532);
}

#[test]
fn retained_keys_shrink_on_smaller_key() {
    let mut queue = ImplicitMinimizerQueue::with_hasher(5, BuildNoHashHasher::<u64>::default());
    for k in [4u64, 5, 6, 7] {
        queue.insert_hash(k);
    }
    assert_eq!(queue.get_min_pos(), 1);
    queue.insert_hash(3);
    assert_eq!(queue.get_min_pos(), 4);
    queue.insert_hash(3);
    assert_eq!(queue.get_min_pos(), 3);
}

#[test]
fn seeded_queues_agree() {
    let vals = [17u64, 4, 99, 23, 8, 15, 42, 16, 7, 1];
    let mut a: MinimizerQueue<u64> = MinimizerQueue::with_seed(4, 12345);
    let mut b: MinimizerQueue<u64> = MinimizerQueue::with_seed(4, 12345);
    assert_eq!(a.width(), 4);
    for (i, &v) in vals.iter().enumerate() {
        a.insert(v);
        b.insert(v);
        let m = a.get_min();
        assert_eq!(m, b.get_min());
        let lo = if i >= 3 { i - 3 } else { 0 };
        assert!(vals[lo..=i].contains(&m));
        let (x, rel) = a.get_min_pos();
        assert_eq!(x, m);
        assert!(rel < 4);
    }
}

#[test]
fn default_queues_use_the_width_as_seed() {
    let vals = [5u32, 6, 7, 8, 9, 10, 11];
    let mut a: MinimizerQueue<u32> = MinimizerQueue::new(3);
    let mut b: MinimizerQueue<u32> = MinimizerQueue::with_seed(3, 3);
    let mut c = ImplicitMinimizerQueue::new(3);
    let mut d = ImplicitMinimizerQueue::with_seed(3, 3);
    for &v in vals.iter() {
        a.insert(v);
        b.insert(v);
        c.insert(&v);
        d.insert(&v);
        assert_eq!(a.get_min_pos(), b.get_min_pos());
        assert_eq!(c.get_min_pos(), d.get_min_pos());
        assert_eq!(a.get_min_pos().1, c.get_min_pos());
    }
}

#[test]
fn slot_counter_wraps_and_measures() {
    let mut slots = SlotCounter::new(5);
    assert_eq!(slots.width(), 5);
    for _ in 0..7 {
        slots.advance();
    }
    assert_eq!(slots.current(), 2);
    assert_eq!(slots.distance(4), 2);
    assert_eq!(slots.distance(1), 4);
    assert_eq!(slots.distance(2), 0);
}
