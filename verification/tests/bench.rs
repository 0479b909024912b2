use toccata::bench::frag::{
    drift_generation, fill_class, fill_generation, fill_plan, footprint_bytes, frag_budget_guard, rss_bytes, touch_pages,
    FragMode, CLASSES, PAGE,
};
use toccata::bench::hist::Histogram;
use toccata::bench::mixed::{
    draw_size, sample_every, seed_or_default, xorshift64, MixedRun, DEFAULT_SEED,
};
use toccata::bench::ring::SpscRing;
use toccata::bench::{
    cache_loop, churn, default_pairs, frame_loop, keep, number_or, producer_size, toccata_budget_bytes,
    Workload, SIZES,
};
use toccata::frame::cache::FrameCache;
use toccata::frame::FramePool;
use toccata::global::Stats;
use toccata::rseq::abi::ThreadView;

#[test]
fn workloads_are_found_by_name() {
    assert_eq!(Workload::parse("throughput"), Some(Workload::Throughput));
    assert_eq!(Workload::parse("latency-tail"), Some(Workload::LatencyTail));
    assert_eq!(Workload::parse("frag"), Some(Workload::Frag));
    assert_eq!(Workload::parse("prodcons"), Some(Workload::Prodcons));
    assert_eq!(Workload::parse("Frag"), None);
    assert_eq!(FragMode::parse("shift"), Some(FragMode::Shift));
    assert_eq!(FragMode::parse("crossclass"), Some(FragMode::CrossClass));
    assert_eq!(FragMode::parse(""), None);
}

#[test]
fn numbers_have_defaults() {
    assert_eq!(number_or(Some("17"), 5), 17);
    assert_eq!(number_or(Some("x"), 5), 5);
    assert_eq!(number_or(None, 5), 5);
    assert_eq!(toccata_budget_bytes(None), Some(2048 * 1024 * 1024));
    assert_eq!(toccata_budget_bytes(Some("64")), Some(64 * 1024 * 1024));
    assert_eq!(toccata_budget_bytes(Some("18446744073709551615")), None);
    assert_eq!((default_pairs(1), default_pairs(6), default_pairs(64)), (1, 3, 8));
}

#[test]
fn producers_cycle_through_the_sizes() {
    assert_eq!(producer_size(0, 0), SIZES[0]);
    assert_eq!(producer_size(0, 17), SIZES[7]);
    assert_eq!(producer_size(1500, 17), 1500);
}

#[test]
fn churn_sums_what_it_writes() {
    assert_eq!(churn(0, 0), 0);
    // 0 + 0, then 1 + 1, then 2 + 2.
    assert_eq!(churn(3, 2), 6);
    // The bytes wrap at 256.
    assert_eq!(churn(257, 16), 2 * (255 * 256 / 2));
}

#[test]
fn frame_loops_take_and_return_one_frame() {
    let mut pool = match FramePool::<()>::over(0x1_0000_0000, 16 * 2048, 2048, 2) {
        Ok(p) => p,
        Err(e) => panic!("{}", e.message("")),
    };
    let seen = ThreadView::on_cpu(0, 0x7000, 0);
    assert_eq!(frame_loop(&mut pool, &seen, 4), Some(6));
    let mut cache = FrameCache::new();
    assert_eq!(cache_loop(&mut cache, &mut pool, &seen, 4), Some(6));
    cache.flush(&mut pool, &seen);
    // Nothing was lost: all frames come out.
    let mut n = 0;
    while pool.allocate(&seen).is_some() {
        n += 1;
    }
    assert_eq!(n, 16);
    assert_eq!(frame_loop(&mut pool, &seen, 4), None);
}

#[test]
fn histogram_ranks_and_counts() {
    let mut h = Histogram::new();
    for ns in [0u64, 1, 5, 6, 7, 1000, 2_000_000] {
        h.record(ns);
    }
    assert_eq!(h.count(), 7);
    assert_eq!(h.max(), 2_000_000);
    // Two samples in the first bucket, three in the one from four on.
    assert_eq!(h.at_rank(1), 1);
    assert_eq!(h.at_rank(2), 1);
    assert_eq!(h.at_rank(3), 4);
    assert_eq!(h.at_rank(5), 4);
    assert_eq!(h.at_rank(6), 512);
    assert_eq!(h.at_rank(7), 1048576);
    assert_eq!(h.at_rank(8), 2_000_000);
    assert_eq!(h.count_over(1_000_000), 1);
    assert_eq!(h.count_over(10_000_000), 0);
    assert_eq!(h.count_over(7), 2);
    // Between samples of one bucket all that it holds counts.
    assert_eq!(h.count_over(6), 5);
    assert_eq!(h.count_over(0), 6);
    assert_eq!(h.count_over(1), 5);
    assert_eq!(h.count_over(1_999_999), 1);
    assert_eq!(h.count_over(2_000_000), 0);
}

#[test]
fn a_bucket_on_one_side_of_a_threshold_is_counted_exactly() {
    let mut h = Histogram::new();
    h.record(600_000);
    h.record(2_000_000);
    assert_eq!(h.count_over(550_000), 2);
    assert_eq!(h.count_over(599_999), 2);
    assert_eq!(h.count_over(600_000), 1);
    assert_eq!(h.count_over(700_000), 1);
    assert_eq!(h.count_over(1_500_000), 1);
    assert_eq!(h.count_over(2_000_000), 0);
    assert_eq!(Histogram::new().count_over(700_000), 0);
}

#[test]
fn stalls_are_counted_strictly() {
    let mut h = Histogram::new();
    h.record(600_000);
    assert_eq!(h.count_over(1_000_000), 0);
    h.record(1_000_000);
    assert_eq!(h.count_over(1_000_000), 0);
    h.record(1_000_001);
    assert_eq!(h.count_over(1_000_000), 1);
    h.record(10_000_000);
    h.record(12_000_000);
    assert_eq!(h.count_over(1_000_000), 3);
    assert_eq!(h.count_over(10_000_000), 1);
    assert_eq!(h.count_over(100_000_000), 0);
    h.record(u64::MAX);
    assert_eq!(h.count_over(100_000_000), 1);
    assert_eq!(h.count_over(u64::MAX - 1), 1);
    assert_eq!(h.count_over(u64::MAX), 0);
}

#[test]
fn ring_is_first_in_first_out_and_bounded() {
    let mut r: SpscRing<u32> = SpscRing::new(3);
    assert_eq!(r.pop(), None);
    for k in 0..4 {
        assert_eq!(r.push(k), Ok(()));
    }
    // A capacity of three rounds up to four.
    assert_eq!(r.push(9), Err(9));
    assert_eq!(r.pop(), Some(0));
    assert_eq!(r.push(4), Ok(()));
    for k in 1..5 {
        assert_eq!(r.pop(), Some(k));
    }
    assert_eq!(r.pop(), None);
}

fn stats(carved: usize, budget: usize) -> Option<Stats> {
    Some(Stats { live_bytes: 0, live_objects: 0, carved_bytes: carved, budget_bytes: budget })
}

#[test]
fn footprints_come_from_the_pool_or_the_process() {
    assert_eq!(rss_bytes("1000 250 30 1 0 5 0\n", 4096), Some(250 * 4096));
    assert_eq!(rss_bytes("1000", 4096), Some(0));
    assert_eq!(footprint_bytes(stats(77, 100), 5), 77);
    assert_eq!(footprint_bytes(None, 5), 5);
}

#[test]
fn the_guard_stops_short_of_the_budget() {
    assert!(!frag_budget_guard(stats(900, 1000), 50));
    assert!(frag_budget_guard(stats(900, 1000), 51));
    assert!(frag_budget_guard(stats(900, 1000), usize::MAX));
    assert!(!frag_budget_guard(None, usize::MAX));
}

#[test]
fn every_page_is_touched() {
    let mut v = vec![0u8; 2 * PAGE + 10];
    touch_pages(&mut v, 7);
    let touched: Vec<usize> = (0..v.len()).filter(|i| v[*i] == 7).collect();
    assert_eq!(touched, vec![0, PAGE, 2 * PAGE, 2 * PAGE + 9]);
    touch_pages(&mut [], 7);
}

#[test]
fn generations_and_classes_are_filled() {
    let plan = drift_generation(2 * 65536, 1, 0, false).unwrap();
    assert_eq!(plan.count, 2);
    let mut held: Vec<Vec<u8>> = Vec::new();
    fill_generation(&mut held, &plan, 6);
    assert_eq!(held.len(), 2);
    // Tagged with the number of the buffer and of the generation.
    assert_eq!((held[0][0], held[1][PAGE], held[1][1], held[1][65535]), (6, 7, 0, 7));
    fill_class(&mut held, 3, 64, 9);
    assert_eq!(held.len(), 5);
    assert_eq!((held[4].len(), held[4][0], held[4][1], held[4][63]), (64, 2, 0, 9));
}

#[test]
fn buffers_are_kept_in_turn() {
    let mut bufs: Vec<Vec<u8>> = Vec::new();
    for i in 0..5usize {
        keep(&mut bufs, 3, i, vec![i as u8]);
    }
    assert_eq!(bufs, vec![vec![3], vec![4], vec![2]]);
}

#[test]
fn generations_drift_or_match() {
    let target = 64 * 1024 * 1024;
    let g = drift_generation(target, 5, 3, true).unwrap();
    assert_eq!((g.spans, g.bytes, g.count), (8, 8 * 65536, 128));
    assert_eq!(g.live, target);
    let g = drift_generation(target, 5, 3, false).unwrap();
    assert_eq!((g.spans, g.count, g.live), (5, 204, 204 * 5 * 65536));
    // At least one buffer.
    assert_eq!(drift_generation(10, 5, 0, true).unwrap().count, 1);
    assert!(drift_generation(10, usize::MAX, 1, true).is_none());
    assert_eq!(fill_plan(1000, 64), (15, 960));
    assert_eq!(CLASSES[3], 4096);
}

#[test]
fn the_generator_steps_exactly() {
    let mut s = 1u64;
    assert_eq!(xorshift64(&mut s), 0x4082_2041);
    assert_eq!(s, 0x4082_2041);
    assert_eq!(seed_or_default(Some(3)), 3);
    assert_eq!(seed_or_default(Some(0)), DEFAULT_SEED);
    assert_eq!(seed_or_default(None), DEFAULT_SEED);
    // Never stuck at zero.
    let mut s = DEFAULT_SEED;
    for _ in 0..1000 {
        assert_ne!(xorshift64(&mut s), 0);
    }
}

#[test]
fn sizes_are_drawn_small_medium_and_large() {
    let draw = |seed: u64| {
        let mut s = seed;
        draw_size(&mut s)
    };
    assert_eq!(draw(1), 401);
    assert_eq!(draw(3), 2242);
    assert_eq!(draw(18), 879771);
    let mut s = DEFAULT_SEED;
    let sizes: Vec<usize> = (0..8).map(|_| draw_size(&mut s)).collect();
    assert_eq!(sizes, vec![15478, 68, 489, 26, 12686, 339, 190, 12287]);
    assert_eq!(s, 0xc576_5079_fc5d_43ff);
}

#[test]
fn mixed_traffic_stays_within_its_budget() {
    let mut run = MixedRun::new(DEFAULT_SEED, 20_000);
    assert!(!run.is_warm());
    let mut last = 0;
    for op in 0..40 {
        last = run.begin();
        run.commit(last, op as u8);
        // Only a buffer that exceeds the budget by itself goes beyond it, alone.
        assert!(run.live() <= 20_000 || run.live() == last);
    }
    assert_eq!(last, 464);
    assert_eq!(run.live(), 14_524);
    assert!(run.is_warm());
    assert_eq!((sample_every(5), sample_every(200)), (1, 20));
}
