use wboit_demo::splats::{
    counting_sort, identity_order, newest_request, percentile_window, permute, permute_blocks, sort_participants,
    PollOutcome, SortGate, KEY_BUCKETS,
};

/// Depth keys of the first `count` splats along `forward`, quantized to 16 bits over the
/// span they occupy, as the sorting thread computes them.
fn depth_keys(positions: &[[f32; 3]], forward: [f32; 3], count: usize) -> Vec<u16> {
    let n = sort_participants(count, positions.len());
    let depth = |p: &[f32; 3]| p[0] * forward[0] + p[1] * forward[1] + p[2] * forward[2];
    let mut min_d = f32::INFINITY;
    let mut max_d = f32::NEG_INFINITY;
    for p in &positions[..n] {
        let d = depth(p);
        min_d = min_d.min(d);
        max_d = max_d.max(d);
    }
    let span = max_d - min_d;
    let scale = if span > 1e-9 { 65535.0 / span } else { 0.0 };
    positions[..n]
        .iter()
        .map(|p| ((depth(p) - min_d) * scale) as u16)
        .collect()
}

fn sort_positions(positions: &[[f32; 3]], forward: [f32; 3], count: usize) -> Vec<u32> {
    let keys = depth_keys(positions, forward, count);
    let (mut counts, mut out) = (vec![0u32; KEY_BUCKETS], Vec::new());
    counting_sort(&keys, &mut counts, &mut out);
    out
}

#[test]
fn counting_sort_orders_back_to_front() {
    // Points along +Z at increasing distance from an eye looking down +Z.
    let positions: Vec<[f32; 3]> = vec![
        [0.0, 0.0, 5.0],
        [0.0, 0.0, 1.0],
        [0.0, 0.0, 9.0],
        [0.0, 0.0, 3.0],
    ];
    let out = sort_positions(&positions, [0.0, 0.0, 1.0], positions.len());

    // Farthest first.
    assert_eq!(out, vec![2, 0, 3, 1]);

    // Depths must be non-increasing along the draw order.
    let depths: Vec<f32> = out.iter().map(|&i| positions[i as usize][2]).collect();
    assert!(depths.windows(2).all(|w| w[0] >= w[1]));
}

#[test]
fn counting_sort_respects_the_render_cap() {
    let positions: Vec<[f32; 3]> = (0..10).map(|i| [0.0, 0.0, i as f32]).collect();
    let out = sort_positions(&positions, [0.0, 0.0, 1.0], 4);

    // Only the first `count` splats participate, still ordered far to near.
    assert_eq!(out, vec![3, 2, 1, 0]);
}

#[test]
fn degenerate_scenes_do_not_panic() {
    let positions = vec![[1.0, 2.0, 3.0]; 5];
    let out = sort_positions(&positions, [0.0, 0.0, 1.0], 5);
    assert_eq!(out.len(), 5);
    let mut seen = out.clone();
    seen.sort_unstable();
    assert_eq!(seen, vec![0, 1, 2, 3, 4]);
}

#[test]
fn counting_sort_keeps_equal_keys_in_index_order() {
    let keys: Vec<u16> = vec![7, 3, 7, 65535, 0, 3, 7];
    let (mut counts, mut out) = (vec![9u32; KEY_BUCKETS], Vec::new());
    counting_sort(&keys, &mut counts, &mut out);
    assert_eq!(out, vec![3, 0, 2, 6, 1, 5, 4]);
    // Scratch slot b ends holding the number of keys at least b.
    assert_eq!(counts[0], 7);
    assert_eq!(counts[4], 4);
    assert_eq!(counts[8], 1);
    assert_eq!(counts[65535], 1);
}

#[test]
fn counting_sort_of_nothing_is_empty() {
    let (mut counts, mut out) = (vec![0u32; KEY_BUCKETS], vec![5u32, 6]);
    counting_sort(&[], &mut counts, &mut out);
    assert!(out.is_empty());
}

#[test]
fn render_cap_takes_a_prefix() {
    assert_eq!(sort_participants(4, 10), 4);
    assert_eq!(sort_participants(40, 10), 10);
}

#[test]
fn identity_order_counts_up() {
    assert_eq!(identity_order(4), vec![0, 1, 2, 3]);
    assert!(identity_order(0).is_empty());
}

#[test]
fn permute_picks_by_order() {
    let src = [10, 20, 30, 40];
    assert_eq!(permute(&src, &[3, 0, 0, 2]), vec![40, 10, 10, 30]);
}

#[test]
fn permute_blocks_moves_whole_blocks() {
    let src = [1, 2, 3, 4, 5, 6];
    assert_eq!(permute_blocks(&src, &[2, 0], 2), vec![5, 6, 1, 2]);
    assert!(permute_blocks(&src, &[], 2).is_empty());
}

#[test]
fn percentile_window_clips_two_percent_each_side() {
    assert_eq!(percentile_window(1), (0, 0));
    assert_eq!(percentile_window(100), (2, 97));
    assert_eq!(percentile_window(49), (0, 48));
}

#[test]
fn sort_gate_allows_one_request_at_a_time() {
    let mut g = SortGate::new();
    assert!(g.should_request(10));
    assert!(!g.should_request(0));
    g.request_sent(true);
    assert!(!g.should_request(10));
    assert!(!g.polled(PollOutcome::Empty));
    assert!(!g.should_request(10));
    assert!(g.polled(PollOutcome::Ready));
    assert!(g.should_request(10));
    g.request_sent(false);
    assert!(!g.should_request(10));
    let mut h = SortGate::new();
    h.request_sent(true);
    assert!(!h.polled(PollOutcome::Disconnected));
    assert!(!h.pending);
    assert!(!h.alive);
}

#[test]
fn counting_sort_accepts_a_larger_count_table() {
    let keys: Vec<u16> = vec![2, 9, 2];
    let (mut counts, mut out) = (vec![4u32; KEY_BUCKETS + 3], Vec::new());
    counting_sort(&keys, &mut counts, &mut out);
    assert_eq!(out, vec![1, 0, 2]);
    assert_eq!(counts.len(), KEY_BUCKETS + 3);
    assert_eq!(counts[2], 3);
    assert_eq!(counts[KEY_BUCKETS + 2], 0);
}

#[test]
fn only_the_newest_request_is_sorted() {
    assert_eq!(newest_request(1, vec![]), 1);
    assert_eq!(newest_request(1, vec![2, 3, 4]), 4);
}
