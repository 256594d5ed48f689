use wboit_demo::bench::{summary_indices, BenchProgress};
use wboit_demo::cli::{parse_args, CliStop};
use wboit_demo::mesh::{face_indices, sphere_indices};
use wboit_demo::quality::SplitMix64;
use wboit_demo::renderer::RenderMode;

#[test]
fn splitmix_matches_the_reference_stream() {
    let mut g = SplitMix64::new(0);
    assert_eq!(g.next_u64(), 0xe220_a839_7b1d_cdaf);
    assert_eq!(g.next_u64(), 0x6e78_9e6a_a1b9_65f4);
    let mut a = SplitMix64::new(1);
    let mut b = SplitMix64::new(1);
    for _ in 0..5 {
        assert_eq!(a.next_unit_bits(), b.next_unit_bits());
    }
    let mut c = SplitMix64::new(0);
    assert_eq!(c.next_unit_bits(), 0xe220a8);
}

#[test]
fn bench_discards_warmup_and_moves_through_modes() {
    let mut b = BenchProgress::new(2, 3, 2);
    let steps: Vec<_> = (0..10).map(|_| b.frame()).collect();
    let recorded: Vec<bool> = steps.iter().map(|s| s.record).collect();
    assert_eq!(
        recorded,
        vec![false, false, true, true, true, false, false, true, true, true]
    );
    assert!(steps[4].mode_finished && !steps[4].done);
    assert!(steps[9].mode_finished && steps[9].done);
    assert_eq!(b.current_mode(), None);
    let mut z = BenchProgress::new(0, 0, 1);
    let s = z.frame();
    assert!(s.record && s.mode_finished && s.done);
}

#[test]
fn summary_positions() {
    assert_eq!(summary_indices(1), (0, 0));
    assert_eq!(summary_indices(300), (150, 285));
    assert_eq!(summary_indices(10), (5, 9));
}

#[test]
fn quad_and_cube_indices() {
    assert_eq!(face_indices(1), vec![0, 1, 2, 0, 2, 3]);
    let cube = face_indices(6);
    assert_eq!(cube.len(), 36);
    assert_eq!(&cube[30..36], &[20, 21, 22, 20, 22, 23]);
}

#[test]
fn sphere_indices_join_neighbouring_rings() {
    let idx = sphere_indices(2, 1);
    assert_eq!(idx, vec![0, 3, 1, 1, 3, 4, 1, 4, 2, 2, 4, 5]);
    assert!(sphere_indices(0, 5).is_empty());
    // Past 65535 vertices the stored indices wrap.
    let big = sphere_indices(299, 300);
    let a = 219 * 300 + 100;
    assert_eq!(big[6 * (219 * 299 + 100)], (a % 65536) as u16);
}

fn args(list: &[&str]) -> Vec<Vec<u8>> {
    list.iter().map(|s| s.as_bytes().to_vec()).collect()
}

#[test]
fn command_line_options() {
    let a = parse_args(&args(&["scene.ply", "--bench", "--mode", "3", "--frames", "x", "--warmup", "7"])).unwrap();
    assert_eq!(a.path, Some(b"scene.ply".to_vec()));
    assert!(a.bench);
    assert!(!a.headless);
    assert_eq!(a.modes, vec![RenderMode::HistogramWboit]);
    assert_eq!(a.frames, None);
    assert_eq!(a.warmup, Some(7));

    let a = parse_args(&args(&["--screenshot", "out.png", "--size", "640X480", "--dist", "1.5", "--tile", "16", "--bins", "no"])).unwrap();
    assert!(a.bench && a.headless);
    assert_eq!(a.screenshot, Some(b"out.png".to_vec()));
    assert_eq!(a.size, Some((640, 480)));
    assert_eq!(a.dist, Some(b"1.5".to_vec()));
    assert_eq!(a.tile_size, Some(16));
    assert_eq!(a.bins, None);
    assert_eq!(a.modes.len(), 3);

    let a = parse_args(&args(&[])).unwrap();
    assert!(!a.bench && a.path.is_none());
}

#[test]
fn command_line_refusals() {
    assert_eq!(parse_args(&args(&["--help"])).err(), Some(CliStop::Help));
    assert_eq!(parse_args(&args(&["a.ply", "-h", "--nope"])).err(), Some(CliStop::Help));
    assert_eq!(parse_args(&args(&["--frames"])).err(), Some(CliStop::NeedsValue(0)));
    assert_eq!(parse_args(&args(&["--size", "640"])).err(), Some(CliStop::BadSize));
    assert_eq!(parse_args(&args(&["x.ply", "--nope"])).err(), Some(CliStop::UnknownOption(1)));
    assert_eq!(parse_args(&args(&["--mode", "4"])).err(), Some(CliStop::BadMode));
}

#[test]
fn a_whole_benchmark_run_ends_on_its_last_frame() {
    // Two modes of one warm-up and two measured frames: six frames in all.
    let mut b = BenchProgress::new(1, 2, 2);
    let mut modes = Vec::new();
    for k in 1..=6 {
        let step = b.frame();
        assert_eq!(step.done, k == 6);
        assert_eq!(step.mode_finished, k % 3 == 0);
        modes.push(b.current_mode());
    }
    assert_eq!(modes, vec![Some(0), Some(0), Some(1), Some(1), Some(1), None]);
    // With no frames at all, each frame finishes a mode.
    let mut b = BenchProgress::new(0, 0, 2);
    assert!(!b.frame().done);
    assert!(b.frame().done);
}
