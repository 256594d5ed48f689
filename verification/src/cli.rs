//! Command-line arguments: which scene to load and how to run the benchmark.
//!
//! Arguments are read as bytes. Options that take a value consume the next argument;
//! the last occurrence of an option wins.
use vstd::prelude::*;
use crate::ply::{parse_count, parse_count_word, bytes_eq};
use crate::renderer::RenderMode;

verus! {

/// `-h`
pub open spec fn flag_help_short() -> Seq<u8> {
    seq![45u8, 104]
}

fn is_flag_help_short(a: &[u8]) -> (r: bool)
    ensures
        r == (a@ == flag_help_short()),
{
    let lit: [u8; 2] = [45, 104];
    assert(lit@ =~= flag_help_short());
    bytes_eq(a, &lit)
}

/// `--help`
pub open spec fn flag_help_long() -> Seq<u8> {
    seq![45u8, 45, 104, 101, 108, 112]
}

fn is_flag_help_long(a: &[u8]) -> (r: bool)
    ensures
        r == (a@ == flag_help_long()),
{
    let lit: [u8; 6] = [45, 45, 104, 101, 108, 112];
    assert(lit@ =~= flag_help_long());
    bytes_eq(a, &lit)
}

/// `--bench`
pub open spec fn flag_bench() -> Seq<u8> {
    seq![45u8, 45, 98, 101, 110, 99, 104]
}

fn is_flag_bench(a: &[u8]) -> (r: bool)
    ensures
        r == (a@ == flag_bench()),
{
    let lit: [u8; 7] = [45, 45, 98, 101, 110, 99, 104];
    assert(lit@ =~= flag_bench());
    bytes_eq(a, &lit)
}

/// `--headless`
pub open spec fn flag_headless() -> Seq<u8> {
    seq![45u8, 45, 104, 101, 97, 100, 108, 101, 115, 115]
}

fn is_flag_headless(a: &[u8]) -> (r: bool)
    ensures
        r == (a@ == flag_headless()),
{
    let lit: [u8; 10] = [45, 45, 104, 101, 97, 100, 108, 101, 115, 115];
    assert(lit@ =~= flag_headless());
    bytes_eq(a, &lit)
}

/// `--screenshot`
pub open spec fn flag_screenshot() -> Seq<u8> {
    seq![45u8, 45, 115, 99, 114, 101, 101, 110, 115, 104, 111, 116]
}

fn is_flag_screenshot(a: &[u8]) -> (r: bool)
    ensures
        r == (a@ == flag_screenshot()),
{
    let lit: [u8; 12] = [45, 45, 115, 99, 114, 101, 101, 110, 115, 104, 111, 116];
    assert(lit@ =~= flag_screenshot());
    bytes_eq(a, &lit)
}

/// `--size`
pub open spec fn flag_size() -> Seq<u8> {
    seq![45u8, 45, 115, 105, 122, 101]
}

fn is_flag_size(a: &[u8]) -> (r: bool)
    ensures
        r == (a@ == flag_size()),
{
    let lit: [u8; 6] = [45, 45, 115, 105, 122, 101];
    assert(lit@ =~= flag_size());
    bytes_eq(a, &lit)
}

/// `--mode`
pub open spec fn flag_mode() -> Seq<u8> {
    seq![45u8, 45, 109, 111, 100, 101]
}

fn is_flag_mode(a: &[u8]) -> (r: bool)
    ensures
        r == (a@ == flag_mode()),
{
    let lit: [u8; 6] = [45, 45, 109, 111, 100, 101];
    assert(lit@ =~= flag_mode());
    bytes_eq(a, &lit)
}

/// `--frames`
pub open spec fn flag_frames() -> Seq<u8> {
    seq![45u8, 45, 102, 114, 97, 109, 101, 115]
}

fn is_flag_frames(a: &[u8]) -> (r: bool)
    ensures
        r == (a@ == flag_frames()),
{
    let lit: [u8; 8] = [45, 45, 102, 114, 97, 109, 101, 115];
    assert(lit@ =~= flag_frames());
    bytes_eq(a, &lit)
}

/// `--warmup`
pub open spec fn flag_warmup() -> Seq<u8> {
    seq![45u8, 45, 119, 97, 114, 109, 117, 112]
}

fn is_flag_warmup(a: &[u8]) -> (r: bool)
    ensures
        r == (a@ == flag_warmup()),
{
    let lit: [u8; 8] = [45, 45, 119, 97, 114, 109, 117, 112];
    assert(lit@ =~= flag_warmup());
    bytes_eq(a, &lit)
}

/// `--dist`
pub open spec fn flag_dist() -> Seq<u8> {
    seq![45u8, 45, 100, 105, 115, 116]
}

fn is_flag_dist(a: &[u8]) -> (r: bool)
    ensures
        r == (a@ == flag_dist()),
{
    let lit: [u8; 6] = [45, 45, 100, 105, 115, 116];
    assert(lit@ =~= flag_dist());
    bytes_eq(a, &lit)
}

/// `--tile`
pub open spec fn flag_tile() -> Seq<u8> {
    seq![45u8, 45, 116, 105, 108, 101]
}

fn is_flag_tile(a: &[u8]) -> (r: bool)
    ensures
        r == (a@ == flag_tile()),
{
    let lit: [u8; 6] = [45, 45, 116, 105, 108, 101];
    assert(lit@ =~= flag_tile());
    bytes_eq(a, &lit)
}

/// `--bins`
pub open spec fn flag_bins() -> Seq<u8> {
    seq![45u8, 45, 98, 105, 110, 115]
}

fn is_flag_bins(a: &[u8]) -> (r: bool)
    ensures
        r == (a@ == flag_bins()),
{
    let lit: [u8; 6] = [45, 45, 98, 105, 110, 115];
    assert(lit@ =~= flag_bins());
    bytes_eq(a, &lit)
}

} // verus!

verus! {

/// A `u32` as Rust parses it: optional `+`, decimal digits, no overflow.
pub open spec fn parse_u32(w: Seq<u8>) -> Option<u32> {
    match parse_count(w) {
        Some(v) => if v <= u32::MAX {
            Some(v as u32)
        } else {
            None
        },
        None => None,
    }
}

/// A whole argument read as a `u32`, as `str::parse` reads it.
pub fn parse_u32_word(w: &[u8]) -> (r: Option<u32>)
    ensures
        r == parse_u32(w@),
{
    match parse_count_word(w) {
        Some(v) => if v <= u32::MAX as usize {
            Some(v as u32)
        } else {
            None
        },
        None => None,
    }
}

/// Position of the first `x` or `X` at or after `k`.
pub open spec fn find_x(v: Seq<u8>, k: int) -> Option<int>
    decreases v.len() - k,
{
    if k < 0 || k >= v.len() {
        None
    } else if v[k] == 120 || v[k] == 88 {
        Some(k)
    } else {
        find_x(v, k + 1)
    }
}

/// A `WxH` size: two `u32`s around the first `x` or `X`.
pub open spec fn parse_size(v: Seq<u8>) -> Option<(u32, u32)> {
    match find_x(v, 0) {
        None => None,
        Some(k) => match (parse_u32(v.subrange(0, k)), parse_u32(v.subrange(k + 1, v.len() as int))) {
            (Some(w), Some(h)) => Some((w, h)),
            _ => None,
        },
    }
}

proof fn lemma_find_x(v: Seq<u8>, k: int)
    requires
        0 <= k,
    ensures
        find_x(v, k) matches Some(i) ==> k <= i < v.len(),
    decreases v.len() - k,
{
    if k < v.len() && !(v[k] == 120 || v[k] == 88) {
        lemma_find_x(v, k + 1);
    }
}

/// A `--size` value `WxH`, split at its first `x` or `X`.
pub fn parse_size_word(v: &[u8]) -> (r: Option<(u32, u32)>)
    ensures
        r == parse_size(v@),
{
    let mut k: usize = 0;
    while k < v.len() && !(v[k] == 120 || v[k] == 88)
        invariant
            k <= v.len(),
            find_x(v@, 0) == find_x(v@, k as int),
        decreases v.len() - k,
    {
        k += 1;
    }
    if k >= v.len() {
        return None;
    }
    let w = parse_u32_word(&v[0..k]);
    let h = parse_u32_word(&v[k + 1..v.len()]);
    match (w, h) {
        (Some(w), Some(h)) => Some((w, h)),
        _ => None,
    }
}

/// The options read so far.
pub struct CliState {
    pub path: Option<Seq<u8>>,
    pub bench: bool,
    pub headless: bool,
    pub screenshot: Option<Seq<u8>>,
    pub size: Option<(u32, u32)>,
    pub mode: Option<u32>,
    pub frames: Option<u32>,
    pub warmup: Option<u32>,
    pub dist: Option<Seq<u8>>,
    pub tile: Option<u32>,
    pub bins: Option<u32>,
}

/// Why reading the arguments stopped short of running.
#[derive(Clone, Copy, PartialEq, Eq, Structural, Debug)]
pub enum CliStop {
    /// `-h` or `--help`: print the usage and exit successfully.
    Help,
    /// Argument `i` is an option that takes a value, and it is the last argument.
    NeedsValue(usize),
    /// The value of `--size` is not `WxH`.
    BadSize,
    /// Argument `i` starts with `-` but is no known option.
    UnknownOption(usize),
    /// `--mode` names no mode.
    BadMode,
}

pub open spec fn empty_cli() -> CliState {
    CliState {
        path: None,
        bench: false,
        headless: false,
        screenshot: None,
        size: None,
        mode: None,
        frames: None,
        warmup: None,
        dist: None,
        tile: None,
        bins: None,
    }
}

/// Read the arguments from position `i` on.
pub open spec fn cli_run(argv: Seq<Seq<u8>>, i: int, st: CliState) -> Result<CliState, CliStop>
    decreases argv.len() - i,
{
    if i < 0 || i >= argv.len() {
        Ok(st)
    } else {
        let a = argv[i];
        let has_value = i + 1 < argv.len();
        let v = argv[i + 1];
        if a == flag_help_short() || a == flag_help_long() {
            Err(CliStop::Help)
        } else if a == flag_bench() {
            cli_run(argv, i + 1, CliState { bench: true, ..st })
        } else if a == flag_headless() {
            cli_run(argv, i + 1, CliState { headless: true, ..st })
        } else if a == flag_screenshot() || a == flag_size() || a == flag_mode() || a
            == flag_frames() || a == flag_warmup() || a == flag_dist() || a == flag_tile() || a
            == flag_bins() {
            if !has_value {
                Err(CliStop::NeedsValue(i as usize))
            } else if a == flag_screenshot() {
                cli_run(argv, i + 2, CliState { screenshot: Some(v), ..st })
            } else if a == flag_size() {
                match parse_size(v) {
                    None => Err(CliStop::BadSize),
                    Some(wh) => cli_run(argv, i + 2, CliState { size: Some(wh), ..st }),
                }
            } else if a == flag_mode() {
                cli_run(argv, i + 2, CliState { mode: parse_u32(v), ..st })
            } else if a == flag_frames() {
                cli_run(
                    argv,
                    i + 2,
                    CliState {
                        frames: if parse_u32(v) is Some {
                            parse_u32(v)
                        } else {
                            st.frames
                        },
                        ..st
                    },
                )
            } else if a == flag_warmup() {
                cli_run(
                    argv,
                    i + 2,
                    CliState {
                        warmup: if parse_u32(v) is Some {
                            parse_u32(v)
                        } else {
                            st.warmup
                        },
                        ..st
                    },
                )
            } else if a == flag_dist() {
                cli_run(argv, i + 2, CliState { dist: Some(v), ..st })
            } else if a == flag_tile() {
                cli_run(argv, i + 2, CliState { tile: parse_u32(v), ..st })
            } else {
                cli_run(argv, i + 2, CliState { bins: parse_u32(v), ..st })
            }
        } else if a.len() > 0 && a[0] == 45 {
            Err(CliStop::UnknownOption(i as usize))
        } else {
            cli_run(argv, i + 1, CliState { path: Some(a), ..st })
        }
    }
}

} // verus!

verus! {

/// The parsed command line.
#[derive(Debug)]
pub struct CliArgs {
    /// Scene file to load; the built-in mesh scene when absent.
    pub path: Option<Vec<u8>>,
    /// Whether to benchmark instead of running interactively: asked for by `--bench`,
    /// `--headless` or `--screenshot`.
    pub bench: bool,
    /// Render without a window: asked for by `--headless`, implied by `--screenshot`.
    pub headless: bool,
    pub screenshot: Option<Vec<u8>>,
    pub size: Option<(u32, u32)>,
    /// The modes to benchmark: the one `--mode` names, or all of them.
    pub modes: Vec<RenderMode>,
    /// Measured frames per mode, when given as a number.
    pub frames: Option<u32>,
    /// Discarded frames per mode, when given as a number.
    pub warmup: Option<u32>,
    /// Text of the camera distance, for the caller to read as a number.
    pub dist: Option<Vec<u8>>,
    pub tile_size: Option<u32>,
    pub bins: Option<u32>,
}

pub open spec fn opt_bytes(o: Option<Vec<u8>>) -> Option<Seq<u8>> {
    match o {
        Some(v) => Some(v@),
        None => None,
    }
}

pub open spec fn argv_view(argv: Seq<Vec<u8>>) -> Seq<Seq<u8>> {
    argv.map_values(|a: Vec<u8>| a@)
}

/// The modes a run covers: the one `--mode` selected, or all three.
pub open spec fn selected_modes(mode: Option<u32>) -> Seq<RenderMode> {
    match mode {
        Some(m) => if m == 1 {
            seq![RenderMode::AlphaBlend]
        } else if m == 2 {
            seq![RenderMode::NaiveWboit]
        } else {
            seq![RenderMode::HistogramWboit]
        },
        None => seq![RenderMode::AlphaBlend, RenderMode::NaiveWboit, RenderMode::HistogramWboit],
    }
}

/// What the command line `argv` asks for, or why it stops short.
pub open spec fn cli_result(argv: Seq<Seq<u8>>) -> Result<CliState, CliStop> {
    match cli_run(argv, 0, empty_cli()) {
        Err(e) => Err(e),
        Ok(st) => if st.mode matches Some(m) && !(1 <= m <= 3) {
            Err(CliStop::BadMode)
        } else {
            Ok(st)
        },
    }
}

/// `a` holds the options of `st`.
pub open spec fn cli_args_from(st: CliState, a: CliArgs) -> bool {
    &&& opt_bytes(a.path) == st.path
    &&& a.bench == (st.bench || st.headless || st.screenshot is Some)
    &&& a.headless == (st.headless || st.screenshot is Some)
    &&& opt_bytes(a.screenshot) == st.screenshot
    &&& a.size == st.size
    &&& a.modes@ == selected_modes(st.mode)
    &&& a.frames == st.frames
    &&& a.warmup == st.warmup
    &&& opt_bytes(a.dist) == st.dist
    &&& a.tile_size == st.tile
    &&& a.bins == st.bins
}

/// Once `--headless` has been read, the rest of the command line cannot undo it.
pub proof fn lemma_headless_stays(argv: Seq<Seq<u8>>, i: int, st: CliState)
    requires
        st.headless,
    ensures
        cli_run(argv, i, st) matches Ok(fin) ==> fin.headless,
    decreases argv.len() - i,
{
    if 0 <= i < argv.len() {
        let a = argv[i];
        let v = argv[i + 1];
        let takes_value = a == flag_screenshot() || a == flag_size() || a == flag_mode() || a
            == flag_frames() || a == flag_warmup() || a == flag_dist() || a == flag_tile() || a
            == flag_bins();
        if a == flag_help_short() || a == flag_help_long() || (takes_value && i + 1 >= argv.len()) {
        } else if a == flag_bench() {
            lemma_headless_stays(argv, i + 1, CliState { bench: true, ..st });
        } else if a == flag_headless() {
            lemma_headless_stays(argv, i + 1, CliState { headless: true, ..st });
        } else if a == flag_screenshot() {
            lemma_headless_stays(argv, i + 2, CliState { screenshot: Some(v), ..st });
        } else if a == flag_size() {
            match parse_size(v) {
                Some(wh) => lemma_headless_stays(argv, i + 2, CliState { size: Some(wh), ..st }),
                None => {},
            }
        } else if a == flag_mode() {
            lemma_headless_stays(argv, i + 2, CliState { mode: parse_u32(v), ..st });
        } else if a == flag_frames() {
            lemma_headless_stays(
                argv,
                i + 2,
                CliState {
                    frames: if parse_u32(v) is Some {
                        parse_u32(v)
                    } else {
                        st.frames
                    },
                    ..st
                },
            );
        } else if a == flag_warmup() {
            lemma_headless_stays(
                argv,
                i + 2,
                CliState {
                    warmup: if parse_u32(v) is Some {
                        parse_u32(v)
                    } else {
                        st.warmup
                    },
                    ..st
                },
            );
        } else if a == flag_dist() {
            lemma_headless_stays(argv, i + 2, CliState { dist: Some(v), ..st });
        } else if a == flag_tile() {
            lemma_headless_stays(argv, i + 2, CliState { tile: parse_u32(v), ..st });
        } else if a == flag_bins() {
            lemma_headless_stays(argv, i + 2, CliState { bins: parse_u32(v), ..st });
        } else if !(a.len() > 0 && a[0] == 45) {
            lemma_headless_stays(argv, i + 1, CliState { path: Some(a), ..st });
        }
    }
}

/// A command line that starts with `--headless` asks for a windowless benchmark: when it
/// parses, the run is headless and benchmarks.
pub proof fn lemma_headless_asks_for_a_benchmark(argv: Seq<Seq<u8>>, a: CliArgs)
    requires
        argv.len() > 0,
        argv[0] == flag_headless(),
        cli_result(argv) matches Ok(st) && cli_args_from(st, a),
    ensures
        a.headless,
        a.bench,
{
    lemma_headless_stays(argv, 1, CliState { headless: true, ..empty_cli() });
}

/// Read the command-line arguments (without the program name).
pub fn parse_args(argv: &Vec<Vec<u8>>) -> (r: Result<CliArgs, CliStop>)
    ensures
        match r {
            Ok(a) => cli_result(argv_view(argv@)) matches Ok(st) && cli_args_from(st, a),
            Err(e) => cli_result(argv_view(argv@)) == Err::<CliState, CliStop>(e),
        },
        r matches Ok(a) ==> (a.headless ==> a.bench) && (a.screenshot is Some ==> a.headless),
        argv@.len() > 0 && argv@[0]@ == flag_headless() ==> (r matches Ok(a) ==> a.headless
            && a.bench),
{
    proof {
        if argv@.len() > 0 && argv@[0]@ == flag_headless() {
            lemma_headless_stays(argv_view(argv@), 1, CliState { headless: true, ..empty_cli() });
        }
    }
    let ghost av = argv_view(argv@);
    let mut path: Option<Vec<u8>> = None;
    let mut bench = false;
    let mut headless = false;
    let mut screenshot: Option<Vec<u8>> = None;
    let mut size: Option<(u32, u32)> = None;
    let mut mode: Option<u32> = None;
    let mut frames: Option<u32> = None;
    let mut warmup: Option<u32> = None;
    let mut dist: Option<Vec<u8>> = None;
    let mut tile: Option<u32> = None;
    let mut bins: Option<u32> = None;
    let mut i: usize = 0;
    while i < argv.len()
        invariant
            i <= argv@.len(),
            av == argv_view(argv@),
            cli_run(av, 0, empty_cli()) == cli_run(
                av,
                i as int,
                CliState {
                    path: opt_bytes(path),
                    bench,
                    headless,
                    screenshot: opt_bytes(screenshot),
                    size,
                    mode,
                    frames,
                    warmup,
                    dist: opt_bytes(dist),
                    tile,
                    bins,
                },
            ),
        decreases argv.len() - i,
    {
        let a = argv[i].as_slice();
        assert(a@ == av[i as int]);
        if is_flag_help_short(a) || is_flag_help_long(a) {
            return Err(CliStop::Help);
        } else if is_flag_bench(a) {
            bench = true;
            i += 1;
        } else if is_flag_headless(a) {
            headless = true;
            i += 1;
        } else if is_flag_screenshot(a) || is_flag_size(a) || is_flag_mode(a) || is_flag_frames(a)
            || is_flag_warmup(a) || is_flag_dist(a) || is_flag_tile(a) || is_flag_bins(a) {
            if i + 1 >= argv.len() {
                return Err(CliStop::NeedsValue(i));
            }
            let v = argv[i + 1].as_slice();
            assert(v@ == av[i + 1]);
            if is_flag_screenshot(a) {
                screenshot = Some(vstd::slice::slice_to_vec(v));
            } else if is_flag_size(a) {
                match parse_size_word(v) {
                    None => {
                        return Err(CliStop::BadSize);
                    },
                    Some(wh) => {
                        size = Some(wh);
                    },
                }
            } else if is_flag_mode(a) {
                mode = parse_u32_word(v);
            } else if is_flag_frames(a) {
                let p = parse_u32_word(v);
                if p.is_some() {
                    frames = p;
                }
            } else if is_flag_warmup(a) {
                let p = parse_u32_word(v);
                if p.is_some() {
                    warmup = p;
                }
            } else if is_flag_dist(a) {
                dist = Some(vstd::slice::slice_to_vec(v));
            } else if is_flag_tile(a) {
                tile = parse_u32_word(v);
            } else {
                bins = parse_u32_word(v);
            }
            i += 2;
        } else if a.len() > 0 && a[0] == 45 {
            return Err(CliStop::UnknownOption(i));
        } else {
            path = Some(vstd::slice::slice_to_vec(a));
            i += 1;
        }
    }
    let modes = match mode {
        Some(m) => match RenderMode::from_number(m) {
            None => {
                return Err(CliStop::BadMode);
            },
            Some(rm) => {
                let v = vec![rm];
                proof {
                    assert(v@ =~= selected_modes(mode));
                }
                v
            },
        },
        None => RenderMode::all(),
    };
    let shot = screenshot.is_some();
    Ok(
        CliArgs {
            path,
            bench: bench || headless || shot,
            headless: headless || shot,
            screenshot,
            size,
            modes,
            frames,
            warmup,
            dist,
            tile_size: tile,
            bins,
        },
    )
}

} // verus!
