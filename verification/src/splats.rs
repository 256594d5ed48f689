//! CPU-side splat ordering: the back-to-front depth sort on quantized depth keys, the
//! importance permutation applied to per-splat data, and the percentile window used to
//! frame a scene.
use vstd::prelude::*;

verus! {

/// Number of distinct depth keys: depth is quantized to 16 bits.
pub const KEY_BUCKETS: usize = 65536;

/// Number of keys among the first `m` that equal `b`.
pub open spec fn count_eq(keys: Seq<u16>, m: int, b: int) -> nat
    decreases m,
{
    if m <= 0 {
        0
    } else {
        count_eq(keys, m - 1, b) + if keys[m - 1] == b { 1nat } else { 0nat }
    }
}

/// Number of keys among the first `m` that are at least `b`.
pub open spec fn count_ge(keys: Seq<u16>, m: int, b: int) -> nat
    decreases m,
{
    if m <= 0 {
        0
    } else {
        count_ge(keys, m - 1, b) + if keys[m - 1] >= b { 1nat } else { 0nat }
    }
}

/// Position of splat `i` in back-to-front draw order: after every splat with a larger
/// key (farther away), and after the splats with the same key that come before it.
pub open spec fn draw_rank(keys: Seq<u16>, i: int) -> int {
    (count_ge(keys, keys.len() as int, keys[i] + 1) + count_eq(keys, i, keys[i] as int)) as int
}

/// Draw order `out` is a back-to-front ordering of `keys`: every splat index appears
/// exactly at its rank, so farther splats come first and equal depths keep their order.
pub open spec fn is_back_to_front(keys: Seq<u16>, out: Seq<u32>) -> bool {
    &&& out.len() == keys.len()
    &&& forall|i: int| 0 <= i < keys.len() ==> out[#[trigger] draw_rank(keys, i)] == i
    &&& forall|p: int|
        0 <= p < out.len() ==> (#[trigger] out[p]) < keys.len() && draw_rank(keys, out[p] as int)
            == p
}

/// Along a draw order, depth keys never increase, and splats of equal depth keep their
/// relative order from the input.
pub open spec fn far_to_near(keys: Seq<u16>, out: Seq<u32>) -> bool {
    forall|p: int, q: int|
        0 <= p < q < out.len() ==> keys[out[p] as int] > keys[out[q] as int] || (keys[out[p] as int]
            == keys[out[q] as int] && out[p] < out[q])
}

/// A back-to-front order draws farther splats first and is stable among equal depths.
pub proof fn lemma_back_to_front_is_far_to_near(keys: Seq<u16>, out: Seq<u32>)
    requires
        is_back_to_front(keys, out),
    ensures
        far_to_near(keys, out),
{
    assert forall|p: int, q: int| 0 <= p < q < out.len() implies keys[out[p] as int] > keys[out[q] as int]
        || (keys[out[p] as int] == keys[out[q] as int] && out[p] < out[q]) by {
        let i = out[p] as int;
        let j = out[q] as int;
        if !(keys[i] > keys[j] || (keys[i] == keys[j] && i < j)) {
            assert(i != j);
            lemma_rank_order(keys, j, i);
        }
    }
}

/// Every splat index below `keys.len()` appears in a back-to-front order exactly once.
pub proof fn lemma_back_to_front_is_permutation(keys: Seq<u16>, out: Seq<u32>)
    requires
        is_back_to_front(keys, out),
    ensures
        forall|i: int| 0 <= i < keys.len() ==> #[trigger] out.contains(i as u32),
        forall|p: int, q: int| 0 <= p < q < out.len() ==> out[p] != out[q],
{
    assert forall|i: int| 0 <= i < keys.len() implies #[trigger] out.contains(i as u32) by {
        lemma_rank_bounds(keys, i);
        assert(out[draw_rank(keys, i)] == i);
    }
}

proof fn lemma_counts_bounded(keys: Seq<u16>, m: int, b: int)
    requires
        0 <= m <= keys.len(),
    ensures
        count_eq(keys, m, b) <= m,
        count_ge(keys, m, b) <= m,
    decreases m,
{
    if m > 0 {
        lemma_counts_bounded(keys, m - 1, b);
    }
}

proof fn lemma_ge_split(keys: Seq<u16>, m: int, b: int)
    requires
        0 <= m <= keys.len(),
    ensures
        count_ge(keys, m, b) == count_eq(keys, m, b) + count_ge(keys, m, b + 1),
    decreases m,
{
    if m > 0 {
        lemma_ge_split(keys, m - 1, b);
    }
}

proof fn lemma_ge_extremes(keys: Seq<u16>, m: int)
    requires
        0 <= m <= keys.len(),
    ensures
        count_ge(keys, m, 0) == m,
        count_ge(keys, m, KEY_BUCKETS as int) == 0,
    decreases m,
{
    if m > 0 {
        lemma_ge_extremes(keys, m - 1);
    }
}

proof fn lemma_ge_monotone(keys: Seq<u16>, m: int, b1: int, b2: int)
    requires
        0 <= m <= keys.len(),
        b1 <= b2,
    ensures
        count_ge(keys, m, b2) <= count_ge(keys, m, b1),
    decreases m,
{
    if m > 0 {
        lemma_ge_monotone(keys, m - 1, b1, b2);
    }
}

/// A key at position `j` below `m` is counted: the prefix up to `j` misses it.
proof fn lemma_eq_strict(keys: Seq<u16>, j: int, m: int)
    requires
        0 <= j < m <= keys.len(),
    ensures
        count_eq(keys, j, keys[j] as int) < count_eq(keys, m, keys[j] as int),
    decreases m - j,
{
    if m > j + 1 {
        lemma_eq_strict(keys, j, m - 1);
    }
}

/// Every rank lies in `[0, n)`, below the count of keys at least as far as its own.
proof fn lemma_rank_bounds(keys: Seq<u16>, i: int)
    requires
        0 <= i < keys.len(),
    ensures
        0 <= draw_rank(keys, i) < count_ge(keys, keys.len() as int, keys[i] as int),
        count_ge(keys, keys.len() as int, keys[i] as int) <= keys.len(),
{
    let n = keys.len() as int;
    lemma_eq_strict(keys, i, n);
    lemma_ge_split(keys, n, keys[i] as int);
    lemma_counts_bounded(keys, n, keys[i] as int);
}

/// Ranks follow the draw order: a smaller rank means farther, or as far and earlier.
proof fn lemma_rank_order(keys: Seq<u16>, i: int, j: int)
    requires
        0 <= i < keys.len(),
        0 <= j < keys.len(),
        keys[i] > keys[j] || (keys[i] == keys[j] && i < j),
    ensures
        draw_rank(keys, i) < draw_rank(keys, j),
{
    let n = keys.len() as int;
    lemma_rank_bounds(keys, i);
    if keys[i] == keys[j] {
        lemma_eq_strict(keys, i, j);
    } else {
        lemma_ge_monotone(keys, n, keys[j] + 1, keys[i] as int);
    }
}

/// The ranks of the splats are exactly the positions `0..n`.
proof fn lemma_ranks_onto(keys: Seq<u16>, p: int)
    requires
        0 <= p < keys.len(),
    ensures
        exists|i: int| 0 <= i < keys.len() && #[trigger] draw_rank(keys, i) == p,
{
    let n = keys.len() as int;
    let dom = vstd::set_lib::set_int_range(0, n);
    let f = |i: int| draw_rank(keys, i);
    let img = dom.map(f);
    vstd::set_lib::lemma_int_range(0, n);
    assert(vstd::relations::injective_on(f, dom)) by {
        assert forall|a: int, b: int| dom.contains(a) && dom.contains(b) && #[trigger] f(a) == #[trigger] f(b) implies a == b by {
            if a != b {
                if keys[a] > keys[b] || (keys[a] == keys[b] && a < b) {
                    lemma_rank_order(keys, a, b);
                } else {
                    lemma_rank_order(keys, b, a);
                }
            }
        }
    }
    vstd::set_lib::lemma_map_size(dom, img, f);
    assert(img.subset_of(dom)) by {
        assert forall|x: int| img.contains(x) implies dom.contains(x) by {
            let i = choose|i: int| dom.contains(i) && f(i) == x;
            lemma_rank_bounds(keys, i);
        }
    }
    vstd::set_lib::lemma_subset_equality(img, dom);
    assert(dom.contains(p));
    assert(img.contains(p));
    let w = choose|i: int| dom.contains(i) && f(i) == p;
    assert(draw_rank(keys, w) == p);
}

/// Back-to-front counting sort on 16-bit depth keys (larger key = farther away).
///
/// `counts` is scratch space of at least one slot per key; on return slot `b` holds the
/// number of keys at least `b`, and any slot past the keys holds 0. `out` receives the
/// draw order: splat indices, farthest first, with equal keys kept in index order. One
/// pass over the keys, no comparisons.
pub fn counting_sort(keys: &[u16], counts: &mut Vec<u32>, out: &mut Vec<u32>)
    requires
        old(counts).len() >= KEY_BUCKETS,
        keys.len() <= u32::MAX,
    ensures
        is_back_to_front(keys@, final(out)@),
        far_to_near(keys@, final(out)@),
        final(counts).len() == old(counts).len(),
        forall|b: int| KEY_BUCKETS <= b < final(counts).len() ==> #[trigger] final(counts)@[b] == 0,
        forall|b: int|
            0 <= b < KEY_BUCKETS ==> #[trigger] final(counts)@[b] == count_ge(
                keys@,
                keys@.len() as int,
                b,
            ),
{
    let n = keys.len();
    let len0 = counts.len();
    let ghost ks = keys@;
    out.clear();
    out.resize(n, 0u32);

    // Histogram of the keys.
    let mut b: usize = 0;
    while b < len0
        invariant
            b <= len0,
            counts.len() == len0,
            forall|x: int| 0 <= x < b ==> #[trigger] counts@[x] == 0,
        decreases len0 - b,
    {
        counts.set(b, 0);
        b += 1;
    }
    let mut i: usize = 0;
    while i < n
        invariant
            i <= n,
            n == ks.len(),
            ks == keys@,
            n <= u32::MAX,
            counts.len() == len0,
            len0 >= KEY_BUCKETS,
            forall|x: int| KEY_BUCKETS <= x < len0 ==> #[trigger] counts@[x] == 0,
            forall|x: int| 0 <= x < KEY_BUCKETS ==> #[trigger] counts@[x] == count_eq(ks, i as int, x),
        decreases n - i,
    {
        let k = keys[i] as usize;
        proof {
            lemma_counts_bounded(ks, i as int, k as int);
        }
        let c = counts[k];
        counts.set(k, c + 1);
        i += 1;
    }

    // Prefix sum from the far end down, so the largest key lands first.
    let mut running: u32 = 0;
    let mut b: usize = KEY_BUCKETS;
    proof {
        lemma_ge_extremes(ks, n as int);
    }
    while b > 0
        invariant
            b <= KEY_BUCKETS,
            n == ks.len(),
            n <= u32::MAX,
            counts.len() == len0,
            len0 >= KEY_BUCKETS,
            forall|x: int| KEY_BUCKETS <= x < len0 ==> #[trigger] counts@[x] == 0,
            running == count_ge(ks, n as int, b as int),
            forall|x: int| 0 <= x < b ==> #[trigger] counts@[x] == count_eq(ks, n as int, x),
            forall|x: int|
                b <= x < KEY_BUCKETS ==> #[trigger] counts@[x] == count_ge(ks, n as int, x + 1),
        decreases b,
    {
        b -= 1;
        let c = counts[b];
        proof {
            lemma_ge_split(ks, n as int, b as int);
            lemma_counts_bounded(ks, n as int, b as int);
        }
        counts.set(b, running);
        running = running + c;
    }

    // Scatter: each splat goes to the next free slot of its key.
    let mut i: usize = 0;
    while i < n
        invariant
            i <= n,
            n == ks.len(),
            ks == keys@,
            n <= u32::MAX,
            out.len() == n,
            counts.len() == len0,
            len0 >= KEY_BUCKETS,
            forall|x: int| KEY_BUCKETS <= x < len0 ==> #[trigger] counts@[x] == 0,
            forall|x: int|
                0 <= x < KEY_BUCKETS ==> #[trigger] counts@[x] == count_ge(ks, n as int, x + 1)
                    + count_eq(ks, i as int, x),
            forall|j: int| 0 <= j < i ==> out@[#[trigger] draw_rank(ks, j)] == j,
        decreases n - i,
    {
        let k = keys[i] as usize;
        let slot = counts[k];
        proof {
            lemma_rank_bounds(ks, i as int);
            assert(slot == draw_rank(ks, i as int));
            assert forall|j: int| 0 <= j < i implies draw_rank(ks, j) != draw_rank(ks, i as int)
                && 0 <= draw_rank(ks, j) < n by {
                lemma_rank_bounds(ks, j);
                if ks[j] > ks[i as int] || (ks[j] == ks[i as int] && j < i) {
                    lemma_rank_order(ks, j, i as int);
                } else {
                    lemma_rank_order(ks, i as int, j);
                }
            }
        }
        out.set(slot as usize, i as u32);
        counts.set(k, slot + 1);
        i += 1;
    }
    proof {
        assert forall|p: int| 0 <= p < out@.len() implies (#[trigger] out@[p]) < ks.len()
            && draw_rank(ks, out@[p] as int) == p by {
            lemma_ranks_onto(ks, p);
            let w = choose|w: int| 0 <= w < ks.len() && #[trigger] draw_rank(ks, w) == p;
            assert(out@[draw_rank(ks, w)] == w);
        }
        assert forall|x: int| 0 <= x < KEY_BUCKETS implies #[trigger] counts@[x] == count_ge(
            ks,
            n as int,
            x,
        ) by {
            lemma_ge_split(ks, n as int, x);
        }
        lemma_back_to_front_is_far_to_near(ks, out@);
    }
}


/// The request the sorting thread serves: only the newest camera matters, so of the
/// request it woke up for and those queued behind it, the last one.
pub fn newest_request<T>(first: T, queued: Vec<T>) -> (r: T)
    ensures
        r == if queued@.len() == 0 {
            first
        } else {
            queued@.last()
        },
{
    let mut queued = queued;
    match queued.pop() {
        Some(last) => last,
        None => first,
    }
}

/// Splats that take part in a depth sort: the first `count`, or all of them.
pub fn sort_participants(count: usize, total: usize) -> (r: usize)
    ensures
        r == if count < total {
            count
        } else {
            total
        },
{
    if count < total {
        count
    } else {
        total
    }
}

/// `0, 1, ..., n - 1`: the draw order before any sort has reported in.
pub fn identity_order(n: u32) -> (r: Vec<u32>)
    ensures
        r@.len() == n,
        forall|i: int| 0 <= i < n ==> #[trigger] r@[i] == i,
{
    let mut r: Vec<u32> = Vec::new();
    let mut i: u32 = 0;
    while i < n
        invariant
            i <= n,
            r@.len() == i,
            forall|j: int| 0 <= j < i ==> #[trigger] r@[j] == j,
        decreases n - i,
    {
        r.push(i);
        i += 1;
    }
    r
}

/// Reorder per-splat data: entry `i` of the result is `src[order[i]]`.
pub fn permute<T: Copy>(src: &[T], order: &[u32]) -> (r: Vec<T>)
    requires
        forall|i: int| 0 <= i < order.len() ==> (#[trigger] order@[i]) < src.len(),
    ensures
        r@.len() == order.len(),
        forall|i: int| 0 <= i < order.len() ==> #[trigger] r@[i] == src@[order@[i] as int],
{
    let mut r: Vec<T> = Vec::new();
    let mut i: usize = 0;
    while i < order.len()
        invariant
            i <= order.len(),
            r@.len() == i,
            forall|j: int| 0 <= j < order.len() ==> (#[trigger] order@[j]) < src.len(),
            forall|j: int| 0 <= j < i ==> #[trigger] r@[j] == src@[order@[j] as int],
        decreases order.len() - i,
    {
        r.push(src[order[i] as usize]);
        i += 1;
    }
    r
}

/// Reorder fixed-size blocks of per-splat data: block `d` of the result (entries
/// `d * width .. (d + 1) * width`) is block `order[d]` of `src`.
pub fn permute_blocks<T: Copy>(src: &[T], order: &[u32], width: usize) -> (r: Vec<T>)
    requires
        forall|i: int| 0 <= i < order.len() ==> ((#[trigger] order@[i]) + 1) * width <= src.len(),
        order.len() * width <= usize::MAX,
    ensures
        r@.len() == order.len() * width,
        forall|d: int, k: int|
            0 <= d < order.len() && 0 <= k < width ==> #[trigger] r@[d * width + k] == src@[order@[d]
                * width + k],
{
    let mut r: Vec<T> = Vec::new();
    let mut d: usize = 0;
    while d < order.len()
        invariant
            d <= order.len(),
            order.len() * width <= usize::MAX,
            r@.len() == d * width,
            forall|i: int| 0 <= i < order.len() ==> ((#[trigger] order@[i]) + 1) * width <= src.len(),
            forall|e: int, k: int|
                0 <= e < d && 0 <= k < width ==> #[trigger] r@[e * width + k] == src@[order@[e] * width
                    + k],
        decreases order.len() - d,
    {
        let s = order[d] as usize;
        proof {
            assert((s + 1) * width <= src.len());
            assert(s * width + width == (s + 1) * width) by (nonlinear_arith);
            assert(d * width + width <= order.len() * width) by (nonlinear_arith)
                requires
                    d < order.len(),
            ;
            assert(d * width + width == (d + 1) * width) by (nonlinear_arith);
        }
        let base = s * width;
        let mut k: usize = 0;
        while k < width
            invariant
                k <= width,
                base == s * width,
                base + width <= src.len(),
                d < order.len(),
                s == order@[d as int],
                r@.len() == d * width + k,
                d * width + width <= usize::MAX,
                forall|e: int, j: int|
                    0 <= e < d && 0 <= j < width ==> #[trigger] r@[e * width + j] == src@[order@[e]
                        * width + j],
                forall|j: int| 0 <= j < k ==> #[trigger] r@[d * width + j] == src@[base + j],
            decreases width - k,
        {
            let ghost before = r@;
            r.push(src[base + k]);
            proof {
                assert forall|e: int, j: int|
                    0 <= e < d && 0 <= j < width implies #[trigger] r@[e * width + j]
                    == src@[order@[e] * width + j] by {
                    assert(e * width + j < d * width) by (nonlinear_arith)
                        requires
                            e < d,
                            j < width,
                    ;
                    assert(r@[e * width + j] == before[e * width + j]);
                }
            }
            k += 1;
        }
        d += 1;
    }
    r
}

/// Sorted positions bounding the middle 96% of `n` values along one axis: the 2nd and
/// 98th percentiles used to frame a scene without its outlier haze.
pub fn percentile_window(n: usize) -> (r: (usize, usize))
    requires
        n > 0,
    ensures
        r.0 == n / 50,
        r.1 == n - 1 - n / 50,
        r.0 <= r.1 < n,
{
    let k = n / 50;
    (k, n - 1 - k)
}

/// Whether a depth sort may be started, and whether one is already running.
///
/// At most one request is in flight: a new one is only sent once the previous result
/// has been picked up, so the sorting thread's queue cannot grow without bound.
#[derive(Debug)]
pub struct SortGate {
    pub pending: bool,
    pub alive: bool,
}

/// What polling the sorting thread found.
#[derive(Clone, Copy, PartialEq, Eq, Structural, Debug)]
pub enum PollOutcome {
    /// A finished order was waiting.
    Ready,
    /// Nothing yet.
    Empty,
    /// The sorting thread is gone.
    Disconnected,
}

impl SortGate {
    /// A gate with nothing in flight and the sorting thread alive.
    pub fn new() -> (g: SortGate)
        ensures
            !g.pending,
            g.alive,
    {
        SortGate { pending: false, alive: true }
    }

    /// Whether to ask for a new order of the first `count` splats.
    pub fn should_request(&self, count: usize) -> (r: bool)
        ensures
            r == (!self.pending && self.alive && count != 0),
    {
        !self.pending && self.alive && count != 0
    }

    /// Record whether the request reached the sorting thread.
    pub fn request_sent(&mut self, delivered: bool)
        ensures
            delivered ==> final(self).pending && final(self).alive == old(self).alive,
            !delivered ==> !final(self).alive && final(self).pending == old(self).pending,
    {
        if delivered {
            self.pending = true;
        } else {
            self.alive = false;
        }
    }

    /// Record what a poll found; returns whether a finished order was handed over.
    pub fn polled(&mut self, outcome: PollOutcome) -> (r: bool)
        ensures
            r == (outcome == PollOutcome::Ready),
            outcome == PollOutcome::Ready ==> !final(self).pending && final(self).alive
                == old(self).alive,
            outcome == PollOutcome::Empty ==> final(self).pending == old(self).pending
                && final(self).alive == old(self).alive,
            outcome == PollOutcome::Disconnected ==> !final(self).pending && !final(self).alive,
    {
        match outcome {
            PollOutcome::Ready => {
                self.pending = false;
                true
            },
            PollOutcome::Empty => false,
            PollOutcome::Disconnected => {
                self.alive = false;
                self.pending = false;
                false
            },
        }
    }
}

/// While a request is in flight no other is sent: a new one waits until a poll has
/// handed over the result or found the sorting thread gone.
pub proof fn lemma_one_request_in_flight(g: SortGate, count: usize)
    requires
        g.pending,
    ensures
        !(!g.pending && g.alive && count != 0),
{
}

} // verus!
