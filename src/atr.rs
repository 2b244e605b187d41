use vstd::prelude::*;
use vstd::seq_lib::seq_to_set_is_finite;
use vstd::set_lib::lemma_len_subset;
use crate::fixed::SCALE;
use crate::buffer::{
    BufferNode, SymbolBuffer, buffer_at, buffer_contents, buffer_len, latest_ts, walk_halts, walk_len,
    walk_len_from, walk_length,
};
use vstd::arithmetic::div_mod::{
    lemma_div_is_ordered, lemma_div_is_ordered_by_denominator, lemma_div_multiples_vanish,
    lemma_div_multiples_vanish_fancy, lemma_div_pos_is_pos, lemma_fundamental_div_mod,
};

verus! {

/// Per-second OHLC rows, oldest first; the three vectors run in parallel.
#[derive(Debug)]
pub struct ATRInputData {
    pub lows: Vec<u64>,
    pub highs: Vec<u64>,
    pub closes: Vec<u64>,
}

/// Why an analysis could not run.
#[derive(Clone, Copy, Debug, PartialEq, Eq, Structural)]
pub enum AtrError {
    /// The window asked for is longer than the minute the ring covers.
    WindowTooLarge,
}

/// Longest window, in seconds, that the analytics accept.
pub const MAX_WINDOW_SECONDS: usize = 60;

/// Second of the minute of a millisecond timestamp.
pub open spec fn second_of(ts: int) -> int {
    (ts / 1000) % 60
}

/// The first `m` snapshots that a walk from the back meets, newest first.
pub open spec fn newest_first(s: Seq<BufferNode>, m: int) -> Seq<BufferNode> {
    Seq::new(m as nat, |j: int| s[s.len() - 1 - j])
}

/// The snapshots that the reconstruction over `secs` seconds takes in, newest first.
pub open spec fn window_of(s: Seq<BufferNode>, secs: int) -> Seq<BufferNode> {
    newest_first(s, walk_len(s, secs))
}

/// Second keys in the order the walk opens them: a key is added whenever it
/// differs from the last one added.
pub open spec fn run_keys(w: Seq<BufferNode>) -> Seq<int>
    decreases w.len(),
{
    if w.len() == 0 {
        Seq::empty()
    } else {
        let ks = run_keys(w.drop_last());
        let k = second_of(w.last().ts as int);
        if ks.len() == 0 || ks.last() != k {
            ks.push(k)
        } else {
            ks
        }
    }
}

/// Close of the first snapshot met with second `k`.
pub open spec fn first_close(w: Seq<BufferNode>, k: int) -> Option<u64>
    decreases w.len(),
{
    if w.len() == 0 {
        None
    } else {
        match first_close(w.drop_last(), k) {
            Some(c) => Some(c),
            None => if second_of(w.last().ts as int) == k {
                Some(w.last().close_price)
            } else {
                None
            },
        }
    }
}

/// Greatest close among the snapshots with second `k`.
pub open spec fn high_close(w: Seq<BufferNode>, k: int) -> Option<u64>
    decreases w.len(),
{
    if w.len() == 0 {
        None
    } else {
        let prev = high_close(w.drop_last(), k);
        let c = w.last().close_price;
        if second_of(w.last().ts as int) != k {
            prev
        } else {
            match prev {
                Some(h) => Some(if c > h { c } else { h }),
                None => Some(c),
            }
        }
    }
}

/// Least close among the snapshots with second `k`.
pub open spec fn low_close(w: Seq<BufferNode>, k: int) -> Option<u64>
    decreases w.len(),
{
    if w.len() == 0 {
        None
    } else {
        let prev = low_close(w.drop_last(), k);
        let c = w.last().close_price;
        if second_of(w.last().ts as int) != k {
            prev
        } else {
            match prev {
                Some(m) => Some(if c < m { c } else { m }),
                None => Some(c),
            }
        }
    }
}

/// Row keys of the reconstruction, oldest first.
pub open spec fn row_keys(s: Seq<BufferNode>, secs: int) -> Seq<int> {
    run_keys(window_of(s, secs)).reverse()
}

/// What the reconstruction over `secs` seconds yields, as (closes, highs, lows).
pub open spec fn ohlc_rows(s: Seq<BufferNode>, secs: int) -> (Seq<u64>, Seq<u64>, Seq<u64>) {
    let w = window_of(s, secs);
    let keys = row_keys(s, secs);
    (
        Seq::new(keys.len(), |i: int| first_close(w, keys[i]).unwrap()),
        Seq::new(keys.len(), |i: int| high_close(w, keys[i]).unwrap()),
        Seq::new(keys.len(), |i: int| low_close(w, keys[i]).unwrap()),
    )
}

/// The rows that `data` holds are those of `ohlc_rows(s, secs)`.
pub open spec fn rows_match(data: ATRInputData, s: Seq<BufferNode>, secs: int) -> bool {
    &&& data.closes@ == ohlc_rows(s, secs).0
    &&& data.highs@ == ohlc_rows(s, secs).1
    &&& data.lows@ == ohlc_rows(s, secs).2
}

fn second_of_minute(ts: i64) -> (r: usize)
    ensures
        r == second_of(ts as int),
        r < 60,
{
    let secs = match ts.checked_div_euclid(1000) {
        Some(v) => v,
        None => 0,
    };
    match secs.checked_rem_euclid(60) {
        Some(v) => v as usize,
        None => 0,
    }
}

proof fn lemma_run_keys_in_range(w: Seq<BufferNode>)
    ensures
        forall|t: int| 0 <= t < run_keys(w).len() ==> 0 <= #[trigger] run_keys(w)[t] < 60,
        forall|t: int| 0 <= t < run_keys(w).len() ==> first_close(w, #[trigger] run_keys(w)[t]).is_some(),
    decreases w.len(),
{
    if w.len() > 0 {
        lemma_run_keys_in_range(w.drop_last());
    }
}

proof fn lemma_aggregates_together(w: Seq<BufferNode>, k: int)
    ensures
        first_close(w, k).is_some() == high_close(w, k).is_some(),
        first_close(w, k).is_some() == low_close(w, k).is_some(),
    decreases w.len(),
{
    if w.len() > 0 {
        lemma_aggregates_together(w.drop_last(), k);
    }
}

/// Collapses the back of the ring into one OHLC row per run of snapshots that
/// share a second of the minute, oldest row first, over a window of `seconds`
/// seconds. Fails with `WindowTooLarge` above a minute. The ring is left as it was.
pub fn get_atr_data(buffer: &mut SymbolBuffer, seconds: usize) -> (r: Result<ATRInputData, AtrError>)
    ensures
        *final(buffer) == *old(buffer),
        seconds > MAX_WINDOW_SECONDS <==> r is Err,
        r is Err ==> r == Err::<ATRInputData, AtrError>(AtrError::WindowTooLarge),
        r is Ok ==> rows_match(r->Ok_0, buffer_contents(*old(buffer)), seconds as int),
{
    if seconds > MAX_WINDOW_SECONDS {
        return Err(AtrError::WindowTooLarge);
    }
    let ghost s = buffer_contents(*buffer);
    let n = buffer_len(buffer);
    let m = walk_length(buffer, seconds);
    let ghost w = window_of(s, seconds as int);
    let mut seen: Vec<bool> = Vec::new();
    let mut closes_map: Vec<u64> = Vec::new();
    let mut highs_map: Vec<u64> = Vec::new();
    let mut lows_map: Vec<u64> = Vec::new();
    let mut k: usize = 0;
    while k < 60
        invariant
            k <= 60,
            seen@.len() == k,
            closes_map@.len() == k,
            highs_map@.len() == k,
            lows_map@.len() == k,
            forall|x: int| 0 <= x < k ==> !seen@[x],
        decreases 60 - k,
    {
        seen.push(false);
        closes_map.push(0);
        highs_map.push(0);
        lows_map.push(0);
        k += 1;
    }
    let mut key_order: Vec<usize> = Vec::new();
    let mut j: usize = 0;
    while j < m
        invariant
            n == s.len(),
            s == buffer_contents(*buffer),
            m == walk_len(s, seconds as int),
            m <= n,
            w == newest_first(s, m as int),
            j <= m,
            seen@.len() == 60,
            closes_map@.len() == 60,
            highs_map@.len() == 60,
            lows_map@.len() == 60,
            key_order@.len() == run_keys(w.take(j as int)).len(),
            forall|t: int| 0 <= t < key_order@.len() ==> key_order@[t] == run_keys(w.take(j as int))[t],
            forall|x: int|
                0 <= x < 60 ==> {
                    &&& seen@[x] == first_close(w.take(j as int), x).is_some()
                    &&& seen@[x] ==> Some(closes_map@[x]) == first_close(w.take(j as int), x)
                    &&& seen@[x] ==> Some(highs_map@[x]) == high_close(w.take(j as int), x)
                    &&& seen@[x] ==> Some(lows_map@[x]) == low_close(w.take(j as int), x)
                },
        decreases m - j,
    {
        let node = buffer_at(buffer, n - 1 - j);
        let sec = second_of_minute(node.ts);
        let ghost wj = w.take(j as int);
        let ghost wj1 = w.take(j as int + 1);
        assert(wj1.drop_last() =~= wj);
        assert(wj1.last() == node);
        proof {
            assert forall|x: int| 0 <= x < 60 implies seen@[x] == high_close(wj, x).is_some()
                && seen@[x] == low_close(wj, x).is_some() by {
                lemma_aggregates_together(wj, x);
            }
        }
        if key_order.len() == 0 || key_order[key_order.len() - 1] != sec {
            key_order.push(sec);
        }
        let c = node.close_price;
        if !seen[sec] {
            seen.set(sec, true);
            closes_map.set(sec, c);
            highs_map.set(sec, c);
            lows_map.set(sec, c);
        } else {
            if c > highs_map[sec] {
                highs_map.set(sec, c);
            }
            if c < lows_map[sec] {
                lows_map.set(sec, c);
            }
        }
        assert(key_order@.len() == run_keys(wj1).len());
        assert(forall|u: int| 0 <= u < key_order@.len() ==> key_order@[u] == run_keys(wj1)[u]);
        j += 1;
    }
    assert(w.take(m as int) =~= w);
    proof {
        lemma_run_keys_in_range(w);
    }
    let ghost keys = run_keys(w);
    let mut lows: Vec<u64> = Vec::new();
    let mut highs: Vec<u64> = Vec::new();
    let mut closes: Vec<u64> = Vec::new();
    let total = key_order.len();
    let mut t: usize = 0;
    while t < total
        invariant
            total == keys.len(),
            key_order@.len() == keys.len(),
            forall|u: int| 0 <= u < keys.len() ==> key_order@[u] == keys[u],
            keys == run_keys(w),
            t <= total,
            seen@.len() == 60,
            closes_map@.len() == 60,
            highs_map@.len() == 60,
            lows_map@.len() == 60,
            forall|x: int|
                0 <= x < 60 ==> {
                    &&& seen@[x] == first_close(w, x).is_some()
                    &&& seen@[x] ==> Some(closes_map@[x]) == first_close(w, x)
                    &&& seen@[x] ==> Some(highs_map@[x]) == high_close(w, x)
                    &&& seen@[x] ==> Some(lows_map@[x]) == low_close(w, x)
                },
            forall|u: int| 0 <= u < keys.len() ==> 0 <= #[trigger] keys[u] < 60,
            forall|u: int| 0 <= u < keys.len() ==> first_close(w, #[trigger] keys[u]).is_some(),
            closes@.len() == t,
            highs@.len() == t,
            lows@.len() == t,
            forall|i: int| 0 <= i < t ==> closes@[i] == first_close(w, keys.reverse()[i]).unwrap(),
            forall|i: int| 0 <= i < t ==> highs@[i] == high_close(w, keys.reverse()[i]).unwrap(),
            forall|i: int| 0 <= i < t ==> lows@[i] == low_close(w, keys.reverse()[i]).unwrap(),
        decreases total - t,
    {
        let key = key_order[total - 1 - t];
        assert(keys.reverse()[t as int] == keys[total - 1 - t]);
        closes.push(closes_map[key]);
        highs.push(highs_map[key]);
        lows.push(lows_map[key]);
        t += 1;
    }
    let result = ATRInputData { lows, highs, closes };
    assert(result.closes@ =~= ohlc_rows(s, seconds as int).0);
    assert(result.highs@ =~= ohlc_rows(s, seconds as int).1);
    assert(result.lows@ =~= ohlc_rows(s, seconds as int).2);
    Ok(result)
}

pub open spec fn abs_diff(a: int, b: int) -> int {
    if a >= b {
        a - b
    } else {
        b - a
    }
}

pub open spec fn max_int(a: int, b: int) -> int {
    if a >= b {
        a
    } else {
        b
    }
}

/// True range at index `i`: zero for the first row, else the greatest of the
/// row's span and its distances to the previous close.
pub open spec fn tr_at(h: Seq<u64>, l: Seq<u64>, c: Seq<u64>, i: int) -> int {
    if i == 0 {
        0
    } else {
        max_int(h[i] - l[i], max_int(abs_diff(h[i] as int, c[i - 1] as int), abs_diff(l[i] as int, c[i - 1] as int)))
    }
}

/// The true range series, one entry per close.
pub open spec fn tr_seq(h: Seq<u64>, l: Seq<u64>, c: Seq<u64>) -> Seq<u64> {
    Seq::new(c.len(), |i: int| tr_at(h, l, c, i) as u64)
}

/// Sum of the first `k` entries.
pub open spec fn sum_prefix(s: Seq<u64>, k: int) -> int
    decreases k,
{
    if k <= 0 {
        0
    } else {
        sum_prefix(s, k - 1) + s[k - 1]
    }
}

/// One EMA update with smoothing factor `2 / (p + 1)`, rounded toward `prev`.
pub open spec fn ema_step(prev: int, x: int, p: int) -> int {
    if x >= prev {
        prev + (x - prev) * 2 / (p + 1)
    } else {
        prev - (prev - x) * 2 / (p + 1)
    }
}

/// EMA of period `p` at index `i >= p - 1`: the mean of the first `p` entries at
/// `p - 1`, then one update per entry.
pub open spec fn ema_at(s: Seq<u64>, p: int, i: int) -> int
    decreases i,
{
    if i <= 0 || i <= p - 1 {
        sum_prefix(s, p) / p
    } else {
        ema_step(ema_at(s, p, i - 1), s[i] as int, p)
    }
}

/// Wilder smoothing: `(prev * (p - 1) + x) / p`.
pub open spec fn wilder_step(prev: int, x: int, p: int) -> int {
    (prev * (p - 1) + x) / p
}

/// ATR over the true range `tr` from index `p` on: seeded by the EMA, then
/// Wilder-smoothed.
pub open spec fn atr_at(tr: Seq<u64>, p: int, i: int) -> int
    decreases i,
{
    if i <= 0 || i <= p {
        ema_at(tr, p, p)
    } else {
        wilder_step(atr_at(tr, p, i - 1), tr[i] as int, p)
    }
}

/// Entry `i` of `atr_ema(h, l, c, p)`.
pub open spec fn atr_ema_at(h: Seq<u64>, l: Seq<u64>, c: Seq<u64>, p: int, i: int) -> int {
    if p < 1 {
        0
    } else if p == 1 {
        tr_at(h, l, c, i)
    } else if p >= c.len() || i < p {
        0
    } else {
        atr_at(tr_seq(h, l, c), p, i)
    }
}

pub open spec fn u64_max() -> int {
    0xffff_ffff_ffff_ffff
}

proof fn lemma_tr_bound(h: Seq<u64>, l: Seq<u64>, c: Seq<u64>, i: int)
    requires
        0 < i < c.len(),
        h.len() >= c.len(),
        l.len() >= c.len(),
    ensures
        0 <= tr_at(h, l, c, i) <= u64_max(),
{
}

/// Every entry of `s` lies in `[0, m]`.
pub open spec fn bounded_by(s: Seq<u64>, m: int) -> bool {
    forall|i: int| 0 <= i < s.len() ==> s[i] <= m
}

proof fn lemma_sum_prefix_bound(s: Seq<u64>, k: int, m: int)
    requires
        0 <= k <= s.len(),
        bounded_by(s, m),
    ensures
        0 <= sum_prefix(s, k) <= k * m,
    decreases k,
{
    if k > 0 {
        lemma_sum_prefix_bound(s, k - 1, m);
        assert(s[k - 1] <= m);
        assert((k - 1) * m + m == k * m) by (nonlinear_arith);
        assert(sum_prefix(s, k) == sum_prefix(s, k - 1) + s[k - 1]);
    } else {
        assert(k * m == 0) by (nonlinear_arith)
            requires
                k == 0,
        ;
    }
}

proof fn lemma_mean_bound(sum: int, p: int, m: int)
    requires
        0 <= sum <= p * m,
        p >= 1,
    ensures
        0 <= sum / p <= m,
{
    lemma_div_pos_is_pos(sum, p);
    lemma_div_is_ordered(sum, p * m, p);
    lemma_div_multiples_vanish(m, p);
}

proof fn lemma_scaled_gap(d: int, p: int)
    requires
        d >= 0,
        p >= 1,
    ensures
        0 <= d * 2 / (p + 1) <= d,
{
    lemma_div_pos_is_pos(d * 2, p + 1);
    lemma_div_is_ordered_by_denominator(d * 2, 2, p + 1);
    lemma_div_multiples_vanish(d, 2);
}

proof fn lemma_ema_step_between(prev: int, x: int, p: int)
    requires
        p >= 1,
    ensures
        x >= prev ==> prev <= ema_step(prev, x, p) <= x,
        x < prev ==> x <= ema_step(prev, x, p) <= prev,
{
    if x >= prev {
        lemma_scaled_gap(x - prev, p);
    } else {
        lemma_scaled_gap(prev - x, p);
    }
}

proof fn lemma_ema_bound(s: Seq<u64>, p: int, i: int, m: int)
    requires
        1 <= p <= s.len(),
        i < s.len(),
        bounded_by(s, m),
    ensures
        0 <= ema_at(s, p, i) <= m,
    decreases i,
{
    if i <= 0 || i <= p - 1 {
        lemma_sum_prefix_bound(s, p, m);
        lemma_mean_bound(sum_prefix(s, p), p, m);
    } else {
        lemma_ema_bound(s, p, i - 1, m);
        lemma_ema_step_between(ema_at(s, p, i - 1), s[i] as int, p);
    }
}

proof fn lemma_wilder_bound(prev: int, x: int, p: int, m: int)
    requires
        0 <= prev <= m,
        0 <= x <= m,
        1 <= p,
    ensures
        0 <= prev * (p - 1) + x <= m * p,
        0 <= wilder_step(prev, x, p) <= m,
{
    assert(0 <= prev * (p - 1) <= m * (p - 1)) by (nonlinear_arith)
        requires
            0 <= prev <= m,
            1 <= p,
    ;
    assert(m * (p - 1) + m == m * p) by (nonlinear_arith);
    lemma_div_pos_is_pos(prev * (p - 1) + x, p);
    lemma_div_is_ordered(prev * (p - 1) + x, m * p, p);
    assert(m * p == p * m) by (nonlinear_arith);
    lemma_div_multiples_vanish(m, p);
}

proof fn lemma_atr_bound(tr: Seq<u64>, p: int, i: int, m: int)
    requires
        1 <= p < tr.len(),
        i < tr.len(),
        bounded_by(tr, m),
    ensures
        0 <= atr_at(tr, p, i) <= m,
    decreases i,
{
    if i <= 0 || i <= p {
        lemma_ema_bound(tr, p, p, m);
    } else {
        lemma_atr_bound(tr, p, i - 1, m);
        lemma_wilder_bound(atr_at(tr, p, i - 1), tr[i] as int, p, m);
    }
}

/// True range of each row: `tr[0] = 0`, and for `i >= 1` the greatest of
/// `high[i] - low[i]`, `|high[i] - close[i-1]|` and `|low[i] - close[i-1]|`.
pub fn true_range(in_high: &[u64], in_low: &[u64], in_close: &[u64]) -> (r: Vec<u64>)
    requires
        in_high@.len() >= in_close@.len(),
        in_low@.len() >= in_close@.len(),
    ensures
        r@.len() == in_close@.len(),
        forall|i: int| 0 <= i < r@.len() ==> r@[i] == tr_at(in_high@, in_low@, in_close@, i),
{
    let len = in_close.len();
    let mut out_real: Vec<u64> = Vec::new();
    if len == 0 {
        return out_real;
    }
    out_real.push(0);
    let mut today: usize = 1;
    while today < len
        invariant
            1 <= today <= len,
            len == in_close@.len(),
            in_high@.len() >= len,
            in_low@.len() >= len,
            out_real@.len() == today,
            forall|i: int| 0 <= i < today ==> out_real@[i] == tr_at(in_high@, in_low@, in_close@, i),
        decreases len - today,
    {
        let temp_lt = in_low[today];
        let temp_ht = in_high[today];
        let temp_cy = in_close[today - 1];
        let span = if temp_ht >= temp_lt { temp_ht - temp_lt } else { 0 };
        let to_high = if temp_ht >= temp_cy { temp_ht - temp_cy } else { temp_cy - temp_ht };
        let to_low = if temp_lt >= temp_cy { temp_lt - temp_cy } else { temp_cy - temp_lt };
        let far = if to_high >= to_low { to_high } else { to_low };
        let greatest = if span >= far { span } else { far };
        out_real.push(greatest);
        today += 1;
    }
    out_real
}

/// EMA of period `p`: zero for the first `p - 1` entries, the mean of the first
/// `p` inputs at `p - 1`, then `out[i] = out[i-1] + (in[i] - out[i-1]) * 2 / (p + 1)`.
fn ema(in_real: &[u64], in_time_period: usize) -> (r: Vec<u64>)
    requires
        1 <= in_time_period <= in_real@.len(),
    ensures
        r@.len() == in_real@.len(),
        forall|i: int|
            0 <= i < r@.len() ==> r@[i] == (if i < in_time_period - 1 {
                0
            } else {
                ema_at(in_real@, in_time_period as int, i)
            }),
{
    let len = in_real.len();
    let p = in_time_period;
    let ghost s = in_real@;
    let mut out_real: Vec<u64> = Vec::new();
    let mut k: usize = 0;
    while k + 1 < p
        invariant
            k + 1 <= p,
            out_real@.len() == k,
            forall|i: int| 0 <= i < k ==> out_real@[i] == 0,
        decreases p - k,
    {
        out_real.push(0);
        k += 1;
    }
    // mean of the first p inputs
    let mut sum: u128 = 0;
    let mut today: usize = 0;
    while today < p
        invariant
            today <= p <= len,
            len == s.len(),
            s == in_real@,
            sum == sum_prefix(s, today as int),
            sum <= today * u64_max(),
        decreases p - today,
    {
        sum = sum + in_real[today] as u128;
        today += 1;
    }
    proof {
        lemma_mean_bound(sum as int, p as int, u64_max());
    }
    let mut prev_ma: u64 = (sum / p as u128) as u64;
    out_real.push(prev_ma);
    assert(prev_ma == ema_at(s, p as int, p - 1));
    while today < len
        invariant
            1 <= p <= today <= len,
            len == s.len(),
            s == in_real@,
            out_real@.len() == today,
            prev_ma == ema_at(s, p as int, today - 1),
            forall|i: int|
                0 <= i < today ==> out_real@[i] == (if i < p - 1 {
                    0
                } else {
                    ema_at(s, p as int, i)
                }),
        decreases len - today,
    {
        let x = in_real[today];
        proof {
            lemma_ema_step_between(prev_ma as int, x as int, p as int);
            lemma_scaled_gap(if x >= prev_ma { x - prev_ma } else { prev_ma - x }, p as int);
        }
        if x >= prev_ma {
            let step = ((x - prev_ma) as u128 * 2 / (p as u128 + 1)) as u64;
            prev_ma = prev_ma + step;
        } else {
            let step = ((prev_ma - x) as u128 * 2 / (p as u128 + 1)) as u64;
            prev_ma = prev_ma - step;
        }
        out_real.push(prev_ma);
        today += 1;
    }
    out_real
}

/// ATR via EMA: period `p < 1` gives zeros, `p == 1` the true range; otherwise
/// zeros before index `p`, the EMA of the true range at `p`, and Wilder
/// smoothing `(atr[i-1] * (p - 1) + tr[i]) / p` after it. A series no longer
/// than `p` is all zeros.
pub fn atr_ema(in_high: &[u64], in_low: &[u64], in_close: &[u64], in_time_period: usize) -> (r: Vec<u64>)
    requires
        in_high@.len() >= in_close@.len(),
        in_low@.len() >= in_close@.len(),
    ensures
        r@.len() == in_close@.len(),
        forall|i: int|
            0 <= i < r@.len() ==> r@[i] == atr_ema_at(in_high@, in_low@, in_close@, in_time_period as int, i),
{
    let len = in_close.len();
    let p = in_time_period;
    if p == 1 {
        return true_range(in_high, in_low, in_close);
    }
    let mut out_real: Vec<u64> = Vec::new();
    if p < 1 || p >= len {
        let mut k: usize = 0;
        while k < len
            invariant
                k <= len,
                out_real@.len() == k,
                forall|i: int| 0 <= i < k ==> out_real@[i] == 0,
            decreases len - k,
        {
            out_real.push(0);
            k += 1;
        }
        return out_real;
    }
    let tr = true_range(in_high, in_low, in_close);
    let ghost trs = tr_seq(in_high@, in_low@, in_close@);
    proof {
        assert forall|i: int| 0 <= i < len implies tr@[i] == trs[i] by {
            if i > 0 {
                lemma_tr_bound(in_high@, in_low@, in_close@, i);
            }
        }
        assert(tr@ =~= trs);
    }
    let seeded = ema(tr.as_slice(), p);
    let mut k: usize = 0;
    while k < p
        invariant
            k <= p,
            out_real@.len() == k,
            forall|i: int| 0 <= i < k ==> out_real@[i] == 0,
        decreases p - k,
    {
        out_real.push(0);
        k += 1;
    }
    let mut prev_atr: u64 = seeded[p];
    out_real.push(prev_atr);
    let mut today: usize = p + 1;
    while today < len
        invariant
            2 <= p < today <= len,
            len == in_close@.len(),
            tr@ == trs,
            trs == tr_seq(in_high@, in_low@, in_close@),
            trs.len() == len,
            out_real@.len() == today,
            prev_atr == atr_at(trs, p as int, today - 1),
            forall|i: int|
                0 <= i < today ==> out_real@[i] == atr_ema_at(in_high@, in_low@, in_close@, p as int, i),
        decreases len - today,
    {
        proof {
            lemma_atr_bound(trs, p as int, today - 1, u64_max());
            lemma_wilder_bound(prev_atr as int, tr@[today as int] as int, p as int, u64_max());
        }
        let num: u128 = prev_atr as u128 * (p as u128 - 1) + tr[today] as u128;
        prev_atr = (num / p as u128) as u64;
        assert(prev_atr == atr_at(trs, p as int, today as int));
        out_real.push(prev_atr);
        assert(out_real@[today as int] == atr_ema_at(in_high@, in_low@, in_close@, p as int, today as int));
        today += 1;
    }
    out_real
}

/// Rows needed for a trustworthy ATR: `ceil(seconds * fraction)`, where the
/// fraction is fixed-point.
pub open spec fn min_rows(seconds: int, fraction: int) -> int {
    (seconds * fraction + SCALE - 1) / SCALE as int
}

/// Last entry of `atr_ema(highs, lows, closes, p)`, or zero for no rows.
pub open spec fn last_atr(highs: Seq<u64>, lows: Seq<u64>, closes: Seq<u64>, p: int) -> int {
    if closes.len() == 0 {
        0
    } else {
        atr_ema_at(highs, lows, closes, p, closes.len() - 1)
    }
}

/// Whether `atr` relative to `close` exceeds `threshold` percent, all fixed-point:
/// `atr / close > threshold / 100`.
pub open spec fn atr_exceeds(atr: int, close: int, threshold: int) -> bool {
    atr * 100 * SCALE > threshold * close
}

/// The ATR condition over rows `(closes, highs, lows)` for a window of `seconds`.
pub open spec fn atr_condition(rows: (Seq<u64>, Seq<u64>, Seq<u64>), seconds: int, threshold: int, fraction: int) -> (bool, u64) {
    let closes = rows.0;
    let n = closes.len() as int;
    if n < min_rows(seconds, fraction) {
        (false, 0)
    } else {
        let effective = if seconds > n { n } else { seconds };
        let atr = last_atr(rows.1, rows.2, closes, effective);
        if atr == 0 {
            (false, 0)
        } else {
            (atr_exceeds(atr, closes[n - 1] as int, threshold), atr as u64)
        }
    }
}

/// Last ATR value of the rows, or zero when there are none.
fn calculate_atr(input: &ATRInputData, seconds: usize) -> (r: u64)
    requires
        input.highs@.len() == input.closes@.len(),
        input.lows@.len() == input.closes@.len(),
    ensures
        r == last_atr(input.highs@, input.lows@, input.closes@, seconds as int),
{
    let atr_arr = atr_ema(input.highs.as_slice(), input.lows.as_slice(), input.closes.as_slice(), seconds);
    let length = atr_arr.len();
    if length != 0 {
        atr_arr[length - 1]
    } else {
        0
    }
}

/// ATR volatility condition over the last `seconds` seconds of the ring.
///
/// `atr_threshold` is a fixed-point percent and `atr_min_candles_percent` a
/// fixed-point fraction. With fewer than `ceil(seconds * fraction)` rows, or an
/// ATR of zero, the answer is `(false, 0)`; otherwise it is whether
/// `atr / close > threshold / 100`, with the ATR. The ring is left as it was.
pub fn check_atr_condition(
    _symbol: &String,
    buffer: &mut SymbolBuffer,
    seconds: usize,
    atr_threshold: u64,
    atr_min_candles_percent: u64,
) -> (r: Result<(bool, u64), AtrError>)
    ensures
        *final(buffer) == *old(buffer),
        seconds > MAX_WINDOW_SECONDS ==> r == Err::<(bool, u64), AtrError>(AtrError::WindowTooLarge),
        seconds <= MAX_WINDOW_SECONDS ==> r == Ok::<(bool, u64), AtrError>(
            atr_condition(
                ohlc_rows(buffer_contents(*old(buffer)), seconds as int),
                seconds as int,
                atr_threshold as int,
                atr_min_candles_percent as int,
            ),
        ),
{
    let atr_input = match get_atr_data(buffer, seconds) {
        Ok(data) => data,
        Err(e) => {
            return Err(e);
        },
    };
    let ghost rows = ohlc_rows(buffer_contents(*buffer), seconds as int);
    let actual_atr_seconds = atr_input.closes.len();
    proof {
        assert(seconds * atr_min_candles_percent <= 60 * u64_max()) by (nonlinear_arith)
            requires
                seconds <= 60,
                atr_min_candles_percent <= u64_max(),
        ;
    }
    let needed: u128 = (seconds as u128 * atr_min_candles_percent as u128 + SCALE as u128 - 1) / SCALE as u128;
    if (actual_atr_seconds as u128) < needed {
        return Ok((false, 0));
    }
    let seconds_to_fetch = if seconds > actual_atr_seconds {
        actual_atr_seconds
    } else {
        seconds
    };
    let calculated_atr = calculate_atr(&atr_input, seconds_to_fetch);
    if calculated_atr == 0 {
        return Ok((false, 0));
    }
    let close_price = atr_input.closes[actual_atr_seconds - 1];
    proof {
        assert(atr_threshold * close_price <= u64_max() * u64_max()) by (nonlinear_arith)
            requires
                atr_threshold <= u64_max(),
                close_price <= u64_max(),
        ;
    }
    let is_atr_limit_passed = calculated_atr as u128 * 100 * SCALE as u128
        > atr_threshold as u128 * close_price as u128;
    Ok((is_atr_limit_passed, calculated_atr))
}


/// Timestamps never decrease from the front of the ring to its back.
pub open spec fn time_ordered(s: Seq<BufferNode>) -> bool {
    forall|i: int, j: int| 0 <= i <= j < s.len() ==> s[i].ts <= s[j].ts
}

proof fn lemma_run_keys_len(w: Seq<BufferNode>)
    ensures
        run_keys(w).len() <= w.len(),
        w.len() > 0 ==> run_keys(w).len() > 0 && run_keys(w).last() == second_of(w.last().ts as int),
    decreases w.len(),
{
    if w.len() > 0 {
        lemma_run_keys_len(w.drop_last());
    }
}

/// Along a walk whose timestamps never increase, each new key starts a new
/// absolute second, so the keys are at most the seconds spanned.
proof fn lemma_run_keys_span(w: Seq<BufferNode>)
    requires
        w.len() > 0,
        forall|i: int, j: int| 0 <= i <= j < w.len() ==> w[i].ts >= w[j].ts,
    ensures
        run_keys(w).len() <= 1 + (w[0].ts as int) / 1000 - (w.last().ts as int) / 1000,
    decreases w.len(),
{
    lemma_run_keys_len(w);
    if w.len() == 1 {
        assert(run_keys(w.drop_last()) =~= Seq::<int>::empty());
    } else {
        let v = w.drop_last();
        lemma_run_keys_span(v);
        lemma_run_keys_len(v);
        let a = v.last().ts as int;
        let b = w.last().ts as int;
        assert(a >= b);
        lemma_div_is_ordered(b, a, 1000);
        if run_keys(w).len() > run_keys(v).len() {
            assert(second_of(a) != second_of(b));
            assert(b / 1000 < a / 1000);
        }
    }
}

proof fn lemma_walk_passes(s: Seq<BufferNode>, j0: int, stop: int, j: int)
    requires
        0 <= j0 <= j,
        j < walk_len_from(s, j0, stop) - 1,
    ensures
        j + 1 < s.len(),
        !walk_halts(s, j, stop),
    decreases s.len() - j0,
{
    if !(j0 < 0 || j0 + 1 >= s.len() || walk_halts(s, j0, stop)) {
        if j > j0 {
            lemma_walk_passes(s, j0 + 1, stop, j);
        }
    }
}

/// For a time-ordered ring, the reconstruction over `secs` seconds yields no
/// more rows than snapshots it takes in, and at most `secs + 1` rows: the window
/// `(latest - secs, latest]` touches at most that many calendar seconds.
pub proof fn lemma_row_count_bound(s: Seq<BufferNode>, secs: int)
    requires
        time_ordered(s),
        0 <= secs,
    ensures
        row_keys(s, secs).len() <= walk_len(s, secs),
        row_keys(s, secs).len() <= secs + 1,
{
    let w = window_of(s, secs);
    lemma_run_keys_len(w);
    if s.len() > 0 {
        let stop = latest_ts(s) - secs * 1000;
        let m = walk_len(s, secs);
        crate::buffer::lemma_walk_len_from_range(s, 0, stop);
        if m >= 2 {
            lemma_walk_passes(s, 0, stop, m - 2);
            lemma_run_keys_span(w);
            let latest = latest_ts(s);
            let oldest = w.last().ts as int;
            assert(oldest > stop);
            lemma_fundamental_div_mod(latest, 1000);
            lemma_fundamental_div_mod(oldest, 1000);
        }
    }
}

/// The true range is zero at the first row; at every later row it is
/// non-negative and at least the row's high minus its low.
pub proof fn lemma_true_range_bounds(h: Seq<u64>, l: Seq<u64>, c: Seq<u64>, i: int)
    requires
        0 <= i < c.len(),
    ensures
        i == 0 ==> tr_at(h, l, c, i) == 0,
        i >= 1 ==> tr_at(h, l, c, i) >= 0 && tr_at(h, l, c, i) >= h[i] - l[i],
{
}

/// On constant rows with the close between low and high, every true range
/// after the first equals `high - low`, and the last ATR value lies between
/// zero and `high - low`.
pub proof fn lemma_flat_rows_atr(h: Seq<u64>, l: Seq<u64>, c: Seq<u64>, hv: u64, lv: u64, cv: u64, p: int)
    requires
        h.len() == c.len(),
        l.len() == c.len(),
        forall|i: int| 0 <= i < c.len() ==> h[i] == hv && l[i] == lv && c[i] == cv,
        lv <= cv <= hv,
    ensures
        forall|i: int| 1 <= i < c.len() ==> tr_at(h, l, c, i) == hv - lv,
        0 <= last_atr(h, l, c, p) <= hv - lv,
{
    let m = hv - lv;
    let trs = tr_seq(h, l, c);
    assert forall|i: int| 1 <= i < c.len() implies tr_at(h, l, c, i) == hv - lv by {
        assert(h[i] == hv && l[i] == lv && c[i - 1] == cv);
    }
    assert(bounded_by(trs, m));
    if c.len() > 0 && p >= 2 && p < c.len() {
        lemma_atr_bound(trs, p, c.len() - 1, m);
    }
}

/// An empty ring reconstructs to no rows, and the ATR condition over it answers
/// `(false, 0)`.
pub proof fn lemma_empty_ring(secs: int, threshold: int, fraction: int)
    requires
        0 <= fraction,
        0 <= secs,
    ensures
        ohlc_rows(Seq::<BufferNode>::empty(), secs).0.len() == 0,
        ohlc_rows(Seq::<BufferNode>::empty(), secs).1.len() == 0,
        ohlc_rows(Seq::<BufferNode>::empty(), secs).2.len() == 0,
        atr_condition(ohlc_rows(Seq::<BufferNode>::empty(), secs), secs, threshold, fraction) == (false, 0u64),
{
    let w = window_of(Seq::<BufferNode>::empty(), secs);
    assert(w.len() == 0);
    assert(run_keys(w) =~= Seq::<int>::empty());
    lemma_div_pos_is_pos(secs * fraction + SCALE - 1, SCALE as int);
}

/// With a candle fraction of one and fewer rows than seconds, the ATR condition
/// answers `(false, 0)`.
pub proof fn lemma_full_coverage_required(rows: (Seq<u64>, Seq<u64>, Seq<u64>), secs: int, threshold: int)
    requires
        0 <= secs,
        rows.0.len() < secs,
    ensures
        atr_condition(rows, secs, threshold, SCALE as int) == (false, 0u64),
{
    assert(secs * SCALE + SCALE - 1 == (secs * SCALE) + (SCALE - 1));
    lemma_ceil_of_whole(secs);
}

proof fn lemma_ceil_of_whole(secs: int)
    requires
        0 <= secs,
    ensures
        (secs * SCALE + SCALE - 1) / SCALE as int == secs,
{
    assert(secs * SCALE == SCALE * secs) by (nonlinear_arith);
    lemma_div_multiples_vanish_fancy(secs, (SCALE - 1) as int, SCALE as int);
}

/// A zero ATR makes the condition answer `(false, 0)`, whatever the threshold.
pub proof fn lemma_zero_atr_fails(rows: (Seq<u64>, Seq<u64>, Seq<u64>), secs: int, threshold: int, fraction: int)
    requires
        last_atr(rows.1, rows.2, rows.0, if secs > rows.0.len() { rows.0.len() as int } else { secs }) == 0,
    ensures
        atr_condition(rows, secs, threshold, fraction) == (false, 0u64),
{
}


/// Absolute seconds (`ts / 1000`) of the snapshots that open each row, in the
/// order `run_keys` lists the rows.
pub open spec fn run_starts(w: Seq<BufferNode>) -> Seq<int>
    decreases w.len(),
{
    if w.len() == 0 {
        Seq::empty()
    } else {
        let ks = run_keys(w.drop_last());
        let k = second_of(w.last().ts as int);
        if ks.len() == 0 || ks.last() != k {
            run_starts(w.drop_last()).push(w.last().ts as int / 1000)
        } else {
            run_starts(w.drop_last())
        }
    }
}

/// Calendar seconds (`ts / 1000`) of the ring's snapshots whose time lies in
/// `[latest - secs, latest]`.
pub open spec fn window_seconds(s: Seq<BufferNode>, secs: int) -> Set<int> {
    Set::new(
        |z: int|
            exists|i: int|
                0 <= i < s.len() && latest_ts(s) - secs * 1000 <= #[trigger] s[i].ts <= latest_ts(s) && z
                    == s[i].ts as int / 1000,
    )
}

proof fn lemma_run_starts(w: Seq<BufferNode>)
    requires
        forall|i: int, j: int| 0 <= i <= j < w.len() ==> w[i].ts >= w[j].ts,
    ensures
        run_starts(w).len() == run_keys(w).len(),
        forall|a: int, b: int| 0 <= a < b < run_starts(w).len() ==> run_starts(w)[a] > run_starts(w)[b],
        forall|t: int|
            #![trigger run_starts(w)[t]]
            0 <= t < run_starts(w).len() ==> exists|j: int|
                0 <= j < w.len() && run_starts(w)[t] == #[trigger] w[j].ts as int / 1000,
        w.len() > 0 ==> run_starts(w).last() >= w.last().ts as int / 1000,
    decreases w.len(),
{
    lemma_run_keys_len(w);
    if w.len() > 0 {
        let v = w.drop_last();
        lemma_run_starts(v);
        lemma_run_keys_len(v);
        let rs = run_starts(w);
        let rv = run_starts(v);
        let b = w.last().ts as int;
        if v.len() > 0 {
            let a = v.last().ts as int;
            lemma_div_is_ordered(b, a, 1000);
            if run_keys(w).len() > run_keys(v).len() {
                assert(second_of(a) != second_of(b));
                assert(b / 1000 < a / 1000);
            }
        }
        assert forall|t: int| #![trigger rs[t]] 0 <= t < rs.len() implies exists|j: int|
            0 <= j < w.len() && rs[t] == #[trigger] w[j].ts as int / 1000 by {
            if t < rv.len() {
                let j = choose|j: int| 0 <= j < v.len() && rv[t] == #[trigger] v[j].ts as int / 1000;
                assert(w[j] == v[j]);
            } else {
                assert(w[w.len() - 1] == w.last());
            }
        }
    }
}

/// For a time-ordered ring, the reconstruction over `secs` seconds yields no
/// more rows than there are calendar seconds among the snapshots timed in
/// `[latest - secs, latest]`.
pub proof fn lemma_rows_within_window_seconds(s: Seq<BufferNode>, secs: int)
    requires
        time_ordered(s),
        0 <= secs,
    ensures
        row_keys(s, secs).len() <= window_seconds(s, secs).len(),
        window_seconds(s, secs).finite(),
{
    let w = window_of(s, secs);
    let n = s.len() as int;
    let m = walk_len(s, secs);
    let all = Seq::new(s.len(), |i: int| s[i].ts as int / 1000).to_set();
    let target = window_seconds(s, secs);
    assert(target.subset_of(all)) by {
        assert forall|z: int| target.contains(z) implies all.contains(z) by {
            let i = choose|i: int|
                0 <= i < s.len() && latest_ts(s) - secs * 1000 <= #[trigger] s[i].ts <= latest_ts(s) && z
                    == s[i].ts as int / 1000;
            assert(Seq::new(s.len(), |i: int| s[i].ts as int / 1000)[i] == z);
        }
    }
    seq_to_set_is_finite(Seq::new(s.len(), |i: int| s[i].ts as int / 1000));
    lemma_len_subset(target, all);
    if n > 0 {
        let stop = latest_ts(s) - secs * 1000;
        crate::buffer::lemma_walk_len_from_range(s, 0, stop);
        lemma_run_starts(w);
        let rs = run_starts(w);
        assert(rs.no_duplicates()) by {
            assert forall|a: int, b: int| 0 <= a < rs.len() && 0 <= b < rs.len() && a != b implies rs[a] != rs[b] by {
                if a < b {
                    assert(rs[a] > rs[b]);
                } else {
                    assert(rs[b] > rs[a]);
                }
            }
        }
        rs.unique_seq_to_set();
        assert(rs.to_set().subset_of(target)) by {
            assert forall|z: int| rs.to_set().contains(z) implies target.contains(z) by {
                let t = choose|t: int| 0 <= t < rs.len() && rs[t] == z;
                let j = choose|j: int| 0 <= j < w.len() && rs[t] == #[trigger] w[j].ts as int / 1000;
                let i = n - 1 - j;
                assert(w[j] == s[i]);
                if j >= 1 {
                    lemma_walk_passes(s, 0, stop, j - 1);
                    assert(walk_len_from(s, 0, stop) == m);
                }
                assert(s[i].ts <= latest_ts(s));
                assert(latest_ts(s) - secs * 1000 <= s[i].ts);
            }
        }
        lemma_len_subset(rs.to_set(), target);
        assert(row_keys(s, secs).len() == run_keys(w).len());
    } else {
        assert(run_keys(w) =~= Seq::<int>::empty());
    }
}

} // verus!
