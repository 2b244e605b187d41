use vstd::prelude::*;
use vstd::arithmetic::div_mod::{lemma_div_is_ordered, lemma_div_multiples_vanish};
use vstd::utf8::encode_utf8;
use crate::event::Event;
use crate::fixed::{SCALE, fixed_chars, fixed_of, lemma_fixed_chars_round_trip, parse_fixed};

verus! {

/// Number of snapshots a symbol keeps: one minute plus a margin, four times over.
pub const BUFFER_SIZE: usize = 244;

/// One ring element, derived from one exchange frame.
#[derive(Clone, Copy, Debug, PartialEq, Eq, Structural)]
pub struct BufferNode {
    /// Traded notional of the kline so far, `((high + low) / 2) * volume`, fixed-point.
    pub value: u64,
    /// Event time in milliseconds since the Unix epoch.
    pub ts: i64,
    /// Whether this frame closes its minute bar.
    pub confirmed: bool,
    /// Kline close price, fixed-point.
    pub close_price: u64,
}

/// Why an exchange message could not become a snapshot.
#[derive(Clone, Copy, Debug, PartialEq, Eq, Structural)]
pub enum DecodeError {
    /// A price or volume field is no decimal that `parse_fixed` reads, or it
    /// does not fit; a negative field is refused, as the fields are unsigned.
    InvalidNumber,
    /// The traded notional does not fit the fixed-point range.
    NotionalTooLarge,
    /// The event time is no instant that the calendar can hold.
    InvalidTimestamp,
}

/// Whether chrono represents the instant `ms` milliseconds after the Unix epoch.
pub uninterp spec fn chrono_accepts_millis(ms: int) -> bool;

/// Relies on chrono's `DateTime::from_timestamp_millis`: `Some` exactly for the
/// instants that chrono can represent.
#[verifier::external_body]
fn timestamp_representable(ms: i64) -> (r: bool)
    ensures
        r == chrono_accepts_millis(ms as int),
{
    chrono::DateTime::from_timestamp_millis(ms).is_some()
}

/// Traded notional `((high + low) / 2) * volume`, fixed-point, rounded down.
pub open spec fn notional(high: int, low: int, volume: int) -> int {
    (high + low) * volume / (2 * SCALE) as int
}

/// A decimal field of a message, read as fixed-point.
pub open spec fn field_value(text: Seq<char>) -> Option<u64> {
    fixed_of(encode_utf8(text))
}

/// What `parse_kline_event` yields: the notional and the close.
pub open spec fn kline_figures(e: Event) -> Result<(u64, u64), DecodeError> {
    let h = field_value(e.k.h@);
    let l = field_value(e.k.l@);
    let c = field_value(e.k.c@);
    let v = field_value(e.k.v@);
    if h is None || l is None || c is None || v is None {
        Err(DecodeError::InvalidNumber)
    } else if notional(h->Some_0 as int, l->Some_0 as int, v->Some_0 as int) > u64::MAX {
        Err(DecodeError::NotionalTooLarge)
    } else {
        Ok((notional(h->Some_0 as int, l->Some_0 as int, v->Some_0 as int) as u64, c->Some_0))
    }
}

/// The snapshot that a message decodes to.
pub open spec fn decoded(e: Event) -> Result<BufferNode, DecodeError> {
    match kline_figures(e) {
        Err(err) => Err(err),
        Ok(figures) => if e.E > i64::MAX || !chrono_accepts_millis(e.E as int) {
            Err(DecodeError::InvalidTimestamp)
        } else {
            Ok(BufferNode { value: figures.0, ts: e.E as i64, confirmed: e.k.x, close_price: figures.1 })
        },
    }
}

fn parse_field(text: &String) -> (r: Option<u64>)
    ensures
        r == field_value(text@),
{
    parse_fixed(text.as_str())
}

/// Reads the kline's numbers: the traded notional and the close price.
fn parse_kline_event(event: &Event) -> (r: Result<(u64, u64), DecodeError>)
    ensures
        r == kline_figures(*event),
{
    let price_high = match parse_field(&event.k.h) {
        Some(v) => v,
        None => {
            return Err(DecodeError::InvalidNumber);
        },
    };
    let price_low = match parse_field(&event.k.l) {
        Some(v) => v,
        None => {
            return Err(DecodeError::InvalidNumber);
        },
    };
    let price_close = match parse_field(&event.k.c) {
        Some(v) => v,
        None => {
            return Err(DecodeError::InvalidNumber);
        },
    };
    let volume = match parse_field(&event.k.v) {
        Some(v) => v,
        None => {
            return Err(DecodeError::InvalidNumber);
        },
    };
    let span: u128 = price_high as u128 + price_low as u128;
    let divisor: u128 = 2 * SCALE as u128;
    let product = match span.checked_mul(volume as u128) {
        Some(p) => p,
        None => {
            proof {
                let big = 0x1_0000_0000_0000_0000 * (2 * SCALE);
                lemma_div_is_ordered(big, span * volume, 2 * SCALE);
                lemma_div_multiples_vanish(0x1_0000_0000_0000_0000, 2 * SCALE);
            }
            return Err(DecodeError::NotionalTooLarge);
        },
    };
    let size = product / divisor;
    if size > u64::MAX as u128 {
        return Err(DecodeError::NotionalTooLarge);
    }
    Ok((size as u64, price_close))
}

impl BufferNode {
    /// Decodes one kline message into a snapshot: the notional
    /// `((h + l) / 2) * v`, the close, the confirmation flag and the event time.
    pub fn from_kline_event(event: &Event) -> (r: Result<BufferNode, DecodeError>)
        ensures
            r == decoded(*event),
    {
        let (kline_volume, close_price) = match parse_kline_event(event) {
            Ok(figures) => figures,
            Err(e) => {
                return Err(e);
            },
        };
        if event.E > i64::MAX as u64 || !timestamp_representable(event.E as i64) {
            return Err(DecodeError::InvalidTimestamp);
        }
        Ok(BufferNode { value: kline_volume, ts: event.E as i64, confirmed: event.k.x, close_price })
    }
}

pub type SymbolBuffer = circular_buffer::CircularBuffer<244, BufferNode>;

#[verifier::external_type_specification]
#[verifier::external_body]
#[verifier::reject_recursive_types(T)]
pub struct ExCircularBuffer<const N: usize, T>(circular_buffer::CircularBuffer<N, T>);

/// What a symbol buffer holds, oldest first.
pub uninterp spec fn buffer_contents(b: SymbolBuffer) -> Seq<BufferNode>;

/// Relies on `CircularBuffer::new`: the buffer starts empty.
#[verifier::external_body]
pub(crate) fn buffer_new() -> (r: SymbolBuffer)
    ensures
        buffer_contents(r) == Seq::<BufferNode>::empty(),
{
    circular_buffer::CircularBuffer::new()
}

/// Relies on `CircularBuffer::len`: the number of elements held, never above the capacity.
#[verifier::external_body]
pub(crate) fn buffer_len(b: &SymbolBuffer) -> (r: usize)
    ensures
        r == buffer_contents(*b).len(),
        r <= BUFFER_SIZE,
{
    b.len()
}

/// Relies on `CircularBuffer`'s `Index` impl: element `i`, counted from the front.
#[verifier::external_body]
pub(crate) fn buffer_at(b: &SymbolBuffer, i: usize) -> (r: BufferNode)
    requires
        i < buffer_contents(*b).len(),
    ensures
        r == buffer_contents(*b)[i as int],
{
    b[i]
}

/// Relies on `CircularBuffer::push_back`: appends at the back, dropping the
/// front element when the buffer is full.
#[verifier::external_body]
pub(crate) fn buffer_push_back(b: &mut SymbolBuffer, node: BufferNode)
    ensures
        buffer_contents(*final(b)) == pushed(buffer_contents(*old(b)), node),
{
    b.push_back(node)
}

/// The contents after appending `node` to a ring of capacity `BUFFER_SIZE`.
pub open spec fn pushed(s: Seq<BufferNode>, node: BufferNode) -> Seq<BufferNode> {
    if s.len() >= BUFFER_SIZE {
        s.drop_first().push(node)
    } else {
        s.push(node)
    }
}

/// Newest timestamp of a non-empty ring.
pub open spec fn latest_ts(s: Seq<BufferNode>) -> int {
    s.last().ts as int
}

/// Walking newest to oldest, step `i` looks at `s[n-1-i]` and its older
/// neighbour `s[n-2-i]`: whether the walk stops before accounting for it.
pub open spec fn walk_halts(s: Seq<BufferNode>, i: int, stop: int) -> bool {
    let prev = s[s.len() - 2 - i];
    prev.ts <= stop || (prev.ts == latest_ts(s) && i != 0)
}

/// Increment contributed at step `i`: a fresh bar counts whole, a revision counts
/// its difference from the previous reading.
pub open spec fn delta_term(s: Seq<BufferNode>, i: int) -> int {
    let cur = s[s.len() - 1 - i];
    let prev = s[s.len() - 2 - i];
    if prev.confirmed && i != 0 {
        cur.value as int
    } else {
        cur.value - prev.value
    }
}

/// Number of snapshots the newest-to-oldest walk takes in, from step `j` on:
/// each step takes one, and the walk ends at the oldest or where it halts.
pub open spec fn walk_len_from(s: Seq<BufferNode>, j: int, stop: int) -> int
    decreases s.len() - j,
{
    if j < 0 || j + 1 >= s.len() || walk_halts(s, j, stop) {
        j + 1
    } else {
        walk_len_from(s, j + 1, stop)
    }
}

/// Number of snapshots that a window of `secs` seconds takes in from the back.
pub open spec fn walk_len(s: Seq<BufferNode>, secs: int) -> int {
    if s.len() == 0 {
        0
    } else {
        walk_len_from(s, 0, latest_ts(s) - secs * 1000)
    }
}

pub(crate) proof fn lemma_walk_len_from_range(s: Seq<BufferNode>, j: int, stop: int)
    requires
        0 <= j < s.len(),
    ensures
        j + 1 <= walk_len_from(s, j, stop) <= s.len(),
    decreases s.len() - j,
{
    if !(j + 1 >= s.len() || walk_halts(s, j, stop)) {
        lemma_walk_len_from_range(s, j + 1, stop);
    }
}

/// How many snapshots, counted from the back, a window of `seconds` seconds covers.
pub fn walk_length(buffer: &SymbolBuffer, seconds: usize) -> (r: usize)
    ensures
        r == walk_len(buffer_contents(*buffer), seconds as int),
        r <= buffer_contents(*buffer).len(),
{
    let ghost s = buffer_contents(*buffer);
    let n = buffer_len(buffer);
    if n == 0 {
        return 0;
    }
    let latest = buffer_at(buffer, n - 1).ts;
    let stop: i128 = latest as i128 - seconds as i128 * 1000;
    let mut j: usize = 0;
    while j + 1 < n
        invariant
            n == s.len(),
            s == buffer_contents(*buffer),
            latest == latest_ts(s),
            stop == latest_ts(s) - seconds * 1000,
            j < n,
            walk_len_from(s, j as int, stop as int) == walk_len(s, seconds as int),
        decreases n - j,
    {
        let prev = buffer_at(buffer, n - 2 - j);
        if prev.ts as i128 <= stop || (prev.ts == latest && j != 0) {
            proof {
                lemma_walk_len_from_range(s, j as int, stop as int);
            }
            return j + 1;
        }
        j = j + 1;
    }
    j + 1
}

/// Volume delta accumulated from step `i` on.
pub open spec fn delta_from(s: Seq<BufferNode>, i: int, stop: int) -> int
    decreases s.len() - i,
{
    if i < 0 || i + 1 >= s.len() {
        0
    } else if walk_halts(s, i, stop) {
        0
    } else {
        delta_term(s, i) + delta_from(s, i + 1, stop)
    }
}

/// Traded notional over the last `secs` seconds of the ring.
pub open spec fn volume_delta(s: Seq<BufferNode>, secs: int) -> int {
    if s.len() == 0 {
        0
    } else {
        delta_from(s, 0, latest_ts(s) - secs * 1000)
    }
}

/// Traded notional over the last `needed_seconds` seconds: revisions of one bar
/// contribute their differences, a bar that follows a confirmed one counts whole.
/// The ring is only read.
pub fn calc_volume_delta(buffer: &SymbolBuffer, needed_seconds: i64) -> (r: i128)
    ensures
        r == volume_delta(buffer_contents(*buffer), needed_seconds as int),
{
    let ghost s = buffer_contents(*buffer);
    let n = buffer_len(buffer);
    if n == 0 {
        return 0;
    }
    let latest = buffer_at(buffer, n - 1).ts;
    let stop: i128 = latest as i128 - needed_seconds as i128 * 1000;
    let mut total: i128 = 0;
    let mut i: usize = 0;
    while i + 1 < n
        invariant
            n == s.len(),
            s == buffer_contents(*buffer),
            n <= BUFFER_SIZE,
            latest == latest_ts(s),
            stop == latest_ts(s) - needed_seconds * 1000,
            i < n,
            -(i * 0x1_0000_0000_0000_0000) <= total <= i * 0x1_0000_0000_0000_0000,
            total + delta_from(s, i as int, stop as int) == volume_delta(s, needed_seconds as int),
        decreases n - i,
    {
        let cur = buffer_at(buffer, n - 1 - i);
        let prev = buffer_at(buffer, n - 2 - i);
        if prev.ts as i128 <= stop || (prev.ts == latest && i != 0) {
            return total;
        }
        if prev.confirmed && i != 0 {
            total = total + cur.value as i128;
        } else {
            total = total + (cur.value as i128 - prev.value as i128);
        }
        i = i + 1;
    }
    total
}


/// A decoded snapshot keeps the message's time, confirmation flag, close and
/// notional, and appending it puts it, unchanged, at the back of the ring.
pub proof fn lemma_ingest_keeps_snapshot(s: Seq<BufferNode>, e: Event)
    requires
        decoded(e) is Ok,
    ensures
        ({
            let node = decoded(e)->Ok_0;
            let h = field_value(e.k.h@)->Some_0 as int;
            let l = field_value(e.k.l@)->Some_0 as int;
            let v = field_value(e.k.v@)->Some_0 as int;
            &&& node.ts == e.E
            &&& node.confirmed == e.k.x
            &&& field_value(e.k.c@) == Some(node.close_price)
            &&& node.value == notional(h, l, v)
            &&& pushed(s, node).last() == node
            &&& pushed(s, node).len() == (if s.len() >= BUFFER_SIZE { s.len() } else { s.len() + 1 })
        }),
{
}


/// Serialising a decoded message back, with each number written out by
/// `fixed_chars` and the event time taken from the snapshot, decodes to the same
/// snapshot: time, confirmation flag, close and notional are kept.
pub proof fn lemma_snapshot_round_trip(e: Event, e2: Event)
    requires
        decoded(e) is Ok,
        e2.E == decoded(e)->Ok_0.ts,
        e2.k.x == decoded(e)->Ok_0.confirmed,
        e2.k.c@ == fixed_chars(decoded(e)->Ok_0.close_price),
        e2.k.h@ == fixed_chars(field_value(e.k.h@)->Some_0),
        e2.k.l@ == fixed_chars(field_value(e.k.l@)->Some_0),
        e2.k.v@ == fixed_chars(field_value(e.k.v@)->Some_0),
    ensures
        decoded(e2) == decoded(e),
{
    lemma_fixed_chars_round_trip(decoded(e)->Ok_0.close_price);
    lemma_fixed_chars_round_trip(field_value(e.k.h@)->Some_0);
    lemma_fixed_chars_round_trip(field_value(e.k.l@)->Some_0);
    lemma_fixed_chars_round_trip(field_value(e.k.v@)->Some_0);
}

} // verus!
