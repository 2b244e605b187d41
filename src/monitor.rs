use vstd::prelude::*;
use crate::atr::{AtrError, atr_condition, check_atr_condition, ohlc_rows};
use crate::buffer::{
    BufferNode, DecodeError, SymbolBuffer, buffer_contents, buffer_new, buffer_push_back,
    calc_volume_delta, decoded, pushed, volume_delta,
};
use crate::event::Event;

verus! {

/// Window, in seconds, of each evaluation.
pub const ATR_CHECK_WINDOW_SECONDS: usize = 1;

/// Seconds the evaluator waits for the ring to fill before its first tick.
pub const WARMUP_WINDOW_SECONDS: u64 = 60;

/// The outcome of one evaluation of a symbol.
#[derive(Clone, Copy, Debug, PartialEq, Eq, Structural)]
pub struct Verdict {
    /// Both the ATR condition and the volume floor passed.
    pub ready: bool,
    /// The ATR value, fixed-point.
    pub atr: u64,
    /// The traded notional over the window, fixed-point.
    pub volume: i128,
}

/// The verdict for an ATR condition result and a volume delta: ready exactly when
/// the ATR condition held and the volume reaches the floor.
pub open spec fn verdict_of(outcome: (bool, u64), volume: int, min_vol_usdt: int) -> Verdict {
    Verdict { ready: outcome.0 && volume >= min_vol_usdt, atr: outcome.1, volume: volume as i128 }
}

/// Combines the ATR condition and the volume delta into a verdict.
pub fn decide(atr_result: (bool, u64), volume: i128, min_vol_usdt: u64) -> (r: Verdict)
    ensures
        r == verdict_of(atr_result, volume as int, min_vol_usdt as int),
{
    let (limit_passed, atr) = atr_result;
    Verdict { ready: limit_passed && volume >= min_vol_usdt as i128, atr, volume }
}

/// State of one monitored symbol: its thresholds and its ring of snapshots.
pub struct SymbolData {
    pub symbol: String,
    atr_threshold: u64,
    atr_min_candles_percent: u64,
    min_vol_usdt: u64,
    buffer: SymbolBuffer,
}

impl SymbolData {
    pub closed spec fn ring(&self) -> Seq<BufferNode> {
        buffer_contents(self.buffer)
    }

    pub closed spec fn name(&self) -> Seq<char> {
        self.symbol@
    }

    pub closed spec fn threshold(&self) -> u64 {
        self.atr_threshold
    }

    pub closed spec fn min_candles(&self) -> u64 {
        self.atr_min_candles_percent
    }

    pub closed spec fn min_volume(&self) -> u64 {
        self.min_vol_usdt
    }

    /// What an evaluation over `ATR_CHECK_WINDOW_SECONDS` reports for this state.
    pub open spec fn evaluation(&self) -> Verdict {
        let secs = ATR_CHECK_WINDOW_SECONDS as int;
        verdict_of(
            atr_condition(ohlc_rows(self.ring(), secs), secs, self.threshold() as int, self.min_candles() as int),
            volume_delta(self.ring(), secs),
            self.min_volume() as int,
        )
    }

    /// A symbol with an empty ring. Thresholds are fixed-point: a percent,
    /// a fraction and a notional.
    pub fn new(symbol: &str, atr_threshold: u64, atr_min_candles_percent: u64, min_vol_usdt: u64) -> (r: Self)
        ensures
            r.name() == symbol@,
            r.ring() == Seq::<BufferNode>::empty(),
            r.threshold() == atr_threshold,
            r.min_candles() == atr_min_candles_percent,
            r.min_volume() == min_vol_usdt,
    {
        SymbolData {
            symbol: symbol.to_owned(),
            atr_threshold,
            atr_min_candles_percent,
            min_vol_usdt,
            buffer: buffer_new(),
        }
    }

    /// The ring of snapshots.
    pub fn buffer(&self) -> (r: &SymbolBuffer)
        ensures
            buffer_contents(*r) == self.ring(),
    {
        &self.buffer
    }

    /// Decodes one message and appends its snapshot to the ring; a message that
    /// does not decode leaves the state as it was.
    pub fn ingest(&mut self, event: &Event) -> (r: Result<BufferNode, DecodeError>)
        ensures
            r == decoded(*event),
            r is Ok ==> final(self).ring() == pushed(old(self).ring(), r->Ok_0),
            r is Err ==> final(self).ring() == old(self).ring(),
            final(self).name() == old(self).name(),
            final(self).threshold() == old(self).threshold(),
            final(self).min_candles() == old(self).min_candles(),
            final(self).min_volume() == old(self).min_volume(),
    {
        let node = BufferNode::from_kline_event(event);
        if let Ok(n) = node {
            buffer_push_back(&mut self.buffer, n);
        }
        node
    }

    /// One evaluator tick: the ATR condition and the volume delta over
    /// `ATR_CHECK_WINDOW_SECONDS`, combined into a verdict. The state is only read.
    pub fn evaluate(&mut self) -> (r: Result<Verdict, AtrError>)
        ensures
            *final(self) == *old(self),
            r == Ok::<Verdict, AtrError>(old(self).evaluation()),
    {
        let atr_result = check_atr_condition(
            &self.symbol,
            &mut self.buffer,
            ATR_CHECK_WINDOW_SECONDS,
            self.atr_threshold,
            self.atr_min_candles_percent,
        );
        let vol_usdt = calc_volume_delta(&self.buffer, ATR_CHECK_WINDOW_SECONDS as i64);
        match atr_result {
            Ok(outcome) => Ok(decide(outcome, vol_usdt, self.min_vol_usdt)),
            Err(e) => Err(e),
        }
    }
}


/// Evaluation depends on the ring and the thresholds alone: two ticks on an
/// unchanged state give the same verdict.
pub proof fn lemma_evaluation_repeats(a: SymbolData, b: SymbolData)
    requires
        a.ring() == b.ring(),
        a.threshold() == b.threshold(),
        a.min_candles() == b.min_candles(),
        a.min_volume() == b.min_volume(),
    ensures
        a.evaluation() == b.evaluation(),
{
}

} // verus!
