use vstd::prelude::*;

verus! {

/// The kline fields of one exchange message that the monitor reads; numbers
/// come as decimal texts.
#[derive(Debug)]
pub struct Kline {
    /// Close price.
    pub c: String,
    /// High price.
    pub h: String,
    /// Low price.
    pub l: String,
    /// Volume accumulated in the bar so far.
    pub v: String,
    /// Whether the bar is closed.
    pub x: bool,
}

/// One kline message: event time in milliseconds and the kline.
#[allow(non_snake_case)]
#[derive(Debug)]
pub struct Event {
    pub E: u64,
    pub k: Kline,
}

} // verus!
