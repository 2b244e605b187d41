use vstd::prelude::*;

verus! {

/// The one moving average the ATR condition knows.
pub const DEFAULT_ATR_MAT: &'static str = "EMA";

/// Fraction of the window that must hold rows, fixed-point (0.8).
pub const DEFAULT_ATR_CANDLES_PERCENT: u64 = 80_000_000;

/// ATR threshold in percent, fixed-point (0.35).
pub const DEFAULT_ATR_THRESHOLD: u64 = 35_000_000;

/// Monitor settings; the real-valued ones are fixed-point.
#[derive(Debug)]
pub struct Config {
    pub atr_moving_average_type: String,
    pub atr_threshold: u64,
    pub atr_min_candles_percent: u64,
    pub min_vol_usdt: u64,
    pub symbols: Vec<String>,
}

/// A setting that cannot be run with.
#[derive(Clone, Copy, Debug, PartialEq, Eq, Structural)]
pub enum ConfigError {
    /// No symbol is configured.
    NoSymbols,
    /// The minimal traded volume is zero.
    NoMinVolume,
}

/// A setting that was replaced by its default.
#[derive(Clone, Copy, Debug, PartialEq, Eq, Structural)]
pub enum ConfigWarning {
    /// The moving average type is not EMA; EMA is used.
    MovingAverageType,
    /// The minimal candle fraction is zero; the default is used.
    MinCandlesPercent,
    /// The ATR threshold is zero; the default is used.
    AtrThreshold,
}

/// Whether a moving average name is the accepted one, `"EMA"`.
pub open spec fn is_ema(name: Seq<char>) -> bool {
    name == DEFAULT_ATR_MAT@
}

/// The warnings that checking `c` gives, in the order the settings are checked.
pub open spec fn warnings_of(c: Config) -> Seq<ConfigWarning> {
    let w1 = if is_ema(c.atr_moving_average_type@) {
        Seq::<ConfigWarning>::empty()
    } else {
        seq![ConfigWarning::MovingAverageType]
    };
    let w2 = if c.atr_min_candles_percent == 0 {
        w1.push(ConfigWarning::MinCandlesPercent)
    } else {
        w1
    };
    if c.atr_threshold == 0 {
        w2.push(ConfigWarning::AtrThreshold)
    } else {
        w2
    }
}

/// `out` is `c` with each unusable optional setting replaced by its default.
pub open spec fn corrected(c: Config, out: Config) -> bool {
    &&& out.symbols@ == c.symbols@
    &&& out.min_vol_usdt == c.min_vol_usdt
    &&& out.atr_moving_average_type@ == (if is_ema(c.atr_moving_average_type@) {
        c.atr_moving_average_type@
    } else {
        DEFAULT_ATR_MAT@
    })
    &&& out.atr_min_candles_percent == (if c.atr_min_candles_percent == 0 {
        DEFAULT_ATR_CANDLES_PERCENT
    } else {
        c.atr_min_candles_percent
    })
    &&& out.atr_threshold == (if c.atr_threshold == 0 {
        DEFAULT_ATR_THRESHOLD
    } else {
        c.atr_threshold
    })
}

impl Config {
    /// Checks the settings: no symbols or a zero minimal volume is fatal; a
    /// moving average other than EMA, a zero candle fraction or a zero
    /// threshold is replaced by the default, with a warning for each.
    pub fn validated(self) -> (r: Result<(Config, Vec<ConfigWarning>), ConfigError>)
        ensures
            self.symbols@.len() == 0 ==> r == Err::<(Config, Vec<ConfigWarning>), ConfigError>(ConfigError::NoSymbols),
            self.symbols@.len() != 0 && self.min_vol_usdt == 0 ==> r == Err::<(Config, Vec<ConfigWarning>), ConfigError>(
                ConfigError::NoMinVolume,
            ),
            self.symbols@.len() != 0 && self.min_vol_usdt != 0 ==> r is Ok,
            r is Ok ==> corrected(self, r->Ok_0.0) && r->Ok_0.1@ == warnings_of(self),
    {
        let ghost input = self;
        let mut config = self;
        if config.symbols.len() == 0 {
            return Err(ConfigError::NoSymbols);
        }
        if config.min_vol_usdt == 0 {
            return Err(ConfigError::NoMinVolume);
        }
        let mut warnings: Vec<ConfigWarning> = Vec::new();
        let default_name = DEFAULT_ATR_MAT.to_owned();
        proof {
            reveal_strlit("EMA");
        }
        if config.atr_moving_average_type != default_name {
            warnings.push(ConfigWarning::MovingAverageType);
            config.atr_moving_average_type = default_name;
        }
        if config.atr_min_candles_percent == 0 {
            warnings.push(ConfigWarning::MinCandlesPercent);
            config.atr_min_candles_percent = DEFAULT_ATR_CANDLES_PERCENT;
        }
        if config.atr_threshold == 0 {
            warnings.push(ConfigWarning::AtrThreshold);
            config.atr_threshold = DEFAULT_ATR_THRESHOLD;
        }
        assert(warnings@ =~= warnings_of(input));
        Ok((config, warnings))
    }
}

} // verus!
