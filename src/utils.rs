use vstd::prelude::*;

verus! {

/// Price in minor currency units.
pub type Price = usize;

/// Number of shares.
pub type Volume = usize;

/// Notional value (price times volume), in minor currency units.
pub type Value = usize;

/// Milliseconds since midnight of the trading day.
pub type Time = i64;

/// Side of an order, or the aggressor side of a trade.
#[derive(Debug, Clone, Copy, PartialEq, Eq, Structural)]
pub enum Direction {
    Buy,
    Sell,
}

impl Direction {
    /// Reads the tape's side flag: `"B"` is a buy and `"S"` a sell; no
    /// other flag is a side.
    pub fn from_flag(flag: &str) -> (r: Direction)
        requires
            flag@ == seq!['B'] || flag@ == seq!['S'],
        ensures
            flag@ == seq!['B'] ==> r == Direction::Buy,
            flag@ == seq!['S'] ==> r == Direction::Sell,
    {
        let c = flag.get_char(0);
        if c == 'B' {
            Direction::Buy
        } else {
            Direction::Sell
        }
    }
}

/// Milliseconds since midnight denoted by the compact encoding `hhmmssmmm`
/// (hours, then two digits of minutes, two of seconds, three of milliseconds).
pub open spec fn decoded_time(t: int) -> int {
    let millis = t % 1000;
    let secs = (t / 1000) % 100;
    let mins = (t / 1000 / 100) % 100;
    let hours = t / 1000 / 100 / 100;
    ((hours * 3600 + mins * 60 + secs) * 1000 + millis)
}

/// The compact encoding `hhmmssmmm` of a number of milliseconds since midnight.
pub open spec fn encoded_time(t: int) -> int {
    let millis = t % 1000;
    let s = t / 1000;
    let hours = s / 3600;
    let mins = (s % 3600) / 60;
    let secs = (s % 3600) % 60;
    ((hours * 10000 + mins * 100 + secs) * 1000 + millis)
}

/// An encoded time whose minute and second fields are below 60.
pub open spec fn is_valid_encoded_time(t: int) -> bool {
    &&& 0 <= t <= i64::MAX
    &&& t <= usize::MAX
    &&& (t / 1000) % 100 < 60
    &&& (t / 1000 / 100) % 100 < 60
}

/// Decodes a compact `hhmmssmmm` time into milliseconds since midnight.
pub fn time_parser(t: usize) -> (r: Time)
    requires
        t <= i64::MAX,
    ensures
        r == decoded_time(t as int),
{
    let m_secs = t % 1000;
    let t1 = t / 1000;
    let secs = t1 % 100;
    let t2 = t1 / 100;
    let mins = t2 % 100;
    let hours = t2 / 100;
    proof {
        assert(hours * 100 <= t2) by (nonlinear_arith)
            requires hours == t2 / 100;
        assert(t2 * 100 <= t1) by (nonlinear_arith)
            requires t2 == t1 / 100;
        assert(t1 * 1000 <= t) by (nonlinear_arith)
            requires t1 == t / 1000;
        assert((hours * 3600 + mins * 60 + secs) * 1000 + m_secs <= t) by (nonlinear_arith)
            requires
                hours * 100 <= t2,
                t2 * 100 <= t1,
                t1 * 1000 <= t,
                mins < 100,
                secs < 100,
                m_secs < 1000,
                t2 == hours * 100 + mins,
                t1 == t2 * 100 + secs,
                t == t1 * 1000 + m_secs,
        ;
    }
    ((hours * 3600 + mins * 60 + secs) * 1000 + m_secs) as Time
}

/// Encodes milliseconds since midnight as a compact `hhmmssmmm` time.
pub fn time_unparser(t: Time) -> (r: usize)
    requires
        0 <= t,
        encoded_time(t as int) <= i64::MAX,
        encoded_time(t as int) <= usize::MAX,
    ensures
        r == encoded_time(t as int),
{
    let m_secs = t % 1000;
    let s = t / 1000;
    let hours = s / 3600;
    let rest = s % 3600;
    let mins = rest / 60;
    let secs = rest % 60;
    proof {
        assert(m_secs >= 0 && s >= 0 && hours >= 0 && rest >= 0 && mins >= 0 && secs >= 0);
        assert(0 <= hours * 10000 <= hours * 10000 + mins * 100 + secs) by (nonlinear_arith)
            requires hours >= 0, mins >= 0, secs >= 0;
        assert((hours * 10000 + mins * 100 + secs) * 1000 <= (hours * 10000 + mins * 100 + secs) * 1000 + m_secs);
        assert(encoded_time(t as int) == (hours * 10000 + mins * 100 + secs) * 1000 + m_secs);
    }
    ((hours * 10000 + mins * 100 + secs) * 1000 + m_secs) as usize
}

/// Decoding and then encoding a valid compact time gives it back.
pub proof fn lemma_time_round_trip(x: int)
    requires
        is_valid_encoded_time(x),
    ensures
        0 <= decoded_time(x) <= i64::MAX,
        encoded_time(decoded_time(x)) == x,
{
    let ms = x % 1000;
    let t1 = x / 1000;
    let s = t1 % 100;
    let t2 = t1 / 100;
    let m = t2 % 100;
    let h = t2 / 100;
    assert(x == t1 * 1000 + ms) by (nonlinear_arith)
        requires t1 == x / 1000, ms == x % 1000;
    assert(t1 == t2 * 100 + s) by (nonlinear_arith)
        requires t2 == t1 / 100, s == t1 % 100;
    assert(t2 == h * 100 + m) by (nonlinear_arith)
        requires h == t2 / 100, m == t2 % 100;
    assert(0 <= ms < 1000 && 0 <= s < 60 && 0 <= m < 60 && h >= 0);
    let total = h * 3600 + m * 60 + s;
    let d = total * 1000 + ms;
    assert(d == decoded_time(x));
    assert(0 <= d <= x) by (nonlinear_arith)
        requires
            d == (h * 3600 + m * 60 + s) * 1000 + ms,
            x == ((h * 100 + m) * 100 + s) * 1000 + ms,
            0 <= ms, 0 <= s, 0 <= m, 0 <= h;
    vstd::arithmetic::div_mod::lemma_fundamental_div_mod_converse(d, 1000, total, ms);
    vstd::arithmetic::div_mod::lemma_fundamental_div_mod_converse(total, 3600, h, m * 60 + s);
    vstd::arithmetic::div_mod::lemma_fundamental_div_mod_converse(m * 60 + s, 60, m, s);
    assert(encoded_time(d) == ((h * 10000 + m * 100 + s) * 1000 + ms));
    assert(((h * 10000 + m * 100 + s) * 1000 + ms) == x) by (nonlinear_arith)
        requires x == ((h * 100 + m) * 100 + s) * 1000 + ms;
}

} // verus!
