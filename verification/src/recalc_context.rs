//! The deterministic context a recalculation evaluates against: a pinned UTC
//! instant, the IANA time zone that instant is localized in, and the seed
//! that keys per-cell random draws. Same workbook and same context give the
//! same recomputed grid.

use chrono_tz::Tz;

use vstd::prelude::*;

use crate::recalc_util::{mix64, spec_mix64};

verus! {

#[verifier::external_type_specification]
#[verifier::external_body]
pub struct ExTz(Tz);

#[verifier::external_type_specification]
#[verifier::external_body]
pub struct ExTzParseError(chrono_tz::ParseError);

/// The zone chrono-tz's bundled table of IANA ids holds under `id`, or
/// `None` when it holds none: a static table lookup, a function of `id`
/// alone.
pub uninterp spec fn spec_time_zone(id: Seq<char>) -> Option<Tz>;

/// `<chrono_tz::Tz as FromStr>::from_str`: a lookup of `id` in chrono-tz's
/// bundled table of IANA ids. The contract claims that the lookup succeeds
/// exactly for the ids the table holds and gives the zone it holds under
/// `id`, both facts of `id` alone; which ids and zones the table holds is
/// not stated.
#[verifier::external_body]
fn parse_time_zone(id: &str) -> (r: Result<Tz, chrono_tz::ParseError>)
    ensures
        r is Ok <==> spec_time_zone(id@) is Some,
        r matches Ok(z) ==> spec_time_zone(id@) == Some(z),
{
    id.parse::<Tz>()
}

/// One step of the per-draw key: `h` mixed with a mixed identity part.
pub open spec fn key_step(h: u64, part: u64) -> u64 {
    spec_mix64(h ^ spec_mix64(part))
}

/// The per-draw RNG key `prf(seed, sheet_index, row, col, draw_index)`: the
/// seed mixed with each part of the cell identity in turn.
pub open spec fn spec_rng_key(seed: u64, sheet_index: u32, row: u32, col: u32, draw_index: u32) -> u64 {
    key_step(key_step(key_step(key_step(seed, sheet_index as u64), row as u64), col as u64), draw_index as u64)
}

/// The context of one recalculation.
#[derive(Debug, Clone, Copy, PartialEq, Eq)]
pub struct RecalcContext {
    timestamp_ms: i64,
    timezone: Tz,
    rng_seed: u64,
}

impl RecalcContext {
    /// The pinned instant, in milliseconds since the Unix epoch (UTC).
    pub closed spec fn spec_timestamp_ms(self) -> i64 {
        self.timestamp_ms
    }

    /// The zone the instant is localized in.
    pub closed spec fn spec_timezone(self) -> Tz {
        self.timezone
    }

    /// The seed of the per-cell random draws.
    pub closed spec fn spec_rng_seed(self) -> u64 {
        self.rng_seed
    }

    /// A context for the UTC instant `timestamp_ms` (Unix milliseconds), the
    /// IANA time zone `tz` (e.g. `"Etc/GMT"`, `"America/New_York"`) and the
    /// seed `rng_seed`. `None` when `tz` is not a known IANA id.
    pub fn new(timestamp_ms: i64, tz: &str, rng_seed: u64) -> (r: Option<Self>)
        ensures
            r is Some <==> spec_time_zone(tz@) is Some,
            r matches Some(c) ==> c.spec_timestamp_ms() == timestamp_ms && c.spec_rng_seed() == rng_seed && spec_time_zone(
                tz@,
            ) == Some(c.spec_timezone()),
    {
        match parse_time_zone(tz) {
            Ok(timezone) => Some(RecalcContext { timestamp_ms, timezone, rng_seed }),
            Err(_) => None,
        }
    }

    /// The pinned UTC instant (Unix milliseconds).
    pub fn timestamp_ms(&self) -> (t: i64)
        ensures
            t == self.spec_timestamp_ms(),
    {
        self.timestamp_ms
    }

    /// The time zone the instant is localized in.
    pub fn timezone(&self) -> (z: Tz)
        ensures
            z == self.spec_timezone(),
    {
        self.timezone
    }

    /// The seed of the per-cell random draws.
    pub fn rng_seed(&self) -> (s: u64)
        ensures
            s == self.spec_rng_seed(),
    {
        self.rng_seed
    }

    /// The pinned instant in nanoseconds since the Unix epoch, `None` when
    /// that overflows an `i64`.
    pub fn now_utc_nanos(&self) -> (r: Option<i64>)
        ensures
            r == (if i64::MIN <= self.spec_timestamp_ms() * 1_000_000 <= i64::MAX {
                Some((self.spec_timestamp_ms() * 1_000_000) as i64)
            } else {
                None::<i64>
            }),
    {
        self.timestamp_ms.checked_mul(1_000_000)
    }

    /// The per-draw RNG key `prf(rng_seed, sheet_index, row, col,
    /// draw_index)`: a deterministic mixing of the cell identity into the
    /// seed.
    pub fn rng_key(&self, sheet_index: u32, row: u32, col: u32, draw_index: u32) -> (k: u64)
        ensures
            k == spec_rng_key(self.spec_rng_seed(), sheet_index, row, col, draw_index),
    {
        let mut h: u64 = self.rng_seed;
        h = mix64(h ^ mix64(sheet_index as u64));
        h = mix64(h ^ mix64(row as u64));
        h = mix64(h ^ mix64(col as u64));
        h = mix64(h ^ mix64(draw_index as u64));
        h
    }
}

} // verus!
