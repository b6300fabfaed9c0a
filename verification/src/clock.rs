//! Readings of the UTC clock and times read back from text, kept as plain
//! numbers: seconds and nanoseconds since the Unix epoch, with the same
//! instant written as RFC 3339 text by chrono; and spot identifiers, made
//! of a millisecond and a number within it so that no two issued by one
//! source are equal.

use vstd::prelude::*;
use crate::format::{hex5, int_text, lemma_hex5_injective, lemma_int_text_injective, push_hex5, push_int_text};

verus! {

/// How far from the Unix epoch, in seconds either way, a clock reading may
/// lie: well inside the years chrono can represent (about ±262,000).
pub const CLOCK_LIMIT: i64 = 8_000_000_000_000;

/// What `chrono::DateTime::<Utc>::to_rfc3339` writes for the instant
/// `secs` seconds and `nanos` nanoseconds after the epoch.
pub uninterp spec fn rfc3339_text(secs: i64, nanos: u32) -> Seq<char>;

/// What reading `s` as a `chrono::DateTime<Utc>` (its `FromStr`, a relaxed
/// RFC 3339 reader) gives: seconds since the epoch and nanoseconds of the
/// second, or nothing when `s` is not such a time.
pub uninterp spec fn parsed_utc(s: Seq<char>) -> Option<(i64, u32)>;

/// A reading of the UTC clock: seconds and nanoseconds since the Unix epoch,
/// and the same instant written as RFC 3339 text.
pub struct ClockReading {
    pub secs: i64,
    pub nanos: u32,
    pub rfc3339: String,
}

/// A clock reading within `CLOCK_LIMIT` of the epoch, with fewer than a
/// second of nanoseconds, whose text is chrono's RFC 3339 text of the same
/// instant and reads back as that instant.
pub open spec fn valid_reading(r: ClockReading) -> bool {
    &&& -CLOCK_LIMIT <= r.secs <= CLOCK_LIMIT
    &&& r.nanos < 1_000_000_000
    &&& r.rfc3339@ == rfc3339_text(r.secs, r.nanos)
    &&& parsed_utc(r.rfc3339@) == Some((r.secs, r.nanos))
}

/// Writes the instant with `chrono::DateTime::from_timestamp` and
/// `DateTime::to_rfc3339`.  The contract claims that the text is the one
/// named `rfc3339_text`, and that chrono's relaxed RFC 3339 reader gives
/// the same instant back: chrono writes the year in four digits (with a
/// sign and at least four digits outside 0000 to 9999, which the reader
/// takes as a signed year of any length), then `-MM-DDTHH:MM:SS`, the
/// fraction in 0, 3, 6 or 9 digits, and `+00:00`.
/// Within `CLOCK_LIMIT` and below a second of nanoseconds `from_timestamp`
/// always gives a time, so its `None` arm is never taken.
#[verifier::external_body]
fn rfc3339_of(secs: i64, nanos: u32) -> (r: String)
    requires
        -CLOCK_LIMIT <= secs <= CLOCK_LIMIT,
        nanos < 1_000_000_000,
    ensures
        r@ == rfc3339_text(secs, nanos),
        parsed_utc(r@) == Some((secs, nanos)),
{
    match chrono::DateTime::from_timestamp(secs, nanos) {
        Some(t) => t.to_rfc3339(),
        None => String::new(),
    }
}

/// Reads `s` with `str::parse::<chrono::DateTime<chrono::Utc>>`; the result,
/// which depends on `s` alone, is named `parsed_utc`.
#[verifier::external_body]
pub fn parse_utc(s: &str) -> (r: Option<(i64, u32)>)
    ensures
        r == parsed_utc(s@),
{
    match s.parse::<chrono::DateTime<chrono::Utc>>() {
        Ok(t) => Some((t.timestamp(), t.timestamp_subsec_nanos())),
        Err(_) => None,
    }
}

/// Where the system clock stands: a duration after the Unix epoch or one
/// before it, in whole seconds and the nanoseconds beyond them.
pub enum EpochOffset {
    After(u64, u32),
    Before(u64, u32),
}

/// The nanoseconds of an offset.
pub open spec fn offset_nanos(o: EpochOffset) -> u32 {
    match o {
        EpochOffset::After(_, n) => n,
        EpochOffset::Before(_, n) => n,
    }
}

/// The instant of an offset as seconds since the epoch and nanoseconds of
/// the second (from 0 to 999,999,999), as chrono counts it.
pub open spec fn offset_instant(o: EpochOffset) -> (int, int) {
    match o {
        EpochOffset::After(s, n) => (s as int, n as int),
        EpochOffset::Before(s, n) => if n == 0 {
            (-s, 0)
        } else {
            (-s - 1, 1_000_000_000 - n)
        },
    }
}

/// Reads the system clock with `std::time::SystemTime::now` and measures it
/// from `UNIX_EPOCH` with `duration_since`, whose error holds the duration
/// when the clock stands before the epoch.  Which instant comes back depends
/// on the time and is not stated; the contract claims only what std
/// documents of `Duration::subsec_nanos`: it is below one second.
#[verifier::external_body]
fn system_clock() -> (r: EpochOffset)
    ensures
        offset_nanos(r) < 1_000_000_000,
{
    match std::time::SystemTime::now().duration_since(std::time::UNIX_EPOCH) {
        Ok(d) => EpochOffset::After(d.as_secs(), d.subsec_nanos()),
        Err(e) => EpochOffset::Before(e.duration().as_secs(), e.duration().subsec_nanos()),
    }
}

/// The clock reading for the offset `o`: none when its instant lies farther
/// than `CLOCK_LIMIT` from the epoch, else the instant with chrono's text.
pub fn reading_at(o: EpochOffset) -> (r: Option<ClockReading>)
    requires
        offset_nanos(o) < 1_000_000_000,
    ensures
        r is Some <==> -CLOCK_LIMIT <= offset_instant(o).0 <= CLOCK_LIMIT,
        r matches Some(c) ==> valid_reading(c) && (c.secs as int, c.nanos as int) == offset_instant(o),
{
    let limit: u64 = 8_000_000_000_000;
    let (secs, nanos): (i64, u32) = match o {
        EpochOffset::After(s, n) => {
            if s > limit {
                return None;
            }
            (s as i64, n)
        },
        EpochOffset::Before(s, n) => {
            if n == 0 {
                if s > limit {
                    return None;
                }
                (-(s as i64), 0)
            } else {
                if s >= limit {
                    return None;
                }
                (-(s as i64) - 1, 1_000_000_000 - n)
            }
        },
    };
    let text = rfc3339_of(secs, nanos);
    Some(ClockReading { secs, nanos, rfc3339: text })
}

/// Reads the UTC clock: none when it stands farther than `CLOCK_LIMIT` from
/// the epoch.  Which instant is read is not stated.
pub fn read_clock() -> (r: Option<ClockReading>)
    ensures
        r matches Some(c) ==> valid_reading(c),
{
    reading_at(system_clock())
}

/// The UTC date of the instant `secs`: whole days since 1970-01-01, counted
/// down for instants before it.
pub open spec fn utc_date(secs: int) -> int {
    secs / 86400
}

/// The UTC date of an instant is the day that holds it: the instant lies
/// at or after the start of that day and before the start of the next.
pub proof fn law_utc_date_holds_instant(secs: int)
    ensures
        86400 * utc_date(secs) <= secs < 86400 * utc_date(secs) + 86400,
{
}

/// The UTC date of the instant `secs`.
pub fn date_of(secs: i64) -> (r: i64)
    ensures
        r == utc_date(secs as int),
{
    if secs >= 0 {
        secs / 86400
    } else {
        let a: i128 = -(secs as i128);
        let q: i128 = (a + 86399) / 86400;
        proof {
            let ai = a as int;
            assert((-ai) / 86400 == -((ai + 86399) / 86400)) by (nonlinear_arith)
                requires
                    ai > 0,
            ;
            assert(q <= 106751991167301);
        }
        -(q as i64)
    }
}

/// The instant `hours` hours before the reading `(secs, nanos)`.
pub open spec fn cutoff_of(secs: int, nanos: int, hours: int) -> (int, int) {
    (secs - 3600 * hours, nanos)
}

/// The time `t` (seconds, nanoseconds) lies after the instant `c`.
pub open spec fn later_than(t: (i64, u32), c: (int, int)) -> bool {
    t.0 > c.0 || (t.0 == c.0 && t.1 > c.1)
}

/// The time stamp text `stamp` reads as a time after `c`.
pub open spec fn stamp_after(stamp: Seq<char>, c: (int, int)) -> bool {
    match parsed_utc(stamp) {
        Some(t) => later_than(t, c),
        None => false,
    }
}

/// Whether the time stamp text `stamp` reads as a time after `(c_secs, c_nanos)`.
pub fn is_stamp_after(stamp: &str, c_secs: i128, c_nanos: u32) -> (r: bool)
    ensures
        r == stamp_after(stamp@, (c_secs as int, c_nanos as int)),
{
    match parse_utc(stamp) {
        Some(t) => (t.0 as i128) > c_secs || ((t.0 as i128) == c_secs && t.1 > c_nanos),
        None => false,
    }
}

/// The milliseconds since the epoch of a reading (`timestamp_millis`).
pub open spec fn millis_of(secs: int, nanos: int) -> int {
    secs * 1000 + nanos / 1_000_000
}

/// The five hexadecimal digits that follow the time in a spot identifier:
/// bits 44 to 63 of the wrapping 64-bit product of the milliseconds and
/// 6364136223846793005.
pub open spec fn id_suffix(ms: int) -> nat {
    (((ms as u64) as nat * 6364136223846793005nat) % 0x1_0000_0000_0000_0000) / 0x1000_0000_0000 % 0x10_0000
}

/// The text of the spot identifier numbered `n` within the millisecond
/// `ms`: the milliseconds, `-`, and `id_suffix(ms) + n` (modulo 2^20) as
/// five hexadecimal digits.  The first identifier of a millisecond (`n`
/// zero) is the millisecond and its own suffix.
pub open spec fn id_text(ms: int, n: int) -> Seq<char> {
    int_text(ms) + seq!['-'] + hex5(((id_suffix(ms) + n) % 0x10_0000) as nat)
}

/// The text of the spot identifier numbered `n` within the millisecond `ms`.
pub fn spot_id(ms: i64, n: u32) -> (r: String)
    requires
        n < 0x10_0000,
    ensures
        r@ == id_text(ms as int, n as int),
{
    let x: u64 = ms as u64;
    let prod: u128 = x as u128 * 6364136223846793005u128;
    let low: u128 = prod % 0x1_0000_0000_0000_0000u128;
    let suffix: u128 = low / 0x1000_0000_0000u128 % 0x10_0000u128;
    let v: u128 = (suffix + n as u128) % 0x10_0000u128;
    let mut out: Vec<char> = Vec::new();
    push_int_text(&mut out, ms);
    out.push('-');
    push_hex5(&mut out, v as u64);
    assert(out@ =~= id_text(ms as int, n as int));
    crate::text::string_of(&out)
}

/// Identifier `a` (a millisecond and a number within it) was issued before
/// identifier `b`.
pub open spec fn pair_before(a: (int, int), b: (int, int)) -> bool {
    a.0 < b.0 || (a.0 == b.0 && a.1 < b.1)
}

/// A number within a millisecond: below 2^20.
pub open spec fn pair_ok(p: (int, int)) -> bool {
    0 <= p.1 < 0x10_0000
}

/// The identifier to issue after `last` when the clock reads `ms`: the
/// first of `ms` when `ms` is later than `last`; else the one after `last`
/// (the next number, or the first of the next millisecond once 2^20 numbers
/// are used); none once the last millisecond an `i64` holds is used up.
pub open spec fn next_pair(last: Option<(int, int)>, ms: int) -> Option<(int, int)> {
    match last {
        None => Some((ms, 0)),
        Some(l) => if ms > l.0 {
            Some((ms, 0))
        } else if l.1 + 1 < 0x10_0000 {
            Some((l.0, l.1 + 1))
        } else if l.0 < i64::MAX {
            Some((l.0 + 1, 0))
        } else {
            None
        },
    }
}

/// The last identifier issued, if any, is a millisecond an `i64` holds and
/// a number below 2^20.
pub open spec fn ids_ok(last: Option<(int, int)>) -> bool {
    last matches Some(p) ==> i64::MIN <= p.0 <= i64::MAX && pair_ok(p)
}

/// The source of spot identifiers: the last identifier issued, as its
/// millisecond and its number within it.
pub struct IdSource {
    last: Option<(i64, u32)>,
}

impl View for IdSource {
    type V = Option<(int, int)>;

    closed spec fn view(&self) -> Option<(int, int)> {
        match self.last {
            Some(p) => Some((p.0 as int, p.1 as int)),
            None => None,
        }
    }
}

impl IdSource {
    /// The last identifier is a millisecond an `i64` holds and a number below 2^20.
    pub open spec fn wf(&self) -> bool {
        ids_ok(self@)
    }

    /// A source that has issued nothing.
    pub fn new() -> (r: IdSource)
        ensures
            r.wf(),
            r@ is None,
    {
        IdSource { last: None }
    }

    /// The identifier to issue next when the clock reads `ms` (see `next_pair`).
    pub fn next(&self, ms: i64) -> (r: Option<(i64, u32)>)
        requires
            self.wf(),
        ensures
            match r {
                Some(p) => next_pair(self@, ms as int) == Some((p.0 as int, p.1 as int)) && p.1 < 0x10_0000,
                None => next_pair(self@, ms as int) is None,
            },
    {
        match self.last {
            None => Some((ms, 0)),
            Some(l) => if ms > l.0 {
                Some((ms, 0))
            } else if l.1 + 1 < 0x10_0000 {
                Some((l.0, l.1 + 1))
            } else if l.0 < i64::MAX {
                Some((l.0 + 1, 0))
            } else {
                None
            },
        }
    }

    /// Issues the identifier `next_pair` gives for the clock at `ms`.
    pub fn advance(&mut self, ms: i64)
        requires
            old(self).wf(),
            next_pair(old(self)@, ms as int) is Some,
        ensures
            final(self).wf(),
            final(self)@ == next_pair(old(self)@, ms as int),
    {
        match self.next(ms) {
            Some(p) => {
                self.last = Some(p);
            },
            None => {},
        }
    }
}

/// Each identifier comes after the one issued before it, and numbers stay
/// below 2^20; the first one issued, or one at a later millisecond, is the
/// first of its millisecond.
pub proof fn law_next_pair_later(last: Option<(int, int)>, ms: int)
    requires
        last matches Some(l) ==> pair_ok(l),
    ensures
        next_pair(last, ms) matches Some(p) ==> {
            &&& pair_ok(p)
            &&& last matches Some(l) ==> pair_before(l, p)
            &&& (match last {
                Some(l) => ms > l.0,
                None => true,
            }) ==> p == (ms, 0int)
        },
{
}

proof fn lemma_id_parts(ma: int, mb: int, x: nat, y: nat)
    requires
        int_text(ma) + seq!['-'] + hex5(x) == int_text(mb) + seq!['-'] + hex5(y),
        x < 0x10_0000,
        y < 0x10_0000,
    ensures
        ma == mb,
        x == y,
{
    let ta = int_text(ma) + seq!['-'] + hex5(x);
    let pa = int_text(ma) + seq!['-'];
    let pb = int_text(mb) + seq!['-'];
    assert(hex5(x).len() == 5);
    assert(hex5(y).len() == 5);
    let tb = int_text(mb) + seq!['-'] + hex5(y);
    assert(ta.len() == pa.len() + 5);
    assert(tb.len() == pb.len() + 5);
    assert(ta == tb);
    assert(pa.len() == pb.len());
    assert(pb =~= tb.subrange(0, pb.len() as int));
    assert(hex5(y) =~= tb.subrange(pb.len() as int, tb.len() as int));
    assert(pa =~= ta.subrange(0, pa.len() as int));
    assert(pb =~= ta.subrange(0, pa.len() as int));
    assert(int_text(ma) =~= pa.drop_last());
    assert(int_text(mb) =~= pb.drop_last());
    lemma_int_text_injective(ma, mb);
    assert(hex5(x) =~= ta.subrange(pa.len() as int, ta.len() as int));
    assert(hex5(y) =~= ta.subrange(pa.len() as int, ta.len() as int));
    lemma_hex5_injective(x, y);
}

/// Spot identifiers issued one after the other differ: identifiers of two
/// different pairs are different texts.
pub proof fn law_ids_differ(a: (int, int), b: (int, int))
    requires
        pair_before(a, b),
        pair_ok(a),
        pair_ok(b),
    ensures
        id_text(a.0, a.1) != id_text(b.0, b.1),
{
    let sa = id_suffix(a.0);
    let sb = id_suffix(b.0);
    let x = ((sa + a.1) % 0x10_0000) as nat;
    let y = ((sb + b.1) % 0x10_0000) as nat;
    if id_text(a.0, a.1) == id_text(b.0, b.1) {
        lemma_id_parts(a.0, b.0, x, y);
        assert(sa == sb);
        assert(false) by (nonlinear_arith)
            requires
                (sa + a.1) % 0x10_0000 == (sa + b.1) % 0x10_0000,
                0 <= a.1 < b.1 < 0x10_0000,
                sa >= 0,
        ;
    }
}

/// The milliseconds since the epoch of a valid reading.
pub fn reading_millis(now: &ClockReading) -> (r: i64)
    requires
        valid_reading(*now),
    ensures
        r == millis_of(now.secs as int, now.nanos as int),
{
    now.secs * 1000 + (now.nanos / 1_000_000) as i64
}

/// The identifier the source `ids` issues after `last` for the clock
/// reading `now`.
pub open spec fn issued_at(last: Option<(int, int)>, now: ClockReading) -> Option<(int, int)> {
    next_pair(last, millis_of(now.secs as int, now.nanos as int))
}

/// A new spot identifier from `ids`, made from the clock: the millisecond
/// of the reading (or, when the clock stands at or before the last
/// identifier issued, that identifier's millisecond) with a number within
/// it, so that it differs from every identifier `ids` issued before.  None,
/// with `ids` unchanged, when the clock cannot be read or the identifiers
/// are used up.
pub fn unique_id(ids: &mut IdSource) -> (r: Option<String>)
    requires
        old(ids).wf(),
    ensures
        final(ids).wf(),
        r is None ==> final(ids)@ == old(ids)@,
        r matches Some(id) ==> {
            &&& final(ids)@ matches Some(p)
            &&& id@ == id_text(p.0, p.1)
            &&& old(ids)@ matches Some(q) ==> pair_before(q, p)
            &&& exists|now: ClockReading| valid_reading(now) && final(ids)@ == #[trigger] issued_at(old(ids)@, now)
        },
{
    match read_clock() {
        Some(now) => {
            let ms = reading_millis(&now);
            match ids.next(ms) {
                Some(p) => {
                    let id = spot_id(p.0, p.1);
                    ids.advance(ms);
                    assert(final(ids)@ == issued_at(old(ids)@, now));
                    Some(id)
                },
                None => None,
            }
        },
        None => None,
    }
}

} // verus!
