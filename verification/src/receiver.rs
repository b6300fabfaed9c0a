//! The decisions of a HamAlert receiver: which spots of the incoming lines
//! are new, the buffer of recent spots, and the count of spots of the day.
//!
//! The connection itself (connecting, logging in, reading lines, keeping the
//! link alive, storing and sending) is done by the caller, which hands each
//! line to `Receiver::accept_line` and acts on what comes back.

use vstd::prelude::*;
use vstd::hash_set::StringHashSet;
use crate::clock::{
    cutoff_of, date_of, id_text, ids_ok, millis_of, pair_ok, is_stamp_after, issued_at, law_ids_differ, law_next_pair_later, pair_before,
    parse_utc, parsed_utc, read_clock, reading_millis, spot_id, stamp_after, utc_date, valid_reading, ClockReading,
    IdSource,
};
use crate::json::{json_members};
use crate::spot::{
    dx_spot, json_line_has_spot, json_spot, spot_dedup_key, spot_from_dx_line,
    spot_from_json_line, spot_key, Spot, SpotView,
};
use crate::text::{all_space, chars_of, lemma_trim_padding, starts_with, string_of, trim, trim_chars};

verus! {

/// The most spots kept in the buffer.
pub const MAX_SPOTS: usize = 500;

/// The most spots sent when a connection starts.
pub const INIT_SPOTS: usize = 200;

/// The contents of a list of spots.
pub open spec fn spot_views(v: Seq<Spot>) -> Seq<SpotView> {
    v.map_values(|s: Spot| s@)
}

/// `h` held within 1 to 8 hours.
pub open spec fn clamp_hours(h: int) -> int {
    if h < 1 {
        1
    } else if h > 8 {
        8
    } else {
        h
    }
}

/// The spots of `spots` whose time stamp reads as a time after `c`, in order.
pub open spec fn keep_after(spots: Seq<SpotView>, c: (int, int)) -> Seq<SpotView>
    decreases spots.len(),
{
    if spots.len() == 0 {
        Seq::empty()
    } else {
        let kept = keep_after(spots.drop_last(), c);
        if stamp_after(spots.last().received_at, c) {
            kept.push(spots.last())
        } else {
            kept
        }
    }
}

/// The time stamp text reads as a time on the UTC date `date`.
pub open spec fn stamped_on_date(stamp: Seq<char>, date: int) -> bool {
    match parsed_utc(stamp) {
        Some(t) => utc_date(t.0 as int) == date,
        None => false,
    }
}

/// How many of `spots` are stamped on the UTC date `date`.
pub open spec fn count_on_date(spots: Seq<SpotView>, date: int) -> nat
    decreases spots.len(),
{
    if spots.len() == 0 {
        0
    } else {
        count_on_date(spots.drop_last(), date) + if stamped_on_date(spots.last().received_at, date) {
            1nat
        } else {
            0nat
        }
    }
}

/// The keys of `spots`.
pub open spec fn keys_of(spots: Seq<SpotView>) -> Set<Seq<char>>
    decreases spots.len(),
{
    if spots.len() == 0 {
        Set::empty()
    } else {
        keys_of(spots.drop_last()).insert(spot_key(spots.last()))
    }
}

/// The state of a receiver.
pub struct ReceiverView {
    /// The buffer, newest spot first.
    pub spots: Seq<SpotView>,
    pub spots_today: int,
    /// The UTC date the spots of the day were counted on.
    pub last_date: int,
    pub max_hours: int,
    /// The keys of the spots seen since the connection started.
    pub seen: Set<Seq<char>>,
    /// The last spot identifier issued.
    pub ids: Option<(int, int)>,
}

/// The state of a receiver: the buffer of recent spots (newest first), the
/// number of spots of the current UTC day, the date they were counted on, how
/// many hours spots are kept, and the keys of the spots seen on the current
/// connection.
pub struct Receiver {
    spots: Vec<Spot>,
    spots_today: u32,
    last_date: i64,
    max_hours: i64,
    seen: StringHashSet,
    ids: IdSource,
}

impl View for Receiver {
    type V = ReceiverView;

    closed spec fn view(&self) -> ReceiverView {
        ReceiverView {
            spots: spot_views(self.spots@),
            spots_today: self.spots_today as int,
            last_date: self.last_date as int,
            max_hours: self.max_hours as int,
            seen: self.seen@,
            ids: self.ids@,
        }
    }
}

/// What a receiver reports for a new spot: the spot and the count of the day.
pub struct SpotNotice {
    pub spot: Spot,
    pub spots_today: u32,
}

/// What a receiver reports when a connection starts: the first spots of the
/// buffer and the count of the day.
pub struct SessionStart {
    pub spots: Vec<Spot>,
    pub spots_today: u32,
}

/// The instant before which spots are too old, at the reading `now`.
pub open spec fn cutoff_at(now: ClockReading, hours: int) -> (int, int) {
    cutoff_of(now.secs as int, now.nanos as int, hours)
}

/// The spot, with identifier `id`, that the line `raw` gives at the reading
/// `now`: after trimming, an empty line gives none, a line opening with `{`
/// is read as HamAlert JSON and any other line as a DX-cluster line.
pub open spec fn line_spot(raw: Seq<char>, now: ClockReading, id: Seq<char>) -> Option<SpotView> {
    let line = trim(raw);
    if line.len() == 0 {
        None
    } else if starts_with(line, seq!['{']) {
        if json_line_has_spot(line) {
            json_spot(line, json_members(line)->0, id, now.rfc3339@)
        } else {
            None
        }
    } else {
        dx_spot(line, id, now.rfc3339@)
    }
}

/// The state after a new spot `sp` arrived at the reading `now`: the count of
/// the day starts again on a new UTC date and grows by one (modulo 2^32); the
/// spot goes first in the buffer, which is cut to `MAX_SPOTS` spots and then
/// rid of spots older than the cutoff; its key is remembered, and its
/// identifier `p` is the last one issued.
pub open spec fn deliver(m: ReceiverView, sp: SpotView, now: ClockReading, p: (int, int)) -> ReceiverView {
    let count = if utc_date(now.secs as int) != m.last_date {
        0
    } else {
        m.spots_today
    };
    let all = seq![sp] + m.spots;
    let cut = if all.len() > MAX_SPOTS {
        all.subrange(0, MAX_SPOTS as int)
    } else {
        all
    };
    ReceiverView {
        spots: keep_after(cut, cutoff_at(now, m.max_hours)),
        spots_today: (count + 1) % 0x1_0000_0000,
        last_date: utc_date(now.secs as int),
        max_hours: m.max_hours,
        seen: m.seen.insert(spot_key(sp)),
        ids: Some(p),
    }
}

/// One line handled at the reading `now`: the new state, and the spot to
/// report, if any.  The spot gets the next identifier (`issued_at`).  A line
/// that gives no spot, or a spot whose key was seen before on this
/// connection, changes nothing and reports nothing; so does every line once
/// the identifiers are used up.
pub open spec fn accept_step(m: ReceiverView, raw: Seq<char>, now: ClockReading) -> (
    ReceiverView,
    Option<SpotView>,
) {
    match issued_at(m.ids, now) {
        None => (m, None),
        Some(p) => match line_spot(raw, now, id_text(p.0, p.1)) {
            None => (m, None),
            Some(sp) => if m.seen.contains(spot_key(sp)) {
                (m, None)
            } else {
                (deliver(m, sp, now, p), Some(sp))
            },
        },
    }
}

/// `keep_after` as a new vector.
fn keep_recent(spots: &Vec<Spot>, c_secs: i128, c_nanos: u32) -> (r: Vec<Spot>)
    ensures
        spot_views(r@) == keep_after(spot_views(spots@), (c_secs as int, c_nanos as int)),
{
    let ghost c = (c_secs as int, c_nanos as int);
    let mut r: Vec<Spot> = Vec::new();
    let mut i: usize = 0;
    while i < spots.len()
        invariant
            i <= spots.len(),
            c == (c_secs as int, c_nanos as int),
            spot_views(r@) == keep_after(spot_views(spots@).take(i as int), c),
        decreases spots.len() - i,
    {
        let ghost t = spot_views(spots@).take(i + 1);
        assert(t.drop_last() =~= spot_views(spots@).take(i as int));
        assert(t.last() == spots@[i as int]@);
        assert(t.len() > 0);
        assert(keep_after(t, c) == if stamp_after(t.last().received_at, c) {
            keep_after(t.drop_last(), c).push(t.last())
        } else {
            keep_after(t.drop_last(), c)
        });
        let st = spots[i].received_at.as_str();
        assert(st@ == t.last().received_at);
        let keep = is_stamp_after(st, c_secs, c_nanos);
        assert(keep == stamp_after(t.last().received_at, c));
        if keep {
            let ghost before = spot_views(r@);
            let s = spots[i].duplicate();
            r.push(s);
            assert(spot_views(r@) =~= before.push(spots@[i as int]@));
        }
        i = i + 1;
    }
    assert(spot_views(spots@).take(spots.len() as int) =~= spot_views(spots@));
    r
}

/// The spots of `spots`, in order, whose time stamp reads as a time less
/// than `hours` hours before the reading `now`.
pub fn recent_spots(spots: &Vec<Spot>, hours: i64, now: &ClockReading) -> (r: Vec<Spot>)
    ensures
        spot_views(r@) == keep_after(spot_views(spots@), cutoff_at(*now, hours as int)),
{
    keep_recent(spots, now.secs as i128 - 3600 * hours as i128, now.nanos)
}

/// Whether the time stamp text reads as a time on the UTC date `date`.
fn is_stamped_on_date(stamp: &str, date: i64) -> (r: bool)
    ensures
        r == stamped_on_date(stamp@, date as int),
{
    match parse_utc(stamp) {
        Some(t) => date_of(t.0) == date,
        None => false,
    }
}

impl Receiver {
    /// The receiver is well formed: it keeps spots from 1 to 8 hours, and
    /// its last identifier is one an identifier source can hold.
    pub open spec fn wf(&self) -> bool {
        1 <= self@.max_hours <= 8 && ids_ok(self@.ids)
    }

    /// A receiver keeping spots for `max_hours` hours (held within 1 to 8),
    /// starting from the stored spots `loaded` at the reading `now`: the
    /// spots older than the cutoff are dropped and the spots stamped on the
    /// UTC date of `now` are counted.
    pub fn start(loaded: Vec<Spot>, max_hours: i64, now: &ClockReading) -> (r: Receiver)
        requires
            valid_reading(*now),
        ensures
            r.wf(),
            r@.max_hours == clamp_hours(max_hours as int),
            r@.spots == keep_after(spot_views(loaded@), cutoff_at(*now, r@.max_hours)),
            r@.spots_today == (count_on_date(r@.spots, utc_date(now.secs as int)) as u32) as int,
            r@.last_date == utc_date(now.secs as int),
            r@.seen == Set::<Seq<char>>::empty(),
            r@.ids is None,
    {
        let hours: i64 = if max_hours < 1 {
            1
        } else if max_hours > 8 {
            8
        } else {
            max_hours
        };
        let spots = keep_recent(&loaded, now.secs as i128 - 3600 * hours as i128, now.nanos);
        let date = date_of(now.secs);
        let mut count: usize = 0;
        let mut i: usize = 0;
        while i < spots.len()
            invariant
                i <= spots.len(),
                date == utc_date(now.secs as int),
                count == count_on_date(spot_views(spots@).take(i as int), date as int),
                count <= i,
            decreases spots.len() - i,
        {
            let ghost t = spot_views(spots@).take(i + 1);
            assert(t.drop_last() =~= spot_views(spots@).take(i as int));
            assert(t.last() == spots@[i as int]@);
            if is_stamped_on_date(spots[i].received_at.as_str(), date) {
                count = count + 1;
            }
            i = i + 1;
        }
        assert(spot_views(spots@).take(spots.len() as int) =~= spot_views(spots@));
        Receiver {
            spots,
            spots_today: count as u32,
            last_date: date,
            max_hours: hours,
            seen: StringHashSet::new(),
            ids: IdSource::new(),
        }
    }

    /// The buffer of spots, newest first.
    pub fn spots(&self) -> (r: &Vec<Spot>)
        ensures
            spot_views(r@) == self@.spots,
    {
        &self.spots
    }

    /// The number of spots of the current day.
    pub fn spots_today(&self) -> (r: u32)
        ensures
            r == self@.spots_today,
    {
        self.spots_today
    }

    /// How many hours spots are kept.
    pub fn max_hours(&self) -> (r: i64)
        ensures
            r == self@.max_hours,
    {
        self.max_hours
    }

    /// Handles the line `raw` received at the reading `now` (see
    /// `accept_step`): a new spot is remembered, put first in the buffer and
    /// counted, and reported with the count of the day.
    pub fn accept_line(&mut self, raw: &str, now: &ClockReading) -> (r: Option<SpotNotice>)
        requires
            old(self).wf(),
            valid_reading(*now),
        ensures
            final(self).wf(),
            (final(self)@, match r {
                Some(n) => Some(n.spot@),
                None => None,
            }) == accept_step(old(self)@, raw@, *now),
            r matches Some(n) ==> n.spots_today == final(self)@.spots_today,
    {
        let ms = reading_millis(now);
        let p = match self.ids.next(ms) {
            Some(p) => p,
            None => {
                return None;
            },
        };
        let id = spot_id(p.0, p.1);
        let spot = match spot_from_line(raw, id.as_str(), now) {
            Some(s) => s,
            None => {
                return None;
            },
        };
        let key = spot_dedup_key(&spot);
        if self.seen.contains(key.as_str()) {
            return None;
        }
        let ghost m = self@;
        self.seen.insert(key);
        self.ids.advance(ms);
        let date = date_of(now.secs);
        if date != self.last_date {
            self.spots_today = 0;
        }
        self.last_date = date;
        let ghost before = spot_views(self.spots@);
        let copy = spot.duplicate();
        self.spots.insert(0, copy);
        assert(spot_views(self.spots@) =~= seq![spot@] + before);
        if self.spots.len() > MAX_SPOTS {
            let ghost all = spot_views(self.spots@);
            self.spots.truncate(MAX_SPOTS);
            assert(spot_views(self.spots@) =~= all.subrange(0, MAX_SPOTS as int));
        }
        let kept = keep_recent(&self.spots, now.secs as i128 - 3600 * self.max_hours as i128, now.nanos);
        self.spots = kept;
        self.spots_today = if self.spots_today == u32::MAX {
            0
        } else {
            self.spots_today + 1
        };
        assert(self@ == deliver(m, spot@, *now, (p.0 as int, p.1 as int)));
        Some(SpotNotice { spot, spots_today: self.spots_today })
    }

    /// Handles the line `raw` at the current time, read from the clock: the
    /// step is `accept_step` at some valid reading of the clock; when the
    /// clock cannot be read nothing changes and nothing is reported.
    pub fn accept_line_now(&mut self, raw: &str) -> (r: Option<SpotNotice>)
        requires
            old(self).wf(),
        ensures
            final(self).wf(),
            final(self)@ == old(self)@ && r is None || exists|now: ClockReading|
                valid_reading(now) && (final(self)@, match r {
                    Some(n) => Some(n.spot@),
                    None => None,
                }) == #[trigger] accept_step(old(self)@, raw@, now),
            r matches Some(n) ==> n.spots_today == final(self)@.spots_today,
    {
        match read_clock() {
            Some(now) => self.accept_line(raw, &now),
            None => None,
        }
    }

    /// A connection starts at the reading `now`: spots older than the cutoff
    /// leave the buffer, the keys of the remaining spots become the keys seen,
    /// and the first `INIT_SPOTS` spots are reported with the count of the day.
    pub fn begin_session(&mut self, now: &ClockReading) -> (r: SessionStart)
        requires
            old(self).wf(),
            valid_reading(*now),
        ensures
            final(self).wf(),
            final(self)@.spots == keep_after(old(self)@.spots, cutoff_at(*now, old(self)@.max_hours)),
            final(self)@.seen == keys_of(final(self)@.spots),
            final(self)@.spots_today == old(self)@.spots_today,
            final(self)@.last_date == old(self)@.last_date,
            final(self)@.max_hours == old(self)@.max_hours,
            final(self)@.ids == old(self)@.ids,
            spot_views(r.spots@) == final(self)@.spots.take(
                if final(self)@.spots.len() < INIT_SPOTS {
                    final(self)@.spots.len() as int
                } else {
                    INIT_SPOTS as int
                },
            ),
            r.spots_today == final(self)@.spots_today,
    {
        let kept = keep_recent(&self.spots, now.secs as i128 - 3600 * self.max_hours as i128, now.nanos);
        self.spots = kept;
        let mut seen = StringHashSet::new();
        let mut i: usize = 0;
        while i < self.spots.len()
            invariant
                i <= self.spots.len(),
                seen@ == keys_of(spot_views(self.spots@).take(i as int)),
            decreases self.spots.len() - i,
        {
            let ghost t = spot_views(self.spots@).take(i + 1);
            assert(t.drop_last() =~= spot_views(self.spots@).take(i as int));
            assert(t.last() == self.spots@[i as int]@);
            let key = spot_dedup_key(&self.spots[i]);
            seen.insert(key);
            i = i + 1;
        }
        assert(spot_views(self.spots@).take(self.spots.len() as int) =~= spot_views(self.spots@));
        self.seen = seen;
        let n = if self.spots.len() < INIT_SPOTS {
            self.spots.len()
        } else {
            INIT_SPOTS
        };
        let mut first: Vec<Spot> = Vec::new();
        let mut j: usize = 0;
        while j < n
            invariant
                j <= n,
                n <= self.spots.len(),
                spot_views(first@) == spot_views(self.spots@).take(j as int),
            decreases n - j,
        {
            let ghost before = spot_views(first@);
            let d = self.spots[j].duplicate();
            assert(d@ == spot_views(self.spots@)[j as int]);
            first.push(d);
            assert(spot_views(first@) =~= before.push(spot_views(self.spots@)[j as int]));
            j = j + 1;
            assert(spot_views(first@) =~= spot_views(self.spots@).take(j as int));
        }
        SessionStart { spots: first, spots_today: self.spots_today }
    }
}

/// The spot, with identifier `id`, that the line `raw` gives at the reading `now`.
pub fn spot_from_line(raw: &str, id: &str, now: &ClockReading) -> (r: Option<Spot>)
    ensures
        match r {
            Some(s) => line_spot(raw@, *now, id@) == Some(s@),
            None => line_spot(raw@, *now, id@) is None,
        },
{
    let v = chars_of(raw);
    let t = trim_chars(&v);
    if t.len() == 0 {
        return None;
    }
    let line = string_of(&t);
    let brace = vec!['{'];
    assert(brace@ =~= seq!['{']);
    if crate::text::starts_with_chars(&t, &brace) {
        spot_from_json_line(line.as_str(), id, now)
    } else {
        spot_from_dx_line(line.as_str(), id, now)
    }
}


/// Only recent spots are kept, in order: keeping the spots stamped after
/// the instant `c` (as `start`, `begin_session`, `recent_spots` and every
/// reported spot do) gives no more spots than there were, all of them
/// stamped after `c`, and keeps the first spot when it is stamped after `c`.
pub proof fn law_kept_spots_recent(spots: Seq<SpotView>, c: (int, int))
    ensures
        keep_after(spots, c).len() <= spots.len(),
        forall|i: int|
            0 <= i < keep_after(spots, c).len() ==> stamp_after(
                (#[trigger] keep_after(spots, c)[i]).received_at,
                c,
            ),
        spots.len() > 0 && stamp_after(spots[0].received_at, c) ==> keep_after(spots, c).len() > 0
            && keep_after(spots, c)[0] == spots[0],
    decreases spots.len(),
{
    if spots.len() > 0 {
        let rest = spots.drop_last();
        law_kept_spots_recent(rest, c);
        let kept = keep_after(rest, c);
        if stamp_after(spots.last().received_at, c) {
            assert forall|i: int|
                0 <= i < keep_after(spots, c).len() implies stamp_after(
                (#[trigger] keep_after(spots, c)[i]).received_at,
                c,
            ) by {
                if i < kept.len() {
                    assert(keep_after(spots, c)[i] == kept[i]);
                }
            }
            if spots.len() > 1 {
                assert(rest[0] == spots[0]);
            }
        } else {
            if spots.len() > 1 {
                assert(rest[0] == spots[0]);
            }
        }
    }
}

proof fn lemma_keep_after_contains(spots: Seq<SpotView>, c: (int, int), x: SpotView)
    ensures
        keep_after(spots, c).contains(x) <==> spots.contains(x) && stamp_after(x.received_at, c),
    decreases spots.len(),
{
    if spots.len() > 0 {
        let rest = spots.drop_last();
        lemma_keep_after_contains(rest, c, x);
        assert(spots =~= rest.push(spots.last()));
        if spots.contains(x) && x != spots.last() {
            let i = choose|i: int| 0 <= i < spots.len() && spots[i] == x;
            assert(rest[i] == x);
        }
        if rest.contains(x) {
            let i = choose|i: int| 0 <= i < rest.len() && rest[i] == x;
            assert(spots[i] == x);
        }
        let kept = keep_after(rest, c);
        if stamp_after(spots.last().received_at, c) {
            assert(keep_after(spots, c) == kept.push(spots.last()));
            if kept.push(spots.last()).contains(x) && x != spots.last() {
                let i = choose|i: int| 0 <= i < kept.len() + 1 && kept.push(spots.last())[i] == x;
                assert(kept[i] == x);
            }
            if kept.contains(x) {
                let i = choose|i: int| 0 <= i < kept.len() && kept[i] == x;
                assert(kept.push(spots.last())[i] == x);
            }
            assert(kept.push(spots.last())[kept.len() as int] == spots.last());
        }
        assert(spots[spots.len() - 1] == spots.last());
    }
}

/// Spots are kept exactly while they are younger than the chosen hours:
/// keeping the spots of `spots` for `hours` hours at the reading `now` (as
/// `recent_spots`, `Receiver::start`, `begin_session` and each report do)
/// keeps a spot if and only if it is one of `spots` and its time stamp
/// reads as a time later than `hours` hours before `now`.
pub proof fn law_recent_spots_within_hours(spots: Seq<SpotView>, now: ClockReading, hours: int, x: SpotView)
    ensures
        keep_after(spots, cutoff_at(now, hours)).contains(x) <==> spots.contains(x) && (parsed_utc(
            x.received_at,
        ) matches Some(t) && (t.0 > now.secs - 3600 * hours || (t.0 == now.secs - 3600 * hours && t.1
            > now.nanos))),
{
    lemma_keep_after_contains(spots, cutoff_at(now, hours), x);
}

/// Spots are kept from one to eight hours: the hours asked for, when they
/// lie in that range, else the nearest end of it.
pub proof fn law_hours_held_from_one_to_eight(h: int)
    ensures
        1 <= clamp_hours(h) <= 8,
        1 <= h <= 8 ==> clamp_hours(h) == h,
        h < 1 ==> clamp_hours(h) == 1,
        h > 8 ==> clamp_hours(h) == 8,
{
}

/// Within a connection nothing is forgotten: the keys seen only grow; a
/// reported spot's key was not seen before and is seen after; a line that
/// reports nothing changes nothing.
pub proof fn law_seen_keys_grow(m: ReceiverView, raw: Seq<char>, now: ClockReading)
    ensures
        m.seen.subset_of(accept_step(m, raw, now).0.seen),
        accept_step(m, raw, now).1 matches Some(sp) ==> !m.seen.contains(spot_key(sp))
            && accept_step(m, raw, now).0.seen.contains(spot_key(sp)),
        accept_step(m, raw, now).1 is None ==> accept_step(m, raw, now).0 == m,
{
}

/// The last identifier issued, if any, has a number below 2^20.
pub open spec fn last_id_ok(last: Option<(int, int)>) -> bool {
    last matches Some(l) ==> pair_ok(l)
}

/// A reported spot carries the identifier issued for it, which comes after
/// every identifier issued before it.
pub proof fn law_reported_id(m: ReceiverView, raw: Seq<char>, now: ClockReading)
    requires
        last_id_ok(m.ids),
    ensures
        ({
            let (m2, o) = accept_step(m, raw, now);
            &&& last_id_ok(m2.ids)
            &&& o matches Some(sp) ==> {
                &&& m2.ids == issued_at(m.ids, now)
                &&& m2.ids matches Some(p)
                &&& sp.id == id_text(p.0, p.1)
                &&& m.ids matches Some(q) ==> pair_before(q, p)
            }
        }),
{
    law_next_pair_later(m.ids, millis_of(now.secs as int, now.nanos as int));
}

/// A spot is reported at most once per connection: of two lines handled one
/// after the other, both reported, the spots have different keys, even when
/// HamAlert sends the same spot for several of the user's triggers.
pub proof fn law_no_spot_reported_twice(
    m: ReceiverView,
    raw1: Seq<char>,
    now1: ClockReading,
    raw2: Seq<char>,
    now2: ClockReading,
)
    ensures
        ({
            let (m1, o1) = accept_step(m, raw1, now1);
            let (m2, o2) = accept_step(m1, raw2, now2);
            o1 is Some && o2 is Some ==> spot_key(o1->0) != spot_key(o2->0)
        }),
{
    law_seen_keys_grow(m, raw1, now1);
    law_seen_keys_grow(accept_step(m, raw1, now1).0, raw2, now2);
}

/// Every reported spot goes first in the buffer: after a spot is reported
/// the buffer holds at most `MAX_SPOTS` spots, all of them stamped after the
/// cutoff, and the reported spot is the first of them.
pub proof fn law_buffer_after_report(m: ReceiverView, raw: Seq<char>, now: ClockReading)
    requires
        valid_reading(now),
        1 <= m.max_hours,
    ensures
        ({
            let (m2, o) = accept_step(m, raw, now);
            let c = cutoff_at(now, m.max_hours);
            o matches Some(sp) ==> {
                &&& m2.spots.len() <= MAX_SPOTS
                &&& forall|i: int| 0 <= i < m2.spots.len() ==> stamp_after(#[trigger] m2.spots[i].received_at, c)
                &&& m2.spots.len() > 0
                &&& m2.spots[0] == sp
            }
        }),
{
    let (m2, o) = accept_step(m, raw, now);
    if let Some(sp) = o {
        let c = cutoff_at(now, m.max_hours);
        let p = issued_at(m.ids, now)->0;
        assert(line_spot(raw, now, id_text(p.0, p.1)) == Some(sp));
        assert(sp.received_at == now.rfc3339@);
        assert(stamp_after(sp.received_at, c));
        let all = seq![sp] + m.spots;
        let cut = if all.len() > MAX_SPOTS {
            all.subrange(0, MAX_SPOTS as int)
        } else {
            all
        };
        assert(cut[0] == sp);
        law_kept_spots_recent(cut, c);
    }
}

/// The count of the day restarts at midnight UTC: a reported spot is
/// counted, after the count started again when the UTC date changed since
/// the last report.
pub proof fn law_day_count(m: ReceiverView, raw: Seq<char>, now: ClockReading)
    ensures
        ({
            let (m2, o) = accept_step(m, raw, now);
            let date = utc_date(now.secs as int);
            o is Some ==> {
                &&& m2.last_date == date
                &&& date == m.last_date ==> m2.spots_today == (m.spots_today + 1) % 0x1_0000_0000
                &&& date != m.last_date ==> m2.spots_today == 1
            }
        }),
{
}

/// The count of the day over two reports one after the other: the later
/// spot's count is the earlier one's plus one (modulo 2^32) when both were
/// read on the same UTC date, and 1 when the dates differ.
pub proof fn law_day_count_between_reports(
    m: ReceiverView,
    raw1: Seq<char>,
    now1: ClockReading,
    raw2: Seq<char>,
    now2: ClockReading,
)
    ensures
        ({
            let (m1, o1) = accept_step(m, raw1, now1);
            let (m2, o2) = accept_step(m1, raw2, now2);
            o1 is Some && o2 is Some ==> m2.spots_today == if utc_date(now2.secs as int) == utc_date(
                now1.secs as int,
            ) {
                (m1.spots_today + 1) % 0x1_0000_0000
            } else {
                1
            }
        }),
{
    law_day_count(m, raw1, now1);
    law_day_count(accept_step(m, raw1, now1).0, raw2, now2);
}

/// A line is read from its trimmed text alone: white space added before or
/// after it changes nothing.
pub proof fn law_line_padding_ignored(
    before: Seq<char>,
    raw: Seq<char>,
    after: Seq<char>,
    now: ClockReading,
    id: Seq<char>,
)
    requires
        all_space(before),
        all_space(after),
    ensures
        line_spot(before + raw + after, now, id) == line_spot(raw, now, id),
{
    lemma_trim_padding(before, raw, after);
}

/// The lines of a connection handled one after the other from the state
/// `m`, each with its clock reading: the last state and the spots reported,
/// in order.
pub open spec fn run_lines(m: ReceiverView, steps: Seq<(Seq<char>, ClockReading)>) -> (
    ReceiverView,
    Seq<SpotView>,
)
    decreases steps.len(),
{
    if steps.len() == 0 {
        (m, Seq::empty())
    } else {
        let (m1, out) = run_lines(m, steps.drop_last());
        let (m2, o) = accept_step(m1, steps.last().0, steps.last().1);
        (
            m2,
            match o {
                Some(sp) => out.push(sp),
                None => out,
            },
        )
    }
}

/// The identifier `id` is the text of a pair issued no later than `last`.
pub open spec fn issued_by(id: Seq<char>, last: Option<(int, int)>) -> bool {
    exists|a: int, b: int|
        pair_ok((a, b)) && (last matches Some(l) && !pair_before(l, (a, b))) && id == #[trigger] id_text(a, b)
}

proof fn lemma_run_lines(m: ReceiverView, steps: Seq<(Seq<char>, ClockReading)>)
    requires
        last_id_ok(m.ids),
    ensures
        m.seen.subset_of(run_lines(m, steps).0.seen),
        forall|i: int|
            0 <= i < run_lines(m, steps).1.len() ==> run_lines(m, steps).0.seen.contains(
                spot_key(#[trigger] run_lines(m, steps).1[i]),
            ) && !m.seen.contains(spot_key(run_lines(m, steps).1[i])),
        forall|i: int, j: int|
            0 <= i < j < run_lines(m, steps).1.len() ==> spot_key(#[trigger] run_lines(m, steps).1[i])
                != spot_key(#[trigger] run_lines(m, steps).1[j]),
        last_id_ok(run_lines(m, steps).0.ids),
        forall|i: int|
            0 <= i < run_lines(m, steps).1.len() ==> issued_by(
                (#[trigger] run_lines(m, steps).1[i]).id,
                run_lines(m, steps).0.ids,
            ),
        forall|i: int, j: int|
            0 <= i < j < run_lines(m, steps).1.len() ==> (#[trigger] run_lines(m, steps).1[i]).id
                != (#[trigger] run_lines(m, steps).1[j]).id,
    decreases steps.len(),
{
    if steps.len() > 0 {
        lemma_run_lines(m, steps.drop_last());
        let (m1, out) = run_lines(m, steps.drop_last());
        let raw = steps.last().0;
        let now = steps.last().1;
        law_seen_keys_grow(m1, raw, now);
        law_reported_id(m1, raw, now);
        let (m2, o) = accept_step(m1, raw, now);
        if let Some(sp) = o {
            let p = m2.ids->0;
            let out2 = out.push(sp);
            assert(run_lines(m, steps) == (m2, out2));
            assert forall|i: int| 0 <= i < out2.len() implies issued_by((#[trigger] out2[i]).id, m2.ids) by {
                if i < out.len() {
                    assert(out2[i] == out[i]);
                    assert(issued_by(out[i].id, m1.ids));
                    let (a, b) = choose|a: int, b: int|
                        pair_ok((a, b)) && (m1.ids matches Some(l) && !pair_before(l, (a, b))) && out[i].id
                            == #[trigger] id_text(a, b);
                    assert(out2[i].id == id_text(a, b));
                } else {
                    assert(out2[i] == sp);
                    assert(sp.id == id_text(p.0, p.1));
                }
            }
            assert forall|i: int, j: int| 0 <= i < j < out2.len() implies (#[trigger] out2[i]).id
                != (#[trigger] out2[j]).id by {
                if j < out.len() {
                    assert(out2[i] == out[i]);
                    assert(out2[j] == out[j]);
                } else {
                    assert(out2[i] == out[i]);
                    assert(out2[j] == sp);
                    assert(issued_by(out[i].id, m1.ids));
                    let (a, b) = choose|a: int, b: int|
                        pair_ok((a, b)) && (m1.ids matches Some(l) && !pair_before(l, (a, b))) && out[i].id
                            == #[trigger] id_text(a, b);
                    law_ids_differ((a, b), p);
                }
            }
            assert forall|i: int| 0 <= i < out2.len() implies m2.seen.contains(spot_key(#[trigger] out2[i]))
                && !m.seen.contains(spot_key(out2[i])) by {
                if i < out.len() {
                    assert(out2[i] == out[i]);
                }
            }
            assert forall|i: int, j: int| 0 <= i < j < out2.len() implies spot_key(#[trigger] out2[i])
                != spot_key(#[trigger] out2[j]) by {
                assert(out2[i] == out[i]);
                if j < out.len() {
                    assert(out2[j] == out[j]);
                }
            }
        }
    }
}

/// No spot is reported twice in a connection: from the start of a
/// connection (the keys seen are those of the buffer `m.spots`), of all the
/// spots reported for the lines that follow no two have the same key, none
/// has the key of a spot of the buffer, and no two have the same identifier.
pub proof fn law_session_no_repeats(m: ReceiverView, steps: Seq<(Seq<char>, ClockReading)>)
    requires
        m.seen == keys_of(m.spots),
        last_id_ok(m.ids),
    ensures
        ({
            let out = run_lines(m, steps).1;
            &&& forall|i: int, j: int|
                0 <= i < j < out.len() ==> spot_key(#[trigger] out[i]) != spot_key(#[trigger] out[j])
            &&& forall|i: int, k: int|
                0 <= i < out.len() && 0 <= k < m.spots.len() ==> spot_key(#[trigger] out[i])
                    != spot_key(#[trigger] m.spots[k])
            &&& forall|i: int, j: int| 0 <= i < j < out.len() ==> (#[trigger] out[i]).id != (#[trigger] out[j]).id
        }),
{
    lemma_run_lines(m, steps);
    let out = run_lines(m, steps).1;
    assert forall|i: int, k: int|
        0 <= i < out.len() && 0 <= k < m.spots.len() implies spot_key(#[trigger] out[i])
        != spot_key(#[trigger] m.spots[k]) by {
        lemma_keys_of_holds(m.spots, k);
    }
}

proof fn lemma_keys_of_holds(spots: Seq<SpotView>, i: int)
    requires
        0 <= i < spots.len(),
    ensures
        keys_of(spots).contains(spot_key(spots[i])),
    decreases spots.len(),
{
    if i < spots.len() - 1 {
        lemma_keys_of_holds(spots.drop_last(), i);
        assert(spots.drop_last()[i] == spots[i]);
    }
}

/// The history is not sent again: once a connection has started (the keys
/// seen are those of the buffer), a line repeating a spot of the buffer
/// reports nothing.
pub proof fn law_history_not_repeated(m: ReceiverView, raw: Seq<char>, now: ClockReading)
    requires
        m.seen == keys_of(m.spots),
    ensures
        accept_step(m, raw, now).1 matches Some(sp) ==> forall|i: int|
            0 <= i < m.spots.len() ==> spot_key(#[trigger] m.spots[i]) != spot_key(sp),
{
    if let Some(sp) = accept_step(m, raw, now).1 {
        assert forall|i: int| 0 <= i < m.spots.len() implies spot_key(#[trigger] m.spots[i]) != spot_key(sp) by {
            lemma_keys_of_holds(m.spots, i);
        }
    }
}

} // verus!
