//! Spots: one report of a station heard on a frequency, read from a
//! DX-cluster text line or from a HamAlert JSON line.

use vstd::prelude::*;
use crate::band::{band_from_khz, band_name};
use crate::callsign::{base_call, base_callsign, detect_mode, mode_in, uppercase};
use crate::json::{entries_view, find_member, json_entries, json_members, member, member_text, member_text_of, JsonEntry, JsonScalar, JsonScalarView};
use crate::clock::{
    id_text, issued_at, law_next_pair_later, pair_before, read_clock, reading_millis, spot_id, valid_reading, ClockReading,
    IdSource,
};
use crate::format::{lemma_mhz_text_injective, mhz_text, push_mhz_text};
use crate::number::{float_text, hamalert_khz, hamalert_khz_from_text, khz_from_text, khz_text_value, FloatText};
use crate::text::{
    all_space, lemma_trim_padding,
    chars_of, find, find_chars, join, join_words, starts_with,
    starts_with_chars, string_of, sub_chars, trim, trim_chars, views, words, words_of,
};

verus! {

/// One spot.  The frequency is kept in whole kilohertz.
pub struct Spot {
    pub id: String,
    pub received_at: String,
    pub full_callsign: String,
    pub callsign: String,
    pub frequency_khz: i64,
    pub band: String,
    pub mode: String,
    pub mode_detail: String,
    pub spotter: String,
    pub comment: String,
    pub time: String,
    pub entity: String,
    pub continent: String,
    pub dxcc: String,
    pub cq: String,
    pub source: String,
    pub snr: String,
    pub speed: String,
    pub qsl: String,
    pub summit_ref: String,
    pub wwff_ref: String,
    pub pota_ref: String,
    pub iota_group_ref: String,
    pub state_field: String,
    pub home_entity: String,
    pub spotter_continent: String,
    pub spotter_entity: String,
    pub spotter_cq: String,
    pub grid: String,
    pub raw_text: String,
}

/// The content of a spot.
pub struct SpotView {
    pub id: Seq<char>,
    pub received_at: Seq<char>,
    pub full_callsign: Seq<char>,
    pub callsign: Seq<char>,
    pub frequency_khz: int,
    pub band: Seq<char>,
    pub mode: Seq<char>,
    pub mode_detail: Seq<char>,
    pub spotter: Seq<char>,
    pub comment: Seq<char>,
    pub time: Seq<char>,
    pub entity: Seq<char>,
    pub continent: Seq<char>,
    pub dxcc: Seq<char>,
    pub cq: Seq<char>,
    pub source: Seq<char>,
    pub snr: Seq<char>,
    pub speed: Seq<char>,
    pub qsl: Seq<char>,
    pub summit_ref: Seq<char>,
    pub wwff_ref: Seq<char>,
    pub pota_ref: Seq<char>,
    pub iota_group_ref: Seq<char>,
    pub state_field: Seq<char>,
    pub home_entity: Seq<char>,
    pub spotter_continent: Seq<char>,
    pub spotter_entity: Seq<char>,
    pub spotter_cq: Seq<char>,
    pub grid: Seq<char>,
    pub raw_text: Seq<char>,
}

impl View for Spot {
    type V = SpotView;

    open spec fn view(&self) -> SpotView {
        SpotView {
            id: self.id@,
            received_at: self.received_at@,
            full_callsign: self.full_callsign@,
            callsign: self.callsign@,
            frequency_khz: self.frequency_khz as int,
            band: self.band@,
            mode: self.mode@,
            mode_detail: self.mode_detail@,
            spotter: self.spotter@,
            comment: self.comment@,
            time: self.time@,
            entity: self.entity@,
            continent: self.continent@,
            dxcc: self.dxcc@,
            cq: self.cq@,
            source: self.source@,
            snr: self.snr@,
            speed: self.speed@,
            qsl: self.qsl@,
            summit_ref: self.summit_ref@,
            wwff_ref: self.wwff_ref@,
            pota_ref: self.pota_ref@,
            iota_group_ref: self.iota_group_ref@,
            state_field: self.state_field@,
            home_entity: self.home_entity@,
            spotter_continent: self.spotter_continent@,
            spotter_entity: self.spotter_entity@,
            spotter_cq: self.spotter_cq@,
            grid: self.grid@,
            raw_text: self.raw_text@,
        }
    }
}

impl Spot {
    /// A copy of this spot.
    pub fn duplicate(&self) -> (r: Spot)
        ensures
            r@ == self@,
    {
        Spot {
            id: self.id.clone(),
            received_at: self.received_at.clone(),
            full_callsign: self.full_callsign.clone(),
            callsign: self.callsign.clone(),
            frequency_khz: self.frequency_khz,
            band: self.band.clone(),
            mode: self.mode.clone(),
            mode_detail: self.mode_detail.clone(),
            spotter: self.spotter.clone(),
            comment: self.comment.clone(),
            time: self.time.clone(),
            entity: self.entity.clone(),
            continent: self.continent.clone(),
            dxcc: self.dxcc.clone(),
            cq: self.cq.clone(),
            source: self.source.clone(),
            snr: self.snr.clone(),
            speed: self.speed.clone(),
            qsl: self.qsl.clone(),
            summit_ref: self.summit_ref.clone(),
            wwff_ref: self.wwff_ref.clone(),
            pota_ref: self.pota_ref.clone(),
            iota_group_ref: self.iota_group_ref.clone(),
            state_field: self.state_field.clone(),
            home_entity: self.home_entity.clone(),
            spotter_continent: self.spotter_continent.clone(),
            spotter_entity: self.spotter_entity.clone(),
            spotter_cq: self.spotter_cq.clone(),
            grid: self.grid.clone(),
            raw_text: self.raw_text.clone(),
        }
    }
}

/// The key by which repeated reports of one spot are recognised: callsign,
/// frequency in megahertz with three decimals, spotter and time, joined by `-`.
pub open spec fn dedup_text(callsign: Seq<char>, khz: int, spotter: Seq<char>, time: Seq<char>) -> Seq<char> {
    callsign + seq!['-'] + mhz_text(khz) + seq!['-'] + spotter + seq!['-'] + time
}

/// The key of a spot.
pub open spec fn spot_key(s: SpotView) -> Seq<char> {
    dedup_text(s.callsign, s.frequency_khz, s.spotter, s.time)
}

proof fn lemma_same_frame(p: Seq<char>, m1: Seq<char>, m2: Seq<char>, q: Seq<char>)
    requires
        p + m1 + q == p + m2 + q,
    ensures
        m1 == m2,
{
    let t = p + m1 + q;
    assert(t.len() == p.len() + m1.len() + q.len());
    assert((p + m2 + q).len() == p.len() + m2.len() + q.len());
    assert(m1 =~= t.subrange(p.len() as int, (p.len() + m1.len()) as int));
    assert(m2 =~= (p + m2 + q).subrange(p.len() as int, (p.len() + m2.len()) as int));
}

/// The key tells spots apart by each of its parts: two spots with the same
/// key that agree on three of callsign, frequency, spotter and time agree
/// on the fourth as well.  So two reports that differ only in their
/// spotter (or only in their time, frequency or callsign) have different
/// keys, and a receiver reports both.
pub proof fn law_key_parts(a: SpotView, b: SpotView)
    requires
        spot_key(a) == spot_key(b),
    ensures
        a.frequency_khz == b.frequency_khz && a.spotter == b.spotter && a.time == b.time ==> a.callsign
            == b.callsign,
        a.callsign == b.callsign && a.spotter == b.spotter && a.time == b.time ==> a.frequency_khz
            == b.frequency_khz,
        a.callsign == b.callsign && a.frequency_khz == b.frequency_khz && a.time == b.time ==> a.spotter
            == b.spotter,
        a.callsign == b.callsign && a.frequency_khz == b.frequency_khz && a.spotter == b.spotter ==> a.time
            == b.time,
{
    let d = seq!['-'];
    let e = Seq::<char>::empty();
    let ma = mhz_text(a.frequency_khz);
    let mb = mhz_text(b.frequency_khz);
    if a.frequency_khz == b.frequency_khz && a.spotter == b.spotter && a.time == b.time {
        let q = d + ma + d + a.spotter + d + a.time;
        assert(spot_key(a) =~= e + a.callsign + q);
        assert(spot_key(b) =~= e + b.callsign + q);
        lemma_same_frame(e, a.callsign, b.callsign, q);
    }
    if a.callsign == b.callsign && a.spotter == b.spotter && a.time == b.time {
        let p = a.callsign + d;
        let q = d + a.spotter + d + a.time;
        assert(spot_key(a) =~= p + ma + q);
        assert(spot_key(b) =~= p + mb + q);
        lemma_same_frame(p, ma, mb, q);
        lemma_mhz_text_injective(a.frequency_khz, b.frequency_khz);
    }
    if a.callsign == b.callsign && a.frequency_khz == b.frequency_khz && a.time == b.time {
        let p = a.callsign + d + ma + d;
        let q = d + a.time;
        assert(spot_key(a) =~= p + a.spotter + q);
        assert(spot_key(b) =~= p + b.spotter + q);
        lemma_same_frame(p, a.spotter, b.spotter, q);
    }
    if a.callsign == b.callsign && a.frequency_khz == b.frequency_khz && a.spotter == b.spotter {
        let p = a.callsign + d + ma + d + a.spotter + d;
        assert(spot_key(a) =~= p + a.time + e);
        assert(spot_key(b) =~= p + b.time + e);
        lemma_same_frame(p, a.time, b.time, e);
    }
}

/// The key by which repeated reports of one spot are recognised.
pub fn dedup_key(callsign: &str, khz: i64, spotter: &str, time: &str) -> (r: String)
    ensures
        r@ == dedup_text(callsign@, khz as int, spotter@, time@),
{
    let mut out = chars_of(callsign);
    out.push('-');
    push_mhz_text(&mut out, khz);
    out.push('-');
    let sp = chars_of(spotter);
    let mut i: usize = 0;
    let ghost before = out@;
    while i < sp.len()
        invariant
            i <= sp.len(),
            out@ == before + sp@.take(i as int),
        decreases sp.len() - i,
    {
        out.push(sp[i]);
        i = i + 1;
        assert(out@ =~= before + sp@.take(i as int));
    }
    assert(sp@.take(sp.len() as int) =~= sp@);
    out.push('-');
    let tm = chars_of(time);
    let mut j: usize = 0;
    let ghost before2 = out@;
    while j < tm.len()
        invariant
            j <= tm.len(),
            out@ == before2 + tm@.take(j as int),
        decreases tm.len() - j,
    {
        out.push(tm[j]);
        j = j + 1;
        assert(out@ =~= before2 + tm@.take(j as int));
    }
    assert(tm@.take(tm.len() as int) =~= tm@);
    assert(out@ =~= dedup_text(callsign@, khz as int, spotter@, time@));
    string_of(&out)
}

/// The key of `s`.
pub fn spot_dedup_key(s: &Spot) -> (r: String)
    ensures
        r@ == spot_key(s@),
{
    dedup_key(s.callsign.as_str(), s.frequency_khz, s.spotter.as_str(), s.time.as_str())
}


/// What a DX-cluster line reports, apart from when it was received.
pub struct DxFields {
    pub line: Seq<char>,
    pub spotter: Seq<char>,
    pub callsign: Seq<char>,
    pub khz: int,
    pub comment: Seq<char>,
    pub time: Seq<char>,
}

/// The text that opens a DX-cluster spot line.
pub open spec fn dx_prefix() -> Seq<char> {
    seq!['D', 'X', ' ', 'd', 'e', ' ']
}

/// A word that is a UTC time such as `1234Z`: it ends in `Z` and is four
/// or five characters long.
pub open spec fn is_time_word(w: Seq<char>) -> bool {
    4 <= w.len() <= 5 && w.last() == 'Z'
}

/// The fields of a DX-cluster line such as
/// `DX de SM5ABC:    14025.0  OH2BH   CW 599 73   1234Z`: after trimming, the
/// line opens with `DX de `; the spotter runs up to the first `:`; of the
/// words after it the first is the frequency in kilohertz and the second the
/// callsign; a last word that is a time is the time, and the words from the
/// third on (without the time) joined by single spaces are the comment.
pub open spec fn dx_fields(raw: Seq<char>) -> Option<DxFields> {
    let line = trim(raw);
    if !starts_with(line, dx_prefix()) {
        None
    } else {
        let rest = line.subrange(6, line.len() as int);
        match find(rest, seq![':']) {
            None => None,
            Some(colon) => {
                let spotter = trim(rest.subrange(0, colon));
                let tokens = words(trim(rest.subrange(colon + 1, rest.len() as int)));
                if tokens.len() < 2 {
                    None
                } else {
                    match khz_text_value(tokens[0]) {
                        None => None,
                        Some(khz) => {
                            let timed = is_time_word(tokens.last());
                            let kept = if timed {
                                tokens.drop_last()
                            } else {
                                tokens
                            };
                            Some(
                                DxFields {
                                    line,
                                    spotter,
                                    callsign: tokens[1],
                                    khz,
                                    comment: if kept.len() > 2 {
                                        join(kept.subrange(2, kept.len() as int), seq![' '])
                                    } else {
                                        Seq::empty()
                                    },
                                    time: if timed {
                                        tokens.last()
                                    } else {
                                        Seq::empty()
                                    },
                                },
                            )
                        },
                    }
                }
            },
        }
    }
}

/// A DX-cluster line is read from its trimmed text alone: white space added
/// before or after it changes none of its fields.
pub proof fn law_dx_padding_ignored(before: Seq<char>, line: Seq<char>, after: Seq<char>)
    requires
        all_space(before),
        all_space(after),
    ensures
        dx_fields(before + line + after) == dx_fields(line),
{
    lemma_trim_padding(before, line, after);
}

/// The words after the first `:` of a trimmed DX-cluster line that opens
/// with `DX de `.
pub open spec fn dx_words(line: Seq<char>) -> Seq<Seq<char>> {
    let rest = line.subrange(6, line.len() as int);
    match find(rest, seq![':']) {
        Some(c) => words(trim(rest.subrange(c + 1, rest.len() as int))),
        None => Seq::empty(),
    }
}

/// The time of a DX-cluster spot is its last word when that word is four
/// or five characters ending in `Z`, and the comment is the words between
/// the callsign and that time joined by single spaces, however many there
/// are; without such a last word the time is empty and every word after
/// the callsign is comment.  So a line of a frequency, a callsign and a
/// time has that time and no comment.
pub proof fn law_dx_time_and_comment(raw: Seq<char>)
    ensures
        dx_fields(raw) matches Some(f) ==> {
            let w = dx_words(f.line);
            let t = w.last();
            let timed = 4 <= t.len() <= 5 && t.last() == 'Z';
            &&& w.len() >= 2
            &&& f.callsign == w[1]
            &&& timed ==> f.time == t
            &&& timed && w.len() >= 3 ==> f.comment == join(w.subrange(2, w.len() - 1), seq![' '])
            &&& timed && w.len() == 2 ==> f.comment.len() == 0
            &&& !timed ==> f.time.len() == 0 && f.comment == join(w.subrange(2, w.len() as int), seq![' '])
        },
{
    if let Some(f) = dx_fields(raw) {
        let w = dx_words(f.line);
        let t = w.last();
        if 4 <= t.len() <= 5 && t.last() == 'Z' {
            if w.len() >= 3 {
                assert(w.drop_last().subrange(2, w.drop_last().len() as int) =~= w.subrange(2, w.len() - 1));
            }
            if w.len() == 3 {
                assert(w.subrange(2, 2) =~= Seq::<Seq<char>>::empty());
            }
        } else {
            if w.len() == 2 {
                assert(w.subrange(2, 2) =~= Seq::<Seq<char>>::empty());
            }
        }
    }
}

/// The spot made of the fields `f` of a DX-cluster line, with identifier
/// `id`, received at `received_at`.
pub open spec fn dx_spot_of(f: DxFields, id: Seq<char>, received_at: Seq<char>) -> SpotView {
    let mode = mode_in(uppercase(f.comment));
    SpotView {
        id,
        received_at,
        full_callsign: f.callsign,
        callsign: base_call(f.callsign),
        frequency_khz: f.khz,
        band: band_name(f.khz),
        mode,
        mode_detail: mode,
        spotter: f.spotter,
        comment: f.comment,
        time: f.time,
        entity: Seq::empty(),
        continent: Seq::empty(),
        dxcc: Seq::empty(),
        cq: Seq::empty(),
        source: "telnet"@,
        snr: Seq::empty(),
        speed: Seq::empty(),
        qsl: Seq::empty(),
        summit_ref: Seq::empty(),
        wwff_ref: Seq::empty(),
        pota_ref: Seq::empty(),
        iota_group_ref: Seq::empty(),
        state_field: Seq::empty(),
        home_entity: Seq::empty(),
        spotter_continent: Seq::empty(),
        spotter_entity: Seq::empty(),
        spotter_cq: Seq::empty(),
        grid: Seq::empty(),
        raw_text: f.line,
    }
}

/// The spot a DX-cluster line gives, if it is one.
pub open spec fn dx_spot(raw: Seq<char>, id: Seq<char>, received_at: Seq<char>) -> Option<SpotView> {
    match dx_fields(raw) {
        Some(f) => Some(dx_spot_of(f, id, received_at)),
        None => None,
    }
}

/// The spot a DX-cluster line gives, with identifier `id`, received at the
/// clock reading `now`.
pub fn spot_from_dx_line(line: &str, id: &str, now: &ClockReading) -> (r: Option<Spot>)
    ensures
        r is None <==> dx_fields(line@) is None,
        r matches Some(s) ==> Some(s@) == dx_spot(
            line@,
            id@,
            now.rfc3339@,
        ),
{
    let v = chars_of(line);
    let t = trim_chars(&v);
    let prefix = vec!['D', 'X', ' ', 'd', 'e', ' '];
    assert(prefix@ =~= dx_prefix());
    if !starts_with_chars(&t, &prefix) {
        return None;
    }
    let rest = sub_chars(&t, 6, t.len());
    let colon_pat = vec![':'];
    assert(colon_pat@ =~= seq![':']);
    let colon = match find_chars(&rest, &colon_pat) {
        Some(c) => c,
        None => {
            return None;
        },
    };
    proof {
        crate::text::lemma_find_bound(rest@, colon_pat@);
    }
    let spotter_raw = sub_chars(&rest, 0, colon);
    let spotter = trim_chars(&spotter_raw);
    let body_raw = sub_chars(&rest, colon + 1, rest.len());
    let body = trim_chars(&body_raw);
    let tokens = words_of(&body);
    if tokens.len() < 2 {
        return None;
    }
    let khz = match khz_from_text(&tokens[0]) {
        Some(k) => k,
        None => {
            return None;
        },
    };
    let ghost toks = views(tokens@);
    assert(toks[0] == tokens[0]@);
    assert(toks[1] == tokens[1]@);
    let n = tokens.len();
    let last = &tokens[n - 1];
    assert(toks.last() == last@);
    let timed = 4 <= last.len() && last.len() <= 5 && last[last.len() - 1] == 'Z';
    let kept_len = if timed {
        n - 1
    } else {
        n
    };
    let ghost kept = if timed {
        toks.drop_last()
    } else {
        toks
    };
    let space = vec![' '];
    assert(space@ =~= seq![' ']);
    let comment_chars = if kept_len > 2 {
        assert(kept.subrange(2, kept.len() as int) =~= toks.subrange(2, kept_len as int));
        join_words(&tokens, 2, kept_len, &space)
    } else {
        Vec::new()
    };
    let time_chars = if timed {
        sub_chars(last, 0, last.len())
    } else {
        Vec::new()
    };
    assert(last@.subrange(0, last@.len() as int) =~= last@);
    let comment = string_of(&comment_chars);
    let mode = detect_mode(comment.as_str());
    let callsign = string_of(&tokens[1]);
    let spot = Spot {
        id: id.to_owned(),
        received_at: now.rfc3339.clone(),
        full_callsign: string_of(&tokens[1]),
        callsign: base_callsign(callsign.as_str()),
        frequency_khz: khz,
        band: band_from_khz(khz).to_owned(),
        mode: mode.clone(),
        mode_detail: mode,
        spotter: string_of(&spotter),
        comment,
        time: string_of(&time_chars),
        entity: String::new(),
        continent: String::new(),
        dxcc: String::new(),
        cq: String::new(),
        source: "telnet".to_owned(),
        snr: String::new(),
        speed: String::new(),
        qsl: String::new(),
        summit_ref: String::new(),
        wwff_ref: String::new(),
        pota_ref: String::new(),
        iota_group_ref: String::new(),
        state_field: String::new(),
        home_entity: String::new(),
        spotter_continent: String::new(),
        spotter_entity: String::new(),
        spotter_cq: String::new(),
        grid: String::new(),
        raw_text: string_of(&t),
    };
    proof {
        let f = dx_fields(line@)->0;
        assert(f.comment == comment@);
        assert(f.time == time_chars@);
        assert(spot@ == dx_spot_of(f, id@, now.rfc3339@));
    }
    Some(spot)
}

/// The spot a DX-cluster line gives, stamped with the current time and
/// given the next identifier of `ids`, which is used up only when a spot
/// comes back: none when the line is no spot, when the clock cannot be
/// read, or when the identifiers are used up.
pub fn parse_dx_line(line: &str, ids: &mut IdSource) -> (r: Option<Spot>)
    requires
        old(ids).wf(),
    ensures
        final(ids).wf(),
        dx_fields(line@) is None ==> r is None,
        r is None ==> final(ids)@ == old(ids)@,
        r matches Some(s) ==> {
            &&& final(ids)@ matches Some(p)
            &&& old(ids)@ matches Some(q) ==> pair_before(q, p)
            &&& exists|now: ClockReading|
                valid_reading(now) && final(ids)@ == issued_at(old(ids)@, now) && Some(s@) == #[trigger] dx_spot(
                    line@,
                    id_text(p.0, p.1),
                    now.rfc3339@,
                )
        },
{
    let now = match read_clock() {
        Some(n) => n,
        None => {
            return None;
        },
    };
    let ms = reading_millis(&now);
    let p = match ids.next(ms) {
        Some(p) => p,
        None => {
            return None;
        },
    };
    let id = spot_id(p.0, p.1);
    match spot_from_dx_line(line, id.as_str(), &now) {
        Some(s) => {
            ids.advance(ms);
            proof {
                law_next_pair_later(old(ids)@, ms as int);
            }
            Some(s)
        },
        None => None,
    }
}

/// The frequency reading of a HamAlert JSON spot: its `frequency` member
/// read as a number, whether it is a JSON number or a JSON string.
pub open spec fn json_frequency(ms: Seq<(Seq<char>, JsonScalarView)>) -> Option<FloatText> {
    match member(ms, "frequency"@) {
        Some(JsonScalarView::Number(t)) => float_text(t),
        Some(JsonScalarView::Text(t)) => float_text(t),
        _ => None,
    }
}

/// `t`, or `fallback` when `t` is empty.
pub open spec fn or_else(t: Seq<char>, fallback: Seq<char>) -> Seq<char> {
    if t.len() == 0 {
        fallback
    } else {
        t
    }
}

/// The spot a HamAlert JSON line `raw` with members `ms` gives, with
/// identifier `id`, received at `received_at`: none without a `callsign`
/// text; the frequency is read as megahertz, or as kilohertz above 1000; a
/// missing band is taken from the band plan and a missing source is
/// `telnet-json`; every other field is the text member of its name.
pub open spec fn json_spot(
    raw: Seq<char>,
    ms: Seq<(Seq<char>, JsonScalarView)>,
    id: Seq<char>,
    received_at: Seq<char>,
) -> Option<SpotView> {
    let full = member_text(ms, "callsign"@);
    let khz = hamalert_khz(json_frequency(ms));
    if full.len() == 0 {
        None
    } else {
        Some(
            SpotView {
                id,
                received_at,
                full_callsign: full,
                callsign: base_call(full),
                frequency_khz: khz,
                band: or_else(member_text(ms, "band"@), band_name(khz)),
                mode: member_text(ms, "mode"@),
                mode_detail: member_text(ms, "modeDetail"@),
                spotter: member_text(ms, "spotter"@),
                comment: member_text(ms, "comment"@),
                time: member_text(ms, "time"@),
                entity: member_text(ms, "entity"@),
                continent: member_text(ms, "continent"@),
                dxcc: member_text(ms, "dxcc"@),
                cq: member_text(ms, "cq"@),
                source: or_else(member_text(ms, "source"@), "telnet-json"@),
                snr: member_text(ms, "snr"@),
                speed: member_text(ms, "speed"@),
                qsl: member_text(ms, "qsl"@),
                summit_ref: member_text(ms, "summitRef"@),
                wwff_ref: member_text(ms, "wwffRef"@),
                pota_ref: member_text(ms, "potaRef"@),
                iota_group_ref: member_text(ms, "iotaGroupRef"@),
                state_field: member_text(ms, "state"@),
                home_entity: member_text(ms, "homeEntity"@),
                spotter_continent: member_text(ms, "spotterContinent"@),
                spotter_entity: member_text(ms, "spotterEntity"@),
                spotter_cq: member_text(ms, "spotterCq"@),
                grid: member_text(ms, "grid"@),
                raw_text: raw,
            },
        )
    }
}

/// The frequency in kilohertz of the members `entries` of a HamAlert spot.
pub fn json_frequency_khz(entries: &[JsonEntry]) -> (r: i64)
    ensures
        r == hamalert_khz(json_frequency(entries_view(entries@))),
{
    match find_member(entries, "frequency") {
        Some(i) => match &entries[i].value {
            JsonScalar::Number(t) => hamalert_khz_from_text(&chars_of(t.as_str())),
            JsonScalar::Text(t) => hamalert_khz_from_text(&chars_of(t.as_str())),
            JsonScalar::Other => 0,
        },
        None => 0,
    }
}

/// The spot that the HamAlert JSON line `raw`, whose object has the members
/// `entries`, gives when received at the clock reading `now`.
pub fn spot_from_json(raw: &str, entries: &[JsonEntry], id: &str, now: &ClockReading) -> (r: Option<Spot>)
    ensures
        r is None <==> member_text(entries_view(entries@), "callsign"@).len() == 0,
        r matches Some(s) ==> Some(s@) == json_spot(
            raw@,
            entries_view(entries@),
            id@,
            now.rfc3339@,
        ),
{
    let full = member_text_of(entries, "callsign");
    if full.as_str().is_empty() {
        return None;
    }
    let khz = json_frequency_khz(entries);
    let band_text = member_text_of(entries, "band");
    let band = if band_text.as_str().is_empty() {
        band_from_khz(khz).to_owned()
    } else {
        band_text
    };
    let source_text = member_text_of(entries, "source");
    let source = if source_text.as_str().is_empty() {
        "telnet-json".to_owned()
    } else {
        source_text
    };
    let spot = Spot {
        id: id.to_owned(),
        received_at: now.rfc3339.clone(),
        callsign: base_callsign(full.as_str()),
        full_callsign: full,
        frequency_khz: khz,
        band,
        mode: member_text_of(entries, "mode"),
        mode_detail: member_text_of(entries, "modeDetail"),
        spotter: member_text_of(entries, "spotter"),
        comment: member_text_of(entries, "comment"),
        time: member_text_of(entries, "time"),
        entity: member_text_of(entries, "entity"),
        continent: member_text_of(entries, "continent"),
        dxcc: member_text_of(entries, "dxcc"),
        cq: member_text_of(entries, "cq"),
        source,
        snr: member_text_of(entries, "snr"),
        speed: member_text_of(entries, "speed"),
        qsl: member_text_of(entries, "qsl"),
        summit_ref: member_text_of(entries, "summitRef"),
        wwff_ref: member_text_of(entries, "wwffRef"),
        pota_ref: member_text_of(entries, "potaRef"),
        iota_group_ref: member_text_of(entries, "iotaGroupRef"),
        state_field: member_text_of(entries, "state"),
        home_entity: member_text_of(entries, "homeEntity"),
        spotter_continent: member_text_of(entries, "spotterContinent"),
        spotter_entity: member_text_of(entries, "spotterEntity"),
        spotter_cq: member_text_of(entries, "spotterCq"),
        grid: member_text_of(entries, "grid"),
        raw_text: raw.to_owned(),
    };
    Some(spot)
}

/// Whether a HamAlert JSON line gives a spot: it is JSON and its object has
/// a non-empty `callsign` text.
pub open spec fn json_line_has_spot(raw: Seq<char>) -> bool {
    match json_members(raw) {
        Some(ms) => member_text(ms, "callsign"@).len() > 0,
        None => false,
    }
}

/// The spot a HamAlert JSON line gives, with identifier `id`, received at
/// the clock reading `now`.
pub fn spot_from_json_line(raw: &str, id: &str, now: &ClockReading) -> (r: Option<Spot>)
    ensures
        r is None <==> !json_line_has_spot(raw@),
        r matches Some(s) ==> Some(s@) == json_spot(
            raw@,
            json_members(raw@)->0,
            id@,
            now.rfc3339@,
        ),
{
    match json_entries(raw) {
        Some(entries) => spot_from_json(raw, &entries, id, now),
        None => None,
    }
}

/// The spot a HamAlert JSON line gives, stamped with the current time and
/// given the next identifier of `ids`, which is used up only when a spot
/// comes back: none when the line gives no spot, when the clock cannot be
/// read, or when the identifiers are used up.
pub fn parse_json_spot(raw: &str, ids: &mut IdSource) -> (r: Option<Spot>)
    requires
        old(ids).wf(),
    ensures
        final(ids).wf(),
        !json_line_has_spot(raw@) ==> r is None,
        r is None ==> final(ids)@ == old(ids)@,
        r matches Some(s) ==> {
            &&& final(ids)@ matches Some(p)
            &&& old(ids)@ matches Some(q) ==> pair_before(q, p)
            &&& exists|now: ClockReading|
                valid_reading(now) && final(ids)@ == issued_at(old(ids)@, now) && Some(s@) == #[trigger] json_spot(
                    raw@,
                    json_members(raw@)->0,
                    id_text(p.0, p.1),
                    now.rfc3339@,
                )
        },
{
    let now = match read_clock() {
        Some(n) => n,
        None => {
            return None;
        },
    };
    let ms = reading_millis(&now);
    let p = match ids.next(ms) {
        Some(p) => p,
        None => {
            return None;
        },
    };
    let id = spot_id(p.0, p.1);
    match spot_from_json_line(raw, id.as_str(), &now) {
        Some(s) => {
            ids.advance(ms);
            proof {
                law_next_pair_later(old(ids)@, ms as int);
            }
            Some(s)
        },
        None => None,
    }
}

} // verus!
