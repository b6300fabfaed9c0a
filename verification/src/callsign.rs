//! Callsigns and operating modes read from spot text.

use vstd::prelude::*;
use crate::text::{
    byte_len, byte_len_exec, chars_of, contains, contains_chars, split_chars, split_on, string_of,
    views,
};

verus! {

/// Of the pieces `ps`, the one with the longest UTF-8 encoding; among
/// equally long pieces the last one (as `Iterator::max_by_key` picks).
pub open spec fn longest_piece(ps: Seq<Seq<char>>) -> Seq<char>
    decreases ps.len(),
{
    if ps.len() <= 1 {
        ps[0]
    } else {
        let best = longest_piece(ps.drop_last());
        if byte_len(ps.last()) >= byte_len(best) {
            ps.last()
        } else {
            best
        }
    }
}

/// The base callsign: a callsign with `/` is cut at every `/` and its longest
/// piece is kept (`OH/SM5ABC/P` gives `SM5ABC`); one without `/` stays as it is.
pub open spec fn base_call(call: Seq<char>) -> Seq<char> {
    if call.contains('/') {
        longest_piece(split_on(call, '/'))
    } else {
        call
    }
}

/// The base callsign of `call` (see `base_call`).
pub fn base_callsign(call: &str) -> (r: String)
    ensures
        r@ == base_call(call@),
{
    let v = chars_of(call);
    let mut has_slash = false;
    let mut i: usize = 0;
    while i < v.len()
        invariant
            i <= v.len(),
            has_slash == exists|k: int| 0 <= k < i && v@[k] == '/',
        decreases v.len() - i,
    {
        if v[i] == '/' {
            has_slash = true;
        }
        i = i + 1;
    }
    if !has_slash {
        return string_of(&v);
    }
    let pieces = split_chars(&v, '/');
    let mut best: usize = 0;
    let mut best_len = byte_len_exec(&pieces[0]);
    let mut j: usize = 1;
    assert(views(pieces@).take(1).drop_last() =~= Seq::<Seq<char>>::empty());
    while j < pieces.len()
        invariant
            1 <= j <= pieces.len(),
            best < j,
            best_len == byte_len(views(pieces@)[best as int]),
            longest_piece(views(pieces@).take(j as int)) == views(pieces@)[best as int],
        decreases pieces.len() - j,
    {
        let l = byte_len_exec(&pieces[j]);
        proof {
            let t = views(pieces@).take(j + 1);
            assert(t.drop_last() =~= views(pieces@).take(j as int));
            assert(t.last() == views(pieces@)[j as int]);
        }
        if l >= best_len {
            best = j;
            best_len = l;
        }
        j = j + 1;
    }
    assert(views(pieces@).take(pieces.len() as int) =~= views(pieces@));
    string_of(&pieces[best])
}

/// Every piece of `split_on(s, c)` is free of `c`.
proof fn lemma_split_pieces_free(s: Seq<char>, c: char)
    ensures
        forall|i: int| 0 <= i < split_on(s, c).len() ==> !(#[trigger] split_on(s, c)[i]).contains(c),
        split_on(s, c).len() >= 1,
    decreases s.len(),
{
    if s.len() > 0 {
        lemma_split_pieces_free(s.drop_last(), c);
        let prev = split_on(s.drop_last(), c);
        if s.last() != c {
            let w = prev.last().push(s.last());
            assert forall|k: int| 0 <= k < w.len() implies w[k] != c by {
                if k < prev.last().len() {
                    assert(prev.last()[k] == w[k]);
                    assert(!prev[prev.len() - 1].contains(c));
                }
            }
            let now = split_on(s, c);
            assert forall|i: int| 0 <= i < now.len() implies !(#[trigger] now[i]).contains(c) by {
                if i < now.len() - 1 {
                    assert(now[i] == prev[i]);
                }
            }
        } else {
            let now = split_on(s, c);
            assert forall|i: int| 0 <= i < now.len() implies !(#[trigger] now[i]).contains(c) by {
                if i < now.len() - 1 {
                    assert(now[i] == prev[i]);
                }
            }
        }
    } else {
        assert forall|i: int| 0 <= i < split_on(s, c).len() implies !(#[trigger] split_on(s, c)[i]).contains(c) by {
        }
    }
}

/// `longest_piece` returns one of the pieces.
proof fn lemma_longest_is_piece(ps: Seq<Seq<char>>)
    requires
        ps.len() >= 1,
    ensures
        exists|i: int| 0 <= i < ps.len() && ps[i] == longest_piece(ps),
    decreases ps.len(),
{
    if ps.len() > 1 {
        lemma_longest_is_piece(ps.drop_last());
        let i = choose|i: int| 0 <= i < ps.drop_last().len() && ps.drop_last()[i] == longest_piece(ps.drop_last());
        assert(ps[i] == ps.drop_last()[i]);
        assert(ps[ps.len() - 1] == ps.last());
    } else {
        assert(ps[0] == longest_piece(ps));
    }
}

/// The base callsign holds no `/`, once the callsign had one; taking the base
/// of a base callsign changes nothing.
pub proof fn law_base_call_idempotent(call: Seq<char>)
    ensures
        call.contains('/') ==> !base_call(call).contains('/'),
        base_call(base_call(call)) == base_call(call),
{
    if call.contains('/') {
        lemma_split_pieces_free(call, '/');
        lemma_longest_is_piece(split_on(call, '/'));
        let i = choose|i: int| 0 <= i < split_on(call, '/').len() && split_on(call, '/')[i] == longest_piece(split_on(call, '/'));
        assert(!split_on(call, '/')[i].contains('/'));
    }
}

proof fn lemma_longest_piece_is_longest(ps: Seq<Seq<char>>)
    requires
        ps.len() >= 1,
    ensures
        exists|i: int|
            0 <= i < ps.len() && #[trigger] ps[i] == longest_piece(ps) && (forall|j: int|
                0 <= j < ps.len() ==> byte_len(#[trigger] ps[j]) <= byte_len(ps[i])) && (forall|j: int|
                i < j < ps.len() ==> byte_len(#[trigger] ps[j]) < byte_len(ps[i])),
    decreases ps.len(),
{
    if ps.len() == 1 {
        assert(ps[0] == longest_piece(ps));
    } else {
        let rest = ps.drop_last();
        lemma_longest_piece_is_longest(rest);
        let i0 = choose|i: int|
            0 <= i < rest.len() && #[trigger] rest[i] == longest_piece(rest) && (forall|j: int|
                0 <= j < rest.len() ==> byte_len(#[trigger] rest[j]) <= byte_len(rest[i])) && (forall|j: int|
                i < j < rest.len() ==> byte_len(#[trigger] rest[j]) < byte_len(rest[i]));
        let n = ps.len() - 1;
        assert(ps[n] == ps.last());
        assert forall|j: int| 0 <= j < n implies ps[j] == rest[j] by {}
        if byte_len(ps.last()) >= byte_len(longest_piece(rest)) {
            assert forall|j: int| 0 <= j < ps.len() implies byte_len(#[trigger] ps[j]) <= byte_len(ps[n]) by {
                if j < n {
                    assert(ps[j] == rest[j]);
                }
            }
        } else {
            assert(ps[i0] == rest[i0]);
            assert forall|j: int| 0 <= j < ps.len() implies byte_len(#[trigger] ps[j]) <= byte_len(ps[i0]) by {
                if j < n {
                    assert(ps[j] == rest[j]);
                }
            }
            assert forall|j: int| i0 < j < ps.len() implies byte_len(#[trigger] ps[j]) < byte_len(ps[i0]) by {
                if j < n {
                    assert(ps[j] == rest[j]);
                }
            }
        }
    }
}

/// The base callsign of a callsign with `/` is one of its `/`-separated
/// pieces, the longest in UTF-8 bytes, and of equally long pieces the last
/// (`OH/SM5ABC/P` gives `SM5ABC`, `SM/OH2BH` gives `OH2BH`); a callsign
/// without `/` is its own base.
pub proof fn law_base_call_longest_piece(call: Seq<char>)
    ensures
        !call.contains('/') ==> base_call(call) == call,
        call.contains('/') ==> exists|i: int|
            0 <= i < split_on(call, '/').len() && #[trigger] split_on(call, '/')[i] == base_call(call) && (
            forall|j: int|
                0 <= j < split_on(call, '/').len() ==> byte_len(#[trigger] split_on(call, '/')[j]) <= byte_len(
                    split_on(call, '/')[i],
                )) && (forall|j: int|
                i < j < split_on(call, '/').len() ==> byte_len(#[trigger] split_on(call, '/')[j]) < byte_len(
                    split_on(call, '/')[i],
                )),
{
    if call.contains('/') {
        lemma_split_pieces_free(call, '/');
        lemma_longest_piece_is_longest(split_on(call, '/'));
    }
}

/// The modes looked for in a spot comment, in the order they are tried.
pub open spec fn mode_names() -> Seq<Seq<char>> {
    seq![
        seq!['F', 'T', '8'],
        seq!['F', 'T', '4'],
        seq!['R', 'T', 'T', 'Y'],
        seq!['P', 'S', 'K', '3', '1'],
        seq!['P', 'S', 'K'],
        seq!['W', 'S', 'P', 'R'],
        seq!['J', 'S', '8'],
        seq!['J', 'T', '6', '5'],
        seq!['J', 'T', '9'],
        seq!['S', 'S', 'B'],
        seq!['L', 'S', 'B'],
        seq!['U', 'S', 'B'],
        seq!['A', 'M'],
        seq!['F', 'M'],
        seq!['C', 'W'],
    ]
}

/// The first of `mode_names()[i..]` that occurs in `upper`, or the empty text.
pub open spec fn first_mode_from(upper: Seq<char>, i: int) -> Seq<char>
    decreases mode_names().len() - i,
{
    if i < 0 || i >= mode_names().len() {
        Seq::<char>::empty()
    } else if contains(upper, mode_names()[i]) {
        mode_names()[i]
    } else {
        first_mode_from(upper, i + 1)
    }
}

/// The mode found in an upper-cased comment.
pub open spec fn mode_in(upper: Seq<char>) -> Seq<char> {
    first_mode_from(upper, 0)
}

/// The mode of a comment is the first of FT8, FT4, RTTY, PSK31, PSK, WSPR,
/// JS8, JT65, JT9, SSB, LSB, USB, AM, FM and CW (in that order) that occurs
/// in the upper-cased comment, and none when none of them occurs.
pub proof fn law_mode_order(upper: Seq<char>)
    ensures
        contains(upper, "FT8"@) ==> mode_in(upper) == "FT8"@,
        contains(upper, "FT4"@) && !contains(upper, "FT8"@) ==> mode_in(upper) == "FT4"@,
        contains(upper, "RTTY"@) && !contains(upper, "FT8"@) && !contains(upper, "FT4"@) ==> mode_in(upper) == "RTTY"@,
        contains(upper, "PSK31"@) && !contains(upper, "FT8"@) && !contains(upper, "FT4"@) && !contains(upper, "RTTY"@) ==> mode_in(upper) == "PSK31"@,
        contains(upper, "PSK"@) && !contains(upper, "FT8"@) && !contains(upper, "FT4"@) && !contains(upper, "RTTY"@) && !contains(upper, "PSK31"@) ==> mode_in(upper) == "PSK"@,
        contains(upper, "WSPR"@) && !contains(upper, "FT8"@) && !contains(upper, "FT4"@) && !contains(upper, "RTTY"@) && !contains(upper, "PSK31"@) && !contains(upper, "PSK"@) ==> mode_in(upper) == "WSPR"@,
        contains(upper, "JS8"@) && !contains(upper, "FT8"@) && !contains(upper, "FT4"@) && !contains(upper, "RTTY"@) && !contains(upper, "PSK31"@) && !contains(upper, "PSK"@) && !contains(upper, "WSPR"@) ==> mode_in(upper) == "JS8"@,
        contains(upper, "JT65"@) && !contains(upper, "FT8"@) && !contains(upper, "FT4"@) && !contains(upper, "RTTY"@) && !contains(upper, "PSK31"@) && !contains(upper, "PSK"@) && !contains(upper, "WSPR"@) && !contains(upper, "JS8"@) ==> mode_in(upper) == "JT65"@,
        contains(upper, "JT9"@) && !contains(upper, "FT8"@) && !contains(upper, "FT4"@) && !contains(upper, "RTTY"@) && !contains(upper, "PSK31"@) && !contains(upper, "PSK"@) && !contains(upper, "WSPR"@) && !contains(upper, "JS8"@) && !contains(upper, "JT65"@) ==> mode_in(upper) == "JT9"@,
        contains(upper, "SSB"@) && !contains(upper, "FT8"@) && !contains(upper, "FT4"@) && !contains(upper, "RTTY"@) && !contains(upper, "PSK31"@) && !contains(upper, "PSK"@) && !contains(upper, "WSPR"@) && !contains(upper, "JS8"@) && !contains(upper, "JT65"@) && !contains(upper, "JT9"@) ==> mode_in(upper) == "SSB"@,
        contains(upper, "LSB"@) && !contains(upper, "FT8"@) && !contains(upper, "FT4"@) && !contains(upper, "RTTY"@) && !contains(upper, "PSK31"@) && !contains(upper, "PSK"@) && !contains(upper, "WSPR"@) && !contains(upper, "JS8"@) && !contains(upper, "JT65"@) && !contains(upper, "JT9"@) && !contains(upper, "SSB"@) ==> mode_in(upper) == "LSB"@,
        contains(upper, "USB"@) && !contains(upper, "FT8"@) && !contains(upper, "FT4"@) && !contains(upper, "RTTY"@) && !contains(upper, "PSK31"@) && !contains(upper, "PSK"@) && !contains(upper, "WSPR"@) && !contains(upper, "JS8"@) && !contains(upper, "JT65"@) && !contains(upper, "JT9"@) && !contains(upper, "SSB"@) && !contains(upper, "LSB"@) ==> mode_in(upper) == "USB"@,
        contains(upper, "AM"@) && !contains(upper, "FT8"@) && !contains(upper, "FT4"@) && !contains(upper, "RTTY"@) && !contains(upper, "PSK31"@) && !contains(upper, "PSK"@) && !contains(upper, "WSPR"@) && !contains(upper, "JS8"@) && !contains(upper, "JT65"@) && !contains(upper, "JT9"@) && !contains(upper, "SSB"@) && !contains(upper, "LSB"@) && !contains(upper, "USB"@) ==> mode_in(upper) == "AM"@,
        contains(upper, "FM"@) && !contains(upper, "FT8"@) && !contains(upper, "FT4"@) && !contains(upper, "RTTY"@) && !contains(upper, "PSK31"@) && !contains(upper, "PSK"@) && !contains(upper, "WSPR"@) && !contains(upper, "JS8"@) && !contains(upper, "JT65"@) && !contains(upper, "JT9"@) && !contains(upper, "SSB"@) && !contains(upper, "LSB"@) && !contains(upper, "USB"@) && !contains(upper, "AM"@) ==> mode_in(upper) == "FM"@,
        contains(upper, "CW"@) && !contains(upper, "FT8"@) && !contains(upper, "FT4"@) && !contains(upper, "RTTY"@) && !contains(upper, "PSK31"@) && !contains(upper, "PSK"@) && !contains(upper, "WSPR"@) && !contains(upper, "JS8"@) && !contains(upper, "JT65"@) && !contains(upper, "JT9"@) && !contains(upper, "SSB"@) && !contains(upper, "LSB"@) && !contains(upper, "USB"@) && !contains(upper, "AM"@) && !contains(upper, "FM"@) ==> mode_in(upper) == "CW"@,
        !contains(upper, "FT8"@) && !contains(upper, "FT4"@) && !contains(upper, "RTTY"@) && !contains(upper, "PSK31"@) && !contains(upper, "PSK"@) && !contains(upper, "WSPR"@) && !contains(upper, "JS8"@) && !contains(upper, "JT65"@) && !contains(upper, "JT9"@) && !contains(upper, "SSB"@) && !contains(upper, "LSB"@) && !contains(upper, "USB"@) && !contains(upper, "AM"@) && !contains(upper, "FM"@) && !contains(upper, "CW"@) ==> mode_in(upper).len() == 0,
{
    reveal_strlit("FT8");
    reveal_strlit("FT4");
    reveal_strlit("RTTY");
    reveal_strlit("PSK31");
    reveal_strlit("PSK");
    reveal_strlit("WSPR");
    reveal_strlit("JS8");
    reveal_strlit("JT65");
    reveal_strlit("JT9");
    reveal_strlit("SSB");
    reveal_strlit("LSB");
    reveal_strlit("USB");
    reveal_strlit("AM");
    reveal_strlit("FM");
    reveal_strlit("CW");
    assert("FT8"@ =~= mode_names()[0]);
    assert("FT4"@ =~= mode_names()[1]);
    assert("RTTY"@ =~= mode_names()[2]);
    assert("PSK31"@ =~= mode_names()[3]);
    assert("PSK"@ =~= mode_names()[4]);
    assert("WSPR"@ =~= mode_names()[5]);
    assert("JS8"@ =~= mode_names()[6]);
    assert("JT65"@ =~= mode_names()[7]);
    assert("JT9"@ =~= mode_names()[8]);
    assert("SSB"@ =~= mode_names()[9]);
    assert("LSB"@ =~= mode_names()[10]);
    assert("USB"@ =~= mode_names()[11]);
    assert("AM"@ =~= mode_names()[12]);
    assert("FM"@ =~= mode_names()[13]);
    assert("CW"@ =~= mode_names()[14]);
    reveal_with_fuel(first_mode_from, 16);
}

/// What `str::to_uppercase` returns for `s` (Unicode upper-casing).
pub uninterp spec fn uppercase(s: Seq<char>) -> Seq<char>;

/// Calls `str::to_uppercase`; its result is named `uppercase`.
#[verifier::external_body]
fn to_upper(s: &str) -> (r: String)
    ensures
        r@ == uppercase(s@),
{
    s.to_uppercase()
}

/// The name of mode number `i` of `mode_names()`.
fn mode_name(i: usize) -> (r: &'static str)
    requires
        i < 15,
    ensures
        r@ == mode_names()[i as int],
{
    match i {
        0 => { proof { reveal_strlit("FT8"); } "FT8" },
        1 => { proof { reveal_strlit("FT4"); } "FT4" },
        2 => { proof { reveal_strlit("RTTY"); } "RTTY" },
        3 => { proof { reveal_strlit("PSK31"); } "PSK31" },
        4 => { proof { reveal_strlit("PSK"); } "PSK" },
        5 => { proof { reveal_strlit("WSPR"); } "WSPR" },
        6 => { proof { reveal_strlit("JS8"); } "JS8" },
        7 => { proof { reveal_strlit("JT65"); } "JT65" },
        8 => { proof { reveal_strlit("JT9"); } "JT9" },
        9 => { proof { reveal_strlit("SSB"); } "SSB" },
        10 => { proof { reveal_strlit("LSB"); } "LSB" },
        11 => { proof { reveal_strlit("USB"); } "USB" },
        12 => { proof { reveal_strlit("AM"); } "AM" },
        13 => { proof { reveal_strlit("FM"); } "FM" },
        _ => { proof { reveal_strlit("CW"); } "CW" },
    }
}

/// The first listed mode that occurs in the already upper-cased text `upper`,
/// or the empty string.
pub fn detect_mode_in(upper: &str) -> (r: String)
    ensures
        r@ == mode_in(upper@),
{
    let u = chars_of(upper);
    let mut i: usize = 0;
    while i < 15
        invariant
            i <= 15,
            u@ == upper@,
            mode_in(upper@) == first_mode_from(upper@, i as int),
        decreases 15 - i,
    {
        let name = mode_name(i);
        let m = chars_of(name);
        if contains_chars(&u, &m) {
            return name.to_owned();
        }
        i = i + 1;
    }
    String::new()
}

/// The mode named in a spot comment: the first listed mode that occurs in the
/// comment upper-cased, or the empty string.
pub fn detect_mode(comment: &str) -> (r: String)
    ensures
        r@ == mode_in(uppercase(comment@)),
{
    let upper = to_upper(comment);
    detect_mode_in(upper.as_str())
}

} // verus!
