//! The amateur band plan: which band a frequency lies in.

use vstd::prelude::*;

verus! {

/// The band of a frequency of `khz` kilohertz, `"?"` outside the plan.
/// Each band is a half-open range `[low, high)` of kilohertz.
pub open spec fn band_name(khz: int) -> Seq<char> {
    if 1800 <= khz < 2000 {
        seq!['1', '6', '0', 'm']
    } else if 3500 <= khz < 4000 {
        seq!['8', '0', 'm']
    } else if 5300 <= khz < 5500 {
        seq!['6', '0', 'm']
    } else if 7000 <= khz < 7300 {
        seq!['4', '0', 'm']
    } else if 10100 <= khz < 10150 {
        seq!['3', '0', 'm']
    } else if 14000 <= khz < 14350 {
        seq!['2', '0', 'm']
    } else if 18068 <= khz < 18168 {
        seq!['1', '7', 'm']
    } else if 21000 <= khz < 21450 {
        seq!['1', '5', 'm']
    } else if 24890 <= khz < 24990 {
        seq!['1', '2', 'm']
    } else if 28000 <= khz < 29700 {
        seq!['1', '0', 'm']
    } else if 50000 <= khz < 54000 {
        seq!['6', 'm']
    } else if 144000 <= khz < 148000 {
        seq!['2', 'm']
    } else if 430000 <= khz < 440000 {
        seq!['7', '0', 'c', 'm']
    } else {
        seq!['?']
    }
}

/// The band plan: each band is exactly its half-open range of kilohertz,
/// from its lower edge up to (not including) its upper edge, and a
/// frequency outside every range has no band (`?`).
pub proof fn law_band_plan(khz: int)
    ensures
        band_name(khz) == "160m"@ <==> 1800 <= khz < 2000,
        band_name(khz) == "80m"@ <==> 3500 <= khz < 4000,
        band_name(khz) == "60m"@ <==> 5300 <= khz < 5500,
        band_name(khz) == "40m"@ <==> 7000 <= khz < 7300,
        band_name(khz) == "30m"@ <==> 10100 <= khz < 10150,
        band_name(khz) == "20m"@ <==> 14000 <= khz < 14350,
        band_name(khz) == "17m"@ <==> 18068 <= khz < 18168,
        band_name(khz) == "15m"@ <==> 21000 <= khz < 21450,
        band_name(khz) == "12m"@ <==> 24890 <= khz < 24990,
        band_name(khz) == "10m"@ <==> 28000 <= khz < 29700,
        band_name(khz) == "6m"@ <==> 50000 <= khz < 54000,
        band_name(khz) == "2m"@ <==> 144000 <= khz < 148000,
        band_name(khz) == "70cm"@ <==> 430000 <= khz < 440000,
        band_name(khz) == "?"@ <==> !(1800 <= khz < 2000) && !(3500 <= khz < 4000) && !(5300 <= khz < 5500) && !(7000 <= khz < 7300) && !(10100 <= khz < 10150) && !(14000 <= khz < 14350) && !(18068 <= khz < 18168) && !(21000 <= khz < 21450) && !(24890 <= khz < 24990) && !(28000 <= khz < 29700) && !(50000 <= khz < 54000) && !(144000 <= khz < 148000) && !(430000 <= khz < 440000),
{
    reveal_strlit("160m");
    reveal_strlit("80m");
    reveal_strlit("60m");
    reveal_strlit("40m");
    reveal_strlit("30m");
    reveal_strlit("20m");
    reveal_strlit("17m");
    reveal_strlit("15m");
    reveal_strlit("12m");
    reveal_strlit("10m");
    reveal_strlit("6m");
    reveal_strlit("2m");
    reveal_strlit("70cm");
    reveal_strlit("?");
    assert("160m"@ =~= seq!['1', '6', '0', 'm']);
    assert("80m"@ =~= seq!['8', '0', 'm']);
    assert("60m"@ =~= seq!['6', '0', 'm']);
    assert("40m"@ =~= seq!['4', '0', 'm']);
    assert("30m"@ =~= seq!['3', '0', 'm']);
    assert("20m"@ =~= seq!['2', '0', 'm']);
    assert("17m"@ =~= seq!['1', '7', 'm']);
    assert("15m"@ =~= seq!['1', '5', 'm']);
    assert("12m"@ =~= seq!['1', '2', 'm']);
    assert("10m"@ =~= seq!['1', '0', 'm']);
    assert("6m"@ =~= seq!['6', 'm']);
    assert("2m"@ =~= seq!['2', 'm']);
    assert("70cm"@ =~= seq!['7', '0', 'c', 'm']);
    assert("?"@ =~= seq!['?']);
}

/// The band that a frequency of `khz` kilohertz lies in.
pub fn band_from_khz(khz: i64) -> (r: &'static str)
    ensures
        r@ == band_name(khz as int),
{
    if 1800 <= khz && khz < 2000 {
        proof { reveal_strlit("160m"); }
        "160m"
    } else if 3500 <= khz && khz < 4000 {
        proof { reveal_strlit("80m"); }
        "80m"
    } else if 5300 <= khz && khz < 5500 {
        proof { reveal_strlit("60m"); }
        "60m"
    } else if 7000 <= khz && khz < 7300 {
        proof { reveal_strlit("40m"); }
        "40m"
    } else if 10100 <= khz && khz < 10150 {
        proof { reveal_strlit("30m"); }
        "30m"
    } else if 14000 <= khz && khz < 14350 {
        proof { reveal_strlit("20m"); }
        "20m"
    } else if 18068 <= khz && khz < 18168 {
        proof { reveal_strlit("17m"); }
        "17m"
    } else if 21000 <= khz && khz < 21450 {
        proof { reveal_strlit("15m"); }
        "15m"
    } else if 24890 <= khz && khz < 24990 {
        proof { reveal_strlit("12m"); }
        "12m"
    } else if 28000 <= khz && khz < 29700 {
        proof { reveal_strlit("10m"); }
        "10m"
    } else if 50000 <= khz && khz < 54000 {
        proof { reveal_strlit("6m"); }
        "6m"
    } else if 144000 <= khz && khz < 148000 {
        proof { reveal_strlit("2m"); }
        "2m"
    } else if 430000 <= khz && khz < 440000 {
        proof { reveal_strlit("70cm"); }
        "70cm"
    } else {
        proof { reveal_strlit("?"); }
        "?"
    }
}

} // verus!
