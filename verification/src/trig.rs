//! Sines and cosines of whole degrees in fixed point.

use vstd::prelude::*;

verus! {

/// The fixed-point one: a sine or cosine `v` stands for `v / UNIT`.
pub const UNIT: i64 = 1073741824;

/// The sines of 0 to 90 degrees, each times `UNIT` and rounded to the
/// nearest integer.
pub const QUARTER_SINES: [i64; 91] = [
    0, 18739379, 37473049, 56195305, 74900443,
    93582766, 112236583, 130856211, 149435979, 167970228,
    186453311, 204879599, 223243478, 241539355, 259761657,
    277904834, 295963357, 313931728, 331804471, 349576144,
    367241333, 384794656, 402230767, 419544355, 436730145,
    453782903, 470697435, 487468587, 504091252, 520560366,
    536870912, 553017922, 568996477, 584801711, 600428808,
    615873009, 631129609, 646193961, 661061475, 675727625,
    690187940, 704438018, 718473518, 732290163, 745883746,
    759250125, 772385229, 785285058, 797945680, 810363241,
    822533958, 834454122, 846120104, 857528349, 868675383,
    879557810, 890172315, 900515665, 910584710, 920376381,
    929887697, 939115760, 948057759, 956710970, 965072759,
    973140576, 980911966, 988384560, 995556083, 1002424350,
    1008987269, 1015242840, 1021189159, 1026824413, 1032146887,
    1037154959, 1041847103, 1046221891, 1050277989, 1054014162,
    1057429273, 1060522280, 1063292242, 1065738315, 1067859754,
    1069655912, 1071126243, 1072270298, 1073087729, 1073578288,
    1073741824,
];

/// The angle between 0 and 359 degrees that differs from `deg` by whole
/// turns.
pub open spec fn turn_reduced(deg: int) -> int {
    deg % 360
}

/// The sine of `deg` degrees in units of `1 / UNIT`: the table's entry, read
/// through the symmetries of the sine about 90 and 180 degrees.
pub open spec fn sine_units(deg: int) -> int {
    let d = turn_reduced(deg);
    if d <= 90 {
        QUARTER_SINES[d] as int
    } else if d <= 180 {
        QUARTER_SINES[180 - d] as int
    } else if d <= 270 {
        -(QUARTER_SINES[d - 180] as int)
    } else {
        -(QUARTER_SINES[360 - d] as int)
    }
}

/// The cosine of `deg` degrees in units of `1 / UNIT`: the sine a quarter
/// turn ahead.
pub open spec fn cosine_units(deg: int) -> int {
    sine_units(deg + 90)
}

/// Brings an angle into the range from 0 to 359 degrees by whole turns.
pub fn reduce_degrees(deg: i32) -> (d: u32)
    ensures
        d == turn_reduced(deg as int),
        d < 360,
{
    if deg >= 0 {
        (deg % 360) as u32
    } else {
        let back: i64 = (-(deg as i64)) % 360;
        if back == 0 {
            0
        } else {
            (360 - back) as u32
        }
    }
}

/// The sine of a reduced angle.
fn sine_reduced(d: u32) -> (s: i64)
    requires
        d < 360,
    ensures
        s == sine_units(d as int),
        -UNIT <= s <= UNIT,
{
    let s: i64 = if d <= 90 {
        QUARTER_SINES[d as usize]
    } else if d <= 180 {
        QUARTER_SINES[(180 - d) as usize]
    } else if d <= 270 {
        -QUARTER_SINES[(d - 180) as usize]
    } else {
        -QUARTER_SINES[(360 - d) as usize]
    };
    proof {
        lemma_table_range();
    }
    s
}

/// Every entry of the table lies between zero and `UNIT`.
pub proof fn lemma_table_range()
    ensures
        forall|k: int| 0 <= k <= 90 ==> 0 <= #[trigger] QUARTER_SINES[k] <= UNIT,
{
}

/// No sine exceeds one in magnitude.
pub proof fn lemma_sine_range(deg: int)
    ensures
        -UNIT <= sine_units(deg) <= UNIT,
{
    lemma_table_range();
}

/// Angles that differ by whole turns have the same sine.
pub proof fn lemma_sine_of_same_direction(a: int, b: int)
    requires
        turn_reduced(a) == turn_reduced(b),
    ensures
        sine_units(a) == sine_units(b),
        cosine_units(a) == cosine_units(b),
{
    assert(turn_reduced(a + 90) == turn_reduced(b + 90));
}

/// The sine of a whole number of degrees.
pub fn sine_of_degrees(deg: i32) -> (s: i64)
    ensures
        s == sine_units(deg as int),
        -UNIT <= s <= UNIT,
{
    sine_reduced(reduce_degrees(deg))
}

/// The cosine of a whole number of degrees.
pub fn cosine_of_degrees(deg: i32) -> (c: i64)
    ensures
        c == cosine_units(deg as int),
        -UNIT <= c <= UNIT,
{
    let d: u32 = reduce_degrees(deg);
    let ahead: u32 = if d >= 270 {
        d - 270
    } else {
        d + 90
    };
    proof {
        assert(turn_reduced(deg + 90) == turn_reduced(ahead as int));
        lemma_sine_of_same_direction(deg + 90, ahead as int);
    }
    sine_reduced(ahead)
}

} // verus!
