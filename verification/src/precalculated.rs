//! Precomputed magic multipliers and shifts for the sliding-piece lookup tables.
use vstd::prelude::*;

verus! {

/// Magic multiplier of the rook table of square `i`.
pub open spec fn rook_magic(i: int) -> u64 {
    match i as u8 {
        0 => 36029071915778610,
        1 => 144152576051396736,
        2 => 72075473991507968,
        3 => 612498345683943524,
        4 => 360296768698843904,
        5 => 144132814689665025,
        6 => 432352161431585028,
        7 => 216173335411752962,
        8 => 140738562129954,
        9 => 70370086363136,
        10 => 422556131655808,
        11 => 9230268208144973952,
        12 => 4611827305805808640,
        13 => 1459729246434922504,
        14 => 288511859718620416,
        15 => 36591755571495009,
        16 => 9313444579200027172,
        17 => 4504424265293834,
        18 => 2350879557392797696,
        19 => 6953702411244488704,
        20 => 5044314157277512720,
        21 => 4617315792873128000,
        22 => 13196425498128,
        23 => 576762018493694084,
        24 => 2307040381673570304,
        25 => 577674631394107392,
        26 => 3674954890269950088,
        27 => 1688995890249736,
        28 => 281685432469504,
        29 => 563027263361029,
        30 => 11029596966702153860,
        31 => 558347075844,
        32 => 54043893603238464,
        33 => 1189020674815959168,
        34 => 2287055086305792,
        35 => 12142927254476820481,
        36 => 2252083285722112,
        37 => 141845598307328,
        38 => 4611694836196574736,
        39 => 9012698993922116,
        40 => 9232519983261581344,
        41 => 457465560875016,
        42 => 9223935135056003092,
        43 => 27056850872631305,
        44 => 1224997000085307396,
        45 => 577041312697024800,
        46 => 8800656687106,
        47 => 2414703767858577412,
        48 => 36028934613107776,
        49 => 2311508807684980992,
        50 => 10451747530141075712,
        51 => 9587741796892800,
        52 => 5070949775310976,
        53 => 4612811926940958784,
        54 => 281492727005440,
        55 => 576601495177274496,
        56 => 36285092757505,
        57 => 5335727759060647939,
        58 => 288345554826625297,
        59 => 36284152162437,
        60 => 9223935004795488258,
        61 => 4617034214850728449,
        62 => 1153202988173771393,
        63 => 13857581293363077250,
        _ => 0,
    }
}

/// Magic multiplier of the rook table of square `i`.
pub fn rook_magic_number(i: usize) -> (r: u64)
    requires
        i < 64,
    ensures
        r == rook_magic(i as int),
{
    match i {
        0 => 36029071915778610,
        1 => 144152576051396736,
        2 => 72075473991507968,
        3 => 612498345683943524,
        4 => 360296768698843904,
        5 => 144132814689665025,
        6 => 432352161431585028,
        7 => 216173335411752962,
        8 => 140738562129954,
        9 => 70370086363136,
        10 => 422556131655808,
        11 => 9230268208144973952,
        12 => 4611827305805808640,
        13 => 1459729246434922504,
        14 => 288511859718620416,
        15 => 36591755571495009,
        16 => 9313444579200027172,
        17 => 4504424265293834,
        18 => 2350879557392797696,
        19 => 6953702411244488704,
        20 => 5044314157277512720,
        21 => 4617315792873128000,
        22 => 13196425498128,
        23 => 576762018493694084,
        24 => 2307040381673570304,
        25 => 577674631394107392,
        26 => 3674954890269950088,
        27 => 1688995890249736,
        28 => 281685432469504,
        29 => 563027263361029,
        30 => 11029596966702153860,
        31 => 558347075844,
        32 => 54043893603238464,
        33 => 1189020674815959168,
        34 => 2287055086305792,
        35 => 12142927254476820481,
        36 => 2252083285722112,
        37 => 141845598307328,
        38 => 4611694836196574736,
        39 => 9012698993922116,
        40 => 9232519983261581344,
        41 => 457465560875016,
        42 => 9223935135056003092,
        43 => 27056850872631305,
        44 => 1224997000085307396,
        45 => 577041312697024800,
        46 => 8800656687106,
        47 => 2414703767858577412,
        48 => 36028934613107776,
        49 => 2311508807684980992,
        50 => 10451747530141075712,
        51 => 9587741796892800,
        52 => 5070949775310976,
        53 => 4612811926940958784,
        54 => 281492727005440,
        55 => 576601495177274496,
        56 => 36285092757505,
        57 => 5335727759060647939,
        58 => 288345554826625297,
        59 => 36284152162437,
        60 => 9223935004795488258,
        61 => 4617034214850728449,
        62 => 1153202988173771393,
        63 => 13857581293363077250,
        _ => 0,
    }
}

/// Shift of the rook table of square `i` (64 minus its index bits).
pub open spec fn rook_shift(i: int) -> u64 {
    match i as u8 {
        0 => 52,
        1 => 53,
        2 => 53,
        3 => 53,
        4 => 53,
        5 => 53,
        6 => 53,
        7 => 52,
        8 => 53,
        9 => 54,
        10 => 54,
        11 => 54,
        12 => 54,
        13 => 54,
        14 => 54,
        15 => 53,
        16 => 53,
        17 => 54,
        18 => 54,
        19 => 54,
        20 => 54,
        21 => 54,
        22 => 54,
        23 => 53,
        24 => 53,
        25 => 54,
        26 => 54,
        27 => 54,
        28 => 54,
        29 => 54,
        30 => 54,
        31 => 53,
        32 => 53,
        33 => 54,
        34 => 54,
        35 => 54,
        36 => 54,
        37 => 54,
        38 => 54,
        39 => 53,
        40 => 53,
        41 => 54,
        42 => 54,
        43 => 54,
        44 => 54,
        45 => 54,
        46 => 54,
        47 => 53,
        48 => 53,
        49 => 54,
        50 => 54,
        51 => 54,
        52 => 54,
        53 => 54,
        54 => 54,
        55 => 53,
        56 => 52,
        57 => 53,
        58 => 53,
        59 => 53,
        60 => 53,
        61 => 53,
        62 => 53,
        63 => 52,
        _ => 0,
    }
}

/// Shift of the rook table of square `i` (64 minus its index bits).
pub fn rook_shift_amount(i: usize) -> (r: u64)
    requires
        i < 64,
    ensures
        r == rook_shift(i as int),
        52 <= r <= 54,
{
    match i {
        0 => 52,
        1 => 53,
        2 => 53,
        3 => 53,
        4 => 53,
        5 => 53,
        6 => 53,
        7 => 52,
        8 => 53,
        9 => 54,
        10 => 54,
        11 => 54,
        12 => 54,
        13 => 54,
        14 => 54,
        15 => 53,
        16 => 53,
        17 => 54,
        18 => 54,
        19 => 54,
        20 => 54,
        21 => 54,
        22 => 54,
        23 => 53,
        24 => 53,
        25 => 54,
        26 => 54,
        27 => 54,
        28 => 54,
        29 => 54,
        30 => 54,
        31 => 53,
        32 => 53,
        33 => 54,
        34 => 54,
        35 => 54,
        36 => 54,
        37 => 54,
        38 => 54,
        39 => 53,
        40 => 53,
        41 => 54,
        42 => 54,
        43 => 54,
        44 => 54,
        45 => 54,
        46 => 54,
        47 => 53,
        48 => 53,
        49 => 54,
        50 => 54,
        51 => 54,
        52 => 54,
        53 => 54,
        54 => 54,
        55 => 53,
        56 => 52,
        57 => 53,
        58 => 53,
        59 => 53,
        60 => 53,
        61 => 53,
        62 => 53,
        63 => 52,
        _ => 0,
    }
}

/// Magic multiplier of the bishop table of square `i`.
pub open spec fn bishop_magic(i: int) -> u64 {
    match i as u8 {
        0 => 2312617118077686272,
        1 => 9016003946094664,
        2 => 162561698966880800,
        3 => 9224502375610318914,
        4 => 604612786028331012,
        5 => 4792400144862187522,
        6 => 79182086283524,
        7 => 4621258445109725184,
        8 => 4810430546432,
        9 => 4503308076192,
        10 => 17609705669184,
        11 => 1225040810148626432,
        12 => 1152957860439654416,
        13 => 153162554078674945,
        14 => 13907258621416716416,
        15 => 10450797347841,
        16 => 4612811957526103040,
        17 => 146375921597939776,
        18 => 2252075769725088,
        19 => 865852221357686784,
        20 => 5476518176472694913,
        21 => 9223512778642374668,
        22 => 288899980915118144,
        23 => 4990269881434836992,
        24 => 2396935483854848,
        25 => 9224519931826734082,
        26 => 114349276414976,
        27 => 9511743287967482368,
        28 => 1011203252424826880,
        29 => 6053121581826212008,
        30 => 4620838422121284104,
        31 => 3450268066817024,
        32 => 1153238198584872960,
        33 => 2273936109735424,
        34 => 10412340489013429248,
        35 => 1152928103824622208,
        36 => 577587756285558848,
        37 => 5787143119808514561,
        38 => 4688247822045876480,
        39 => 303469512914176,
        40 => 6768615595705348,
        41 => 648597528631051432,
        42 => 1152943530608564224,
        43 => 9295429914369984512,
        44 => 9015999663789056,
        45 => 4617896068693164548,
        46 => 148658956720963968,
        47 => 1126466859303104,
        48 => 1126467111485444,
        49 => 73889964659703840,
        50 => 1157988200435680384,
        51 => 289919365666636292,
        52 => 74457415936,
        53 => 18210682847264,
        54 => 297246436813439008,
        55 => 307410276415045664,
        56 => 13835093394542053381,
        57 => 360439704975860288,
        58 => 369335027831939328,
        59 => 36028797027615744,
        60 => 1729391627455703552,
        61 => 146367401318945344,
        62 => 2307655347990504448,
        63 => 9226191253589266464,
        _ => 0,
    }
}

/// Magic multiplier of the bishop table of square `i`.
pub fn bishop_magic_number(i: usize) -> (r: u64)
    requires
        i < 64,
    ensures
        r == bishop_magic(i as int),
{
    match i {
        0 => 2312617118077686272,
        1 => 9016003946094664,
        2 => 162561698966880800,
        3 => 9224502375610318914,
        4 => 604612786028331012,
        5 => 4792400144862187522,
        6 => 79182086283524,
        7 => 4621258445109725184,
        8 => 4810430546432,
        9 => 4503308076192,
        10 => 17609705669184,
        11 => 1225040810148626432,
        12 => 1152957860439654416,
        13 => 153162554078674945,
        14 => 13907258621416716416,
        15 => 10450797347841,
        16 => 4612811957526103040,
        17 => 146375921597939776,
        18 => 2252075769725088,
        19 => 865852221357686784,
        20 => 5476518176472694913,
        21 => 9223512778642374668,
        22 => 288899980915118144,
        23 => 4990269881434836992,
        24 => 2396935483854848,
        25 => 9224519931826734082,
        26 => 114349276414976,
        27 => 9511743287967482368,
        28 => 1011203252424826880,
        29 => 6053121581826212008,
        30 => 4620838422121284104,
        31 => 3450268066817024,
        32 => 1153238198584872960,
        33 => 2273936109735424,
        34 => 10412340489013429248,
        35 => 1152928103824622208,
        36 => 577587756285558848,
        37 => 5787143119808514561,
        38 => 4688247822045876480,
        39 => 303469512914176,
        40 => 6768615595705348,
        41 => 648597528631051432,
        42 => 1152943530608564224,
        43 => 9295429914369984512,
        44 => 9015999663789056,
        45 => 4617896068693164548,
        46 => 148658956720963968,
        47 => 1126466859303104,
        48 => 1126467111485444,
        49 => 73889964659703840,
        50 => 1157988200435680384,
        51 => 289919365666636292,
        52 => 74457415936,
        53 => 18210682847264,
        54 => 297246436813439008,
        55 => 307410276415045664,
        56 => 13835093394542053381,
        57 => 360439704975860288,
        58 => 369335027831939328,
        59 => 36028797027615744,
        60 => 1729391627455703552,
        61 => 146367401318945344,
        62 => 2307655347990504448,
        63 => 9226191253589266464,
        _ => 0,
    }
}

/// Shift of the bishop table of square `i` (64 minus its index bits).
pub open spec fn bishop_shift(i: int) -> u64 {
    match i as u8 {
        0 => 58,
        1 => 59,
        2 => 59,
        3 => 59,
        4 => 59,
        5 => 59,
        6 => 59,
        7 => 58,
        8 => 59,
        9 => 59,
        10 => 59,
        11 => 59,
        12 => 59,
        13 => 59,
        14 => 59,
        15 => 59,
        16 => 59,
        17 => 59,
        18 => 57,
        19 => 57,
        20 => 57,
        21 => 57,
        22 => 59,
        23 => 59,
        24 => 59,
        25 => 59,
        26 => 57,
        27 => 55,
        28 => 55,
        29 => 57,
        30 => 59,
        31 => 59,
        32 => 59,
        33 => 59,
        34 => 57,
        35 => 55,
        36 => 55,
        37 => 57,
        38 => 59,
        39 => 59,
        40 => 59,
        41 => 59,
        42 => 57,
        43 => 57,
        44 => 57,
        45 => 57,
        46 => 59,
        47 => 59,
        48 => 59,
        49 => 59,
        50 => 59,
        51 => 59,
        52 => 59,
        53 => 59,
        54 => 59,
        55 => 59,
        56 => 58,
        57 => 59,
        58 => 59,
        59 => 59,
        60 => 59,
        61 => 59,
        62 => 59,
        63 => 58,
        _ => 0,
    }
}

/// Shift of the bishop table of square `i` (64 minus its index bits).
pub fn bishop_shift_amount(i: usize) -> (r: u64)
    requires
        i < 64,
    ensures
        r == bishop_shift(i as int),
        55 <= r <= 59,
{
    match i {
        0 => 58,
        1 => 59,
        2 => 59,
        3 => 59,
        4 => 59,
        5 => 59,
        6 => 59,
        7 => 58,
        8 => 59,
        9 => 59,
        10 => 59,
        11 => 59,
        12 => 59,
        13 => 59,
        14 => 59,
        15 => 59,
        16 => 59,
        17 => 59,
        18 => 57,
        19 => 57,
        20 => 57,
        21 => 57,
        22 => 59,
        23 => 59,
        24 => 59,
        25 => 59,
        26 => 57,
        27 => 55,
        28 => 55,
        29 => 57,
        30 => 59,
        31 => 59,
        32 => 59,
        33 => 59,
        34 => 57,
        35 => 55,
        36 => 55,
        37 => 57,
        38 => 59,
        39 => 59,
        40 => 59,
        41 => 59,
        42 => 57,
        43 => 57,
        44 => 57,
        45 => 57,
        46 => 59,
        47 => 59,
        48 => 59,
        49 => 59,
        50 => 59,
        51 => 59,
        52 => 59,
        53 => 59,
        54 => 59,
        55 => 59,
        56 => 58,
        57 => 59,
        58 => 59,
        59 => 59,
        60 => 59,
        61 => 59,
        62 => 59,
        63 => 58,
        _ => 0,
    }
}

} // verus!
