//! Fixed-point cosines and sines of the angle buckets.
//!
//! A full turn is divided into `ANGLES` buckets. The cosine of a bucket is
//! held as an integer: the true value times `TRIG_ONE`, rounded toward zero.
//! One quarter of the wave is tabulated; symmetry gives the rest.
use vstd::prelude::*;

verus! {

/// The number of angle buckets in a full turn.
pub const ANGLES: usize = 900;

/// The number of angle buckets in a quarter turn.
pub const QUARTER_TURN: usize = 225;

/// The fixed-point representation of `1`.
pub const TRIG_ONE: i64 = 1073741824;

/// `cos(i · 2π / ANGLES) · TRIG_ONE`, rounded toward zero, for the buckets of
/// the first quarter turn.
pub const QUARTER_WAVE: [i32; 226] = [
    1073741824, 1073715657, 1073637159, 1073506334, 1073323188, 1073087729,
    1072799969, 1072459923, 1072067607, 1071623039, 1071126242, 1070577240,
    1069976060, 1069322730, 1068617283, 1067859753, 1067050178, 1066188595,
    1065275049, 1064309582, 1063292242, 1062223079, 1061102144, 1059929493,
    1058705183, 1057429273, 1056101825, 1054722904, 1053292577, 1051810915,
    1050277988, 1048693873, 1047058646, 1045372386, 1043635177, 1041847102,
    1040008250, 1038118708, 1036178570, 1034187931, 1032146886, 1030055536,
    1027913983, 1025722330, 1023480686, 1021189158, 1018847859, 1016456903,
    1014016406, 1011526487, 1008987268, 1006398872, 1003761426, 1001075058,
    998339899, 995556083, 992723744, 989843021, 986914055, 983936988,
    980911965, 977839135, 974718645, 971550649, 968335301, 965072758,
    961763179, 958406724, 955003558, 951553847, 948057758, 944515463,
    940927133, 937292943, 933613071, 929887696, 926117000, 922301166,
    918440380, 914534831, 910584709, 906590206, 902551518, 898468840,
    894342372, 890172315, 885958872, 881702249, 877402653, 873060294,
    868675383, 864248134, 859778762, 855267487, 850714526, 846120103,
    841484442, 836807767, 832090308, 827332294, 822533957, 817695531,
    812817251, 807899356, 802942085, 797945680, 792910384, 787836443,
    782724103, 777573615, 772385229, 767159198, 761895776, 756595221,
    751257791, 745883745, 740473346, 735026858, 729544545, 724026675,
    718473517, 712885342, 707262422, 701605031, 695913444, 690187940,
    684428797, 678636296, 672810719, 666952350, 661061475, 655138381,
    649183356, 643196691, 637178677, 631129608, 625049779, 618939486,
    612799027, 606628700, 600428808, 594199651, 587941534, 581654761,
    575339640, 568996477, 562625582, 556227265, 549801839, 543349616,
    536870912, 530366040, 523835320, 517279068, 510697605, 504091252,
    497460329, 490805161, 484126072, 477423388, 470697434, 463948540,
    457177033, 450383244, 443567503, 436730145, 429871500, 422991904,
    416091692, 409171200, 402230766, 395270728, 388291425, 381293197,
    374276385, 367241332, 360188380, 353117873, 346030155, 338925572,
    331804471, 324667198, 317514101, 310345528, 303161830, 295963357,
    288750458, 281523486, 274282794, 267028733, 259761657, 252481921,
    245189879, 237885887, 230570301, 223243478, 215905773, 208557546,
    201199154, 193830956, 186453311, 179066578, 171671118, 164267290,
    156855457, 149435979, 142009217, 134575534, 127135292, 119688854,
    112236582, 104778840, 97315991, 89848400, 82376429, 74900443,
    67420806, 59937884, 52452040, 44963640, 37473049, 29980631,
    22486752, 14991776, 7496071, 0,
];

/// The tabulated cosine of bucket `i` of the first quarter turn.
pub open spec fn quarter(i: int) -> int
    recommends
        0 <= i <= QUARTER_TURN,
{
    QUARTER_WAVE[i] as int
}

/// The fixed-point cosine of bucket `a`.
pub open spec fn cos_fixed(a: int) -> int
    recommends
        0 <= a < ANGLES,
{
    if a <= 225 {
        quarter(a)
    } else if a <= 450 {
        -quarter(450 - a)
    } else if a <= 675 {
        -quarter(a - 450)
    } else {
        quarter(900 - a)
    }
}

/// The fixed-point sine of bucket `a`.
pub open spec fn sin_fixed(a: int) -> int
    recommends
        0 <= a < ANGLES,
{
    if a <= 225 {
        quarter(225 - a)
    } else if a <= 450 {
        quarter(a - 225)
    } else if a <= 675 {
        -quarter(675 - a)
    } else {
        -quarter(a - 675)
    }
}

/// The fixed-point cosine and sine of bucket `a`.
pub fn cos_sin(a: usize) -> (cs: (i64, i64))
    requires
        a < ANGLES,
    ensures
        cs.0 == cos_fixed(a as int),
        cs.1 == sin_fixed(a as int),
{
    if a <= 225 {
        (QUARTER_WAVE[a] as i64, QUARTER_WAVE[225 - a] as i64)
    } else if a <= 450 {
        (-(QUARTER_WAVE[450 - a] as i64), QUARTER_WAVE[a - 225] as i64)
    } else if a <= 675 {
        (-(QUARTER_WAVE[a - 450] as i64), -(QUARTER_WAVE[675 - a] as i64))
    } else {
        (QUARTER_WAVE[900 - a] as i64, -(QUARTER_WAVE[a - 675] as i64))
    }
}

/// A tabulated cosine and the cosine of the complementary bucket span a
/// vector no longer than `TRIG_ONE`.
pub proof fn lemma_quarter_pair(i: int)
    requires
        0 <= i <= QUARTER_TURN,
    ensures
        0 <= quarter(i) <= TRIG_ONE,
        quarter(i) * quarter(i) + quarter(225 - i) * quarter(225 - i) <= TRIG_ONE * TRIG_ONE,
{
    let k = if i <= 112 { i } else { 225 - i };
    assert(0 <= quarter(k) <= TRIG_ONE && 0 <= quarter(225 - k) <= TRIG_ONE && quarter(k) * quarter(k)
        + quarter(225 - k) * quarter(225 - k) <= TRIG_ONE * TRIG_ONE) by {
        lemma_quarter_values(k);
    }
}

proof fn lemma_quarter_values(k: int)
    requires
        0 <= k <= 112,
    ensures
        0 <= quarter(k) <= TRIG_ONE,
        0 <= quarter(225 - k) <= TRIG_ONE,
        quarter(k) * quarter(k) + quarter(225 - k) * quarter(225 - k) <= TRIG_ONE * TRIG_ONE,
{
    if k < 38 {
        lemma_quarter_values_low(k);
    } else if k < 76 {
        lemma_quarter_values_mid(k);
    } else {
        lemma_quarter_values_high(k);
    }
}

proof fn lemma_pair_bound(c: int, s: int, cv: int, sv: int, norm: int)
    requires
        c == cv,
        s == sv,
        0 <= cv <= 1073741824,
        0 <= sv <= 1073741824,
        cv * cv + sv * sv == norm,
        norm <= 1152921504606846976,
    ensures
        0 <= c <= TRIG_ONE,
        0 <= s <= TRIG_ONE,
        c * c + s * s <= TRIG_ONE * TRIG_ONE,
{
    assert(TRIG_ONE * TRIG_ONE == 1152921504606846976) by (nonlinear_arith)
        requires
            TRIG_ONE == 1073741824,
    ;
}

proof fn lemma_quarter_values_low(k: int)
    requires
        0 <= k < 38,
    ensures
        0 <= quarter(k) <= TRIG_ONE,
        0 <= quarter(225 - k) <= TRIG_ONE,
        quarter(k) * quarter(k) + quarter(225 - k) * quarter(225 - k) <= TRIG_ONE * TRIG_ONE,
{
    if k == 0 {
        assert(1073741824int * 1073741824int + 0int * 0int == 1152921504606846976int) by (nonlinear_arith);
        lemma_pair_bound(quarter(0), quarter(225), 1073741824, 0, 1152921504606846976);
    } else if k == 1 {
        assert(1073715657int * 1073715657int + 7496071int * 7496071int == 1152921503167378690int) by (nonlinear_arith);
        lemma_pair_bound(quarter(1), quarter(224), 1073715657, 7496071, 1152921503167378690);
    } else if k == 2 {
        assert(1073637159int * 1073637159int + 14991776int * 14991776int == 1152921502533225457int) by (nonlinear_arith);
        lemma_pair_bound(quarter(2), quarter(223), 1073637159, 14991776, 1152921502533225457);
    } else if k == 3 {
        assert(1073506334int * 1073506334int + 22486752int * 22486752int == 1152921503153629060int) by (nonlinear_arith);
        lemma_pair_bound(quarter(3), quarter(222), 1073506334, 22486752, 1152921503153629060);
    } else if k == 4 {
        assert(1073323188int * 1073323188int + 29980631int * 29980631int == 1152921504133641505int) by (nonlinear_arith);
        lemma_pair_bound(quarter(4), quarter(221), 1073323188, 29980631, 1152921504133641505);
    } else if k == 5 {
        assert(1073087729int * 1073087729int + 37473049int * 37473049int == 1152921503531733842int) by (nonlinear_arith);
        lemma_pair_bound(quarter(5), quarter(220), 1073087729, 37473049, 1152921503531733842);
    } else if k == 6 {
        assert(1072799969int * 1072799969int + 44963640int * 44963640int == 1152921502408450561int) by (nonlinear_arith);
        lemma_pair_bound(quarter(6), quarter(219), 1072799969, 44963640, 1152921502408450561);
    } else if k == 7 {
        assert(1072459923int * 1072459923int + 52452040int * 52452040int == 1152921502941327529int) by (nonlinear_arith);
        lemma_pair_bound(quarter(7), quarter(218), 1072459923, 52452040, 1152921502941327529);
    } else if k == 8 {
        assert(1072067607int * 1072067607int + 59937884int * 59937884int == 1152921503917103905int) by (nonlinear_arith);
        lemma_pair_bound(quarter(8), quarter(217), 1072067607, 59937884, 1152921503917103905);
    } else if k == 9 {
        assert(1071623039int * 1071623039int + 67420806int * 67420806int == 1152921502797285157int) by (nonlinear_arith);
        lemma_pair_bound(quarter(9), quarter(216), 1071623039, 67420806, 1152921502797285157);
    } else if k == 10 {
        assert(1071126242int * 1071126242int + 74900443int * 74900443int == 1152921502662638813int) by (nonlinear_arith);
        lemma_pair_bound(quarter(10), quarter(215), 1071126242, 74900443, 1152921502662638813);
    } else if k == 11 {
        assert(1070577240int * 1070577240int + 82376429int * 82376429int == 1152921502860809641int) by (nonlinear_arith);
        lemma_pair_bound(quarter(11), quarter(214), 1070577240, 82376429, 1152921502860809641);
    } else if k == 12 {
        assert(1069976060int * 1069976060int + 89848400int * 89848400int == 1152921503955683600int) by (nonlinear_arith);
        lemma_pair_bound(quarter(12), quarter(213), 1069976060, 89848400, 1152921503955683600);
    } else if k == 13 {
        assert(1069322730int * 1069322730int + 97315991int * 97315991int == 1152921502998964981int) by (nonlinear_arith);
        lemma_pair_bound(quarter(13), quarter(212), 1069322730, 97315991, 1152921502998964981);
    } else if k == 14 {
        assert(1068617283int * 1068617283int + 104778840int * 104778840int == 1152921502838047689int) by (nonlinear_arith);
        lemma_pair_bound(quarter(14), quarter(211), 1068617283, 104778840, 1152921502838047689);
    } else if k == 15 {
        assert(1067859753int * 1067859753int + 112236582int * 112236582int == 1152921502416263733int) by (nonlinear_arith);
        lemma_pair_bound(quarter(15), quarter(210), 1067859753, 112236582, 1152921502416263733);
    } else if k == 16 {
        assert(1067050178int * 1067050178int + 119688854int * 119688854int == 1152921504141665000int) by (nonlinear_arith);
        lemma_pair_bound(quarter(16), quarter(209), 1067050178, 119688854, 1152921504141665000);
    } else if k == 17 {
        assert(1066188595int * 1066188595int + 127135292int * 127135292int == 1152921502579999289int) by (nonlinear_arith);
        lemma_pair_bound(quarter(17), quarter(208), 1066188595, 127135292, 1152921502579999289);
    } else if k == 18 {
        assert(1065275049int * 1065275049int + 134575534int * 134575534int == 1152921504373337557int) by (nonlinear_arith);
        lemma_pair_bound(quarter(18), quarter(207), 1065275049, 134575534, 1152921504373337557);
    } else if k == 19 {
        assert(1064309582int * 1064309582int + 142009217int * 142009217int == 1152921504049967813int) by (nonlinear_arith);
        lemma_pair_bound(quarter(19), quarter(206), 1064309582, 142009217, 1152921504049967813);
    } else if k == 20 {
        assert(1063292242int * 1063292242int + 149435979int * 149435979int == 1152921503717075005int) by (nonlinear_arith);
        lemma_pair_bound(quarter(20), quarter(205), 1063292242, 149435979, 1152921503717075005);
    } else if k == 21 {
        assert(1062223079int * 1062223079int + 156855457int * 156855457int == 1152921503950919090int) by (nonlinear_arith);
        lemma_pair_bound(quarter(21), quarter(204), 1062223079, 156855457, 1152921503950919090);
    } else if k == 22 {
        assert(1061102144int * 1061102144int + 164267290int * 164267290int == 1152921502565340836int) by (nonlinear_arith);
        lemma_pair_bound(quarter(22), quarter(203), 1061102144, 164267290, 1152921502565340836);
    } else if k == 23 {
        assert(1059929493int * 1059929493int + 171671118int * 171671118int == 1152921502886606973int) by (nonlinear_arith);
        lemma_pair_bound(quarter(23), quarter(202), 1059929493, 171671118, 1152921502886606973);
    } else if k == 24 {
        assert(1058705183int * 1058705183int + 179066578int * 179066578int == 1152921503867693573int) by (nonlinear_arith);
        lemma_pair_bound(quarter(24), quarter(201), 1058705183, 179066578, 1152921503867693573);
    } else if k == 25 {
        assert(1057429273int * 1057429273int + 186453311int * 186453311int == 1152921504580171250int) by (nonlinear_arith);
        lemma_pair_bound(quarter(25), quarter(200), 1057429273, 186453311, 1152921504580171250);
    } else if k == 26 {
        assert(1056101825int * 1056101825int + 193830956int * 193830956int == 1152921504272204561int) by (nonlinear_arith);
        lemma_pair_bound(quarter(26), quarter(199), 1056101825, 193830956, 1152921504272204561);
    } else if k == 27 {
        assert(1054722904int * 1054722904int + 201199154int * 201199154int == 1152921503792508932int) by (nonlinear_arith);
        lemma_pair_bound(quarter(27), quarter(198), 1054722904, 201199154, 1152921503792508932);
    } else if k == 28 {
        assert(1053292577int * 1053292577int + 208557546int * 208557546int == 1152921502756843045int) by (nonlinear_arith);
        lemma_pair_bound(quarter(28), quarter(197), 1053292577, 208557546, 1152921502756843045);
    } else if k == 29 {
        assert(1051810915int * 1051810915int + 215905773int * 215905773int == 1152921503727864754int) by (nonlinear_arith);
        lemma_pair_bound(quarter(29), quarter(196), 1051810915, 215905773, 1152921503727864754);
    } else if k == 30 {
        assert(1050277988int * 1050277988int + 223243478int * 223243478int == 1152921502546864628int) by (nonlinear_arith);
        lemma_pair_bound(quarter(30), quarter(195), 1050277988, 223243478, 1152921502546864628);
    } else if k == 31 {
        assert(1048693873int * 1048693873int + 230570301int * 230570301int == 1152921502970970730int) by (nonlinear_arith);
        lemma_pair_bound(quarter(31), quarter(194), 1048693873, 230570301, 1152921502970970730);
    } else if k == 32 {
        assert(1047058646int * 1047058646int + 237885887int * 237885887int == 1152921503397130085int) by (nonlinear_arith);
        lemma_pair_bound(quarter(32), quarter(193), 1047058646, 237885887, 1152921503397130085);
    } else if k == 33 {
        assert(1045372386int * 1045372386int + 245189879int * 245189879int == 1152921502175367637int) by (nonlinear_arith);
        lemma_pair_bound(quarter(33), quarter(192), 1045372386, 245189879, 1152921502175367637);
    } else if k == 34 {
        assert(1043635177int * 1043635177int + 252481921int * 252481921int == 1152921503103671570int) by (nonlinear_arith);
        lemma_pair_bound(quarter(34), quarter(191), 1043635177, 252481921, 1152921503103671570);
    } else if k == 35 {
        assert(1041847102int * 1041847102int + 259761657int * 259761657int == 1152921502393184053int) by (nonlinear_arith);
        lemma_pair_bound(quarter(35), quarter(190), 1041847102, 259761657, 1152921502393184053);
    } else if k == 36 {
        assert(1040008250int * 1040008250int + 267028733int * 267028733int == 1152921504315647789int) by (nonlinear_arith);
        lemma_pair_bound(quarter(36), quarter(189), 1040008250, 267028733, 1152921504315647789);
    } else if k == 37 {
        assert(1038118708int * 1038118708int + 274282794int * 274282794int == 1152921502984035700int) by (nonlinear_arith);
        lemma_pair_bound(quarter(37), quarter(188), 1038118708, 274282794, 1152921502984035700);
    }
}

proof fn lemma_quarter_values_mid(k: int)
    requires
        38 <= k < 76,
    ensures
        0 <= quarter(k) <= TRIG_ONE,
        0 <= quarter(225 - k) <= TRIG_ONE,
        quarter(k) * quarter(k) + quarter(225 - k) * quarter(225 - k) <= TRIG_ONE * TRIG_ONE,
{
    if k == 38 {
        assert(1036178570int * 1036178570int + 281523486int * 281523486int == 1152921502096837096int) by (nonlinear_arith);
        lemma_pair_bound(quarter(38), quarter(187), 1036178570, 281523486, 1152921502096837096);
    } else if k == 39 {
        assert(1034187931int * 1034187931int + 288750458int * 288750458int == 1152921503621270525int) by (nonlinear_arith);
        lemma_pair_bound(quarter(39), quarter(186), 1034187931, 288750458, 1152921503621270525);
    } else if k == 40 {
        assert(1032146886int * 1032146886int + 295963357int * 295963357int == 1152921502966206445int) by (nonlinear_arith);
        lemma_pair_bound(quarter(40), quarter(185), 1032146886, 295963357, 1152921502966206445);
    } else if k == 41 {
        assert(1030055536int * 1030055536int + 303161830int * 303161830int == 1152921502413196196int) by (nonlinear_arith);
        lemma_pair_bound(quarter(41), quarter(184), 1030055536, 303161830, 1152921502413196196);
    } else if k == 42 {
        assert(1027913983int * 1027913983int + 310345528int * 310345528int == 1152921503196523073int) by (nonlinear_arith);
        lemma_pair_bound(quarter(42), quarter(183), 1027913983, 310345528, 1152921503196523073);
    } else if k == 43 {
        assert(1025722330int * 1025722330int + 317514101int * 317514101int == 1152921502594467101int) by (nonlinear_arith);
        lemma_pair_bound(quarter(43), quarter(182), 1025722330, 317514101, 1152921502594467101);
    } else if k == 44 {
        assert(1023480686int * 1023480686int + 324667198int * 324667198int == 1152921504072201800int) by (nonlinear_arith);
        lemma_pair_bound(quarter(44), quarter(181), 1023480686, 324667198, 1152921504072201800);
    } else if k == 45 {
        assert(1021189158int * 1021189158int + 331804471int * 331804471int == 1152921503392338805int) by (nonlinear_arith);
        lemma_pair_bound(quarter(45), quarter(180), 1021189158, 331804471, 1152921503392338805);
    } else if k == 46 {
        assert(1018847859int * 1018847859int + 338925572int * 338925572int == 1152921503144411065int) by (nonlinear_arith);
        lemma_pair_bound(quarter(46), quarter(179), 1018847859, 338925572, 1152921503144411065);
    } else if k == 47 {
        assert(1016456903int * 1016456903int + 346030155int * 346030155int == 1152921503825675434int) by (nonlinear_arith);
        lemma_pair_bound(quarter(47), quarter(178), 1016456903, 346030155, 1152921503825675434);
    } else if k == 48 {
        assert(1014016406int * 1014016406int + 353117873int * 353117873int == 1152921503869200965int) by (nonlinear_arith);
        lemma_pair_bound(quarter(48), quarter(177), 1014016406, 353117873, 1152921503869200965);
    } else if k == 49 {
        assert(1011526487int * 1011526487int + 360188380int * 360188380int == 1152921502989585569int) by (nonlinear_arith);
        lemma_pair_bound(quarter(49), quarter(176), 1011526487, 360188380, 1152921502989585569);
    } else if k == 50 {
        assert(1008987268int * 1008987268int + 367241332int * 367241332int == 1152921502915238048int) by (nonlinear_arith);
        lemma_pair_bound(quarter(50), quarter(175), 1008987268, 367241332, 1152921502915238048);
    } else if k == 51 {
        assert(1006398872int * 1006398872int + 374276385int * 374276385int == 1152921501931540609int) by (nonlinear_arith);
        lemma_pair_bound(quarter(51), quarter(174), 1006398872, 374276385, 1152921501931540609);
    } else if k == 52 {
        assert(1003761426int * 1003761426int + 381293197int * 381293197int == 1152921502404034285int) by (nonlinear_arith);
        lemma_pair_bound(quarter(52), quarter(173), 1003761426, 381293197, 1152921502404034285);
    } else if k == 53 {
        assert(1001075058int * 1001075058int + 388291425int * 388291425int == 1152921502478233989int) by (nonlinear_arith);
        lemma_pair_bound(quarter(53), quarter(172), 1001075058, 388291425, 1152921502478233989);
    } else if k == 54 {
        assert(998339899int * 998339899int + 395270728int * 395270728int == 1152921502348980185int) by (nonlinear_arith);
        lemma_pair_bound(quarter(54), quarter(171), 998339899, 395270728, 1152921502348980185);
    } else if k == 55 {
        assert(995556083int * 995556083int + 402230766int * 402230766int == 1152921503515249645int) by (nonlinear_arith);
        lemma_pair_bound(quarter(55), quarter(170), 995556083, 402230766, 1152921503515249645);
    } else if k == 56 {
        assert(992723744int * 992723744int + 409171200int * 409171200int == 1152921502810817536int) by (nonlinear_arith);
        lemma_pair_bound(quarter(56), quarter(169), 992723744, 409171200, 1152921502810817536);
    } else if k == 57 {
        assert(989843021int * 989843021int + 416091692int * 416091692int == 1152921502373829305int) by (nonlinear_arith);
        lemma_pair_bound(quarter(57), quarter(168), 989843021, 416091692, 1152921502373829305);
    } else if k == 58 {
        assert(986914055int * 986914055int + 422991904int * 422991904int == 1152921502806088241int) by (nonlinear_arith);
        lemma_pair_bound(quarter(58), quarter(167), 986914055, 422991904, 1152921502806088241);
    } else if k == 59 {
        assert(983936988int * 983936988int + 429871500int * 429871500int == 1152921502866762144int) by (nonlinear_arith);
        lemma_pair_bound(quarter(59), quarter(166), 983936988, 429871500, 1152921502866762144);
    } else if k == 60 {
        assert(980911965int * 980911965int + 436730145int * 436730145int == 1152921502631882250int) by (nonlinear_arith);
        lemma_pair_bound(quarter(60), quarter(165), 980911965, 436730145, 1152921502631882250);
    } else if k == 61 {
        assert(977839135int * 977839135int + 443567503int * 443567503int == 1152921503655203234int) by (nonlinear_arith);
        lemma_pair_bound(quarter(61), quarter(164), 977839135, 443567503, 1152921503655203234);
    } else if k == 62 {
        assert(974718645int * 974718645int + 450383244int * 450383244int == 1152921503386599561int) by (nonlinear_arith);
        lemma_pair_bound(quarter(62), quarter(163), 974718645, 450383244, 1152921503386599561);
    } else if k == 63 {
        assert(971550649int * 971550649int + 457177033int * 457177033int == 1152921503075004290int) by (nonlinear_arith);
        lemma_pair_bound(quarter(63), quarter(162), 971550649, 457177033, 1152921503075004290);
    } else if k == 64 {
        assert(968335301int * 968335301int + 463948540int * 463948540int == 1152921502930892201int) by (nonlinear_arith);
        lemma_pair_bound(quarter(64), quarter(161), 968335301, 463948540, 1152921502930892201);
    } else if k == 65 {
        assert(965072758int * 965072758int + 470697434int * 470697434int == 1152921502607910920int) by (nonlinear_arith);
        lemma_pair_bound(quarter(65), quarter(160), 965072758, 470697434, 1152921502607910920);
    } else if k == 66 {
        assert(961763179int * 961763179int + 477423388int * 477423388int == 1152921503889584585int) by (nonlinear_arith);
        lemma_pair_bound(quarter(66), quarter(159), 961763179, 477423388, 1152921503889584585);
    } else if k == 67 {
        assert(958406724int * 958406724int + 484126072int * 484126072int == 1152921502198561360int) by (nonlinear_arith);
        lemma_pair_bound(quarter(67), quarter(158), 958406724, 484126072, 1152921502198561360);
    } else if k == 68 {
        assert(955003558int * 955003558int + 490805161int * 490805161int == 1152921501856895285int) by (nonlinear_arith);
        lemma_pair_bound(quarter(68), quarter(157), 955003558, 490805161, 1152921501856895285);
    } else if k == 69 {
        assert(951553847int * 951553847int + 497460329int * 497460329int == 1152921502669287650int) by (nonlinear_arith);
        lemma_pair_bound(quarter(69), quarter(156), 951553847, 497460329, 1152921502669287650);
    } else if k == 70 {
        assert(948057758int * 948057758int + 504091252int * 504091252int == 1152921502846914068int) by (nonlinear_arith);
        lemma_pair_bound(quarter(70), quarter(155), 948057758, 504091252, 1152921502846914068);
    } else if k == 71 {
        assert(944515463int * 944515463int + 510697605int * 510697605int == 1152921503598840394int) by (nonlinear_arith);
        lemma_pair_bound(quarter(71), quarter(154), 944515463, 510697605, 1152921503598840394);
    } else if k == 72 {
        assert(940927133int * 940927133int + 517279068int * 517279068int == 1152921503806548313int) by (nonlinear_arith);
        lemma_pair_bound(quarter(72), quarter(153), 940927133, 517279068, 1152921503806548313);
    } else if k == 73 {
        assert(937292943int * 937292943int + 523835320int * 523835320int == 1152921503477103649int) by (nonlinear_arith);
        lemma_pair_bound(quarter(73), quarter(152), 937292943, 523835320, 1152921503477103649);
    } else if k == 74 {
        assert(933613071int * 933613071int + 530366040int * 530366040int == 1152921502727332641int) by (nonlinear_arith);
        lemma_pair_bound(quarter(74), quarter(151), 933613071, 530366040, 1152921502727332641);
    } else if k == 75 {
        assert(929887696int * 929887696int + 536870912int * 536870912int == 1152921503323900160int) by (nonlinear_arith);
        lemma_pair_bound(quarter(75), quarter(150), 929887696, 536870912, 1152921503323900160);
    }
}

proof fn lemma_quarter_values_high(k: int)
    requires
        76 <= k < 113,
    ensures
        0 <= quarter(k) <= TRIG_ONE,
        0 <= quarter(225 - k) <= TRIG_ONE,
        quarter(k) * quarter(k) + quarter(225 - k) * quarter(225 - k) <= TRIG_ONE * TRIG_ONE,
{
    if k == 76 {
        assert(926117000int * 926117000int + 543349616int * 543349616int == 1152921502896347456int) by (nonlinear_arith);
        lemma_pair_bound(quarter(76), quarter(149), 926117000, 543349616, 1152921502896347456);
    } else if k == 77 {
        assert(922301166int * 922301166int + 549801839int * 549801839int == 1152921502972741477int) by (nonlinear_arith);
        lemma_pair_bound(quarter(77), quarter(148), 922301166, 549801839, 1152921502972741477);
    } else if k == 78 {
        assert(918440380int * 918440380int + 556227265int * 556227265int == 1152921501943924625int) by (nonlinear_arith);
        lemma_pair_bound(quarter(78), quarter(147), 918440380, 556227265, 1152921501943924625);
    } else if k == 79 {
        assert(914534831int * 914534831int + 562625582int * 562625582int == 1152921502633037285int) by (nonlinear_arith);
        lemma_pair_bound(quarter(79), quarter(146), 914534831, 562625582, 1152921502633037285);
    } else if k == 80 {
        assert(910584709int * 910584709int + 568996477int * 568996477int == 1152921503103026210int) by (nonlinear_arith);
        lemma_pair_bound(quarter(80), quarter(145), 910584709, 568996477, 1152921503103026210);
    } else if k == 81 {
        assert(906590206int * 906590206int + 575339640int * 575339640int == 1152921502970452036int) by (nonlinear_arith);
        lemma_pair_bound(quarter(81), quarter(144), 906590206, 575339640, 1152921502970452036);
    } else if k == 82 {
        assert(902551518int * 902551518int + 581654761int * 581654761int == 1152921503638071445int) by (nonlinear_arith);
        lemma_pair_bound(quarter(82), quarter(143), 902551518, 581654761, 1152921503638071445);
    } else if k == 83 {
        assert(898468840int * 898468840int + 587941534int * 587941534int == 1152921503853218756int) by (nonlinear_arith);
        lemma_pair_bound(quarter(83), quarter(142), 898468840, 587941534, 1152921503853218756);
    } else if k == 84 {
        assert(894342372int * 894342372int + 594199651int * 594199651int == 1152921503603108185int) by (nonlinear_arith);
        lemma_pair_bound(quarter(84), quarter(141), 894342372, 594199651, 1152921503603108185);
    } else if k == 85 {
        assert(890172315int * 890172315int + 600428808int * 600428808int == 1152921503868760089int) by (nonlinear_arith);
        lemma_pair_bound(quarter(85), quarter(140), 890172315, 600428808, 1152921503868760089);
    } else if k == 86 {
        assert(885958872int * 885958872int + 606628700int * 606628700int == 1152921502539202384int) by (nonlinear_arith);
        lemma_pair_bound(quarter(86), quarter(139), 885958872, 606628700, 1152921502539202384);
    } else if k == 87 {
        assert(881702249int * 881702249int + 612799027int * 612799027int == 1152921503383804730int) by (nonlinear_arith);
        lemma_pair_bound(quarter(87), quarter(138), 881702249, 612799027, 1152921503383804730);
    } else if k == 88 {
        assert(877402653int * 877402653int + 618939486int * 618939486int == 1152921502821382605int) by (nonlinear_arith);
        lemma_pair_bound(quarter(88), quarter(137), 877402653, 618939486, 1152921502821382605);
    } else if k == 89 {
        assert(873060294int * 873060294int + 625049779int * 625049779int == 1152921503187315277int) by (nonlinear_arith);
        lemma_pair_bound(quarter(89), quarter(136), 873060294, 625049779, 1152921503187315277);
    } else if k == 90 {
        assert(868675383int * 868675383int + 631129608int * 631129608int == 1152921503124430353int) by (nonlinear_arith);
        lemma_pair_bound(quarter(90), quarter(135), 868675383, 631129608, 1152921503124430353);
    } else if k == 91 {
        assert(864248134int * 864248134int + 637178677int * 637178677int == 1152921503545952285int) by (nonlinear_arith);
        lemma_pair_bound(quarter(91), quarter(134), 864248134, 637178677, 1152921503545952285);
    } else if k == 92 {
        assert(859778762int * 859778762int + 643196691int * 643196691int == 1152921502899602125int) by (nonlinear_arith);
        lemma_pair_bound(quarter(92), quarter(133), 859778762, 643196691, 1152921502899602125);
    } else if k == 93 {
        assert(855267487int * 855267487int + 649183356int * 649183356int == 1152921504026717905int) by (nonlinear_arith);
        lemma_pair_bound(quarter(93), quarter(132), 855267487, 649183356, 1152921504026717905);
    } else if k == 94 {
        assert(850714526int * 850714526int + 655138381int * 655138381int == 1152921503006705837int) by (nonlinear_arith);
        lemma_pair_bound(quarter(94), quarter(131), 850714526, 655138381, 1152921503006705837);
    } else if k == 95 {
        assert(846120103int * 846120103int + 661061475int * 661061475int == 1152921502429906234int) by (nonlinear_arith);
        lemma_pair_bound(quarter(95), quarter(130), 846120103, 661061475, 1152921502429906234);
    } else if k == 96 {
        assert(841484442int * 841484442int + 666952350int * 666952350int == 1152921503298573864int) by (nonlinear_arith);
        lemma_pair_bound(quarter(96), quarter(129), 841484442, 666952350, 1152921503298573864);
    } else if k == 97 {
        assert(836807767int * 836807767int + 672810719int * 672810719int == 1152921502512823250int) by (nonlinear_arith);
        lemma_pair_bound(quarter(97), quarter(128), 836807767, 672810719, 1152921502512823250);
    } else if k == 98 {
        assert(832090308int * 832090308int + 678636296int * 678636296int == 1152921502916134480int) by (nonlinear_arith);
        lemma_pair_bound(quarter(98), quarter(127), 832090308, 678636296, 1152921502916134480);
    } else if k == 99 {
        assert(827332294int * 827332294int + 684428797int * 684428797int == 1152921502858169645int) by (nonlinear_arith);
        lemma_pair_bound(quarter(99), quarter(126), 827332294, 684428797, 1152921502858169645);
    } else if k == 100 {
        assert(822533957int * 822533957int + 690187940int * 690187940int == 1152921502939521449int) by (nonlinear_arith);
        lemma_pair_bound(quarter(100), quarter(125), 822533957, 690187940, 1152921502939521449);
    } else if k == 101 {
        assert(817695531int * 817695531int + 695913444int * 695913444int == 1152921502957313097int) by (nonlinear_arith);
        lemma_pair_bound(quarter(101), quarter(124), 817695531, 695913444, 1152921502957313097);
    } else if k == 102 {
        assert(812817251int * 812817251int + 701605031int * 701605031int == 1152921503047707962int) by (nonlinear_arith);
        lemma_pair_bound(quarter(102), quarter(123), 812817251, 701605031, 1152921503047707962);
    } else if k == 103 {
        assert(807899356int * 807899356int + 707262422int * 707262422int == 1152921502998520820int) by (nonlinear_arith);
        lemma_pair_bound(quarter(103), quarter(122), 807899356, 707262422, 1152921502998520820);
    } else if k == 104 {
        assert(802942085int * 802942085int + 712885342int * 712885342int == 1152921502702604189int) by (nonlinear_arith);
        lemma_pair_bound(quarter(104), quarter(121), 802942085, 712885342, 1152921502702604189);
    } else if k == 105 {
        assert(797945680int * 797945680int + 718473517int * 718473517int == 1152921502861011689int) by (nonlinear_arith);
        lemma_pair_bound(quarter(105), quarter(120), 797945680, 718473517, 1152921502861011689);
    } else if k == 106 {
        assert(792910384int * 792910384int + 724026675int * 724026675int == 1152921503166583081int) by (nonlinear_arith);
        lemma_pair_bound(quarter(106), quarter(119), 792910384, 724026675, 1152921503166583081);
    } else if k == 107 {
        assert(787836443int * 787836443int + 729544545int * 729544545int == 1152921504058149274int) by (nonlinear_arith);
        lemma_pair_bound(quarter(107), quarter(118), 787836443, 729544545, 1152921504058149274);
    } else if k == 108 {
        assert(782724103int * 782724103int + 735026858int * 735026858int == 1152921503398506773int) by (nonlinear_arith);
        lemma_pair_bound(quarter(108), quarter(117), 782724103, 735026858, 1152921503398506773);
    } else if k == 109 {
        assert(777573615int * 777573615int + 740473346int * 740473346int == 1152921502880603941int) by (nonlinear_arith);
        lemma_pair_bound(quarter(109), quarter(116), 777573615, 740473346, 1152921502880603941);
    } else if k == 110 {
        assert(772385229int * 772385229int + 745883745int * 745883745int == 1152921503032607466int) by (nonlinear_arith);
        lemma_pair_bound(quarter(110), quarter(115), 772385229, 745883745, 1152921503032607466);
    } else if k == 111 {
        assert(767159198int * 767159198int + 751257791int * 751257791int == 1152921503614202885int) by (nonlinear_arith);
        lemma_pair_bound(quarter(111), quarter(114), 767159198, 751257791, 1152921503614202885);
    } else if k == 112 {
        assert(761895776int * 761895776int + 756595221int * 756595221int == 1152921501926681017int) by (nonlinear_arith);
        lemma_pair_bound(quarter(112), quarter(113), 761895776, 756595221, 1152921501926681017);
    }
}

/// The fixed-point direction of every bucket is no longer than `TRIG_ONE`.
pub proof fn lemma_unit_bound(a: int)
    requires
        0 <= a < ANGLES,
    ensures
        -TRIG_ONE <= cos_fixed(a) <= TRIG_ONE,
        -TRIG_ONE <= sin_fixed(a) <= TRIG_ONE,
        cos_fixed(a) * cos_fixed(a) + sin_fixed(a) * sin_fixed(a) <= TRIG_ONE * TRIG_ONE,
{
    let i = if a <= 225 {
        a
    } else if a <= 450 {
        450 - a
    } else if a <= 675 {
        a - 450
    } else {
        900 - a
    };
    lemma_quarter_pair(i);
    lemma_quarter_pair(225 - i);
    let c = quarter(i);
    let s = quarter(225 - i);
    assert((-c) * (-c) == c * c) by (nonlinear_arith);
    assert((-s) * (-s) == s * s) by (nonlinear_arith);
}

} // verus!
