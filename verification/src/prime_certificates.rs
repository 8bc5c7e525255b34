//! The tables of `prime` list primes: each entry comes with a squaring chain
//! that meets Proth's criterion.
use vstd::prelude::*;
use vstd::arithmetic::power2::{pow2, lemma2_to64};
use crate::fermat::is_prime;
use crate::prime::{
    has_odd_cofactor, lemma_prime_tables_form, PRIME_22, PRIME_23, PRIME_24, PRIME_25, PRIME_26,
    PRIME_27, PRIME_28, PRIME_30,
};
use crate::proth::{is_squaring_chain, lemma_certified_prime};

verus! {

/// A prime `p = a·2^k + 1`, `a` odd, below `2^32` with `k >= 16` is certified by
/// a chain of `k` entries that starts below `p` and squares up to `p - 1`.
proof fn lemma_certified_entry(p: u32, k: nat, c: Seq<int>)
    requires
        16 <= k <= 31,
        has_odd_cofactor(p as int, k),
        c.len() == k,
        0 <= c[0] < p,
        is_squaring_chain(c, p as int, (k - 1) as nat),
        c[k - 1] == p - 1,
    ensures
        is_prime(p as nat),
{
    lemma2_to64();
    vstd::arithmetic::power2::lemma_pow2_pos(k);
    let n = pow2(k) as int;
    let a = (p as int) / n;
    vstd::arithmetic::div_mod::lemma_fundamental_div_mod(p as int, n);
    crate::roots::lemma_pow2_le(16, k);
    assert(a < n) by (nonlinear_arith)
        requires
            p == n * a + 1,
            p < 0x1_0000_0000,
            n >= 0x10000,
    ;
    assert(a != 0);
    assert(p > 1) by (nonlinear_arith)
        requires
            p == n * a + 1,
            a != 0,
            a >= 0,
            n > 0,
    ;
    lemma_certified_prime(p as nat, k, c);
}

/// The first `n` entries of `t` are prime.
spec fn first_prime(t: Seq<u32>, n: nat) -> bool
    decreases n,
{
    n == 0 || (is_prime(t[n - 1] as nat) && first_prime(t, (n - 1) as nat))
}

/// The first `n` entries are prime, one by one.
proof fn lemma_first_prime(t: Seq<u32>, n: nat)
    requires
        first_prime(t, n),
    ensures
        forall|i: int| 0 <= i < n ==> is_prime(#[trigger] t[i] as nat),
    decreases n,
{
    if n > 0 {
        lemma_first_prime(t, (n - 1) as nat);
    }
}

/// Every entry of `PRIME_22` is prime.
proof fn lemma_table_22()
    ensures
        forall|i: int| 0 <= i < 52 ==> is_prime(#[trigger] PRIME_22@[i] as nat),
{
    lemma_prime_tables_form();
    assert(is_prime(PRIME_22@[0] as nat)) by {
        let c: Seq<int> = seq![
            39193363, 98507391, 79427530, 18702539, 35912312, 81980263, 100680575, 80259084,
            65430330, 62844082, 43120115, 4354736, 18773644, 33690314, 73653238, 78472926,
            98667812, 93323136, 34399420, 76756981, 104847361, 104857600,
        ];
        assert(c.len() == 22 && c[0] == 39193363 && c[21] == 104857600);
        assert(is_squaring_chain(c, 104857601, 21)) by {
            reveal_with_fuel(is_squaring_chain, 22);
        }
        lemma_certified_entry(PRIME_22@[0], 22, c);
    }
    assert(is_prime(PRIME_22@[1] as nat)) by {
        let c: Seq<int> = seq![
            58671006, 25384253, 16301655, 61960998, 106028972, 10114947, 91784177, 54620334,
            107133756, 5650138, 66348153, 101031540, 108793167, 58611655, 86899845, 35560732,
            55637980, 35204027, 39280149, 109676743, 96289193, 113246208,
        ];
        assert(c.len() == 22 && c[0] == 58671006 && c[21] == 113246208);
        assert(is_squaring_chain(c, 113246209, 21)) by {
            reveal_with_fuel(is_squaring_chain, 22);
        }
        lemma_certified_entry(PRIME_22@[1], 22, c);
    }
    assert(is_prime(PRIME_22@[2] as nat)) by {
        let c: Seq<int> = seq![
            99040867, 35961619, 20853192, 27147213, 41083760, 110476790, 101688508, 60126224,
            99612225, 49879565, 39738727, 9037919, 118575611, 97044298, 79031036, 68753611,
            63148648, 32713814, 91992576, 123670637, 64862387, 138412032,
        ];
        assert(c.len() == 22 && c[0] == 99040867 && c[21] == 138412032);
        assert(is_squaring_chain(c, 138412033, 21)) by {
            reveal_with_fuel(is_squaring_chain, 22);
        }
        lemma_certified_entry(PRIME_22@[2], 22, c);
    }
    assert(is_prime(PRIME_22@[3] as nat)) by {
        let c: Seq<int> = seq![
            12827183, 15869721, 103013685, 21964836, 131323206, 11658129, 20912923, 41792603,
            33709144, 155165804, 84100278, 121488221, 96312577, 95693335, 58666732, 141508812,
            1948194, 151588092, 97335213, 38421088, 2391872, 155189248,
        ];
        assert(c.len() == 22 && c[0] == 12827183 && c[21] == 155189248);
        assert(is_squaring_chain(c, 155189249, 21)) by {
            reveal_with_fuel(is_squaring_chain, 22);
        }
        lemma_certified_entry(PRIME_22@[3], 22, c);
    }
    assert(is_prime(PRIME_22@[4] as nat)) by {
        let c: Seq<int> = seq![
            133129875, 140390540, 43402321, 12020040, 74361351, 107838651, 147253029, 109650183,
            64963655, 148774711, 144813691, 113064478, 30745312, 141039307, 108524710, 106314106,
            4274478, 6279155, 125907744, 158269197, 23480212, 163577856,
        ];
        assert(c.len() == 22 && c[0] == 133129875 && c[21] == 163577856);
        assert(is_squaring_chain(c, 163577857, 21)) by {
            reveal_with_fuel(is_squaring_chain, 22);
        }
        lemma_certified_entry(PRIME_22@[4], 22, c);
    }
    assert(is_prime(PRIME_22@[5] as nat)) by {
        let c: Seq<int> = seq![
            230220481, 72846418, 13027550, 146302637, 177636408, 159554633, 58271335, 46146599,
            30286510, 230556151, 208394267, 96928681, 111014880, 2347743, 99369196, 218740672,
            205991939, 146041253, 215877014, 175941331, 69125805, 230686720,
        ];
        assert(c.len() == 22 && c[0] == 230220481 && c[21] == 230686720);
        assert(is_squaring_chain(c, 230686721, 21)) by {
            reveal_with_fuel(is_squaring_chain, 22);
        }
        lemma_certified_entry(PRIME_22@[5], 22, c);
    }
    assert(is_prime(PRIME_22@[6] as nat)) by {
        let c: Seq<int> = seq![
            73362476, 110584060, 54826948, 48912327, 156037766, 219342659, 401475351, 89342091,
            58882644, 411353831, 164681947, 372093967, 311118719, 382252767, 169373265, 22775706,
            335329477, 311407571, 354365997, 355799023, 168292220, 415236096,
        ];
        assert(c.len() == 22 && c[0] == 73362476 && c[21] == 415236096);
        assert(is_squaring_chain(c, 415236097, 21)) by {
            reveal_with_fuel(is_squaring_chain, 22);
        }
        lemma_certified_entry(PRIME_22@[6], 22, c);
    }
    assert(is_prime(PRIME_22@[7] as nat)) by {
        let c: Seq<int> = seq![
            147340140, 270155554, 87284159, 199298036, 619320156, 31381846, 51667054, 470129433,
            87046561, 376158546, 151922576, 348985868, 586928192, 639508488, 22320960, 500246966,
            98176715, 167398320, 404713598, 592369788, 361019335, 666894336,
        ];
        assert(c.len() == 22 && c[0] == 147340140 && c[21] == 666894336);
        assert(is_squaring_chain(c, 666894337, 21)) by {
            reveal_with_fuel(is_squaring_chain, 22);
        }
        lemma_certified_entry(PRIME_22@[7], 22, c);
    }
    assert(is_prime(PRIME_22@[8] as nat)) by {
        let c: Seq<int> = seq![
            236932120, 394877152, 281190517, 658620196, 338509076, 173870401, 134672914, 665402942,
            358885288, 149551545, 610810481, 224425170, 19585933, 663092189, 307736904, 418578314,
            83215583, 664906825, 238614629, 322769645, 146997115, 683671552,
        ];
        assert(c.len() == 22 && c[0] == 236932120 && c[21] == 683671552);
        assert(is_squaring_chain(c, 683671553, 21)) by {
            reveal_with_fuel(is_squaring_chain, 22);
        }
        lemma_certified_entry(PRIME_22@[8], 22, c);
    }
    assert(is_prime(PRIME_22@[9] as nat)) by {
        let c: Seq<int> = seq![
            86995699, 270113230, 417848856, 32063919, 337068426, 380896530, 125805246, 489822991,
            191270836, 888855207, 224951582, 297644942, 316421368, 469137903, 375371168, 70712237,
            513123047, 418996019, 758681881, 328441654, 109585714, 918552576,
        ];
        assert(c.len() == 22 && c[0] == 86995699 && c[21] == 918552576);
        assert(is_squaring_chain(c, 918552577, 21)) by {
            reveal_with_fuel(is_squaring_chain, 22);
        }
        lemma_certified_entry(PRIME_22@[9], 22, c);
    }
    assert(is_prime(PRIME_22@[10] as nat)) by {
        let c: Seq<int> = seq![
            86363943, 271346122, 901130559, 725210734, 290728235, 376695117, 910186139, 834765914,
            314108744, 691252513, 357065787, 193868740, 784500267, 117759278, 342243841, 867801708,
            864060535, 565643650, 5423202, 609921712, 148466132, 935329792,
        ];
        assert(c.len() == 22 && c[0] == 86363943 && c[21] == 935329792);
        assert(is_squaring_chain(c, 935329793, 21)) by {
            reveal_with_fuel(is_squaring_chain, 22);
        }
        lemma_certified_entry(PRIME_22@[10], 22, c);
    }
    assert(is_prime(PRIME_22@[11] as nat)) by {
        let c: Seq<int> = seq![
            754500478, 452248858, 48630206, 908110902, 763544293, 383875340, 692434233, 129713917,
            503138536, 316028814, 279411274, 67653228, 511442064, 33980188, 500834230, 390980249,
            645191831, 420251950, 732605208, 840113271, 30720, 943718400,
        ];
        assert(c.len() == 22 && c[0] == 754500478 && c[21] == 943718400);
        assert(is_squaring_chain(c, 943718401, 21)) by {
            reveal_with_fuel(is_squaring_chain, 22);
        }
        lemma_certified_entry(PRIME_22@[11], 22, c);
    }
    assert(is_prime(PRIME_22@[12] as nat)) by {
        let c: Seq<int> = seq![
            79986183, 35641670, 289936572, 488148289, 850904669, 815878670, 57152593, 939143314,
            227095114, 880188658, 762733472, 26674254, 344687610, 106335492, 850287780, 457038942,
            786170176, 81885171, 460456839, 347485208, 787252466, 985661440,
        ];
        assert(c.len() == 22 && c[0] == 79986183 && c[21] == 985661440);
        assert(is_squaring_chain(c, 985661441, 21)) by {
            reveal_with_fuel(is_squaring_chain, 22);
        }
        lemma_certified_entry(PRIME_22@[12], 22, c);
    }
    assert(is_prime(PRIME_22@[13] as nat)) by {
        let c: Seq<int> = seq![
            451540992, 533346440, 381933861, 257026854, 15148777, 1160051840, 771898488, 664218744,
            115811773, 729155279, 846967880, 542635092, 846006649, 913029804, 199360367, 728913399,
            135786235, 419398308, 702339950, 899080367, 370036810, 1161822208,
        ];
        assert(c.len() == 22 && c[0] == 451540992 && c[21] == 1161822208);
        assert(is_squaring_chain(c, 1161822209, 21)) by {
            reveal_with_fuel(is_squaring_chain, 22);
        }
        lemma_certified_entry(PRIME_22@[13], 22, c);
    }
    assert(is_prime(PRIME_22@[14] as nat)) by {
        let c: Seq<int> = seq![
            1073252906, 650992642, 623816379, 538187716, 139899303, 612760425, 952796598,
            472567811, 474328766, 253929030, 1202400261, 375926142, 113414913, 923548232,
            1163115917, 251772720, 222999533, 336022253, 945195013, 833823009, 1212119041,
            1212153856,
        ];
        assert(c.len() == 22 && c[0] == 1073252906 && c[21] == 1212153856);
        assert(is_squaring_chain(c, 1212153857, 21)) by {
            reveal_with_fuel(is_squaring_chain, 22);
        }
        lemma_certified_entry(PRIME_22@[14], 22, c);
    }
    assert(is_prime(PRIME_22@[15] as nat)) by {
        let c: Seq<int> = seq![
            1139508858, 843816287, 1242062830, 867789458, 1156058558, 982630649, 569968217,
            157443418, 413784749, 1295756750, 1060453204, 1145838966, 507021892, 542404250,
            1240042, 1141861721, 781227516, 718712564, 1265822215, 769887057, 674862539,
            1321205760,
        ];
        assert(c.len() == 22 && c[0] == 1139508858 && c[21] == 1321205760);
        assert(is_squaring_chain(c, 1321205761, 21)) by {
            reveal_with_fuel(is_squaring_chain, 22);
        }
        lemma_certified_entry(PRIME_22@[15], 22, c);
    }
    assert(is_prime(PRIME_22@[16] as nat)) by {
        let c: Seq<int> = seq![
            1288687117, 986762558, 682947165, 208206491, 251089139, 384177965, 873968212, 74158677,
            582532048, 1308251755, 150932898, 394541992, 859035894, 911289128, 1424912501,
            1335080046, 853914367, 979879228, 527798668, 162350110, 441738441, 1438646272,
        ];
        assert(c.len() == 22 && c[0] == 1288687117 && c[21] == 1438646272);
        assert(is_squaring_chain(c, 1438646273, 21)) by {
            reveal_with_fuel(is_squaring_chain, 22);
        }
        lemma_certified_entry(PRIME_22@[16], 22, c);
    }
    assert(is_prime(PRIME_22@[17] as nat)) by {
        let c: Seq<int> = seq![
            682289494, 1140951057, 320814609, 1216594828, 512733456, 2143417, 1473552969,
            1182762501, 161209083, 1040601930, 1028129901, 731174816, 773565769, 302282345,
            513180609, 612382703, 1380087636, 683785800, 482803438, 716163390, 998685420,
            1572864000,
        ];
        assert(c.len() == 22 && c[0] == 682289494 && c[21] == 1572864000);
        assert(is_squaring_chain(c, 1572864001, 21)) by {
            reveal_with_fuel(is_squaring_chain, 22);
        }
        lemma_certified_entry(PRIME_22@[17], 22, c);
    }
    assert(is_prime(PRIME_22@[18] as nat)) by {
        let c: Seq<int> = seq![
            992802987, 239474818, 466094295, 1652769163, 1159767597, 265988627, 1526625761,
            1303588111, 983179388, 1013159415, 423224255, 1408513932, 1512493135, 881992910,
            1172235262, 177799165, 136096370, 609078338, 1007982217, 1218210631, 1192797453,
            1790967808,
        ];
        assert(c.len() == 22 && c[0] == 992802987 && c[21] == 1790967808);
        assert(is_squaring_chain(c, 1790967809, 21)) by {
            reveal_with_fuel(is_squaring_chain, 22);
        }
        lemma_certified_entry(PRIME_22@[18], 22, c);
    }
    assert(is_prime(PRIME_22@[19] as nat)) by {
        let c: Seq<int> = seq![
            1146985464, 1588796662, 7222087, 168358024, 651661145, 141743726, 179296007, 824701673,
            1086527853, 421609982, 118605769, 1726552800, 1407190394, 1407288610, 1036098812,
            1676933528, 1562077892, 737320336, 643664914, 721201158, 1459334834, 1866465280,
        ];
        assert(c.len() == 22 && c[0] == 1146985464 && c[21] == 1866465280);
        assert(is_squaring_chain(c, 1866465281, 21)) by {
            reveal_with_fuel(is_squaring_chain, 22);
        }
        lemma_certified_entry(PRIME_22@[19], 22, c);
    }
    assert(is_prime(PRIME_22@[20] as nat)) by {
        let c: Seq<int> = seq![
            1780161409, 984455462, 1547091385, 8047388, 143978033, 1579876951, 1410295452,
            1449390546, 1351237222, 1400192148, 1739511829, 149435973, 65600425, 299133876,
            1347288266, 859455222, 1131966167, 1692028229, 710582870, 441307297, 1168450407,
            2025848832,
        ];
        assert(c.len() == 22 && c[0] == 1780161409 && c[21] == 2025848832);
        assert(is_squaring_chain(c, 2025848833, 21)) by {
            reveal_with_fuel(is_squaring_chain, 22);
        }
        lemma_certified_entry(PRIME_22@[20], 22, c);
    }
    assert(is_prime(PRIME_22@[21] as nat)) by {
        let c: Seq<int> = seq![
            1237370764, 1486955398, 553266767, 24230302, 688755624, 425081929, 268231648,
            777570834, 874560072, 1465691276, 1265233960, 1761785165, 941524323, 258314118,
            1520027781, 596697, 1020447564, 1346965788, 379215143, 1393921962, 1315982459,
            2151677952,
        ];
        assert(c.len() == 22 && c[0] == 1237370764 && c[21] == 2151677952);
        assert(is_squaring_chain(c, 2151677953, 21)) by {
            reveal_with_fuel(is_squaring_chain, 22);
        }
        lemma_certified_entry(PRIME_22@[21], 22, c);
    }
    assert(is_prime(PRIME_22@[22] as nat)) by {
        let c: Seq<int> = seq![
            923776158, 998093960, 4038438, 30153795, 752898973, 326786989, 116811810, 1309909107,
            980938281, 1677410784, 1872512767, 341285422, 1869333798, 898260436, 1208352409,
            2127269572, 1028847849, 1194309229, 735063733, 722172714, 71795151, 2168455168,
        ];
        assert(c.len() == 22 && c[0] == 923776158 && c[21] == 2168455168);
        assert(is_squaring_chain(c, 2168455169, 21)) by {
            reveal_with_fuel(is_squaring_chain, 22);
        }
        lemma_certified_entry(PRIME_22@[22], 22, c);
    }
    assert(is_prime(PRIME_22@[23] as nat)) by {
        let c: Seq<int> = seq![
            1893034317, 1671118058, 2220282677, 1814958221, 391607746, 1171654371, 422344380,
            1855743022, 713334683, 2181457312, 340628371, 1761925371, 205125706, 2221844251,
            1860977183, 322743353, 644310131, 1850279533, 970532263, 666047430, 2269418965,
            2319450112,
        ];
        assert(c.len() == 22 && c[0] == 1893034317 && c[21] == 2319450112);
        assert(is_squaring_chain(c, 2319450113, 21)) by {
            reveal_with_fuel(is_squaring_chain, 22);
        }
        lemma_certified_entry(PRIME_22@[23], 22, c);
    }
    assert(is_prime(PRIME_22@[24] as nat)) by {
        let c: Seq<int> = seq![
            2173611977, 1913961727, 742329625, 867649926, 160324492, 279284859, 1277764367,
            1092196245, 931643549, 556871438, 1461713064, 367321336, 12900445, 641989765,
            1970918580, 300031385, 1736846712, 1006836132, 1428432230, 235377381, 1239904623,
            2344615936,
        ];
        assert(c.len() == 22 && c[0] == 2173611977 && c[21] == 2344615936);
        assert(is_squaring_chain(c, 2344615937, 21)) by {
            reveal_with_fuel(is_squaring_chain, 22);
        }
        lemma_certified_entry(PRIME_22@[24], 22, c);
    }
    assert(is_prime(PRIME_22@[25] as nat)) by {
        let c: Seq<int> = seq![
            208133976, 1557364677, 2311208438, 1581028667, 491174263, 924831556, 717472488,
            1898048013, 775492311, 822126845, 458033352, 2207663005, 2235681817, 2310174761,
            1982768549, 1947756339, 1241413662, 585177391, 771445495, 63254975, 201779483,
            2369781760,
        ];
        assert(c.len() == 22 && c[0] == 208133976 && c[21] == 2369781760);
        assert(is_squaring_chain(c, 2369781761, 21)) by {
            reveal_with_fuel(is_squaring_chain, 22);
        }
        lemma_certified_entry(PRIME_22@[25], 22, c);
    }
    assert(is_prime(PRIME_22@[26] as nat)) by {
        let c: Seq<int> = seq![
            91584530, 1108320338, 944482051, 1838632741, 2118556385, 2259639626, 654902670,
            2369243247, 1080602133, 37409028, 1550755200, 1872357133, 2250285277, 436143114,
            717527546, 2103969339, 890094824, 2371744840, 1793529236, 2380429911, 1397407764,
            2403336192,
        ];
        assert(c.len() == 22 && c[0] == 91584530 && c[21] == 2403336192);
        assert(is_squaring_chain(c, 2403336193, 21)) by {
            reveal_with_fuel(is_squaring_chain, 22);
        }
        lemma_certified_entry(PRIME_22@[26], 22, c);
    }
    assert(is_prime(PRIME_22@[27] as nat)) by {
        let c: Seq<int> = seq![
            276108454, 1791982597, 1768996640, 1089485731, 1889607388, 1468679305, 1329736322,
            1437438705, 1693950664, 2138463409, 1038499551, 2287959894, 1184744239, 534323834,
            1091909758, 618613278, 876459231, 1481091152, 1423708007, 1288551772, 1599711944,
            2470445056,
        ];
        assert(c.len() == 22 && c[0] == 276108454 && c[21] == 2470445056);
        assert(is_squaring_chain(c, 2470445057, 21)) by {
            reveal_with_fuel(is_squaring_chain, 22);
        }
        lemma_certified_entry(PRIME_22@[27], 22, c);
    }
    assert(is_prime(PRIME_22@[28] as nat)) by {
        let c: Seq<int> = seq![
            856502356, 1707549393, 2278854868, 1016812311, 1621294208, 2461572735, 2535162710,
            2300189427, 2080870982, 1753498067, 403995656, 1189397111, 991979419, 6330441,
            1154910539, 1636452250, 396141143, 1814803154, 1095702986, 386869392, 1663625679,
            2629828608,
        ];
        assert(c.len() == 22 && c[0] == 856502356 && c[21] == 2629828608);
        assert(is_squaring_chain(c, 2629828609, 21)) by {
            reveal_with_fuel(is_squaring_chain, 22);
        }
        lemma_certified_entry(PRIME_22@[28], 22, c);
    }
    assert(is_prime(PRIME_22@[29] as nat)) by {
        let c: Seq<int> = seq![
            668872955, 494402648, 2434359504, 965214186, 135745721, 1632168125, 632871890,
            2310112276, 1912510873, 82491168, 1477961495, 1510036705, 805823285, 1846576241,
            2542975301, 772054255, 1004532047, 2111100770, 1855505990, 765562183, 363992695,
            2671771648,
        ];
        assert(c.len() == 22 && c[0] == 668872955 && c[21] == 2671771648);
        assert(is_squaring_chain(c, 2671771649, 21)) by {
            reveal_with_fuel(is_squaring_chain, 22);
        }
        lemma_certified_entry(PRIME_22@[29], 22, c);
    }
    assert(is_prime(PRIME_22@[30] as nat)) by {
        let c: Seq<int> = seq![
            572461204, 2665551819, 1380496476, 523206645, 823427428, 900840321, 1026266035,
            1437389050, 584350299, 1150996829, 2582027848, 1123607632, 1032514356, 2566064030,
            582867208, 79716422, 2404410715, 1722760424, 2196543355, 85824921, 468420057,
            2680160256,
        ];
        assert(c.len() == 22 && c[0] == 572461204 && c[21] == 2680160256);
        assert(is_squaring_chain(c, 2680160257, 21)) by {
            reveal_with_fuel(is_squaring_chain, 22);
        }
        lemma_certified_entry(PRIME_22@[30], 22, c);
    }
    assert(is_prime(PRIME_22@[31] as nat)) by {
        let c: Seq<int> = seq![
            750745495, 847561652, 1902638488, 397036694, 333990005, 1738332719, 2535999883,
            1704871808, 254691809, 1073756226, 2142632027, 2612569578, 1376102142, 1298244545,
            308215755, 2530360278, 549663931, 1767270182, 2584191879, 1014310636, 1991773267,
            2705326080,
        ];
        assert(c.len() == 22 && c[0] == 750745495 && c[21] == 2705326080);
        assert(is_squaring_chain(c, 2705326081, 21)) by {
            reveal_with_fuel(is_squaring_chain, 22);
        }
        lemma_certified_entry(PRIME_22@[31], 22, c);
    }
    assert(is_prime(PRIME_22@[32] as nat)) by {
        let c: Seq<int> = seq![
            560195061, 254746433, 2227374171, 63292063, 2639587908, 611345112, 1425740008,
            2659929196, 774637956, 571924806, 1545245112, 164181135, 2294369921, 940617788,
            1995637382, 167118279, 670618353, 132599949, 753655351, 351110751, 1081773260,
            2722103296,
        ];
        assert(c.len() == 22 && c[0] == 560195061 && c[21] == 2722103296);
        assert(is_squaring_chain(c, 2722103297, 21)) by {
            reveal_with_fuel(is_squaring_chain, 22);
        }
        lemma_certified_entry(PRIME_22@[32], 22, c);
    }
    assert(is_prime(PRIME_22@[33] as nat)) by {
        let c: Seq<int> = seq![
            1840357684, 1974399873, 1244043498, 943380064, 838180663, 2026720770, 2082140475,
            1023220970, 1343285872, 1003153655, 2385993088, 711104117, 1971896207, 1160381472,
            882534867, 1060425183, 1317092638, 2226147510, 2267892456, 1940127921, 962465736,
            2747269120,
        ];
        assert(c.len() == 22 && c[0] == 1840357684 && c[21] == 2747269120);
        assert(is_squaring_chain(c, 2747269121, 21)) by {
            reveal_with_fuel(is_squaring_chain, 22);
        }
        lemma_certified_entry(PRIME_22@[33], 22, c);
    }
    assert(is_prime(PRIME_22@[34] as nat)) by {
        let c: Seq<int> = seq![
            611438396, 1471589788, 1117872282, 1100933459, 2715908134, 1666553315, 1312294516,
            2529174053, 1324488793, 1379589620, 1211346456, 2223047424, 714856662, 2014955531,
            1433476737, 502870359, 563402376, 2205805091, 1500503687, 264112963, 2603880726,
            2780823552,
        ];
        assert(c.len() == 22 && c[0] == 611438396 && c[21] == 2780823552);
        assert(is_squaring_chain(c, 2780823553, 21)) by {
            reveal_with_fuel(is_squaring_chain, 22);
        }
        lemma_certified_entry(PRIME_22@[34], 22, c);
    }
    assert(is_prime(PRIME_22@[35] as nat)) by {
        let c: Seq<int> = seq![
            1333779603, 2770145949, 1034637964, 929615626, 1828047423, 1935751353, 1596639857,
            2642661739, 2063151115, 2101284146, 2201975719, 2238513187, 1276958704, 851560263,
            2324045124, 2735549809, 2740295096, 624758996, 1146659154, 1796885560, 1845186026,
            2805989376,
        ];
        assert(c.len() == 22 && c[0] == 1333779603 && c[21] == 2805989376);
        assert(is_squaring_chain(c, 2805989377, 21)) by {
            reveal_with_fuel(is_squaring_chain, 22);
        }
        lemma_certified_entry(PRIME_22@[35], 22, c);
    }
    assert(is_prime(PRIME_22@[36] as nat)) by {
        let c: Seq<int> = seq![
            1678760303, 342618954, 2210155032, 1226551762, 1411999591, 2397157270, 1000199226,
            439484680, 579490071, 516878517, 1796245130, 2685670487, 2631549421, 1853552899,
            805956736, 408106005, 140975491, 2511065616, 946575968, 2462625831, 2099042139,
            2998927360,
        ];
        assert(c.len() == 22 && c[0] == 1678760303 && c[21] == 2998927360);
        assert(is_squaring_chain(c, 2998927361, 21)) by {
            reveal_with_fuel(is_squaring_chain, 22);
        }
        lemma_certified_entry(PRIME_22@[36], 22, c);
    }
    assert(is_prime(PRIME_22@[37] as nat)) by {
        let c: Seq<int> = seq![
            2579787225, 1067669058, 109238410, 714469562, 867943179, 1288759104, 1915832862,
            2261292504, 101871232, 2290007660, 319365711, 1554832899, 619891594, 1393097935,
            1194860102, 1443276906, 320919599, 147862051, 1141190204, 2511473893, 1494304822,
            3074424832,
        ];
        assert(c.len() == 22 && c[0] == 2579787225 && c[21] == 3074424832);
        assert(is_squaring_chain(c, 3074424833, 21)) by {
            reveal_with_fuel(is_squaring_chain, 22);
        }
        lemma_certified_entry(PRIME_22@[37], 22, c);
    }
    assert(is_prime(PRIME_22@[38] as nat)) by {
        let c: Seq<int> = seq![
            704361469, 618234591, 2601019314, 2346722095, 66317702, 774913874, 1013162261,
            1662274360, 1387969123, 3089489312, 246329931, 1966917238, 2366262526, 2166571453,
            2427520054, 1625158315, 2251357931, 2190508796, 3144756284, 934668727, 238961811,
            3175088128,
        ];
        assert(c.len() == 22 && c[0] == 704361469 && c[21] == 3175088128);
        assert(is_squaring_chain(c, 3175088129, 21)) by {
            reveal_with_fuel(is_squaring_chain, 22);
        }
        lemma_certified_entry(PRIME_22@[38], 22, c);
    }
    assert(is_prime(PRIME_22@[39] as nat)) by {
        let c: Seq<int> = seq![
            3140780460, 2760892853, 1935442796, 750897913, 3186000257, 230674397, 2714769742,
            135804159, 2335236480, 2132068931, 1964278722, 2104717200, 1605631352, 2070046898,
            1744779598, 430622884, 2627653732, 2786053689, 2086464668, 3098646375, 1939600113,
            3208642560,
        ];
        assert(c.len() == 22 && c[0] == 3140780460 && c[21] == 3208642560);
        assert(is_squaring_chain(c, 3208642561, 21)) by {
            reveal_with_fuel(is_squaring_chain, 22);
        }
        lemma_certified_entry(PRIME_22@[39], 22, c);
    }
    assert(is_prime(PRIME_22@[40] as nat)) by {
        let c: Seq<int> = seq![
            1684873723, 1409206949, 2082448586, 1874879748, 928896494, 2516133971, 221655808,
            965657227, 2224871882, 374606917, 1324298883, 3219340622, 2066542452, 2667571063,
            2661361630, 881561300, 1525402158, 1317064221, 1268342706, 2002768053, 2309193866,
            3435134976,
        ];
        assert(c.len() == 22 && c[0] == 1684873723 && c[21] == 3435134976);
        assert(is_squaring_chain(c, 3435134977, 21)) by {
            reveal_with_fuel(is_squaring_chain, 22);
        }
        lemma_certified_entry(PRIME_22@[40], 22, c);
    }
    assert(is_prime(PRIME_22@[41] as nat)) by {
        let c: Seq<int> = seq![
            2726506154, 1365318095, 419959154, 2986654713, 432497881, 287139220, 2028579014,
            828505593, 3293437043, 3266911965, 3214476110, 2283516191, 562823807, 2209741640,
            2175120194, 187161451, 986670790, 992414746, 2679954843, 1983451198, 1115007029,
            3451912192,
        ];
        assert(c.len() == 22 && c[0] == 2726506154 && c[21] == 3451912192);
        assert(is_squaring_chain(c, 3451912193, 21)) by {
            reveal_with_fuel(is_squaring_chain, 22);
        }
        lemma_certified_entry(PRIME_22@[41], 22, c);
    }
    assert(is_prime(PRIME_22@[42] as nat)) by {
        let c: Seq<int> = seq![
            1022435866, 1618951915, 752917008, 1666667037, 446897380, 137796456, 346329759,
            2120772040, 2484650421, 1693558842, 1259204900, 3030455599, 2373086019, 2139087187,
            2432498241, 111467859, 461006753, 923481618, 3447512528, 2447752264, 990911614,
            3510632448,
        ];
        assert(c.len() == 22 && c[0] == 1022435866 && c[21] == 3510632448);
        assert(is_squaring_chain(c, 3510632449, 21)) by {
            reveal_with_fuel(is_squaring_chain, 22);
        }
        lemma_certified_entry(PRIME_22@[42], 22, c);
    }
    assert(is_prime(PRIME_22@[43] as nat)) by {
        let c: Seq<int> = seq![
            1866655215, 1980464110, 2506360609, 399865244, 2427532513, 2653901349, 3330688054,
            2064956282, 357618002, 3112284047, 1845415665, 3294718345, 1890796171, 2847040353,
            2474204161, 504185086, 1535649390, 3268671781, 3124026249, 606938673, 3481165190,
            3552575488,
        ];
        assert(c.len() == 22 && c[0] == 1866655215 && c[21] == 3552575488);
        assert(is_squaring_chain(c, 3552575489, 21)) by {
            reveal_with_fuel(is_squaring_chain, 22);
        }
        lemma_certified_entry(PRIME_22@[43], 22, c);
    }
    assert(is_prime(PRIME_22@[44] as nat)) by {
        let c: Seq<int> = seq![
            3439939437, 1282070682, 3400136237, 2450132907, 1439597263, 468981595, 3408883546,
            128102895, 52584442, 1767355680, 1570542971, 3566766043, 1157046816, 1283379658,
            1817369208, 1376405259, 180567700, 683210522, 3193727625, 1168111960, 410050932,
            3577741312,
        ];
        assert(c.len() == 22 && c[0] == 3439939437 && c[21] == 3577741312);
        assert(is_squaring_chain(c, 3577741313, 21)) by {
            reveal_with_fuel(is_squaring_chain, 22);
        }
        lemma_certified_entry(PRIME_22@[44], 22, c);
    }
    assert(is_prime(PRIME_22@[45] as nat)) by {
        let c: Seq<int> = seq![
            1992728281, 2383086275, 3021333160, 494458851, 2421399859, 2786319111, 3401528906,
            499458379, 727838310, 524960365, 1118912661, 3298728269, 2744390594, 8172971,
            3159553998, 2641412821, 1106951522, 2050776456, 534279978, 1440686647, 2240696003,
            3602907136,
        ];
        assert(c.len() == 22 && c[0] == 1992728281 && c[21] == 3602907136);
        assert(is_squaring_chain(c, 3602907137, 21)) by {
            reveal_with_fuel(is_squaring_chain, 22);
        }
        lemma_certified_entry(PRIME_22@[45], 22, c);
    }
    assert(is_prime(PRIME_22@[46] as nat)) by {
        let c: Seq<int> = seq![
            1398096668, 1372768527, 3515799233, 2419100701, 2599121431, 26659647, 913177670,
            3217210409, 2137313053, 472617333, 2642956798, 3059783192, 2259727066, 479182915,
            1740168138, 85159091, 2811954445, 1248869067, 3275817312, 3270902594, 3172863628,
            3628072960,
        ];
        assert(c.len() == 22 && c[0] == 1398096668 && c[21] == 3628072960);
        assert(is_squaring_chain(c, 3628072961, 21)) by {
            reveal_with_fuel(is_squaring_chain, 22);
        }
        lemma_certified_entry(PRIME_22@[46], 22, c);
    }
    assert(is_prime(PRIME_22@[47] as nat)) by {
        let c: Seq<int> = seq![
            2755725298, 1373452246, 3597296991, 1457137708, 2343182989, 2007617567, 2272720335,
            1251478812, 3659118506, 2579620375, 38103659, 165987945, 2287767305, 2974104531,
            1001933005, 3324586741, 1123941817, 2146756524, 1086722745, 1794296375, 1055527748,
            3686793216,
        ];
        assert(c.len() == 22 && c[0] == 2755725298 && c[21] == 3686793216);
        assert(is_squaring_chain(c, 3686793217, 21)) by {
            reveal_with_fuel(is_squaring_chain, 22);
        }
        lemma_certified_entry(PRIME_22@[47], 22, c);
    }
    assert(is_prime(PRIME_22@[48] as nat)) by {
        let c: Seq<int> = seq![
            173386734, 2882292229, 2732090671, 3001056283, 2110361868, 1599817122, 1356638874,
            1506496436, 3607696680, 1512762733, 313279980, 2045958767, 800731199, 393113418,
            1611846258, 1072533539, 9946119, 2455524225, 3167723135, 3790250356, 3561282946,
            3837788160,
        ];
        assert(c.len() == 22 && c[0] == 173386734 && c[21] == 3837788160);
        assert(is_squaring_chain(c, 3837788161, 21)) by {
            reveal_with_fuel(is_squaring_chain, 22);
        }
        lemma_certified_entry(PRIME_22@[48], 22, c);
    }
    assert(is_prime(PRIME_22@[49] as nat)) by {
        let c: Seq<int> = seq![
            2042683446, 2318975812, 3876452821, 705114921, 61938330, 1743308711, 2980481560,
            2628604690, 3245793389, 1917477143, 494513909, 2012775911, 973731694, 1892155935,
            151353970, 1642863115, 2044033214, 1411614175, 3209907703, 393839643, 148433251,
            3938451456,
        ];
        assert(c.len() == 22 && c[0] == 2042683446 && c[21] == 3938451456);
        assert(is_squaring_chain(c, 3938451457, 21)) by {
            reveal_with_fuel(is_squaring_chain, 22);
        }
        lemma_certified_entry(PRIME_22@[49], 22, c);
    }
    assert(is_prime(PRIME_22@[50] as nat)) by {
        let c: Seq<int> = seq![
            3751155729, 1694267828, 3998970655, 1058479408, 1922095977, 680563354, 2631094646,
            807652958, 417315142, 1995716586, 2401349284, 3624561669, 1038286293, 104896979,
            2227441605, 498325560, 2453572308, 2668921490, 3571607437, 1965696132, 2493826398,
            4013948928,
        ];
        assert(c.len() == 22 && c[0] == 3751155729 && c[21] == 4013948928);
        assert(is_squaring_chain(c, 4013948929, 21)) by {
            reveal_with_fuel(is_squaring_chain, 22);
        }
        lemma_certified_entry(PRIME_22@[50], 22, c);
    }
    assert(is_prime(PRIME_22@[51] as nat)) by {
        let c: Seq<int> = seq![
            92445749, 3099910390, 3617756453, 2948352193, 3782647907, 2983039806, 1162949610,
            720983724, 2309250359, 2239813815, 363000329, 1494178882, 1565736181, 621532800,
            3202268669, 2524025875, 1337087238, 3550575632, 213990426, 2913339600, 1838796297,
            4106223616,
        ];
        assert(c.len() == 22 && c[0] == 92445749 && c[21] == 4106223616);
        assert(is_squaring_chain(c, 4106223617, 21)) by {
            reveal_with_fuel(is_squaring_chain, 22);
        }
        lemma_certified_entry(PRIME_22@[51], 22, c);
    }
    assert(first_prime(PRIME_22@, 52)) by {
        reveal_with_fuel(first_prime, 53);
    }
    lemma_first_prime(PRIME_22@, 52);
}

/// Every entry of `PRIME_23` is prime.
proof fn lemma_table_23()
    ensures
        forall|i: int| 0 <= i < 20 ==> is_prime(#[trigger] PRIME_23@[i] as nat),
{
    lemma_prime_tables_form();
    assert(is_prime(PRIME_23@[0] as nat)) by {
        let c: Seq<int> = seq![
            48510621, 359627898, 208047253, 228176430, 231175042, 38392757, 202524913, 78806174,
            57042940, 118044837, 376395490, 77194603, 311278273, 9068015, 69218873, 89695405,
            236513350, 311020871, 64134062, 125691644, 109260257, 10244869, 377487360,
        ];
        assert(c.len() == 23 && c[0] == 48510621 && c[22] == 377487360);
        assert(is_squaring_chain(c, 377487361, 22)) by {
            reveal_with_fuel(is_squaring_chain, 23);
        }
        lemma_certified_entry(PRIME_23@[0], 23, c);
    }
    assert(is_prime(PRIME_23@[1] as nat)) by {
        let c: Seq<int> = seq![
            361399025, 523993026, 389265957, 485340273, 114706277, 276043455, 92089477, 398899455,
            20378355, 218738437, 540542863, 537620508, 571705857, 282419779, 96070840, 350703326,
            497091226, 260058687, 504760658, 443510249, 68081344, 246337636, 595591168,
        ];
        assert(c.len() == 23 && c[0] == 361399025 && c[22] == 595591168);
        assert(is_squaring_chain(c, 595591169, 22)) by {
            reveal_with_fuel(is_squaring_chain, 23);
        }
        lemma_certified_entry(PRIME_23@[1], 23, c);
    }
    assert(is_prime(PRIME_23@[2] as nat)) by {
        let c: Seq<int> = seq![
            224270701, 284051643, 241937424, 262061944, 486403064, 433866508, 259576069, 463564758,
            28496699, 583213214, 578337366, 132364357, 534994838, 189480328, 405402710, 211126778,
            289704336, 338478759, 251415069, 280465537, 146614077, 186243151, 645922816,
        ];
        assert(c.len() == 23 && c[0] == 224270701 && c[22] == 645922816);
        assert(is_squaring_chain(c, 645922817, 22)) by {
            reveal_with_fuel(is_squaring_chain, 23);
        }
        lemma_certified_entry(PRIME_23@[2], 23, c);
    }
    assert(is_prime(PRIME_23@[3] as nat)) by {
        let c: Seq<int> = seq![
            98722167, 823037642, 468044532, 563802334, 11944693, 442287546, 439023014, 388245904,
            797714301, 792685132, 50703776, 265624196, 505464953, 108210954, 837648845, 535230277,
            779057443, 622448970, 47576967, 567579281, 541389217, 759359720, 880803840,
        ];
        assert(c.len() == 23 && c[0] == 98722167 && c[22] == 880803840);
        assert(is_squaring_chain(c, 880803841, 22)) by {
            reveal_with_fuel(is_squaring_chain, 23);
        }
        lemma_certified_entry(PRIME_23@[3], 23, c);
    }
    assert(is_prime(PRIME_23@[4] as nat)) by {
        let c: Seq<int> = seq![
            872686320, 523358721, 91704119, 279727937, 430897771, 437566725, 732004569, 288794207,
            313099125, 242773703, 471181658, 604882016, 781659575, 762907769, 64431346, 688546301,
            717889083, 661961559, 685177417, 227655573, 850960045, 200527991, 897581056,
        ];
        assert(c.len() == 23 && c[0] == 872686320 && c[22] == 897581056);
        assert(is_squaring_chain(c, 897581057, 22)) by {
            reveal_with_fuel(is_squaring_chain, 23);
        }
        lemma_certified_entry(PRIME_23@[4], 23, c);
    }
    assert(is_prime(PRIME_23@[5] as nat)) by {
        let c: Seq<int> = seq![
            15311432, 267099868, 733596141, 565042129, 363395222, 996173970, 24514907, 629671588,
            968855178, 666702199, 350007156, 63912897, 584193783, 258648936, 166035806, 476477967,
            781712469, 922799308, 452798380, 929031873, 372528824, 911660635, 998244352,
        ];
        assert(c.len() == 23 && c[0] == 15311432 && c[22] == 998244352);
        assert(is_squaring_chain(c, 998244353, 22)) by {
            reveal_with_fuel(is_squaring_chain, 23);
        }
        lemma_certified_entry(PRIME_23@[5], 23, c);
    }
    assert(is_prime(PRIME_23@[6] as nat)) by {
        let c: Seq<int> = seq![
            821559268, 885986444, 554840998, 648467622, 430210770, 585589433, 104327613, 404740697,
            751256308, 1014721169, 528411667, 622479742, 460184011, 217224068, 669457373,
            156425521, 568491048, 361109817, 338551157, 1039125458, 1130563679, 749218662,
            1300234240,
        ];
        assert(c.len() == 23 && c[0] == 821559268 && c[22] == 1300234240);
        assert(is_squaring_chain(c, 1300234241, 22)) by {
            reveal_with_fuel(is_squaring_chain, 23);
        }
        lemma_certified_entry(PRIME_23@[6], 23, c);
    }
    assert(is_prime(PRIME_23@[7] as nat)) by {
        let c: Seq<int> = seq![
            106129654, 270076864, 1318876539, 788389747, 744746963, 714713471, 1040540682,
            981787761, 1261411852, 563794463, 402669883, 1478276309, 513433641, 442346536,
            989522356, 614111574, 1454125745, 1451200576, 1279088736, 513057480, 1404082607,
            87983212, 1484783616,
        ];
        assert(c.len() == 23 && c[0] == 106129654 && c[22] == 1484783616);
        assert(is_squaring_chain(c, 1484783617, 22)) by {
            reveal_with_fuel(is_squaring_chain, 23);
        }
        lemma_certified_entry(PRIME_23@[7], 23, c);
    }
    assert(is_prime(PRIME_23@[8] as nat)) by {
        let c: Seq<int> = seq![
            1367595012, 511689195, 1016430213, 1759378811, 1434831962, 1071911936, 1590059676,
            1747334018, 1557466866, 836447051, 984433255, 1615315496, 1845209046, 1451508164,
            2053505871, 833214215, 520825619, 1587792484, 1567161700, 1283019349, 492517916,
            78423909, 2088763392,
        ];
        assert(c.len() == 23 && c[0] == 1367595012 && c[22] == 2088763392);
        assert(is_squaring_chain(c, 2088763393, 22)) by {
            reveal_with_fuel(is_squaring_chain, 23);
        }
        lemma_certified_entry(PRIME_23@[8], 23, c);
    }
    assert(is_prime(PRIME_23@[9] as nat)) by {
        let c: Seq<int> = seq![
            1010598720, 16749263, 613488401, 1653698593, 1581862200, 1626298164, 1370409565,
            2158137217, 1412705347, 1105246820, 230695959, 945361673, 836393251, 1666795879,
            2414932609, 725305324, 2193315624, 2106200999, 1572199644, 378354165, 1437287977,
            73416250, 2558525440,
        ];
        assert(c.len() == 23 && c[0] == 1010598720 && c[22] == 2558525440);
        assert(is_squaring_chain(c, 2558525441, 22)) by {
            reveal_with_fuel(is_squaring_chain, 23);
        }
        lemma_certified_entry(PRIME_23@[9], 23, c);
    }
    assert(is_prime(PRIME_23@[10] as nat)) by {
        let c: Seq<int> = seq![
            2697669971, 2630693214, 2437401936, 1996951204, 2243509527, 319807189, 255903040,
            790100927, 44333773, 1619352595, 960301089, 762106243, 716012859, 1654714596,
            1436091152, 250291757, 117128169, 362855471, 1263150875, 1648210024, 402688483,
            1406419503, 2810183680,
        ];
        assert(c.len() == 23 && c[0] == 2697669971 && c[22] == 2810183680);
        assert(is_squaring_chain(c, 2810183681, 22)) by {
            reveal_with_fuel(is_squaring_chain, 23);
        }
        lemma_certified_entry(PRIME_23@[10], 23, c);
    }
    assert(is_prime(PRIME_23@[11] as nat)) by {
        let c: Seq<int> = seq![
            1331720666, 970032268, 754195258, 1917816399, 2634900644, 1519293987, 1335693361,
            1352135613, 2249619768, 795155120, 2830488472, 2353424731, 506864992, 372385113,
            744484347, 2670412695, 193778383, 1815833747, 2865366212, 2638730416, 2042635956,
            2456435224, 2910846976,
        ];
        assert(c.len() == 23 && c[0] == 1331720666 && c[22] == 2910846976);
        assert(is_squaring_chain(c, 2910846977, 22)) by {
            reveal_with_fuel(is_squaring_chain, 23);
        }
        lemma_certified_entry(PRIME_23@[11], 23, c);
    }
    assert(is_prime(PRIME_23@[12] as nat)) by {
        let c: Seq<int> = seq![
            1187573626, 412293072, 867495000, 74971967, 2324297188, 2301628417, 2985315025,
            1323070798, 544810215, 986148539, 683946992, 238685359, 986355857, 2556650513,
            371893881, 2721346499, 1344998881, 878004141, 1369149665, 178557324, 2214424985,
            1236871810, 2994733056,
        ];
        assert(c.len() == 23 && c[0] == 1187573626 && c[22] == 2994733056);
        assert(is_squaring_chain(c, 2994733057, 22)) by {
            reveal_with_fuel(is_squaring_chain, 23);
        }
        lemma_certified_entry(PRIME_23@[12], 23, c);
    }
    assert(is_prime(PRIME_23@[13] as nat)) by {
        let c: Seq<int> = seq![
            1797282494, 701271900, 2625420210, 1678404288, 1854917174, 455582882, 2269271180,
            41684406, 956528756, 836699888, 1726463764, 899729292, 696907567, 1470920793,
            1161529004, 2219423768, 1295739745, 1184398455, 2926946526, 1656526775, 2485343973,
            2832173747, 3112173568,
        ];
        assert(c.len() == 23 && c[0] == 1797282494 && c[22] == 3112173568);
        assert(is_squaring_chain(c, 3112173569, 22)) by {
            reveal_with_fuel(is_squaring_chain, 23);
        }
        lemma_certified_entry(PRIME_23@[13], 23, c);
    }
    assert(is_prime(PRIME_23@[14] as nat)) by {
        let c: Seq<int> = seq![
            1166750255, 1407420242, 2404501724, 525328599, 926161489, 2779674550, 1592097315,
            2118821611, 485473287, 2934895225, 2008219713, 710554365, 2851522443, 1734935503,
            2302105362, 772012624, 2884090584, 2039348766, 888894851, 1956407405, 2216088626,
            2653113016, 3313500160,
        ];
        assert(c.len() == 23 && c[0] == 1166750255 && c[22] == 3313500160);
        assert(is_squaring_chain(c, 3313500161, 22)) by {
            reveal_with_fuel(is_squaring_chain, 23);
        }
        lemma_certified_entry(PRIME_23@[14], 23, c);
    }
    assert(is_prime(PRIME_23@[15] as nat)) by {
        let c: Seq<int> = seq![
            1625496425, 292387, 136071344, 2773530867, 2872216029, 1384943049, 409120706,
            2798042795, 1423457139, 2440983807, 2390126097, 3393391931, 1627980672, 2798077364,
            371433076, 1684196702, 1152551409, 1195833919, 3223059153, 2591535197, 2092315629,
            345428622, 3414163456,
        ];
        assert(c.len() == 23 && c[0] == 1625496425 && c[22] == 3414163456);
        assert(is_squaring_chain(c, 3414163457, 22)) by {
            reveal_with_fuel(is_squaring_chain, 23);
        }
        lemma_certified_entry(PRIME_23@[15], 23, c);
    }
    assert(is_prime(PRIME_23@[16] as nat)) by {
        let c: Seq<int> = seq![
            2863063647, 3981121, 2631531874, 1925499888, 3612815291, 2891041642, 787134664,
            2965978160, 41918524, 1951114135, 71385025, 1884098016, 3170556804, 2505172718,
            2994064366, 1991634819, 1349465756, 124295843, 1209487328, 286141524, 2013490687,
            2053574253, 3615490048,
        ];
        assert(c.len() == 23 && c[0] == 2863063647 && c[22] == 3615490048);
        assert(is_squaring_chain(c, 3615490049, 22)) by {
            reveal_with_fuel(is_squaring_chain, 23);
        }
        lemma_certified_entry(PRIME_23@[16], 23, c);
    }
    assert(is_prime(PRIME_23@[17] as nat)) by {
        let c: Seq<int> = seq![
            3589796837, 2906297398, 938482298, 439021542, 1772420505, 489393351, 3621737600,
            1562214435, 1231192615, 2665614440, 900834618, 1269168772, 454901940, 918889114,
            2314644744, 917973807, 1288125077, 1846755097, 2144290077, 1892404245, 2487546378,
            2877958080, 3665821696,
        ];
        assert(c.len() == 23 && c[0] == 3589796837 && c[22] == 3665821696);
        assert(is_squaring_chain(c, 3665821697, 22)) by {
            reveal_with_fuel(is_squaring_chain, 23);
        }
        lemma_certified_entry(PRIME_23@[17], 23, c);
    }
    assert(is_prime(PRIME_23@[18] as nat)) by {
        let c: Seq<int> = seq![
            2942592848, 93176802, 531808038, 51566268, 973342713, 3363327082, 970915965,
            1053437045, 2704839436, 3748328044, 2561308350, 2468590116, 1030740775, 2492097377,
            3262081117, 1493911171, 2394167510, 62605461, 1697788839, 399912545, 1099444730,
            866827653, 3749707776,
        ];
        assert(c.len() == 23 && c[0] == 2942592848 && c[22] == 3749707776);
        assert(is_squaring_chain(c, 3749707777, 22)) by {
            reveal_with_fuel(is_squaring_chain, 23);
        }
        lemma_certified_entry(PRIME_23@[18], 23, c);
    }
    assert(is_prime(PRIME_23@[19] as nat)) by {
        let c: Seq<int> = seq![
            4114580606, 3662831914, 2520933051, 1743728224, 470402314, 558006320, 2224220640,
            1473534360, 1672278522, 3078059304, 2659557663, 3413964419, 1466974116, 3467198049,
            399187831, 2296140600, 2934558033, 4151079437, 961111859, 2227040723, 3539648536,
            476884782, 4253024256,
        ];
        assert(c.len() == 23 && c[0] == 4114580606 && c[22] == 4253024256);
        assert(is_squaring_chain(c, 4253024257, 22)) by {
            reveal_with_fuel(is_squaring_chain, 23);
        }
        lemma_certified_entry(PRIME_23@[19], 23, c);
    }
    assert(first_prime(PRIME_23@, 20)) by {
        reveal_with_fuel(first_prime, 21);
    }
    lemma_first_prime(PRIME_23@, 20);
}

/// Every entry of `PRIME_24` is prime.
proof fn lemma_table_24()
    ensures
        forall|i: int| 0 <= i < 9 ==> is_prime(#[trigger] PRIME_24@[i] as nat),
{
    lemma_prime_tables_form();
    assert(is_prime(PRIME_24@[0] as nat)) by {
        let c: Seq<int> = seq![
            739831874, 363154963, 132391041, 310788621, 654739677, 128937321, 234918898, 153382660,
            493419254, 313312672, 332374468, 360143433, 259521057, 432094283, 445365557, 213676226,
            704612943, 552135903, 508199684, 720978774, 49823357, 205430076, 323860177, 754974720,
        ];
        assert(c.len() == 24 && c[0] == 739831874 && c[23] == 754974720);
        assert(is_squaring_chain(c, 754974721, 23)) by {
            reveal_with_fuel(is_squaring_chain, 24);
        }
        lemma_certified_entry(PRIME_24@[0], 24, c);
    }
    assert(is_prime(PRIME_24@[1] as nat)) by {
        let c: Seq<int> = seq![
            1098543633, 374069701, 870201925, 555015916, 402673544, 751899132, 775409411,
            879549332, 747655225, 168777029, 857341599, 411581083, 551294568, 216759071, 248999564,
            165685118, 977378905, 212234285, 793917383, 1005994026, 428631042, 961581489,
            1200230554, 1224736768,
        ];
        assert(c.len() == 24 && c[0] == 1098543633 && c[23] == 1224736768);
        assert(is_squaring_chain(c, 1224736769, 23)) by {
            reveal_with_fuel(is_squaring_chain, 24);
        }
        lemma_certified_entry(PRIME_24@[1], 24, c);
    }
    assert(is_prime(PRIME_24@[2] as nat)) by {
        let c: Seq<int> = seq![
            1791270792, 1760025929, 542991299, 1213133211, 1364057261, 339671193, 1816824389,
            373019801, 1848593786, 1168510561, 1047035213, 809067698, 1989134074, 2000983452,
            860702919, 665670555, 392596362, 699882112, 1548376985, 170455089, 148625052,
            1748172362, 2113994754, 2130706432,
        ];
        assert(c.len() == 24 && c[0] == 1791270792 && c[23] == 2130706432);
        assert(is_squaring_chain(c, 2130706433, 23)) by {
            reveal_with_fuel(is_squaring_chain, 24);
        }
        lemma_certified_entry(PRIME_24@[2], 24, c);
    }
    assert(is_prime(PRIME_24@[3] as nat)) by {
        let c: Seq<int> = seq![
            1548065432, 1273542999, 2528500122, 1246664968, 650743177, 1735104907, 695483289,
            1176928522, 2154565299, 1487386747, 1885203730, 1375739697, 1111827570, 1150201901,
            1409908809, 178652325, 491869509, 996126228, 1977524164, 883093547, 1080261294,
            2297004757, 259229200, 2533359616,
        ];
        assert(c.len() == 24 && c[0] == 1548065432 && c[23] == 2533359616);
        assert(is_squaring_chain(c, 2533359617, 23)) by {
            reveal_with_fuel(is_squaring_chain, 24);
        }
        lemma_certified_entry(PRIME_24@[3], 24, c);
    }
    assert(is_prime(PRIME_24@[4] as nat)) by {
        let c: Seq<int> = seq![
            1003806041, 1694344456, 859626936, 1049522821, 400148951, 1375846959, 1221817569,
            1752873507, 439066900, 1857381797, 2275191607, 57100478, 2541521346, 753308205,
            679215710, 2594512198, 776055167, 857082979, 1174272296, 2405094863, 1832442047,
            1427571633, 2512244017, 2634022912,
        ];
        assert(c.len() == 24 && c[0] == 1003806041 && c[23] == 2634022912);
        assert(is_squaring_chain(c, 2634022913, 23)) by {
            reveal_with_fuel(is_squaring_chain, 24);
        }
        lemma_certified_entry(PRIME_24@[4], 24, c);
    }
    assert(is_prime(PRIME_24@[5] as nat)) by {
        let c: Seq<int> = seq![
            1343047269, 2065935790, 1337721799, 1344830710, 2186020670, 2730238535, 2382390913,
            2451527754, 1518452017, 1313611482, 2655914083, 2433547714, 1471084511, 1160640824,
            558973367, 1764662434, 2472233046, 2325285424, 997321786, 2709832163, 1885337155,
            784701691, 1626210909, 2868903936,
        ];
        assert(c.len() == 24 && c[0] == 1343047269 && c[23] == 2868903936);
        assert(is_squaring_chain(c, 2868903937, 23)) by {
            reveal_with_fuel(is_squaring_chain, 24);
        }
        lemma_certified_entry(PRIME_24@[5], 24, c);
    }
    assert(is_prime(PRIME_24@[6] as nat)) by {
        let c: Seq<int> = seq![
            2314341266, 2549441434, 970946142, 103037841, 1081221191, 1338562131, 1059285946,
            763971640, 965813108, 874854079, 1171547806, 2492359847, 1501435540, 1965984971,
            2235350865, 402065902, 3198995992, 1137302154, 2306082658, 1159845654, 1302241734,
            158019482, 1059077436, 3238002688,
        ];
        assert(c.len() == 24 && c[0] == 2314341266 && c[23] == 3238002688);
        assert(is_squaring_chain(c, 3238002689, 23)) by {
            reveal_with_fuel(is_squaring_chain, 24);
        }
        lemma_certified_entry(PRIME_24@[6], 24, c);
    }
    assert(is_prime(PRIME_24@[7] as nat)) by {
        let c: Seq<int> = seq![
            2005499580, 1512543761, 1502592966, 3904568788, 3091275633, 1757877515, 3273484052,
            3339276183, 2227762623, 290434171, 551095749, 3323998895, 1455372125, 2411306154,
            1068289534, 818934949, 2105369322, 1085870183, 1259840550, 1695937367, 2467877664,
            822783579, 3466580192, 3942645760,
        ];
        assert(c.len() == 24 && c[0] == 2005499580 && c[23] == 3942645760);
        assert(is_squaring_chain(c, 3942645761, 23)) by {
            reveal_with_fuel(is_squaring_chain, 24);
        }
        lemma_certified_entry(PRIME_24@[7], 24, c);
    }
    assert(is_prime(PRIME_24@[8] as nat)) by {
        let c: Seq<int> = seq![
            1717502447, 524631518, 2593744074, 935780335, 1640547074, 1448264202, 2731592860,
            1509025154, 1832579662, 748028863, 2058601966, 2531712391, 3901802717, 1822804304,
            3118131785, 1670871080, 2026137374, 812920723, 1415966193, 687996572, 1082545319,
            2075121623, 2532832491, 4076863488,
        ];
        assert(c.len() == 24 && c[0] == 1717502447 && c[23] == 4076863488);
        assert(is_squaring_chain(c, 4076863489, 23)) by {
            reveal_with_fuel(is_squaring_chain, 24);
        }
        lemma_certified_entry(PRIME_24@[8], 24, c);
    }
    assert(first_prime(PRIME_24@, 9)) by {
        reveal_with_fuel(first_prime, 10);
    }
    lemma_first_prime(PRIME_24@, 9);
}

/// Every entry of `PRIME_25` is prime.
proof fn lemma_table_25()
    ensures
        forall|i: int| 0 <= i < 6 ==> is_prime(#[trigger] PRIME_25@[i] as nat),
{
    lemma_prime_tables_form();
    assert(is_prime(PRIME_25@[0] as nat)) by {
        let c: Seq<int> = seq![
            243, 59049, 131341181, 98217575, 147771621, 88009046, 127218630, 87327368, 51958270,
            48967582, 34951379, 129200985, 42000181, 150794572, 83629286, 134785078, 57844624,
            26238939, 370529, 54112143, 17334830, 116878283, 71493608, 65249968, 167772160,
        ];
        assert(c.len() == 25 && c[0] == 243 && c[24] == 167772160);
        assert(is_squaring_chain(c, 167772161, 24)) by {
            reveal_with_fuel(is_squaring_chain, 25);
        }
        lemma_certified_entry(PRIME_25@[0], 25, c);
    }
    assert(is_prime(PRIME_25@[1] as nat)) by {
        let c: Seq<int> = seq![
            244800362, 544651374, 172915020, 841803936, 171786771, 411378545, 422971598, 93596690,
            367884567, 1049870202, 972969368, 591985048, 368824288, 280590631, 829879634,
            597400845, 618722423, 555204627, 753842379, 37843062, 88062548, 1015762412, 175489222,
            276641614, 1107296256,
        ];
        assert(c.len() == 25 && c[0] == 244800362 && c[24] == 1107296256);
        assert(is_squaring_chain(c, 1107296257, 24)) by {
            reveal_with_fuel(is_squaring_chain, 25);
        }
        lemma_certified_entry(PRIME_25@[1], 25, c);
    }
    assert(is_prime(PRIME_25@[2] as nat)) by {
        let c: Seq<int> = seq![
            1321165584, 996777632, 1324262920, 628723280, 150481968, 1507237561, 613707140,
            307976600, 303910278, 1553880308, 122124683, 172602619, 1443777039, 1618350050,
            840639616, 932649476, 252761131, 318608546, 116822826, 852988471, 9250196, 613112383,
            1528990361, 440398360, 1711276032,
        ];
        assert(c.len() == 25 && c[0] == 1321165584 && c[24] == 1711276032);
        assert(is_squaring_chain(c, 1711276033, 24)) by {
            reveal_with_fuel(is_squaring_chain, 25);
        }
        lemma_certified_entry(PRIME_25@[2], 25, c);
    }
    assert(is_prime(PRIME_25@[3] as nat)) by {
        let c: Seq<int> = seq![
            1971140334, 1722264568, 192061449, 419757341, 1009943279, 1938891409, 1122855364,
            1192074659, 1502475247, 1309604352, 97013451, 1496081822, 193581016, 1323337775,
            1297171969, 139774242, 29975329, 1076760042, 1713944545, 261042355, 324124180,
            483614631, 1550788396, 911673634, 2113929216,
        ];
        assert(c.len() == 25 && c[0] == 1971140334 && c[24] == 2113929216);
        assert(is_squaring_chain(c, 2113929217, 24)) by {
            reveal_with_fuel(is_squaring_chain, 25);
        }
        lemma_certified_entry(PRIME_25@[3], 25, c);
    }
    assert(is_prime(PRIME_25@[4] as nat)) by {
        let c: Seq<int> = seq![
            927606587, 2638236826, 2202505326, 102593611, 1268184710, 2603128344, 1021640497,
            1623646090, 651788398, 1771643180, 806294937, 998154273, 2697711263, 1028939572,
            2052051782, 1161277343, 859419575, 1400162987, 342620914, 263619095, 2269722111,
            467103299, 1396619170, 761943039, 2717908992,
        ];
        assert(c.len() == 25 && c[0] == 927606587 && c[24] == 2717908992);
        assert(is_squaring_chain(c, 2717908993, 24)) by {
            reveal_with_fuel(is_squaring_chain, 25);
        }
        lemma_certified_entry(PRIME_25@[4], 25, c);
    }
    assert(is_prime(PRIME_25@[5] as nat)) by {
        let c: Seq<int> = seq![
            1177770062, 2580763344, 2936257672, 2541931790, 1688530187, 3440443607, 1079588648,
            790764273, 502725452, 623292090, 217320144, 1581848693, 3682666484, 2037177755,
            3986884701, 3100728574, 3185713831, 1867760616, 2026377158, 369001549, 2906399817,
            1800537630, 2303415184, 809539273, 4194304000,
        ];
        assert(c.len() == 25 && c[0] == 1177770062 && c[24] == 4194304000);
        assert(is_squaring_chain(c, 4194304001, 24)) by {
            reveal_with_fuel(is_squaring_chain, 25);
        }
        lemma_certified_entry(PRIME_25@[5], 25, c);
    }
    assert(first_prime(PRIME_25@, 6)) by {
        reveal_with_fuel(first_prime, 7);
    }
    lemma_first_prime(PRIME_25@, 6);
}

/// Every entry of `PRIME_26` is prime.
proof fn lemma_table_26()
    ensures
        forall|i: int| 0 <= i < 4 ==> is_prime(#[trigger] PRIME_26@[i] as nat),
{
    lemma_prime_tables_form();
    assert(is_prime(PRIME_26@[0] as nat)) by {
        let c: Seq<int> = seq![
            2187, 4782969, 320192759, 385303873, 391371999, 297449090, 197868229, 49553715,
            422997289, 321129726, 386080322, 372627191, 19512135, 62025685, 244412522, 165447688,
            110059487, 25153357, 338628632, 189158148, 210853138, 244709223, 426037461, 129701348,
            450151958, 469762048,
        ];
        assert(c.len() == 26 && c[0] == 2187 && c[25] == 469762048);
        assert(is_squaring_chain(c, 469762049, 25)) by {
            reveal_with_fuel(is_squaring_chain, 26);
        }
        lemma_certified_entry(PRIME_26@[0], 26, c);
    }
    assert(is_prime(PRIME_26@[1] as nat)) by {
        let c: Seq<int> = seq![
            814458146, 1604234654, 270419129, 593951923, 1652166292, 1276735332, 1348520583,
            1504131253, 608787922, 737486135, 684375921, 773164177, 1028576867, 1125137457,
            144851579, 1547629907, 1149354106, 137798246, 695032012, 346084956, 982338010,
            196322987, 677356115, 359621496, 1416949424, 1811939328,
        ];
        assert(c.len() == 26 && c[0] == 814458146 && c[25] == 1811939328);
        assert(is_squaring_chain(c, 1811939329, 25)) by {
            reveal_with_fuel(is_squaring_chain, 26);
        }
        lemma_certified_entry(PRIME_26@[1], 26, c);
    }
    assert(is_prime(PRIME_26@[2] as nat)) by {
        let c: Seq<int> = seq![
            870726350, 896984247, 2008687737, 2452311261, 284528830, 1267781024, 244619507,
            1122614684, 270997847, 155241853, 1826444633, 2416596405, 44427233, 235254437,
            231195456, 287446892, 282645616, 2136916465, 340498630, 2221359034, 555077392,
            548763410, 664479698, 1541690611, 435835070, 2483027968,
        ];
        assert(c.len() == 26 && c[0] == 870726350 && c[25] == 2483027968);
        assert(is_squaring_chain(c, 2483027969, 25)) by {
            reveal_with_fuel(is_squaring_chain, 26);
        }
        lemma_certified_entry(PRIME_26@[2], 26, c);
    }
    assert(is_prime(PRIME_26@[3] as nat)) by {
        let c: Seq<int> = seq![
            572355761, 1988536640, 2771929666, 733296863, 2195519202, 1928757901, 2495117636,
            2124009327, 227764682, 346096530, 1396137290, 2206724990, 1642527705, 401959094,
            1742342140, 716924566, 27398461, 341389407, 1288273370, 1743440721, 1220867687,
            1880661308, 314863760, 1139939226, 2256390959, 2885681152,
        ];
        assert(c.len() == 26 && c[0] == 572355761 && c[25] == 2885681152);
        assert(is_squaring_chain(c, 2885681153, 25)) by {
            reveal_with_fuel(is_squaring_chain, 26);
        }
        lemma_certified_entry(PRIME_26@[3], 26, c);
    }
    assert(first_prime(PRIME_26@, 4)) by {
        reveal_with_fuel(first_prime, 5);
    }
    lemma_first_prime(PRIME_26@, 4);
}

/// Every entry of `PRIME_27` is prime.
proof fn lemma_table_27()
    ensures
        forall|i: int| 0 <= i < 3 ==> is_prime(#[trigger] PRIME_27@[i] as nat),
{
    lemma_prime_tables_form();
    assert(is_prime(PRIME_27@[0] as nat)) by {
        let c: Seq<int> = seq![
            1227303670, 93415323, 1967256669, 803698133, 1468189886, 551940703, 845732530,
            1179029991, 139700921, 1161580287, 234232845, 74384512, 921325686, 400588301,
            772837880, 1619789736, 709697997, 1054808915, 949217896, 1734697937, 784229619,
            1917679203, 1835875777, 1400279418, 420899707, 1728404513, 2013265920,
        ];
        assert(c.len() == 27 && c[0] == 1227303670 && c[26] == 2013265920);
        assert(is_squaring_chain(c, 2013265921, 26)) by {
            reveal_with_fuel(is_squaring_chain, 27);
        }
        lemma_certified_entry(PRIME_27@[0], 27, c);
    }
    assert(is_prime(PRIME_27@[1] as nat)) by {
        let c: Seq<int> = seq![
            129140163, 446737246, 1660948873, 1998745818, 1196108655, 1057547068, 1346120317,
            1783582410, 231852688, 637539285, 451618310, 2270548020, 1294996786, 1286750706,
            977546242, 799681555, 1780348903, 865646229, 1301610063, 1639385633, 123697435,
            216937880, 2023592065, 617790083, 483803410, 344250126, 2281701376,
        ];
        assert(c.len() == 27 && c[0] == 129140163 && c[26] == 2281701376);
        assert(is_squaring_chain(c, 2281701377, 26)) by {
            reveal_with_fuel(is_squaring_chain, 27);
        }
        lemma_certified_entry(PRIME_27@[1], 27, c);
    }
    assert(is_prime(PRIME_27@[2] as nat)) by {
        let c: Seq<int> = seq![
            1094924467, 233110841, 690794360, 1647742686, 1942970286, 3377934438, 3149842966,
            742396057, 1294128695, 506888822, 3092565553, 3552962881, 3879869551, 3621757913,
            3792555907, 2202041008, 2022379338, 3701730168, 1636781320, 2367114032, 719793813,
            225496216, 1874543527, 3020650607, 2390276519, 800380159, 3892314112,
        ];
        assert(c.len() == 27 && c[0] == 1094924467 && c[26] == 3892314112);
        assert(is_squaring_chain(c, 3892314113, 26)) by {
            reveal_with_fuel(is_squaring_chain, 27);
        }
        lemma_certified_entry(PRIME_27@[2], 27, c);
    }
    assert(first_prime(PRIME_27@, 3)) by {
        reveal_with_fuel(first_prime, 4);
    }
    lemma_first_prime(PRIME_27@, 3);
}

/// `PRIME_28` is prime.
proof fn lemma_table_28()
    ensures
        is_prime(PRIME_28 as nat),
{
    lemma_prime_tables_form();
    assert(is_prime(PRIME_28 as nat)) by {
        let c: Seq<int> = seq![
            1594323, 1392672017, 1178393024, 2206155841, 2106507513, 1139259149, 1143890192,
            1882435536, 3373763992, 758575992, 72934420, 3369885469, 725028937, 1030533309,
            962117947, 3231347667, 1005229295, 340708175, 731827882, 1938306374, 424291397,
            2792923286, 3290428437, 1424003439, 1513900834, 1054308003, 1841841630, 3489660928,
        ];
        assert(c.len() == 28 && c[0] == 1594323 && c[27] == 3489660928);
        assert(is_squaring_chain(c, 3489660929, 27)) by {
            reveal_with_fuel(is_squaring_chain, 28);
        }
        lemma_certified_entry(PRIME_28, 28, c);
    }
}

/// `PRIME_30` is prime.
proof fn lemma_table_30()
    ensures
        is_prime(PRIME_30 as nat),
{
    lemma_prime_tables_form();
    assert(is_prime(PRIME_30 as nat)) by {
        let c: Seq<int> = seq![
            125, 15625, 244140625, 229807484, 247425463, 1838654099, 538601489, 140749519,
            3182672916, 448192265, 3009749949, 511777184, 1358427440, 1800384970, 2519378301,
            1405588668, 1445148504, 1734477367, 211283056, 1168849724, 1855261384, 764652596,
            1958494276, 1292405718, 651814490, 66931328, 2526611335, 1031213943, 1013946479,
            3221225472,
        ];
        assert(c.len() == 30 && c[0] == 125 && c[29] == 3221225472);
        assert(is_squaring_chain(c, 3221225473, 29)) by {
            reveal_with_fuel(is_squaring_chain, 30);
        }
        lemma_certified_entry(PRIME_30, 30, c);
    }
}

/// The tables list what they promise: every entry of `PRIME_k` is a prime of the
/// form `a·2^k + 1` with `a` odd.
pub proof fn lemma_prime_tables()
    ensures
        forall|i: int|
            0 <= i < 52 ==> is_prime(#[trigger] PRIME_22@[i] as nat) && has_odd_cofactor(PRIME_22@[i] as int, 22),
        forall|i: int|
            0 <= i < 20 ==> is_prime(#[trigger] PRIME_23@[i] as nat) && has_odd_cofactor(PRIME_23@[i] as int, 23),
        forall|i: int|
            0 <= i < 9 ==> is_prime(#[trigger] PRIME_24@[i] as nat) && has_odd_cofactor(PRIME_24@[i] as int, 24),
        forall|i: int|
            0 <= i < 6 ==> is_prime(#[trigger] PRIME_25@[i] as nat) && has_odd_cofactor(PRIME_25@[i] as int, 25),
        forall|i: int|
            0 <= i < 4 ==> is_prime(#[trigger] PRIME_26@[i] as nat) && has_odd_cofactor(PRIME_26@[i] as int, 26),
        forall|i: int|
            0 <= i < 3 ==> is_prime(#[trigger] PRIME_27@[i] as nat) && has_odd_cofactor(PRIME_27@[i] as int, 27),
        is_prime(PRIME_28 as nat) && has_odd_cofactor(PRIME_28 as int, 28),
        is_prime(PRIME_30 as nat) && has_odd_cofactor(PRIME_30 as int, 30),
{
    lemma_prime_tables_form();
    lemma_table_22();
    lemma_table_23();
    lemma_table_24();
    lemma_table_25();
    lemma_table_26();
    lemma_table_27();
    lemma_table_28();
    lemma_table_30();
}

} // verus!
