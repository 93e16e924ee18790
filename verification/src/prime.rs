//! The modulus is a prime: seven has order p - 1, so that its powers are all the nonzero residues, and each of
//! them has an inverse. Seven is no square, so that the extension is a field as well.

use vstd::prelude::*;

use vstd::relations::injective_on;
use vstd::set_lib::{lemma_int_range, lemma_map_size, lemma_subset_equality, set_int_range};

use crate::field::{
    f_mul, f_pow, f_red, f_sub, is_unit, lemma_cancel, lemma_mul_assoc, lemma_mul_one, lemma_pow_add,
    lemma_pow_canonical, lemma_pow_pow, lemma_power_unit, lemma_red_add, lemma_red_mul, lemma_unit_nonzero,
    lemma_x_mul_comm, lemma_x_mul_raw, lemma_x_mul_red, lemma_zero_difference, x_inv, x_mul, x_of, x_one, x_red, x_zero,
    Ext, MODULUS, W_EXT,
};

verus! {

/// Seven to the `e` is `v`.
#[verifier::opaque]
spec fn reaches(e: nat, v: u64) -> bool {
    f_pow(7, e) == v
}

proof fn lemma_seven()
    ensures
        reaches(1, 7),
{
    reveal(reaches);
    assert(f_pow(7, 1) == f_mul(f_pow(7, 0), 7));
    lemma_mul_one(7);
}

/// A power squared.
proof fn twice(e: nat, v: u64, w: u64)
    requires
        reaches(e, v),
        f_mul(v, v) == w,
    ensures
        reaches(2 * e, w),
{
    summed(e, v, e, v, w);
    assert(2 * e == e + e);
}

/// A product of two powers.
proof fn summed(e: nat, v: u64, d: nat, u: u64, w: u64)
    requires
        reaches(e, v),
        reaches(d, u),
        f_mul(v, u) == w,
    ensures
        reaches(e + d, w),
{
    reveal(reaches);
    lemma_pow_add(7, e, d);
}

/// The powers of seven to 2^31 and 2^32.
proof fn lemma_base_powers()
    ensures
        reaches(2147483648, 17380019310548783236),
        reaches(4294967296, 12275445934081160404),
{
    lemma_seven();
    twice(1, 7, 49);
    twice(2, 49, 2401);
    twice(4, 2401, 5764801);
    twice(8, 5764801, 33232930569601);
    twice(16, 33232930569601, 3732854072722565977);
    twice(32, 3732854072722565977, 11250886851934520606);
    twice(64, 11250886851934520606, 12159723539389677939);
    twice(128, 12159723539389677939, 1536671775522476176);
    twice(256, 1536671775522476176, 18371408314118145657);
    twice(512, 18371408314118145657, 2431605942540367610);
    twice(1024, 2431605942540367610, 6358221588783459004);
    twice(2048, 6358221588783459004, 10083885515493449909);
    twice(4096, 10083885515493449909, 15094611910849701842);
    twice(8192, 15094611910849701842, 18060412910171584788);
    twice(16384, 18060412910171584788, 10529651373896570371);
    twice(32768, 10529651373896570371, 11156834669773791359);
    twice(65536, 11156834669773791359, 11840798296997857860);
    twice(131072, 11840798296997857860, 1447330804268045396);
    twice(262144, 1447330804268045396, 15265864706138236984);
    twice(524288, 15265864706138236984, 12990112920302977158);
    twice(1048576, 12990112920302977158, 16491641580159807679);
    twice(2097152, 16491641580159807679, 17642952523097762870);
    twice(4194304, 17642952523097762870, 4419967652436713981);
    twice(8388608, 4419967652436713981, 7206579306846404579);
    twice(16777216, 7206579306846404579, 17869454728573311546);
    twice(33554432, 17869454728573311546, 4919185416341570378);
    twice(67108864, 4919185416341570378, 14445320067108370181);
    twice(134217728, 14445320067108370181, 17666966662873528270);
    twice(268435456, 17666966662873528270, 5473358340599679662);
    twice(536870912, 5473358340599679662, 4120449531758749877);
    twice(1073741824, 4120449531758749877, 17380019310548783236);
    twice(2147483648, 17380019310548783236, 12275445934081160404);
}

/// Half the order leads to -1, and the order to 1.
proof fn lemma_half_power()
    ensures
        reaches(9223372034707292160, 18446744069414584320),
        reaches(18446744069414584320, 1),
{
    lemma_base_powers();
    twice(2147483648, 17380019310548783236, 12275445934081160404);
    summed(4294967296, 12275445934081160404, 2147483648, 17380019310548783236, 16341254035993852604);
    twice(6442450944, 16341254035993852604, 1279992132519201448);
    twice(12884901888, 1279992132519201448, 11302600489504509467);
    summed(25769803776, 11302600489504509467, 6442450944, 16341254035993852604, 14553636398574310458);
    twice(32212254720, 14553636398574310458, 11274872323250451096);
    twice(64424509440, 11274872323250451096, 12069298394184580155);
    twice(128849018880, 12069298394184580155, 5428282574489895836);
    twice(257698037760, 5428282574489895836, 15488913980707339956);
    summed(515396075520, 15488913980707339956, 32212254720, 14553636398574310458, 8965981650855844639);
    twice(547608330240, 8965981650855844639, 17588058450869219263);
    twice(1095216660480, 17588058450869219263, 683923235602147932);
    twice(2190433320960, 683923235602147932, 8835979233172182436);
    twice(4380866641920, 8835979233172182436, 3355407709622930266);
    twice(8761733283840, 3355407709622930266, 17799430507262292938);
    twice(17523466567680, 17799430507262292938, 11182389913569094181);
    twice(35046933135360, 11182389913569094181, 11350173437670463340);
    twice(70093866270720, 11350173437670463340, 13348485338936455432);
    summed(140187732541440, 13348485338936455432, 547608330240, 8965981650855844639, 7318164361609642178);
    twice(140735340871680, 7318164361609642178, 8478886009461009681);
    twice(281470681743360, 8478886009461009681, 3092532293969191351);
    twice(562941363486720, 3092532293969191351, 11982165510053927645);
    twice(1125882726973440, 11982165510053927645, 639665010884288235);
    twice(2251765453946880, 639665010884288235, 11822565046240120622);
    twice(4503530907893760, 11822565046240120622, 15192687144333216107);
    twice(9007061815787520, 15192687144333216107, 3944933441264341029);
    twice(18014123631575040, 3944933441264341029, 18338367532161807437);
    twice(36028247263150080, 18338367532161807437, 14116616393803028120);
    twice(72056494526300160, 14116616393803028120, 7557976808102161137);
    twice(144112989052600320, 7557976808102161137, 18122471392806858898);
    twice(288225978105200640, 18122471392806858898, 1663733934612021008);
    twice(576451956210401280, 1663733934612021008, 12126845715385289534);
    twice(1152903912420802560, 12126845715385289534, 15848133960099043372);
    twice(2305807824841605120, 15848133960099043372, 5076986655182494531);
    twice(4611615649683210240, 5076986655182494531, 7482868354221469670);
    summed(9223231299366420480, 7482868354221469670, 140735340871680, 7318164361609642178, 18446744069414584320);
    twice(9223372034707292160, 18446744069414584320, 1);
}

/// The order over 65537, and the powers on the way.
proof fn lemma_power_65537()
    ensures
        reaches(12884901888, 1279992132519201448),
        reaches(64424509440, 11274872323250451096),
        reaches(1095216660480, 17588058450869219263),
        reaches(281470681743360, 8478886009461009681),
{
    lemma_base_powers();
    twice(4294967296, 12275445934081160404, 4756475762779100925);
    summed(8589934592, 4756475762779100925, 4294967296, 12275445934081160404, 1279992132519201448);
    twice(12884901888, 1279992132519201448, 11302600489504509467);
    twice(25769803776, 11302600489504509467, 15099809066790865939);
    summed(51539607552, 15099809066790865939, 12884901888, 1279992132519201448, 11274872323250451096);
    twice(64424509440, 11274872323250451096, 12069298394184580155);
    twice(128849018880, 12069298394184580155, 5428282574489895836);
    twice(257698037760, 5428282574489895836, 15488913980707339956);
    twice(515396075520, 15488913980707339956, 14489374604437787495);
    summed(1030792151040, 14489374604437787495, 64424509440, 11274872323250451096, 17588058450869219263);
    twice(1095216660480, 17588058450869219263, 683923235602147932);
    twice(2190433320960, 683923235602147932, 8835979233172182436);
    twice(4380866641920, 8835979233172182436, 3355407709622930266);
    twice(8761733283840, 3355407709622930266, 17799430507262292938);
    twice(17523466567680, 17799430507262292938, 11182389913569094181);
    twice(35046933135360, 11182389913569094181, 11350173437670463340);
    twice(70093866270720, 11350173437670463340, 13348485338936455432);
    twice(140187732541440, 13348485338936455432, 13464544557546266752);
    summed(280375465082880, 13464544557546266752, 1095216660480, 17588058450869219263, 8478886009461009681);
}

/// The order over 257.
proof fn lemma_power_257()
    ensures
        reaches(71777214277877760, 995085315851368103),
{
    lemma_power_65537();
    twice(1095216660480, 17588058450869219263, 683923235602147932);
    twice(2190433320960, 683923235602147932, 8835979233172182436);
    twice(4380866641920, 8835979233172182436, 3355407709622930266);
    twice(8761733283840, 3355407709622930266, 17799430507262292938);
    twice(17523466567680, 17799430507262292938, 11182389913569094181);
    twice(35046933135360, 11182389913569094181, 11350173437670463340);
    twice(70093866270720, 11350173437670463340, 13348485338936455432);
    twice(140187732541440, 13348485338936455432, 13464544557546266752);
    twice(280375465082880, 13464544557546266752, 2636486945714830121);
    twice(560750930165760, 2636486945714830121, 14684247676495287617);
    twice(1121501860331520, 14684247676495287617, 2274794405394038417);
    twice(2243003720663040, 2274794405394038417, 6159580149661827629);
    twice(4486007441326080, 6159580149661827629, 12783639365566130366);
    twice(8972014882652160, 12783639365566130366, 17977965052847340432);
    twice(17944029765304320, 17977965052847340432, 6754625258790389526);
    twice(35888059530608640, 6754625258790389526, 13841762663831489400);
    summed(71776119061217280, 13841762663831489400, 1095216660480, 17588058450869219263, 995085315851368103);
}

/// The order over 17.
proof fn lemma_power_17()
    ensures
        reaches(1085102592318504960, 16301593560560007290),
{
    lemma_power_65537();
    twice(64424509440, 11274872323250451096, 12069298394184580155);
    twice(128849018880, 12069298394184580155, 5428282574489895836);
    twice(257698037760, 5428282574489895836, 15488913980707339956);
    twice(515396075520, 15488913980707339956, 14489374604437787495);
    twice(1030792151040, 14489374604437787495, 12206518770029942281);
    twice(2061584302080, 12206518770029942281, 413094928346096057);
    twice(4123168604160, 413094928346096057, 15766010878259212757);
    twice(8246337208320, 15766010878259212757, 3657091858122848375);
    summed(16492674416640, 3657091858122848375, 64424509440, 11274872323250451096, 17081009302073449373);
    twice(16557098926080, 17081009302073449373, 9712290447447227715);
    twice(33114197852160, 9712290447447227715, 18353052305479501654);
    twice(66228395704320, 18353052305479501654, 3495479116764033220);
    twice(132456791408640, 3495479116764033220, 3168539979805436219);
    twice(264913582817280, 3168539979805436219, 3637221273663582256);
    twice(529827165634560, 3637221273663582256, 8164110716181655783);
    twice(1059654331269120, 8164110716181655783, 2719056059350969794);
    twice(2119308662538240, 2719056059350969794, 14606834437484321538);
    twice(4238617325076480, 14606834437484321538, 17538078484879494127);
    twice(8477234650152960, 17538078484879494127, 13322349472364422993);
    twice(16954469300305920, 13322349472364422993, 271701169835891804);
    twice(33908938600611840, 271701169835891804, 8426978637769344579);
    twice(67817877201223680, 8426978637769344579, 17272401663244671350);
    twice(135635754402447360, 17272401663244671350, 12667552657477068085);
    twice(271271508804894720, 12667552657477068085, 18125504883219885493);
    twice(542543017609789440, 18125504883219885493, 4923149005013927666);
    summed(1085086035219578880, 4923149005013927666, 16557098926080, 17081009302073449373, 16301593560560007290);
}

/// The order over 5.
proof fn lemma_power_5()
    ensures
        reaches(3689348813882916864, 1373043270956696022),
{
    lemma_power_65537();
    twice(12884901888, 1279992132519201448, 11302600489504509467);
    twice(25769803776, 11302600489504509467, 15099809066790865939);
    twice(51539607552, 15099809066790865939, 14878451024585790464);
    twice(103079215104, 14878451024585790464, 3986470656093777568);
    summed(206158430208, 3986470656093777568, 12884901888, 1279992132519201448, 3080292546802250491);
    twice(219043332096, 3080292546802250491, 17006525114682413860);
    twice(438086664192, 17006525114682413860, 8083283331813898072);
    twice(876173328384, 8083283331813898072, 16743901597616345696);
    twice(1752346656768, 16743901597616345696, 794970792167364242);
    twice(3504693313536, 794970792167364242, 7546388582528536283);
    twice(7009386627072, 7546388582528536283, 10653659328813066384);
    twice(14018773254144, 10653659328813066384, 827457396601441529);
    twice(28037546508288, 827457396601441529, 5645433850935072186);
    summed(56075093016576, 5645433850935072186, 219043332096, 3080292546802250491, 13117622064007455443);
    twice(56294136348672, 13117622064007455443, 9907097673348654079);
    twice(112588272697344, 9907097673348654079, 6822962341432118346);
    twice(225176545394688, 6822962341432118346, 8387774438723502474);
    twice(450353090789376, 8387774438723502474, 16263287269256390051);
    twice(900706181578752, 16263287269256390051, 494088566814603655);
    twice(1801412363157504, 494088566814603655, 1807241665396374533);
    twice(3602824726315008, 1807241665396374533, 13307880886342077856);
    twice(7205649452630016, 13307880886342077856, 18131792825513456230);
    twice(14411298905260032, 18131792825513456230, 1081271948764867619);
    twice(28822597810520064, 1081271948764867619, 9260288528947417886);
    twice(57645195621040128, 9260288528947417886, 7218436129030341502);
    twice(115290391242080256, 7218436129030341502, 16869632680291716959);
    twice(230580782484160512, 16869632680291716959, 11938567439809785070);
    twice(461161564968321024, 11938567439809785070, 9248764056160822388);
    twice(922323129936642048, 9248764056160822388, 16423827349953371834);
    twice(1844646259873284096, 16423827349953371834, 351299289206469995);
    summed(3689292519746568192, 351299289206469995, 56294136348672, 13117622064007455443, 1373043270956696022);
}

/// The order over 3.
proof fn lemma_power_3()
    ensures
        reaches(6148914689804861440, 18446744065119617025),
{
    lemma_base_powers();
    twice(4294967296, 12275445934081160404, 4756475762779100925);
    twice(8589934592, 4756475762779100925, 8312008622371998338);
    summed(17179869184, 8312008622371998338, 4294967296, 12275445934081160404, 7781028390488215464);
    twice(21474836480, 7781028390488215464, 16538725463549498621);
    twice(42949672960, 16538725463549498621, 7240278926970958133);
    twice(85899345920, 7240278926970958133, 2933687313377291533);
    twice(171798691840, 2933687313377291533, 9171584139645391685);
    summed(343597383680, 9171584139645391685, 21474836480, 7781028390488215464, 4733570987445959623);
    twice(365072220160, 4733570987445959623, 10619881994662283040);
    twice(730144440320, 10619881994662283040, 14683850830539800883);
    twice(1460288880640, 14683850830539800883, 4820919645240105078);
    twice(2920577761280, 4820919645240105078, 3202614590602328516);
    twice(5841155522560, 3202614590602328516, 6113754203944115352);
    twice(11682311045120, 6113754203944115352, 17997615147442086792);
    twice(23364622090240, 17997615147442086792, 8411457785826346464);
    twice(46729244180480, 8411457785826346464, 14429561761737960082);
    summed(93458488360960, 14429561761737960082, 365072220160, 4733570987445959623, 144820208228696286);
    twice(93823560581120, 144820208228696286, 3684268560309858177);
    twice(187647121162240, 3684268560309858177, 2363289453392170952);
    twice(375294242324480, 2363289453392170952, 7587693404843662632);
    twice(750588484648960, 7587693404843662632, 12515164493598922578);
    twice(1501176969297920, 12515164493598922578, 8965467266562060677);
    twice(3002353938595840, 8965467266562060677, 6842111060429192961);
    twice(6004707877191680, 6842111060429192961, 12254440090107020518);
    twice(12009415754383360, 12254440090107020518, 11655435991352351163);
    twice(24018831508766720, 11655435991352351163, 3340255778841623647);
    twice(48037663017533440, 3340255778841623647, 12758233786500560203);
    twice(96075326035066880, 12758233786500560203, 2554443020152129300);
    twice(192150652070133760, 2554443020152129300, 419800627511671363);
    twice(384301304140267520, 419800627511671363, 6417457863729027941);
    twice(768602608280535040, 6417457863729027941, 235579216894932503);
    twice(1537205216561070080, 235579216894932503, 2870055250468911957);
    twice(3074410433122140160, 2870055250468911957, 16697449633631685757);
    summed(6148820866244280320, 16697449633631685757, 93823560581120, 144820208228696286, 18446744065119617025);
}

/// p - 1.
pub const ORDER: u64 = 18446744069414584320;

/// There is no factor but one and the number itself.
spec fn no_factor(q: nat) -> bool {
    &&& q > 1
    &&& forall|d: nat| 1 < d < q ==> #[trigger] (q % d) != 0
}

/// `d` goes into `n`.
spec fn divides(d: nat, n: nat) -> bool {
    exists|k: nat| #[trigger] (d * k) == n
}

/// A number below a prime has an inverse modulo it.
proof fn lemma_inverse_below(q: nat, a: nat) -> (r: (int, int))
    requires
        no_factor(q),
        0 < a < q,
    ensures
        a * r.0 == 1 + q * r.1,
    decreases a,
{
    if a == 1 {
        assert(a * 1 == 1 + q * 0) by (nonlinear_arith)
            requires
                a == 1,
        ;
        (1int, 0int)
    } else {
        let (k, b) = (q / a, q % a);
        assert(b != 0);
        let (u, v) = lemma_inverse_below(q, b);
        vstd::arithmetic::div_mod::lemma_fundamental_div_mod(q as int, a as int);
        // b = q - k a, so that a (-k u) = b u - q u = 1 + q (v - u).
        let (x, y) = (-(k * u), v - u);
        assert(a * x == 1 + q * y) by (nonlinear_arith)
            requires
                q == a * k + b,
                b * u == 1 + q * v,
                x == -(k * u),
                y == v - u,
        ;
        (x, y)
    }
}

/// What divides q n and is no multiple of the prime q divides n.
proof fn lemma_strip(q: nat, m: nat, n: nat)
    requires
        no_factor(q),
        m > 0,
        m % q != 0,
        divides(m, q * n),
    ensures
        divides(m, n),
{
    let k = choose|k: nat| #[trigger] (m * k) == q * n;
    let (c, a) = (m / q, m % q);
    vstd::arithmetic::div_mod::lemma_fundamental_div_mod(m as int, q as int);
    let (u, v) = lemma_inverse_below(q, a);
    // m u = q (c u + v) + 1, so that n = m (u n) - q n (c u + v) = m (u n - k (c u + v)).
    let t = c * u + v;
    let j = u * n - k * t;
    assert(m * u == 1 + q * t) by (nonlinear_arith)
        requires
            m == q * c + a,
            a * u == 1 + q * v,
            t == c * u + v,
    ;
    assert(m * j == (m * u) * n - (m * k) * t) by (nonlinear_arith)
        requires
            j == u * n - k * t,
    ;
    assert((1 + q * t) * n - (q * n) * t == n) by (nonlinear_arith);
    assert(j >= 0) by (nonlinear_arith)
        requires
            n == m * j,
            m > 0,
            n >= 0,
    ;
    assert(m * (j as nat) == n);
}

/// What divides q^e n and is no multiple of the prime q divides n.
proof fn lemma_strip_power(q: nat, e: nat, m: nat, n: nat)
    requires
        no_factor(q),
        m > 0,
        m % q != 0,
        divides(m, vstd::arithmetic::power::pow(q as int, e) as nat * n),
    ensures
        divides(m, n),
    decreases e,
{
    vstd::arithmetic::power::lemma_pow_positive(q as int, e);
    if e == 0 {
        vstd::arithmetic::power::lemma_pow0(q as int);
        assert(1 * n == n);
    } else {
        let d = (e - 1) as nat;
        let h = vstd::arithmetic::power::pow(q as int, d) as nat;
        vstd::arithmetic::power::lemma_pow_positive(q as int, d);
        reveal(vstd::arithmetic::power::pow);
        assert(vstd::arithmetic::power::pow(q as int, e) == q * h);
        assert((q * h) * n == q * (h * n)) by (nonlinear_arith);
        lemma_strip(q, m, h * n);
        lemma_strip_power(q, d, m, n);
    }
}

/// The prime factors of the order.
proof fn lemma_small_primes()
    ensures
        no_factor(2),
        no_factor(3),
        no_factor(5),
        no_factor(17),
        no_factor(257),
        no_factor(65537),
{
    assert forall|d: nat| 1 < d < 5 implies #[trigger] (5nat % d) != 0 by {
        assert(d == 2 || d == 3 || d == 4);
    }
    assert forall|d: nat| 1 < d < 17 implies #[trigger] (17nat % d) != 0 by {
        lemma_fermat_prime(d as u32);
    }
    assert forall|d: nat| 1 < d < 257 implies #[trigger] (257nat % d) != 0 by {
        lemma_fermat_prime(d as u32);
    }
    assert forall|d: nat| 1 < d < 65537 implies #[trigger] (65537nat % d) != 0 by {
        lemma_fermat_prime(d as u32);
    }
}

proof fn lemma_fermat_prime(d: u32)
    requires
        1 < d,
    ensures
        d < 17 ==> 17u32 % d != 0,
        d < 257 ==> 257u32 % d != 0,
        d < 65537 ==> 65537u32 % d != 0,
{
    assert(1 < d && d < 17 ==> 17u32 % d != 0) by (bit_vector);
    assert(1 < d && d < 257 ==> 257u32 % d != 0) by (bit_vector);
    assert(1 < d && d < 65537 ==> 65537u32 % d != 0) by (bit_vector);
}
/// What divides the order and is not one has one of its prime factors.
proof fn lemma_has_factor(m: nat)
    requires
        m > 1,
        divides(m, ORDER as nat),
    ensures
        m % 2 == 0 || m % 3 == 0 || m % 5 == 0 || m % 17 == 0 || m % 257 == 0 || m % 65537 == 0,
{
    if m % 2 != 0 && m % 3 != 0 && m % 5 != 0 && m % 17 != 0 && m % 257 != 0 && m % 65537 != 0 {
        lemma_small_primes();
        vstd::arithmetic::power2::lemma2_to64();
        vstd::arithmetic::power2::lemma_pow2(32);
        lemma_strip_power(2, 32, m, 4294967295);
        assert(4294967295nat == 3 * 1431655765nat);
        lemma_strip(3, m, 1431655765);
        assert(1431655765nat == 5 * 286331153nat);
        lemma_strip(5, m, 286331153);
        assert(286331153nat == 17 * 16843009nat);
        lemma_strip(17, m, 16843009);
        assert(16843009nat == 257 * 65537nat);
        lemma_strip(257, m, 65537);
        assert(65537nat == 65537 * 1nat);
        lemma_strip(65537, m, 1);
        let k = choose|k: nat| #[trigger] (m * k) == 1nat;
        assert(m * k != 1) by (nonlinear_arith)
            requires
                m > 1,
                k >= 0,
        ;
    }
}

/// No part of the order by one of its prime factors leads seven to one.
proof fn lemma_parts_miss_one()
    ensures
        f_pow(7, ORDER as nat) == 1,
        f_pow(7, (ORDER / 2) as nat) != 1,
        f_pow(7, (ORDER / 3) as nat) != 1,
        f_pow(7, (ORDER / 5) as nat) != 1,
        f_pow(7, (ORDER / 17) as nat) != 1,
        f_pow(7, (ORDER / 257) as nat) != 1,
        f_pow(7, (ORDER / 65537) as nat) != 1,
{
    lemma_half_power();
    lemma_power_3();
    lemma_power_5();
    lemma_power_17();
    lemma_power_257();
    lemma_power_65537();
    reveal(reaches);
}

/// A multiple of an exponent that leads to one leads to one.
proof fn lemma_multiple_reaches_one(k: nat, n: nat)
    requires
        f_pow(7, k) == 1,
        divides(k, n),
    ensures
        f_pow(7, n) == 1,
{
    let j = choose|j: nat| #[trigger] (k * j) == n;
    lemma_pow_pow(7, k, j);
    lemma_one_power(j);
}

proof fn lemma_one_power(n: nat)
    ensures
        f_pow(1, n) == 1,
    decreases n,
{
    if n > 0 {
        lemma_one_power((n - 1) as nat);
        lemma_mul_one(1);
    }
}

/// If q divides m = n / k, then k divides n / q.
proof fn lemma_cofactor(k: nat, m: nat, n: nat, q: nat)
    requires
        k * m == n,
        q > 0,
        m % q == 0,
    ensures
        divides(k, n / q),
{
    let j = m / q;
    vstd::arithmetic::div_mod::lemma_fundamental_div_mod(m as int, q as int);
    assert(n == q * (k * j)) by (nonlinear_arith)
        requires
            k * m == n,
            m == q * j,
    ;
    vstd::arithmetic::div_mod::lemma_div_multiples_vanish((k * j) as int, q as int);
    assert(n / q == k * j);
}

/// Seven has order p - 1.
pub(crate) proof fn lemma_seven_has_full_order(k: nat)
    requires
        0 < k < ORDER,
    ensures
        f_pow(7, k) != 1,
    decreases k,
{
    if f_pow(7, k) == 1 {
        lemma_parts_miss_one();
        let (m, r) = (ORDER as nat / k, ORDER as nat % k);
        vstd::arithmetic::div_mod::lemma_fundamental_div_mod(ORDER as int, k as int);
        if r != 0 {
            lemma_seven_has_full_order(r);
            lemma_pow_add(7, k * m, r);
            assert(k * m == k * m);
            lemma_multiple_reaches_one(k, k * m);
            lemma_mul_one(f_pow(7, r));
            lemma_pow_canonical(7, r);
        } else {
            assert(m > 1) by (nonlinear_arith)
                requires
                    k * m == ORDER,
                    k < ORDER,
            ;
            assert(m * k == ORDER) by (nonlinear_arith)
                requires
                    k * m == ORDER,
            ;
            lemma_has_factor(m);
            let q: nat = if m % 2 == 0 {
                2
            } else if m % 3 == 0 {
                3
            } else if m % 5 == 0 {
                5
            } else if m % 17 == 0 {
                17
            } else if m % 257 == 0 {
                257
            } else {
                65537
            };
            lemma_cofactor(k, m, ORDER as nat, q);
            lemma_multiple_reaches_one(k, ORDER as nat / q);
        }
    }
}

/// The powers of seven below the order are distinct.
proof fn lemma_powers_distinct(i: nat, j: nat)
    requires
        i < j < ORDER,
    ensures
        f_pow(7, i) != f_pow(7, j),
{
    if f_pow(7, i) == f_pow(7, j) {
        lemma_parts_miss_one();
        lemma_power_unit(7, ORDER as nat, i);
        let (a, d) = (f_pow(7, i), (j - i) as nat);
        let v = choose|v: u64| #[trigger] f_mul(a, v) == 1;
        lemma_mul_assoc(a, v, 0);
        lemma_pow_add(7, i, d);
        lemma_mul_one(a);
        lemma_pow_canonical(7, i);
        lemma_pow_canonical(7, d);
        lemma_cancel(a, v, f_pow(7, d), 1);
        lemma_seven_has_full_order(d);
    }
}

/// Every nonzero residue is a power of seven.
proof fn lemma_all_are_powers(a: u64)
    requires
        0 < a < MODULUS,
    ensures
        exists|k: nat| k < ORDER && #[trigger] f_pow(7, k) == a,
{
    let exponents = set_int_range(0, ORDER as int);
    let residues = set_int_range(1, MODULUS as int);
    let f = |k: int| f_pow(7, k as nat) as int;
    let powers = exponents.map(f);
    lemma_int_range(0, ORDER as int);
    lemma_int_range(1, MODULUS as int);
    assert(injective_on(f, exponents)) by {
        assert forall|x: int, y: int|
            exponents.contains(x) && exponents.contains(y) && #[trigger] f(x) == #[trigger] f(y) implies x == y by {
            if x < y {
                lemma_powers_distinct(x as nat, y as nat);
            } else if y < x {
                lemma_powers_distinct(y as nat, x as nat);
            }
        }
    }
    lemma_map_size(exponents, powers, f);
    assert(powers.subset_of(residues)) by {
        assert forall|v: int| powers.contains(v) implies residues.contains(v) by {
            let k = choose|k: int| exponents.contains(k) && v == f(k);
            lemma_parts_miss_one();
            lemma_power_unit(7, ORDER as nat, k as nat);
            let u = choose|u: u64| #[trigger] f_mul(f_pow(7, k as nat), u) == 1;
            lemma_unit_nonzero(f_pow(7, k as nat), u);
            lemma_pow_canonical(7, k as nat);
        }
    }
    lemma_subset_equality(powers, residues);
    assert(powers.contains(a as int));
    let k = choose|k: int| exponents.contains(k) && a as int == f(k);
    assert(f_pow(7, k as nat) == a);
}

/// Every residue but zero has an inverse.
pub proof fn law_nonzero_is_unit(a: u64)
    requires
        f_red(a as int) != 0,
    ensures
        is_unit(a),
{
    let r = f_red(a as int);
    lemma_all_are_powers(r);
    let k = choose|k: nat| k < ORDER && #[trigger] f_pow(7, k) == r;
    lemma_parts_miss_one();
    lemma_power_unit(7, ORDER as nat, k);
    let v = choose|v: u64| #[trigger] f_mul(r, v) == 1;
    lemma_red_mul(a as int, v as int);
    assert(f_mul(a, v) == 1);
}

/// A product is zero only if a factor is.
pub proof fn law_no_zero_divisors(a: u64, b: u64)
    ensures
        f_mul(a, b) == 0 <==> f_red(a as int) == 0 || f_red(b as int) == 0,
{
    lemma_red_mul(a as int, b as int);
    assert(0 * b == 0 && a * 0 == 0) by (nonlinear_arith);
    if f_mul(a, b) == 0 && f_red(a as int) != 0 {
        law_nonzero_is_unit(a);
        let v = choose|v: u64| #[trigger] f_mul(a, v) == 1;
        let r = f_red(b as int);
        lemma_mul_assoc(a, v, 0);
        assert(f_mul(a, 0) == 0);
        assert(f_mul(a, r) == f_mul(a, b));
        lemma_cancel(a, v, r, 0);
    }
}

/// b (1 - b) is zero exactly for zero and one.
pub proof fn law_bit_constraint(b: u64)
    ensures
        f_mul(b, f_sub(1, b)) == 0 <==> f_red(b as int) == 0 || f_red(b as int) == 1,
{
    law_no_zero_divisors(b, f_sub(1, b));
    lemma_zero_difference(1, b);
}

/// Seven is no square, so X^2 = 7 has no root.
pub proof fn law_seven_is_no_square(a: u64)
    ensures
        f_mul(a, a) != 7,
{
    let r = f_red(a as int);
    lemma_red_mul(a as int, a as int);
    lemma_red_mul(r as int, a as int);
    assert(f_mul(r, r) == f_mul(a, a));
    if r == 0 {
        assert(0 * 0 == 0) by (nonlinear_arith);
    } else {
        lemma_all_are_powers(r);
        let k = choose|k: nat| k < ORDER && #[trigger] f_pow(7, k) == r;
        lemma_pow_add(7, k, k);
        lemma_seven();
        reveal(reaches);
        if 2 * k < ORDER {
            if 2 * k == 0 {
                lemma_powers_distinct(0, 1);
            } else {
                lemma_powers_distinct(1, 2 * k);
            }
        } else {
            let e = (2 * k - ORDER) as nat;
            lemma_parts_miss_one();
            lemma_pow_add(7, ORDER as nat, e);
            lemma_mul_one(f_pow(7, e));
            lemma_pow_canonical(7, e);
            if e == 0 {
                lemma_powers_distinct(0, 1);
            } else {
                lemma_powers_distinct(1, e);
            }
        }
    }
}

/// The norm c^2 - 7 d^2 of an element that is not zero is not zero.
proof fn lemma_norm_nonzero(c: u64, d: u64)
    requires
        c < MODULUS,
        d < MODULUS,
        c != 0 || d != 0,
    ensures
        f_red(c * c - W_EXT * (d * d)) != 0,
{
    if d == 0 {
        law_no_zero_divisors(c, c);
        assert(0 * 0 == 0 && W_EXT * 0 == 0) by (nonlinear_arith);
    } else if f_red(c * c - W_EXT * (d * d)) == 0 {
        law_nonzero_is_unit(d);
        let e = choose|e: u64| #[trigger] f_mul(d, e) == 1;
        let q = f_mul(c, e);
        let (x, y) = (c * c - W_EXT * (d * d), e * e);
        lemma_red_mul(x, y);
        assert(0 * y == 0) by (nonlinear_arith);
        assert(f_red(x * y) == 0);
        assert(x * y == (c * e) * (c * e) - W_EXT * ((d * e) * (d * e))) by (nonlinear_arith)
            requires
                x == c * c - W_EXT * (d * d),
                y == e * e,
        ;
        lemma_red_mul(c * e, c * e);
        lemma_red_mul(c * e, q as int);
        assert(f_red((c * e) * (c * e)) == f_mul(q, q));
        lemma_red_mul(d * e, d * e);
        lemma_red_mul(d * e, 1);
        assert(f_red((d * e) * (d * e)) == 1);
        lemma_red_mul(W_EXT as int, (d * e) * (d * e));
        assert(f_red(W_EXT * ((d * e) * (d * e))) == 7);
        lemma_red_add((c * e) * (c * e), W_EXT * ((d * e) * (d * e)));
        law_seven_is_no_square(q);
    }
}

/// The extension is a field: every element but zero has its canonical inverse.
pub proof fn law_extension_is_a_field(a: Ext)
    requires
        x_red(a) != x_zero(),
    ensures
        x_red(x_inv(a)) == x_inv(a),
        x_mul(a, x_inv(a)) == x_one(),
        x_mul(x_inv(a), a) == x_one(),
{
    let (c, d) = (f_red(a.c0 as int), f_red(a.c1 as int));
    let n = c * c - W_EXT * (d * d);
    lemma_norm_nonzero(c, d);
    let norm = f_red(n);
    law_nonzero_is_unit(norm);
    let v = choose|v: u64| #[trigger] f_mul(norm, v) == 1;
    let r = x_of(c * v, -(d * v));
    lemma_x_mul_raw(c as int, d as int, c * v, -(d * v));
    assert(c * (c * v) + W_EXT * (d * -(d * v)) == n * v) by (nonlinear_arith)
        requires
            n == c * c - W_EXT * (d * d),
    ;
    assert(c * -(d * v) + d * (c * v) == 0) by (nonlinear_arith);
    lemma_red_mul(n, v as int);
    assert(x_mul(x_of(c as int, d as int), r) == x_one());
    assert(x_red(r) == r);
    lemma_x_mul_red(a, r);
    assert(x_red(a) == x_of(c as int, d as int));
    assert(x_mul(a, r) == x_one());
    lemma_x_mul_comm(a, x_inv(a));
}

} // verus!
