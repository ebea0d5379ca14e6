//! The transform turns negacyclic multiplication into coefficient-wise
//! multiplication: `ntt(a * b) == ntt(a) o ntt(b)` for the product `a * b` in
//! `Z_q[X]/(X^256 + 1)`, computed here by the schoolbook rule. With it, the
//! product of a challenge with a short vector is bounded by the norms of the
//! factors.
use vstd::prelude::*;
use vstd::arithmetic::div_mod::*;
use crate::ntt::{
    add_seq, centered, scale, congruent, fwd_layer, fwd_upto, half_len, lemma_fwd_layer_congr, lemma_layer_cases, lemma_mq_add,
    lemma_mq_mq, lemma_mq_mul, lemma_mul_congr, lemma_pair_congr, mq, ntt_spec, pointwise_spec, zeta_f, ZETAS,
};
use crate::params::{MONT_R, MONT_R_INV, Q, Q_HALF};
use crate::challenge::{nonzero_count, ternary};
use crate::poly::poly_mul_spec;

verus! {

/// The square of twiddle `k`, in Montgomery form, against the table entry at
/// `k / 2`: `ZETAS[k]^2 == +-ZETAS[k / 2] * 2^32 (mod q)`, the sign `+` for even
/// `k`, and `ZETAS[1]^2 == -2^64` for `k = 1`.
pub open spec fn zeta_sq_ok(k: int) -> bool {
    if k == 1 {
        (ZETAS[1] as int * ZETAS[1] as int + 2365951) % (Q as int) == 0
    } else if k % 2 == 0 {
        (ZETAS[k] as int * ZETAS[k] as int - ZETAS[k / 2] as int * MONT_R) % (Q as int) == 0
    } else {
        (ZETAS[k] as int * ZETAS[k] as int + ZETAS[k / 2] as int * MONT_R) % (Q as int) == 0
    }
}

#[verifier::rlimit(50)]
proof fn lemma_zeta_sq_from_2()
    ensures
        forall|k: int| 2 <= k < 18 ==> #[trigger] zeta_sq_ok(k),
{
    assert(ZETAS[2] == -2608894 && ZETAS[1] == 25847);
    assert((-2608894int * -2608894int - 25847int * 4193792) % 8380417 == 0);
    assert(zeta_sq_ok(2));
    assert(ZETAS[3] == -518909 && ZETAS[1] == 25847);
    assert((-518909int * -518909int + 25847int * 4193792) % 8380417 == 0);
    assert(zeta_sq_ok(3));
    assert(ZETAS[4] == 237124 && ZETAS[2] == -2608894);
    assert((237124int * 237124int - -2608894int * 4193792) % 8380417 == 0);
    assert(zeta_sq_ok(4));
    assert(ZETAS[5] == -777960 && ZETAS[2] == -2608894);
    assert((-777960int * -777960int + -2608894int * 4193792) % 8380417 == 0);
    assert(zeta_sq_ok(5));
    assert(ZETAS[6] == -876248 && ZETAS[3] == -518909);
    assert((-876248int * -876248int - -518909int * 4193792) % 8380417 == 0);
    assert(zeta_sq_ok(6));
    assert(ZETAS[7] == 466468 && ZETAS[3] == -518909);
    assert((466468int * 466468int + -518909int * 4193792) % 8380417 == 0);
    assert(zeta_sq_ok(7));
    assert(ZETAS[8] == 1826347 && ZETAS[4] == 237124);
    assert((1826347int * 1826347int - 237124int * 4193792) % 8380417 == 0);
    assert(zeta_sq_ok(8));
    assert(ZETAS[9] == 2353451 && ZETAS[4] == 237124);
    assert((2353451int * 2353451int + 237124int * 4193792) % 8380417 == 0);
    assert(zeta_sq_ok(9));
    assert(ZETAS[10] == -359251 && ZETAS[5] == -777960);
    assert((-359251int * -359251int - -777960int * 4193792) % 8380417 == 0);
    assert(zeta_sq_ok(10));
    assert(ZETAS[11] == -2091905 && ZETAS[5] == -777960);
    assert((-2091905int * -2091905int + -777960int * 4193792) % 8380417 == 0);
    assert(zeta_sq_ok(11));
    assert(ZETAS[12] == 3119733 && ZETAS[6] == -876248);
    assert((3119733int * 3119733int - -876248int * 4193792) % 8380417 == 0);
    assert(zeta_sq_ok(12));
    assert(ZETAS[13] == -2884855 && ZETAS[6] == -876248);
    assert((-2884855int * -2884855int + -876248int * 4193792) % 8380417 == 0);
    assert(zeta_sq_ok(13));
    assert(ZETAS[14] == 3111497 && ZETAS[7] == 466468);
    assert((3111497int * 3111497int - 466468int * 4193792) % 8380417 == 0);
    assert(zeta_sq_ok(14));
    assert(ZETAS[15] == 2680103 && ZETAS[7] == 466468);
    assert((2680103int * 2680103int + 466468int * 4193792) % 8380417 == 0);
    assert(zeta_sq_ok(15));
    assert(ZETAS[16] == 2725464 && ZETAS[8] == 1826347);
    assert((2725464int * 2725464int - 1826347int * 4193792) % 8380417 == 0);
    assert(zeta_sq_ok(16));
    assert(ZETAS[17] == 1024112 && ZETAS[8] == 1826347);
    assert((1024112int * 1024112int + 1826347int * 4193792) % 8380417 == 0);
    assert(zeta_sq_ok(17));
    assert forall|k: int| 2 <= k < 18 implies #[trigger] zeta_sq_ok(k) by {
        if k == 2 {} else if k == 3 {} else if k == 4 {} else if k == 5 {} else if k == 6 {} else if k == 7 {} else if k == 8 {} else if k == 9 {} else if k == 10 {} else if k == 11 {} else if k == 12 {} else if k == 13 {} else if k == 14 {} else if k == 15 {} else if k == 16 {} else {
            assert(k == 17);
        }
    }
}

#[verifier::rlimit(50)]
proof fn lemma_zeta_sq_from_18()
    ensures
        forall|k: int| 18 <= k < 34 ==> #[trigger] zeta_sq_ok(k),
{
    assert(ZETAS[18] == -1079900 && ZETAS[9] == 2353451);
    assert((-1079900int * -1079900int - 2353451int * 4193792) % 8380417 == 0);
    assert(zeta_sq_ok(18));
    assert(ZETAS[19] == 3585928 && ZETAS[9] == 2353451);
    assert((3585928int * 3585928int + 2353451int * 4193792) % 8380417 == 0);
    assert(zeta_sq_ok(19));
    assert(ZETAS[20] == -549488 && ZETAS[10] == -359251);
    assert((-549488int * -549488int - -359251int * 4193792) % 8380417 == 0);
    assert(zeta_sq_ok(20));
    assert(ZETAS[21] == -1119584 && ZETAS[10] == -359251);
    assert((-1119584int * -1119584int + -359251int * 4193792) % 8380417 == 0);
    assert(zeta_sq_ok(21));
    assert(ZETAS[22] == 2619752 && ZETAS[11] == -2091905);
    assert((2619752int * 2619752int - -2091905int * 4193792) % 8380417 == 0);
    assert(zeta_sq_ok(22));
    assert(ZETAS[23] == -2108549 && ZETAS[11] == -2091905);
    assert((-2108549int * -2108549int + -2091905int * 4193792) % 8380417 == 0);
    assert(zeta_sq_ok(23));
    assert(ZETAS[24] == -2118186 && ZETAS[12] == 3119733);
    assert((-2118186int * -2118186int - 3119733int * 4193792) % 8380417 == 0);
    assert(zeta_sq_ok(24));
    assert(ZETAS[25] == -3859737 && ZETAS[12] == 3119733);
    assert((-3859737int * -3859737int + 3119733int * 4193792) % 8380417 == 0);
    assert(zeta_sq_ok(25));
    assert(ZETAS[26] == -1399561 && ZETAS[13] == -2884855);
    assert((-1399561int * -1399561int - -2884855int * 4193792) % 8380417 == 0);
    assert(zeta_sq_ok(26));
    assert(ZETAS[27] == -3277672 && ZETAS[13] == -2884855);
    assert((-3277672int * -3277672int + -2884855int * 4193792) % 8380417 == 0);
    assert(zeta_sq_ok(27));
    assert(ZETAS[28] == 1757237 && ZETAS[14] == 3111497);
    assert((1757237int * 1757237int - 3111497int * 4193792) % 8380417 == 0);
    assert(zeta_sq_ok(28));
    assert(ZETAS[29] == -19422 && ZETAS[14] == 3111497);
    assert((-19422int * -19422int + 3111497int * 4193792) % 8380417 == 0);
    assert(zeta_sq_ok(29));
    assert(ZETAS[30] == 4010497 && ZETAS[15] == 2680103);
    assert((4010497int * 4010497int - 2680103int * 4193792) % 8380417 == 0);
    assert(zeta_sq_ok(30));
    assert(ZETAS[31] == 280005 && ZETAS[15] == 2680103);
    assert((280005int * 280005int + 2680103int * 4193792) % 8380417 == 0);
    assert(zeta_sq_ok(31));
    assert(ZETAS[32] == 2706023 && ZETAS[16] == 2725464);
    assert((2706023int * 2706023int - 2725464int * 4193792) % 8380417 == 0);
    assert(zeta_sq_ok(32));
    assert(ZETAS[33] == 95776 && ZETAS[16] == 2725464);
    assert((95776int * 95776int + 2725464int * 4193792) % 8380417 == 0);
    assert(zeta_sq_ok(33));
    assert forall|k: int| 18 <= k < 34 implies #[trigger] zeta_sq_ok(k) by {
        if k == 18 {} else if k == 19 {} else if k == 20 {} else if k == 21 {} else if k == 22 {} else if k == 23 {} else if k == 24 {} else if k == 25 {} else if k == 26 {} else if k == 27 {} else if k == 28 {} else if k == 29 {} else if k == 30 {} else if k == 31 {} else if k == 32 {} else {
            assert(k == 33);
        }
    }
}

#[verifier::rlimit(50)]
proof fn lemma_zeta_sq_from_34()
    ensures
        forall|k: int| 34 <= k < 50 ==> #[trigger] zeta_sq_ok(k),
{
    assert(ZETAS[34] == 3077325 && ZETAS[17] == 1024112);
    assert((3077325int * 3077325int - 1024112int * 4193792) % 8380417 == 0);
    assert(zeta_sq_ok(34));
    assert(ZETAS[35] == 3530437 && ZETAS[17] == 1024112);
    assert((3530437int * 3530437int + 1024112int * 4193792) % 8380417 == 0);
    assert(zeta_sq_ok(35));
    assert(ZETAS[36] == -1661693 && ZETAS[18] == -1079900);
    assert((-1661693int * -1661693int - -1079900int * 4193792) % 8380417 == 0);
    assert(zeta_sq_ok(36));
    assert(ZETAS[37] == -3592148 && ZETAS[18] == -1079900);
    assert((-3592148int * -3592148int + -1079900int * 4193792) % 8380417 == 0);
    assert(zeta_sq_ok(37));
    assert(ZETAS[38] == -2537516 && ZETAS[19] == 3585928);
    assert((-2537516int * -2537516int - 3585928int * 4193792) % 8380417 == 0);
    assert(zeta_sq_ok(38));
    assert(ZETAS[39] == 3915439 && ZETAS[19] == 3585928);
    assert((3915439int * 3915439int + 3585928int * 4193792) % 8380417 == 0);
    assert(zeta_sq_ok(39));
    assert(ZETAS[40] == -3861115 && ZETAS[20] == -549488);
    assert((-3861115int * -3861115int - -549488int * 4193792) % 8380417 == 0);
    assert(zeta_sq_ok(40));
    assert(ZETAS[41] == -3043716 && ZETAS[20] == -549488);
    assert((-3043716int * -3043716int + -549488int * 4193792) % 8380417 == 0);
    assert(zeta_sq_ok(41));
    assert(ZETAS[42] == 3574422 && ZETAS[21] == -1119584);
    assert((3574422int * 3574422int - -1119584int * 4193792) % 8380417 == 0);
    assert(zeta_sq_ok(42));
    assert(ZETAS[43] == -2867647 && ZETAS[21] == -1119584);
    assert((-2867647int * -2867647int + -1119584int * 4193792) % 8380417 == 0);
    assert(zeta_sq_ok(43));
    assert(ZETAS[44] == 3539968 && ZETAS[22] == 2619752);
    assert((3539968int * 3539968int - 2619752int * 4193792) % 8380417 == 0);
    assert(zeta_sq_ok(44));
    assert(ZETAS[45] == -300467 && ZETAS[22] == 2619752);
    assert((-300467int * -300467int + 2619752int * 4193792) % 8380417 == 0);
    assert(zeta_sq_ok(45));
    assert(ZETAS[46] == 2348700 && ZETAS[23] == -2108549);
    assert((2348700int * 2348700int - -2108549int * 4193792) % 8380417 == 0);
    assert(zeta_sq_ok(46));
    assert(ZETAS[47] == -539299 && ZETAS[23] == -2108549);
    assert((-539299int * -539299int + -2108549int * 4193792) % 8380417 == 0);
    assert(zeta_sq_ok(47));
    assert(ZETAS[48] == -1699267 && ZETAS[24] == -2118186);
    assert((-1699267int * -1699267int - -2118186int * 4193792) % 8380417 == 0);
    assert(zeta_sq_ok(48));
    assert(ZETAS[49] == -1643818 && ZETAS[24] == -2118186);
    assert((-1643818int * -1643818int + -2118186int * 4193792) % 8380417 == 0);
    assert(zeta_sq_ok(49));
    assert forall|k: int| 34 <= k < 50 implies #[trigger] zeta_sq_ok(k) by {
        if k == 34 {} else if k == 35 {} else if k == 36 {} else if k == 37 {} else if k == 38 {} else if k == 39 {} else if k == 40 {} else if k == 41 {} else if k == 42 {} else if k == 43 {} else if k == 44 {} else if k == 45 {} else if k == 46 {} else if k == 47 {} else if k == 48 {} else {
            assert(k == 49);
        }
    }
}

#[verifier::rlimit(50)]
proof fn lemma_zeta_sq_from_50()
    ensures
        forall|k: int| 50 <= k < 66 ==> #[trigger] zeta_sq_ok(k),
{
    assert(ZETAS[50] == 3505694 && ZETAS[25] == -3859737);
    assert((3505694int * 3505694int - -3859737int * 4193792) % 8380417 == 0);
    assert(zeta_sq_ok(50));
    assert(ZETAS[51] == -3821735 && ZETAS[25] == -3859737);
    assert((-3821735int * -3821735int + -3859737int * 4193792) % 8380417 == 0);
    assert(zeta_sq_ok(51));
    assert(ZETAS[52] == 3507263 && ZETAS[26] == -1399561);
    assert((3507263int * 3507263int - -1399561int * 4193792) % 8380417 == 0);
    assert(zeta_sq_ok(52));
    assert(ZETAS[53] == -2140649 && ZETAS[26] == -1399561);
    assert((-2140649int * -2140649int + -1399561int * 4193792) % 8380417 == 0);
    assert(zeta_sq_ok(53));
    assert(ZETAS[54] == -1600420 && ZETAS[27] == -3277672);
    assert((-1600420int * -1600420int - -3277672int * 4193792) % 8380417 == 0);
    assert(zeta_sq_ok(54));
    assert(ZETAS[55] == 3699596 && ZETAS[27] == -3277672);
    assert((3699596int * 3699596int + -3277672int * 4193792) % 8380417 == 0);
    assert(zeta_sq_ok(55));
    assert(ZETAS[56] == 811944 && ZETAS[28] == 1757237);
    assert((811944int * 811944int - 1757237int * 4193792) % 8380417 == 0);
    assert(zeta_sq_ok(56));
    assert(ZETAS[57] == 531354 && ZETAS[28] == 1757237);
    assert((531354int * 531354int + 1757237int * 4193792) % 8380417 == 0);
    assert(zeta_sq_ok(57));
    assert(ZETAS[58] == 954230 && ZETAS[29] == -19422);
    assert((954230int * 954230int - -19422int * 4193792) % 8380417 == 0);
    assert(zeta_sq_ok(58));
    assert(ZETAS[59] == 3881043 && ZETAS[29] == -19422);
    assert((3881043int * 3881043int + -19422int * 4193792) % 8380417 == 0);
    assert(zeta_sq_ok(59));
    assert(ZETAS[60] == 3900724 && ZETAS[30] == 4010497);
    assert((3900724int * 3900724int - 4010497int * 4193792) % 8380417 == 0);
    assert(zeta_sq_ok(60));
    assert(ZETAS[61] == -2556880 && ZETAS[30] == 4010497);
    assert((-2556880int * -2556880int + 4010497int * 4193792) % 8380417 == 0);
    assert(zeta_sq_ok(61));
    assert(ZETAS[62] == 2071892 && ZETAS[31] == 280005);
    assert((2071892int * 2071892int - 280005int * 4193792) % 8380417 == 0);
    assert(zeta_sq_ok(62));
    assert(ZETAS[63] == -2797779 && ZETAS[31] == 280005);
    assert((-2797779int * -2797779int + 280005int * 4193792) % 8380417 == 0);
    assert(zeta_sq_ok(63));
    assert(ZETAS[64] == -3930395 && ZETAS[32] == 2706023);
    assert((-3930395int * -3930395int - 2706023int * 4193792) % 8380417 == 0);
    assert(zeta_sq_ok(64));
    assert(ZETAS[65] == -1528703 && ZETAS[32] == 2706023);
    assert((-1528703int * -1528703int + 2706023int * 4193792) % 8380417 == 0);
    assert(zeta_sq_ok(65));
    assert forall|k: int| 50 <= k < 66 implies #[trigger] zeta_sq_ok(k) by {
        if k == 50 {} else if k == 51 {} else if k == 52 {} else if k == 53 {} else if k == 54 {} else if k == 55 {} else if k == 56 {} else if k == 57 {} else if k == 58 {} else if k == 59 {} else if k == 60 {} else if k == 61 {} else if k == 62 {} else if k == 63 {} else if k == 64 {} else {
            assert(k == 65);
        }
    }
}

#[verifier::rlimit(50)]
proof fn lemma_zeta_sq_from_66()
    ensures
        forall|k: int| 66 <= k < 82 ==> #[trigger] zeta_sq_ok(k),
{
    assert(ZETAS[66] == -3677745 && ZETAS[33] == 95776);
    assert((-3677745int * -3677745int - 95776int * 4193792) % 8380417 == 0);
    assert(zeta_sq_ok(66));
    assert(ZETAS[67] == -3041255 && ZETAS[33] == 95776);
    assert((-3041255int * -3041255int + 95776int * 4193792) % 8380417 == 0);
    assert(zeta_sq_ok(67));
    assert(ZETAS[68] == -1452451 && ZETAS[34] == 3077325);
    assert((-1452451int * -1452451int - 3077325int * 4193792) % 8380417 == 0);
    assert(zeta_sq_ok(68));
    assert(ZETAS[69] == 3475950 && ZETAS[34] == 3077325);
    assert((3475950int * 3475950int + 3077325int * 4193792) % 8380417 == 0);
    assert(zeta_sq_ok(69));
    assert(ZETAS[70] == 2176455 && ZETAS[35] == 3530437);
    assert((2176455int * 2176455int - 3530437int * 4193792) % 8380417 == 0);
    assert(zeta_sq_ok(70));
    assert(ZETAS[71] == -1585221 && ZETAS[35] == 3530437);
    assert((-1585221int * -1585221int + 3530437int * 4193792) % 8380417 == 0);
    assert(zeta_sq_ok(71));
    assert(ZETAS[72] == -1257611 && ZETAS[36] == -1661693);
    assert((-1257611int * -1257611int - -1661693int * 4193792) % 8380417 == 0);
    assert(zeta_sq_ok(72));
    assert(ZETAS[73] == 1939314 && ZETAS[36] == -1661693);
    assert((1939314int * 1939314int + -1661693int * 4193792) % 8380417 == 0);
    assert(zeta_sq_ok(73));
    assert(ZETAS[74] == -4083598 && ZETAS[37] == -3592148);
    assert((-4083598int * -4083598int - -3592148int * 4193792) % 8380417 == 0);
    assert(zeta_sq_ok(74));
    assert(ZETAS[75] == -1000202 && ZETAS[37] == -3592148);
    assert((-1000202int * -1000202int + -3592148int * 4193792) % 8380417 == 0);
    assert(zeta_sq_ok(75));
    assert(ZETAS[76] == -3190144 && ZETAS[38] == -2537516);
    assert((-3190144int * -3190144int - -2537516int * 4193792) % 8380417 == 0);
    assert(zeta_sq_ok(76));
    assert(ZETAS[77] == -3157330 && ZETAS[38] == -2537516);
    assert((-3157330int * -3157330int + -2537516int * 4193792) % 8380417 == 0);
    assert(zeta_sq_ok(77));
    assert(ZETAS[78] == -3632928 && ZETAS[39] == 3915439);
    assert((-3632928int * -3632928int - 3915439int * 4193792) % 8380417 == 0);
    assert(zeta_sq_ok(78));
    assert(ZETAS[79] == 126922 && ZETAS[39] == 3915439);
    assert((126922int * 126922int + 3915439int * 4193792) % 8380417 == 0);
    assert(zeta_sq_ok(79));
    assert(ZETAS[80] == 3412210 && ZETAS[40] == -3861115);
    assert((3412210int * 3412210int - -3861115int * 4193792) % 8380417 == 0);
    assert(zeta_sq_ok(80));
    assert(ZETAS[81] == -983419 && ZETAS[40] == -3861115);
    assert((-983419int * -983419int + -3861115int * 4193792) % 8380417 == 0);
    assert(zeta_sq_ok(81));
    assert forall|k: int| 66 <= k < 82 implies #[trigger] zeta_sq_ok(k) by {
        if k == 66 {} else if k == 67 {} else if k == 68 {} else if k == 69 {} else if k == 70 {} else if k == 71 {} else if k == 72 {} else if k == 73 {} else if k == 74 {} else if k == 75 {} else if k == 76 {} else if k == 77 {} else if k == 78 {} else if k == 79 {} else if k == 80 {} else {
            assert(k == 81);
        }
    }
}

#[verifier::rlimit(50)]
proof fn lemma_zeta_sq_from_82()
    ensures
        forall|k: int| 82 <= k < 98 ==> #[trigger] zeta_sq_ok(k),
{
    assert(ZETAS[82] == 2147896 && ZETAS[41] == -3043716);
    assert((2147896int * 2147896int - -3043716int * 4193792) % 8380417 == 0);
    assert(zeta_sq_ok(82));
    assert(ZETAS[83] == 2715295 && ZETAS[41] == -3043716);
    assert((2715295int * 2715295int + -3043716int * 4193792) % 8380417 == 0);
    assert(zeta_sq_ok(83));
    assert(ZETAS[84] == -2967645 && ZETAS[42] == 3574422);
    assert((-2967645int * -2967645int - 3574422int * 4193792) % 8380417 == 0);
    assert(zeta_sq_ok(84));
    assert(ZETAS[85] == -3693493 && ZETAS[42] == 3574422);
    assert((-3693493int * -3693493int + 3574422int * 4193792) % 8380417 == 0);
    assert(zeta_sq_ok(85));
    assert(ZETAS[86] == -411027 && ZETAS[43] == -2867647);
    assert((-411027int * -411027int - -2867647int * 4193792) % 8380417 == 0);
    assert(zeta_sq_ok(86));
    assert(ZETAS[87] == -2477047 && ZETAS[43] == -2867647);
    assert((-2477047int * -2477047int + -2867647int * 4193792) % 8380417 == 0);
    assert(zeta_sq_ok(87));
    assert(ZETAS[88] == -671102 && ZETAS[44] == 3539968);
    assert((-671102int * -671102int - 3539968int * 4193792) % 8380417 == 0);
    assert(zeta_sq_ok(88));
    assert(ZETAS[89] == -1228525 && ZETAS[44] == 3539968);
    assert((-1228525int * -1228525int + 3539968int * 4193792) % 8380417 == 0);
    assert(zeta_sq_ok(89));
    assert(ZETAS[90] == -22981 && ZETAS[45] == -300467);
    assert((-22981int * -22981int - -300467int * 4193792) % 8380417 == 0);
    assert(zeta_sq_ok(90));
    assert(ZETAS[91] == -1308169 && ZETAS[45] == -300467);
    assert((-1308169int * -1308169int + -300467int * 4193792) % 8380417 == 0);
    assert(zeta_sq_ok(91));
    assert(ZETAS[92] == -381987 && ZETAS[46] == 2348700);
    assert((-381987int * -381987int - 2348700int * 4193792) % 8380417 == 0);
    assert(zeta_sq_ok(92));
    assert(ZETAS[93] == 1349076 && ZETAS[46] == 2348700);
    assert((1349076int * 1349076int + 2348700int * 4193792) % 8380417 == 0);
    assert(zeta_sq_ok(93));
    assert(ZETAS[94] == 1852771 && ZETAS[47] == -539299);
    assert((1852771int * 1852771int - -539299int * 4193792) % 8380417 == 0);
    assert(zeta_sq_ok(94));
    assert(ZETAS[95] == -1430430 && ZETAS[47] == -539299);
    assert((-1430430int * -1430430int + -539299int * 4193792) % 8380417 == 0);
    assert(zeta_sq_ok(95));
    assert(ZETAS[96] == -3343383 && ZETAS[48] == -1699267);
    assert((-3343383int * -3343383int - -1699267int * 4193792) % 8380417 == 0);
    assert(zeta_sq_ok(96));
    assert(ZETAS[97] == 264944 && ZETAS[48] == -1699267);
    assert((264944int * 264944int + -1699267int * 4193792) % 8380417 == 0);
    assert(zeta_sq_ok(97));
    assert forall|k: int| 82 <= k < 98 implies #[trigger] zeta_sq_ok(k) by {
        if k == 82 {} else if k == 83 {} else if k == 84 {} else if k == 85 {} else if k == 86 {} else if k == 87 {} else if k == 88 {} else if k == 89 {} else if k == 90 {} else if k == 91 {} else if k == 92 {} else if k == 93 {} else if k == 94 {} else if k == 95 {} else if k == 96 {} else {
            assert(k == 97);
        }
    }
}

#[verifier::rlimit(50)]
proof fn lemma_zeta_sq_from_98()
    ensures
        forall|k: int| 98 <= k < 114 ==> #[trigger] zeta_sq_ok(k),
{
    assert(ZETAS[98] == 508951 && ZETAS[49] == -1643818);
    assert((508951int * 508951int - -1643818int * 4193792) % 8380417 == 0);
    assert(zeta_sq_ok(98));
    assert(ZETAS[99] == 3097992 && ZETAS[49] == -1643818);
    assert((3097992int * 3097992int + -1643818int * 4193792) % 8380417 == 0);
    assert(zeta_sq_ok(99));
    assert(ZETAS[100] == 44288 && ZETAS[50] == 3505694);
    assert((44288int * 44288int - 3505694int * 4193792) % 8380417 == 0);
    assert(zeta_sq_ok(100));
    assert(ZETAS[101] == -1100098 && ZETAS[50] == 3505694);
    assert((-1100098int * -1100098int + 3505694int * 4193792) % 8380417 == 0);
    assert(zeta_sq_ok(101));
    assert(ZETAS[102] == 904516 && ZETAS[51] == -3821735);
    assert((904516int * 904516int - -3821735int * 4193792) % 8380417 == 0);
    assert(zeta_sq_ok(102));
    assert(ZETAS[103] == 3958618 && ZETAS[51] == -3821735);
    assert((3958618int * 3958618int + -3821735int * 4193792) % 8380417 == 0);
    assert(zeta_sq_ok(103));
    assert(ZETAS[104] == -3724342 && ZETAS[52] == 3507263);
    assert((-3724342int * -3724342int - 3507263int * 4193792) % 8380417 == 0);
    assert(zeta_sq_ok(104));
    assert(ZETAS[105] == -8578 && ZETAS[52] == 3507263);
    assert((-8578int * -8578int + 3507263int * 4193792) % 8380417 == 0);
    assert(zeta_sq_ok(105));
    assert(ZETAS[106] == 1653064 && ZETAS[53] == -2140649);
    assert((1653064int * 1653064int - -2140649int * 4193792) % 8380417 == 0);
    assert(zeta_sq_ok(106));
    assert(ZETAS[107] == -3249728 && ZETAS[53] == -2140649);
    assert((-3249728int * -3249728int + -2140649int * 4193792) % 8380417 == 0);
    assert(zeta_sq_ok(107));
    assert(ZETAS[108] == 2389356 && ZETAS[54] == -1600420);
    assert((2389356int * 2389356int - -1600420int * 4193792) % 8380417 == 0);
    assert(zeta_sq_ok(108));
    assert(ZETAS[109] == -210977 && ZETAS[54] == -1600420);
    assert((-210977int * -210977int + -1600420int * 4193792) % 8380417 == 0);
    assert(zeta_sq_ok(109));
    assert(ZETAS[110] == 759969 && ZETAS[55] == 3699596);
    assert((759969int * 759969int - 3699596int * 4193792) % 8380417 == 0);
    assert(zeta_sq_ok(110));
    assert(ZETAS[111] == -1316856 && ZETAS[55] == 3699596);
    assert((-1316856int * -1316856int + 3699596int * 4193792) % 8380417 == 0);
    assert(zeta_sq_ok(111));
    assert(ZETAS[112] == 189548 && ZETAS[56] == 811944);
    assert((189548int * 189548int - 811944int * 4193792) % 8380417 == 0);
    assert(zeta_sq_ok(112));
    assert(ZETAS[113] == -3553272 && ZETAS[56] == 811944);
    assert((-3553272int * -3553272int + 811944int * 4193792) % 8380417 == 0);
    assert(zeta_sq_ok(113));
    assert forall|k: int| 98 <= k < 114 implies #[trigger] zeta_sq_ok(k) by {
        if k == 98 {} else if k == 99 {} else if k == 100 {} else if k == 101 {} else if k == 102 {} else if k == 103 {} else if k == 104 {} else if k == 105 {} else if k == 106 {} else if k == 107 {} else if k == 108 {} else if k == 109 {} else if k == 110 {} else if k == 111 {} else if k == 112 {} else {
            assert(k == 113);
        }
    }
}

#[verifier::rlimit(50)]
proof fn lemma_zeta_sq_from_114()
    ensures
        forall|k: int| 114 <= k < 130 ==> #[trigger] zeta_sq_ok(k),
{
    assert(ZETAS[114] == 3159746 && ZETAS[57] == 531354);
    assert((3159746int * 3159746int - 531354int * 4193792) % 8380417 == 0);
    assert(zeta_sq_ok(114));
    assert(ZETAS[115] == -1851402 && ZETAS[57] == 531354);
    assert((-1851402int * -1851402int + 531354int * 4193792) % 8380417 == 0);
    assert(zeta_sq_ok(115));
    assert(ZETAS[116] == -2409325 && ZETAS[58] == 954230);
    assert((-2409325int * -2409325int - 954230int * 4193792) % 8380417 == 0);
    assert(zeta_sq_ok(116));
    assert(ZETAS[117] == -177440 && ZETAS[58] == 954230);
    assert((-177440int * -177440int + 954230int * 4193792) % 8380417 == 0);
    assert(zeta_sq_ok(117));
    assert(ZETAS[118] == 1315589 && ZETAS[59] == 3881043);
    assert((1315589int * 1315589int - 3881043int * 4193792) % 8380417 == 0);
    assert(zeta_sq_ok(118));
    assert(ZETAS[119] == 1341330 && ZETAS[59] == 3881043);
    assert((1341330int * 1341330int + 3881043int * 4193792) % 8380417 == 0);
    assert(zeta_sq_ok(119));
    assert(ZETAS[120] == 1285669 && ZETAS[60] == 3900724);
    assert((1285669int * 1285669int - 3900724int * 4193792) % 8380417 == 0);
    assert(zeta_sq_ok(120));
    assert(ZETAS[121] == -1584928 && ZETAS[60] == 3900724);
    assert((-1584928int * -1584928int + 3900724int * 4193792) % 8380417 == 0);
    assert(zeta_sq_ok(121));
    assert(ZETAS[122] == -812732 && ZETAS[61] == -2556880);
    assert((-812732int * -812732int - -2556880int * 4193792) % 8380417 == 0);
    assert(zeta_sq_ok(122));
    assert(ZETAS[123] == -1439742 && ZETAS[61] == -2556880);
    assert((-1439742int * -1439742int + -2556880int * 4193792) % 8380417 == 0);
    assert(zeta_sq_ok(123));
    assert(ZETAS[124] == -3019102 && ZETAS[62] == 2071892);
    assert((-3019102int * -3019102int - 2071892int * 4193792) % 8380417 == 0);
    assert(zeta_sq_ok(124));
    assert(ZETAS[125] == -3881060 && ZETAS[62] == 2071892);
    assert((-3881060int * -3881060int + 2071892int * 4193792) % 8380417 == 0);
    assert(zeta_sq_ok(125));
    assert(ZETAS[126] == -3628969 && ZETAS[63] == -2797779);
    assert((-3628969int * -3628969int - -2797779int * 4193792) % 8380417 == 0);
    assert(zeta_sq_ok(126));
    assert(ZETAS[127] == 3839961 && ZETAS[63] == -2797779);
    assert((3839961int * 3839961int + -2797779int * 4193792) % 8380417 == 0);
    assert(zeta_sq_ok(127));
    assert(ZETAS[128] == 2091667 && ZETAS[64] == -3930395);
    assert((2091667int * 2091667int - -3930395int * 4193792) % 8380417 == 0);
    assert(zeta_sq_ok(128));
    assert(ZETAS[129] == 3407706 && ZETAS[64] == -3930395);
    assert((3407706int * 3407706int + -3930395int * 4193792) % 8380417 == 0);
    assert(zeta_sq_ok(129));
    assert forall|k: int| 114 <= k < 130 implies #[trigger] zeta_sq_ok(k) by {
        if k == 114 {} else if k == 115 {} else if k == 116 {} else if k == 117 {} else if k == 118 {} else if k == 119 {} else if k == 120 {} else if k == 121 {} else if k == 122 {} else if k == 123 {} else if k == 124 {} else if k == 125 {} else if k == 126 {} else if k == 127 {} else if k == 128 {} else {
            assert(k == 129);
        }
    }
}

#[verifier::rlimit(50)]
proof fn lemma_zeta_sq_from_130()
    ensures
        forall|k: int| 130 <= k < 146 ==> #[trigger] zeta_sq_ok(k),
{
    assert(ZETAS[130] == 2316500 && ZETAS[65] == -1528703);
    assert((2316500int * 2316500int - -1528703int * 4193792) % 8380417 == 0);
    assert(zeta_sq_ok(130));
    assert(ZETAS[131] == 3817976 && ZETAS[65] == -1528703);
    assert((3817976int * 3817976int + -1528703int * 4193792) % 8380417 == 0);
    assert(zeta_sq_ok(131));
    assert(ZETAS[132] == -3342478 && ZETAS[66] == -3677745);
    assert((-3342478int * -3342478int - -3677745int * 4193792) % 8380417 == 0);
    assert(zeta_sq_ok(132));
    assert(ZETAS[133] == 2244091 && ZETAS[66] == -3677745);
    assert((2244091int * 2244091int + -3677745int * 4193792) % 8380417 == 0);
    assert(zeta_sq_ok(133));
    assert(ZETAS[134] == -2446433 && ZETAS[67] == -3041255);
    assert((-2446433int * -2446433int - -3041255int * 4193792) % 8380417 == 0);
    assert(zeta_sq_ok(134));
    assert(ZETAS[135] == -3562462 && ZETAS[67] == -3041255);
    assert((-3562462int * -3562462int + -3041255int * 4193792) % 8380417 == 0);
    assert(zeta_sq_ok(135));
    assert(ZETAS[136] == 266997 && ZETAS[68] == -1452451);
    assert((266997int * 266997int - -1452451int * 4193792) % 8380417 == 0);
    assert(zeta_sq_ok(136));
    assert(ZETAS[137] == 2434439 && ZETAS[68] == -1452451);
    assert((2434439int * 2434439int + -1452451int * 4193792) % 8380417 == 0);
    assert(zeta_sq_ok(137));
    assert(ZETAS[138] == -1235728 && ZETAS[69] == 3475950);
    assert((-1235728int * -1235728int - 3475950int * 4193792) % 8380417 == 0);
    assert(zeta_sq_ok(138));
    assert(ZETAS[139] == 3513181 && ZETAS[69] == 3475950);
    assert((3513181int * 3513181int + 3475950int * 4193792) % 8380417 == 0);
    assert(zeta_sq_ok(139));
    assert(ZETAS[140] == -3520352 && ZETAS[70] == 2176455);
    assert((-3520352int * -3520352int - 2176455int * 4193792) % 8380417 == 0);
    assert(zeta_sq_ok(140));
    assert(ZETAS[141] == -3759364 && ZETAS[70] == 2176455);
    assert((-3759364int * -3759364int + 2176455int * 4193792) % 8380417 == 0);
    assert(zeta_sq_ok(141));
    assert(ZETAS[142] == -1197226 && ZETAS[71] == -1585221);
    assert((-1197226int * -1197226int - -1585221int * 4193792) % 8380417 == 0);
    assert(zeta_sq_ok(142));
    assert(ZETAS[143] == -3193378 && ZETAS[71] == -1585221);
    assert((-3193378int * -3193378int + -1585221int * 4193792) % 8380417 == 0);
    assert(zeta_sq_ok(143));
    assert(ZETAS[144] == 900702 && ZETAS[72] == -1257611);
    assert((900702int * 900702int - -1257611int * 4193792) % 8380417 == 0);
    assert(zeta_sq_ok(144));
    assert(ZETAS[145] == 1859098 && ZETAS[72] == -1257611);
    assert((1859098int * 1859098int + -1257611int * 4193792) % 8380417 == 0);
    assert(zeta_sq_ok(145));
    assert forall|k: int| 130 <= k < 146 implies #[trigger] zeta_sq_ok(k) by {
        if k == 130 {} else if k == 131 {} else if k == 132 {} else if k == 133 {} else if k == 134 {} else if k == 135 {} else if k == 136 {} else if k == 137 {} else if k == 138 {} else if k == 139 {} else if k == 140 {} else if k == 141 {} else if k == 142 {} else if k == 143 {} else if k == 144 {} else {
            assert(k == 145);
        }
    }
}

#[verifier::rlimit(50)]
proof fn lemma_zeta_sq_from_146()
    ensures
        forall|k: int| 146 <= k < 162 ==> #[trigger] zeta_sq_ok(k),
{
    assert(ZETAS[146] == 909542 && ZETAS[73] == 1939314);
    assert((909542int * 909542int - 1939314int * 4193792) % 8380417 == 0);
    assert(zeta_sq_ok(146));
    assert(ZETAS[147] == 819034 && ZETAS[73] == 1939314);
    assert((819034int * 819034int + 1939314int * 4193792) % 8380417 == 0);
    assert(zeta_sq_ok(147));
    assert(ZETAS[148] == 495491 && ZETAS[74] == -4083598);
    assert((495491int * 495491int - -4083598int * 4193792) % 8380417 == 0);
    assert(zeta_sq_ok(148));
    assert(ZETAS[149] == -1613174 && ZETAS[74] == -4083598);
    assert((-1613174int * -1613174int + -4083598int * 4193792) % 8380417 == 0);
    assert(zeta_sq_ok(149));
    assert(ZETAS[150] == -43260 && ZETAS[75] == -1000202);
    assert((-43260int * -43260int - -1000202int * 4193792) % 8380417 == 0);
    assert(zeta_sq_ok(150));
    assert(ZETAS[151] == -522500 && ZETAS[75] == -1000202);
    assert((-522500int * -522500int + -1000202int * 4193792) % 8380417 == 0);
    assert(zeta_sq_ok(151));
    assert(ZETAS[152] == -655327 && ZETAS[76] == -3190144);
    assert((-655327int * -655327int - -3190144int * 4193792) % 8380417 == 0);
    assert(zeta_sq_ok(152));
    assert(ZETAS[153] == -3122442 && ZETAS[76] == -3190144);
    assert((-3122442int * -3122442int + -3190144int * 4193792) % 8380417 == 0);
    assert(zeta_sq_ok(153));
    assert(ZETAS[154] == 2031748 && ZETAS[77] == -3157330);
    assert((2031748int * 2031748int - -3157330int * 4193792) % 8380417 == 0);
    assert(zeta_sq_ok(154));
    assert(ZETAS[155] == 3207046 && ZETAS[77] == -3157330);
    assert((3207046int * 3207046int + -3157330int * 4193792) % 8380417 == 0);
    assert(zeta_sq_ok(155));
    assert(ZETAS[156] == -3556995 && ZETAS[78] == -3632928);
    assert((-3556995int * -3556995int - -3632928int * 4193792) % 8380417 == 0);
    assert(zeta_sq_ok(156));
    assert(ZETAS[157] == -525098 && ZETAS[78] == -3632928);
    assert((-525098int * -525098int + -3632928int * 4193792) % 8380417 == 0);
    assert(zeta_sq_ok(157));
    assert(ZETAS[158] == -768622 && ZETAS[79] == 126922);
    assert((-768622int * -768622int - 126922int * 4193792) % 8380417 == 0);
    assert(zeta_sq_ok(158));
    assert(ZETAS[159] == -3595838 && ZETAS[79] == 126922);
    assert((-3595838int * -3595838int + 126922int * 4193792) % 8380417 == 0);
    assert(zeta_sq_ok(159));
    assert(ZETAS[160] == 342297 && ZETAS[80] == 3412210);
    assert((342297int * 342297int - 3412210int * 4193792) % 8380417 == 0);
    assert(zeta_sq_ok(160));
    assert(ZETAS[161] == 286988 && ZETAS[80] == 3412210);
    assert((286988int * 286988int + 3412210int * 4193792) % 8380417 == 0);
    assert(zeta_sq_ok(161));
    assert forall|k: int| 146 <= k < 162 implies #[trigger] zeta_sq_ok(k) by {
        if k == 146 {} else if k == 147 {} else if k == 148 {} else if k == 149 {} else if k == 150 {} else if k == 151 {} else if k == 152 {} else if k == 153 {} else if k == 154 {} else if k == 155 {} else if k == 156 {} else if k == 157 {} else if k == 158 {} else if k == 159 {} else if k == 160 {} else {
            assert(k == 161);
        }
    }
}

#[verifier::rlimit(50)]
proof fn lemma_zeta_sq_from_162()
    ensures
        forall|k: int| 162 <= k < 178 ==> #[trigger] zeta_sq_ok(k),
{
    assert(ZETAS[162] == -2437823 && ZETAS[81] == -983419);
    assert((-2437823int * -2437823int - -983419int * 4193792) % 8380417 == 0);
    assert(zeta_sq_ok(162));
    assert(ZETAS[163] == 4108315 && ZETAS[81] == -983419);
    assert((4108315int * 4108315int + -983419int * 4193792) % 8380417 == 0);
    assert(zeta_sq_ok(163));
    assert(ZETAS[164] == 3437287 && ZETAS[82] == 2147896);
    assert((3437287int * 3437287int - 2147896int * 4193792) % 8380417 == 0);
    assert(zeta_sq_ok(164));
    assert(ZETAS[165] == -3342277 && ZETAS[82] == 2147896);
    assert((-3342277int * -3342277int + 2147896int * 4193792) % 8380417 == 0);
    assert(zeta_sq_ok(165));
    assert(ZETAS[166] == 1735879 && ZETAS[83] == 2715295);
    assert((1735879int * 1735879int - 2715295int * 4193792) % 8380417 == 0);
    assert(zeta_sq_ok(166));
    assert(ZETAS[167] == 203044 && ZETAS[83] == 2715295);
    assert((203044int * 203044int + 2715295int * 4193792) % 8380417 == 0);
    assert(zeta_sq_ok(167));
    assert(ZETAS[168] == 2842341 && ZETAS[84] == -2967645);
    assert((2842341int * 2842341int - -2967645int * 4193792) % 8380417 == 0);
    assert(zeta_sq_ok(168));
    assert(ZETAS[169] == 2691481 && ZETAS[84] == -2967645);
    assert((2691481int * 2691481int + -2967645int * 4193792) % 8380417 == 0);
    assert(zeta_sq_ok(169));
    assert(ZETAS[170] == -2590150 && ZETAS[85] == -3693493);
    assert((-2590150int * -2590150int - -3693493int * 4193792) % 8380417 == 0);
    assert(zeta_sq_ok(170));
    assert(ZETAS[171] == 1265009 && ZETAS[85] == -3693493);
    assert((1265009int * 1265009int + -3693493int * 4193792) % 8380417 == 0);
    assert(zeta_sq_ok(171));
    assert(ZETAS[172] == 4055324 && ZETAS[86] == -411027);
    assert((4055324int * 4055324int - -411027int * 4193792) % 8380417 == 0);
    assert(zeta_sq_ok(172));
    assert(ZETAS[173] == 1247620 && ZETAS[86] == -411027);
    assert((1247620int * 1247620int + -411027int * 4193792) % 8380417 == 0);
    assert(zeta_sq_ok(173));
    assert(ZETAS[174] == 2486353 && ZETAS[87] == -2477047);
    assert((2486353int * 2486353int - -2477047int * 4193792) % 8380417 == 0);
    assert(zeta_sq_ok(174));
    assert(ZETAS[175] == 1595974 && ZETAS[87] == -2477047);
    assert((1595974int * 1595974int + -2477047int * 4193792) % 8380417 == 0);
    assert(zeta_sq_ok(175));
    assert(ZETAS[176] == -3767016 && ZETAS[88] == -671102);
    assert((-3767016int * -3767016int - -671102int * 4193792) % 8380417 == 0);
    assert(zeta_sq_ok(176));
    assert(ZETAS[177] == 1250494 && ZETAS[88] == -671102);
    assert((1250494int * 1250494int + -671102int * 4193792) % 8380417 == 0);
    assert(zeta_sq_ok(177));
    assert forall|k: int| 162 <= k < 178 implies #[trigger] zeta_sq_ok(k) by {
        if k == 162 {} else if k == 163 {} else if k == 164 {} else if k == 165 {} else if k == 166 {} else if k == 167 {} else if k == 168 {} else if k == 169 {} else if k == 170 {} else if k == 171 {} else if k == 172 {} else if k == 173 {} else if k == 174 {} else if k == 175 {} else if k == 176 {} else {
            assert(k == 177);
        }
    }
}

#[verifier::rlimit(50)]
proof fn lemma_zeta_sq_from_178()
    ensures
        forall|k: int| 178 <= k < 194 ==> #[trigger] zeta_sq_ok(k),
{
    assert(ZETAS[178] == 2635921 && ZETAS[89] == -1228525);
    assert((2635921int * 2635921int - -1228525int * 4193792) % 8380417 == 0);
    assert(zeta_sq_ok(178));
    assert(ZETAS[179] == -3548272 && ZETAS[89] == -1228525);
    assert((-3548272int * -3548272int + -1228525int * 4193792) % 8380417 == 0);
    assert(zeta_sq_ok(179));
    assert(ZETAS[180] == -2994039 && ZETAS[90] == -22981);
    assert((-2994039int * -2994039int - -22981int * 4193792) % 8380417 == 0);
    assert(zeta_sq_ok(180));
    assert(ZETAS[181] == 1869119 && ZETAS[90] == -22981);
    assert((1869119int * 1869119int + -22981int * 4193792) % 8380417 == 0);
    assert(zeta_sq_ok(181));
    assert(ZETAS[182] == 1903435 && ZETAS[91] == -1308169);
    assert((1903435int * 1903435int - -1308169int * 4193792) % 8380417 == 0);
    assert(zeta_sq_ok(182));
    assert(ZETAS[183] == -1050970 && ZETAS[91] == -1308169);
    assert((-1050970int * -1050970int + -1308169int * 4193792) % 8380417 == 0);
    assert(zeta_sq_ok(183));
    assert(ZETAS[184] == -1333058 && ZETAS[92] == -381987);
    assert((-1333058int * -1333058int - -381987int * 4193792) % 8380417 == 0);
    assert(zeta_sq_ok(184));
    assert(ZETAS[185] == 1237275 && ZETAS[92] == -381987);
    assert((1237275int * 1237275int + -381987int * 4193792) % 8380417 == 0);
    assert(zeta_sq_ok(185));
    assert(ZETAS[186] == -3318210 && ZETAS[93] == 1349076);
    assert((-3318210int * -3318210int - 1349076int * 4193792) % 8380417 == 0);
    assert(zeta_sq_ok(186));
    assert(ZETAS[187] == -1430225 && ZETAS[93] == 1349076);
    assert((-1430225int * -1430225int + 1349076int * 4193792) % 8380417 == 0);
    assert(zeta_sq_ok(187));
    assert(ZETAS[188] == -451100 && ZETAS[94] == 1852771);
    assert((-451100int * -451100int - 1852771int * 4193792) % 8380417 == 0);
    assert(zeta_sq_ok(188));
    assert(ZETAS[189] == 1312455 && ZETAS[94] == 1852771);
    assert((1312455int * 1312455int + 1852771int * 4193792) % 8380417 == 0);
    assert(zeta_sq_ok(189));
    assert(ZETAS[190] == 3306115 && ZETAS[95] == -1430430);
    assert((3306115int * 3306115int - -1430430int * 4193792) % 8380417 == 0);
    assert(zeta_sq_ok(190));
    assert(ZETAS[191] == -1962642 && ZETAS[95] == -1430430);
    assert((-1962642int * -1962642int + -1430430int * 4193792) % 8380417 == 0);
    assert(zeta_sq_ok(191));
    assert(ZETAS[192] == -1279661 && ZETAS[96] == -3343383);
    assert((-1279661int * -1279661int - -3343383int * 4193792) % 8380417 == 0);
    assert(zeta_sq_ok(192));
    assert(ZETAS[193] == 1917081 && ZETAS[96] == -3343383);
    assert((1917081int * 1917081int + -3343383int * 4193792) % 8380417 == 0);
    assert(zeta_sq_ok(193));
    assert forall|k: int| 178 <= k < 194 implies #[trigger] zeta_sq_ok(k) by {
        if k == 178 {} else if k == 179 {} else if k == 180 {} else if k == 181 {} else if k == 182 {} else if k == 183 {} else if k == 184 {} else if k == 185 {} else if k == 186 {} else if k == 187 {} else if k == 188 {} else if k == 189 {} else if k == 190 {} else if k == 191 {} else if k == 192 {} else {
            assert(k == 193);
        }
    }
}

#[verifier::rlimit(50)]
proof fn lemma_zeta_sq_from_194()
    ensures
        forall|k: int| 194 <= k < 210 ==> #[trigger] zeta_sq_ok(k),
{
    assert(ZETAS[194] == -2546312 && ZETAS[97] == 264944);
    assert((-2546312int * -2546312int - 264944int * 4193792) % 8380417 == 0);
    assert(zeta_sq_ok(194));
    assert(ZETAS[195] == -1374803 && ZETAS[97] == 264944);
    assert((-1374803int * -1374803int + 264944int * 4193792) % 8380417 == 0);
    assert(zeta_sq_ok(195));
    assert(ZETAS[196] == 1500165 && ZETAS[98] == 508951);
    assert((1500165int * 1500165int - 508951int * 4193792) % 8380417 == 0);
    assert(zeta_sq_ok(196));
    assert(ZETAS[197] == 777191 && ZETAS[98] == 508951);
    assert((777191int * 777191int + 508951int * 4193792) % 8380417 == 0);
    assert(zeta_sq_ok(197));
    assert(ZETAS[198] == 2235880 && ZETAS[99] == 3097992);
    assert((2235880int * 2235880int - 3097992int * 4193792) % 8380417 == 0);
    assert(zeta_sq_ok(198));
    assert(ZETAS[199] == 3406031 && ZETAS[99] == 3097992);
    assert((3406031int * 3406031int + 3097992int * 4193792) % 8380417 == 0);
    assert(zeta_sq_ok(199));
    assert(ZETAS[200] == -542412 && ZETAS[100] == 44288);
    assert((-542412int * -542412int - 44288int * 4193792) % 8380417 == 0);
    assert(zeta_sq_ok(200));
    assert(ZETAS[201] == -2831860 && ZETAS[100] == 44288);
    assert((-2831860int * -2831860int + 44288int * 4193792) % 8380417 == 0);
    assert(zeta_sq_ok(201));
    assert(ZETAS[202] == -1671176 && ZETAS[101] == -1100098);
    assert((-1671176int * -1671176int - -1100098int * 4193792) % 8380417 == 0);
    assert(zeta_sq_ok(202));
    assert(ZETAS[203] == -1846953 && ZETAS[101] == -1100098);
    assert((-1846953int * -1846953int + -1100098int * 4193792) % 8380417 == 0);
    assert(zeta_sq_ok(203));
    assert(ZETAS[204] == -2584293 && ZETAS[102] == 904516);
    assert((-2584293int * -2584293int - 904516int * 4193792) % 8380417 == 0);
    assert(zeta_sq_ok(204));
    assert(ZETAS[205] == -3724270 && ZETAS[102] == 904516);
    assert((-3724270int * -3724270int + 904516int * 4193792) % 8380417 == 0);
    assert(zeta_sq_ok(205));
    assert(ZETAS[206] == 594136 && ZETAS[103] == 3958618);
    assert((594136int * 594136int - 3958618int * 4193792) % 8380417 == 0);
    assert(zeta_sq_ok(206));
    assert(ZETAS[207] == -3776993 && ZETAS[103] == 3958618);
    assert((-3776993int * -3776993int + 3958618int * 4193792) % 8380417 == 0);
    assert(zeta_sq_ok(207));
    assert(ZETAS[208] == -2013608 && ZETAS[104] == -3724342);
    assert((-2013608int * -2013608int - -3724342int * 4193792) % 8380417 == 0);
    assert(zeta_sq_ok(208));
    assert(ZETAS[209] == 2432395 && ZETAS[104] == -3724342);
    assert((2432395int * 2432395int + -3724342int * 4193792) % 8380417 == 0);
    assert(zeta_sq_ok(209));
    assert forall|k: int| 194 <= k < 210 implies #[trigger] zeta_sq_ok(k) by {
        if k == 194 {} else if k == 195 {} else if k == 196 {} else if k == 197 {} else if k == 198 {} else if k == 199 {} else if k == 200 {} else if k == 201 {} else if k == 202 {} else if k == 203 {} else if k == 204 {} else if k == 205 {} else if k == 206 {} else if k == 207 {} else if k == 208 {} else {
            assert(k == 209);
        }
    }
}

#[verifier::rlimit(50)]
proof fn lemma_zeta_sq_from_210()
    ensures
        forall|k: int| 210 <= k < 226 ==> #[trigger] zeta_sq_ok(k),
{
    assert(ZETAS[210] == 2454455 && ZETAS[105] == -8578);
    assert((2454455int * 2454455int - -8578int * 4193792) % 8380417 == 0);
    assert(zeta_sq_ok(210));
    assert(ZETAS[211] == -164721 && ZETAS[105] == -8578);
    assert((-164721int * -164721int + -8578int * 4193792) % 8380417 == 0);
    assert(zeta_sq_ok(211));
    assert(ZETAS[212] == 1957272 && ZETAS[106] == 1653064);
    assert((1957272int * 1957272int - 1653064int * 4193792) % 8380417 == 0);
    assert(zeta_sq_ok(212));
    assert(ZETAS[213] == 3369112 && ZETAS[106] == 1653064);
    assert((3369112int * 3369112int + 1653064int * 4193792) % 8380417 == 0);
    assert(zeta_sq_ok(213));
    assert(ZETAS[214] == 185531 && ZETAS[107] == -3249728);
    assert((185531int * 185531int - -3249728int * 4193792) % 8380417 == 0);
    assert(zeta_sq_ok(214));
    assert(ZETAS[215] == -1207385 && ZETAS[107] == -3249728);
    assert((-1207385int * -1207385int + -3249728int * 4193792) % 8380417 == 0);
    assert(zeta_sq_ok(215));
    assert(ZETAS[216] == -3183426 && ZETAS[108] == 2389356);
    assert((-3183426int * -3183426int - 2389356int * 4193792) % 8380417 == 0);
    assert(zeta_sq_ok(216));
    assert(ZETAS[217] == 162844 && ZETAS[108] == 2389356);
    assert((162844int * 162844int + 2389356int * 4193792) % 8380417 == 0);
    assert(zeta_sq_ok(217));
    assert(ZETAS[218] == 1616392 && ZETAS[109] == -210977);
    assert((1616392int * 1616392int - -210977int * 4193792) % 8380417 == 0);
    assert(zeta_sq_ok(218));
    assert(ZETAS[219] == 3014001 && ZETAS[109] == -210977);
    assert((3014001int * 3014001int + -210977int * 4193792) % 8380417 == 0);
    assert(zeta_sq_ok(219));
    assert(ZETAS[220] == 810149 && ZETAS[110] == 759969);
    assert((810149int * 810149int - 759969int * 4193792) % 8380417 == 0);
    assert(zeta_sq_ok(220));
    assert(ZETAS[221] == 1652634 && ZETAS[110] == 759969);
    assert((1652634int * 1652634int + 759969int * 4193792) % 8380417 == 0);
    assert(zeta_sq_ok(221));
    assert(ZETAS[222] == -3694233 && ZETAS[111] == -1316856);
    assert((-3694233int * -3694233int - -1316856int * 4193792) % 8380417 == 0);
    assert(zeta_sq_ok(222));
    assert(ZETAS[223] == -1799107 && ZETAS[111] == -1316856);
    assert((-1799107int * -1799107int + -1316856int * 4193792) % 8380417 == 0);
    assert(zeta_sq_ok(223));
    assert(ZETAS[224] == -3038916 && ZETAS[112] == 189548);
    assert((-3038916int * -3038916int - 189548int * 4193792) % 8380417 == 0);
    assert(zeta_sq_ok(224));
    assert(ZETAS[225] == 3523897 && ZETAS[112] == 189548);
    assert((3523897int * 3523897int + 189548int * 4193792) % 8380417 == 0);
    assert(zeta_sq_ok(225));
    assert forall|k: int| 210 <= k < 226 implies #[trigger] zeta_sq_ok(k) by {
        if k == 210 {} else if k == 211 {} else if k == 212 {} else if k == 213 {} else if k == 214 {} else if k == 215 {} else if k == 216 {} else if k == 217 {} else if k == 218 {} else if k == 219 {} else if k == 220 {} else if k == 221 {} else if k == 222 {} else if k == 223 {} else if k == 224 {} else {
            assert(k == 225);
        }
    }
}

#[verifier::rlimit(50)]
proof fn lemma_zeta_sq_from_226()
    ensures
        forall|k: int| 226 <= k < 242 ==> #[trigger] zeta_sq_ok(k),
{
    assert(ZETAS[226] == 3866901 && ZETAS[113] == -3553272);
    assert((3866901int * 3866901int - -3553272int * 4193792) % 8380417 == 0);
    assert(zeta_sq_ok(226));
    assert(ZETAS[227] == 269760 && ZETAS[113] == -3553272);
    assert((269760int * 269760int + -3553272int * 4193792) % 8380417 == 0);
    assert(zeta_sq_ok(227));
    assert(ZETAS[228] == 2213111 && ZETAS[114] == 3159746);
    assert((2213111int * 2213111int - 3159746int * 4193792) % 8380417 == 0);
    assert(zeta_sq_ok(228));
    assert(ZETAS[229] == -975884 && ZETAS[114] == 3159746);
    assert((-975884int * -975884int + 3159746int * 4193792) % 8380417 == 0);
    assert(zeta_sq_ok(229));
    assert(ZETAS[230] == 1717735 && ZETAS[115] == -1851402);
    assert((1717735int * 1717735int - -1851402int * 4193792) % 8380417 == 0);
    assert(zeta_sq_ok(230));
    assert(ZETAS[231] == 472078 && ZETAS[115] == -1851402);
    assert((472078int * 472078int + -1851402int * 4193792) % 8380417 == 0);
    assert(zeta_sq_ok(231));
    assert(ZETAS[232] == -426683 && ZETAS[116] == -2409325);
    assert((-426683int * -426683int - -2409325int * 4193792) % 8380417 == 0);
    assert(zeta_sq_ok(232));
    assert(ZETAS[233] == 1723600 && ZETAS[116] == -2409325);
    assert((1723600int * 1723600int + -2409325int * 4193792) % 8380417 == 0);
    assert(zeta_sq_ok(233));
    assert(ZETAS[234] == -1803090 && ZETAS[117] == -177440);
    assert((-1803090int * -1803090int - -177440int * 4193792) % 8380417 == 0);
    assert(zeta_sq_ok(234));
    assert(ZETAS[235] == 1910376 && ZETAS[117] == -177440);
    assert((1910376int * 1910376int + -177440int * 4193792) % 8380417 == 0);
    assert(zeta_sq_ok(235));
    assert(ZETAS[236] == -1667432 && ZETAS[118] == 1315589);
    assert((-1667432int * -1667432int - 1315589int * 4193792) % 8380417 == 0);
    assert(zeta_sq_ok(236));
    assert(ZETAS[237] == -1104333 && ZETAS[118] == 1315589);
    assert((-1104333int * -1104333int + 1315589int * 4193792) % 8380417 == 0);
    assert(zeta_sq_ok(237));
    assert(ZETAS[238] == -260646 && ZETAS[119] == 1341330);
    assert((-260646int * -260646int - 1341330int * 4193792) % 8380417 == 0);
    assert(zeta_sq_ok(238));
    assert(ZETAS[239] == -3833893 && ZETAS[119] == 1341330);
    assert((-3833893int * -3833893int + 1341330int * 4193792) % 8380417 == 0);
    assert(zeta_sq_ok(239));
    assert(ZETAS[240] == -2939036 && ZETAS[120] == 1285669);
    assert((-2939036int * -2939036int - 1285669int * 4193792) % 8380417 == 0);
    assert(zeta_sq_ok(240));
    assert(ZETAS[241] == -2235985 && ZETAS[120] == 1285669);
    assert((-2235985int * -2235985int + 1285669int * 4193792) % 8380417 == 0);
    assert(zeta_sq_ok(241));
    assert forall|k: int| 226 <= k < 242 implies #[trigger] zeta_sq_ok(k) by {
        if k == 226 {} else if k == 227 {} else if k == 228 {} else if k == 229 {} else if k == 230 {} else if k == 231 {} else if k == 232 {} else if k == 233 {} else if k == 234 {} else if k == 235 {} else if k == 236 {} else if k == 237 {} else if k == 238 {} else if k == 239 {} else if k == 240 {} else {
            assert(k == 241);
        }
    }
}

#[verifier::rlimit(50)]
proof fn lemma_zeta_sq_from_242()
    ensures
        forall|k: int| 242 <= k < 256 ==> #[trigger] zeta_sq_ok(k),
{
    assert(ZETAS[242] == -420899 && ZETAS[121] == -1584928);
    assert((-420899int * -420899int - -1584928int * 4193792) % 8380417 == 0);
    assert(zeta_sq_ok(242));
    assert(ZETAS[243] == -2286327 && ZETAS[121] == -1584928);
    assert((-2286327int * -2286327int + -1584928int * 4193792) % 8380417 == 0);
    assert(zeta_sq_ok(243));
    assert(ZETAS[244] == 183443 && ZETAS[122] == -812732);
    assert((183443int * 183443int - -812732int * 4193792) % 8380417 == 0);
    assert(zeta_sq_ok(244));
    assert(ZETAS[245] == -976891 && ZETAS[122] == -812732);
    assert((-976891int * -976891int + -812732int * 4193792) % 8380417 == 0);
    assert(zeta_sq_ok(245));
    assert(ZETAS[246] == 1612842 && ZETAS[123] == -1439742);
    assert((1612842int * 1612842int - -1439742int * 4193792) % 8380417 == 0);
    assert(zeta_sq_ok(246));
    assert(ZETAS[247] == -3545687 && ZETAS[123] == -1439742);
    assert((-3545687int * -3545687int + -1439742int * 4193792) % 8380417 == 0);
    assert(zeta_sq_ok(247));
    assert(ZETAS[248] == -554416 && ZETAS[124] == -3019102);
    assert((-554416int * -554416int - -3019102int * 4193792) % 8380417 == 0);
    assert(zeta_sq_ok(248));
    assert(ZETAS[249] == 3919660 && ZETAS[124] == -3019102);
    assert((3919660int * 3919660int + -3019102int * 4193792) % 8380417 == 0);
    assert(zeta_sq_ok(249));
    assert(ZETAS[250] == -48306 && ZETAS[125] == -3881060);
    assert((-48306int * -48306int - -3881060int * 4193792) % 8380417 == 0);
    assert(zeta_sq_ok(250));
    assert(ZETAS[251] == -1362209 && ZETAS[125] == -3881060);
    assert((-1362209int * -1362209int + -3881060int * 4193792) % 8380417 == 0);
    assert(zeta_sq_ok(251));
    assert(ZETAS[252] == 3937738 && ZETAS[126] == -3628969);
    assert((3937738int * 3937738int - -3628969int * 4193792) % 8380417 == 0);
    assert(zeta_sq_ok(252));
    assert(ZETAS[253] == 1400424 && ZETAS[126] == -3628969);
    assert((1400424int * 1400424int + -3628969int * 4193792) % 8380417 == 0);
    assert(zeta_sq_ok(253));
    assert(ZETAS[254] == -846154 && ZETAS[127] == 3839961);
    assert((-846154int * -846154int - 3839961int * 4193792) % 8380417 == 0);
    assert(zeta_sq_ok(254));
    assert(ZETAS[255] == 1976782 && ZETAS[127] == 3839961);
    assert((1976782int * 1976782int + 3839961int * 4193792) % 8380417 == 0);
    assert(zeta_sq_ok(255));
    assert forall|k: int| 242 <= k < 256 implies #[trigger] zeta_sq_ok(k) by {
        if k == 242 {} else if k == 243 {} else if k == 244 {} else if k == 245 {} else if k == 246 {} else if k == 247 {} else if k == 248 {} else if k == 249 {} else if k == 250 {} else if k == 251 {} else if k == 252 {} else if k == 253 {} else if k == 254 {} else {
            assert(k == 255);
        }
    }
}

proof fn lemma_zeta_sq_table()
    ensures
        forall|k: int| 1 <= k < 256 ==> #[trigger] zeta_sq_ok(k),
{
    assert(ZETAS[1] == 25847);
    assert((25847int * 25847int + 2365951) % 8380417 == 0);
    assert(zeta_sq_ok(1));
    lemma_zeta_sq_from_2();
    lemma_zeta_sq_from_18();
    lemma_zeta_sq_from_34();
    lemma_zeta_sq_from_50();
    lemma_zeta_sq_from_66();
    lemma_zeta_sq_from_82();
    lemma_zeta_sq_from_98();
    lemma_zeta_sq_from_114();
    lemma_zeta_sq_from_130();
    lemma_zeta_sq_from_146();
    lemma_zeta_sq_from_162();
    lemma_zeta_sq_from_178();
    lemma_zeta_sq_from_194();
    lemma_zeta_sq_from_210();
    lemma_zeta_sq_from_226();
    lemma_zeta_sq_from_242();
}

/// The root of block `b` of the forward layer with `kk` blocks, indexed by
/// `k = kk + b`: the block then holds its polynomial modulo
/// `X^(256 / kk) - block_root(k)`. The single block of the first layer has root
/// `-1`; the two halves of block `k` have roots `zeta_f(k)` and `-zeta_f(k)`.
pub open spec fn block_root(k: int) -> int {
    if k == 1 {
        -1
    } else if k % 2 == 0 {
        zeta_f(k / 2)
    } else {
        -zeta_f(k / 2)
    }
}

proof fn lemma_square_one(a: int, d: int)
    by (nonlinear_arith)
    requires
        a * a + 2365951 == 8380417 * d,
    ensures
        (a * 8265825) * (a * 8265825) == -1 + 8380417 * (d * 8265825 * 8265825 - 19289125090622),
{
}

proof fn lemma_zeta_sq_one()
    ensures
        mq(zeta_f(1) * zeta_f(1)) == mq(block_root(1)),
{
    lemma_zeta_sq_table();
    assert(zeta_sq_ok(1));
    let q = Q as int;
    let a = ZETAS[1] as int;
    let d = (a * a + 2365951) / q;
    lemma_fundamental_div_mod(a * a + 2365951, q);
    lemma_square_one(a, d);
    lemma_mod_multiples_vanish(d * 8265825 * 8265825 - 19289125090622, -1, q);
}

proof fn lemma_square_even(a: int, c: int, d: int)
    by (nonlinear_arith)
    requires
        a * a - c * 4193792 == 8380417 * d,
    ensures
        (a * 8265825) * (a * 8265825) == (c * 8265825) * 8265825 * 4193792 + 8380417 * (d * 8265825 * 8265825),
{
}

proof fn lemma_square_odd(a: int, c: int, d: int)
    by (nonlinear_arith)
    requires
        a * a + c * 4193792 == 8380417 * d,
    ensures
        (a * 8265825) * (a * 8265825) == -((c * 8265825) * 8265825 * 4193792) + 8380417 * (d * 8265825 * 8265825),
{
}

proof fn lemma_zeta_sq_even(k: int)
    requires
        2 <= k < 256,
        k % 2 == 0,
    ensures
        mq(zeta_f(k) * zeta_f(k)) == mq(block_root(k)),
{
    assert(zeta_sq_ok(k)) by {
        lemma_zeta_sq_table();
    }
    let q = Q as int;
    let a = ZETAS[k] as int;
    let h = k / 2;
    let c = ZETAS[h] as int;
    let x = (c * 8265825) * 8265825 * 4193792;
    let d = (a * a - c * 4193792) / q;
    lemma_fundamental_div_mod(a * a - c * 4193792, q);
    lemma_square_even(a, c, d);
    lemma_mod_multiples_vanish(d * 8265825 * 8265825, x, q);
    crate::poly::lemma_mont_cancel(c * 8265825);
}

proof fn lemma_zeta_sq_odd(k: int)
    requires
        2 <= k < 256,
        k % 2 == 1,
    ensures
        mq(zeta_f(k) * zeta_f(k)) == mq(block_root(k)),
{
    assert(zeta_sq_ok(k)) by {
        lemma_zeta_sq_table();
    }
    let q = Q as int;
    let a = ZETAS[k] as int;
    let h = k / 2;
    let c = ZETAS[h] as int;
    let x = (c * 8265825) * 8265825 * 4193792;
    let d = (a * a + c * 4193792) / q;
    lemma_fundamental_div_mod(a * a + c * 4193792, q);
    lemma_square_odd(a, c, d);
    lemma_mod_multiples_vanish(d * 8265825 * 8265825, -x, q);
    crate::poly::lemma_mont_cancel(c * 8265825);
    lemma_mul_congr(-1, x, c * 8265825);
}

/// The twiddle of block `k` squares to the root of block `k`.
pub proof fn lemma_zeta_sq(k: int)
    requires
        1 <= k < 256,
    ensures
        mq(zeta_f(k) * zeta_f(k)) == mq(block_root(k)),
{
    if k == 1 {
        lemma_zeta_sq_one();
    } else if k % 2 == 0 {
        lemma_zeta_sq_even(k);
    } else {
        lemma_zeta_sq_odd(k);
    }
}

/// The number of blocks before forward layer `l`: `2^l`.
pub open spec fn nblocks(l: int) -> int {
    if l >= 8 {
        256
    } else {
        128int / half_len(l)
    }
}

/// The block size before forward layer `l`: `256 / 2^l`.
pub open spec fn bsize(l: int) -> int {
    if l >= 8 {
        1
    } else {
        2 * half_len(l)
    }
}

/// Multiplication by `X` in every block before forward layer `l`: the
/// coefficients of block `b` move up by one and the top one comes back to the
/// bottom times the block's root.
pub open spec fn rot_blocks(p: Seq<int>, l: int) -> Seq<int> {
    let bs = bsize(l);
    Seq::new(
        256,
        |i: int|
            if i % bs == 0 {
                block_root(nblocks(l) + i / bs) * p[i + bs - 1]
            } else {
                p[i - 1]
            },
    )
}

/// The shape of consecutive layers.
proof fn lemma_layer_sizes(l: int)
    requires
        0 <= l < 8,
    ensures
        half_len(l) >= 1,
        bsize(l) == 2 * half_len(l),
        bsize(l + 1) == half_len(l),
        nblocks(l) * half_len(l) == 128,
        nblocks(l + 1) == 2 * nblocks(l),
        nblocks(l) >= 1,
        128int / half_len(l) == nblocks(l),
{
    if l == 0 {
        assert(half_len(0) == 128 && half_len(1) == 64);
        assert(nblocks(0) == 1 && nblocks(1) == 2);
    } else if l == 1 {
        assert(half_len(1) == 64 && half_len(2) == 32);
        assert(nblocks(1) == 2 && nblocks(2) == 4);
    } else if l == 2 {
        assert(half_len(2) == 32 && half_len(3) == 16);
        assert(nblocks(2) == 4 && nblocks(3) == 8);
    } else if l == 3 {
        assert(half_len(3) == 16 && half_len(4) == 8);
        assert(nblocks(3) == 8 && nblocks(4) == 16);
    } else if l == 4 {
        assert(half_len(4) == 8 && half_len(5) == 4);
        assert(nblocks(4) == 16 && nblocks(5) == 32);
    } else if l == 5 {
        assert(half_len(5) == 4 && half_len(6) == 2);
        assert(nblocks(5) == 32 && nblocks(6) == 64);
    } else if l == 6 {
        assert(half_len(6) == 2 && half_len(7) == 1);
        assert(nblocks(6) == 64 && nblocks(7) == 128);
    } else if l == 7 {
        assert(half_len(7) == 1 && half_len(8) == 1);
        assert(nblocks(7) == 128 && nblocks(8) == 256);
    }
}

/// `j == b * w + o` with `0 <= o < w` gives `j / w == b` and `j % w == o`.
proof fn lemma_at(j: int, w: int, b: int, o: int)
    requires
        0 < w,
        0 <= o < w,
        j == b * w + o,
    ensures
        j / w == b,
        j % w == o,
{
    lemma_fundamental_div_mod_converse(j, w, b, o);
}

proof fn lemma_rot_case_inner(p: Seq<int>, l: int, len: int, k0: int, i: int, b: int, o: int)
    requires
        p.len() == 256,
        0 <= l < 8,
        len == half_len(l),
        len >= 1,
        k0 == nblocks(l),
        k0 * len == 128,
        bsize(l) == 2 * len,
        bsize(l + 1) == len,
        nblocks(l + 1) == 2 * k0,
        0 <= b < k0,
        1 <= o < len,
        i == b * (2 * len) + o,
    ensures
        fwd_layer(rot_blocks(p, l), l)[i] == mq(rot_blocks(fwd_layer(p, l), l + 1)[i]),
{
    let w = rot_blocks(p, l);
    let f = fwd_layer(p, l);
    let z = zeta_f(k0 + b);
    lemma_at(i, 2 * len, b, o);
    lemma_at(i + len, 2 * len, b, o + len);
    lemma_at(i - 1, 2 * len, b, o - 1);
    assert(i == (2 * b) * len + o) by (nonlinear_arith)
        requires
            i == b * (2 * len) + o,
    ;
    lemma_at(i, len, 2 * b, o);
    assert(128int / len == k0) by {
        lemma_layer_sizes(l);
    }
    assert(w[i] == p[i - 1]);
    assert(w[i + len] == p[i + len - 1]);
    assert(f[i - 1] == mq(p[i - 1] + z * p[i - 1 + len]));
    assert(fwd_layer(w, l)[i] == mq(w[i] + z * w[i + len]));
    lemma_mq_mq(p[i - 1] + z * p[i - 1 + len]);
}

proof fn lemma_rot_case_bottom(p: Seq<int>, l: int, len: int, k0: int, i: int, b: int)
    requires
        p.len() == 256,
        0 <= l < 8,
        len == half_len(l),
        len >= 1,
        k0 == nblocks(l),
        k0 * len == 128,
        bsize(l) == 2 * len,
        bsize(l + 1) == len,
        nblocks(l + 1) == 2 * k0,
        0 <= b < k0,
        i == b * (2 * len),
    ensures
        fwd_layer(rot_blocks(p, l), l)[i] == mq(rot_blocks(fwd_layer(p, l), l + 1)[i]),
{
    let w = rot_blocks(p, l);
    let f = fwd_layer(p, l);
    let k = k0 + b;
    let z = zeta_f(k);
    let rho = block_root(k);
    lemma_at(i, 2 * len, b, 0);
    lemma_at(i + len, 2 * len, b, len);
    lemma_at(i + len - 1, 2 * len, b, len - 1);
    assert(i == (2 * b) * len + 0) by (nonlinear_arith)
        requires
            i == b * (2 * len),
    ;
    lemma_at(i, len, 2 * b, 0);
    assert(128int / len == k0) by {
        lemma_layer_sizes(l);
    }
    assert(1 <= k < 256) by (nonlinear_arith)
        requires
            k == k0 + b,
            0 <= b < k0,
            k0 * len == 128,
            len >= 1,
    ;
    lemma_zeta_sq(k);
    assert(block_root(2 * k0 + 2 * b) == z);
    let x = p[i + 2 * len - 1];
    let y = p[i + len - 1];
    assert(w[i] == rho * x);
    assert(w[i + len] == y);
    assert(f[i + len - 1] == mq(y + z * x));
    assert(rot_blocks(f, l + 1)[i] == z * f[i + len - 1]);
    // z * (y + z x) == z y + z^2 x == z y + rho x (mod q).
    lemma_mq_mul(z, y + z * x);
    assert(z * (y + z * x) == z * y + (z * z) * x) by (nonlinear_arith);
    lemma_mul_congr(x, z * z, rho);
    assert(x * (z * z) == (z * z) * x && x * rho == rho * x) by (nonlinear_arith);
    lemma_mq_mq(z * y);
    lemma_pair_congr(z * y, (z * z) * x, z * y, rho * x);
    assert(rho * x + z * y == z * y + rho * x);
}

proof fn lemma_rot_case_upper(p: Seq<int>, l: int, len: int, k0: int, i: int, b: int, o: int)
    requires
        p.len() == 256,
        0 <= l < 8,
        len == half_len(l),
        len >= 1,
        k0 == nblocks(l),
        k0 * len == 128,
        bsize(l) == 2 * len,
        bsize(l + 1) == len,
        nblocks(l + 1) == 2 * k0,
        0 <= b < k0,
        len < o < 2 * len,
        i == b * (2 * len) + o,
    ensures
        fwd_layer(rot_blocks(p, l), l)[i] == mq(rot_blocks(fwd_layer(p, l), l + 1)[i]),
{
    let w = rot_blocks(p, l);
    let f = fwd_layer(p, l);
    let z = zeta_f(k0 + b);
    lemma_at(i, 2 * len, b, o);
    lemma_at(i - len, 2 * len, b, o - len);
    lemma_at(i - 1, 2 * len, b, o - 1);
    assert(i == (2 * b + 1) * len + (o - len)) by (nonlinear_arith)
        requires
            i == b * (2 * len) + o,
    ;
    lemma_at(i, len, 2 * b + 1, o - len);
    assert(128int / len == k0) by {
        lemma_layer_sizes(l);
    }
    assert(w[i - len] == p[i - len - 1]);
    assert(w[i] == p[i - 1]);
    assert(f[i - 1] == mq(p[i - 1 - len] - z * p[i - 1]));
    assert(fwd_layer(w, l)[i] == mq(w[i - len] - z * w[i]));
    lemma_mq_mq(p[i - 1 - len] - z * p[i - 1]);
}

proof fn lemma_rot_case_middle(p: Seq<int>, l: int, len: int, k0: int, i: int, b: int)
    requires
        p.len() == 256,
        0 <= l < 8,
        len == half_len(l),
        len >= 1,
        k0 == nblocks(l),
        k0 * len == 128,
        bsize(l) == 2 * len,
        bsize(l + 1) == len,
        nblocks(l + 1) == 2 * k0,
        0 <= b < k0,
        i == b * (2 * len) + len,
    ensures
        fwd_layer(rot_blocks(p, l), l)[i] == mq(rot_blocks(fwd_layer(p, l), l + 1)[i]),
{
    let w = rot_blocks(p, l);
    let f = fwd_layer(p, l);
    let k = k0 + b;
    let z = zeta_f(k);
    let rho = block_root(k);
    lemma_at(i, 2 * len, b, len);
    lemma_at(i - len, 2 * len, b, 0);
    lemma_at(i + len - 1, 2 * len, b, 2 * len - 1);
    assert(i == (2 * b + 1) * len + 0) by (nonlinear_arith)
        requires
            i == b * (2 * len) + len,
    ;
    lemma_at(i, len, 2 * b + 1, 0);
    assert(128int / len == k0) by {
        lemma_layer_sizes(l);
    }
    assert(1 <= k < 256) by (nonlinear_arith)
        requires
            k == k0 + b,
            0 <= b < k0,
            k0 * len == 128,
            len >= 1,
    ;
    lemma_zeta_sq(k);
    assert(block_root(2 * k0 + 2 * b + 1) == -z);
    let x = p[i + len - 1];
    let y = p[i - 1];
    assert(w[i - len] == rho * x);
    assert(w[i] == y);
    assert(f[i + len - 1] == mq(y - z * x));
    assert(rot_blocks(f, l + 1)[i] == (-z) * f[i + len - 1]);
    // -z * (y - z x) == z^2 x - z y == rho x - z y (mod q).
    lemma_mq_mul(-z, y - z * x);
    assert((-z) * (y - z * x) == (z * z) * x - z * y) by (nonlinear_arith);
    lemma_mul_congr(x, z * z, rho);
    assert(x * (z * z) == (z * z) * x && x * rho == rho * x) by (nonlinear_arith);
    lemma_pair_congr((z * z) * x, z * y, rho * x, z * y);
}

/// Multiplying by `X` block by block commutes with a forward layer, the
/// halves of each block taking the square roots of its root.
pub proof fn lemma_fwd_rot_at(p: Seq<int>, l: int, i: int)
    requires
        p.len() == 256,
        0 <= l < 8,
        0 <= i < 256,
    ensures
        fwd_layer(rot_blocks(p, l), l)[i] == mq(rot_blocks(fwd_layer(p, l), l + 1)[i]),
{
    let len = half_len(l);
    let k0 = nblocks(l);
    lemma_layer_sizes(l);
    let b = i / (2 * len);
    let o = i % (2 * len);
    lemma_fundamental_div_mod(i, 2 * len);
    lemma_mod_bound(i, 2 * len);
    lemma_div_pos_is_pos(i, 2 * len);
    assert(i == b * (2 * len) + o) by (nonlinear_arith)
        requires
            i == (2 * len) * b + o,
    ;
    assert(b < k0) by (nonlinear_arith)
        requires
            i == b * (2 * len) + o,
            0 <= o,
            i < 256,
            k0 * len == 128,
            len >= 1,
    ;
    if o == 0 {
        lemma_rot_case_bottom(p, l, len, k0, i, b);
    } else if o < len {
        lemma_rot_case_inner(p, l, len, k0, i, b, o);
    } else if o == len {
        lemma_rot_case_middle(p, l, len, k0, i, b);
    } else {
        lemma_rot_case_upper(p, l, len, k0, i, b, o);
    }
}

proof fn lemma_bsize_facts(l: int)
    requires
        0 <= l <= 8,
    ensures
        bsize(l) >= 1,
        256int % bsize(l) == 0,
        256int / bsize(l) == nblocks(l),
{
    if l == 0 {
        assert(bsize(0) == 256 && nblocks(0) == 1);
        assert(256int % 256 == 0 && 256int / 256 == 1);
    } else if l == 1 {
        assert(bsize(1) == 128 && nblocks(1) == 2);
        assert(256int % 128 == 0 && 256int / 128 == 2);
    } else if l == 2 {
        assert(bsize(2) == 64 && nblocks(2) == 4);
        assert(256int % 64 == 0 && 256int / 64 == 4);
    } else if l == 3 {
        assert(bsize(3) == 32 && nblocks(3) == 8);
        assert(256int % 32 == 0 && 256int / 32 == 8);
    } else if l == 4 {
        assert(bsize(4) == 16 && nblocks(4) == 16);
        assert(256int % 16 == 0 && 256int / 16 == 16);
    } else if l == 5 {
        assert(bsize(5) == 8 && nblocks(5) == 32);
        assert(256int % 8 == 0 && 256int / 8 == 32);
    } else if l == 6 {
        assert(bsize(6) == 4 && nblocks(6) == 64);
        assert(256int % 4 == 0 && 256int / 4 == 64);
    } else if l == 7 {
        assert(bsize(7) == 2 && nblocks(7) == 128);
        assert(256int % 2 == 0 && 256int / 2 == 128);
    } else if l == 8 {
        assert(bsize(8) == 1 && nblocks(8) == 256);
        assert(256int % 1 == 0 && 256int / 1 == 256);
    }
}

/// Block starts leave room for the whole block.
proof fn lemma_block_room(i: int, l: int)
    requires
        0 <= i < 256,
        0 <= l <= 8,
    ensures
        bsize(l) >= 1,
        i % bsize(l) == 0 ==> i + bsize(l) - 1 < 256,
        i % bsize(l) != 0 ==> i >= 1,
{
    let bs = bsize(l);
    lemma_bsize_facts(l);
    lemma_fundamental_div_mod(256, bs);
    lemma_fundamental_div_mod(i, bs);
    lemma_mod_bound(i, bs);
    lemma_div_pos_is_pos(i, bs);
    if i % bs == 0 {
        assert(i + bs <= 256) by (nonlinear_arith)
            requires
                i == bs * (i / bs),
                i < 256,
                256 == bs * (256int / bs),
                bs >= 1,
                i / bs >= 0,
        {
            if i / bs >= 256int / bs {
                assert(bs * (i / bs) >= bs * (256int / bs));
            }
        }
    } else if i == 0 {
        lemma_small_mod(0, bs as nat);
    }
}

/// After `l` forward layers, multiplying the input by `X` is multiplying every
/// block by `X` modulo its root.
proof fn lemma_fwd_upto_rot(p: Seq<int>, l: nat)
    requires
        p.len() == 256,
        l <= 8,
    ensures
        congruent(fwd_upto(rot_blocks(p, 0), l), rot_blocks(fwd_upto(p, l), l as int)),
    decreases l,
{
    let r0 = rot_blocks(p, 0);
    crate::ntt::lemma_fwd_upto_len(r0, l);
    if l == 0 {
        assert forall|i: int| 0 <= i < 256 implies mq(#[trigger] fwd_upto(r0, 0)[i]) == mq(rot_blocks(fwd_upto(p, 0), 0)[i]) by {}
    } else {
        let ll = (l - 1) as nat;
        lemma_fwd_upto_rot(p, ll);
        crate::ntt::lemma_fwd_upto_len(p, ll);
        let fl = fwd_upto(p, ll);
        let prev = fwd_upto(r0, ll);
        lemma_fwd_layer_congr(prev, rot_blocks(fl, ll as int), ll as int);
        assert forall|i: int| 0 <= i < 256 implies mq(#[trigger] fwd_upto(r0, l)[i]) == mq(rot_blocks(fwd_upto(p, l), l as int)[i]) by {
            lemma_fwd_rot_at(fl, ll as int, i);
            lemma_mq_mq(rot_blocks(fwd_layer(fl, ll as int), l as int)[i]);
        }
    }
}

/// The root that multiplication by `X` becomes at coefficient `i` of the
/// transform.
pub open spec fn slot_root(i: int) -> int {
    block_root(256 + i)
}

/// Multiplying by `X` multiplies coefficient `i` of the transform by its root:
/// `ntt(X * p)[i] == slot_root(i) * ntt(p)[i]`.
pub proof fn lemma_ntt_times_x(p: Seq<int>)
    requires
        p.len() == 256,
    ensures
        forall|i: int| 0 <= i < 256 ==> #[trigger] ntt_spec(rot_blocks(p, 0))[i] == mq(slot_root(i) * ntt_spec(p)[i]),
{
    lemma_fwd_upto_rot(p, 8);
    crate::ntt::lemma_fwd_upto_len(rot_blocks(p, 0), 7);
    crate::ntt::lemma_layers_canonical(fwd_upto(rot_blocks(p, 0), 7), 7);
    assert forall|i: int| 0 <= i < 256 implies #[trigger] ntt_spec(rot_blocks(p, 0))[i] == mq(slot_root(i) * ntt_spec(p)[i]) by {
        lemma_mq_mq(ntt_spec(rot_blocks(p, 0))[i]);
        lemma_small_mod(ntt_spec(rot_blocks(p, 0))[i] as nat, Q as nat);
        assert(rot_blocks(ntt_spec(p), 8)[i] == slot_root(i) * ntt_spec(p)[i]);
    }
}

// ---------------------------------------------------------------------------
// The schoolbook product
// ---------------------------------------------------------------------------

/// The zero polynomial.
pub open spec fn zero_seq() -> Seq<int> {
    Seq::new(256, |i: int| 0)
}

/// `X^j * b` in `Z[X]/(X^256 + 1)`.
pub open spec fn xpow_mul(b: Seq<int>, j: nat) -> Seq<int>
    decreases j,
{
    if j == 0 {
        b
    } else {
        rot_blocks(xpow_mul(b, (j - 1) as nat), 0)
    }
}

/// `r^j`.
pub open spec fn pow_int(r: int, j: nat) -> int
    decreases j,
{
    if j == 0 {
        1
    } else {
        r * pow_int(r, (j - 1) as nat)
    }
}

/// `sum_{j < n} a[j] * r^j`.
pub open spec fn eval_at(a: Seq<int>, r: int, n: nat) -> int
    decreases n,
{
    if n == 0 {
        0
    } else {
        eval_at(a, r, (n - 1) as nat) + a[n - 1] * pow_int(r, (n - 1) as nat)
    }
}

/// The first `n` terms of the schoolbook negacyclic product
/// `a * b = sum_j a[j] * X^j * b` in `Z[X]/(X^256 + 1)`.
pub open spec fn school(a: Seq<int>, b: Seq<int>, n: nat) -> Seq<int>
    decreases n,
{
    if n == 0 {
        zero_seq()
    } else {
        add_seq(school(a, b, (n - 1) as nat), scale(xpow_mul(b, (n - 1) as nat), a[n - 1]))
    }
}

/// The negacyclic product of two polynomials.
pub open spec fn negacyclic_mul(a: Seq<int>, b: Seq<int>) -> Seq<int> {
    school(a, b, 256)
}

proof fn lemma_xpow_len(b: Seq<int>, j: nat)
    requires
        b.len() == 256,
    ensures
        xpow_mul(b, j).len() == 256,
    decreases j,
{
    if j > 0 {
        lemma_xpow_len(b, (j - 1) as nat);
    }
}

/// The transform of `X^j * b` is the transform of `b` times the `j`-th powers
/// of the slot roots.
proof fn lemma_ntt_xpow(b: Seq<int>, j: nat)
    requires
        b.len() == 256,
    ensures
        forall|i: int| 0 <= i < 256 ==> #[trigger] ntt_spec(xpow_mul(b, j))[i] == mq(pow_int(slot_root(i), j) * ntt_spec(b)[i]),
    decreases j,
{
    if j == 0 {
        crate::poly::lemma_ntt_spec_canonical(b);
    } else {
        let jj = (j - 1) as nat;
        lemma_ntt_xpow(b, jj);
        lemma_xpow_len(b, jj);
        lemma_ntt_times_x(xpow_mul(b, jj));
        assert forall|i: int| 0 <= i < 256 implies #[trigger] ntt_spec(xpow_mul(b, j))[i] == mq(pow_int(slot_root(i), j) * ntt_spec(b)[i]) by {
            let w = slot_root(i);
            let pj = pow_int(w, jj);
            let nb = ntt_spec(b)[i];
            lemma_mq_mul(w, pj * nb);
            assert(w * (pj * nb) == (w * pj) * nb) by (nonlinear_arith);
        }
    }
}

proof fn lemma_ntt_zero_seq()
    ensures
        forall|i: int| 0 <= i < 256 ==> #[trigger] ntt_spec(zero_seq())[i] == 0,
{
    let z = zero_seq();
    crate::ntt::lemma_fwd_upto_scale(z, 0, 8);
    assert(scale(z, 0) =~= z);
    crate::poly::lemma_ntt_spec_canonical(z);
    assert forall|i: int| 0 <= i < 256 implies #[trigger] ntt_spec(z)[i] == 0 by {
        assert(0 * fwd_upto(z, 8)[i] == 0);
        lemma_small_mod(ntt_spec(z)[i] as nat, Q as nat);
    }
}

/// The transform of a scaled polynomial.
proof fn lemma_ntt_scale(p: Seq<int>, c: int)
    requires
        p.len() == 256,
    ensures
        forall|i: int| 0 <= i < 256 ==> #[trigger] ntt_spec(scale(p, c))[i] == mq(c * ntt_spec(p)[i]),
{
    crate::ntt::lemma_fwd_upto_scale(p, c, 8);
    crate::poly::lemma_ntt_spec_canonical(scale(p, c));
    assert forall|i: int| 0 <= i < 256 implies #[trigger] ntt_spec(scale(p, c))[i] == mq(c * ntt_spec(p)[i]) by {
        lemma_small_mod(ntt_spec(scale(p, c))[i] as nat, Q as nat);
    }
}

/// The transform of the partial schoolbook product.
proof fn lemma_ntt_school(a: Seq<int>, b: Seq<int>, n: nat)
    requires
        b.len() == 256,
    ensures
        school(a, b, n).len() == 256,
        forall|i: int| 0 <= i < 256 ==> #[trigger] ntt_spec(school(a, b, n))[i] == mq(eval_at(a, slot_root(i), n) * ntt_spec(b)[i]),
    decreases n,
{
    if n == 0 {
        lemma_ntt_zero_seq();
        assert forall|i: int| 0 <= i < 256 implies #[trigger] ntt_spec(school(a, b, n))[i] == mq(eval_at(a, slot_root(i), n) * ntt_spec(b)[i]) by {
            assert(0 * ntt_spec(b)[i] == 0);
        }
    } else {
        let nn = (n - 1) as nat;
        lemma_ntt_school(a, b, nn);
        lemma_xpow_len(b, nn);
        let prev = school(a, b, nn);
        let term = scale(xpow_mul(b, nn), a[n - 1]);
        crate::ntt::lemma_ntt_add(prev, term);
        lemma_ntt_scale(xpow_mul(b, nn), a[n - 1]);
        lemma_ntt_xpow(b, nn);
        assert forall|i: int| 0 <= i < 256 implies #[trigger] ntt_spec(school(a, b, n))[i] == mq(eval_at(a, slot_root(i), n) * ntt_spec(b)[i]) by {
            let w = slot_root(i);
            let e = eval_at(a, w, nn);
            let pj = pow_int(w, nn);
            let nb = ntt_spec(b)[i];
            let c = a[n - 1];
            assert(ntt_spec(prev)[i] == mq(e * nb));
            assert(ntt_spec(term)[i] == mq(c * ntt_spec(xpow_mul(b, nn))[i]));
            assert(ntt_spec(xpow_mul(b, nn))[i] == mq(pj * nb));
            lemma_mq_mul(c, pj * nb);
            lemma_mq_add(e * nb, c * (pj * nb));
            assert(e * nb + c * (pj * nb) == (e + c * pj) * nb) by (nonlinear_arith);
        }
    }
}

/// The monomial `X^j`.
pub open spec fn basis(j: int) -> Seq<int> {
    Seq::new(256, |m: int| if m == j { 1int } else { 0 })
}

proof fn lemma_xpow_one(j: nat)
    requires
        j < 256,
    ensures
        xpow_mul(basis(0), j) == basis(j as int),
    decreases j,
{
    if j > 0 {
        let jj = (j - 1) as nat;
        lemma_xpow_one(jj);
        let r = rot_blocks(basis(jj as int), 0);
        assert forall|i: int| 0 <= i < 256 implies #[trigger] r[i] == basis(j as int)[i] by {
            lemma_block_room(i, 0);
            lemma_bsize_facts(0);
            if i == 0 {
                assert(i % 256 == 0);
                assert(r[0] == block_root(1) * basis(jj as int)[255]);
            } else {
                lemma_small_mod(i as nat, 256);
                assert(r[i] == basis(jj as int)[i - 1]);
            }
        }
        assert(r =~= basis(j as int));
    }
}

proof fn lemma_school_one(a: Seq<int>, n: nat)
    requires
        n <= 256,
    ensures
        forall|m: int| 0 <= m < 256 ==> #[trigger] school(a, basis(0), n)[m] == if m < n { a[m] } else { 0 },
    decreases n,
{
    if n > 0 {
        let nn = (n - 1) as nat;
        lemma_school_one(a, nn);
        lemma_xpow_one(nn);
        assert forall|m: int| 0 <= m < 256 implies #[trigger] school(a, basis(0), n)[m] == if m < n { a[m] } else { 0 } by {
            assert(school(a, basis(0), n)[m] == school(a, basis(0), nn)[m] + a[n - 1] * basis(nn as int)[m]);
            if m == nn {
                assert(a[n - 1] * 1 == a[n - 1]);
            } else {
                assert(a[n - 1] * 0 == 0);
            }
        }
    }
}

/// Before layer `l`, the transform of 1 has a 1 at the start of every block.
proof fn lemma_fwd_upto_one(l: nat)
    requires
        l <= 8,
    ensures
        fwd_upto(basis(0), l).len() == 256,
        forall|i: int| 0 <= i < 256 ==> #[trigger] fwd_upto(basis(0), l)[i] == if i % bsize(l as int) == 0 { 1int } else { 0 },
    decreases l,
{
    if l == 0 {
        assert forall|i: int| 0 <= i < 256 implies #[trigger] fwd_upto(basis(0), l)[i] == if i % bsize(l as int) == 0 { 1int } else { 0 } by {
            lemma_bsize_facts(0);
            lemma_small_mod(i as nat, 256);
        }
    } else {
        let ll = (l - 1) as nat;
        lemma_fwd_upto_one(ll);
        let p = fwd_upto(basis(0), ll);
        let len = half_len(ll as int);
        lemma_layer_sizes(ll as int);
        crate::ntt::lemma_layers_canonical(p, ll as int);
        assert forall|i: int| 0 <= i < 256 implies #[trigger] fwd_upto(basis(0), l)[i] == if i % bsize(l as int) == 0 { 1int } else { 0 } by {
            let b = i / (2 * len);
            let o = i % (2 * len);
            lemma_fundamental_div_mod(i, 2 * len);
            lemma_mod_bound(i, 2 * len);
            lemma_div_pos_is_pos(i, 2 * len);
            assert(i == b * (2 * len) + o) by (nonlinear_arith)
                requires
                    i == (2 * len) * b + o,
            ;
            let z = zeta_f(128int / len + b);
            if o < len {
                lemma_at(i + len, 2 * len, b, o + len);
                assert(i == (2 * b) * len + o) by (nonlinear_arith)
                    requires
                        i == b * (2 * len) + o,
                ;
                lemma_at(i, len, 2 * b, o);
                assert(p[i + len] == 0);
                assert(z * 0 == 0);
                lemma_small_mod(p[i] as nat, Q as nat);
            } else {
                lemma_at(i - len, 2 * len, b, o - len);
                assert(i == (2 * b + 1) * len + (o - len)) by (nonlinear_arith)
                    requires
                        i == b * (2 * len) + o,
                ;
                lemma_at(i, len, 2 * b + 1, o - len);
                assert(p[i] == 0);
                assert(z * 0 == 0);
                lemma_small_mod(p[i - len] as nat, Q as nat);
            }
        }
    }
}

/// The transform of 1 is 1 in every slot.
proof fn lemma_ntt_one()
    ensures
        forall|i: int| 0 <= i < 256 ==> #[trigger] ntt_spec(basis(0))[i] == 1,
{
    lemma_fwd_upto_one(8);
    assert forall|i: int| 0 <= i < 256 implies #[trigger] ntt_spec(basis(0))[i] == 1 by {
        lemma_bsize_facts(8);
    }
}

/// The transform turns the negacyclic product into the coefficient-wise
/// product: `ntt(a * b) == ntt(a) o ntt(b)`.
pub proof fn lemma_ntt_of_negacyclic(a: Seq<int>, b: Seq<int>)
    requires
        a.len() == 256,
        b.len() == 256,
    ensures
        forall|i: int| 0 <= i < 256 ==> #[trigger] ntt_spec(negacyclic_mul(a, b))[i] == mq(ntt_spec(a)[i] * ntt_spec(b)[i]),
{
    lemma_ntt_school(a, b, 256);
    lemma_ntt_school(a, basis(0), 256);
    lemma_school_one(a, 256);
    assert(school(a, basis(0), 256) =~= a);
    lemma_ntt_one();
    assert forall|i: int| 0 <= i < 256 implies #[trigger] ntt_spec(negacyclic_mul(a, b))[i] == mq(ntt_spec(a)[i] * ntt_spec(b)[i]) by {
        let e = eval_at(a, slot_root(i), 256);
        assert(ntt_spec(a)[i] == mq(e * 1));
        lemma_mq_mul(e, ntt_spec(b)[i]);
    }
}

/// The product that the transform computes is the negacyclic product,
/// modulo `q`: `poly_mul_spec(a, b) == a * b (mod q)`.
pub proof fn lemma_poly_mul_is_negacyclic(a: Seq<int>, b: Seq<int>)
    requires
        a.len() == 256,
        b.len() == 256,
    ensures
        forall|i: int| 0 <= i < 256 ==> #[trigger] poly_mul_spec(a, b)[i] == mq(negacyclic_mul(a, b)[i]),
{
    let sp = negacyclic_mul(a, b);
    lemma_ntt_school(a, b, 256);
    lemma_ntt_of_negacyclic(a, b);
    let ns = ntt_spec(sp);
    let ri = MONT_R_INV as int;
    let pw = pointwise_spec(ntt_spec(a), ntt_spec(b));
    assert(congruent(pw, scale(ns, ri))) by {
        assert forall|i: int| 0 <= i < 256 implies mq(#[trigger] pw[i]) == mq(scale(ns, ri)[i]) by {
            let x = ntt_spec(a)[i] * ntt_spec(b)[i];
            lemma_mq_mq(x * ri);
            lemma_mq_mul(ri, x);
            assert(x * ri == ri * x) by (nonlinear_arith);
        }
    }
    crate::ntt::lemma_intt_congr(pw, scale(ns, ri));
    crate::ntt::lemma_intt_scale(ns, ri);
    crate::ntt::lemma_ntt_roundtrip(sp);
    assert forall|i: int| 0 <= i < 256 implies #[trigger] poly_mul_spec(a, b)[i] == mq(sp[i]) by {
        lemma_mq_mul(ri, MONT_R * sp[i]);
        assert(ri * (MONT_R * sp[i]) == sp[i] * MONT_R_INV * MONT_R) by (nonlinear_arith)
            requires
                ri == MONT_R_INV,
        ;
        crate::poly::lemma_mont_cancel(sp[i]);
    }
}

/// Multiplying by a power of `X` keeps every coefficient within a bound.
proof fn lemma_xpow_bound(b: Seq<int>, j: nat, bound: int)
    requires
        b.len() == 256,
        forall|m: int| 0 <= m < 256 ==> -bound <= #[trigger] b[m] <= bound,
    ensures
        forall|m: int| 0 <= m < 256 ==> -bound <= #[trigger] xpow_mul(b, j)[m] <= bound,
    decreases j,
{
    if j > 0 {
        let jj = (j - 1) as nat;
        lemma_xpow_bound(b, jj, bound);
        lemma_xpow_len(b, jj);
        let p = xpow_mul(b, jj);
        assert forall|m: int| 0 <= m < 256 implies -bound <= #[trigger] xpow_mul(b, j)[m] <= bound by {
            lemma_bsize_facts(0);
            lemma_small_mod(m as nat, 256);
            if m == 0 {
                assert(xpow_mul(b, j)[0] == -1 * p[255]);
            } else {
                assert(xpow_mul(b, j)[m] == p[m - 1]);
            }
        }
    }
}

/// The partial schoolbook product of a polynomial with coefficients in
/// `{-1, 0, 1}` and a polynomial bounded by `bound` is bounded by `bound`
/// times the number of nonzero coefficients taken so far.
proof fn lemma_school_bound(a: Seq<int>, b: Seq<int>, n: nat, bound: int)
    requires
        a.len() == 256,
        b.len() == 256,
        n <= 256,
        bound >= 0,
        ternary(a),
        forall|m: int| 0 <= m < 256 ==> -bound <= #[trigger] b[m] <= bound,
    ensures
        school(a, b, n).len() == 256,
        forall|m: int|
            0 <= m < 256 ==> -(bound * nonzero_count(a, n as int)) <= #[trigger] school(a, b, n)[m] <= bound
                * nonzero_count(a, n as int),
    decreases n,
{
    if n > 0 {
        let nn = (n - 1) as nat;
        lemma_school_bound(a, b, nn, bound);
        lemma_xpow_bound(b, nn, bound);
        lemma_xpow_len(b, nn);
        let cnt = nonzero_count(a, nn as int);
        let x = xpow_mul(b, nn);
        let c = a[n - 1];
        assert(c == -1 || c == 0 || c == 1);
        assert forall|m: int| 0 <= m < 256 implies -(bound * nonzero_count(a, n as int)) <= #[trigger] school(
            a,
            b,
            n,
        )[m] <= bound * nonzero_count(a, n as int) by {
            assert(school(a, b, n)[m] == school(a, b, nn)[m] + c * x[m]);
            assert(-(bound * cnt) <= school(a, b, nn)[m] <= bound * cnt);
            assert(-bound <= x[m] <= bound);
            if c == 0 {
                assert(c * x[m] == 0);
                assert(nonzero_count(a, n as int) == cnt);
            } else {
                assert(nonzero_count(a, n as int) == cnt + 1);
                assert(bound * (cnt + 1) == bound * cnt + bound) by (nonlinear_arith);
                if c == 1 {
                    assert(c * x[m] == x[m]);
                } else {
                    assert(c * x[m] == -x[m]);
                }
            }
        }
    }
}

/// A value within the centered range is its own centered representative.
proof fn lemma_centered_small(x: int)
    requires
        -(Q_HALF as int) <= x <= Q_HALF,
    ensures
        centered(x) == x,
{
    if x >= 0 {
        lemma_small_mod(x as nat, Q as nat);
    } else {
        lemma_small_mod((x + Q) as nat, Q as nat);
        lemma_mod_add_multiples_vanish(x, Q as int);
    }
}

/// The product in `R_q` of a polynomial with coefficients in `{-1, 0, 1}`, at
/// most `w` of them nonzero, and a polynomial with coefficients in
/// `[-bound, bound]` has centered coefficients in `[-w * bound, w * bound]`,
/// as long as that range lies within the centered range.
pub proof fn lemma_sparse_product_bound(a: Seq<int>, b: Seq<int>, w: int, bound: int)
    requires
        a.len() == 256,
        b.len() == 256,
        ternary(a),
        nonzero_count(a, 256) <= w,
        bound >= 0,
        w * bound <= Q_HALF,
        forall|m: int| 0 <= m < 256 ==> -bound <= #[trigger] b[m] <= bound,
    ensures
        forall|m: int| 0 <= m < 256 ==> -(w * bound) <= #[trigger] centered(poly_mul_spec(a, b)[m]) <= w * bound,
{
    lemma_school_bound(a, b, 256, bound);
    lemma_poly_mul_is_negacyclic(a, b);
    let cnt = nonzero_count(a, 256);
    assert(bound * cnt <= w * bound) by (nonlinear_arith)
        requires
            cnt <= w,
            bound >= 0,
    ;
    assert forall|m: int| 0 <= m < 256 implies -(w * bound) <= #[trigger] centered(poly_mul_spec(a, b)[m]) <= w
        * bound by {
        let v = negacyclic_mul(a, b)[m];
        lemma_mq_mq(v);
        crate::poly::lemma_centered_congr(poly_mul_spec(a, b)[m], v);
        lemma_centered_small(v);
    }
}

} // verus!
