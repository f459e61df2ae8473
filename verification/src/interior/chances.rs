//! How likely each template is to be rolled.
use crate::config::laws::sum_of;
use crate::interior::placement::{can_win, counted, held, rolled, used_up, weight_total};
use crate::layout::BlueprintRoom;
use crate::single::order::{
    is_binary, lemma_binary_negation, lemma_binary_parts, lemma_binary_product, lemma_binary_sign,
    lemma_binary_sum,
};
use crate::single::{lemma_single, single, F32};
use vstd::arithmetic::power2::pow2;
use vstd::prelude::*;

verus! {

/// Are the weights of the templates the whole numbers `n`, not too large
/// together?
pub open spec fn whole_weights(rooms: Seq<BlueprintRoom>, n: Seq<int>) -> bool {
    &&& n.len() == rooms.len()
    &&& forall|i: int|
        0 <= i < n.len() ==> #[trigger] n[i] >= 0 && is_binary(rooms[i].weight, n[i], 0)
    &&& sum_of(n, n.len() as int) <= 4095
}

/// Sums of numbers that are not negative rise.
proof fn lemma_sums_rise(n: Seq<int>, i: int, j: int)
    requires
        0 <= i <= j <= n.len(),
        forall|k: int| 0 <= k < n.len() ==> #[trigger] n[k] >= 0,
    ensures
        0 <= sum_of(n, i) <= sum_of(n, j),
    decreases j,
{
    if i < j {
        lemma_sums_rise(n, i, j - 1);
    } else if j > 0 {
        lemma_sums_rise(n, i - 1, j - 1);
    }
}

proof fn lemma_total(rooms: Seq<BlueprintRoom>, n: Seq<int>, i: int)
    requires
        whole_weights(rooms, n),
        0 <= i <= n.len(),
    ensures
        is_binary(weight_total(rooms, i), sum_of(n, i), 0),
    decreases i,
{
    if i > 0 {
        lemma_total(rooms, n, i - 1);
        lemma_sums_rise(n, i, n.len() as int);
        lemma_sums_rise(n, i - 1, i);
        assert(n[i - 1] >= 0);
        let w = rooms[i - 1].weight;
        lemma_binary_sign(w, n[i - 1], 0);
        lemma_nothing();
        lemma_binary_sum(weight_total(rooms, i - 1), counted(rooms[i - 1]), sum_of(n, i - 1), n[i
            - 1], 0);
    } else {
        lemma_nothing();
    }
}

proof fn lemma_nothing()
    ensures
        is_binary(F32 { bits: 0 }, 0, 0),
{
    lemma_single();
    crate::float::laws::lemma_zero(single());
    assert(0 * pow2(149) == 0);
}

/// Where the weights use up what is left of a roll.
proof fn lemma_use(rooms: Seq<BlueprintRoom>, n: Seq<int>, i: int, left: F32, l: int, x: int)
    requires
        whole_weights(rooms, n),
        0 <= i < n.len(),
        is_binary(left, l, 12),
        l == x - 4096 * sum_of(n, i),
        0 <= x < 0x100_0000,
        x <= 4096 * sum_of(n, n.len() as int),
        sum_of(n, i) < sum_of(n, n.len() as int),
        -0x100_0000 < l < 0x100_0000,
    ensures
        ({
            let j = used_up(rooms, i, left);
            &&& i <= j < n.len()
            &&& n[j] > 0
            &&& x <= 4096 * sum_of(n, j + 1)
            &&& forall|k: int| i <= k < j && #[trigger] n[k] > 0 ==> x > 4096 * sum_of(n, k + 1)
        }),
    decreases n.len() - i,
{
    assert(n[i] >= 0);
    let w = rooms[i].weight;
    lemma_binary_sign(w, n[i], 0);
    lemma_sums_rise(n, i + 1, n.len() as int);
    lemma_sums_rise(n, i, i + 1);
    assert(sum_of(n, i + 1) == sum_of(n, i) + n[i]);
    if !can_win(rooms[i]) {
        lemma_use(rooms, n, i + 1, left, l, x);
    } else {
        lemma_binary_parts(w, n[i], 0, 12);
        assert(pow2(12) == 4096) by {
            vstd::arithmetic::power2::lemma2_to64();
        }
        lemma_binary_negation(w, n[i] * 4096, 12);
        lemma_binary_sum(left, w.negation(), l, -(n[i] * 4096), 12);
        let rest = left.difference(w);
        lemma_binary_sign(rest, l - n[i] * 4096, 12);
        if l - n[i] * 4096 > 0 {
            lemma_use(rooms, n, i + 1, rest, l - n[i] * 4096, x);
        }
    }
}

/// Templates are rolled in proportion to their weights. Where the weights are
/// whole numbers, laid end to end, and the roll is `r` over 4096, the template
/// is the one in whose stretch that part of the total lies: its own stretch
/// reaches it, and none before it does.
pub proof fn law_templates_by_weight(rooms: Seq<BlueprintRoom>, n: Seq<int>, roll: F32, r: int)
    requires
        whole_weights(rooms, n),
        sum_of(n, n.len() as int) > 0,
        is_binary(roll, r, 12),
        0 <= r < 4096,
    ensures
        ({
            let j = rolled(rooms, roll);
            let total = sum_of(n, n.len() as int);
            &&& 0 <= j < n.len()
            &&& n[j] > 0
            &&& r * total <= 4096 * sum_of(n, j + 1)
            &&& forall|k: int|
                0 <= k < j && #[trigger] n[k] > 0 ==> r * total > 4096 * sum_of(n, k + 1)
        }),
{
    let total = sum_of(n, n.len() as int);
    let t = weight_total(rooms, n.len() as int);
    lemma_total(rooms, n, n.len() as int);
    lemma_binary_sign(t, total, 0);
    lemma_binary_sign(roll, r, 12);
    assert(0 <= r * total < 0x100_0000 && r * total <= 4096 * total) by (nonlinear_arith)
        requires
            0 <= r < 4096,
            0 < total <= 4095,
    ;
    // The roll is short of the top.
    assert(!(F32 { bits: crate::interior::placement::ROLL_TOP }).below(roll)) by {
        lemma_short(roll, r);
    }
    lemma_binary_product(roll, t, r, total, 12, 0);
    assert(sum_of(n, 0) == 0);
    assert(n.len() > 0);
    lemma_use(rooms, n, 0, held(roll).product(t), r * total, r * total);
}

/// A roll in parts of 4096 is short of the top.
proof fn lemma_short(roll: F32, r: int)
    requires
        is_binary(roll, r, 12),
        0 <= r < 4096,
    ensures
        !(F32 { bits: 0x3f7f_fffe }).below(roll),
{
    let f = single();
    reveal(F32::below);
    lemma_single();
    let top: u64 = 0x3f7f_fffe;
    crate::float::laws::law_order_is_by_value(f, top, roll.bits as u64);
    crate::float::lemma_packed(f, 125, 0xff_fffe);
    vstd::arithmetic::power2::lemma_pow2_unfold(24);
    vstd::arithmetic::power2::lemma_pow2_adds(12, 125);
    vstd::arithmetic::power2::lemma2_to64();
    let p = pow2(125);
    vstd::arithmetic::power2::lemma_pow2_pos(125);
    assert(pow2(137) == 4096 * p);
    assert(r * (4096 * p) <= 0xff_fffe * p) by (nonlinear_arith)
        requires
            0 <= r < 4096,
            p > 0,
    ;
}

/// A template that is alone in having a weight is always rolled.
pub proof fn law_sole_template_is_rolled(rooms: Seq<BlueprintRoom>, roll: F32, i: int)
    requires
        0 <= i < rooms.len(),
        can_win(rooms[i]),
        forall|k: int| 0 <= k < rooms.len() && k != i ==> !can_win(#[trigger] rooms[k]),
    ensures
        rolled(rooms, roll) == i,
{
    crate::interior::placement::lemma_rolled(rooms, roll);
    assert(can_win(rooms[rolled(rooms, roll)]));
}

} // verus!
