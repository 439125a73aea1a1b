use vstd::prelude::*;

verus! {

pub open spec fn spec_melee_damage(power: int, defense: int) -> int {
    if power - defense < 1 {
        1
    } else {
        power - defense
    }
}

/// Damage of a landed hit: power minus defense, but never less than one.
pub fn melee_damage(power: i32, defense: i32) -> (r: i64)
    ensures
        r == spec_melee_damage(power as int, defense as int),
        r >= 1,
{
    let d: i64 = power as i64 - defense as i64;
    if d < 1 {
        1
    } else {
        d
    }
}

pub open spec fn clamp_i32(v: int) -> int {
    if v < i32::MIN {
        i32::MIN as int
    } else if v > i32::MAX {
        i32::MAX as int
    } else {
        v
    }
}

pub open spec fn sum_of(s: Seq<i64>) -> int
    decreases s.len(),
{
    if s.len() == 0 {
        0
    } else {
        sum_of(s.drop_last()) + s.last()
    }
}

/// Hit points after taking every pending amount, held to the range of `i32`.
pub fn hp_after_damage(hp: i32, amounts: &Vec<i64>) -> (r: i32)
    ensures
        r == clamp_i32(hp - sum_of(amounts@)),
{
    let mut total: i128 = hp as i128;
    let n: usize = amounts.len();
    let mut i: usize = 0;
    while i < n
        invariant
            i <= amounts@.len(),
            total == hp - sum_of(amounts@.take(i as int)),
            -(0x8000_0000 + 0x8000_0000_0000_0000 * i as int) <= total <= 0x8000_0000 + 0x8000_0000_0000_0000 * i as int,
            n == amounts@.len(),
        decreases n - i,
    {
        assert(amounts@.take(i + 1).drop_last() == amounts@.take(i as int));
        total = total - amounts[i] as i128;
        i = i + 1;
    }
    assert(amounts@.take(amounts@.len() as int) == amounts@);
    if total < i32::MIN as i128 {
        i32::MIN
    } else if total > i32::MAX as i128 {
        i32::MAX
    } else {
        total as i32
    }
}

pub open spec fn spec_healed_hp(hp: int, max_hp: int, amount: int) -> int {
    clamp_i32(if hp + amount < max_hp { hp + amount } else { max_hp })
}

/// Hit points after drinking a potion: raised by its amount but capped at the maximum.
pub fn healed_hp(hp: i32, max_hp: i32, amount: i32) -> (r: i32)
    ensures
        r == spec_healed_hp(hp as int, max_hp as int, amount as int),
        r <= max_hp,
{
    let v: i64 = hp as i64 + amount as i64;
    let capped: i64 = if v < max_hp as i64 { v } else { max_hp as i64 };
    if capped < i32::MIN as i64 {
        i32::MIN
    } else {
        capped as i32
    }
}

} // verus!
