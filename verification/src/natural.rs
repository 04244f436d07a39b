//! Natural numbers of any size.
use vstd::arithmetic::power2::*;
use vstd::prelude::*;

verus! {

/// What a row of 32-bit limbs counts, the lowest one first.
pub open spec fn value(limbs: Seq<u32>) -> nat
    decreases limbs.len(),
{
    if limbs.len() == 0 {
        0
    } else {
        value(limbs.drop_last()) + limbs.last() as nat * pow2((32 * (limbs.len() - 1)) as nat)
    }
}

/// How one number stands to another.
#[derive(Debug, Clone, Copy, PartialEq, Eq, Structural)]
pub enum Standing {
    Below,
    Same,
    Above,
}

pub open spec fn standing(left: nat, right: nat) -> Standing {
    if left < right {
        Standing::Below
    } else if left == right {
        Standing::Same
    } else {
        Standing::Above
    }
}

/// A natural number.
pub struct Natural {
    limbs: Vec<u32>,
}

impl View for Natural {
    type V = nat;

    closed spec fn view(&self) -> nat {
        value(self.limbs@)
    }
}

proof fn lemma_value_step(limbs: Seq<u32>, at: int)
    requires
        0 <= at < limbs.len(),
    ensures
        value(limbs.take(at + 1)) == value(limbs.take(at)) + limbs[at] as nat * pow2(
            (32 * at) as nat,
        ),
{
    assert(limbs.take(at + 1).drop_last() =~= limbs.take(at));
}

proof fn lemma_value_bound(limbs: Seq<u32>)
    ensures
        value(limbs) < pow2((32 * limbs.len()) as nat),
    decreases limbs.len(),
{
    lemma2_to64();
    if limbs.len() > 0 {
        let below = (32 * (limbs.len() - 1)) as nat;
        lemma_value_bound(limbs.drop_last());
        lemma_pow2_adds(below, 32);
        let scale = pow2(below);
        let top = limbs.last() as nat;
        assert(top * scale + scale <= 0x1_0000_0000 * scale) by (nonlinear_arith)
            requires
                top + 1 <= 0x1_0000_0000,
        ;
        assert(scale * 0x1_0000_0000 == 0x1_0000_0000 * scale);
    }
}

/// Limbs of zero below the others move a number up.
proof fn lemma_value_moved(limbs: Seq<u32>, zeros: Seq<u32>)
    requires
        forall|i: int| 0 <= i < zeros.len() ==> zeros[i] == 0,
    ensures
        value(zeros + limbs) == value(limbs) * pow2((32 * zeros.len()) as nat),
    decreases limbs.len(),
{
    let all = zeros + limbs;
    let scale = pow2((32 * zeros.len()) as nat);
    if limbs.len() == 0 {
        assert(all =~= zeros);
        lemma_zeros(zeros);
        assert(0 * scale == 0);
    } else {
        assert(all.drop_last() =~= zeros + limbs.drop_last());
        lemma_value_moved(limbs.drop_last(), zeros);
        let below = pow2((32 * (limbs.len() - 1)) as nat);
        lemma_pow2_adds((32 * (limbs.len() - 1)) as nat, (32 * zeros.len()) as nat);
        let top = limbs.last() as nat;
        let rest = value(limbs.drop_last());
        assert((rest + top * below) * scale == rest * scale + top * (below * scale))
            by (nonlinear_arith);
        assert(32 * (all.len() - 1) == 32 * (limbs.len() - 1) + 32 * zeros.len());
    }
}

proof fn lemma_zeros(zeros: Seq<u32>)
    requires
        forall|i: int| 0 <= i < zeros.len() ==> zeros[i] == 0,
    ensures
        value(zeros) == 0,
    decreases zeros.len(),
{
    if zeros.len() > 0 {
        lemma_zeros(zeros.drop_last());
        assert(0 * pow2((32 * (zeros.len() - 1)) as nat) == 0);
    }
}

impl Natural {
    pub fn zero() -> (result: Self)
        ensures
            result@ == 0,
    {
        Natural { limbs: Vec::new() }
    }

    /// Multiplies by `factor` and adds `addend`.
    pub fn multiply_add(&mut self, factor: u64, addend: u64)
        ensures
            final(self)@ == old(self)@ * factor + addend,
    {
        let ghost before = self.limbs@;
        let count: usize = self.limbs.len();
        let mut carry: u64 = addend;
        let mut at: usize = 0;
        proof {
            lemma2_to64();
            assert(before.take(0) =~= Seq::<u32>::empty());
            assert(carry as nat * pow2(0) == carry) by (nonlinear_arith)
                requires
                    pow2(0) == 1,
            ;
            assert(0 * factor == 0);
        }
        while at < count
            invariant
                at <= count == before.len() == self.limbs.len(),
                forall|i: int| at <= i < count ==> self.limbs@[i] == before[i],
                value(self.limbs@.take(at as int)) + carry as nat * pow2((32 * at) as nat) == value(
                    before.take(at as int),
                ) * factor + addend,
            decreases count - at,
        {
            let limb: u32 = self.limbs[at];
            proof {
                assert(limb * factor + carry <= 0xffff_ffff * 0xffff_ffff_ffff_ffff
                    + 0xffff_ffff_ffff_ffff) by (nonlinear_arith)
                    requires
                        limb <= 0xffff_ffff,
                        factor <= 0xffff_ffff_ffff_ffff,
                        carry <= 0xffff_ffff_ffff_ffff,
                ;
            }
            let product: u128 = (limb as u128) * (factor as u128) + carry as u128;
            let low: u32 = (product % 0x1_0000_0000) as u32;
            let high: u64 = (product / 0x1_0000_0000) as u64;
            let ghost head = self.limbs@.take(at as int);
            self.limbs[at] = low;
            proof {
                lemma_value_step(before, at as int);
                lemma_value_step(self.limbs@, at as int);
                assert(self.limbs@.take(at as int) =~= head);
                lemma_pow2_adds((32 * at) as nat, 32);
                lemma2_to64();
                let scale = pow2((32 * at) as nat);
                let base = value(before.take(at as int));
                assert(32 * at + 32 == 32 * (at + 1));
                assert((base + limb * scale) * factor + addend == base * factor + addend + (limb
                    * factor) * scale) by (nonlinear_arith);
                assert(low as nat * scale + high as nat * (scale * 0x1_0000_0000) == (limb * factor)
                    * scale + carry * scale) by (nonlinear_arith)
                    requires
                        limb * factor + carry == high * 0x1_0000_0000 + low,
                ;
            }
            carry = high;
            at = at + 1;
        }
        assert(before.take(count as int) =~= before);
        assert(self.limbs@.take(count as int) =~= self.limbs@);
        let ghost main = self.limbs@;
        let low: u32 = (carry % 0x1_0000_0000) as u32;
        let high: u32 = (carry / 0x1_0000_0000) as u32;
        self.limbs.push(low);
        self.limbs.push(high);
        proof {
            let all = self.limbs@;
            assert(all.drop_last() =~= main.push(low));
            assert(all.drop_last().drop_last() =~= main);
            lemma_pow2_adds((32 * count) as nat, 32);
            lemma2_to64();
            let scale = pow2((32 * count) as nat);
            assert((32 * (all.len() - 1)) as nat == (32 * count + 32) as nat);
            assert(all.drop_last().len() - 1 == count);
            assert(value(all.drop_last()) == value(main) + low as nat * scale);
            assert(value(all) == value(all.drop_last()) + high as nat * (scale * 0x1_0000_0000));
            assert(low as nat * scale + high as nat * (scale * 0x1_0000_0000) == carry * scale)
                by (nonlinear_arith)
                requires
                    carry == high * 0x1_0000_0000 + low,
            ;
        }
    }

    /// The number times `2^places`.
    pub fn times_power_of_two(&self, places: usize) -> (result: Natural)
        ensures
            result@ == self@ * pow2(places as nat),
    {
        let mut limbs: Vec<u32> = Vec::new();
        let whole: usize = places / 32;
        let rest: usize = places % 32;
        let mut at: usize = 0;
        while at < whole
            invariant
                at <= whole,
                limbs.len() == at,
                forall|i: int| 0 <= i < limbs.len() ==> limbs@[i] == 0,
            decreases whole - at,
        {
            limbs.push(0);
            at = at + 1;
        }
        let ghost zeros = limbs@;
        limbs.extend_from_slice(self.limbs.as_slice());
        assert(limbs@ =~= zeros + self.limbs@);
        let mut result: Natural = Natural { limbs };
        let factor: u64 = small_power(rest);
        result.multiply_add(factor, 0);
        proof {
            lemma_value_moved(self.limbs@, zeros);
            lemma_pow2_adds((32 * whole) as nat, rest as nat);
            let number = self@;
            let wide = pow2((32 * whole) as nat);
            assert(number * wide * factor == number * (wide * factor)) by (nonlinear_arith);
        }
        result
    }

    /// Zeros above the highest limb change nothing.
    fn pad(&mut self, count: usize)
        ensures
            final(self)@ == old(self)@,
            final(self).limbs.len() >= count,
            final(self).limbs.len() >= old(self).limbs.len(),
            final(self).limbs.len() == old(self).limbs.len() || final(self).limbs.len() == count,
    {
        while self.limbs.len() < count
            invariant
                value(self.limbs@) == value(old(self).limbs@),
                self.limbs.len() >= old(self).limbs.len(),
                self.limbs.len() == old(self).limbs.len() || self.limbs.len() <= count,
            decreases count - self.limbs.len(),
        {
            let ghost before = self.limbs@;
            self.limbs.push(0);
            proof {
                assert(self.limbs@.drop_last() =~= before);
                assert(0 * pow2((32 * before.len()) as nat) == 0);
            }
        }
    }

    /// How this number stands to another.
    pub fn stands_to(&mut self, other: &mut Natural) -> (result: Standing)
        ensures
            result == standing(old(self)@, old(other)@),
            final(self)@ == old(self)@,
            final(other)@ == old(other)@,
    {
        let count: usize = if self.limbs.len() < other.limbs.len() {
            other.limbs.len()
        } else {
            self.limbs.len()
        };
        self.pad(count);
        other.pad(count);
        let ghost left = self.limbs@;
        let ghost right = other.limbs@;
        let mut at: usize = count;
        assert(left.take(count as int) =~= left);
        assert(right.take(count as int) =~= right);
        while at > 0
            invariant
                at <= count == self.limbs.len() == other.limbs.len(),
                left == self.limbs@,
                right == other.limbs@,
                value(left) == old(self)@,
                value(right) == old(other)@,
                value(left) - value(left.take(at as int)) == value(right) - value(
                    right.take(at as int),
                ),
            decreases at,
        {
            let mine: u32 = self.limbs[at - 1];
            let theirs: u32 = other.limbs[at - 1];
            proof {
                lemma_value_step(left, at - 1);
                lemma_value_step(right, at - 1);
                lemma_value_bound(left.take(at - 1));
                lemma_value_bound(right.take(at - 1));
                let scale = pow2((32 * (at - 1)) as nat);
                assert(mine < theirs ==> mine as nat * scale + scale <= theirs as nat * scale)
                    by (nonlinear_arith);
                assert(theirs < mine ==> theirs as nat * scale + scale <= mine as nat * scale)
                    by (nonlinear_arith);
            }
            if mine < theirs {
                return Standing::Below;
            }
            if theirs < mine {
                return Standing::Above;
            }
            at = at - 1;
        }
        assert(left.take(0) =~= Seq::<u32>::empty());
        assert(right.take(0) =~= Seq::<u32>::empty());
        Standing::Same
    }
}

fn small_power(places: usize) -> (result: u64)
    requires
        places < 32,
    ensures
        result == pow2(places as nat),
{
    let mut result: u64 = 1;
    let mut done: usize = 0;
    proof {
        lemma2_to64();
    }
    while done < places
        invariant
            done <= places < 32,
            result == pow2(done as nat),
        decreases places - done,
    {
        proof {
            lemma2_to64();
            lemma_pow2_unfold((done + 1) as nat);
            lemma_pow2_strictly_increases(done as nat, 32);
        }
        result = result * 2;
        done = done + 1;
    }
    result
}

} // verus!
