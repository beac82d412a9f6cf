use vstd::prelude::*;


verus! {

/// The radix of one limb.
pub open spec fn limb_base() -> nat {
    0x1_0000_0000
}

/// `limb_base()` raised to `k`: the weight of limb `k`.
pub open spec fn limb_weight(k: nat) -> nat
    decreases k,
{
    if k == 0 {
        1
    } else {
        limb_base() * limb_weight((k - 1) as nat)
    }
}

/// The number that little-endian limbs denote.
pub open spec fn limbs_value(limbs: Seq<u32>) -> nat
    decreases limbs.len(),
{
    if limbs.len() == 0 {
        0
    } else {
        limbs_value(limbs.drop_last()) + limbs.last() as nat * limb_weight((limbs.len() - 1) as nat)
    }
}

/// Limbs without a most significant zero limb.
pub open spec fn normalized(limbs: Seq<u32>) -> bool {
    limbs.len() == 0 || limbs.last() != 0
}

/// The value of the first `k` limbs, or of all when there are fewer.
pub open spec fn prefix_value(limbs: Seq<u32>, k: int) -> nat {
    if k < limbs.len() {
        limbs_value(limbs.take(k))
    } else {
        limbs_value(limbs)
    }
}

/// Two raised to `k`.
pub open spec fn power_of_two(k: nat) -> nat
    decreases k,
{
    if k == 0 {
        1
    } else {
        2 * power_of_two((k - 1) as nat)
    }
}

/// Ten raised to `k`.
pub open spec fn power_of_ten_value(k: nat) -> nat
    decreases k,
{
    if k == 0 {
        1
    } else {
        10 * power_of_ten_value((k - 1) as nat)
    }
}

/// Decimal digits denote this number.
pub open spec fn digits_value(digits: Seq<char>) -> nat
    decreases digits.len(),
{
    if digits.len() == 0 {
        0
    } else {
        digits_value(digits.drop_last()) * 10 + (digits.last() as nat - '0' as nat) as nat
    }
}

pub open spec fn is_decimal_digit(c: char) -> bool {
    '0' <= c && c <= '9'
}

proof fn lemma_weight_positive(k: nat)
    ensures
        limb_weight(k) >= 1,
    decreases k,
{
    if k > 0 {
        lemma_weight_positive((k - 1) as nat);
    }
}

proof fn lemma_weight_step(k: nat)
    ensures
        limb_weight(k + 1) == limb_base() * limb_weight(k),
{
}

proof fn lemma_weight_add(a: nat, b: nat)
    ensures
        limb_weight(a + b) == limb_weight(a) * limb_weight(b),
    decreases b,
{
    if b > 0 {
        let c = (b - 1) as nat;
        lemma_weight_add(a, c);
        assert(a + b == (a + c) + 1);
        assert(limb_weight(a + b) == limb_base() * limb_weight(a + c));
        assert(limb_weight(b) == limb_base() * limb_weight(c));
        let wa = limb_weight(a);
        let wb = limb_weight(c);
        assert(limb_base() * (wa * wb) == wa * (limb_base() * wb)) by (nonlinear_arith);
        assert(limb_weight(a + b) == wa * limb_weight(b));
    } else {
        assert(a + b == a);
        assert(limb_weight(0) == 1);
        assert(limb_weight(a) * 1 == limb_weight(a));
    }
}

proof fn lemma_weight_monotone(a: nat, b: nat)
    requires
        a <= b,
    ensures
        limb_weight(a) <= limb_weight(b),
    decreases b,
{
    if a < b {
        lemma_weight_monotone(a, (b - 1) as nat);
        lemma_weight_positive((b - 1) as nat);
    }
}

proof fn lemma_value_take_step(s: Seq<u32>, k: int)
    requires
        0 <= k < s.len(),
    ensures
        limbs_value(s.take(k + 1)) == limbs_value(s.take(k)) + s[k] as nat * limb_weight(k as nat),
{
    assert(s.take(k + 1).drop_last() == s.take(k));
}

proof fn lemma_value_push(s: Seq<u32>, x: u32)
    ensures
        limbs_value(s.push(x)) == limbs_value(s) + x as nat * limb_weight(s.len()),
{
    assert(s.push(x).drop_last() == s);
}

proof fn lemma_value_bound(s: Seq<u32>)
    ensures
        limbs_value(s) < limb_weight(s.len()),
    decreases s.len(),
{
    if s.len() > 0 {
        let k = (s.len() - 1) as nat;
        lemma_value_bound(s.drop_last());
        let w = limb_weight(k);
        let v = limbs_value(s.drop_last());
        let x = s.last() as nat;
        assert(v + x * w < limb_base() * w) by (nonlinear_arith)
            requires
                v < w,
                x < limb_base(),
        ;
    }
}

proof fn lemma_value_lower(s: Seq<u32>)
    requires
        s.len() > 0,
        s.last() != 0,
    ensures
        limbs_value(s) >= limb_weight((s.len() - 1) as nat),
{
    let w = limb_weight((s.len() - 1) as nat);
    let x = s.last() as nat;
    assert(x * w >= w) by (nonlinear_arith)
        requires
            x >= 1,
    ;
}

proof fn lemma_value_update(s: Seq<u32>, i: int, x: u32)
    requires
        0 <= i < s.len(),
    ensures
        limbs_value(s.update(i, x)) == limbs_value(s) + x as int * limb_weight(i as nat) - s[i] as int
            * limb_weight(i as nat),
    decreases s.len(),
{
    let t = s.update(i, x);
    if i == s.len() - 1 {
        assert(t.drop_last() == s.drop_last());
    } else {
        assert(t.drop_last() == s.drop_last().update(i, x));
        lemma_value_update(s.drop_last(), i, x);
    }
}

proof fn lemma_value_take_all(s: Seq<u32>)
    ensures
        limbs_value(s.take(s.len() as int)) == limbs_value(s),
{
    assert(s.take(s.len() as int) == s);
}

proof fn lemma_value_zeros(n: nat)
    ensures
        limbs_value(Seq::new(n, |i: int| 0u32)) == 0,
    decreases n,
{
    let z = Seq::new(n, |i: int| 0u32);
    if n > 0 {
        assert(z.drop_last() == Seq::new((n - 1) as nat, |i: int| 0u32));
        lemma_value_zeros((n - 1) as nat);
        assert(z.last() == 0u32);
        assert(limbs_value(z) == limbs_value(z.drop_last()) + 0 * limb_weight((n - 1) as nat));
    }
}

proof fn lemma_value_split(s: Seq<u32>, k: int)
    requires
        0 <= k <= s.len(),
    ensures
        limbs_value(s) == limbs_value(s.take(k)) + limb_weight(k as nat) * limbs_value(s.skip(k)),
    decreases s.len(),
{
    if k == s.len() {
        assert(s.take(k) == s);
        assert(s.skip(k).len() == 0);
        assert(limbs_value(s.skip(k)) == 0);
        assert(limb_weight(k as nat) * 0 == 0) by (nonlinear_arith);
    } else {
        let d = s.drop_last();
        lemma_value_split(d, k);
        assert(d.take(k) == s.take(k));
        let tail = s.skip(k);
        assert(tail.drop_last() == d.skip(k));
        assert(tail.last() == s.last());
        let n = (s.len() - 1) as nat;
        assert(tail.len() - 1 == n - k);
        assert(limbs_value(tail) == limbs_value(d.skip(k)) + s.last() as nat * limb_weight(
            (n - k) as nat,
        ));
        lemma_weight_add(k as nat, (n - k) as nat);
        assert(k as nat + (n - k) as nat == n);
        let wk = limb_weight(k as nat);
        let wr = limb_weight((n - k) as nat);
        let r = limbs_value(d.skip(k));
        let x = s.last() as nat;
        assert(limb_weight(n) == wk * wr);
        assert(limbs_value(s) == limbs_value(d) + x * limb_weight(n));
        assert(wk * r + x * (wk * wr) == wk * (r + x * wr)) by (nonlinear_arith);
    }
}

/// Dropping most significant zero limbs keeps the value.
proof fn lemma_value_drop_zero(s: Seq<u32>)
    requires
        s.len() > 0,
        s.last() == 0,
    ensures
        limbs_value(s.drop_last()) == limbs_value(s),
{
}

/// One step of a carry chain at a limb of weight `weight`.
proof fn lemma_carry_step(low: int, next_carry: int, total: int, carry: int, weight: int)
    requires
        low + next_carry * limb_base() == total + carry,
    ensures
        low * weight + next_carry * (limb_base() * weight) == total * weight + carry * weight,
{
    assert(low * weight + next_carry * (limb_base() * weight) == (low + next_carry * limb_base())
        * weight) by (nonlinear_arith);
    assert((total + carry) * weight == total * weight + carry * weight) by (nonlinear_arith);
}

/// An unbounded natural number, stored as little-endian 32-bit limbs.
#[derive(Clone, Debug, PartialEq, Eq)]
pub struct BigUint(pub Vec<u32>);

impl BigUint {
    /// The number this value denotes.
    pub open spec fn value(&self) -> nat {
        limbs_value(self.0@)
    }

    /// No most significant zero limb: the representation of each number is unique.
    pub open spec fn wf(&self) -> bool {
        normalized(self.0@)
    }

    pub fn from_u64(value: u64) -> (result: BigUint)
        ensures
            result.wf(),
            result.value() == value,
    {
        let low = (value % 0x1_0000_0000) as u32;
        let high = (value / 0x1_0000_0000) as u32;
        let mut limbs: Vec<u32> = Vec::new();
        limbs.push(low);
        limbs.push(high);
        proof {
            assert(limbs@.drop_last().drop_last().len() == 0);
            assert(limb_weight(0) == 1);
            assert(limbs@.drop_last().last() == low);
            assert(limbs_value(limbs@.drop_last().drop_last()) == 0);
            assert(limbs_value(limbs@.drop_last()) == low as nat * limb_weight(0));
            assert(limb_weight(1) == limb_base() * limb_weight(0));
            assert(limbs_value(limbs@) == low as nat + high as nat * limb_base());
        }
        normalize(&mut limbs);
        BigUint(limbs)
    }

    /// Parses ASCII decimal digits.
    pub fn from_decimal(digits: &str) -> (result: BigUint)
        requires
            forall|i: int| 0 <= i < digits@.len() ==> is_decimal_digit(#[trigger] digits@[i]),
        ensures
            result.wf(),
            result.value() == digits_value(digits@),
    {
        let mut value = BigUint::from_u64(0);
        for digit in it: digits.chars()
            invariant
                it.seq() == digits@,
                forall|i: int| 0 <= i < digits@.len() ==> is_decimal_digit(#[trigger] digits@[i]),
                value.wf(),
                value.value() == digits_value(digits@.take(it.index() as int)),
        {
            let ghost before = digits@.take(it.index() as int);
            proof {
                assert(digits@.take(it.index() + 1).drop_last() == before);
                assert(digit == digits@[it.index() as int]);
            }
            value.multiply_small(10);
            let offset = (digit as u32) - ('0' as u32);
            value.add_small(offset);
        }
        proof {
            assert(digits@.take(digits@.len() as int) == digits@);
        }
        value
    }

    pub fn power_of_ten(exponent: u32) -> (result: BigUint)
        ensures
            result.wf(),
            result.value() == power_of_ten_value(exponent as nat),
    {
        let mut value = BigUint::from_u64(1);
        let mut count: u32 = 0;
        while count < exponent
            invariant
                count <= exponent,
                value.wf(),
                value.value() == power_of_ten_value(count as nat),
            decreases exponent - count,
        {
            value.multiply_small(10);
            count = count + 1;
        }
        value
    }

    /// Adds a small number in place.
    fn add_small(&mut self, value: u32)
        requires
            old(self).wf(),
        ensures
            final(self).wf(),
            final(self).value() == old(self).value() + value,
    {
        let ghost start = self.0@;
        let mut carry: u64 = value as u64;
        let mut index: usize = 0;
        proof {
            assert(self.0@.take(0).len() == 0);
            assert(start.take(0).len() == 0);
            assert(limb_weight(0) == 1);
            assert(carry * limb_weight(0) == carry) by (nonlinear_arith)
                requires
                    limb_weight(0) == 1,
            ;
        }
        while index < self.0.len()
            invariant
                normalized(start),
                self.0@.len() == start.len(),
                index <= start.len(),
                carry < 0x1_0000_0000,
                start == old(self).0@,
                index > 0 ==> carry > 0,
                forall|j: int| index <= j < start.len() ==> self.0@[j] == start[j],
                limbs_value(self.0@.take(index as int)) + carry * limb_weight(index as nat)
                    == limbs_value(start.take(index as int)) + value,
            decreases start.len() - index,
        {
            let ghost before = self.0@;
            let limb = self.0[index];
            let sum = limb as u64 + carry;
            let low = (sum % 0x1_0000_0000) as u32;
            let next_carry = sum / 0x1_0000_0000;
            self.0.set(index, low);
            proof {
                let w = limb_weight(index as nat) as int;
                lemma_value_take_step(self.0@, index as int);
                lemma_value_take_step(start, index as int);
                assert(self.0@.take(index as int) == before.take(index as int));
                lemma_carry_step(low as int, next_carry as int, limb as int, carry as int, w);
                lemma_weight_step(index as nat);
                assert(limbs_value(self.0@.take(index + 1)) + next_carry * limb_weight(
                    (index + 1) as nat,
                ) == limbs_value(start.take(index + 1)) + value);
            }
            carry = next_carry;
            index = index + 1;
            if carry == 0 {
                proof {
                    assert(carry * limb_weight(index as nat) == 0) by (nonlinear_arith)
                        requires
                            carry == 0,
                    ;
                    assert(self.0@.skip(index as int) =~= start.skip(index as int));
                    lemma_value_split(self.0@, index as int);
                    lemma_value_split(start, index as int);
                    assert(limbs_value(self.0@.take(index as int)) == limbs_value(
                        start.take(index as int),
                    ) + value);
                    let w = limb_weight(index as nat);
                    let r = limbs_value(start.skip(index as int));
                    assert(limbs_value(self.0@) == limbs_value(self.0@.take(index as int)) + w * r);
                    assert(limbs_value(start) == limbs_value(start.take(index as int)) + w * r);
                    assert(limbs_value(self.0@) == limbs_value(start) + value);
                    if start.len() > 0 && index == start.len() {
                        assert(self.0@.last() == low);
                        assert(low as int == sum);
                    } else if start.len() > 0 {
                        assert(self.0@.last() == start.last());
                    }
                }
                return ;
            }
        }
        proof {
            lemma_value_take_all(self.0@);
            lemma_value_take_all(start);
        }
        if carry != 0 {
            let high = carry as u32;
            proof {
                lemma_value_push(self.0@, high);
            }
            self.0.push(high);
        } else {
            proof {
                assert(carry * limb_weight(self.0@.len()) == 0) by (nonlinear_arith)
                    requires
                        carry == 0,
                ;
            }
        }
    }

    /// Multiplies by a small number in place.
    fn multiply_small(&mut self, value: u32)
        requires
            old(self).wf(),
        ensures
            value != 0 ==> final(self).wf(),
            final(self).value() == old(self).value() * value,
    {
        let ghost start = self.0@;
        let mut carry: u64 = 0;
        let mut index: usize = 0;
        proof {
            assert(self.0@.take(0).len() == 0);
            assert(start.take(0).len() == 0);
            assert(limbs_value(start.take(0)) * value == 0) by (nonlinear_arith)
                requires
                    limbs_value(start.take(0)) == 0,
            ;
        }
        while index < self.0.len()
            invariant
                normalized(start),
                self.0@.len() == start.len(),
                index <= start.len(),
                carry < 0x1_0000_0000,
                forall|j: int| index <= j < start.len() ==> self.0@[j] == start[j],
                limbs_value(self.0@.take(index as int)) + carry * limb_weight(index as nat)
                    == limbs_value(start.take(index as int)) * value,
                value != 0 && index == start.len() && index > 0 ==> self.0@.last() != 0 || carry
                    != 0,
            decreases start.len() - index,
        {
            let ghost before = self.0@;
            let limb = self.0[index] as u64;
            assert(limb * (value as u64) <= 0xffff_fffe_0000_0001) by (nonlinear_arith)
                requires
                    limb < 0x1_0000_0000,
                    value < 0x1_0000_0000,
            ;
            let product = limb * (value as u64) + carry;
            let low = (product % 0x1_0000_0000) as u32;
            let next_carry = product / 0x1_0000_0000;
            self.0.set(index, low);
            proof {
                let w = limb_weight(index as nat) as int;
                let p = limbs_value(start.take(index as int)) as int;
                lemma_value_take_step(self.0@, index as int);
                lemma_value_take_step(start, index as int);
                assert(self.0@.take(index as int) == before.take(index as int));
                lemma_carry_step(low as int, next_carry as int, limb * value, carry as int, w);
                assert((limb * value) * w == (limb * w) * value) by (nonlinear_arith);
                assert((p + limb * w) * value == p * value + (limb * w) * value) by (nonlinear_arith);
                lemma_weight_step(index as nat);
                if value != 0 && index + 1 == start.len() && next_carry == 0 {
                    assert(limb >= 1);
                    assert(limb * value >= 1) by (nonlinear_arith)
                        requires
                            limb >= 1,
                            value >= 1,
                    ;
                }
            }
            carry = next_carry;
            index = index + 1;
        }
        proof {
            lemma_value_take_all(self.0@);
            lemma_value_take_all(start);
        }
        if carry != 0 {
            let high = carry as u32;
            proof {
                lemma_value_push(self.0@, high);
            }
            self.0.push(high);
        } else {
            proof {
                assert(carry * limb_weight(self.0@.len()) == 0) by (nonlinear_arith)
                    requires
                        carry == 0,
                ;
            }
        }
    }
}

impl BigUint {
    /// Multiplies by a 64-bit number.
    pub fn multiply_u64(&self, value: u64) -> (product: BigUint)
        ensures
            product.wf(),
            product.value() == self.value() * value,
    {
        let mut result: Vec<u32> = Vec::new();
        let mut carry: u128 = 0;
        let mut index: usize = 0;
        proof {
            assert(self.0@.take(0).len() == 0);
            assert(limbs_value(self.0@.take(0)) * value == 0) by (nonlinear_arith)
                requires
                    limbs_value(self.0@.take(0)) == 0,
            ;
        }
        while index < self.0.len()
            invariant
                index <= self.0@.len(),
                result@.len() == index,
                carry < 0x1_0000_0000_0000_0000,
                limbs_value(result@) + carry * limb_weight(index as nat) == limbs_value(
                    self.0@.take(index as int),
                ) * value,
            decreases self.0@.len() - index,
        {
            let limb = self.0[index] as u128;
            assert(limb * (value as u128) <= 0xffff_fffe_ffff_ffff_0000_0001) by (nonlinear_arith)
                requires
                    limb < 0x1_0000_0000,
                    value < 0x1_0000_0000_0000_0000,
            ;
            let product = limb * (value as u128) + carry;
            let low = (product % 0x1_0000_0000) as u32;
            let next_carry = product / 0x1_0000_0000;
            proof {
                let w = limb_weight(index as nat) as int;
                let p = limbs_value(self.0@.take(index as int)) as int;
                lemma_value_push(result@, low);
                lemma_value_take_step(self.0@, index as int);
                lemma_carry_step(low as int, next_carry as int, limb * value, carry as int, w);
                assert((limb * value) * w == (limb * w) * value) by (nonlinear_arith);
                assert((p + limb * w) * value == p * value + (limb * w) * value) by (nonlinear_arith);
                lemma_weight_step(index as nat);
            }
            result.push(low);
            carry = next_carry;
            index = index + 1;
        }
        proof {
            lemma_value_take_all(self.0@);
        }
        while carry != 0
            invariant
                limbs_value(result@) + carry * limb_weight(result@.len()) == self.value() * value,
            decreases carry,
        {
            let low = (carry % 0x1_0000_0000) as u32;
            let next_carry = carry / 0x1_0000_0000;
            proof {
                let w = limb_weight(result@.len()) as int;
                lemma_value_push(result@, low);
                lemma_carry_step(low as int, next_carry as int, carry as int, 0, w);
                lemma_weight_step(result@.len());
            }
            result.push(low);
            carry = next_carry;
        }
        proof {
            assert(carry * limb_weight(result@.len()) == 0) by (nonlinear_arith)
                requires
                    carry == 0,
            ;
        }
        normalize(&mut result);
        BigUint(result)
    }

    /// Multiplies two numbers.
    pub fn multiply(&self, other: &BigUint) -> (product: BigUint)
        requires
            self.0@.len() + other.0@.len() + 1 <= usize::MAX,
        ensures
            product.wf(),
            product.value() == self.value() * other.value(),
    {
        let n = self.0.len();
        let m = other.0.len();
        let total = n + m + 1;
        let mut result: Vec<u32> = Vec::new();
        while result.len() < total
            invariant
                result@.len() <= total,
                forall|i: int| 0 <= i < result@.len() ==> result@[i] == 0u32,
            decreases total - result@.len(),
        {
            result.push(0);
        }
        proof {
            assert(result@ == Seq::new(total as nat, |i: int| 0u32));
            lemma_value_zeros(total as nat);
            assert(self.0@.take(0).len() == 0);
            assert(limbs_value(self.0@.take(0)) * other.value() == 0) by (nonlinear_arith)
                requires
                    limbs_value(self.0@.take(0)) == 0,
            ;
        }
        let ghost big = other.value();
        let mut left_index: usize = 0;
        while left_index < n
            invariant
                n == self.0@.len(),
                m == other.0@.len(),
                total == n + m + 1,
                big == other.value(),
                left_index <= n,
                result@.len() == total,
                limbs_value(result@) == limbs_value(self.0@.take(left_index as int)) * big,
            decreases n - left_index,
        {
            let left = self.0[left_index];
            let ghost row = limbs_value(result@);
            let ghost wi = limb_weight(left_index as nat) as int;
            let mut carry: u64 = 0;
            let mut right_index: usize = 0;
            proof {
                assert(other.0@.take(0).len() == 0);
                assert(left * limbs_value(other.0@.take(0)) * wi == 0) by (nonlinear_arith)
                    requires
                        limbs_value(other.0@.take(0)) == 0,
                ;
                assert(carry * limb_weight(left_index as nat) == 0) by (nonlinear_arith)
                    requires
                        carry == 0,
                ;
            }
            while right_index < m
                invariant
                    n == self.0@.len(),
                    m == other.0@.len(),
                    total == n + m + 1,
                    left_index < n,
                    right_index <= m,
                    left == self.0@[left_index as int],
                    wi == limb_weight(left_index as nat),
                    result@.len() == total,
                    carry < 0x1_0000_0000,
                    limbs_value(result@) + carry * limb_weight((left_index + right_index) as nat)
                        == row + left * limbs_value(other.0@.take(right_index as int)) * wi,
                decreases m - right_index,
            {
                let index = left_index + right_index;
                let right = other.0[right_index];
                let old_limb = result[index];
                assert((left as u64) * (right as u64) <= 0xffff_fffe_0000_0001) by (nonlinear_arith)
                    requires
                        left < 0x1_0000_0000,
                        right < 0x1_0000_0000,
                ;
                let product = (left as u64) * (right as u64) + (old_limb as u64) + carry;
                let low = (product % 0x1_0000_0000) as u32;
                let next_carry = product / 0x1_0000_0000;
                proof {
                    let w = limb_weight(index as nat) as int;
                    let wj = limb_weight(right_index as nat) as int;
                    let q = limbs_value(other.0@.take(right_index as int)) as int;
                    lemma_value_update(result@, index as int, low);
                    lemma_value_take_step(other.0@, right_index as int);
                    lemma_carry_step(
                        low as int,
                        next_carry as int,
                        left * right + old_limb,
                        carry as int,
                        w,
                    );
                    lemma_weight_add(left_index as nat, right_index as nat);
                    lemma_weight_step(index as nat);
                    assert(w == wi * wj);
                    assert(left * (q + right * wj) * wi == left * q * wi + (left * right) * (wi
                        * wj)) by (nonlinear_arith);
                    assert((left * right + old_limb) * w == (left * right) * w + old_limb * w)
                        by (nonlinear_arith);
                }
                result.set(index, low);
                carry = next_carry;
                right_index = right_index + 1;
            }
            proof {
                lemma_value_take_all(other.0@);
                lemma_value_take_step(self.0@, left_index as int);
                let p = limbs_value(self.0@.take(left_index as int)) as int;
                assert((p + left * wi) * big == p * big + left * big * wi) by (nonlinear_arith);
                lemma_value_bound(self.0@.take(left_index + 1));
                lemma_value_bound(other.0@);
                lemma_weight_add((left_index + 1) as nat, m as nat);
                let pv = limbs_value(self.0@.take(left_index + 1));
                assert(pv * big < limb_weight((left_index + 1) as nat) * limb_weight(m as nat))
                    by (nonlinear_arith)
                    requires
                        pv < limb_weight((left_index + 1) as nat),
                        big < limb_weight(m as nat),
                ;
            }
            let ghost target = limbs_value(self.0@.take(left_index + 1)) * big;
            let mut index = left_index + m;
            while carry != 0
                invariant
                    result@.len() == total,
                    total == n + m + 1,
                    left_index < n,
                    left_index + m <= index,
                    carry < 0x1_0000_0000,
                    target < limb_weight((left_index + 1 + m) as nat),
                    limbs_value(result@) + carry * limb_weight(index as nat) == target,
                decreases total - index,
            {
                proof {
                    if index >= left_index + 1 + m {
                        lemma_weight_monotone((left_index + 1 + m) as nat, index as nat);
                        assert(carry * limb_weight(index as nat) >= limb_weight(index as nat))
                            by (nonlinear_arith)
                            requires
                                carry >= 1,
                        ;
                    }
                }
                let old_limb = result[index];
                let sum = (old_limb as u64) + carry;
                let low = (sum % 0x1_0000_0000) as u32;
                let next_carry = sum / 0x1_0000_0000;
                proof {
                    let w = limb_weight(index as nat) as int;
                    lemma_value_update(result@, index as int, low);
                    lemma_carry_step(low as int, next_carry as int, old_limb as int, carry as int, w);
                    lemma_weight_step(index as nat);
                }
                result.set(index, low);
                carry = next_carry;
                index = index + 1;
            }
            proof {
                assert(carry * limb_weight(index as nat) == 0) by (nonlinear_arith)
                    requires
                        carry == 0,
                ;
            }
            left_index = left_index + 1;
        }
        proof {
            lemma_value_take_all(self.0@);
        }
        normalize(&mut result);
        BigUint(result)
    }
}

proof fn lemma_power_of_two_add(a: nat, b: nat)
    ensures
        power_of_two(a + b) == power_of_two(a) * power_of_two(b),
    decreases b,
{
    if b > 0 {
        let c = (b - 1) as nat;
        lemma_power_of_two_add(a, c);
        assert(a + b == (a + c) + 1);
        assert(power_of_two(a + b) == 2 * power_of_two(a + c));
        assert(power_of_two(b) == 2 * power_of_two(c));
        let x = power_of_two(a);
        let y = power_of_two(c);
        assert(2 * (x * y) == x * (2 * y)) by (nonlinear_arith);
    } else {
        assert(power_of_two(0) == 1);
        assert(power_of_two(a) * 1 == power_of_two(a));
    }
}

proof fn lemma_power_of_two_words(words: nat)
    ensures
        power_of_two(32 * words) == limb_weight(words),
    decreases words,
{
    if words > 0 {
        lemma_power_of_two_words((words - 1) as nat);
        lemma_power_of_two_add(32, 32 * (words - 1) as nat);
        assert(32 + 32 * (words - 1) as nat == 32 * words);
        lemma_power_of_two_32();
    }
}

proof fn lemma_value_prefix_step(s: Seq<u32>, k: int)
    requires
        0 <= k,
    ensures
        prefix_value(s, k + 1) == prefix_value(s, k) + (if k < s.len() {
            s[k] as int
        } else {
            0
        }) * limb_weight(k as nat),
{
    if k < s.len() {
        lemma_value_take_step(s, k);
        if k + 1 == s.len() {
            lemma_value_take_all(s);
        }
    } else {
        assert(0 * limb_weight(k as nat) == 0);
    }
}

proof fn lemma_longer_is_larger(a: Seq<u32>, b: Seq<u32>)
    requires
        normalized(b),
        a.len() < b.len(),
    ensures
        limbs_value(a) < limbs_value(b),
{
    lemma_value_bound(a);
    lemma_value_lower(b);
    lemma_weight_monotone(a.len(), (b.len() - 1) as nat);
}

proof fn lemma_compare_at(a: Seq<u32>, b: Seq<u32>, k: int)
    requires
        a.len() == b.len(),
        0 <= k < a.len(),
        a.skip(k + 1) == b.skip(k + 1),
        a[k] < b[k],
    ensures
        limbs_value(a) < limbs_value(b),
{
    lemma_value_split(a, k + 1);
    lemma_value_split(b, k + 1);
    lemma_value_take_step(a, k);
    lemma_value_take_step(b, k);
    lemma_value_bound(a.take(k));
    let w = limb_weight(k as nat) as int;
    let x = a[k] as int;
    let y = b[k] as int;
    assert(x * w + w <= y * w) by (nonlinear_arith)
        requires
            x < y,
            w >= 0,
    ;
}

impl BigUint {
    /// Multiplies by two raised to `bits`.
    pub fn shift_left(&self, bits: u32) -> (shifted: BigUint)
        requires
            self.0@.len() + bits / 32 + 1 <= usize::MAX,
        ensures
            self.wf() ==> shifted.wf(),
            shifted.value() == self.value() * power_of_two(bits as nat),
    {
        if self.0.len() == 0 {
            proof {
                assert(self.value() * power_of_two(bits as nat) == 0) by (nonlinear_arith)
                    requires
                        self.value() == 0,
                ;
            }
            return BigUint(Vec::new());
        }
        let word_shift = (bits / 32) as usize;
        let bit_shift = bits % 32;
        let mut scale: u64 = 1;
        let mut doubled: u32 = 0;
        proof {
            lemma_power_of_two_32();
        }
        while doubled < bit_shift
            invariant
                doubled <= bit_shift < 32,
                scale == power_of_two(doubled as nat),
                power_of_two(31) == 0x8000_0000,
            decreases bit_shift - doubled,
        {
            proof {
                lemma_power_of_two_monotone((doubled + 1) as nat, 31);
            }
            scale = scale * 2;
            doubled = doubled + 1;
        }
        proof {
            lemma_power_of_two_monotone(bit_shift as nat, 31);
            lemma_power_of_two_positive(bit_shift as nat);
        }
        let mut result: Vec<u32> = Vec::new();
        while result.len() < word_shift
            invariant
                result@.len() <= word_shift,
                forall|i: int| 0 <= i < result@.len() ==> result@[i] == 0u32,
            decreases word_shift - result@.len(),
        {
            result.push(0);
        }
        let ghost factor = scale * limb_weight(word_shift as nat);
        proof {
            assert(result@ == Seq::new(word_shift as nat, |i: int| 0u32));
            lemma_value_zeros(word_shift as nat);
            assert(self.0@.take(0).len() == 0);
            assert(limbs_value(self.0@.take(0)) * factor == 0) by (nonlinear_arith)
                requires
                    limbs_value(self.0@.take(0)) == 0,
            ;
        }
        let mut carry: u64 = 0;
        let mut index: usize = 0;
        while index < self.0.len()
            invariant
                index <= self.0@.len(),
                result@.len() == word_shift + index,
                factor == scale * limb_weight(word_shift as nat),
                1 <= scale <= 0x8000_0000,
                carry < scale,
                limbs_value(result@) + carry * limb_weight((word_shift + index) as nat)
                    == limbs_value(self.0@.take(index as int)) * factor,
                normalized(self.0@) && index == self.0@.len() && index > 0 ==> result@.last()
                    != 0 || carry != 0,
            decreases self.0@.len() - index,
        {
            let limb = self.0[index] as u64;
            assert(limb * scale + carry < 0x1_0000_0000 * scale) by (nonlinear_arith)
                requires
                    limb < 0x1_0000_0000,
                    carry < scale,
            ;
            let shifted = limb * scale + carry;
            let low = (shifted % 0x1_0000_0000) as u32;
            let next_carry = shifted / 0x1_0000_0000;
            proof {
                let w = limb_weight((word_shift + index) as nat) as int;
                let wi = limb_weight(index as nat) as int;
                let ww = limb_weight(word_shift as nat) as int;
                let p = limbs_value(self.0@.take(index as int)) as int;
                lemma_value_push(result@, low);
                lemma_value_take_step(self.0@, index as int);
                lemma_carry_step(low as int, next_carry as int, limb * scale, carry as int, w);
                lemma_weight_step((word_shift + index) as nat);
                lemma_weight_add(word_shift as nat, index as nat);
                assert(w == ww * wi);
                assert((p + limb * wi) * (scale * ww) == p * (scale * ww) + (limb * scale) * (ww
                    * wi)) by (nonlinear_arith);
                assert(next_carry < scale) by (nonlinear_arith)
                    requires
                        shifted < 0x1_0000_0000 * scale,
                        next_carry == shifted / 0x1_0000_0000,
                ;
                if index + 1 == self.0@.len() && normalized(self.0@) && next_carry == 0 {
                    assert(limb >= 1);
                    assert(limb * scale >= 1) by (nonlinear_arith)
                        requires
                            limb >= 1,
                            scale >= 1,
                    ;
                }
            }
            result.push(low);
            carry = next_carry;
            index = index + 1;
        }
        proof {
            lemma_value_take_all(self.0@);
            lemma_power_of_two_words(word_shift as nat);
            lemma_power_of_two_add(bit_shift as nat, 32 * word_shift as nat);
            assert(bit_shift as nat + 32 * word_shift as nat == bits as nat);
        }
        if carry != 0 {
            let high = carry as u32;
            proof {
                lemma_value_push(result@, high);
            }
            result.push(high);
        } else {
            proof {
                assert(carry * limb_weight(result@.len()) == 0) by (nonlinear_arith)
                    requires
                        carry == 0,
                ;
            }
        }
        BigUint(result)
    }

    /// Subtracts a number that is not larger.
    pub fn subtract(&mut self, other: &BigUint)
        requires
            old(self).value() >= other.value(),
        ensures
            final(self).wf(),
            final(self).value() == old(self).value() - other.value(),
    {
        let ghost start = self.0@;
        let mut borrow: i64 = 0;
        let mut index: usize = 0;
        proof {
            assert(self.0@.take(0).len() == 0);
            assert(other.0@.take(0).len() == 0);
            if other.0@.len() == 0 {
                assert(limbs_value(other.0@) == 0);
            }
        }
        while index < self.0.len()
            invariant
                start == old(self).0@,
                self.0@.len() == start.len(),
                index <= start.len(),
                0 <= borrow <= 1,
                forall|j: int| index <= j < start.len() ==> self.0@[j] == start[j],
                limbs_value(self.0@.take(index as int)) - borrow * limb_weight(index as nat)
                    == limbs_value(start.take(index as int)) - prefix_value(other.0@, index as int),
            decreases start.len() - index,
        {
            let ghost before = self.0@;
            let right: i64 = if index < other.0.len() {
                other.0[index] as i64
            } else {
                0
            };
            let difference = (self.0[index] as i64) - right - borrow;
            let low: u32;
            let next_borrow: i64;
            if difference < 0 {
                low = (difference + 0x1_0000_0000) as u32;
                next_borrow = 1;
            } else {
                low = difference as u32;
                next_borrow = 0;
            }
            self.0.set(index, low);
            proof {
                let w = limb_weight(index as nat) as int;
                lemma_value_take_step(self.0@, index as int);
                lemma_value_take_step(start, index as int);
                lemma_value_prefix_step(other.0@, index as int);
                assert(self.0@.take(index as int) == before.take(index as int));
                lemma_weight_step(index as nat);
                assert(low * w - next_borrow * (limb_base() * w) == (low - next_borrow
                    * limb_base()) * w) by (nonlinear_arith);
                assert((start[index as int] - right - borrow) * w == start[index as int] * w - right
                    * w - borrow * w) by (nonlinear_arith);
            }
            borrow = next_borrow;
            index = index + 1;
        }
        proof {
            let n = start.len();
            lemma_value_take_all(self.0@);
            lemma_value_take_all(start);
            lemma_value_bound(self.0@);
            lemma_value_bound(start);
            if other.0@.len() > n {
                lemma_value_split(other.0@, n as int);
                let rest = limbs_value(other.0@.skip(n as int));
                assert(rest == 0) by (nonlinear_arith)
                    requires
                        limbs_value(other.0@) == limbs_value(other.0@.take(n as int))
                            + limb_weight(n as nat) * rest,
                        limbs_value(other.0@) < limb_weight(n as nat),
                ;
                assert(limb_weight(n as nat) * 0 == 0);
            }
            assert(borrow == 0) by (nonlinear_arith)
                requires
                    0 <= borrow <= 1,
                    limbs_value(self.0@) - borrow * limb_weight(n as nat) >= 0,
                    limbs_value(self.0@) < limb_weight(n as nat),
            ;
            assert(borrow * limb_weight(n as nat) == 0) by (nonlinear_arith)
                requires
                    borrow == 0,
            ;
        }
        normalize(&mut self.0);
    }

    /// Orders two numbers by value.
    pub fn compare(&self, other: &BigUint) -> (order: core::cmp::Ordering)
        requires
            self.wf(),
            other.wf(),
        ensures
            order == core::cmp::Ordering::Less <==> self.value() < other.value(),
            order == core::cmp::Ordering::Equal <==> self.value() == other.value(),
            order == core::cmp::Ordering::Greater <==> self.value() > other.value(),
    {
        let length = self.0.len();
        if length < other.0.len() {
            proof {
                lemma_longer_is_larger(self.0@, other.0@);
            }
            return core::cmp::Ordering::Less;
        }
        if length > other.0.len() {
            proof {
                lemma_longer_is_larger(other.0@, self.0@);
            }
            return core::cmp::Ordering::Greater;
        }
        let mut index = length;
        proof {
            lemma_same_above_end(self.0@, other.0@, index);
        }
        while index > 0
            invariant
                length == self.0@.len() == other.0@.len(),
                index <= length,
                same_above(self.0@, other.0@, index),
            decreases index,
        {
            index = index - 1;
            let left = self.0[index];
            let right = other.0[index];
            if left < right {
                proof {
                    lemma_compare_below(self.0@, other.0@, index);
                }
                return core::cmp::Ordering::Less;
            }
            if left > right {
                proof {
                    lemma_compare_below(other.0@, self.0@, index);
                }
                return core::cmp::Ordering::Greater;
            }
            proof {
                lemma_same_above_step(self.0@, other.0@, index);
            }
        }
        proof {
            lemma_same_above_all(self.0@, other.0@);
        }
        core::cmp::Ordering::Equal
    }
}

proof fn lemma_power_of_two_32()
    ensures
        power_of_two(31) == 0x8000_0000,
        power_of_two(32) == limb_base(),
{
    reveal_with_fuel(power_of_two, 33);
}

/// The limbs above `k` agree.
pub open spec fn same_above(a: Seq<u32>, b: Seq<u32>, k: usize) -> bool {
    a.skip(k as int) == b.skip(k as int)
}

proof fn lemma_same_above_step(a: Seq<u32>, b: Seq<u32>, k: usize)
    requires
        k < a.len(),
        k + 1 <= usize::MAX,
        a.len() == b.len(),
        same_above(a, b, (k + 1) as usize),
        a[k as int] == b[k as int],
    ensures
        same_above(a, b, k),
{
    assert(a.skip(k as int) =~= seq![a[k as int]] + a.skip(k + 1));
    assert(b.skip(k as int) =~= seq![b[k as int]] + b.skip(k + 1));
}

proof fn lemma_same_above_end(a: Seq<u32>, b: Seq<u32>, k: usize)
    requires
        k == a.len(),
        k == b.len(),
    ensures
        same_above(a, b, k),
{
    assert(a.skip(k as int) =~= b.skip(k as int));
}

proof fn lemma_same_above_all(a: Seq<u32>, b: Seq<u32>)
    requires
        same_above(a, b, 0),
    ensures
        a == b,
{
    assert(a == a.skip(0));
    assert(b == b.skip(0));
}

proof fn lemma_compare_below(a: Seq<u32>, b: Seq<u32>, k: usize)
    requires
        a.len() == b.len(),
        k < a.len(),
        k + 1 <= usize::MAX,
        same_above(a, b, (k + 1) as usize),
        a[k as int] < b[k as int],
    ensures
        limbs_value(a) < limbs_value(b),
{
    lemma_compare_at(a, b, k as int);
}

proof fn lemma_power_of_two_monotone(a: nat, b: nat)
    requires
        a <= b,
    ensures
        power_of_two(a) <= power_of_two(b),
    decreases b,
{
    if a < b {
        lemma_power_of_two_monotone(a, (b - 1) as nat);
        lemma_power_of_two_positive((b - 1) as nat);
    }
}

proof fn lemma_power_of_two_positive(k: nat)
    ensures
        power_of_two(k) >= 1,
    decreases k,
{
    if k > 0 {
        lemma_power_of_two_positive((k - 1) as nat);
    }
}

/// Number of significant bits of a limb: the bits below its highest set bit, and that bit.
fn significant_bits(x: u32) -> (bits: u32)
    ensures
        bits <= 32,
        x < power_of_two(bits as nat),
        bits == 0 <==> x == 0,
        bits > 0 ==> power_of_two((bits - 1) as nat) <= x,
{
    let mut rest = x;
    let mut bits: u32 = 0;
    proof {
        lemma_power_of_two_32();
        assert(power_of_two(0) == 1);
        assert(rest as nat * 1 == x);
        assert((rest as nat + 1) * 1 == x + 1);
    }
    while rest != 0
        invariant
            bits <= 32,
            rest as nat * power_of_two(bits as nat) <= x,
            x < (rest as nat + 1) * power_of_two(bits as nat),
            rest < power_of_two((32 - bits) as nat),
            power_of_two(31) == 0x8000_0000,
            power_of_two(32) == limb_base(),
            x != 0 ==> rest != 0 || bits > 0,
            bits > 0 ==> power_of_two((bits - 1) as nat) <= x,
        decreases rest,
    {
        let half = rest / 2;
        proof {
            let p = power_of_two(bits as nat);
            lemma_power_of_two_positive(bits as nat);
            assert(power_of_two((bits + 1) as nat) == 2 * p);
            assert(half * (2 * p) <= rest * p) by (nonlinear_arith)
                requires
                    half == rest / 2,
                    p >= 1,
            ;
            assert((rest + 1) * p <= (half + 1) * (2 * p)) by (nonlinear_arith)
                requires
                    half == rest / 2,
                    p >= 1,
            ;
            assert(rest * p >= p) by (nonlinear_arith)
                requires
                    rest >= 1,
                    p >= 1,
            ;
            if bits >= 32 {
                lemma_power_of_two_positive(0);
                assert(power_of_two(0) == 1);
            } else {
                assert(32 - bits == (31 - bits) + 1);
                assert(power_of_two((32 - bits) as nat) == 2 * power_of_two((31 - bits) as nat));
            }
        }
        rest = half;
        bits = bits + 1;
    }
    proof {
        let p = power_of_two(bits as nat);
        assert((rest as nat + 1) * p == p) by (nonlinear_arith)
            requires
                rest == 0,
        ;
    }
    bits
}

impl BigUint {
    /// Number of significant bits.
    pub fn bit_length(&self) -> (length: u32)
        requires
            self.wf(),
            self.0@.len() * 32 <= u32::MAX,
        ensures
            self.value() < power_of_two(length as nat),
            length == 0 <==> self.value() == 0,
            length > 0 ==> power_of_two((length - 1) as nat) <= self.value(),
    {
        let count = self.0.len();
        if count == 0 {
            proof {
                assert(power_of_two(0) == 1);
            }
            return 0;
        }
        let top = self.0[count - 1];
        let top_bits = significant_bits(top);
        let length = ((count - 1) as u32) * 32 + top_bits;
        proof {
            let s = self.0@;
            let n = (count - 1) as nat;
            let w = limb_weight(n);
            let low = power_of_two((top_bits - 1) as nat);
            let high = power_of_two(top_bits as nat);
            lemma_value_bound(s.drop_last());
            lemma_power_of_two_words(n);
            lemma_power_of_two_add(32 * n, top_bits as nat);
            lemma_power_of_two_add(32 * n, (top_bits - 1) as nat);
            assert(32 * n + top_bits as nat == length as nat);
            assert(32 * n + (top_bits - 1) as nat == (length - 1) as nat);
            let x = top as nat;
            let d = limbs_value(s.drop_last());
            assert(d + x * w < high * w) by (nonlinear_arith)
                requires
                    d < w,
                    x < high,
            ;
            assert(low * w <= x * w) by (nonlinear_arith)
                requires
                    low <= x,
            ;
            assert(w * high == high * w && w * low == low * w) by (nonlinear_arith);
            lemma_weight_positive(n);
            lemma_power_of_two_positive((top_bits - 1) as nat);
            assert(low * w >= 1) by (nonlinear_arith)
                requires
                    low >= 1,
                    w >= 1,
            ;
        }
        length
    }
}

/// Drops most significant zero limbs.
fn normalize(limbs: &mut Vec<u32>)
    ensures
        normalized(final(limbs)@),
        limbs_value(final(limbs)@) == limbs_value(old(limbs)@),
        final(limbs)@.len() <= old(limbs)@.len(),
{
    while limbs.len() > 0 && limbs[limbs.len() - 1] == 0
        invariant
            limbs_value(limbs@) == limbs_value(old(limbs)@),
            limbs@.len() <= old(limbs)@.len(),
        decreases limbs.len(),
    {
        proof {
            lemma_value_drop_zero(limbs@);
        }
        limbs.pop();
    }
}

} // verus!
