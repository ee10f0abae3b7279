//! Modular arithmetic: fast exponentiation and a fixed-modulus integer type.

use vstd::prelude::*;
use vstd::arithmetic::power::{
    pow, lemma_pow0, lemma_pow1, lemma_pow_adds, lemma_pow_multiplies, lemma_pow_mod_noop,
    lemma_square_is_pow2,
};
use vstd::arithmetic::div_mod::{
    lemma_mul_mod_noop_general, lemma_mod_twice, lemma_small_mod,
};

verus! {

/// Square-and-multiply exponentiation modulo `m`.
///
/// For a positive exponent the result is exactly `x^n mod m`; with exponent
/// zero the accumulator is returned untouched, so the result is `1` even when
/// `m == 1`.
pub fn modpow(x: usize, n: usize, m: usize) -> (r: usize)
    requires
        m >= 1,
        x * x <= usize::MAX,
        m * m <= usize::MAX,
    ensures
        n > 0 ==> r == pow(x as int, n as nat) % (m as int),
        n == 0 ==> r == 1,
{
    let ghost x0 = x as int;
    let ghost n0 = n as nat;
    let mut x = x;
    let mut n = n;
    let mut ret: usize = 1;
    proof {
        lemma_pow0(x0);
        lemma_pow1(x0);
    }
    while n > 0
        invariant
            m >= 1,
            m * m <= usize::MAX,
            x * x <= usize::MAX,
            n <= n0,
            n == n0 ==> ret == 1 && x as int == x0,
            ret == 1 || ret < m,
            x < m || (x as int == x0 && ret == 1),
            n == 0 ==> n0 == 0 || ret < m,
            (ret as int * pow(x as int, n as nat)) % (m as int) == pow(x0, n0) % (m as int),
        decreases n,
    {
        proof {
            lemma_modpow_step(ret as int, x as int, n as nat, m as int, x0, n0);
        }
        if (n & 1) == 1 {
            assert(n % 2 == 1) by (bit_vector)
                requires n & 1 == 1;
            proof {
                if ret < m && x < m {
                    assert(ret * x < m * m) by (nonlinear_arith)
                        requires ret < m, x < m, m >= 1;
                }
            }
            ret = ret * x % m;
        } else {
            assert(n % 2 == 0) by (bit_vector)
                requires n & 1 != 1;
            assert(n >= 2) by (bit_vector)
                requires n & 1 != 1, n > 0;
        }
        x = x * x % m;
        proof {
            assert((x as int) * (x as int) <= m * m) by (nonlinear_arith)
                requires 0 <= x as int, x < m, m >= 1;
            assert(n >> 1 == n / 2) by (bit_vector);
        }
        n = n >> 1;
    }
    proof {
        lemma_pow0(x as int);
        if n0 > 0 {
            lemma_small_mod(ret as nat, m as nat);
        }
    }
    ret
}

/// One step of the square-and-multiply argument: halving the exponent and
/// squaring the base (both taken modulo `m`) preserves the running product.
proof fn lemma_modpow_step(ret: int, x: int, n: nat, m: int, x0: int, n0: nat)
    requires
        m >= 1,
        0 <= ret,
        0 <= x,
        n > 0,
        (ret * pow(x, n)) % m == pow(x0, n0) % m,
    ensures
        n % 2 == 1 ==> ((ret * x % m) * pow(x * x % m, (n / 2) as nat)) % m == pow(x0, n0) % m,
        n % 2 == 0 ==> (ret * pow(x * x % m, (n / 2) as nat)) % m == pow(x0, n0) % m,
{
    let h = (n / 2) as nat;
    lemma_square_is_pow2(x);
    lemma_pow_multiplies(x, 2, h);
    assert(pow(x * x, h) == pow(x, 2 * h));
    lemma_pow_mod_noop(x * x, h, m);
    assert(pow(x * x % m, h) % m == pow(x * x, h) % m);
    if n % 2 == 1 {
        assert(n == 2 * h + 1);
        lemma_pow1(x);
        lemma_pow_adds(x, 1, 2 * h);
        assert(pow(x, n) == x * pow(x, 2 * h));
        // ret * (x * pow(x, 2h)) == (ret * x) * pow(x, 2h)
        assert(ret * (x * pow(x, 2 * h)) == (ret * x) * pow(x, 2 * h)) by (nonlinear_arith);
        lemma_mul_mod_noop_general(ret * x, pow(x, 2 * h), m);
        lemma_mul_mod_noop_general(ret * x % m, pow(x * x % m, h), m);
        lemma_mul_mod_noop_general(ret * x % m, pow(x, 2 * h), m);
        lemma_mod_twice(ret * x, m);
    } else {
        assert(n == 2 * h);
        lemma_mul_mod_noop_general(ret, pow(x * x % m, h), m);
        lemma_mul_mod_noop_general(ret, pow(x, 2 * h), m);
    }
}

/// Square-and-multiply exponentiation modulo `m`, with 128-bit
/// intermediates so that no bound on `x` or `m` beyond `m >= 1` is needed.
pub fn modpowll(x: usize, n: usize, m: usize) -> (r: usize)
    requires
        m >= 1,
    ensures
        n > 0 ==> r == pow(x as int, n as nat) % (m as int),
        n == 0 ==> r == 1,
{
    let ghost x0 = x as int;
    let ghost n0 = n as nat;
    let mut x = x;
    let mut n = n;
    let mut ret: usize = 1;
    proof {
        lemma_pow0(x0);
        lemma_pow1(x0);
    }
    while n > 0
        invariant
            m >= 1,
            n <= n0,
            n == n0 ==> ret == 1 && x as int == x0,
            ret == 1 || ret < m,
            n == 0 ==> n0 == 0 || ret < m,
            (ret as int * pow(x as int, n as nat)) % (m as int) == pow(x0, n0) % (m as int),
        decreases n,
    {
        proof {
            lemma_modpow_step(ret as int, x as int, n as nat, m as int, x0, n0);
        }
        if (n & 1) == 1 {
            assert(n % 2 == 1) by (bit_vector)
                requires n & 1 == 1;
            proof {
                assert(ret as int * x as int <= u128::MAX as int) by (nonlinear_arith)
                    requires
                        0 <= ret as int <= 0xffff_ffff_ffff_ffffu64 as int,
                        0 <= x as int <= 0xffff_ffff_ffff_ffffu64 as int,
                ;
            }
            ret = ((ret as u128) * (x as u128) % (m as u128)) as usize;
        } else {
            assert(n % 2 == 0) by (bit_vector)
                requires n & 1 != 1;
        }
        proof {
            assert(x as int * x as int <= u128::MAX as int) by (nonlinear_arith)
                requires
                    0 <= x as int <= 0xffff_ffff_ffff_ffffu64 as int,
            ;
        }
        x = ((x as u128) * (x as u128) % (m as u128)) as usize;
        proof {
            assert(n >> 1 == n / 2) by (bit_vector);
        }
        n = n >> 1;
    }
    proof {
        lemma_pow0(x as int);
        if n0 > 0 {
            lemma_small_mod(ret as nat, m as nat);
        }
    }
    ret
}

/// An integer carried modulo the constant `MOD`.  Construction and every
/// arithmetic operator reduce, so a value stays below the modulus.
#[derive(Debug, Copy, Clone, PartialEq, Eq)]
pub struct ModInt<const MOD: usize> {
    val: usize,
}

impl<const MOD: usize> ModInt<MOD> {
    /// The carried value.
    pub closed spec fn spec_val(self) -> int {
        self.val as int
    }

    /// The value is reduced below the modulus.
    pub open spec fn reduced(self) -> bool {
        self.spec_val() < MOD as int
    }

    pub fn new(n: usize) -> (s: Self)
        requires
            MOD >= 1,
        ensures
            s.spec_val() == n as int % MOD as int,
            s.reduced(),
    {
        Self { val: n % MOD }
    }

    pub fn val(&self) -> (r: usize)
        ensures
            r as int == self.spec_val(),
    {
        self.val
    }

    /// Fast exponentiation of the carried value.
    pub fn pow(&self, n: usize) -> (s: Self)
        requires
            MOD >= 1,
            MOD as int * MOD as int <= usize::MAX as int,
            self.reduced(),
        ensures
            n > 0 ==> s.spec_val() == pow(self.spec_val(), n as nat) % (MOD as int),
            n == 0 ==> s.spec_val() == 1,
    {
        proof {
            assert(self.val as int * self.val as int <= usize::MAX as int) by (nonlinear_arith)
                requires
                    0 <= self.val as int,
                    (self.val as int) < MOD as int,
                    MOD as int * MOD as int <= usize::MAX as int,
                    MOD >= 1,
            ;
        }
        Self { val: modpow(self.val, n, MOD) }
    }

    /// The modular inverse by Fermat's little theorem: the value raised to
    /// `MOD - 2` (meaningful when `MOD` is prime).
    pub fn inv(&self) -> (s: Self)
        requires
            MOD >= 2,
            MOD as int * MOD as int <= usize::MAX as int,
            self.reduced(),
        ensures
            MOD > 2 ==> s.spec_val() == pow(self.spec_val(), (MOD - 2) as nat) % (MOD as int),
            MOD == 2 ==> s.spec_val() == 1,
    {
        self.pow(MOD - 2)
    }
}

impl<const MOD: usize> core::ops::Add for ModInt<MOD> {
    type Output = Self;

    fn add(self, rhs: Self) -> Self {
        let mut s = self.val + rhs.val;
        if s >= MOD {
            s = s - MOD;
        }
        proof {
            vstd::arithmetic::div_mod::lemma_fundamental_div_mod_converse(
                self.val as int + rhs.val as int,
                MOD as int,
                if self.val + rhs.val >= MOD {
                    1int
                } else {
                    0int
                },
                s as int,
            );
        }
        Self { val: s }
    }
}

impl<const MOD: usize> vstd::std_specs::ops::AddSpecImpl for ModInt<MOD> {
    closed spec fn obeys_add_spec() -> bool {
        true
    }

    closed spec fn add_req(self, rhs: Self) -> bool {
        self.reduced() && rhs.reduced() && MOD >= 1 && 2 * MOD as int <= usize::MAX as int
    }

    closed spec fn add_spec(self, rhs: Self) -> Self {
        ModInt { val: ((self.spec_val() + rhs.spec_val()) % (MOD as int)) as usize }
    }
}

impl<const MOD: usize> core::ops::Sub for ModInt<MOD> {
    type Output = Self;

    fn sub(self, rhs: Self) -> Self {
        let s = if self.val >= rhs.val {
            self.val - rhs.val
        } else {
            MOD + self.val - rhs.val
        };
        proof {
            vstd::arithmetic::div_mod::lemma_fundamental_div_mod_converse(
                self.val as int - rhs.val as int,
                MOD as int,
                if self.val >= rhs.val {
                    0int
                } else {
                    -1int
                },
                s as int,
            );
        }
        Self { val: s }
    }
}

impl<const MOD: usize> vstd::std_specs::ops::SubSpecImpl for ModInt<MOD> {
    closed spec fn obeys_sub_spec() -> bool {
        true
    }

    closed spec fn sub_req(self, rhs: Self) -> bool {
        self.reduced() && rhs.reduced() && MOD >= 1 && 2 * MOD as int <= usize::MAX as int
    }

    closed spec fn sub_spec(self, rhs: Self) -> Self {
        ModInt { val: ((self.spec_val() - rhs.spec_val()) % (MOD as int)) as usize }
    }
}

impl<const MOD: usize> core::ops::Mul for ModInt<MOD> {
    type Output = Self;

    fn mul(self, rhs: Self) -> Self {
        proof {
            assert(self.val as int * rhs.val as int <= usize::MAX as int) by (nonlinear_arith)
                requires
                    0 <= self.val as int,
                    (self.val as int) < (MOD as int),
                    0 <= rhs.val as int,
                    (rhs.val as int) < (MOD as int),
                    MOD as int * MOD as int <= usize::MAX as int,
                    MOD >= 1,
            ;
        }
        Self { val: self.val * rhs.val % MOD }
    }
}

impl<const MOD: usize> vstd::std_specs::ops::MulSpecImpl for ModInt<MOD> {
    closed spec fn obeys_mul_spec() -> bool {
        true
    }

    closed spec fn mul_req(self, rhs: Self) -> bool {
        self.reduced() && rhs.reduced() && MOD >= 1 && MOD as int * MOD as int
            <= usize::MAX as int
    }

    closed spec fn mul_spec(self, rhs: Self) -> Self {
        ModInt { val: (self.spec_val() * rhs.spec_val() % (MOD as int)) as usize }
    }
}

/// The factorial of `i` as an unbounded integer.
pub open spec fn fact_nat(i: nat) -> int
    decreases i,
{
    if i == 0 {
        1
    } else {
        i * fact_nat((i - 1) as nat)
    }
}

/// The standard modular-inverse table recurrence
/// `inv[i] = (m - m/i) * inv[m % i] mod m` (the inverse of `i` mod a prime
/// `m` for `0 < i < m`; taken here as the definition of what the table
/// holds).
pub open spec fn inv_rec(i: nat, m: int) -> int
    recommends
        m >= 1,
    decreases i,
{
    if i == 0 {
        0
    } else if i == 1 {
        1int % m
    } else if m >= 1 {
        (m - m / (i as int)) % m * inv_rec((m % (i as int)) as nat, m) % m
    } else {
        0
    }
}

/// Running product of the inverse table: `finv[i] = finv[i-1] * inv[i]`,
/// the inverse factorial mod a prime `m`.
pub open spec fn finv_rec(i: nat, m: int) -> int
    recommends
        m >= 1,
    decreases i,
{
    if i == 0 {
        1int % m
    } else {
        finv_rec((i - 1) as nat, m) * inv_rec(i, m) % m
    }
}

/// Tables of factorials and inverse factorials modulo the prime `MOD`,
/// for binomial coefficients and permutation counts.
pub struct Factrial<const MOD: usize> {
    fact: Vec<ModInt<MOD>>,
    finv: Vec<ModInt<MOD>>,
}

impl<const MOD: usize> Factrial<MOD> {
    /// Largest argument the tables cover.
    pub closed spec fn capacity(self) -> int {
        self.fact.len() - 1
    }

    /// The tables hold exactly the factorials and the inverse-factorial
    /// recurrence, all reduced.
    pub closed spec fn wf(self) -> bool {
        &&& self.fact.len() == self.finv.len()
        &&& self.fact.len() >= 1
        &&& forall|i: int|
            0 <= i < self.fact.len() ==> (#[trigger] self.fact[i]).spec_val() == fact_nat(
                i as nat,
            ) % (MOD as int) && self.fact[i].reduced()
        &&& forall|i: int|
            0 <= i < self.finv.len() ==> (#[trigger] self.finv[i]).spec_val() == finv_rec(
                i as nat,
                MOD as int,
            ) && self.finv[i].reduced()
    }

    /// Build the tables up to `n`.
    pub fn new(n: usize) -> (s: Self)
        requires
            MOD >= 1,
            MOD as int * MOD as int <= usize::MAX as int,
            n < usize::MAX,
        ensures
            s.wf(),
            s.capacity() == n,
    {
        let mut inv: Vec<ModInt<MOD>> = Vec::new();
        inv.push(ModInt::new(0));
        if n >= 1 {
            inv.push(ModInt::new(1));
            let mut i: usize = 2;
            while i <= n
                invariant
                    2 <= i <= n + 1,
                    n < usize::MAX,
                    inv.len() == i,
                    MOD >= 1,
                    MOD as int * MOD as int <= usize::MAX as int,
                    forall|j: int|
                        0 <= j < i ==> (#[trigger] inv[j]).spec_val() == inv_rec(
                            j as nat,
                            MOD as int,
                        ) && inv[j].reduced(),
                decreases n + 1 - i,
            {
                let a = ModInt::<MOD>::new(MOD - MOD / i);
                let b = inv[MOD % i];
                inv.push(a * b);
                i = i + 1;
            }
        }
        let mut fact: Vec<ModInt<MOD>> = Vec::new();
        let mut finv: Vec<ModInt<MOD>> = Vec::new();
        fact.push(ModInt::new(1));
        finv.push(ModInt::new(1));
        let mut i: usize = 1;
        while i <= n
            invariant
                1 <= i <= n + 1,
                n < usize::MAX,
                fact.len() == i,
                finv.len() == i,
                i <= n + 1 && (n >= 1 ==> inv.len() == n + 1),
                MOD >= 1,
                MOD as int * MOD as int <= usize::MAX as int,
                forall|j: int|
                    0 <= j < inv.len() ==> (#[trigger] inv[j]).spec_val() == inv_rec(
                        j as nat,
                        MOD as int,
                    ) && inv[j].reduced(),
                forall|j: int|
                    0 <= j < i ==> (#[trigger] fact[j]).spec_val() == fact_nat(j as nat) % (
                    MOD as int) && fact[j].reduced(),
                forall|j: int|
                    0 <= j < i ==> (#[trigger] finv[j]).spec_val() == finv_rec(
                        j as nat,
                        MOD as int,
                    ) && finv[j].reduced(),
            decreases n + 1 - i,
        {
            let fi = fact[i - 1] * ModInt::new(i);
            proof {
                lemma_mul_mod_noop_general(fact_nat((i - 1) as nat), i as int, MOD as int);
                assert(fact_nat(i as nat) == (i as int) * fact_nat((i - 1) as nat));
            }
            fact.push(fi);
            let gi = finv[i - 1] * inv[i];
            finv.push(gi);
            i = i + 1;
        }
        Self { fact, finv }
    }

    /// The binomial coefficient `n` choose `k` via the tables: zero when
    /// `k` exceeds `n`, else the product of the inverse factorials of `k`
    /// and `n - k` with the factorial of `n`, all modulo `MOD`.
    pub fn comb(&self, n: usize, k: usize) -> (r: ModInt<MOD>)
        requires
            MOD >= 1,
            MOD as int * MOD as int <= usize::MAX as int,
            self.wf(),
            k <= n ==> n as int <= self.capacity(),
        ensures
            n < k ==> r.spec_val() == 0,
            k <= n ==> r.spec_val() == finv_rec(k as nat, MOD as int) * finv_rec(
                (n - k) as nat,
                MOD as int,
            ) * (fact_nat(n as nat) % (MOD as int)) % (MOD as int),
    {
        if n < k {
            return ModInt::new(0);
        }
        proof {
            lemma_mul_mod_noop_general(
                finv_rec(k as nat, MOD as int) * finv_rec((n - k) as nat, MOD as int),
                fact_nat(n as nat) % (MOD as int),
                MOD as int,
            );
        }
        self.finv[k] * self.finv[n - k] * self.fact[n]
    }

    /// The number of ordered `k`-arrangements of `n` items via the tables.
    pub fn perm(&self, n: usize, k: usize) -> (r: ModInt<MOD>)
        requires
            MOD >= 1,
            MOD as int * MOD as int <= usize::MAX as int,
            self.wf(),
            k <= n ==> n as int <= self.capacity(),
        ensures
            n < k ==> r.spec_val() == 0,
            k <= n ==> r.spec_val() == finv_rec((n - k) as nat, MOD as int) * (fact_nat(n as nat)
                % (MOD as int)) % (MOD as int),
    {
        if n < k {
            return ModInt::new(0);
        }
        self.finv[n - k] * self.fact[n]
    }
}

} // verus!
