//! Facts of elementary number theory about residues modulo a prime.
use vstd::arithmetic::div_mod::*;
use vstd::arithmetic::power::*;
use vstd::prelude::*;

verus! {

/// `p` is a prime: greater than 1, and divisible by no integer strictly between 1 and `p`.
pub open spec fn is_prime(p: int) -> bool {
    &&& p > 1
    &&& forall|d: int| 1 < d < p ==> #[trigger] (p % d) != 0
}

/// A prime that divides `k * m`, where `0 < k < p`, divides `m`.
proof fn lemma_prime_divides_cofactor(k: int, m: int, p: int)
    requires
        is_prime(p),
        0 < k < p,
        (k * m) % p == 0,
    ensures
        m % p == 0,
    decreases k,
{
    if k > 1 {
        let q = p / k;
        let r = p % k;
        lemma_fundamental_div_mod(p, k);
        lemma_mod_pos_bound(p, k);
        assert(r != 0);
        let t = (k * m) / p;
        lemma_fundamental_div_mod(k * m, p);
        assert(r * m == (m - q * t) * p) by (nonlinear_arith)
            requires
                p == k * q + r,
                k * m == p * t,
        ;
        lemma_mod_multiples_basic(m - q * t, p);
        lemma_prime_divides_cofactor(r, m, p);
    } else {
        assert(k * m == m) by (nonlinear_arith)
            requires
                k == 1,
        ;
    }
}

/// Euclid's lemma: a prime that divides a product divides one of its factors.
pub proof fn lemma_euclid(x: int, y: int, p: int)
    requires
        is_prime(p),
        (x * y) % p == 0,
    ensures
        x % p == 0 || y % p == 0,
{
    let k = x % p;
    if k != 0 {
        lemma_mul_mod_noop_left(x, y, p);
        lemma_prime_divides_cofactor(k, y, p);
    }
}

/// The product of the integers in `s`.
pub open spec fn product(s: Seq<int>) -> int
    decreases s.len(),
{
    if s.len() == 0 {
        1
    } else {
        product(s.drop_last()) * s.last()
    }
}

/// `n!`
pub open spec fn factorial(n: nat) -> int
    decreases n,
{
    if n == 0 {
        1
    } else {
        n * factorial((n - 1) as nat)
    }
}

/// Taking one entry out of a sequence divides it out of the product.
proof fn lemma_product_remove(s: Seq<int>, j: int)
    requires
        0 <= j < s.len(),
    ensures
        product(s) == s[j] * product(s.remove(j)),
    decreases s.len(),
{
    if j == s.len() - 1 {
        assert(s.remove(j) =~= s.drop_last());
        let a = s[j];
        let b = product(s.drop_last());
        assert(b * a == a * b) by (nonlinear_arith);
    } else {
        let rest = s.drop_last();
        lemma_product_remove(rest, j);
        assert(s.remove(j).drop_last() =~= rest.remove(j));
        assert(s.remove(j).last() == s.last());
        let a = s[j];
        let b = product(rest.remove(j));
        let c = s.last();
        assert(rest[j] == a);
        assert(product(s) == product(rest) * c);
        assert(product(s.remove(j)) == b * c);
        assert(a * b * c == a * (b * c)) by (nonlinear_arith);
    }
}

/// A sequence of distinct integers drawn from `[1, m]` has at most `m` entries, and when it
/// has exactly `m` their product is `m!`.
proof fn lemma_distinct_in_range(s: Seq<int>, m: nat)
    requires
        forall|i: int| 0 <= i < s.len() ==> 1 <= #[trigger] s[i] <= m,
        forall|i: int, j: int| 0 <= i < j < s.len() ==> #[trigger] s[i] != #[trigger] s[j],
    ensures
        s.len() <= m,
        s.len() == m ==> product(s) == factorial(m),
    decreases m,
{
    if m == 0 {
        if s.len() > 0 {
            assert(1 <= s[0] <= 0);
        }
    } else if exists|j: int| 0 <= j < s.len() && s[j] == m {
        let j = choose|j: int| 0 <= j < s.len() && s[j] == m;
        let t = s.remove(j);
        s.remove_ensures(j);
        assert forall|i: int| 0 <= i < t.len() implies 1 <= #[trigger] t[i] <= m - 1 by {
            if i < j {
                assert(s[i] != s[j]);
            } else {
                assert(s[j] != s[i + 1]);
            }
        }
        assert forall|i: int, k: int| 0 <= i < k < t.len() implies #[trigger] t[i] != #[trigger] t[k] by {
            if k < j {
            } else if i < j {
                assert(s[i] != s[k + 1]);
            } else {
                assert(s[i + 1] != s[k + 1]);
            }
        }
        lemma_distinct_in_range(t, (m - 1) as nat);
        lemma_product_remove(s, j);
    } else {
        assert forall|i: int| 0 <= i < s.len() implies 1 <= #[trigger] s[i] <= m - 1 by {
            if s[i] == m {
                assert(0 <= i < s.len() && s[i] == m);
            }
        }
        lemma_distinct_in_range(s, (m - 1) as nat);
    }
}

/// The residues of `a * 1, a * 2, ..., a * n` modulo `p`.
pub open spec fn multiples_mod(a: int, n: nat, p: int) -> Seq<int> {
    Seq::new(n, |i: int| (a * (i + 1)) % p)
}

/// The product of `a * 1, ..., a * n` taken modulo `p` agrees with `a^n * n!` modulo `p`.
proof fn lemma_multiples_product(a: int, n: nat, p: int)
    requires
        p > 0,
    ensures
        product(multiples_mod(a, n, p)) % p == (pow(a, n) * factorial(n)) % p,
    decreases n,
{
    reveal(pow);
    if n == 0 {
        assert(multiples_mod(a, n, p) =~= Seq::<int>::empty());
    } else {
        let s = multiples_mod(a, n, p);
        let prev = multiples_mod(a, (n - 1) as nat, p);
        assert(s.drop_last() =~= prev);
        lemma_multiples_product(a, (n - 1) as nat, p);
        let x = product(prev);
        let y = a * n;
        let z = pow(a, (n - 1) as nat) * factorial((n - 1) as nat);
        assert(product(s) == x * (y % p));
        lemma_mul_mod_noop_right(x, y, p);
        lemma_mul_mod_noop_left(x, y, p);
        lemma_mul_mod_noop_left(z, y, p);
        assert(z * y == pow(a, n) * factorial(n)) by (nonlinear_arith)
            requires
                pow(a, n) == a * pow(a, (n - 1) as nat),
                factorial(n) == n * factorial((n - 1) as nat),
                z == pow(a, (n - 1) as nat) * factorial((n - 1) as nat),
                y == a * n,
        ;
    }
}

/// A prime `p` does not divide `n!` when `n < p`.
proof fn lemma_factorial_not_divisible(n: nat, p: int)
    requires
        is_prime(p),
        n < p,
    ensures
        factorial(n) % p != 0,
    decreases n,
{
    if n == 0 {
        lemma_small_mod(1, p as nat);
    } else {
        lemma_factorial_not_divisible((n - 1) as nat, p);
        lemma_small_mod(n, p as nat);
        if factorial(n) % p == 0 {
            lemma_euclid(n as int, factorial((n - 1) as nat), p);
        }
    }
}

/// Fermat's little theorem: `a^(p-1)` is 1 modulo a prime `p` that does not divide `a`.
pub proof fn lemma_fermat(a: int, p: int)
    requires
        is_prime(p),
        a % p != 0,
    ensures
        pow(a, (p - 1) as nat) % p == 1,
{
    let n = (p - 1) as nat;
    let s = multiples_mod(a, n, p);
    assert forall|i: int| 0 <= i < s.len() implies 1 <= #[trigger] s[i] <= n by {
        lemma_mod_bound(a * (i + 1), p);
        lemma_small_mod((i + 1) as nat, p as nat);
        if s[i] == 0 {
            lemma_euclid(a, i + 1, p);
        }
    }
    assert forall|i: int, j: int| 0 <= i < j < s.len() implies #[trigger] s[i] != #[trigger] s[j] by {
        if s[i] == s[j] {
            lemma_mod_equivalence(a * (j + 1), a * (i + 1), p);
            assert(a * (j + 1) - a * (i + 1) == a * (j - i)) by (nonlinear_arith);
            lemma_euclid(a, j - i, p);
            lemma_small_mod((j - i) as nat, p as nat);
        }
    }
    lemma_distinct_in_range(s, n);
    lemma_multiples_product(a, n, p);
    let e = pow(a, n);
    let f = factorial(n);
    lemma_factorial_not_divisible(n, p);
    lemma_mod_equivalence(e * f, f, p);
    assert(e * f - f == (e - 1) * f) by (nonlinear_arith);
    lemma_euclid(e - 1, f, p);
    lemma_mod_equivalence(e, 1, p);
    lemma_small_mod(1, p as nat);
}

} // verus!
