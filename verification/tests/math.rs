use procon::modint::{modpow, modpowll, Factrial, ModInt};

const MOD1: usize = 1000000007;
const MOD2: usize = 998244353;
const MOD3: usize = 7;

#[test]
fn test_modpow() {
    assert_eq!(modpow(8, 24, MOD1), 80065005);
    assert_eq!(modpow(8, 24, MOD2), 24888593);
    assert_eq!(modpow(8, 24, MOD3), 1);

    assert_eq!(modpow(0, 12, MOD1), 0);
    assert_eq!(modpow(0, 12, MOD2), 0);
    assert_eq!(modpow(0, 12, MOD3), 0);

    assert_eq!(modpow(0, 1, MOD1), 0);
    assert_eq!(modpow(0, 0, MOD1), 1);
    assert_eq!(modpow(5, 0, MOD2), 1);
    assert_eq!(modpow(MOD3, 1, MOD3), 0);

    assert_eq!(modpow(314, 1592, MOD1), 821477295);
    assert_eq!(modpow(314, 1592, MOD2), 648812915);
    assert_eq!(modpow(314, 1592, MOD3), 1);
}

#[test]
fn test_modpowll() {
    assert_eq!(modpowll(8, 24, MOD1), 80065005);
    assert_eq!(modpowll(314, 1592, MOD2), 648812915);
    assert_eq!(modpowll(0, 0, MOD1), 1);
}

#[test]
fn modint_ops() {
    let a = ModInt::<MOD1>::new(8);
    let b = ModInt::<MOD1>::new(24);
    assert_eq!((a + b).val(), 8 + 24);
    assert_eq!((a - b).val(), MOD1 + 8 - 24);
    assert_eq!((b - a).val(), 24 - 8);
    assert_eq!((a * b).val(), 24 * 8);

    let a = ModInt::<MOD2>::new(8);
    let b = ModInt::<MOD2>::new(24);
    assert_eq!((a + b).val(), 8 + 24);
    assert_eq!((a - b).val(), MOD2 + 8 - 24);
    assert_eq!((b - a).val(), 24 - 8);
    assert_eq!((a * b).val(), 24 * 8);

    let a = ModInt::<MOD3>::new(8);
    let b = ModInt::<MOD3>::new(24);
    assert_eq!((a + b).val(), (8 + 24) % MOD3);
    assert_eq!((a - b).val(), MOD3 + 8 % MOD3 - 24 % MOD3);
    assert_eq!((b - a).val(), (24 - 8) % MOD3);
    assert_eq!((a * b).val(), 24 * 8 % MOD3);
}

#[test]
fn modint_pow() {
    let a = ModInt::<MOD1>::new(8);
    assert_eq!(a.pow(24).val(), modpow(8, 24, MOD1));

    let a = ModInt::<MOD2>::new(8);
    assert_eq!(a.pow(24).val(), modpow(8, 24, MOD2));

    let a = ModInt::<MOD3>::new(8);
    assert_eq!(a.pow(24).val(), modpow(8, 24, MOD3));
}

#[test]
fn modint_inv() {
    let a = ModInt::<MOD1>::new(8);
    assert_eq!(a.inv().val(), modpow(8, MOD1 - 2, MOD1));

    let a = ModInt::<MOD2>::new(8);
    assert_eq!(a.inv().val(), modpow(8, MOD2 - 2, MOD2));

    let a = ModInt::<MOD3>::new(8);
    assert_eq!(a.inv().val(), modpow(8, MOD3 - 2, MOD3));
}

#[test]
fn test_perm() {
    let ft = Factrial::<MOD1>::new(10000);
    assert_eq!(ft.perm(8, 3).val(), 336);
    assert_eq!(ft.perm(314, 159).val(), 720296313);
    assert_eq!(ft.perm(9, 0).val(), 1);
}

#[test]
fn test_comb() {
    let ft = Factrial::<MOD1>::new(10000);
    assert_eq!(ft.comb(8, 3).val(), 56);
    assert_eq!(ft.comb(314, 159).val(), 538085512);
    assert_eq!(ft.comb(9, 0).val(), 1);
}
