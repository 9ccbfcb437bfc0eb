//! The labels that nodes get where the caller brings none.

use crate::cadenas::agregar_caracter;
use vstd::prelude::*;

verus! {

/// The capital letter with the given place in the alphabet, from zero.
pub open spec fn letra(d: nat) -> char
    recommends
        d < 26,
{
    (0x41 + d) as char
}

/// The digit that writes `d`.
pub open spec fn cifra(d: nat) -> char
    recommends
        d < 10,
{
    (0x30 + d) as char
}

/// The label of the node with index `i`: `A` to `Z`, then `AA`, `AB` and so
/// on, as columns of a sheet are named.
pub open spec fn letras_de(i: nat) -> Seq<char>
    decreases i,
{
    if i < 26 {
        seq![letra(i)]
    } else {
        letras_de((i / 26 - 1) as nat).push(letra(i % 26))
    }
}

/// `x` written in base ten.
pub open spec fn decimal(x: nat) -> Seq<char>
    decreases x,
{
    if x < 10 {
        seq![cifra(x)]
    } else {
        decimal(x / 10).push(cifra(x % 10))
    }
}

/// Different places in the alphabet have different letters.
proof fn lema_letra(a: nat, b: nat)
    requires
        a < 26,
        b < 26,
        letra(a) == letra(b),
    ensures
        a == b,
{
    assert(letra(a) as u32 == 0x41 + a);
    assert(letra(b) as u32 == 0x41 + b);
}

/// Different indices get different labels.
pub proof fn lema_letras_distintas(i: nat, j: nat)
    requires
        letras_de(i) == letras_de(j),
    ensures
        i == j,
    decreases i,
{
    lema_largo_letras(i);
    lema_largo_letras(j);
    if i < 26 {
        assert(letras_de(i).len() == 1);
        assert(j < 26);
        assert(letras_de(i)[0] == letra(i));
        assert(letras_de(j)[0] == letra(j));
        lema_letra(i, j);
    } else {
        assert(j >= 26) by {
            if j < 26 {
                assert(letras_de(j).len() == 1);
            }
        }
        let a = letras_de((i / 26 - 1) as nat);
        let b = letras_de((j / 26 - 1) as nat);
        assert(letras_de(i) == a.push(letra(i % 26)));
        assert(letras_de(j) == b.push(letra(j % 26)));
        assert(a.push(letra(i % 26)).last() == letra(i % 26));
        assert(b.push(letra(j % 26)).last() == letra(j % 26));
        lema_letra(i % 26, j % 26);
        assert(a.push(letra(i % 26)).drop_last() =~= a);
        assert(b.push(letra(j % 26)).drop_last() =~= b);
        lema_letras_distintas((i / 26 - 1) as nat, (j / 26 - 1) as nat);
        assert(i / 26 == j / 26);
        assert(i == 26 * (i / 26) + i % 26);
        assert(j == 26 * (j / 26) + j % 26);
    }
}

/// A label beyond `Z` has two letters or more.
proof fn lema_largo_letras(i: nat)
    ensures
        letras_de(i).len() >= 1,
        i >= 26 ==> letras_de(i).len() >= 2,
    decreases i,
{
    if i >= 26 {
        lema_largo_letras((i / 26 - 1) as nat);
    }
}

/// Different digits write different numbers.
proof fn lema_cifra(a: nat, b: nat)
    requires
        a < 10,
        b < 10,
        cifra(a) == cifra(b),
    ensures
        a == b,
{
    assert(cifra(a) as u32 == 0x30 + a);
    assert(cifra(b) as u32 == 0x30 + b);
}

/// A number of two digits or more has no single digit.
proof fn lema_largo_decimal(x: nat)
    ensures
        decimal(x).len() >= 1,
        x >= 10 ==> decimal(x).len() >= 2,
    decreases x,
{
    if x >= 10 {
        lema_largo_decimal(x / 10);
    }
}

/// Different numbers are written differently.
pub proof fn lema_decimal_distinto(x: nat, y: nat)
    requires
        decimal(x) == decimal(y),
    ensures
        x == y,
    decreases x,
{
    lema_largo_decimal(x);
    lema_largo_decimal(y);
    if x < 10 {
        assert(decimal(x).len() == 1);
        assert(y < 10);
        assert(decimal(x)[0] == cifra(x));
        assert(decimal(y)[0] == cifra(y));
        lema_cifra(x, y);
    } else {
        assert(y >= 10) by {
            if y < 10 {
                assert(decimal(y).len() == 1);
            }
        }
        let a = decimal(x / 10);
        let b = decimal(y / 10);
        assert(decimal(x) == a.push(cifra(x % 10)));
        assert(decimal(y) == b.push(cifra(y % 10)));
        assert(a.push(cifra(x % 10)).last() == cifra(x % 10));
        assert(b.push(cifra(y % 10)).last() == cifra(y % 10));
        lema_cifra(x % 10, y % 10);
        assert(a.push(cifra(x % 10)).drop_last() =~= a);
        assert(b.push(cifra(y % 10)).drop_last() =~= b);
        lema_decimal_distinto(x / 10, y / 10);
        assert(x == 10 * (x / 10) + x % 10);
        assert(y == 10 * (y / 10) + y % 10);
    }
}

/// Appends the letters of the label of index `i`.
fn escribir_letras(s: &mut String, i: usize)
    ensures
        final(s)@ == old(s)@ + letras_de(i as nat),
    decreases i,
{
    if i >= 26 {
        escribir_letras(s, i / 26 - 1);
    }
    let d = (i % 26) as u8;
    let c = (0x41u8 + d) as char;
    agregar_caracter(s, c);
    proof {
        if i >= 26 {
            assert(final(s)@ =~= old(s)@ + letras_de(i as nat));
        } else {
            assert(final(s)@ =~= old(s)@ + letras_de(i as nat));
        }
    }
}

/// Appends `x` in base ten.
pub fn escribir_decimal(s: &mut String, x: u64)
    ensures
        final(s)@ == old(s)@ + decimal(x as nat),
    decreases x,
{
    if x >= 10 {
        escribir_decimal(s, x / 10);
    }
    let d = (x % 10) as u8;
    let c = (0x30u8 + d) as char;
    agregar_caracter(s, c);
    proof {
        assert(final(s)@ =~= old(s)@ + decimal(x as nat));
    }
}

/// The labels `A`, `B`, `C` and so on for `n` nodes, each different from the
/// others.
pub fn gen_labels(n: usize) -> (r: Vec<String>)
    ensures
        r.len() == n,
        forall|i: int| 0 <= i < n ==> (#[trigger] r@[i])@ == letras_de(i as nat),
        forall|i: int, j: int| 0 <= i < j < n ==> (#[trigger] r@[i])@ != (#[trigger] r@[j])@,
{
    let mut r: Vec<String> = Vec::new();
    let mut i: usize = 0;
    while i < n
        invariant
            i <= n,
            r.len() == i,
            forall|k: int| 0 <= k < i ==> (#[trigger] r@[k])@ == letras_de(k as nat),
        decreases n - i,
    {
        let mut s = String::new();
        escribir_letras(&mut s, i);
        assert(s@ =~= letras_de(i as nat));
        r.push(s);
        i += 1;
    }
    proof {
        assert forall|i: int, j: int| 0 <= i < j < n implies (#[trigger] r@[i])@ != (#[trigger] r@[j])@ by {
            if r@[i]@ == r@[j]@ {
                lema_letras_distintas(i as nat, j as nat);
            }
        }
    }
    r
}

/// The labels `Nodo1`, `Nodo2` and so on up to `n`, each different from the
/// others; none where `n` is less than one.
pub fn fill_vector_auto(n: i32) -> (r: Vec<String>)
    ensures
        n > 0 ==> r.len() == n,
        n <= 0 ==> r.len() == 0,
        forall|i: int| 0 <= i < r.len() ==> (#[trigger] r@[i])@ == "Nodo"@ + decimal((i + 1) as nat),
        forall|i: int, j: int| 0 <= i < j < r.len() ==> (#[trigger] r@[i])@ != (#[trigger] r@[j])@,
{
    let mut r: Vec<String> = Vec::new();
    let mut i: i32 = 0;
    while i < n
        invariant
            0 <= i,
            n > 0 ==> i <= n,
            n <= 0 ==> i == 0,
            r.len() == i,
            forall|k: int| 0 <= k < i ==> (#[trigger] r@[k])@ == "Nodo"@ + decimal((k + 1) as nat),
        decreases n - i,
    {
        let mut s = "Nodo".to_owned();
        escribir_decimal(&mut s, (i + 1) as u64);
        r.push(s);
        i += 1;
    }
    proof {
        assert forall|i: int, j: int| 0 <= i < j < r.len() implies (#[trigger] r@[i])@ != (#[trigger] r@[j])@ by {
            let a = decimal((i + 1) as nat);
            let b = decimal((j + 1) as nat);
            if r@[i]@ == r@[j]@ {
                let k = "Nodo"@.len() as int;
                assert(("Nodo"@ + a).skip(k) =~= a);
                assert(("Nodo"@ + b).skip(k) =~= b);
                lema_decimal_distinto((i + 1) as nat, (j + 1) as nat);
            }
        }
    }
    r
}

} // verus!
