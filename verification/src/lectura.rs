//! Reading text: characters, lines, words and whole numbers.

use crate::cadenas::agregar_caracter;
use vstd::prelude::*;

verus! {

/// White space as Unicode lists it (the property `White_Space`).
pub open spec fn es_espacio(c: char) -> bool {
    let x = c as u32;
    ||| 0x09 <= x <= 0x0D
    ||| x == 0x20
    ||| x == 0x85
    ||| x == 0xA0
    ||| x == 0x1680
    ||| 0x2000 <= x <= 0x200A
    ||| x == 0x2028
    ||| x == 0x2029
    ||| x == 0x202F
    ||| x == 0x205F
    ||| x == 0x3000
}

/// A decimal digit.
pub open spec fn es_digito(c: char) -> bool {
    0x30 <= c as u32 <= 0x39
}

/// The lines of a text: what stands between its line feeds.
pub open spec fn lineas(t: Seq<char>) -> Seq<Seq<char>>
    decreases t.len(),
{
    if t.len() == 0 {
        seq![Seq::empty()]
    } else {
        let antes = lineas(t.drop_last());
        if t.last() == '\n' {
            antes.push(Seq::empty())
        } else {
            antes.update(antes.len() - 1, antes.last().push(t.last()))
        }
    }
}

/// The words of a line: its longest runs of characters that are not white space.
pub open spec fn palabras(l: Seq<char>) -> Seq<Seq<char>>
    decreases l.len(),
{
    if l.len() == 0 {
        Seq::empty()
    } else {
        let antes = palabras(l.drop_last());
        if es_espacio(l.last()) {
            antes
        } else if l.len() >= 2 && !es_espacio(l[l.len() - 2]) {
            antes.update(antes.len() - 1, antes.last().push(l.last()))
        } else {
            antes.push(seq![l.last()])
        }
    }
}

/// The number that a run of digits writes in base ten.
pub open spec fn valor_digitos(s: Seq<char>) -> int
    decreases s.len(),
{
    if s.len() == 0 {
        0
    } else {
        valor_digitos(s.drop_last()) * 10 + (s.last() as u32 - 0x30)
    }
}

/// `s` is one digit or more, and nothing else.
pub open spec fn son_digitos(s: Seq<char>) -> bool {
    s.len() > 0 && forall|i: int| 0 <= i < s.len() ==> es_digito(#[trigger] s[i])
}

/// Whether `s` starts with a sign.
pub open spec fn con_signo(s: Seq<char>) -> bool {
    s.len() > 0 && (s[0] == '-' || s[0] == '+')
}

/// The whole number that `s` writes: a sign or none, then digits and nothing
/// else, of a value that an `i32` holds. Otherwise nothing.
pub open spec fn entero_de(s: Seq<char>) -> Option<i32> {
    let cuerpo = if con_signo(s) {
        s.skip(1)
    } else {
        s
    };
    let valor = if con_signo(s) && s[0] == '-' {
        -valor_digitos(cuerpo)
    } else {
        valor_digitos(cuerpo)
    };
    if son_digitos(cuerpo) && i32::MIN <= valor <= i32::MAX {
        Some(valor as i32)
    } else {
        None
    }
}

/// The views of a list of lists of characters.
pub open spec fn textos(v: Seq<Vec<char>>) -> Seq<Seq<char>> {
    Seq::new(v.len(), |i: int| v[i]@)
}

/// Whether `c` is white space.
pub fn es_blanco(c: char) -> (b: bool)
    ensures
        b == es_espacio(c),
{
    let x = c as u32;
    (0x09 <= x && x <= 0x0D) || x == 0x20 || x == 0x85 || x == 0xA0 || x == 0x1680 || (0x2000 <= x && x
        <= 0x200A) || x == 0x2028 || x == 0x2029 || x == 0x202F || x == 0x205F || x == 0x3000
}

/// The characters of a text, one by one.
pub fn caracteres(texto: &str) -> (v: Vec<char>)
    ensures
        v@ == texto@,
{
    let mut v: Vec<char> = Vec::new();
    for c in it: texto.chars()
        invariant
            v@ == it.seq().take(it.index() as int),
    {
        v.push(c);
    }
    v
}

/// Cuts a text at its line feeds.
pub fn partir_lineas(t: &Vec<char>) -> (r: Vec<Vec<char>>)
    ensures
        textos(r@) == lineas(t@),
        r.len() >= 1,
{
    let mut r: Vec<Vec<char>> = Vec::new();
    let mut actual: Vec<char> = Vec::new();
    let mut i: usize = 0;
    assert(t@.take(0) =~= Seq::<char>::empty());
    assert(textos(r@).push(actual@) =~= seq![Seq::<char>::empty()]);
    while i < t.len()
        invariant
            i <= t.len(),
            textos(r@).push(actual@) == lineas(t@.take(i as int)),
        decreases t.len() - i,
    {
        let c = t[i];
        proof {
            assert(t@.take(i + 1).drop_last() =~= t@.take(i as int));
            assert(t@.take(i + 1).last() == c);
        }
        let ghost antes = textos(r@).push(actual@);
        if c == '\n' {
            r.push(actual);
            actual = Vec::new();
            assert(textos(r@).push(actual@) =~= antes.push(Seq::empty()));
        } else {
            actual.push(c);
            assert(textos(r@).push(actual@) =~= antes.update(antes.len() - 1, antes.last().push(c)));
        }
        i += 1;
    }
    assert(t@.take(i as int) =~= t@);
    let ghost antes = textos(r@).push(actual@);
    r.push(actual);
    assert(textos(r@) =~= antes);
    r
}

/// Cuts a line into its words.
pub fn partir_palabras(l: &Vec<char>) -> (r: Vec<Vec<char>>)
    ensures
        textos(r@) == palabras(l@),
{
    let mut r: Vec<Vec<char>> = Vec::new();
    let mut actual: Vec<char> = Vec::new();
    let mut dentro = false;
    let mut i: usize = 0;
    assert(l@.take(0) =~= Seq::<char>::empty());
    assert(textos(r@) =~= Seq::<Seq<char>>::empty());
    while i < l.len()
        invariant
            i <= l.len(),
            dentro <==> i > 0 && !es_espacio(l@[i - 1]),
            dentro ==> textos(r@).push(actual@) == palabras(l@.take(i as int)),
            !dentro ==> textos(r@) == palabras(l@.take(i as int)),
        decreases l.len() - i,
    {
        let c = l[i];
        proof {
            assert(l@.take(i + 1).drop_last() =~= l@.take(i as int));
            assert(l@.take(i + 1).last() == c);
            if i > 0 {
                assert(l@.take(i + 1)[i - 1] == l@[i - 1]);
            }
        }
        let ghost antes = palabras(l@.take(i as int));
        if es_blanco(c) {
            if dentro {
                let ghost previo = textos(r@).push(actual@);
                r.push(actual);
                actual = Vec::new();
                assert(textos(r@) =~= previo);
            }
            dentro = false;
        } else {
            if dentro {
                actual.push(c);
                assert(textos(r@).push(actual@) =~= antes.update(antes.len() - 1, antes.last().push(c)));
            } else {
                actual = Vec::new();
                actual.push(c);
                assert(textos(r@).push(actual@) =~= antes.push(seq![c]));
            }
            dentro = true;
        }
        i += 1;
    }
    assert(l@.take(i as int) =~= l@);
    if dentro {
        let ghost previo = textos(r@).push(actual@);
        r.push(actual);
        assert(textos(r@) =~= previo);
    }
    r
}

/// Reads a whole number.
pub fn leer_entero(s: &Vec<char>) -> (r: Option<i32>)
    ensures
        r == entero_de(s@),
{
    let signo = s.len() > 0 && (s[0] == '-' || s[0] == '+');
    let negativo = signo && s[0] == '-';
    let inicio: usize = if signo {
        1
    } else {
        0
    };
    let ghost cuerpo = s@.skip(inicio as int);
    proof {
        assert(s@.skip(0) =~= s@);
        assert(signo == con_signo(s@));
        assert(cuerpo == if con_signo(s@) {
            s@.skip(1)
        } else {
            s@
        });
    }
    if inicio == s.len() {
        return None;
    }
    let mut valor: i64 = 0;
    let mut grande = false;
    let mut i: usize = inicio;
    assert(cuerpo.take(0) =~= Seq::<char>::empty());
    while i < s.len()
        invariant
            inicio <= i <= s.len(),
            cuerpo == s@.skip(inicio as int),
            cuerpo == if con_signo(s@) {
                s@.skip(1)
            } else {
                s@
            },
            negativo == (con_signo(s@) && s@[0] == '-'),
            forall|j: int| 0 <= j < i - inicio ==> es_digito(#[trigger] cuerpo[j]),
            !grande ==> valor == valor_digitos(cuerpo.take(i - inicio)) && 0 <= valor <= 0x8000_0000,
            grande ==> valor_digitos(cuerpo.take(i - inicio)) > 0x8000_0000,
        decreases s.len() - i,
    {
        let x = s[i] as u32;
        assert(cuerpo[i - inicio] == s@[i as int]);
        if !(0x30 <= x && x <= 0x39) {
            assert(!es_digito(cuerpo[i - inicio]));
            assert(!son_digitos(cuerpo));
            return None;
        }
        proof {
            assert(cuerpo.take(i - inicio + 1).drop_last() =~= cuerpo.take(i - inicio));
            assert(cuerpo.take(i - inicio + 1).last() == s@[i as int]);
        }
        if !grande {
            valor = valor * 10 + (x - 0x30) as i64;
            if valor > 0x8000_0000 {
                grande = true;
            }
        }
        i += 1;
    }
    assert(cuerpo.take(i - inicio) =~= cuerpo);
    assert(son_digitos(cuerpo));
    if grande {
        None
    } else if negativo {
        Some((-valor) as i32)
    } else if valor <= 0x7FFF_FFFF {
        Some(valor as i32)
    } else {
        None
    }
}

/// A text has at most one line more than it has characters.
pub proof fn lema_cuenta_lineas(t: Seq<char>)
    ensures
        1 <= lineas(t).len() <= t.len() + 1,
    decreases t.len(),
{
    if t.len() > 0 {
        lema_cuenta_lineas(t.drop_last());
    }
}

/// The string made of the given characters.
pub fn cadena_de(v: &Vec<char>) -> (s: String)
    ensures
        s@ == v@,
{
    let mut s = String::new();
    let mut i: usize = 0;
    while i < v.len()
        invariant
            i <= v.len(),
            s@ == v@.take(i as int),
        decreases v.len() - i,
    {
        agregar_caracter(&mut s, v[i]);
        assert(v@.take(i + 1) =~= v@.take(i as int).push(v@[i as int]));
        i += 1;
    }
    assert(v@.take(i as int) =~= v@);
    s
}

} // verus!
