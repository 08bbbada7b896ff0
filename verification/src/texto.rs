use vstd::prelude::*;

verus! {

/// `c` is a decimal digit.
pub open spec fn es_digito(c: char) -> bool {
    '0' <= c <= '9'
}

/// The number that the decimal digits `d` write.
pub open spec fn valor_decimal(d: Seq<char>) -> int
    decreases d.len(),
{
    if d.len() == 0 {
        0
    } else {
        valor_decimal(d.drop_last()) * 10 + (d.last() as int - '0' as int)
    }
}

/// The `i32` that `s` writes as an integer parse of std reads it: an optional `+`
/// or `-` sign, then one or more decimal digits and nothing else, with the value in
/// the range of `i32`; `None` for any other text.
pub open spec fn entero_de_texto(s: Seq<char>) -> Option<i32> {
    let negativo = s.len() > 0 && s[0] == '-';
    let d = digitos_de(s);
    let v = if negativo { -valor_decimal(d) } else { valor_decimal(d) };
    if d.len() == 0 || !(forall|k: int| 0 <= k < d.len() ==> es_digito(#[trigger] d[k])) {
        None
    } else if i32::MIN <= v <= i32::MAX {
        Some(v as i32)
    } else {
        None
    }
}

/// The digits part of `s`: what follows the sign, if there is one.
pub open spec fn digitos_de(s: Seq<char>) -> Seq<char> {
    if s.len() > 0 && (s[0] == '-' || s[0] == '+') {
        s.subrange(1, s.len() as int)
    } else {
        s
    }
}

proof fn lema_no_digito(s: Seq<char>, k: int)
    requires
        0 <= k < digitos_de(s).len(),
        !es_digito(digitos_de(s)[k]),
    ensures
        entero_de_texto(s) is None,
{
    let d = digitos_de(s);
    assert(!(forall|j: int| 0 <= j < d.len() ==> es_digito(#[trigger] d[j])));
}

proof fn lema_demasiado_grande(s: Seq<char>)
    requires
        forall|k: int| 0 <= k < digitos_de(s).len() ==> es_digito(#[trigger] digitos_de(s)[k]),
        valor_decimal(digitos_de(s)) > 0x8000_0000,
    ensures
        entero_de_texto(s) is None,
{
}

proof fn lema_valor_decimal_crece(d: Seq<char>, n: int)
    requires
        0 <= n < d.len(),
        forall|k: int| 0 <= k < d.len() ==> es_digito(#[trigger] d[k]),
    ensures
        valor_decimal(d.take(n)) <= valor_decimal(d),
        0 <= valor_decimal(d.take(n)),
    decreases d.len(),
{
    lema_valor_decimal_no_negativo(d.take(n));
    if n < d.len() - 1 {
        let p = d.drop_last();
        assert(p.take(n) =~= d.take(n));
        lema_valor_decimal_crece(p, n);
        lema_valor_decimal_no_negativo(p);
    } else {
        assert(d.take(n) =~= d.drop_last());
        lema_valor_decimal_no_negativo(d.drop_last());
    }
}

proof fn lema_valor_decimal_no_negativo(d: Seq<char>)
    requires
        forall|k: int| 0 <= k < d.len() ==> es_digito(#[trigger] d[k]),
    ensures
        0 <= valor_decimal(d),
    decreases d.len(),
{
    if d.len() > 0 {
        lema_valor_decimal_no_negativo(d.drop_last());
    }
}

/// Reads an `i32` as an integer parse of std does: `None` for a text that does not
/// write one.
pub fn parsear_entero(s: &str) -> (r: Option<i32>)
    ensures
        r == entero_de_texto(s@),
{
    let n = s.unicode_len();
    if n == 0 {
        return None;
    }
    let primero = s.get_char(0);
    let negativo = primero == '-';
    let inicio: usize = if primero == '-' || primero == '+' { 1 } else { 0 };
    let ghost d = if inicio == 1 { s@.subrange(1, n as int) } else { s@ };
    proof {
        assert(s@[0] == primero);
        assert(inicio == 0 ==> d =~= s@.subrange(0, n as int));
    }
    if inicio == n {
        return None;
    }
    let mut valor: i64 = 0;
    let mut i: usize = inicio;
    while i < n
        invariant
            inicio <= i <= n,
            n == s@.len(),
            d == s@.subrange(inicio as int, n as int),
            n > 0,
            negativo == (s@[0] == '-'),
            d == digitos_de(s@),
            forall|k: int| 0 <= k < i - inicio ==> es_digito(#[trigger] d[k]),
            valor == valor_decimal(d.take(i - inicio)),
            0 <= valor <= 0x8000_0000,
        decreases n - i,
    {
        let c = s.get_char(i);
        if c < '0' || c > '9' {
            proof {
                assert(d[i - inicio] == c);
                lema_no_digito(s@, i - inicio);
            }
            return None;
        }
        proof {
            assert(d[i - inicio] == c);
            assert(d.take(i - inicio + 1).drop_last() =~= d.take(i - inicio));
        }
        valor = valor * 10 + (c as i64 - '0' as i64);
        i = i + 1;
        if valor > 0x8000_0000 {
            proof {
                let j = i - inicio;
                assert(valor == valor_decimal(d.take(j)));
                if forall|k: int| 0 <= k < d.len() ==> es_digito(#[trigger] d[k]) {
                    if j < d.len() {
                        lema_valor_decimal_crece(d, j);
                    } else {
                        assert(d.take(j) =~= d);
                    }
                    assert(valor_decimal(d) > 0x8000_0000);
                    lema_demasiado_grande(s@);
                } else {
                    let k = choose|k: int| 0 <= k < d.len() && !es_digito(#[trigger] d[k]);
                    lema_no_digito(s@, k);
                }
            }
            return None;
        }
    }
    proof {
        assert(d.take(n - inicio) =~= d);
    }
    if negativo {
        if valor > 0x8000_0000 {
            None
        } else {
            Some((-valor) as i32)
        }
    } else if valor > 0x7FFF_FFFF {
        None
    } else {
        Some(valor as i32)
    }
}

/// The field at `i` of a record, or `defecto` when the record is shorter.
pub open spec fn campo(registro: Seq<Seq<char>>, i: int, defecto: Seq<char>) -> Seq<char> {
    if 0 <= i < registro.len() {
        registro[i]
    } else {
        defecto
    }
}

/// The integer that the field at `i` writes, or 0 when it is missing or writes none.
pub open spec fn entero_o_cero(registro: Seq<Seq<char>>, i: int) -> i32 {
    match entero_de_texto(campo(registro, i, seq!['0'])) {
        Some(v) => v,
        None => 0,
    }
}

/// The integer that the field at `i` of the record writes, or 0 when the field is
/// missing or writes no integer.
pub fn leer_entero_o_cero(registro: &Vec<String>, i: usize) -> (r: i32)
    ensures
        r == entero_o_cero(registro@.map_values(|s: String| s@), i as int),
{
    if i < registro.len() {
        match parsear_entero(registro[i].as_str()) {
            Some(v) => v,
            None => 0,
        }
    } else {
        let cero = "0";
        proof {
            reveal_strlit("0");
            assert(cero@ =~= seq!['0']);
        }
        match parsear_entero(cero) {
            Some(v) => v,
            None => 0,
        }
    }
}

} // verus!
