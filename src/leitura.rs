//! The text format of a distance matrix.

use crate::grafo::{matriz, Grafo, Peso, INF};
use vstd::prelude::*;

verus! {

/// ASCII whitespace: space, tab, line feed, vertical tab, form feed, carriage return.
pub open spec fn eh_espaco(c: u8) -> bool {
    c == 32 || (9 <= c && c <= 13)
}

pub open spec fn eh_digito(c: u8) -> bool {
    48 <= c && c <= 57
}

/// The digits of a token: the token without one leading `+`.
pub open spec fn digitos_do_token(t: Seq<u8>) -> Seq<u8> {
    if t.len() > 0 && t[0] == 43 {
        t.skip(1)
    } else {
        t
    }
}

pub open spec fn so_digitos(d: Seq<u8>) -> bool {
    forall|i: int| 0 <= i < d.len() ==> #[trigger] eh_digito(d[i])
}

/// Value of a string of decimal digits.
pub open spec fn decimal(d: Seq<u8>) -> int
    decreases d.len(),
{
    if d.len() == 0 {
        0
    } else {
        decimal(d.drop_last()) * 10 + (d.last() - 48)
    }
}

/// A token's weight: its value when it is an optional `+` followed by decimal
/// digits whose value fits in a `u64`; otherwise the "no edge" weight `INF`.
pub open spec fn valor_token(t: Seq<u8>) -> Peso {
    let d = digitos_do_token(t);
    if d.len() > 0 && so_digitos(d) && decimal(d) <= u64::MAX {
        decimal(d) as u64
    } else {
        INF
    }
}

/// Where a reading of the text stands: the rows finished, the row being read,
/// whether the current line has begun, and the bytes of the token being read.
pub struct Leitura {
    pub linhas: Seq<Seq<Peso>>,
    pub linha: Seq<Peso>,
    pub em_linha: bool,
    pub token: Seq<u8>,
}

/// Ends the token being read, if any, adding its weight to the row.
pub open spec fn fecha_token(l: Leitura) -> Leitura {
    if l.token.len() == 0 {
        l
    } else {
        Leitura { linha: l.linha.push(valor_token(l.token)), token: Seq::empty(), ..l }
    }
}

/// Reads one byte: a line feed ends the row, other whitespace ends the token,
/// any other byte extends the token.
pub open spec fn passo(l: Leitura, c: u8) -> Leitura {
    if c == 10 {
        let f = fecha_token(l);
        Leitura {
            linhas: f.linhas.push(f.linha),
            linha: Seq::empty(),
            em_linha: false,
            token: Seq::empty(),
        }
    } else if eh_espaco(c) {
        Leitura { em_linha: true, ..fecha_token(l) }
    } else {
        Leitura { token: l.token.push(c), em_linha: true, ..l }
    }
}

pub open spec fn leitura(texto: Seq<u8>) -> Leitura
    decreases texto.len(),
{
    if texto.len() == 0 {
        Leitura { linhas: Seq::empty(), linha: Seq::empty(), em_linha: false, token: Seq::empty() }
    } else {
        passo(leitura(texto.drop_last()), texto.last())
    }
}

/// The matrix a text with ASCII whitespace describes: one row per line (a last
/// line without a line feed counts too), one weight per whitespace-separated
/// token.
pub open spec fn matriz_ascii(texto: Seq<u8>) -> Seq<Seq<Peso>> {
    let f = fecha_token(leitura(texto));
    if f.em_linha {
        f.linhas.push(f.linha)
    } else {
        f.linhas
    }
}

/// What the reader of a token keeps: whether the digits so far are valid and
/// fit, their value, and how many there are.
pub open spec fn acumulador_coerente(t: Seq<u8>, ok: bool, valor: u64, digitos: usize) -> bool {
    let d = digitos_do_token(t);
    &&& digitos == d.len()
    &&& ok <==> (so_digitos(d) && decimal(d) <= u64::MAX)
    &&& ok ==> valor == decimal(d)
}

proof fn lemma_decimal_nao_negativo(d: Seq<u8>)
    requires
        so_digitos(d),
    ensures
        decimal(d) >= 0,
    decreases d.len(),
{
    if d.len() > 0 {
        assert(so_digitos(d.drop_last())) by {
            assert forall|i: int| 0 <= i < d.drop_last().len() implies #[trigger] eh_digito(
                d.drop_last()[i],
            ) by {
                assert(eh_digito(d[i]));
            }
        }
        lemma_decimal_nao_negativo(d.drop_last());
        assert(eh_digito(d[d.len() - 1]));
    }
}

/// Adds byte `c` to a token whose accumulator is `(ok, valor, digitos)`.
fn acumula(c: u8, tam: usize, ok: bool, valor: u64, digitos: usize, Ghost(t): Ghost<Seq<u8>>) -> (r: (
    bool,
    u64,
    usize,
))
    requires
        tam == t.len(),
        tam < usize::MAX,
        acumulador_coerente(t, ok, valor, digitos),
    ensures
        acumulador_coerente(t.push(c), r.0, r.1, r.2),
{
    let ghost t2 = t.push(c);
    if tam == 0 && c == 43 {
        assert(digitos_do_token(t2) =~= Seq::<u8>::empty());
        assert(decimal(Seq::<u8>::empty()) == 0);
        return (true, 0, 0);
    }
    let ghost d = digitos_do_token(t);
    let ghost d2 = digitos_do_token(t2);
    assert(d2 =~= d.push(c)) by {
        if t.len() > 0 && t[0] == 43 {
            assert(t2[0] == 43);
            assert(t2.skip(1) =~= t.skip(1).push(c));
        }
    }
    assert(d2.drop_last() =~= d);
    assert(d2.last() == c);
    let digitos2 = digitos + 1;
    if !eh_digito_exec(c) {
        assert(!so_digitos(d2)) by {
            assert(!eh_digito(d2[d2.len() - 1]));
        }
        return (false, valor, digitos2);
    }
    assert(so_digitos(d2) <==> so_digitos(d)) by {
        if so_digitos(d) {
            assert forall|i: int| 0 <= i < d2.len() implies #[trigger] eh_digito(d2[i]) by {
                if i < d.len() {
                    assert(d2[i] == d[i]);
                }
            }
        }
        if so_digitos(d2) {
            assert forall|i: int| 0 <= i < d.len() implies #[trigger] eh_digito(d[i]) by {
                assert(d2[i] == d[i]);
            }
        }
    }
    if !ok {
        proof {
            if so_digitos(d) {
                lemma_decimal_nao_negativo(d);
            }
        }
        return (false, valor, digitos2);
    }
    let algarismo = (c - 48) as u64;
    match valor.checked_mul(10) {
        Some(v10) => match v10.checked_add(algarismo) {
            Some(v) => (true, v, digitos2),
            None => (false, valor, digitos2),
        },
        None => (false, valor, digitos2),
    }
}

fn eh_digito_exec(c: u8) -> (r: bool)
    ensures
        r == eh_digito(c),
{
    48 <= c && c <= 57
}

fn eh_espaco_exec(c: u8) -> (r: bool)
    ensures
        r == eh_espaco(c),
{
    c == 32 || (9 <= c && c <= 13)
}

/// Reads a distance matrix from text whose whitespace is ASCII (see
/// `matriz_ascii`).
fn parse_matriz_ascii(texto: &[u8]) -> (r: Vec<Vec<Peso>>)
    ensures
        matriz(r@) == matriz_ascii(texto@),
{
    let mut linhas: Vec<Vec<Peso>> = Vec::new();
    let mut linha: Vec<Peso> = Vec::new();
    let mut em_linha = false;
    let mut tam: usize = 0;
    let mut ok = true;
    let mut valor: u64 = 0;
    let mut digitos: usize = 0;
    let ghost mut token: Seq<u8> = Seq::empty();
    let mut i: usize = 0;
    assert(texto@.take(0) =~= Seq::<u8>::empty());
    assert(matriz(linhas@) =~= Seq::<Seq<Peso>>::empty());
    assert(linha@ =~= Seq::<Peso>::empty());
    while i < texto.len()
        invariant
            i <= texto@.len(),
            leitura(texto@.take(i as int)).linhas == matriz(linhas@),
            leitura(texto@.take(i as int)).linha == linha@,
            leitura(texto@.take(i as int)).em_linha == em_linha,
            leitura(texto@.take(i as int)).token == token,
            tam == token.len(),
            tam <= i,
            acumulador_coerente(token, ok, valor, digitos),
        decreases texto@.len() - i,
    {
        let c = texto[i];
        let ghost antes = Leitura { linhas: matriz(linhas@), linha: linha@, em_linha, token };
        proof {
            assert(texto@.take(i + 1).drop_last() =~= texto@.take(i as int));
            assert(texto@.take(i + 1).last() == c);
        }
        if c == 10 || eh_espaco_exec(c) {
            if tam > 0 {
                let w = if ok && digitos > 0 {
                    valor
                } else {
                    INF
                };
                linha.push(w);
            }
            if c == 10 {
                let mut feita: Vec<Peso> = Vec::new();
                std::mem::swap(&mut feita, &mut linha);
                linhas.push(feita);
                em_linha = false;
            } else {
                em_linha = true;
            }
            tam = 0;
            ok = true;
            valor = 0;
            digitos = 0;
            proof {
                token = Seq::empty();
                let depois = leitura(texto@.take(i + 1));
                assert(depois == passo(antes, c));
                assert(matriz(linhas@) =~= depois.linhas);
                assert(linha@ =~= depois.linha);
                assert(token =~= depois.token);
                assert(acumulador_coerente(token, ok, valor, digitos)) by {
                    assert(digitos_do_token(token) =~= Seq::<u8>::empty());
                }
            }
        } else {
            let r = acumula(c, tam, ok, valor, digitos, Ghost(token));
            ok = r.0;
            valor = r.1;
            digitos = r.2;
            tam = tam + 1;
            em_linha = true;
            proof {
                token = token.push(c);
                let depois = leitura(texto@.take(i + 1));
                assert(depois == passo(antes, c));
                assert(matriz(linhas@) =~= depois.linhas);
                assert(linha@ =~= depois.linha);
                assert(token =~= depois.token);
            }
        }
        i += 1;
    }
    proof {
        assert(texto@.take(texto@.len() as int) =~= texto@);
    }
    let ghost antes = Leitura { linhas: matriz(linhas@), linha: linha@, em_linha, token };
    if tam > 0 {
        let w = if ok && digitos > 0 {
            valor
        } else {
            INF
        };
        linha.push(w);
    }
    if em_linha {
        linhas.push(linha);
    }
    proof {
        assert(matriz(linhas@) =~= matriz_ascii(texto@));
    }
    linhas
}

/// Length of the multi-byte UTF-8 encoding of a Unicode whitespace character
/// (U+0085, U+00A0, U+1680, U+2000 to U+200A, U+2028, U+2029, U+202F, U+205F,
/// U+3000) at the start of `t`; zero when there is none.
pub open spec fn espaco_unicode(t: Seq<u8>) -> nat {
    if t.len() >= 2 && t[0] == 0xC2 && (t[1] == 0x85 || t[1] == 0xA0) {
        2
    } else if t.len() >= 3 && t[0] == 0xE1 && t[1] == 0x9A && t[2] == 0x80 {
        3
    } else if t.len() >= 3 && t[0] == 0xE2 && t[1] == 0x80 && ((0x80 <= t[2] && t[2] <= 0x8A)
        || t[2] == 0xA8 || t[2] == 0xA9 || t[2] == 0xAF) {
        3
    } else if t.len() >= 3 && t[0] == 0xE2 && t[1] == 0x81 && t[2] == 0x9F {
        3
    } else if t.len() >= 3 && t[0] == 0xE3 && t[1] == 0x80 && t[2] == 0x80 {
        3
    } else {
        0
    }
}

/// `t` with every multi-byte Unicode whitespace character replaced by as many
/// ASCII spaces as it has bytes.
pub open spec fn normalizado(t: Seq<u8>) -> Seq<u8>
    decreases t.len(),
{
    if t.len() == 0 {
        t
    } else if espaco_unicode(t) > 0 {
        Seq::new(espaco_unicode(t), |i: int| 32u8) + normalizado(t.skip(espaco_unicode(t) as int))
    } else {
        seq![t[0]] + normalizado(t.skip(1))
    }
}

/// The matrix a text describes: its Unicode whitespace read as ASCII spaces,
/// then one row per line and one weight per whitespace-separated token.
pub open spec fn matriz_do_texto(texto: Seq<u8>) -> Seq<Seq<Peso>> {
    matriz_ascii(normalizado(texto))
}

fn espaco_unicode_em(t: &[u8], i: usize) -> (k: usize)
    requires
        i < t@.len(),
    ensures
        k == espaco_unicode(t@.skip(i as int)),
{
    let n = t.len();
    let a = t[i];
    let tem2 = n - i > 1;
    let tem3 = n - i > 2;
    if tem2 && a == 0xC2 && (t[i + 1] == 0x85 || t[i + 1] == 0xA0) {
        2
    } else if tem3 && a == 0xE1 && t[i + 1] == 0x9A && t[i + 2] == 0x80 {
        3
    } else if tem3 && a == 0xE2 && t[i + 1] == 0x80 && ((0x80 <= t[i + 2] && t[i + 2] <= 0x8A)
        || t[i + 2] == 0xA8 || t[i + 2] == 0xA9 || t[i + 2] == 0xAF) {
        3
    } else if tem3 && a == 0xE2 && t[i + 1] == 0x81 && t[i + 2] == 0x9F {
        3
    } else if tem3 && a == 0xE3 && t[i + 1] == 0x80 && t[i + 2] == 0x80 {
        3
    } else {
        0
    }
}

/// Replaces every multi-byte Unicode whitespace character of `texto` by ASCII
/// spaces, one per byte.
pub fn normaliza_espacos(texto: &[u8]) -> (r: Vec<u8>)
    ensures
        r@ == normalizado(texto@),
{
    let n = texto.len();
    let mut r: Vec<u8> = Vec::new();
    let mut i: usize = 0;
    assert(texto@.skip(0) =~= texto@);
    while i < n
        invariant
            n == texto@.len(),
            i <= n,
            r@ + normalizado(texto@.skip(i as int)) == normalizado(texto@),
        decreases n - i,
    {
        let ghost resto = texto@.skip(i as int);
        let k = espaco_unicode_em(texto, i);
        if k > 0 {
            let ghost r0 = r@;
            let mut j: usize = 0;
            while j < k
                invariant
                    j <= k,
                    r@ == r0 + Seq::new(j as nat, |x: int| 32u8),
                decreases k - j,
            {
                r.push(32);
                proof {
                    assert(r0 + Seq::new((j + 1) as nat, |x: int| 32u8) =~= (r0 + Seq::new(
                        j as nat,
                        |x: int| 32u8,
                    )).push(32));
                }
                j += 1;
            }
            proof {
                assert(resto.skip(k as int) =~= texto@.skip(i + k));
                assert(normalizado(resto) == Seq::new(k as nat, |x: int| 32u8) + normalizado(
                    resto.skip(k as int),
                ));
                assert(r0 + Seq::new(k as nat, |x: int| 32u8) + normalizado(texto@.skip(i + k))
                    =~= r0 + normalizado(resto));
            }
            i += k;
        } else {
            let ghost r0 = r@;
            r.push(texto[i]);
            proof {
                assert(resto.skip(1) =~= texto@.skip(i + 1));
                assert(resto[0] == texto@[i as int]);
                assert(normalizado(resto) == seq![resto[0]] + normalizado(resto.skip(1)));
                assert(r@ + normalizado(texto@.skip(i + 1)) =~= r0 + normalizado(resto));
            }
            i += 1;
        }
    }
    proof {
        assert(texto@.skip(n as int) =~= Seq::<u8>::empty());
        assert(r@ + Seq::<u8>::empty() =~= r@);
    }
    r
}

/// Reads a distance matrix from text: one row per line, weights separated by
/// whitespace (ASCII or Unicode); a token that is not a `u64` in decimal
/// stands for `INF`.
pub fn parse_matriz(texto: &[u8]) -> (r: Vec<Vec<Peso>>)
    ensures
        matriz(r@) == matriz_do_texto(texto@),
{
    let normal = normaliza_espacos(texto);
    parse_matriz_ascii(normal.as_slice())
}

/// The vertex count a header row gives: its single weight, when it has
/// exactly one that is not `INF` and fits a `usize`; otherwise zero.
pub open spec fn tamanho_do_cabecalho(linha: Seq<Peso>) -> nat {
    if linha.len() == 1 && linha[0] != INF && linha[0] <= usize::MAX {
        linha[0] as nat
    } else {
        0
    }
}

/// The matrix a text with a header line describes: the header gives `n`,
/// then the first `n` rows that follow, each cut to its first `n` weights.
pub open spec fn matriz_com_cabecalho_spec(m: Seq<Seq<Peso>>) -> Seq<Seq<Peso>> {
    if m.len() == 0 {
        Seq::empty()
    } else {
        let n = tamanho_do_cabecalho(m[0]);
        let linhas = m.skip(1);
        let k = if n < linhas.len() {
            n as int
        } else {
            linhas.len() as int
        };
        Seq::new(
            k as nat,
            |i: int|
                if (n as int) < linhas[i].len() {
                    linhas[i].take(n as int)
                } else {
                    linhas[i]
                },
        )
    }
}

/// Reads a matrix preceded by a header line that holds the vertex count `n`:
/// keeps the first `n` rows after it, each cut to its first `n` weights.
pub fn parse_matriz_com_cabecalho(texto: &[u8]) -> (r: Vec<Vec<Peso>>)
    ensures
        matriz(r@) == matriz_com_cabecalho_spec(matriz_do_texto(texto@)),
{
    let m = parse_matriz(texto);
    let mut r: Vec<Vec<Peso>> = Vec::new();
    if m.len() == 0 {
        assert(matriz(r@) =~= matriz_com_cabecalho_spec(matriz_do_texto(texto@)));
        return r;
    }
    assert(matriz(m@)[0] == m@[0]@);
    let n: usize = if m[0].len() == 1 && m[0][0] != INF && m[0][0] <= usize::MAX as u64 {
        m[0][0] as usize
    } else {
        0
    };
    let mut i: usize = 1;
    while i < m.len() && i - 1 < n
        invariant
            1 <= i <= m@.len(),
            i - 1 <= n,
            r@.len() == i - 1,
            n == tamanho_do_cabecalho(matriz(m@)[0]),
            forall|j: int|
                0 <= j < r@.len() ==> #[trigger] r@[j]@ == if (n as int) < m@[j + 1]@.len() {
                    m@[j + 1]@.take(n as int)
                } else {
                    m@[j + 1]@
                },
        decreases m@.len() - i,
    {
        let linha = &m[i];
        let mut nova: Vec<Peso> = Vec::new();
        let mut k: usize = 0;
        while k < linha.len() && k < n
            invariant
                k <= linha@.len(),
                k <= n,
                nova@ == linha@.take(k as int),
            decreases linha@.len() - k,
        {
            nova.push(linha[k]);
            proof {
                assert(linha@.take(k + 1) =~= linha@.take(k as int).push(linha@[k as int]));
            }
            k += 1;
        }
        proof {
            if linha@.len() <= n {
                assert(linha@.take(k as int) =~= linha@);
            }
        }
        r.push(nova);
        i += 1;
    }
    proof {
        let esperado = matriz_com_cabecalho_spec(matriz(m@));
        assert forall|j: int| 0 <= j < r@.len() implies matriz(r@)[j] == esperado[j] by {
            assert(matriz(m@).skip(1)[j] == m@[j + 1]@);
        }
        assert(matriz(r@) =~= esperado);
    }
    r
}

impl Grafo {
    /// The graph a text with a header line describes (see
    /// `parse_matriz_com_cabecalho`); `None` when the rows kept do not form a
    /// square matrix.
    pub fn from_texto_com_cabecalho(texto: &[u8]) -> (r: Option<Grafo>)
        ensures
            r is Some <==> crate::grafo::quadrada(matriz_com_cabecalho_spec(matriz_do_texto(texto@))),
            r matches Some(g) ==> g@ == matriz_com_cabecalho_spec(matriz_do_texto(texto@)),
    {
        Grafo::from_matriz(parse_matriz_com_cabecalho(texto))
    }

    /// The graph a text describes (see `parse_matriz`); `None` when the rows do
    /// not form a square matrix.
    pub fn from_texto(texto: &[u8]) -> (r: Option<Grafo>)
        ensures
            r is Some <==> crate::grafo::quadrada(matriz_do_texto(texto@)),
            r matches Some(g) ==> g@ == matriz_do_texto(texto@),
    {
        Grafo::from_matriz(parse_matriz(texto))
    }
}

} // verus!
