//! GRASP: randomized nearest-neighbour construction and best-improvement
//! 2-opt local search.

use crate::aleatorio::{agora, segundos_desde, sorteia_usize};
use crate::grafo::{
    factivel, fo_de, lemma_cobre_tudo, lemma_factivel_sse_permutacao, permutacao, quadrada,
    Caminho, Grafo, Peso, Solucao, Vertice, INF,
};
use crate::taxa::Taxa;
use rand::XorShiftRng;
use vstd::prelude::*;

verus! {

broadcast use vstd::seq_lib::group_to_multiset_ensures, vstd::multiset::group_multiset_axioms;

/// `c` with the entries at positions `i..k` in reverse order.
pub open spec fn inverte_trecho(c: Seq<Vertice>, i: int, k: int) -> Seq<Vertice> {
    Seq::new(
        c.len(),
        |j: int|
            if i <= j < k {
                c[i + k - 1 - j]
            } else {
                c[j]
            },
    )
}

/// No reversal of a segment `[i, k)` of `c` gives a strictly lower objective.
pub open spec fn otimo_local_2opt(g: Seq<Seq<u64>>, c: Seq<Vertice>) -> bool {
    forall|i: int, k: int|
        0 <= i < k <= c.len() ==> #[trigger] fo_de(g, inverte_trecho(c, i, k)) >= fo_de(g, c)
}

/// The tour's cached objective is the objective of its vertices in `g`.
pub open spec fn coerente(g: Seq<Seq<u64>>, s: Solucao) -> bool {
    s.custo() == fo_de(g, s.rota())
}

/// Reversing a segment keeps the same vertices.
pub proof fn lemma_inverte_preserva_vertices(c: Seq<Vertice>, i: int, k: int)
    requires
        0 <= i <= k <= c.len(),
    ensures
        inverte_trecho(c, i, k).to_multiset() == c.to_multiset(),
{
    let ini = c.take(i);
    let meio = c.subrange(i, k);
    let fim = c.skip(k);
    assert(inverte_trecho(c, i, k) =~= ini + meio.reverse() + fim);
    assert(c =~= ini + meio + fim);
    meio.lemma_reverse_to_multiset();
    vstd::seq_lib::lemma_multiset_commutative(ini + meio.reverse(), fim);
    vstd::seq_lib::lemma_multiset_commutative(ini, meio.reverse());
    vstd::seq_lib::lemma_multiset_commutative(ini + meio, fim);
    vstd::seq_lib::lemma_multiset_commutative(ini, meio);
}

/// Reversing a segment keeps a tour feasible.
pub proof fn lemma_inverte_preserva_factivel(c: Seq<Vertice>, n: nat, i: int, k: int)
    requires
        factivel(c, n),
        c.len() <= usize::MAX,
        0 <= i <= k <= c.len(),
    ensures
        factivel(inverte_trecho(c, i, k), n),
{
    let r = inverte_trecho(c, i, k);
    lemma_factivel_sse_permutacao(c, n);
    assert forall|a: int, b: int| 0 <= a < r.len() && 0 <= b < r.len() && a != b implies r[a]
        != r[b] by {
        let pa = if i <= a < k {
            i + k - 1 - a
        } else {
            a
        };
        let pb = if i <= b < k {
            i + k - 1 - b
        } else {
            b
        };
        assert(r[a] == c[pa]);
        assert(r[b] == c[pb]);
    }
    assert forall|a: int| 0 <= a < r.len() implies #[trigger] r[a] < n by {
        if i <= a < k {
            assert(r[a] == c[i + k - 1 - a]);
        }
    }
    lemma_factivel_sse_permutacao(r, n);
}

/// Reverses the entries of `caminho` at positions `i..k`.
pub fn two_opt_swap(caminho: Caminho, i: usize, k: usize) -> (r: Caminho)
    requires
        i <= k <= caminho@.len(),
    ensures
        r@ == inverte_trecho(caminho@, i as int, k as int),
{
    let ghost c = caminho@;
    let mut caminho = caminho;
    let mut lo = i;
    let mut hi = k;
    while hi - lo > 1
        invariant
            i <= lo <= hi <= k,
            k <= c.len(),
            lo - i == k - hi,
            caminho@.len() == c.len(),
            forall|j: int|
                0 <= j < c.len() ==> #[trigger] caminho@[j] == if (i <= j < lo || hi <= j < k) {
                    c[i + k - 1 - j]
                } else {
                    c[j]
                },
        decreases hi - lo,
    {
        let a = caminho[lo];
        let b = caminho[hi - 1];
        caminho.set(lo, b);
        caminho.set(hi - 1, a);
        lo += 1;
        hi -= 1;
    }
    assert(caminho@ =~= inverte_trecho(c, i as int, k as int));
    caminho
}

/// The best strictly improving segment reversal of `solucao`, if any.
pub fn two_opt_loop(grafo: &Grafo, solucao: &Solucao) -> (r: Option<Solucao>)
    requires
        coerente(grafo@, *solucao),
        solucao.rota().len() <= usize::MAX,
    ensures
        r is None <==> otimo_local_2opt(grafo@, solucao.rota()),
        r matches Some(m) ==> {
            &&& coerente(grafo@, m)
            &&& m.custo() < solucao.custo()
            &&& exists|i: int, k: int|
                0 <= i < k <= solucao.rota().len() && m.rota() == inverte_trecho(
                    solucao.rota(),
                    i,
                    k,
                )
            &&& forall|i: int, k: int|
                0 <= i < k <= solucao.rota().len() ==> #[trigger] fo_de(
                    grafo@,
                    inverte_trecho(solucao.rota(), i, k),
                ) >= m.custo()
        },
{
    let num_vertices = solucao.caminho().len();
    let ghost c = solucao.rota();
    let ghost g = grafo@;
    let mut best = solucao.duplica();
    let mut i: usize = 0;
    while i < num_vertices
        invariant
            c == solucao.rota(),
            g == grafo@,
            num_vertices == c.len(),
            i <= num_vertices,
            coerente(g, best),
            best.custo() <= solucao.custo(),
            best.custo() < solucao.custo() ==> exists|a: int, b: int|
                0 <= a < b <= c.len() && best.rota() == inverte_trecho(c, a, b),
            forall|a: int, b: int|
                0 <= a < i && a < b <= c.len() ==> #[trigger] fo_de(g, inverte_trecho(c, a, b))
                    >= best.custo(),
        decreases num_vertices - i,
    {
        let mut k: usize = i;
        while k < num_vertices
            invariant
                c == solucao.rota(),
                g == grafo@,
                num_vertices == c.len(),
                i < num_vertices,
                i <= k <= num_vertices,
                coerente(g, best),
                best.custo() <= solucao.custo(),
                best.custo() < solucao.custo() ==> exists|a: int, b: int|
                    0 <= a < b <= c.len() && best.rota() == inverte_trecho(c, a, b),
                forall|a: int, b: int|
                    ((0 <= a < i && a < b <= c.len()) || (a == i && i < b <= k)) ==> #[trigger] fo_de(
                        g,
                        inverte_trecho(c, a, b),
                    ) >= best.custo(),
            decreases num_vertices - k,
        {
            k += 1;
            let nova = two_opt_swap(solucao.caminho().clone(), i, k);
            let nova = Solucao::new(grafo, nova);
            if nova.fo() < best.fo() {
                best = nova;
            }
        }
        i += 1;
    }
    if best.fo() < solucao.fo() {
        Some(best)
    } else {
        None
    }
}

/// Runs best-improvement 2-opt from `solucao` until no reversal improves it.
pub fn busca_local_vizinho(grafo: &Grafo, solucao: &Solucao) -> (r: Solucao)
    requires
        coerente(grafo@, *solucao),
        solucao.rota().len() <= usize::MAX,
    ensures
        coerente(grafo@, r),
        r.custo() <= solucao.custo(),
        otimo_local_2opt(grafo@, r.rota()),
        factivel(solucao.rota(), grafo@.len()) ==> factivel(r.rota(), grafo@.len()),
        r.rota().len() == solucao.rota().len(),
        otimo_local_2opt(grafo@, solucao.rota()) ==> r.rota() == solucao.rota() && r.custo()
            == solucao.custo(),
        r.rota().to_multiset() == solucao.rota().to_multiset(),
{
    let mut atual = solucao.duplica();
    loop
        invariant
            otimo_local_2opt(grafo@, solucao.rota()) ==> atual.rota() == solucao.rota()
                && atual.custo() == solucao.custo(),
            atual.rota().to_multiset() == solucao.rota().to_multiset(),
            coerente(grafo@, atual),
            atual.custo() <= solucao.custo(),
            atual.rota().len() == solucao.rota().len(),
            solucao.rota().len() <= usize::MAX,
            factivel(solucao.rota(), grafo@.len()) ==> factivel(atual.rota(), grafo@.len()),
        ensures
            otimo_local_2opt(grafo@, solucao.rota()) ==> atual.rota() == solucao.rota()
                && atual.custo() == solucao.custo(),
            atual.rota().to_multiset() == solucao.rota().to_multiset(),
            coerente(grafo@, atual),
            atual.custo() <= solucao.custo(),
            atual.rota().len() == solucao.rota().len(),
            otimo_local_2opt(grafo@, atual.rota()),
            factivel(solucao.rota(), grafo@.len()) ==> factivel(atual.rota(), grafo@.len()),
        decreases atual.custo(),
    {
        match two_opt_loop(grafo, &atual) {
            Some(nova) => {
                proof {
                    let (i, k) = choose|i: int, k: int|
                        0 <= i < k <= atual.rota().len() && nova.rota() == inverte_trecho(
                            atual.rota(),
                            i,
                            k,
                        );
                    if factivel(solucao.rota(), grafo@.len()) {
                        lemma_inverte_preserva_factivel(atual.rota(), grafo@.len(), i, k);
                    }
                    lemma_inverte_preserva_vertices(atual.rota(), i, k);
                }
                atual = nova;
            },
            None => {
                break ;
            },
        }
    }
    atual
}

/// Runs `num_vizinhos` descents from `s` and keeps the first best result;
/// with no descent, `s` itself.
pub fn busca_local(grafo: &Grafo, s: Solucao, num_vizinhos: u32) -> (r: Solucao)
    requires
        coerente(grafo@, s),
        s.rota().len() <= usize::MAX,
    ensures
        coerente(grafo@, r),
        r.custo() <= s.custo(),
        num_vizinhos > 0 ==> otimo_local_2opt(grafo@, r.rota()),
        num_vizinhos == 0 ==> r == s,
        factivel(s.rota(), grafo@.len()) ==> factivel(r.rota(), grafo@.len()),
        r.rota().to_multiset() == s.rota().to_multiset(),
        otimo_local_2opt(grafo@, s.rota()) ==> r.rota() == s.rota() && r.custo() == s.custo(),
{
    let mut melhor: Option<Solucao> = None;
    let mut j: u32 = 0;
    while j < num_vizinhos
        invariant
            coerente(grafo@, s),
            s.rota().len() <= usize::MAX,
            j <= num_vizinhos,
            j == 0 <==> melhor is None,
            melhor matches Some(m) ==> {
                &&& coerente(grafo@, m)
                &&& m.custo() <= s.custo()
                &&& otimo_local_2opt(grafo@, m.rota())
                &&& factivel(s.rota(), grafo@.len()) ==> factivel(m.rota(), grafo@.len())
                &&& m.rota().to_multiset() == s.rota().to_multiset()
                &&& otimo_local_2opt(grafo@, s.rota()) ==> m.rota() == s.rota() && m.custo()
                    == s.custo()
            },
        decreases num_vizinhos - j,
    {
        let v = busca_local_vizinho(grafo, &s);
        melhor = match melhor {
            None => Some(v),
            Some(m) => if v.fo() < m.fo() {
                Some(v)
            } else {
                Some(m)
            },
        };
        j += 1;
    }
    match melhor {
        Some(m) => m,
        None => s,
    }
}

/// The vertices of `0..n` not in `visitados`.
pub open spec fn nao_visitados(n: nat, visitados: Seq<Vertice>) -> Set<Vertice> {
    Set::new(|u: Vertice| u < n && !visitados.contains(u))
}

/// The unvisited vertices strictly closer to `atual` than `escolhido` is.
pub open spec fn mais_proximos(
    g: Seq<Seq<Peso>>,
    visitados: Seq<Vertice>,
    atual: Vertice,
    escolhido: Vertice,
) -> Set<Vertice> {
    Set::new(
        |u: Vertice|
            u < g.len() && !visitados.contains(u) && g[atual as int][u as int] < g[atual as int][escolhido as int],
    )
}

/// Every step of `c` goes to a vertex among the `ceil(num/den * k)` unvisited
/// vertices nearest to the current one, `k` being how many are unvisited:
/// fewer than that many unvisited vertices are strictly closer.
pub open spec fn respeita_lista_restrita(g: Seq<Seq<Peso>>, c: Seq<Vertice>, num: nat, den: nat) -> bool {
    forall|j: int|
        1 <= j < c.len() ==> (#[trigger] mais_proximos(g, c.take(j), c[j - 1], c[j])).len()
            < crate::taxa::teto_fracao(nao_visitados(g.len(), c.take(j)).len() as int, num as int, den as int)
}

/// Relies on `slice::sort_by_key`, a stable sort, here by the weight of each pair:
/// the same pairs come out, in non-decreasing weight.
#[verifier::external_body]
fn ordena_por_peso(v: &mut Vec<(Vertice, Peso)>)
    ensures
        final(v)@.to_multiset() == old(v)@.to_multiset(),
        forall|i: int, j: int| 0 <= i <= j < final(v)@.len() ==> final(v)@[i].1 <= final(v)@[j].1,
{
    v.sort_by_key(|p| p.1);
}

/// A candidate taken at position `e < k` of the unvisited vertices sorted by
/// distance has fewer than `k` unvisited vertices strictly closer, and the
/// sorted list holds every unvisited vertex once.
proof fn lemma_escolha_na_lista(
    g: Seq<Seq<Peso>>,
    visitados: Seq<Vertice>,
    atual: Vertice,
    antes: Seq<(Vertice, Peso)>,
    ordenados: Seq<(Vertice, Peso)>,
    e: int,
    num: nat,
    den: nat,
    k: int,
)
    requires
        forall|p: int|
            0 <= p < antes.len() ==> #[trigger] antes[p].1 == g[atual as int][antes[p].0 as int],
        forall|p: int, q: int| 0 <= p < q < antes.len() ==> #[trigger] antes[p].0 < #[trigger] antes[q].0,
        forall|u: Vertice| #[trigger] nao_visitados(g.len(), visitados).contains(u) <==> exists|p: int|
            0 <= p < antes.len() && antes[p].0 == u,
        ordenados.to_multiset() == antes.to_multiset(),
        forall|i: int, j: int| 0 <= i <= j < ordenados.len() ==> ordenados[i].1 <= ordenados[j].1,
        ordenados.len() == antes.len(),
        0 <= e < k,
        k == crate::taxa::teto_fracao(antes.len() as int, num as int, den as int),
        e < ordenados.len(),
    ensures
        mais_proximos(g, visitados, atual, ordenados[e].0).len() < crate::taxa::teto_fracao(
            nao_visitados(g.len(), visitados).len() as int,
            num as int,
            den as int,
        ),
{
    let vs = antes.map_values(|p: (Vertice, Peso)| p.0);
    assert(vs.no_duplicates()) by {
        assert forall|a: int, b: int| 0 <= a < vs.len() && 0 <= b < vs.len() && a != b implies vs[a]
            != vs[b] by {
            if a < b {
                assert(antes[a].0 < antes[b].0);
            } else {
                assert(antes[b].0 < antes[a].0);
            }
        }
    }
    vs.unique_seq_to_set();
    assert(vs.to_set() =~= nao_visitados(g.len(), visitados)) by {
        assert forall|u: Vertice| vs.to_set().contains(u) <==> nao_visitados(g.len(), visitados).contains(u) by {
            if vs.contains(u) {
                let p = choose|p: int| 0 <= p < vs.len() && vs[p] == u;
                assert(antes[p].0 == u);
            }
            if nao_visitados(g.len(), visitados).contains(u) {
                let p = choose|p: int| 0 <= p < antes.len() && antes[p].0 == u;
                assert(vs[p] == u);
            }
        }
    }
    let x = ordenados[e];
    assert(ordenados.contains(x));
    assert(antes.to_multiset().count(x) > 0);
    assert(antes.contains(x));
    let px = choose|p: int| 0 <= p < antes.len() && antes[p] == x;
    assert(x.1 == g[atual as int][x.0 as int]);
    let ts = ordenados.take(e).map_values(|p: (Vertice, Peso)| p.0);
    ts.lemma_cardinality_of_set();
    let perto = mais_proximos(g, visitados, atual, x.0);
    assert(perto.subset_of(ts.to_set())) by {
        assert forall|u: Vertice| perto.contains(u) implies ts.to_set().contains(u) by {
            assert(nao_visitados(g.len(), visitados).contains(u));
            let p = choose|p: int| 0 <= p < antes.len() && antes[p].0 == u;
            let y = antes[p];
            assert(antes.contains(y));
            assert(ordenados.to_multiset().count(y) > 0);
            assert(ordenados.contains(y));
            let q = choose|q: int| 0 <= q < ordenados.len() && ordenados[q] == y;
            if q >= e {
                assert(ordenados[e].1 <= ordenados[q].1);
            }
            assert(ts[q] == u);
            assert(ts.contains(u));
        }
    }
    vstd::set_lib::lemma_len_subset(perto, ts.to_set());
}

/// Greedy randomized nearest-neighbour construction: from a random start, each
/// step sorts the unvisited vertices by distance from the current one and picks
/// at random among the first `ceil(alfa * unvisited)`.
pub fn vizinho_mais_proximo(rng: &mut XorShiftRng, grafo: &Grafo, alfa: Taxa) -> (r: Caminho)
    requires
        grafo@.len() > 0,
        alfa.numerador() > 0,
    ensures
        permutacao(r@, grafo@.len()),
        factivel(r@, grafo@.len()),
        r@.len() <= usize::MAX,
        respeita_lista_restrita(grafo@, r@, alfa.numerador(), alfa.denominador()),
{
    let num_vertices = grafo.num_vertices();
    let mut caminho: Vec<Vertice> = Vec::with_capacity(num_vertices);
    let mut marcados: Vec<bool> = Vec::new();
    let mut k: usize = 0;
    while k < num_vertices
        invariant
            k <= num_vertices,
            marcados@.len() == k,
            forall|v: int| 0 <= v < k ==> !marcados@[v],
        decreases num_vertices - k,
    {
        marcados.push(false);
        k += 1;
    }
    let inicial = sorteia_usize(rng) % num_vertices;
    caminho.push(inicial);
    marcados.set(inicial, true);
    let mut num_marcados: usize = 1;
    proof {
        assert forall|v: int| 0 <= v < num_vertices implies (#[trigger] marcados@[v]
            <==> caminho@.contains(v as Vertice)) by {
            if v == inicial {
                assert(caminho@[0] == inicial);
            }
        }
    }
    while num_marcados < num_vertices
        invariant
            num_vertices == grafo@.len(),
            quadrada(grafo@),
            alfa.numerador() > 0,
            caminho@.len() == num_marcados,
            1 <= num_marcados <= num_vertices,
            marcados@.len() == num_vertices,
            forall|j: int| 0 <= j < caminho@.len() ==> #[trigger] caminho@[j] < num_vertices,
            caminho@.no_duplicates(),
            forall|v: int|
                0 <= v < num_vertices ==> (#[trigger] marcados@[v] <==> caminho@.contains(
                    v as Vertice,
                )),
            respeita_lista_restrita(grafo@, caminho@, alfa.numerador(), alfa.denominador()),
        decreases num_vertices - num_marcados,
    {
        let atual = caminho[caminho.len() - 1];
        let mut abertos: Vec<(Vertice, Peso)> = Vec::new();
        let mut v: usize = 0;
        while v < num_vertices
            invariant
                num_vertices == grafo@.len(),
                quadrada(grafo@),
                atual < num_vertices,
                v <= num_vertices,
                marcados@.len() == num_vertices,
                forall|p: int|
                    0 <= p < abertos@.len() ==> #[trigger] abertos@[p].0 < num_vertices
                        && !marcados@[abertos@[p].0 as int],
                abertos@.len() == 0 ==> forall|u: int| 0 <= u < v ==> #[trigger] marcados@[u],
                forall|p: int|
                    #![trigger abertos@[p]]
                    0 <= p < abertos@.len() ==> abertos@[p].1 == grafo@[atual as int][abertos@[p].0 as int]
                        && abertos@[p].0 < v,
                forall|p: int, q: int| 0 <= p < q < abertos@.len() ==> #[trigger] abertos@[p].0 < #[trigger] abertos@[q].0,
                forall|u: int|
                    0 <= u < v && !#[trigger] marcados@[u] ==> exists|p: int|
                        0 <= p < abertos@.len() && abertos@[p].0 == u,
            decreases num_vertices - v,
        {
            if !marcados[v] {
                let w = grafo.distancia(atual, v);
                let ghost velhos = abertos@;
                abertos.push((v, w));
                proof {
                    assert forall|p: int| 0 <= p < velhos.len() implies abertos@[p] == velhos[p] by {}
                    assert(abertos@[velhos.len() as int] == (v, w));
                    assert forall|p: int, q: int|
                        0 <= p < q < abertos@.len() implies #[trigger] abertos@[p].0
                        < #[trigger] abertos@[q].0 by {
                        if q == velhos.len() {
                            assert(velhos[p].1 == grafo@[atual as int][velhos[p].0 as int]);
                            assert(velhos[p].0 < v);
                        } else {
                            assert(velhos[p].0 < velhos[q].0);
                        }
                    }
                    assert forall|u: int|
                        0 <= u < v + 1 && !#[trigger] marcados@[u] implies exists|p: int|
                        0 <= p < abertos@.len() && abertos@[p].0 == u by {
                        if u < v {
                            let p = choose|p: int| 0 <= p < velhos.len() && velhos[p].0 == u;
                            assert(abertos@[p] == velhos[p]);
                        } else {
                            assert(abertos@[velhos.len() as int].0 == u);
                        }
                    }
                }
            }
            v += 1;
        }
        if abertos.len() == 0 {
            proof {
                assert forall|u: Vertice| u < num_vertices implies #[trigger] caminho@.contains(u) by {
                    assert(marcados@[u as int]);
                }
                lemma_cobre_tudo(caminho@, num_vertices as nat);
            }
        }
        let ghost antes = abertos@;
        ordena_por_peso(&mut abertos);
        assert(abertos@.len() == antes.len()) by {
            assert(abertos@.to_multiset().len() == antes.to_multiset().len());
        }
        let num_candidatos = alfa.teto(abertos.len());
        let escolha = sorteia_usize(rng) % num_candidatos;
        let proximo = abertos[escolha].0;
        proof {
            let x = abertos@[escolha as int];
            assert(abertos@.contains(x));
            assert(antes.to_multiset().count(x) > 0);
            assert(antes.contains(x));
            let p = choose|p: int| 0 <= p < antes.len() && antes[p] == x;
            assert(antes[p].0 < num_vertices && !marcados@[antes[p].0 as int]);
            assert forall|u: Vertice| #[trigger] nao_visitados(grafo@.len(), caminho@).contains(u)
                <==> exists|p: int| 0 <= p < antes.len() && antes[p].0 == u by {
                if nao_visitados(grafo@.len(), caminho@).contains(u) {
                    assert(!marcados@[u as int]);
                }
                if exists|p: int| 0 <= p < antes.len() && antes[p].0 == u {
                    let p = choose|p: int| 0 <= p < antes.len() && antes[p].0 == u;
                    assert(antes[p].0 < num_vertices && !marcados@[antes[p].0 as int]);
                }
            }
            lemma_escolha_na_lista(
                grafo@,
                caminho@,
                atual,
                antes,
                abertos@,
                escolha as int,
                alfa.numerador(),
                alfa.denominador(),
                num_candidatos as int,
            );
        }
        let ghost velho = caminho@;
        caminho.push(proximo);
        marcados.set(proximo, true);
        num_marcados += 1;
        proof {
            assert(!velho.contains(proximo));
            assert forall|a: int, b: int|
                0 <= a < caminho@.len() && 0 <= b < caminho@.len() && a != b implies caminho@[a]
                != caminho@[b] by {
                if a < velho.len() && b < velho.len() {
                    assert(velho[a] != velho[b]);
                } else if a < velho.len() {
                    assert(velho.contains(velho[a]));
                } else if b < velho.len() {
                    assert(velho.contains(velho[b]));
                }
            }
            assert forall|u: int| 0 <= u < num_vertices implies (#[trigger] marcados@[u]
                <==> caminho@.contains(u as Vertice)) by {
                if caminho@.contains(u as Vertice) && u != proximo {
                    let j = choose|j: int| 0 <= j < caminho@.len() && caminho@[j] == u as Vertice;
                    assert(velho[j] == u);
                }
                if velho.contains(u as Vertice) {
                    let j = choose|j: int| 0 <= j < velho.len() && velho[j] == u as Vertice;
                    assert(caminho@[j] == u);
                }
                if u == proximo {
                    assert(caminho@[velho.len() as int] == proximo);
                }
            }
            assert(caminho@.take(velho.len() as int) =~= velho);
            assert forall|j: int| 1 <= j < caminho@.len() implies (#[trigger] mais_proximos(
                grafo@,
                caminho@.take(j),
                caminho@[j - 1],
                caminho@[j],
            )).len() < crate::taxa::teto_fracao(
                nao_visitados(grafo@.len(), caminho@.take(j)).len() as int,
                alfa.numerador() as int,
                alfa.denominador() as int,
            ) by {
                if j < velho.len() {
                    assert(caminho@.take(j) =~= velho.take(j));
                    assert(mais_proximos(grafo@, velho.take(j), velho[j - 1], velho[j]).len()
                        < crate::taxa::teto_fracao(
                        nao_visitados(grafo@.len(), velho.take(j)).len() as int,
                        alfa.numerador() as int,
                        alfa.denominador() as int,
                    ));
                } else {
                    assert(caminho@[j - 1] == atual);
                    assert(caminho@[j] == proximo);
                }
            }
        }
    }
    proof {
        lemma_factivel_sse_permutacao(caminho@, num_vertices as nat);
    }
    caminho
}

/// Builds a tour by the randomized nearest-neighbour construction.
pub fn construcao(rng: &mut XorShiftRng, grafo: &Grafo, alfa: Taxa) -> (r: Solucao)
    requires
        grafo@.len() > 0,
        alfa.numerador() > 0,
    ensures
        coerente(grafo@, r),
        factivel(r.rota(), grafo@.len()),
        r.rota().len() <= usize::MAX,
        respeita_lista_restrita(grafo@, r.rota(), alfa.numerador(), alfa.denominador()),
{
    let caminho = vizinho_mais_proximo(rng, grafo, alfa);
    Solucao::new(grafo, caminho)
}

/// The best objective tracked by a run that starts from `inicial` and meets
/// the candidate objectives `fos` in order: a candidate replaces the best only
/// when it is strictly lower.
pub open spec fn melhor_apos(inicial: Peso, fos: Seq<Peso>) -> Peso
    decreases fos.len(),
{
    if fos.len() == 0 {
        inicial
    } else {
        let m = melhor_apos(inicial, fos.drop_last());
        if fos.last() < m {
            fos.last()
        } else {
            m
        }
    }
}

/// Over a run, the tracked best objective never rises: after `j` candidates it
/// is at most what it was after `i <= j` of them.
pub proof fn lemma_melhor_nao_cresce(inicial: Peso, fos: Seq<Peso>, i: int, j: int)
    requires
        0 <= i <= j <= fos.len(),
    ensures
        melhor_apos(inicial, fos.take(j)) <= melhor_apos(inicial, fos.take(i)),
    decreases j - i,
{
    if i < j {
        lemma_melhor_nao_cresce(inicial, fos, i, j - 1);
        assert(fos.take(j).drop_last() == fos.take(j - 1));
    }
}

/// Acceptance of an iteration's result: `candidato`, found at iteration `it`,
/// replaces the best so far only when its objective is strictly lower.
pub fn aceita(melhor: Solucao, it_alvo: u64, candidato: Solucao, it: u64) -> (r: (Solucao, u64))
    ensures
        candidato.custo() < melhor.custo() ==> r.0 == candidato && r.1 == it,
        candidato.custo() >= melhor.custo() ==> r.0 == melhor && r.1 == it_alvo,
        r.0.custo() == melhor_apos(melhor.custo(), seq![candidato.custo()]),
{
    proof {
        assert(seq![candidato.custo()].drop_last() =~= Seq::<Peso>::empty());
        assert(melhor_apos(melhor.custo(), Seq::<Peso>::empty()) == melhor.custo());
        assert(seq![candidato.custo()].last() == candidato.custo());
    }
    if candidato.fo() < melhor.fo() {
        (candidato, it)
    } else {
        (melhor, it_alvo)
    }
}

/// Whether GRASP runs another iteration after `it` iterations, the best found
/// at iteration `it_alvo`: fewer than `max_iter` iterations without
/// improvement, room left in the counter, and fewer than `timeout` seconds
/// elapsed.
pub open spec fn continua_spec(it: u64, it_alvo: u64, max_iter: u64, segundos: u64, timeout: u64) -> bool {
    it - it_alvo < max_iter && it < u64::MAX && segundos < timeout
}

/// The stopping rule of a GRASP run, given the elapsed seconds.
pub fn continua(it: u64, it_alvo: u64, max_iter: u64, segundos: u64, timeout: u64) -> (r: bool)
    requires
        it_alvo <= it,
    ensures
        r == continua_spec(it, it_alvo, max_iter, segundos, timeout),
{
    it - it_alvo < max_iter && it < u64::MAX && segundos < timeout
}

/// What a GRASP run that met the candidate objectives `fos`, one per
/// iteration, returns: the first strictly lowest of them (or the empty tour
/// when none is below `INF`), with the iteration that found it, and the
/// stopping rule said stop after the last iteration.
pub open spec fn registro_da_execucao(
    fos: Seq<Peso>,
    max_iter: u64,
    timeout: u64,
    melhor: Solucao,
    it_alvo: u64,
) -> bool {
    &&& fos.len() <= u64::MAX
    &&& melhor.custo() == melhor_apos(INF, fos)
    &&& forall|j: int| 0 <= j < fos.len() ==> melhor.custo() <= #[trigger] fos[j]
    &&& melhor.custo() == INF ==> melhor.rota().len() == 0 && it_alvo == 0
    &&& melhor.custo() < INF ==> {
        &&& it_alvo < fos.len()
        &&& fos[it_alvo as int] == melhor.custo()
        &&& forall|j: int| 0 <= j < it_alvo ==> melhor.custo() < #[trigger] fos[j]
    }
    &&& exists|s: u64| !#[trigger] continua_spec(fos.len() as u64, it_alvo, max_iter, s, timeout)
}

/// GRASP: repeats construction and local search, keeping the best tour, until
/// `max_iter` iterations pass without improvement or `timeout` seconds elapse.
/// Returns the best tour and the iteration at which it was found.
pub fn solve(
    rng: &mut XorShiftRng,
    grafo: &Grafo,
    alfa: Taxa,
    timeout: u64,
    num_vizinhos: u32,
    max_iter: u64,
) -> (r: (Solucao, u64))
    requires
        grafo@.len() > 0,
        alfa.numerador() > 0,
    ensures
        coerente(grafo@, r.0),
        r.0.custo() <= INF,
        r.0.custo() < INF ==> factivel(r.0.rota(), grafo@.len()),
        r.0.custo() < INF && num_vizinhos > 0 ==> otimo_local_2opt(grafo@, r.0.rota()),
        exists|fos: Seq<Peso>| #[trigger] registro_da_execucao(fos, max_iter, timeout, r.0, r.1),
{
    let t = agora();
    let mut it: u64 = 0;
    let mut it_alvo: u64 = 0;
    let mut best = Solucao::vazia();
    let ghost mut fos: Seq<Peso> = Seq::empty();
    assert(coerente(grafo@, best));
    loop
        invariant
            grafo@.len() > 0,
            alfa.numerador() > 0,
            it_alvo <= it,
            fos.len() == it,
            it_alvo == 0 || it_alvo < it,
            coerente(grafo@, best),
            best.custo() == melhor_apos(INF, fos),
            best.custo() <= INF,
            best.custo() < INF ==> factivel(best.rota(), grafo@.len()),
            best.custo() < INF && num_vizinhos > 0 ==> otimo_local_2opt(grafo@, best.rota()),
            forall|j: int| 0 <= j < fos.len() ==> best.custo() <= #[trigger] fos[j],
            best.custo() == INF ==> best.rota().len() == 0 && it_alvo == 0,
            best.custo() < INF ==> {
                &&& it_alvo < fos.len()
                &&& fos[it_alvo as int] == best.custo()
                &&& forall|j: int| 0 <= j < it_alvo ==> best.custo() < #[trigger] fos[j]
            },
        ensures
            coerente(grafo@, best),
            best.custo() <= INF,
            best.custo() < INF ==> factivel(best.rota(), grafo@.len()),
            best.custo() < INF && num_vizinhos > 0 ==> otimo_local_2opt(grafo@, best.rota()),
            registro_da_execucao(fos, max_iter, timeout, best, it_alvo),
        decreases u64::MAX - it,
    {
        let segundos = segundos_desde(&t);
        if !continua(it, it_alvo, max_iter, segundos, timeout) {
            assert(!continua_spec(fos.len() as u64, it_alvo, max_iter, segundos, timeout));
            break ;
        }
        let atual = construcao(rng, grafo, alfa);
        let vizinho = busca_local(grafo, atual, num_vizinhos);
        proof {
            let antes = fos;
            fos = fos.push(vizinho.custo());
            assert(fos.drop_last() == antes);
        }
        let (novo, alvo) = aceita(best, it_alvo, vizinho, it);
        best = novo;
        it_alvo = alvo;
        it += 1;
        proof {
            assert(fos[it - 1] == vizinho.custo());
        }
    }
    let r = (best, it_alvo);
    assert(registro_da_execucao(fos, max_iter, timeout, r.0, r.1));
    r
}

/// GRASP configuration over a graph.
pub struct Grasp<'a> {
    grafo: &'a Grafo,
    alfa: Taxa,
    timeout: u64,
    num_vizinhos: u32,
    max_iter: u64,
}

impl<'a> Grasp<'a> {
    pub closed spec fn grafo_spec(&self) -> Seq<Seq<Peso>> {
        self.grafo@
    }

    pub closed spec fn alfa_spec(&self) -> Taxa {
        self.alfa
    }

    pub closed spec fn timeout_spec(&self) -> u64 {
        self.timeout
    }

    pub closed spec fn num_vizinhos_spec(&self) -> u32 {
        self.num_vizinhos
    }

    pub closed spec fn max_iter_spec(&self) -> u64 {
        self.max_iter
    }

    /// Defaults: `alfa = 35/100`, no time limit, ten descents per iteration,
    /// forty iterations without improvement.
    pub fn new(grafo: &'a Grafo) -> (r: Grasp<'a>)
        ensures
            r.grafo_spec() == grafo@,
            r.alfa_spec().numerador() == 35,
            r.alfa_spec().denominador() == 100,
            r.timeout_spec() == u64::MAX,
            r.num_vizinhos_spec() == 10,
            r.max_iter_spec() == 40,
    {
        let alfa = Taxa::new(35, 100).unwrap();
        Grasp { grafo, alfa, timeout: u64::MAX, num_vizinhos: 10, max_iter: 40 }
    }

    pub fn alfa(self, alfa: Taxa) -> (r: Grasp<'a>)
        ensures
            r.grafo_spec() == self.grafo_spec(),
            r.alfa_spec() == alfa,
            r.timeout_spec() == self.timeout_spec(),
            r.num_vizinhos_spec() == self.num_vizinhos_spec(),
            r.max_iter_spec() == self.max_iter_spec(),
    {
        Grasp { alfa, ..self }
    }

    /// Time limit in whole seconds.
    pub fn timeout(self, timeout: u64) -> (r: Grasp<'a>)
        ensures
            r.grafo_spec() == self.grafo_spec(),
            r.alfa_spec() == self.alfa_spec(),
            r.timeout_spec() == timeout,
            r.num_vizinhos_spec() == self.num_vizinhos_spec(),
            r.max_iter_spec() == self.max_iter_spec(),
    {
        Grasp { timeout, ..self }
    }

    pub fn num_vizinhos(self, num_vizinhos: u32) -> (r: Grasp<'a>)
        ensures
            r.grafo_spec() == self.grafo_spec(),
            r.alfa_spec() == self.alfa_spec(),
            r.timeout_spec() == self.timeout_spec(),
            r.num_vizinhos_spec() == num_vizinhos,
            r.max_iter_spec() == self.max_iter_spec(),
    {
        Grasp { num_vizinhos, ..self }
    }

    pub fn max_iter(self, max_iter: u64) -> (r: Grasp<'a>)
        ensures
            r.grafo_spec() == self.grafo_spec(),
            r.alfa_spec() == self.alfa_spec(),
            r.timeout_spec() == self.timeout_spec(),
            r.num_vizinhos_spec() == self.num_vizinhos_spec(),
            r.max_iter_spec() == max_iter,
    {
        Grasp { max_iter, ..self }
    }

    /// Runs GRASP with this configuration.
    pub fn solve(&self, rng: &mut XorShiftRng) -> (r: (Solucao, u64))
        requires
            self.grafo_spec().len() > 0,
            self.alfa_spec().numerador() > 0,
        ensures
            coerente(self.grafo_spec(), r.0),
            r.0.custo() <= INF,
            r.0.custo() < INF ==> factivel(r.0.rota(), self.grafo_spec().len()),
            r.0.custo() < INF && self.num_vizinhos_spec() > 0 ==> otimo_local_2opt(
                self.grafo_spec(),
                r.0.rota(),
            ),
            exists|fos: Seq<Peso>| #[trigger] registro_da_execucao(
                fos,
                self.max_iter_spec(),
                self.timeout_spec(),
                r.0,
                r.1,
            ),
    {
        let r = solve(rng, self.grafo, self.alfa, self.timeout, self.num_vizinhos, self.max_iter);
        proof {
            let fos = choose|fos: Seq<Peso>|
                registro_da_execucao(fos, self.max_iter, self.timeout, r.0, r.1);
            assert(registro_da_execucao(fos, self.max_iter_spec(), self.timeout_spec(), r.0, r.1));
        }
        r
    }
}

} // verus!
