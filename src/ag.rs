//! Genetic algorithm: random-walk initialization, roulette selection, PMX and
//! OX crossover, mutation and elitist replacement.

use crate::aleatorio::{agora, segundos_desde, sorteia_u64, sorteia_usize};
use crate::grafo::{
    factivel, fo_de, lemma_cobre_tudo, lemma_factivel_sse_permutacao, permutacao, quadrada,
    Caminho, Grafo, Peso, Solucao, Vertice, INF,
};
use crate::grasp::{coerente, inverte_trecho, lemma_inverte_preserva_factivel, two_opt_swap};
use crate::taxa::Taxa;
use rand::XorShiftRng;
use vstd::prelude::*;

verus! {

broadcast use vstd::seq_lib::group_to_multiset_ensures, vstd::multiset::group_multiset_axioms;

/// `c` with the entries at positions `i` and `j` exchanged.
pub open spec fn troca_spec(c: Seq<Vertice>, i: int, j: int) -> Seq<Vertice> {
    c.update(i, c[j]).update(j, c[i])
}

/// Exchanges the entries at positions `i` and `j`.
fn troca(v: &mut Vec<usize>, i: usize, j: usize)
    requires
        i < old(v)@.len(),
        j < old(v)@.len(),
    ensures
        final(v)@ == troca_spec(old(v)@, i as int, j as int),
{
    let a = v[i];
    let b = v[j];
    v.set(i, b);
    v.set(j, a);
}

/// Exchanging two entries keeps a listing of `0..n` a listing of `0..n`.
proof fn lemma_troca_preserva_permutacao(c: Seq<Vertice>, n: nat, i: int, j: int)
    requires
        permutacao(c, n),
        0 <= i < c.len(),
        0 <= j < c.len(),
    ensures
        permutacao(troca_spec(c, i, j), n),
{
    let r = troca_spec(c, i, j);
    let perm = |a: int|
        if a == j {
            i
        } else if a == i {
            j
        } else {
            a
        };
    assert forall|a: int| 0 <= a < r.len() implies r[a] == c[perm(a)] by {}
    assert forall|a: int, b: int| 0 <= a < r.len() && 0 <= b < r.len() && a != b implies r[a]
        != r[b] by {
        assert(r[a] == c[perm(a)]);
        assert(r[b] == c[perm(b)]);
    }
    assert forall|a: int| 0 <= a < r.len() implies #[trigger] r[a] < n by {
        assert(r[a] == c[perm(a)]);
    }
}

/// The segment bounds two draws give: both reduced modulo `n`, the smaller first.
pub open spec fn pontos_spec(n: int, d1: int, d2: int) -> (int, int) {
    let i = d1 % n;
    let j = d2 % n;
    if i <= j {
        (i, j)
    } else {
        (j, i)
    }
}

/// The two positions of `0..num_vertices` that the draws `d1` and `d2` give.
pub fn pontos(num_vertices: usize, d1: usize, d2: usize) -> (r: (usize, usize))
    requires
        num_vertices > 0,
    ensures
        (r.0 as int, r.1 as int) == pontos_spec(num_vertices as int, d1 as int, d2 as int),
        r.0 <= r.1 < num_vertices,
{
    let i = d1 % num_vertices;
    let j = d2 % num_vertices;
    if i <= j {
        (i, j)
    } else {
        (j, i)
    }
}

/// Two random positions of `0..num_vertices`, the smaller first.
fn gen_points(rng: &mut XorShiftRng, num_vertices: usize) -> (r: (usize, usize))
    requires
        num_vertices > 0,
    ensures
        r.0 <= r.1 < num_vertices,
        exists|d1: usize, d2: usize|
            (r.0 as int, r.1 as int) == pontos_spec(num_vertices as int, d1 as int, d2 as int),
{
    let d1 = sorteia_usize(rng);
    let d2 = sorteia_usize(rng);
    pontos(num_vertices, d1, d2)
}

/// The partially mapped crossover relation on `[b, e)`: the child holds
/// `p1`'s segment in place, and outside the segment keeps `p2`'s vertex
/// wherever that vertex is not in `p1`'s segment.
pub open spec fn relacao_pmx(p1: Seq<Vertice>, p2: Seq<Vertice>, b: int, e: int, r: Seq<Vertice>) -> bool {
    &&& permutacao(r, p1.len())
    &&& forall|i: int| b <= i < e ==> #[trigger] r[i] == p1[i]
    &&& forall|j: int|
        0 <= j < r.len() && !(b <= j < e) && !p1.subrange(b, e).contains(p2[j]) ==> #[trigger] r[j]
            == p2[j]
}

/// Partially mapped crossover on the segment `[xbegin, xend)`: starting from
/// `pai2`, each position of the segment receives `pai1`'s vertex there, by
/// exchanging it with the position that holds that vertex.
pub fn pmx_com_pontos(pai1: &Caminho, pai2: &Caminho, xbegin: usize, xend: usize) -> (r: Caminho)
    requires
        permutacao(pai1@, pai1@.len()),
        permutacao(pai2@, pai1@.len()),
        xbegin <= xend <= pai1@.len(),
    ensures
        relacao_pmx(pai1@, pai2@, xbegin as int, xend as int, r@),
{
    let num_vertices = pai2.len();
    let ghost n = num_vertices as nat;
    let ghost b = xbegin as int;
    let mut genes = pai2.clone();
    assert(genes@ == pai2@);
    let mut map: Vec<usize> = Vec::new();
    let mut k: usize = 0;
    while k < num_vertices
        invariant
            k <= num_vertices,
            map@.len() == k,
            forall|v: int| 0 <= v < k ==> map@[v] == 0,
        decreases num_vertices - k,
    {
        map.push(0);
        k += 1;
    }
    let mut p: usize = 0;
    while p < num_vertices
        invariant
            num_vertices == genes@.len(),
            genes@ == pai2@,
            permutacao(pai2@, n),
            p <= num_vertices,
            map@.len() == num_vertices,
            forall|q: int| 0 <= q < p ==> #[trigger] map@[genes@[q] as int] == q,
        decreases num_vertices - p,
    {
        let vert = genes[p];
        proof {
            assert forall|q: int| 0 <= q < p implies #[trigger] genes@[q] != vert by {
                assert(genes@[q] != genes@[p as int]);
            }
        }
        map.set(vert, p);
        p += 1;
    }
    proof {
        lemma_factivel_sse_permutacao(pai2@, n);
        assert forall|v: int| 0 <= v < num_vertices implies #[trigger] map@[v] < num_vertices
            && genes@[map@[v] as int] == v by {
            assert(crate::grafo::ocorrencias(pai2@, v as Vertice) == 1);
            assert(pai2@.contains(v as Vertice));
            let q = choose|q: int| 0 <= q < pai2@.len() && pai2@[q] == v as Vertice;
            assert(map@[genes@[q] as int] == q);
        }
    }
    let mut i: usize = xbegin;
    while i < xend
        invariant
            num_vertices == genes@.len(),
            map@.len() == num_vertices,
            permutacao(pai1@, n),
            n == num_vertices,
            b == xbegin,
            pai2@.len() == n,
            xbegin <= i <= xend <= num_vertices,
            forall|q: int| 0 <= q < num_vertices ==> #[trigger] genes@[q] < num_vertices,
            forall|q: int| 0 <= q < num_vertices ==> #[trigger] map@[genes@[q] as int] == q,
            forall|v: int|
                0 <= v < num_vertices ==> #[trigger] map@[v] < num_vertices && genes@[map@[v] as int]
                    == v,
            forall|q: int| xbegin <= q < i ==> #[trigger] genes@[q] == pai1@[q],
            forall|j: int|
                0 <= j < num_vertices && !(xbegin <= j < xend) && !pai1@.subrange(b, i as int).contains(
                    pai2@[j],
                ) ==> #[trigger] genes@[j] == pai2@[j],
        decreases xend - i,
    {
        let value = pai1[i];
        let m = map[value];
        let ghost velho = genes@;
        let ghost velho_map = map@;
        let old_i = genes[i];
        proof {
            assert forall|q: int| xbegin <= q < i implies #[trigger] genes@[q] != value by {
                assert(genes@[q] == pai1@[q]);
                assert(pai1@[q] != pai1@[i as int]);
            }
        }
        troca(&mut genes, i, m);
        let idx = map[value];
        let a = genes[idx];
        let bb = genes[i];
        troca(&mut map, a, bb);
        proof {
            assert(a == old_i);
            assert(bb == value);
            assert forall|q: int| 0 <= q < num_vertices implies #[trigger] map@[genes@[q] as int]
                == q by {
                if q != i && q != m {
                    assert(genes@[q] == velho[q]);
                    assert(velho_map[velho[q] as int] == q);
                    assert(velho[q] != value && velho[q] != old_i);
                }
            }
            assert forall|v: int| 0 <= v < num_vertices implies #[trigger] map@[v] < num_vertices
                && genes@[map@[v] as int] == v by {
                if v != value && v != old_i {
                    assert(map@[v] == velho_map[v]);
                    assert(velho[velho_map[v] as int] == v);
                }
            }
            let antes = pai1@.subrange(b, i as int);
            let depois = pai1@.subrange(b, i + 1);
            assert(depois == antes.push(value));
            assert forall|j: int|
                0 <= j < num_vertices && !(xbegin <= j < xend) && !depois.contains(pai2@[j])
                implies #[trigger] genes@[j] == pai2@[j] by {
                if antes.contains(pai2@[j]) {
                    let x = choose|x: int| 0 <= x < antes.len() && antes[x] == pai2@[j];
                    assert(depois[x] == pai2@[j]);
                }
                assert(depois[antes.len() as int] == value);
                assert(pai2@[j] != value);
                assert(velho[j] == pai2@[j]);
                assert(j != m);
            }
        }
        i += 1;
    }
    proof {
        assert forall|x: int, y: int|
            0 <= x < genes@.len() && 0 <= y < genes@.len() && x != y implies genes@[x]
            != genes@[y] by {
            assert(map@[genes@[x] as int] == x);
            assert(map@[genes@[y] as int] == y);
        }
    }
    genes
}

/// Partially mapped crossover on a random segment; both parents list `0..n`.
pub fn pmx_crossover(rng: &mut XorShiftRng, pai1: &Caminho, pai2: &Caminho) -> (r: Caminho)
    requires
        pai1@.len() > 0,
        permutacao(pai1@, pai1@.len()),
        permutacao(pai2@, pai1@.len()),
    ensures
        permutacao(r@, pai1@.len()),
        exists|b: int, e: int|
            0 <= b <= e < pai1@.len() && relacao_pmx(pai1@, pai2@, b, e, r@),
{
    let num_vertices = pai1.len();
    let (xbegin, xend) = gen_points(rng, num_vertices);
    pmx_com_pontos(pai1, pai2, xbegin, xend)
}

/// The vertices of `p2`, in its order, that do not occur in `seg`.
pub open spec fn restantes(seg: Seq<Vertice>, p2: Seq<Vertice>) -> Seq<Vertice>
    decreases p2.len(),
{
    if p2.len() == 0 {
        Seq::empty()
    } else {
        let r = restantes(seg, p2.drop_last());
        if seg.contains(p2.last()) {
            r
        } else {
            r.push(p2.last())
        }
    }
}

/// Rank of position `j` among the positions outside `[b, e)`.
pub open spec fn posicao_fora(j: int, b: int, e: int) -> int {
    if j < b {
        j
    } else {
        j - (e - b)
    }
}

/// The order crossover relation on `[b, e)`: the child holds `p1`'s segment in
/// place, and its other positions, in order, hold `p2`'s vertices that are not
/// in that segment, in `p2`'s order.
pub open spec fn relacao_ox(p1: Seq<Vertice>, p2: Seq<Vertice>, b: int, e: int, r: Seq<Vertice>) -> bool {
    &&& permutacao(r, p1.len())
    &&& forall|i: int| b <= i < e ==> #[trigger] r[i] == p1[i]
    &&& forall|j: int|
        0 <= j < r.len() && !(b <= j < e) ==> #[trigger] r[j] == restantes(p1.subrange(b, e), p2)[posicao_fora(
            j,
            b,
            e,
        )]
}

/// Order crossover on the segment `[xbegin, xend)`: the child keeps `pai1`'s
/// segment in place and fills the other positions, in order, with `pai2`'s
/// vertices that are not in that segment.
pub fn ox_com_pontos(pai1: &Caminho, pai2: &Caminho, xbegin: usize, xend: usize) -> (r: Caminho)
    requires
        permutacao(pai1@, pai1@.len()),
        permutacao(pai2@, pai1@.len()),
        xbegin <= xend <= pai1@.len(),
    ensures
        relacao_ox(pai1@, pai2@, xbegin as int, xend as int, r@),
{
    let num_vertices = pai1.len();
    let ghost n = num_vertices as nat;
    let ghost b = xbegin as int;
    let ghost e = xend as int;
    let ghost seg = pai1@.subrange(b, e);
    let mut marcados: Vec<bool> = Vec::new();
    let mut k: usize = 0;
    while k < num_vertices
        invariant
            k <= num_vertices,
            marcados@.len() == k,
            forall|v: int| 0 <= v < k ==> !marcados@[v],
        decreases num_vertices - k,
    {
        marcados.push(false);
        k += 1;
    }
    let mut i: usize = xbegin;
    while i < xend
        invariant
            num_vertices == pai1@.len(),
            permutacao(pai1@, n),
            n == num_vertices,
            b == xbegin,
            e == xend,
            xbegin <= i <= xend <= num_vertices,
            marcados@.len() == num_vertices,
            forall|v: int|
                0 <= v < num_vertices ==> (#[trigger] marcados@[v] <==> pai1@.subrange(
                    b,
                    i as int,
                ).contains(v as Vertice)),
        decreases xend - i,
    {
        let v = pai1[i];
        let ghost antes = pai1@.subrange(b, i as int);
        marcados.set(v, true);
        proof {
            assert(pai1@.subrange(b, i + 1) == antes.push(v));
            assert forall|u: int| 0 <= u < num_vertices implies (#[trigger] marcados@[u]
                <==> pai1@.subrange(b, i + 1).contains(u as Vertice)) by {
                let novo = antes.push(v);
                if u == v {
                    assert(novo[novo.len() - 1] == v);
                } else {
                    if novo.contains(u as Vertice) {
                        let x = choose|x: int| 0 <= x < novo.len() && novo[x] == u as Vertice;
                        assert(antes[x] == u);
                    }
                    if antes.contains(u as Vertice) {
                        let x = choose|x: int| 0 <= x < antes.len() && antes[x] == u as Vertice;
                        assert(novo[x] == u);
                    }
                }
            }
        }
        i += 1;
    }
    let mut q: Vec<Vertice> = Vec::new();
    let mut i: usize = 0;
    while i < num_vertices
        invariant
            num_vertices == pai1@.len(),
            permutacao(pai2@, n),
            n == num_vertices,
            b == xbegin,
            e == xend,
            xbegin <= xend <= num_vertices,
            i <= num_vertices,
            marcados@.len() == num_vertices,
            seg == pai1@.subrange(b, e),
            forall|v: int|
                0 <= v < num_vertices ==> (#[trigger] marcados@[v] <==> seg.contains(v as Vertice)),
            q@ == restantes(seg, pai2@.take(i as int)),
            q@.no_duplicates(),
            forall|a: int|
                0 <= a < q@.len() ==> exists|k: int| 0 <= k < i && #[trigger] q@[a] == pai2@[k],
            forall|a: int| 0 <= a < q@.len() ==> !seg.contains(#[trigger] q@[a]),
            forall|a: int| 0 <= a < q@.len() ==> #[trigger] q@[a] < num_vertices,
            forall|k: int|
                0 <= k < i && !seg.contains(#[trigger] pai2@[k]) ==> q@.contains(pai2@[k]),
        decreases num_vertices - i,
    {
        let v = pai2[i];
        proof {
            assert(pai2@.take(i + 1) == pai2@.take(i as int).push(v));
        }
        if !marcados[v] {
            let ghost velho = q@;
            proof {
                assert forall|a: int| 0 <= a < velho.len() implies #[trigger] velho[a] != v by {
                    let k = choose|k: int| 0 <= k < i && velho[a] == pai2@[k];
                    assert(pai2@[k] != pai2@[i as int]);
                }
            }
            q.push(v);
            proof {
                let t1 = pai2@.take(i + 1);
                assert(t1.drop_last() =~= pai2@.take(i as int));
                assert(!seg.contains(t1.last()));
                assert(q@ == restantes(seg, pai2@.take(i + 1)));
                assert(q@[velho.len() as int] == v);
                assert forall|a: int|
                    0 <= a < q@.len() implies exists|k: int| 0 <= k < i + 1 && #[trigger] q@[a]
                    == pai2@[k] by {
                    if a < velho.len() {
                        assert(q@[a] == velho[a]);
                    } else {
                        assert(q@[a] == pai2@[i as int]);
                    }
                }
                assert forall|k: int|
                    0 <= k < i + 1 && !seg.contains(#[trigger] pai2@[k]) implies q@.contains(
                    pai2@[k],
                ) by {
                    if k < i {
                        let a = choose|a: int| 0 <= a < velho.len() && velho[a] == pai2@[k];
                        assert(q@[a] == pai2@[k]);
                    } else {
                        assert(q@[velho.len() as int] == pai2@[k]);
                    }
                }
            }
        } else {
            proof {
                let t1 = pai2@.take(i + 1);
                assert(t1.drop_last() =~= pai2@.take(i as int));
                assert(seg.contains(t1.last()));
                assert(q@ == restantes(seg, pai2@.take(i + 1)));
                assert forall|a: int|
                    0 <= a < q@.len() implies exists|k: int| 0 <= k < i + 1 && #[trigger] q@[a]
                    == pai2@[k] by {
                    let k = choose|k: int| 0 <= k < i && q@[a] == pai2@[k];
                }
            }
        }
        i += 1;
    }
    proof {
        assert(pai2@.take(num_vertices as int) == pai2@);
        let todos = seg + q@;
        assert forall|x: int, y: int|
            0 <= x < todos.len() && 0 <= y < todos.len() && x != y implies todos[x]
            != todos[y] by {
            if x < seg.len() && y < seg.len() {
                assert(pai1@[b + x] != pai1@[b + y]);
            } else if x < seg.len() {
                assert(seg.contains(todos[x]));
                assert(todos[y] == q@[y - seg.len()]);
            } else if y < seg.len() {
                assert(seg.contains(todos[y]));
                assert(todos[x] == q@[x - seg.len()]);
            }
        }
        lemma_factivel_sse_permutacao(pai2@, n);
        assert forall|v: Vertice| v < n implies #[trigger] todos.contains(v) by {
            if seg.contains(v) {
                let x = choose|x: int| 0 <= x < seg.len() && seg[x] == v;
                assert(todos[x] == v);
            } else {
                assert(crate::grafo::ocorrencias(pai2@, v) == 1);
                assert(pai2@.contains(v));
                let k = choose|k: int| 0 <= k < pai2@.len() && pai2@[k] == v;
                assert(q@.contains(pai2@[k]));
                let a = choose|a: int| 0 <= a < q@.len() && q@[a] == v;
                assert(todos[seg.len() + a] == v);
            }
        }
        lemma_cobre_tudo(todos, n);
    }
    let mut filho: Vec<Vertice> = Vec::new();
    let mut t: usize = 0;
    let mut j: usize = 0;
    while j < num_vertices
        invariant
            num_vertices == pai1@.len(),
            permutacao(pai1@, n),
            n == num_vertices,
            b == xbegin,
            e == xend,
            xbegin <= xend <= num_vertices,
            seg == pai1@.subrange(b, e),
            q@ == restantes(seg, pai2@),
            q@.len() + (e - b) >= n,
            j <= num_vertices,
            filho@.len() == j,
            t == if j <= b {
                j as int
            } else if j <= e {
                b
            } else {
                j - (e - b)
            },
            forall|x: int| b <= x < j && x < e ==> #[trigger] filho@[x] == pai1@[x],
            forall|x: int|
                0 <= x < j && !(b <= x < e) ==> #[trigger] filho@[x] == q@[posicao_fora(x, b, e)],
        decreases num_vertices - j,
    {
        if xbegin <= j && j < xend {
            filho.push(pai1[j]);
        } else {
            filho.push(q[t]);
            t += 1;
        }
        j += 1;
    }
    proof {
        assert forall|x: int| 0 <= x < filho@.len() implies #[trigger] filho@[x] < n by {
            if !(b <= x < e) {
                assert(q@.contains(q@[posicao_fora(x, b, e)]));
            }
        }
        assert forall|x: int, y: int|
            0 <= x < filho@.len() && 0 <= y < filho@.len() && x != y implies filho@[x]
            != filho@[y] by {
            if b <= x < e && b <= y < e {
                assert(pai1@[x] != pai1@[y]);
            } else if b <= x < e {
                assert(seg[x - b] == filho@[x]);
                assert(seg.contains(filho@[x]));
                let fy = q@[posicao_fora(y, b, e)];
                assert(q@.contains(fy));
            } else if b <= y < e {
                assert(seg[y - b] == filho@[y]);
                assert(seg.contains(filho@[y]));
                let fx = q@[posicao_fora(x, b, e)];
                assert(q@.contains(fx));
            }
        }
    }
    filho
}

/// Order crossover on a random segment; both parents list `0..n`.
pub fn ordered_crossover(rng: &mut XorShiftRng, pai1: &Caminho, pai2: &Caminho) -> (r: Caminho)
    requires
        pai1@.len() > 0,
        permutacao(pai1@, pai1@.len()),
        permutacao(pai2@, pai1@.len()),
    ensures
        permutacao(r@, pai1@.len()),
        exists|b: int, e: int|
            0 <= b <= e < pai1@.len() && relacao_ox(pai1@, pai2@, b, e, r@),
{
    let num_vertices = pai1.len();
    let (xbegin, xend) = gen_points(rng, num_vertices);
    ox_com_pontos(pai1, pai2, xbegin, xend)
}

/// Exchanges the two positions of `caminho` that the draws `d1`, `d2` give.
pub fn swap_vertices(rng: &mut XorShiftRng, caminho: Caminho) -> (r: Caminho)
    requires
        caminho@.len() > 0,
    ensures
        exists|d1: usize, d2: usize|
            r@ == troca_spec(
                caminho@,
                pontos_spec(caminho@.len() as int, d1 as int, d2 as int).0,
                pontos_spec(caminho@.len() as int, d1 as int, d2 as int).1,
            ),
{
    let d1 = sorteia_usize(rng);
    let d2 = sorteia_usize(rng);
    let mut caminho = caminho;
    let (i, j) = pontos(caminho.len(), d1, d2);
    troca(&mut caminho, i, j);
    caminho
}

/// Reverses the segment of `caminho` that two random draws give.
pub fn two_opt_aleatorio(rng: &mut XorShiftRng, caminho: Caminho) -> (r: Caminho)
    requires
        caminho@.len() > 0,
    ensures
        exists|d1: usize, d2: usize|
            r@ == inverte_trecho(
                caminho@,
                pontos_spec(caminho@.len() as int, d1 as int, d2 as int).0,
                pontos_spec(caminho@.len() as int, d1 as int, d2 as int).1,
            ),
{
    let d1 = sorteia_usize(rng);
    let d2 = sorteia_usize(rng);
    let (i, k) = pontos(caminho.len(), d1, d2);
    two_opt_swap(caminho, i, k)
}

/// Crossover operator of the genetic algorithm.
#[derive(Clone, Copy, Debug, PartialEq, Eq)]
pub enum Cruzamento {
    Pmx,
    Ox,
}

/// Mutation policy of the genetic algorithm.
#[derive(Clone, Copy, Debug, PartialEq, Eq)]
pub enum Mutacao {
    /// Exchange two random positions.
    Troca,
    /// Reverse a random segment.
    Inversao,
}

/// The result of a mutation: `c` itself when the draw missed the rate,
/// else `politica` applied at positions `i <= j`.
pub open spec fn mutacao_spec(c: Seq<Vertice>, acertou: bool, politica: Mutacao, i: int, j: int) -> Seq<
    Vertice,
> {
    if !acertou {
        c
    } else {
        match politica {
            Mutacao::Troca => troca_spec(c, i, j),
            Mutacao::Inversao => inverte_trecho(c, i, j),
        }
    }
}

/// `c` after the mutation that the draw `x` and the position draws `d1`, `d2` give.
pub open spec fn mutado_por(c: Seq<Vertice>, t: Taxa, politica: Mutacao, x: u64, d1: usize, d2: usize) -> Seq<
    Vertice,
> {
    mutacao_spec(
        c,
        x % (t.denominador() as u64) < t.numerador(),
        politica,
        pontos_spec(c.len() as int, d1 as int, d2 as int).0,
        pontos_spec(c.len() as int, d1 as int, d2 as int).1,
    )
}

/// The mutation that the draws give: it happens when `x` falls inside
/// `mut_chance`, at the positions that `d1` and `d2` give.
pub fn mutacao_com_sorteios(
    caminho: Caminho,
    mut_chance: Taxa,
    politica: Mutacao,
    x: u64,
    d1: usize,
    d2: usize,
) -> (r: Caminho)
    requires
        caminho@.len() > 0,
    ensures
        r@ == mutado_por(caminho@, mut_chance, politica, x, d1, d2),
        permutacao(caminho@, caminho@.len()) ==> permutacao(r@, caminho@.len()),
{
    let ghost c = caminho@;
    let n = caminho.len();
    let (i, j) = pontos(n, d1, d2);
    if mut_chance.acerta(x) {
        match politica {
            Mutacao::Troca => {
                let mut r = caminho;
                troca(&mut r, i, j);
                proof {
                    if permutacao(c, c.len()) {
                        lemma_troca_preserva_permutacao(c, c.len(), i as int, j as int);
                    }
                }
                r
            },
            Mutacao::Inversao => {
                let r = two_opt_swap(caminho, i, j);
                proof {
                    if permutacao(c, c.len()) {
                        lemma_factivel_sse_permutacao(c, c.len());
                        lemma_inverte_preserva_factivel(c, c.len(), i as int, j as int);
                        lemma_factivel_sse_permutacao(r@, c.len());
                    }
                }
                r
            },
        }
    } else {
        caminho
    }
}

/// With probability `mut_chance`, applies the mutation `politica` to
/// `caminho` at random positions; otherwise returns it unchanged.
pub fn mutacao(rng: &mut XorShiftRng, caminho: Caminho, mut_chance: Taxa, politica: Mutacao) -> (r:
    Caminho)
    requires
        caminho@.len() > 0,
    ensures
        exists|x: u64, d1: usize, d2: usize|
            r@ == #[trigger] mutado_por(caminho@, mut_chance, politica, x, d1, d2),
        permutacao(caminho@, caminho@.len()) ==> permutacao(r@, caminho@.len()),
{
    let x = sorteia_u64(rng);
    let d1 = sorteia_usize(rng);
    let d2 = sorteia_usize(rng);
    mutacao_com_sorteios(caminho, mut_chance, politica, x, d1, d2)
}

/// Every tour of `pop` is a listing of the vertices of `g` with its objective.
pub open spec fn populacao_valida(g: Seq<Seq<Peso>>, pop: Seq<Solucao>) -> bool {
    forall|i: int|
        0 <= i < pop.len() ==> coerente(g, #[trigger] pop[i]) && permutacao(pop[i].rota(), g.len())
}

/// The tours of `pop` are in non-decreasing order of objective.
pub open spec fn ordenada(pop: Seq<Solucao>) -> bool {
    forall|i: int, j: int| 0 <= i <= j < pop.len() ==> #[trigger] pop[i].custo() <= #[trigger] pop[j].custo()
}

/// Holds the tours whose objective is `w`.
pub open spec fn com_custo(w: Peso) -> spec_fn(Solucao) -> bool {
    |y: Solucao| y.custo() == w
}

proof fn lemma_filtro_vazio(a: Seq<Solucao>, f: spec_fn(Solucao) -> bool)
    requires
        forall|i: int| 0 <= i < a.len() ==> !f(#[trigger] a[i]),
    ensures
        a.filter(f) == Seq::<Solucao>::empty(),
{
    assert(a.all(|x: Solucao| !f(x)));
    a.lemma_all_neg_filter_empty(f);
    assert(a.filter(f) =~= Seq::<Solucao>::empty());
}

/// Inserting `s` after the tours not above it and before those above it adds
/// `s` at the end of the tours of its own objective and leaves the others.
proof fn lemma_filtro_insercao(a: Seq<Solucao>, p: int, s: Solucao, w: Peso)
    requires
        0 <= p <= a.len(),
        forall|i: int| 0 <= i < p ==> #[trigger] a[i].custo() <= s.custo(),
        forall|i: int| p <= i < a.len() ==> #[trigger] a[i].custo() > s.custo(),
    ensures
        a.insert(p, s).filter(com_custo(w)) == if w == s.custo() {
            a.filter(com_custo(w)).push(s)
        } else {
            a.filter(com_custo(w))
        },
{
    let f = com_custo(w);
    let ini = a.take(p);
    let fim = a.skip(p);
    assert(a.insert(p, s) =~= ini + seq![s] + fim);
    assert(a =~= ini + fim);
    Seq::filter_distributes_over_add(ini + seq![s], fim, f);
    Seq::filter_distributes_over_add(ini, seq![s], f);
    Seq::filter_distributes_over_add(ini, fim, f);
    assert(seq![s] =~= Seq::<Solucao>::empty().push(s));
    Seq::<Solucao>::empty().lemma_filter_push(s, f);
    lemma_filtro_vazio(Seq::<Solucao>::empty(), f);
    if w == s.custo() {
        assert forall|i: int| 0 <= i < fim.len() implies !f(#[trigger] fim[i]) by {
            assert(fim[i] == a[p + i]);
        }
        lemma_filtro_vazio(fim, f);
        assert(ini.filter(f) + seq![s] + Seq::<Solucao>::empty() =~= (ini.filter(f)
            + Seq::<Solucao>::empty()).push(s));
    } else {
        assert(ini.filter(f) + Seq::<Solucao>::empty() =~= ini.filter(f));
    }
}

/// Inserts `s` after every tour whose objective is not above its own.
fn insere_ordenado(pop: &mut Vec<Solucao>, s: Solucao)
    requires
        ordenada(old(pop)@),
    ensures
        ordenada(final(pop)@),
        final(pop)@.to_multiset() == old(pop)@.to_multiset().insert(s),
        final(pop)@.len() == old(pop)@.len() + 1,
        forall|x: Solucao| #[trigger] final(pop)@.contains(x) ==> old(pop)@.contains(x) || x == s,
        forall|w: Peso|
            #[trigger] final(pop)@.filter(com_custo(w)) == if w == s.custo() {
                old(pop)@.filter(com_custo(w)).push(s)
            } else {
                old(pop)@.filter(com_custo(w))
            },
{
    let mut p: usize = 0;
    while p < pop.len() && pop[p].fo() <= s.fo()
        invariant
            p <= pop@.len(),
            forall|i: int| 0 <= i < p ==> #[trigger] pop@[i].custo() <= s.custo(),
        decreases pop@.len() - p,
    {
        p += 1;
    }
    let ghost velho = pop@;
    pop.insert(p, s);
    proof {
        assert(pop@ == velho.insert(p as int, s));
        assert forall|i: int, j: int| 0 <= i <= j < pop@.len() implies #[trigger] pop@[i].custo()
            <= #[trigger] pop@[j].custo() by {
            if j < p {
            } else if i < p && j == p {
            } else if i < p {
                assert(pop@[j] == velho[j - 1]);
            } else if i == p && j > p {
                assert(pop@[j] == velho[j - 1]);
                assert(velho[p as int].custo() > s.custo());
                assert(velho[p as int].custo() <= velho[j - 1].custo());
            } else if i > p {
                assert(pop@[i] == velho[i - 1]);
                assert(pop@[j] == velho[j - 1]);
            }
        }
        assert forall|x: Solucao| #[trigger] pop@.contains(x) implies velho.contains(x) || x == s by {
            let k = choose|k: int| 0 <= k < pop@.len() && pop@[k] == x;
            if k < p {
                assert(velho[k] == x);
            } else if k > p {
                assert(velho[k - 1] == x);
            }
        }
        assert forall|i: int| p <= i < velho.len() implies #[trigger] velho[i].custo() > s.custo() by {
            assert(velho[p as int].custo() > s.custo());
            assert(velho[p as int].custo() <= velho[i].custo());
        }
        assert forall|w: Peso| #[trigger] pop@.filter(com_custo(w)) == if w == s.custo() {
            velho.filter(com_custo(w)).push(s)
        } else {
            velho.filter(com_custo(w))
        } by {
            lemma_filtro_insercao(velho, p as int, s, w);
        }
    }
}

/// `proxima` keeps the `pop_tam` best of `atual` and `filhos` together, in
/// non-decreasing order of objective; tours of equal objective keep their
/// order in `atual` followed by `filhos` (a stable sort).
pub open spec fn eh_proxima_geracao(
    atual: Seq<Solucao>,
    filhos: Seq<Solucao>,
    pop_tam: nat,
    proxima: Seq<Solucao>,
) -> bool {
    exists|todos: Seq<Solucao>|
        {
            &&& ordenada(todos)
            &&& #[trigger] todos.to_multiset() == (atual + filhos).to_multiset()
            &&& forall|w: Peso| #[trigger] todos.filter(com_custo(w)) == (atual + filhos).filter(com_custo(w))
            &&& proxima == todos.take(
                if pop_tam < todos.len() {
                    pop_tam as int
                } else {
                    todos.len() as int
                },
            )
        }
}

/// Elitist replacement: merges the current population and the offspring in
/// order of objective and keeps the first `pop_tam`.
pub fn proxima_geracao(atual: Vec<Solucao>, filhos: Vec<Solucao>, pop_tam: usize) -> (r: Vec<
    Solucao,
>)
    requires
        ordenada(atual@),
        atual@.len() + filhos@.len() <= usize::MAX,
    ensures
        eh_proxima_geracao(atual@, filhos@, pop_tam as nat, r@),
        ordenada(r@),
        r@.len() == if pop_tam < atual@.len() + filhos@.len() {
            pop_tam as int
        } else {
            atual@.len() + filhos@.len() as int
        },
        forall|x: Solucao| #[trigger] r@.contains(x) ==> atual@.contains(x) || filhos@.contains(x),
{
    let ghost a = atual@;
    let ghost f = filhos@;
    let mut proxima = atual;
    let mut filhos = filhos;
    let n = filhos.len();
    let mut k: usize = 0;
    let ghost mut inseridos: Seq<Solucao> = Seq::empty();
    while filhos.len() > 0
        invariant
            filhos@ == f.skip(k as int),
            k <= f.len(),
            n == f.len(),
            k + filhos@.len() == n,
            inseridos == f.take(k as int),
            ordenada(proxima@),
            proxima@.to_multiset() == (a + inseridos).to_multiset(),
            forall|w: Peso| #[trigger] proxima@.filter(com_custo(w)) == (a + inseridos).filter(com_custo(w)),
            proxima@.len() == a.len() + k,
            forall|x: Solucao| #[trigger] proxima@.contains(x) ==> a.contains(x) || f.contains(x),
        decreases filhos@.len(),
    {
        let x = filhos.remove(0);
        proof {
            assert(f[k as int] == x);
            assert(f.skip(k + 1) =~= f.skip(k as int).drop_first());
            assert(f.contains(x));
        }
        insere_ordenado(&mut proxima, x);
        proof {
            let antes = a + inseridos;
            inseridos = inseridos.push(x);
            assert(f.take(k + 1) =~= f.take(k as int).push(x));
            assert(a + inseridos =~= (a + f.take(k as int)).push(x));
            assert forall|w: Peso| #[trigger] proxima@.filter(com_custo(w)) == (a + inseridos).filter(
                com_custo(w),
            ) by {
                antes.lemma_filter_push(x, com_custo(w));
            }
        }
        k += 1;
    }
    proof {
        assert(f.take(n as int) =~= f);
    }
    let ghost todos = proxima@;
    proxima.truncate(pop_tam);
    proof {
        assert(proxima@ =~= todos.take(
            if (pop_tam as nat) < todos.len() {
                pop_tam as int
            } else {
                todos.len() as int
            },
        ));
        assert forall|x: Solucao| #[trigger] proxima@.contains(x) implies a.contains(x)
            || f.contains(x) by {
            let i = choose|i: int| 0 <= i < proxima@.len() && proxima@[i] == x;
            assert(todos[i] == x);
            assert(todos.contains(x));
        }
    }
    proxima
}

/// Elitism: one generation never loses the best tour. When the current
/// population is not empty and the size kept is positive, the first tour of
/// the next generation is at least as good as every tour of the current one.
pub proof fn lemma_elitismo(
    atual: Seq<Solucao>,
    filhos: Seq<Solucao>,
    pop_tam: nat,
    proxima: Seq<Solucao>,
)
    requires
        eh_proxima_geracao(atual, filhos, pop_tam, proxima),
        atual.len() > 0,
        pop_tam > 0,
    ensures
        proxima.len() > 0,
        forall|i: int| 0 <= i < atual.len() ==> proxima[0].custo() <= #[trigger] atual[i].custo(),
        forall|i: int| 0 <= i < proxima.len() ==> proxima[0].custo() <= #[trigger] proxima[i].custo(),
{
    let todos = choose|todos: Seq<Solucao>|
        {
            &&& ordenada(todos)
            &&& #[trigger] todos.to_multiset() == (atual + filhos).to_multiset()
            &&& forall|w: Peso| #[trigger] todos.filter(com_custo(w)) == (atual + filhos).filter(com_custo(w))
            &&& proxima == todos.take(
                if pop_tam < todos.len() {
                    pop_tam as int
                } else {
                    todos.len() as int
                },
            )
        };
    assert(todos.len() == (atual + filhos).len()) by {
        assert(todos.to_multiset().len() == (atual + filhos).to_multiset().len());
    }
    assert forall|i: int| 0 <= i < atual.len() implies proxima[0].custo()
        <= #[trigger] atual[i].custo() by {
        let x = atual[i];
        assert((atual + filhos)[i] == x);
        assert((atual + filhos).contains(x));
        assert(todos.to_multiset().count(x) > 0);
        assert(todos.contains(x));
        let k = choose|k: int| 0 <= k < todos.len() && todos[k] == x;
        assert(todos[0].custo() <= todos[k].custo());
        assert(proxima[0] == todos[0]);
    }
    assert forall|i: int| 0 <= i < proxima.len() implies proxima[0].custo()
        <= #[trigger] proxima[i].custo() by {
        assert(proxima[i] == todos[i]);
        assert(proxima[0] == todos[0]);
    }
}

/// Attempts at a random walk before the search for one individual gives up.
pub const MAX_TENTATIVAS: u32 = 10000;

/// Weight given to a tour of objective 1 on the selection wheel; a tour of
/// objective `fo` gets `ESCALA_ROLETA / fo`.
pub const ESCALA_ROLETA: u64 = 4611686018427387904;

/// Every edge between two distinct vertices of `g` exists: none weighs `INF`.
pub open spec fn completo(g: Seq<Seq<Peso>>) -> bool {
    forall|a: int, b: int| 0 <= a < g.len() && 0 <= b < g.len() && a != b ==> #[trigger] g[a][b] != INF
}

/// The vertices below `v`, ascending, that are not in `visitados` and that
/// an edge other than `INF` reaches from `atual`.
pub open spec fn vizinhos_abertos(g: Seq<Seq<Peso>>, visitados: Seq<Vertice>, atual: Vertice, v: nat) -> Seq<
    Vertice,
>
    decreases v,
{
    if v == 0 {
        Seq::empty()
    } else {
        let r = vizinhos_abertos(g, visitados, atual, (v - 1) as nat);
        let u = (v - 1) as Vertice;
        if !visitados.contains(u) && g[atual as int][u as int] != INF {
            r.push(u)
        } else {
            r
        }
    }
}

/// The walk that the draws `d` define, after `t` steps: it starts at
/// `d[0] mod n`, and step `t` goes to the open neighbour at position
/// `d[t] mod k` of the `k` open neighbours of the current vertex; `None` once
/// a step meets a vertex with no open neighbour.
pub open spec fn passeio_spec(g: Seq<Seq<Peso>>, d: Seq<usize>, t: nat) -> Option<Seq<Vertice>>
    decreases t,
{
    if t == 0 {
        Some(seq![(d[0] as int % g.len() as int) as Vertice])
    } else {
        match passeio_spec(g, d, (t - 1) as nat) {
            None => None,
            Some(c) => {
                let ab = vizinhos_abertos(g, c, c.last(), g.len());
                if ab.len() == 0 {
                    None
                } else {
                    Some(c.push(ab[d[t as int] as int % ab.len() as int]))
                }
            },
        }
    }
}

/// The sequence an optional path holds.
pub open spec fn vista_opcional(r: Option<Caminho>) -> Option<Seq<Vertice>> {
    match r {
        Some(c) => Some(c@),
        None => None,
    }
}

proof fn lemma_passeio_parado(g: Seq<Seq<Peso>>, d: Seq<usize>, t: nat, u: nat)
    requires
        t <= u,
        passeio_spec(g, d, t) is None,
    ensures
        passeio_spec(g, d, u) is None,
    decreases u - t,
{
    if t < u {
        lemma_passeio_parado(g, d, t, (u - 1) as nat);
    }
}

/// The walk that the draws `d` define (see `passeio_spec`): a listing of the
/// vertices joined by edges other than `INF`, or `None` at a dead end, which
/// cannot happen when every edge exists.
pub fn passeio(grafo: &Grafo, d: &Vec<usize>) -> (r: Option<Caminho>)
    requires
        grafo@.len() > 0,
        d@.len() == grafo@.len(),
    ensures
        vista_opcional(r) == passeio_spec(grafo@, d@, (grafo@.len() - 1) as nat),
        completo(grafo@) ==> r is Some,
        r matches Some(c) ==> {
            &&& permutacao(c@, grafo@.len())
            &&& forall|i: int|
                0 <= i < c@.len() - 1 ==> grafo@[c@[i] as int][#[trigger] c@[i + 1] as int] != INF
        },
{
    let num_vertices = grafo.num_vertices();
    let mut caminho: Vec<Vertice> = Vec::with_capacity(num_vertices);
    let mut marcados: Vec<bool> = Vec::new();
    let mut k: usize = 0;
    while k < num_vertices
        invariant
            k <= num_vertices,
            marcados@.len() == k,
            forall|v: int| 0 <= v < k ==> !marcados@[v],
        decreases num_vertices - k,
    {
        marcados.push(false);
        k += 1;
    }
    let inicial = d[0] % num_vertices;
    caminho.push(inicial);
    marcados.set(inicial, true);
    let mut num_marcados: usize = 1;
    proof {
        assert forall|v: int| 0 <= v < num_vertices implies (#[trigger] marcados@[v]
            <==> caminho@.contains(v as Vertice)) by {
            if v == inicial {
                assert(caminho@[0] == inicial);
            }
        }
        assert(caminho@ == seq![inicial]);
    }
    while num_marcados < num_vertices
        invariant
            num_vertices == grafo@.len(),
            d@.len() == num_vertices,
            quadrada(grafo@),
            caminho@.len() == num_marcados,
            1 <= num_marcados <= num_vertices,
            marcados@.len() == num_vertices,
            passeio_spec(grafo@, d@, (num_marcados - 1) as nat) == Some(caminho@),
            forall|j: int| 0 <= j < caminho@.len() ==> #[trigger] caminho@[j] < num_vertices,
            caminho@.no_duplicates(),
            forall|v: int|
                0 <= v < num_vertices ==> (#[trigger] marcados@[v] <==> caminho@.contains(
                    v as Vertice,
                )),
            forall|i: int|
                0 <= i < caminho@.len() - 1 ==> grafo@[caminho@[i] as int][#[trigger] caminho@[i
                    + 1] as int] != INF,
        decreases num_vertices - num_marcados,
    {
        let atual = caminho[caminho.len() - 1];
        let linha = grafo.adjacentes(atual);
        let mut abertos: Vec<Vertice> = Vec::new();
        let mut v: usize = 0;
        while v < num_vertices
            invariant
                num_vertices == grafo@.len(),
                quadrada(grafo@),
                atual < num_vertices,
                atual == caminho@.last(),
                linha@ == grafo@[atual as int],
                v <= num_vertices,
                marcados@.len() == num_vertices,
                forall|u: int|
                    0 <= u < num_vertices ==> (#[trigger] marcados@[u] <==> caminho@.contains(
                        u as Vertice,
                    )),
                abertos@ == vizinhos_abertos(grafo@, caminho@, atual, v as nat),
                forall|p: int|
                    0 <= p < abertos@.len() ==> #[trigger] abertos@[p] < num_vertices
                        && !marcados@[abertos@[p] as int] && grafo@[atual as int][abertos@[p] as int]
                        != INF,
                abertos@.len() == 0 ==> forall|u: int|
                    0 <= u < v ==> #[trigger] marcados@[u] || grafo@[atual as int][u] == INF,
            decreases num_vertices - v,
        {
            if !marcados[v] && linha[v] != INF {
                abertos.push(v);
            }
            v += 1;
        }
        if abertos.len() == 0 {
            proof {
                assert(passeio_spec(grafo@, d@, num_marcados as nat) is None);
                lemma_passeio_parado(
                    grafo@,
                    d@,
                    num_marcados as nat,
                    (num_vertices - 1) as nat,
                );
                if completo(grafo@) {
                    assert(caminho@.contains(atual));
                    assert(marcados@[atual as int]);
                    assert forall|u: Vertice| u < num_vertices implies #[trigger] caminho@.contains(u) by {
                        if u != atual {
                            assert(grafo@[atual as int][u as int] != INF);
                        }
                        assert(marcados@[u as int]);
                    }
                    lemma_cobre_tudo(caminho@, num_vertices as nat);
                }
            }
            return None;
        }
        let proximo = abertos[d[num_marcados] % abertos.len()];
        let ghost velho = caminho@;
        caminho.push(proximo);
        marcados.set(proximo, true);
        num_marcados += 1;
        proof {
            assert(passeio_spec(grafo@, d@, (num_marcados - 1) as nat) == Some(caminho@));
            assert(!velho.contains(proximo));
            assert forall|a: int, b: int|
                0 <= a < caminho@.len() && 0 <= b < caminho@.len() && a != b implies caminho@[a]
                != caminho@[b] by {
                if a < velho.len() && b < velho.len() {
                    assert(velho[a] != velho[b]);
                } else if a < velho.len() {
                    assert(velho.contains(velho[a]));
                } else if b < velho.len() {
                    assert(velho.contains(velho[b]));
                }
            }
            assert forall|u: int| 0 <= u < num_vertices implies (#[trigger] marcados@[u]
                <==> caminho@.contains(u as Vertice)) by {
                if caminho@.contains(u as Vertice) && u != proximo {
                    let j = choose|j: int| 0 <= j < caminho@.len() && caminho@[j] == u as Vertice;
                    assert(velho[j] == u);
                }
                if velho.contains(u as Vertice) {
                    let j = choose|j: int| 0 <= j < velho.len() && velho[j] == u as Vertice;
                    assert(caminho@[j] == u);
                }
                if u == proximo {
                    assert(caminho@[velho.len() as int] == proximo);
                }
            }
            assert forall|i: int| 0 <= i < caminho@.len() - 1 implies grafo@[caminho@[i] as int][
                #[trigger] caminho@[i + 1] as int] != INF by {
                if i < velho.len() - 1 {
                    assert(caminho@[i] == velho[i] && caminho@[i + 1] == velho[i + 1]);
                } else {
                    assert(caminho@[i] == atual);
                }
            }
        }
    }
    Some(caminho)
}

/// Random walk: draws one value per vertex and follows the walk they define
/// (see `passeio`); `None` when that walk reaches a dead end.
pub fn caminho_aleatorio(rng: &mut XorShiftRng, grafo: &Grafo) -> (r: Option<Caminho>)
    requires
        grafo@.len() > 0,
    ensures
        exists|d: Seq<usize>|
            d.len() == grafo@.len() && vista_opcional(r) == #[trigger] passeio_spec(
                grafo@,
                d,
                (grafo@.len() - 1) as nat,
            ),
        completo(grafo@) ==> r is Some,
        r matches Some(c) ==> {
            &&& permutacao(c@, grafo@.len())
            &&& forall|i: int|
                0 <= i < c@.len() - 1 ==> grafo@[c@[i] as int][#[trigger] c@[i + 1] as int] != INF
        },
{
    let n = grafo.num_vertices();
    let mut d: Vec<usize> = Vec::with_capacity(n);
    let mut i: usize = 0;
    while i < n
        invariant
            i <= n,
            d@.len() == i,
        decreases n - i,
    {
        d.push(sorteia_usize(rng));
        i += 1;
    }
    passeio(grafo, &d)
}

/// A random individual, from up to `MAX_TENTATIVAS` random walks; `None` when
/// every walk reached a dead end.
pub fn individuo_aleatorio(rng: &mut XorShiftRng, grafo: &Grafo) -> (r: Option<Solucao>)
    requires
        grafo@.len() > 0,
    ensures
        completo(grafo@) ==> r is Some,
        r matches Some(s) ==> coerente(grafo@, s) && permutacao(s.rota(), grafo@.len()),
{
    let mut tentativa: u32 = 0;
    while tentativa < MAX_TENTATIVAS
        invariant
            grafo@.len() > 0,
            completo(grafo@) ==> tentativa == 0,
        decreases MAX_TENTATIVAS - tentativa,
    {
        if let Some(caminho) = caminho_aleatorio(rng, grafo) {
            return Some(Solucao::new(grafo, caminho));
        }
        tentativa += 1;
    }
    None
}

/// `pop_tam` random individuals in non-decreasing order of objective; `None`
/// when one of them cannot be built.
pub fn populacao_inicial(rng: &mut XorShiftRng, grafo: &Grafo, pop_tam: usize) -> (r: Option<
    Vec<Solucao>,
>)
    requires
        grafo@.len() > 0,
    ensures
        completo(grafo@) ==> r is Some,
        r matches Some(pop) ==> {
            &&& pop@.len() == pop_tam
            &&& ordenada(pop@)
            &&& populacao_valida(grafo@, pop@)
        },
{
    let mut pop: Vec<Solucao> = Vec::new();
    let mut i: usize = 0;
    while i < pop_tam
        invariant
            grafo@.len() > 0,
            i <= pop_tam,
            pop@.len() == i,
            ordenada(pop@),
            populacao_valida(grafo@, pop@),
        decreases pop_tam - i,
    {
        match individuo_aleatorio(rng, grafo) {
            Some(s) => {
                let ghost velho = pop@;
                insere_ordenado(&mut pop, s);
                proof {
                    assert forall|j: int| 0 <= j < pop@.len() implies coerente(
                        grafo@,
                        #[trigger] pop@[j],
                    ) && permutacao(pop@[j].rota(), grafo@.len()) by {
                        assert(pop@.contains(pop@[j]));
                        if pop@[j] != s {
                            let k = choose|k: int| 0 <= k < velho.len() && velho[k] == pop@[j];
                        }
                    }
                }
            },
            None => {
                return None;
            },
        }
        i += 1;
    }
    Some(pop)
}

/// Weight of a tour on the selection wheel, inversely proportional to its
/// objective.
pub open spec fn peso_roleta(fo: Peso) -> int {
    ESCALA_ROLETA as int / if fo == 0 {
        1int
    } else {
        fo as int
    }
}

/// Total weight of the first `k` tours of `pop`.
pub open spec fn acumulado(pop: Seq<Solucao>, k: int) -> int
    decreases k,
{
    if k <= 0 {
        0
    } else {
        acumulado(pop, k - 1) + peso_roleta(pop[k - 1].custo())
    }
}

/// The selection wheel: entry `i` is the total weight of tours `0..=i`.
pub fn gen_roleta(pop: &Vec<Solucao>) -> (r: Vec<u128>)
    ensures
        r@.len() == pop@.len(),
        forall|i: int| 0 <= i < r@.len() ==> #[trigger] r@[i] == acumulado(pop@, i + 1),
{
    let mut roleta: Vec<u128> = Vec::new();
    let mut total: u128 = 0;
    let mut i: usize = 0;
    while i < pop.len()
        invariant
            i <= pop@.len(),
            roleta@.len() == i,
            total == acumulado(pop@, i as int),
            0 <= acumulado(pop@, i as int) <= i * ESCALA_ROLETA,
            forall|j: int| 0 <= j < i ==> #[trigger] roleta@[j] == acumulado(pop@, j + 1),
        decreases pop@.len() - i,
    {
        let fo = pop[i].fo();
        let divisor: u64 = if fo == 0 {
            1
        } else {
            fo
        };
        let peso = ESCALA_ROLETA / divisor;
        assert(peso <= ESCALA_ROLETA) by (nonlinear_arith)
            requires
                divisor >= 1,
                peso == ESCALA_ROLETA / divisor,
        ;
        total = total + peso as u128;
        roleta.push(total);
        i += 1;
    }
    roleta
}

/// The first slot of the wheel whose running total exceeds `x`; `0` when none does.
pub fn get_index_from_roleta(roleta: &Vec<u128>, x: u128) -> (r: usize)
    ensures
        (exists|i: int| 0 <= i < roleta@.len() && x < #[trigger] roleta@[i]) ==> {
            &&& r < roleta@.len()
            &&& x < roleta@[r as int]
            &&& forall|i: int| 0 <= i < r ==> x >= #[trigger] roleta@[i]
        },
        (forall|i: int| 0 <= i < roleta@.len() ==> x >= #[trigger] roleta@[i]) ==> r == 0,
{
    let mut i: usize = 0;
    while i < roleta.len()
        invariant
            i <= roleta@.len(),
            forall|j: int| 0 <= j < i ==> x >= #[trigger] roleta@[j],
        decreases roleta@.len() - i,
    {
        if x < roleta[i] {
            return i;
        }
        i += 1;
    }
    0
}

/// Draws a slot of the wheel with probability proportional to its weight;
/// when the total weight is positive, the slot drawn has positive weight.
fn sorteia_da_roleta(rng: &mut XorShiftRng, roleta: &Vec<u128>) -> (r: usize)
    requires
        roleta@.len() > 0,
    ensures
        r < roleta@.len(),
        roleta@[roleta@.len() - 1] > 0 ==> roleta@[r as int] > if r == 0 {
            0
        } else {
            roleta@[r - 1]
        },
{
    let total = roleta[roleta.len() - 1];
    let alto = sorteia_u64(rng) as u128;
    let baixo = sorteia_u64(rng) as u128;
    assert(alto * 0x1_0000_0000_0000_0000 + baixo <= 0xffff_ffff_ffff_ffff_ffff_ffff_ffff_ffff)
        by (nonlinear_arith)
        requires
            alto <= 0xffff_ffff_ffff_ffff,
            baixo <= 0xffff_ffff_ffff_ffff,
    ;
    let sorteio = alto * 0x1_0000_0000_0000_0000 + baixo;
    let x = if total == 0 {
        0
    } else {
        sorteio % total
    };
    let r = get_index_from_roleta(roleta, x);
    proof {
        if total > 0 {
            assert(x < roleta@[roleta@.len() - 1]);
            if r > 0 {
                assert(x >= roleta@[r - 1]);
            }
        }
    }
    r
}

/// Draws `xo_num` pairs of parents, each parent independently from the wheel
/// of `pop`; the pairs are positions in `pop`.
pub fn selecao(rng: &mut XorShiftRng, pop: &Vec<Solucao>, xo_num: usize) -> (r: Vec<
    (usize, usize),
>)
    requires
        pop@.len() > 0,
    ensures
        r@.len() == xo_num,
        forall|i: int| 0 <= i < r@.len() ==> #[trigger] r@[i].0 < pop@.len() && r@[i].1 < pop@.len(),
        acumulado(pop@, pop@.len() as int) > 0 ==> forall|i: int|
            0 <= i < r@.len() ==> peso_roleta(pop@[#[trigger] r@[i].0 as int].custo()) > 0
                && peso_roleta(pop@[r@[i].1 as int].custo()) > 0,
{
    let roleta = gen_roleta(pop);
    let mut pais: Vec<(usize, usize)> = Vec::with_capacity(xo_num);
    let mut i: usize = 0;
    while i < xo_num
        invariant
            roleta@.len() == pop@.len(),
            pop@.len() > 0,
            i <= xo_num,
            pais@.len() == i,
            forall|j: int|
                0 <= j < pais@.len() ==> #[trigger] pais@[j].0 < pop@.len() && pais@[j].1 < pop@.len(),
            forall|j: int| 0 <= j < roleta@.len() ==> #[trigger] roleta@[j] == acumulado(pop@, j + 1),
            acumulado(pop@, pop@.len() as int) > 0 ==> forall|j: int|
                0 <= j < pais@.len() ==> peso_roleta(pop@[#[trigger] pais@[j].0 as int].custo()) > 0
                    && peso_roleta(pop@[pais@[j].1 as int].custo()) > 0,
        decreases xo_num - i,
    {
        let pai1 = sorteia_da_roleta(rng, &roleta);
        let pai2 = sorteia_da_roleta(rng, &roleta);
        proof {
            assert(roleta@[roleta@.len() - 1] == acumulado(pop@, pop@.len() as int));
            assert(roleta@[pai1 as int] == acumulado(pop@, pai1 + 1));
            assert(roleta@[pai2 as int] == acumulado(pop@, pai2 + 1));
            if pai1 > 0 {
                assert(roleta@[pai1 - 1] == acumulado(pop@, pai1 as int));
            }
            if pai2 > 0 {
                assert(roleta@[pai2 - 1] == acumulado(pop@, pai2 as int));
            }
            assert(acumulado(pop@, pai1 + 1) == acumulado(pop@, pai1 as int) + peso_roleta(
                pop@[pai1 as int].custo(),
            ));
            assert(acumulado(pop@, pai2 + 1) == acumulado(pop@, pai2 as int) + peso_roleta(
                pop@[pai2 as int].custo(),
            ));
            assert(acumulado(pop@, 0) == 0);
        }
        let ghost velhos = pais@;
        pais.push((pai1, pai2));
        proof {
            assert forall|j: int| 0 <= j < velhos.len() implies pais@[j] == velhos[j] by {}
            assert(pais@[velhos.len() as int] == (pai1, pai2));
        }
        i += 1;
    }
    pais
}

/// `c` is the crossover `cruzamento` of `p1` with `p2` on the segment `[b, e)`.
pub open spec fn relacao_cruzamento(
    p1: Seq<Vertice>,
    p2: Seq<Vertice>,
    cruzamento: Cruzamento,
    b: int,
    e: int,
    c: Seq<Vertice>,
) -> bool {
    match cruzamento {
        Cruzamento::Pmx => relacao_pmx(p1, p2, b, e, c),
        Cruzamento::Ox => relacao_ox(p1, p2, b, e, c),
    }
}

/// `r` is a child of `p1` and `p2`: their crossover on some segment, then the
/// mutation that some draws give.
pub open spec fn filho_de(
    p1: Seq<Vertice>,
    p2: Seq<Vertice>,
    mut_chance: Taxa,
    cruzamento: Cruzamento,
    politica: Mutacao,
    r: Seq<Vertice>,
) -> bool {
    exists|b: int, e: int, c: Seq<Vertice>, x: u64, d1: usize, d2: usize|
        #![trigger relacao_cruzamento(p1, p2, cruzamento, b, e, c), mutado_por(c, mut_chance, politica, x, d1, d2)]
        0 <= b <= e < p1.len() && relacao_cruzamento(p1, p2, cruzamento, b, e, c) && r == mutado_por(
            c,
            mut_chance,
            politica,
            x,
            d1,
            d2,
        )
}

/// One child: the crossover of `pai1` with `pai2`, mutated with probability
/// `mut_chance`, with its objective.
pub fn filho(
    rng: &mut XorShiftRng,
    grafo: &Grafo,
    pai1: &Caminho,
    pai2: &Caminho,
    mut_chance: Taxa,
    cruzamento: Cruzamento,
    politica: Mutacao,
) -> (r: Solucao)
    requires
        grafo@.len() > 0,
        permutacao(pai1@, grafo@.len()),
        permutacao(pai2@, grafo@.len()),
    ensures
        coerente(grafo@, r),
        permutacao(r.rota(), grafo@.len()),
        filho_de(pai1@, pai2@, mut_chance, cruzamento, politica, r.rota()),
{
    let c = match cruzamento {
        Cruzamento::Pmx => {
            let c = pmx_crossover(rng, pai1, pai2);
            proof {
                let (b, e) = choose|b: int, e: int|
                    0 <= b <= e < pai1@.len() && relacao_pmx(pai1@, pai2@, b, e, c@);
                assert(relacao_cruzamento(pai1@, pai2@, cruzamento, b, e, c@));
            }
            c
        },
        Cruzamento::Ox => {
            let c = ordered_crossover(rng, pai1, pai2);
            proof {
                let (b, e) = choose|b: int, e: int|
                    0 <= b <= e < pai1@.len() && relacao_ox(pai1@, pai2@, b, e, c@);
                assert(relacao_cruzamento(pai1@, pai2@, cruzamento, b, e, c@));
            }
            c
        },
    };
    let ghost cruzado = c@;
    assert(exists|b: int, e: int|
        0 <= b <= e < pai1@.len() && #[trigger] relacao_cruzamento(pai1@, pai2@, cruzamento, b, e, cruzado));
    let m = mutacao(rng, c, mut_chance, politica);
    proof {
        let (b, e) = choose|b: int, e: int|
            0 <= b <= e < pai1@.len() && relacao_cruzamento(pai1@, pai2@, cruzamento, b, e, cruzado);
        let (x, d1, d2) = choose|x: u64, d1: usize, d2: usize|
            m@ == #[trigger] mutado_por(cruzado, mut_chance, politica, x, d1, d2);
        assert(relacao_cruzamento(pai1@, pai2@, cruzamento, b, e, cruzado) && m@ == mutado_por(
            cruzado,
            mut_chance,
            politica,
            x,
            d1,
            d2,
        ));
    }
    Solucao::new(grafo, m)
}

/// Child `t` of the offspring of `pais`: for `t < m`, a child of pair `t`;
/// after that, a child of pair `t - m` with the parents' roles exchanged.
pub open spec fn filho_na_posicao(
    pop: Seq<Solucao>,
    pais: Seq<(usize, usize)>,
    mut_chance: Taxa,
    cruzamento: Cruzamento,
    politica: Mutacao,
    filhos: Seq<Solucao>,
    t: int,
) -> bool {
    let m = pais.len() as int;
    if t < m {
        filho_de(
            pop[pais[t].0 as int].rota(),
            pop[pais[t].1 as int].rota(),
            mut_chance,
            cruzamento,
            politica,
            filhos[t].rota(),
        )
    } else {
        filho_de(
            pop[pais[t - m].1 as int].rota(),
            pop[pais[t - m].0 as int].rota(),
            mut_chance,
            cruzamento,
            politica,
            filhos[t].rota(),
        )
    }
}

/// Offspring of the parent pairs: for each pair, the crossover of the first
/// parent with the second, then, for each pair, the other way round; each
/// child is mutated with probability `mut_chance`.
pub fn recombinacao(
    rng: &mut XorShiftRng,
    grafo: &Grafo,
    pop: &Vec<Solucao>,
    pais: &Vec<(usize, usize)>,
    mut_chance: Taxa,
    cruzamento: Cruzamento,
    politica: Mutacao,
) -> (r: Vec<Solucao>)
    requires
        grafo@.len() > 0,
        populacao_valida(grafo@, pop@),
        forall|i: int| 0 <= i < pais@.len() ==> #[trigger] pais@[i].0 < pop@.len() && pais@[i].1 < pop@.len(),
        2 * pais@.len() <= usize::MAX,
    ensures
        r@.len() == 2 * pais@.len(),
        populacao_valida(grafo@, r@),
        forall|t: int|
            0 <= t < r@.len() ==> #[trigger] filho_na_posicao(
                pop@,
                pais@,
                mut_chance,
                cruzamento,
                politica,
                r@,
                t,
            ),
{
    let mut filhos: Vec<Solucao> = Vec::with_capacity(2 * pais.len());
    let mut volta: usize = 0;
    while volta < 2
        invariant
            grafo@.len() > 0,
            populacao_valida(grafo@, pop@),
            forall|i: int| 0 <= i < pais@.len() ==> #[trigger] pais@[i].0 < pop@.len() && pais@[i].1 < pop@.len(),
            volta <= 2,
            filhos@.len() == volta * pais@.len(),
            populacao_valida(grafo@, filhos@),
            forall|t: int|
                0 <= t < filhos@.len() ==> #[trigger] filho_na_posicao(
                    pop@,
                    pais@,
                    mut_chance,
                    cruzamento,
                    politica,
                    filhos@,
                    t,
                ),
        decreases 2 - volta,
    {
        let mut i: usize = 0;
        while i < pais.len()
            invariant
                grafo@.len() > 0,
                populacao_valida(grafo@, pop@),
                forall|i: int| 0 <= i < pais@.len() ==> #[trigger] pais@[i].0 < pop@.len() && pais@[i].1 < pop@.len(),
                volta < 2,
                i <= pais@.len(),
                filhos@.len() == volta * pais@.len() + i,
                populacao_valida(grafo@, filhos@),
                forall|t: int|
                    0 <= t < filhos@.len() ==> #[trigger] filho_na_posicao(
                        pop@,
                        pais@,
                        mut_chance,
                        cruzamento,
                        politica,
                        filhos@,
                        t,
                    ),
            decreases pais@.len() - i,
        {
            let (a, b) = pais[i];
            let (p1, p2) = if volta == 0 {
                (a, b)
            } else {
                (b, a)
            };
            let pai1 = pop[p1].caminho();
            let pai2 = pop[p2].caminho();
            proof {
                assert(coerente(grafo@, pop@[p1 as int]) && permutacao(pop@[p1 as int].rota(), grafo@.len()));
                assert(coerente(grafo@, pop@[p2 as int]) && permutacao(pop@[p2 as int].rota(), grafo@.len()));
            }
            let s = filho(rng, grafo, pai1, pai2, mut_chance, cruzamento, politica);
            let ghost velho = filhos@;
            filhos.push(s);
            proof {
                assert forall|j: int| 0 <= j < filhos@.len() implies coerente(
                    grafo@,
                    #[trigger] filhos@[j],
                ) && permutacao(filhos@[j].rota(), grafo@.len()) by {
                    if j < velho.len() {
                        assert(filhos@[j] == velho[j]);
                    }
                }
                assert(filhos@.len() == volta * pais@.len() + i + 1);
                assert(volta == 0 || volta * pais@.len() == pais@.len());
                assert forall|t: int| 0 <= t < filhos@.len() implies #[trigger] filho_na_posicao(
                    pop@,
                    pais@,
                    mut_chance,
                    cruzamento,
                    politica,
                    filhos@,
                    t,
                ) by {
                    if t < velho.len() {
                        assert(filhos@[t] == velho[t]);
                        assert(filho_na_posicao(pop@, pais@, mut_chance, cruzamento, politica, velho, t));
                    } else {
                        assert(filhos@[t] == s);
                    }
                }
            }
            i += 1;
        }
        assert(filhos@.len() == (volta + 1) * pais@.len()) by (nonlinear_arith)
            requires
                filhos@.len() == volta * pais@.len() + pais@.len(),
        ;
        volta += 1;
    }
    filhos
}

/// Genetic algorithm: evolves a population of `pop_tam` random tours by
/// roulette selection of `ceil(xo_chance * pop_tam)` parent pairs, crossover,
/// mutation and elitist replacement, until `max_iter`
/// generations pass without improvement or `timeout` seconds elapse. Returns
/// the best tour and the generation at which it was found; `None` when the
/// initial population cannot be built, which cannot happen when every edge
/// exists.
pub fn solve(
    rng: &mut XorShiftRng,
    grafo: &Grafo,
    timeout: u64,
    max_iter: u64,
    pop_tam: usize,
    xo_chance: Taxa,
    mut_chance: Taxa,
    cruzamento: Cruzamento,
    politica: Mutacao,
) -> (r: Option<(Solucao, u64)>)
    requires
        grafo@.len() > 0,
        0 < pop_tam <= usize::MAX / 3,
    ensures
        completo(grafo@) ==> r is Some,
        r matches Some((s, it)) ==> coerente(grafo@, s) && permutacao(s.rota(), grafo@.len()),
        r matches Some((s, it)) ==> exists|e: EstadoAg|
            #[trigger] e.encerrado(timeout, s, it) && e.max_iter_spec() == max_iter,
{
    let mut estado = match EstadoAg::inicia(rng, grafo, pop_tam, xo_chance, max_iter) {
        Some(e) => e,
        None => {
            return None;
        },
    };
    let t = agora();
    loop
        invariant
            grafo@.len() > 0,
            estado.valido(),
            populacao_valida(grafo@, estado.populacao_spec()),
            estado.max_iter_spec() == max_iter,
        ensures
            estado.valido(),
            populacao_valida(grafo@, estado.populacao_spec()),
            estado.max_iter_spec() == max_iter,
            exists|seg: u64| #[trigger] estado.parou_em(seg, timeout),
        decreases u64::MAX - estado.geracao(),
    {
        let segundos = segundos_desde(&t);
        if !estado.continua(segundos, timeout) {
            assert(estado.parou_em(segundos, timeout));
            break ;
        }
        let pais = estado.sorteia_pais(rng);
        let filhos = recombinacao(
            rng,
            grafo,
            estado.populacao(),
            &pais,
            mut_chance,
            cruzamento,
            politica,
        );
        let ghost anterior = estado.populacao_spec();
        let ghost descendentes = filhos@;
        estado.avanca(filhos);
        proof {
            let pop = estado.populacao_spec();
            assert forall|j: int| 0 <= j < pop.len() implies coerente(grafo@, #[trigger] pop[j])
                && permutacao(pop[j].rota(), grafo@.len()) by {
                assert(pop.contains(pop[j]));
                if anterior.contains(pop[j]) {
                    let k = choose|k: int| 0 <= k < anterior.len() && anterior[k] == pop[j];
                } else {
                    let k = choose|k: int| 0 <= k < descendentes.len() && descendentes[k] == pop[j];
                }
            }
        }
    }
    let ghost pop = estado.populacao_spec();
    let ghost final_ = estado;
    let r = estado.melhor();
    proof {
        assert(coerente(grafo@, pop[0]) && permutacao(pop[0].rota(), grafo@.len()));
        assert(final_.encerrado(timeout, r.0, r.1));
    }
    Some(r)
}

/// A genetic-algorithm run between generations: the population, sorted by
/// objective, and the generation counters of the stopping rule.
pub struct EstadoAg {
    pop: Vec<Solucao>,
    pop_tam: usize,
    xo_num: usize,
    max_iter: u64,
    it: u64,
    it_melhor: u64,
}

impl EstadoAg {
    pub closed spec fn populacao_spec(&self) -> Seq<Solucao> {
        self.pop@
    }

    /// Number of generations run so far.
    pub closed spec fn geracao(&self) -> u64 {
        self.it
    }

    /// Generation at which the best objective last improved.
    pub closed spec fn geracao_melhor(&self) -> u64 {
        self.it_melhor
    }

    pub closed spec fn max_iter_spec(&self) -> u64 {
        self.max_iter
    }

    pub closed spec fn pop_tam_spec(&self) -> usize {
        self.pop_tam
    }

    /// Parent pairs drawn per generation.
    pub closed spec fn xo_num_spec(&self) -> usize {
        self.xo_num
    }

    /// The stopping rule says stop when the clock reads `segundos`.
    pub open spec fn parou_em(&self, segundos: u64, timeout: u64) -> bool {
        !(self.geracao() - self.geracao_melhor() < self.max_iter_spec() && self.geracao()
            < u64::MAX && segundos < timeout)
    }

    /// A finished run: the stopping rule said stop at some clock reading, and
    /// `s` is the first (best) tour of the population, found at generation `it`.
    pub open spec fn encerrado(&self, timeout: u64, s: Solucao, it: u64) -> bool {
        &&& self.valido()
        &&& exists|seg: u64| #[trigger] self.parou_em(seg, timeout)
        &&& s == self.populacao_spec()[0]
        &&& it == self.geracao_melhor()
        &&& forall|i: int|
            0 <= i < self.populacao_spec().len() ==> s.custo() <= #[trigger] self.populacao_spec()[i].custo()
    }

    /// The population is sorted, has `pop_tam > 0` tours, and the counters agree.
    pub closed spec fn valido(&self) -> bool {
        &&& 0 < self.pop_tam <= usize::MAX / 3
        &&& self.xo_num <= self.pop_tam
        &&& self.pop@.len() == self.pop_tam
        &&& ordenada(self.pop@)
        &&& self.it_melhor <= self.it
    }

    /// Starts a run from a random population of `pop_tam` tours, which will
    /// draw `ceil(xo_chance * pop_tam)` parent pairs per generation; `None`
    /// when the population cannot be built.
    pub fn inicia(
        rng: &mut XorShiftRng,
        grafo: &Grafo,
        pop_tam: usize,
        xo_chance: Taxa,
        max_iter: u64,
    ) -> (r: Option<EstadoAg>)
        requires
            grafo@.len() > 0,
            0 < pop_tam <= usize::MAX / 3,
        ensures
            completo(grafo@) ==> r is Some,
            r matches Some(e) ==> {
                &&& e.valido()
                &&& populacao_valida(grafo@, e.populacao_spec())
                &&& e.geracao() == 0
                &&& e.geracao_melhor() == 0
                &&& e.max_iter_spec() == max_iter
                &&& e.pop_tam_spec() == pop_tam
                &&& e.xo_num_spec() == crate::taxa::teto_fracao(
                    pop_tam as int,
                    xo_chance.numerador() as int,
                    xo_chance.denominador() as int,
                )
            },
    {
        match populacao_inicial(rng, grafo, pop_tam) {
            Some(pop) => {
                let xo_num = xo_chance.teto(pop_tam);
                Some(EstadoAg { pop, pop_tam, xo_num, max_iter, it: 0, it_melhor: 0 })
            },
            None => None,
        }
    }

    /// Whether another generation runs: fewer than `max_iter` generations have
    /// passed since the last improvement, the counter has room, and fewer than
    /// `timeout` seconds have elapsed.
    pub fn continua(&self, segundos: u64, timeout: u64) -> (r: bool)
        requires
            self.valido(),
        ensures
            r == (self.geracao() - self.geracao_melhor() < self.max_iter_spec() && self.geracao()
                < u64::MAX && segundos < timeout),
            r == !self.parou_em(segundos, timeout),
    {
        self.it - self.it_melhor < self.max_iter && self.it < u64::MAX && segundos < timeout
    }

    pub fn populacao(&self) -> (r: &Vec<Solucao>)
        ensures
            r@ == self.populacao_spec(),
    {
        &self.pop
    }

    /// Draws this generation's parent pairs from the selection wheel.
    pub fn sorteia_pais(&self, rng: &mut XorShiftRng) -> (r: Vec<(usize, usize)>)
        requires
            self.valido(),
        ensures
            r@.len() == self.xo_num_spec(),
            2 * r@.len() <= usize::MAX,
            forall|i: int|
                0 <= i < r@.len() ==> #[trigger] r@[i].0 < self.populacao_spec().len() && r@[i].1
                    < self.populacao_spec().len(),
    {
        selecao(rng, &self.pop, self.xo_num)
    }

    /// Ends a generation: elitist replacement with `filhos`, and the counters
    /// move on; the generation of the best is updated when the best objective
    /// strictly improved.
    pub fn avanca(&mut self, filhos: Vec<Solucao>)
        requires
            old(self).valido(),
            filhos@.len() <= 2 * old(self).xo_num_spec(),
            old(self).geracao() < u64::MAX,
        ensures
            final(self).valido(),
            eh_proxima_geracao(
                old(self).populacao_spec(),
                filhos@,
                old(self).pop_tam_spec() as nat,
                final(self).populacao_spec(),
            ),
            final(self).populacao_spec()[0].custo() <= old(self).populacao_spec()[0].custo(),
            forall|x: Solucao| #[trigger] final(self).populacao_spec().contains(x) ==> old(
                self,
            ).populacao_spec().contains(x) || filhos@.contains(x),
            final(self).geracao() == old(self).geracao() + 1,
            final(self).geracao_melhor() == if final(self).populacao_spec()[0].custo() < old(
                self,
            ).populacao_spec()[0].custo() {
                old(self).geracao()
            } else {
                old(self).geracao_melhor()
            },
            final(self).max_iter_spec() == old(self).max_iter_spec(),
            final(self).pop_tam_spec() == old(self).pop_tam_spec(),
            final(self).xo_num_spec() == old(self).xo_num_spec(),
    {
        let melhor_antes = self.pop[0].fo();
        let mut pop: Vec<Solucao> = Vec::new();
        std::mem::swap(&mut pop, &mut self.pop);
        let ghost anterior = pop@;
        let proxima = proxima_geracao(pop, filhos, self.pop_tam);
        proof {
            lemma_elitismo(anterior, filhos@, self.pop_tam as nat, proxima@);
        }
        self.pop = proxima;
        if self.pop[0].fo() < melhor_antes {
            self.it_melhor = self.it;
        }
        self.it = self.it + 1;
    }

    /// The best tour of the run and the generation at which it was found.
    pub fn melhor(self) -> (r: (Solucao, u64))
        requires
            self.valido(),
        ensures
            r.0 == self.populacao_spec()[0],
            r.1 == self.geracao_melhor(),
            forall|i: int|
                0 <= i < self.populacao_spec().len() ==> r.0.custo() <= #[trigger] self.populacao_spec()[i].custo(),
    {
        let mut pop = self.pop;
        let r = pop.swap_remove(0);
        (r, self.it_melhor)
    }
}

/// Genetic algorithm configuration over a graph.
pub struct Ag<'a> {
    grafo: &'a Grafo,
    timeout: u64,
    max_iter: u64,
    pop_tam: usize,
    xo_chance: Taxa,
    mut_chance: Taxa,
    cruzamento: Cruzamento,
    mutacao: Mutacao,
}

impl<'a> Ag<'a> {
    pub closed spec fn cruzamento_spec(&self) -> Cruzamento {
        self.cruzamento
    }

    pub closed spec fn mutacao_spec(&self) -> Mutacao {
        self.mutacao
    }

    pub closed spec fn grafo_spec(&self) -> Seq<Seq<Peso>> {
        self.grafo@
    }

    pub closed spec fn timeout_spec(&self) -> u64 {
        self.timeout
    }

    pub closed spec fn max_iter_spec(&self) -> u64 {
        self.max_iter
    }

    pub closed spec fn pop_tam_spec(&self) -> usize {
        self.pop_tam
    }

    pub closed spec fn xo_chance_spec(&self) -> Taxa {
        self.xo_chance
    }

    pub closed spec fn mut_chance_spec(&self) -> Taxa {
        self.mut_chance
    }

    /// Defaults: no time limit, a thousand generations without improvement, a
    /// population of two hundred, `xo_chance = 4/5`, `mut_chance = 1/10`, PMX
    /// crossover and swap mutation.
    pub fn new(grafo: &'a Grafo) -> (r: Ag<'a>)
        ensures
            r.grafo_spec() == grafo@,
            r.timeout_spec() == u64::MAX,
            r.max_iter_spec() == 1000,
            r.pop_tam_spec() == 200,
            r.xo_chance_spec().numerador() == 4,
            r.xo_chance_spec().denominador() == 5,
            r.mut_chance_spec().numerador() == 1,
            r.mut_chance_spec().denominador() == 10,
            r.cruzamento_spec() == Cruzamento::Pmx,
            r.mutacao_spec() == Mutacao::Troca,
    {
        let xo_chance = Taxa::new(4, 5).unwrap();
        let mut_chance = Taxa::new(1, 10).unwrap();
        Ag {
            grafo,
            timeout: u64::MAX,
            max_iter: 1000,
            pop_tam: 200,
            xo_chance,
            mut_chance,
            cruzamento: Cruzamento::Pmx,
            mutacao: Mutacao::Troca,
        }
    }

    pub fn cruzamento(self, cruzamento: Cruzamento) -> (r: Ag<'a>)
        ensures
            r.grafo_spec() == self.grafo_spec(),
            r.timeout_spec() == self.timeout_spec(),
            r.max_iter_spec() == self.max_iter_spec(),
            r.pop_tam_spec() == self.pop_tam_spec(),
            r.xo_chance_spec() == self.xo_chance_spec(),
            r.mut_chance_spec() == self.mut_chance_spec(),
            r.cruzamento_spec() == cruzamento,
            r.mutacao_spec() == self.mutacao_spec(),
    {
        Ag { cruzamento, ..self }
    }

    pub fn mutacao(self, mutacao: Mutacao) -> (r: Ag<'a>)
        ensures
            r.grafo_spec() == self.grafo_spec(),
            r.timeout_spec() == self.timeout_spec(),
            r.max_iter_spec() == self.max_iter_spec(),
            r.pop_tam_spec() == self.pop_tam_spec(),
            r.xo_chance_spec() == self.xo_chance_spec(),
            r.mut_chance_spec() == self.mut_chance_spec(),
            r.cruzamento_spec() == self.cruzamento_spec(),
            r.mutacao_spec() == mutacao,
    {
        Ag { mutacao, ..self }
    }

    /// Runs the genetic algorithm with this configuration.
    pub fn solve(&self, rng: &mut XorShiftRng) -> (r: Option<(Solucao, u64)>)
        requires
            self.grafo_spec().len() > 0,
            0 < self.pop_tam_spec() <= usize::MAX / 3,
        ensures
            completo(self.grafo_spec()) ==> r is Some,
            r matches Some((s, it)) ==> coerente(self.grafo_spec(), s) && permutacao(
                s.rota(),
                self.grafo_spec().len(),
            ),
            r matches Some((s, it)) ==> exists|e: EstadoAg|
                #[trigger] e.encerrado(self.timeout_spec(), s, it) && e.max_iter_spec()
                    == self.max_iter_spec(),
    {
        let r = solve(
            rng,
            self.grafo,
            self.timeout,
            self.max_iter,
            self.pop_tam,
            self.xo_chance,
            self.mut_chance,
            self.cruzamento,
            self.mutacao,
        );
        proof {
            if r is Some {
                let par = r->0;
                let s = par.0;
                let it = par.1;
                let e = choose|e: EstadoAg|
                    #[trigger] e.encerrado(self.timeout, s, it) && e.max_iter_spec() == self.max_iter;
                assert(e.encerrado(self.timeout_spec(), s, it));
            }
        }
        r
    }

    /// Time limit in whole seconds.
    pub fn timeout(self, timeout: u64) -> (r: Ag<'a>)
        ensures
            r.grafo_spec() == self.grafo_spec(),
            r.timeout_spec() == timeout,
            r.max_iter_spec() == self.max_iter_spec(),
            r.pop_tam_spec() == self.pop_tam_spec(),
            r.xo_chance_spec() == self.xo_chance_spec(),
            r.mut_chance_spec() == self.mut_chance_spec(),
            r.cruzamento_spec() == self.cruzamento_spec(),
            r.mutacao_spec() == self.mutacao_spec(),
    {
        Ag { timeout, ..self }
    }

    pub fn max_iter(self, max_iter: u64) -> (r: Ag<'a>)
        ensures
            r.grafo_spec() == self.grafo_spec(),
            r.timeout_spec() == self.timeout_spec(),
            r.max_iter_spec() == max_iter,
            r.pop_tam_spec() == self.pop_tam_spec(),
            r.xo_chance_spec() == self.xo_chance_spec(),
            r.mut_chance_spec() == self.mut_chance_spec(),
            r.cruzamento_spec() == self.cruzamento_spec(),
            r.mutacao_spec() == self.mutacao_spec(),
    {
        Ag { max_iter, ..self }
    }

    pub fn pop_tam(self, pop_tam: usize) -> (r: Ag<'a>)
        ensures
            r.grafo_spec() == self.grafo_spec(),
            r.timeout_spec() == self.timeout_spec(),
            r.max_iter_spec() == self.max_iter_spec(),
            r.pop_tam_spec() == pop_tam,
            r.xo_chance_spec() == self.xo_chance_spec(),
            r.mut_chance_spec() == self.mut_chance_spec(),
            r.cruzamento_spec() == self.cruzamento_spec(),
            r.mutacao_spec() == self.mutacao_spec(),
    {
        Ag { pop_tam, ..self }
    }

    pub fn xo_chance(self, xo_chance: Taxa) -> (r: Ag<'a>)
        ensures
            r.grafo_spec() == self.grafo_spec(),
            r.timeout_spec() == self.timeout_spec(),
            r.max_iter_spec() == self.max_iter_spec(),
            r.pop_tam_spec() == self.pop_tam_spec(),
            r.xo_chance_spec() == xo_chance,
            r.mut_chance_spec() == self.mut_chance_spec(),
            r.cruzamento_spec() == self.cruzamento_spec(),
            r.mutacao_spec() == self.mutacao_spec(),
    {
        Ag { xo_chance, ..self }
    }

    pub fn mut_chance(self, mut_chance: Taxa) -> (r: Ag<'a>)
        ensures
            r.grafo_spec() == self.grafo_spec(),
            r.timeout_spec() == self.timeout_spec(),
            r.max_iter_spec() == self.max_iter_spec(),
            r.pop_tam_spec() == self.pop_tam_spec(),
            r.xo_chance_spec() == self.xo_chance_spec(),
            r.mut_chance_spec() == mut_chance,
            r.cruzamento_spec() == self.cruzamento_spec(),
            r.mutacao_spec() == self.mutacao_spec(),
    {
        Ag { mut_chance, ..self }
    }
}

} // verus!
