//! The distance matrix, tours and their objective, and feasibility.

use vstd::prelude::*;

verus! {

broadcast use vstd::seq_lib::group_to_multiset_ensures, vstd::multiset::group_multiset_axioms;

/// Distance that stands for "no edge", and the objective of an infeasible tour.
pub const INF: u64 = 1000000000;

pub type Peso = u64;

pub type Vertice = usize;

pub type Caminho = Vec<Vertice>;

/// Dense square distance matrix, indexed by vertex ids `0..n`.
pub struct Grafo(Vec<Vec<Peso>>);

/// Number of times `v` occurs in `c`.
pub open spec fn ocorrencias(c: Seq<Vertice>, v: Vertice) -> nat {
    c.to_multiset().count(v)
}

/// A feasible tour has exactly `n` entries and holds each vertex of `0..n` once.
pub open spec fn factivel(c: Seq<Vertice>, n: nat) -> bool {
    &&& c.len() == n
    &&& forall|v: Vertice| v < n ==> #[trigger] ocorrencias(c, v) == 1
}

/// `c` lists the vertices `0..n` in some order, each once.
pub open spec fn permutacao(c: Seq<Vertice>, n: nat) -> bool {
    &&& c.len() == n
    &&& forall|i: int| 0 <= i < c.len() ==> #[trigger] c[i] < n
    &&& c.no_duplicates()
}

/// Weight of the edge from `a` to `b`.
pub open spec fn peso(g: Seq<Seq<Peso>>, a: Vertice, b: Vertice) -> int {
    g[a as int][b as int] as int
}

/// Sum of the weights of the first `k` consecutive edges of `c`.
pub open spec fn soma_arestas(g: Seq<Seq<Peso>>, c: Seq<Vertice>, k: int) -> int
    decreases k,
{
    if k <= 0 {
        0
    } else {
        soma_arestas(g, c, k - 1) + peso(g, c[k - 1], c[k])
    }
}

/// Length of the closed cycle that visits `c` in order and returns to its start.
pub open spec fn comprimento_ciclo(g: Seq<Seq<Peso>>, c: Seq<Vertice>) -> int {
    if c.len() == 0 {
        0
    } else {
        soma_arestas(g, c, c.len() - 1) + peso(g, c.last(), c[0])
    }
}

/// Objective of a tour: `INF` when infeasible, else the cycle length, capped
/// at `u64::MAX`.
pub open spec fn fo_de(g: Seq<Seq<Peso>>, c: Seq<Vertice>) -> u64 {
    if !factivel(c, g.len()) {
        INF
    } else if comprimento_ciclo(g, c) > u64::MAX {
        u64::MAX
    } else {
        comprimento_ciclo(g, c) as u64
    }
}

/// Number of entries of `c` that are `m` or more.
spec fn acima(c: Seq<Vertice>, m: nat) -> nat
    decreases c.len(),
{
    if c.len() == 0 {
        0
    } else {
        acima(c.drop_last(), m) + if c.last() >= m {
            1nat
        } else {
            0nat
        }
    }
}

/// Sum over the vertices `0..m` of their occurrences in `c`.
spec fn soma_ocorrencias(c: Seq<Vertice>, m: nat) -> nat
    decreases m,
{
    if m == 0 {
        0
    } else {
        soma_ocorrencias(c, (m - 1) as nat) + ocorrencias(c, (m - 1) as Vertice)
    }
}

proof fn lemma_soma_ocorrencias_push(c: Seq<Vertice>, x: Vertice, m: nat)
    requires
        m <= usize::MAX,
    ensures
        soma_ocorrencias(c.push(x), m) == soma_ocorrencias(c, m) + if x < m {
            1nat
        } else {
            0nat
        },
    decreases m,
{
    if m > 0 {
        lemma_soma_ocorrencias_push(c, x, (m - 1) as nat);
        assert(ocorrencias(c.push(x), (m - 1) as Vertice) == ocorrencias(c, (m - 1) as Vertice) + if x
            == m - 1 {
            1nat
        } else {
            0nat
        });
    }
}

proof fn lemma_soma_ocorrencias_vazia(c: Seq<Vertice>, m: nat)
    requires
        c.len() == 0,
    ensures
        soma_ocorrencias(c, m) == 0,
    decreases m,
{
    if m > 0 {
        lemma_soma_ocorrencias_vazia(c, (m - 1) as nat);
    }
}

/// The entries below `m` and those at or above it together make up `c`.
proof fn lemma_contagem_total(c: Seq<Vertice>, m: nat)
    requires
        m <= usize::MAX,
    ensures
        soma_ocorrencias(c, m) + acima(c, m) == c.len(),
    decreases c.len(),
{
    if c.len() == 0 {
        lemma_soma_ocorrencias_vazia(c, m);
    } else {
        let d = c.drop_last();
        lemma_contagem_total(d, m);
        assert(d.push(c.last()) == c);
        lemma_soma_ocorrencias_push(d, c.last(), m);
    }
}

proof fn lemma_acima_zero(c: Seq<Vertice>, m: nat)
    ensures
        acima(c, m) == 0 <==> forall|i: int| 0 <= i < c.len() ==> #[trigger] c[i] < m,
    decreases c.len(),
{
    if c.len() > 0 {
        let d = c.drop_last();
        lemma_acima_zero(d, m);
        if acima(c, m) == 0 {
            assert forall|i: int| 0 <= i < c.len() implies #[trigger] c[i] < m by {
                if i < d.len() {
                    assert(d[i] == c[i]);
                }
            }
        }
        if forall|i: int| 0 <= i < c.len() ==> #[trigger] c[i] < m {
            assert forall|i: int| 0 <= i < d.len() implies #[trigger] d[i] < m by {
                assert(d[i] == c[i]);
            }
        }
    }
}

/// When no vertex below `m` occurs twice, the sum reaches `m` only if each occurs once.
proof fn lemma_soma_limitada(c: Seq<Vertice>, m: nat)
    requires
        m <= usize::MAX,
        forall|v: Vertice| v < m ==> #[trigger] ocorrencias(c, v) <= 1,
    ensures
        soma_ocorrencias(c, m) <= m,
        soma_ocorrencias(c, m) == m ==> forall|v: Vertice| v < m ==> #[trigger] ocorrencias(c, v)
            == 1,
    decreases m,
{
    if m > 0 {
        lemma_soma_limitada(c, (m - 1) as nat);
        assert(ocorrencias(c, (m - 1) as Vertice) <= 1);
    }
}

proof fn lemma_soma_uns(c: Seq<Vertice>, m: nat)
    requires
        m <= usize::MAX,
        forall|v: Vertice| v < m ==> #[trigger] ocorrencias(c, v) == 1,
    ensures
        soma_ocorrencias(c, m) == m,
    decreases m,
{
    if m > 0 {
        lemma_soma_uns(c, (m - 1) as nat);
        assert(ocorrencias(c, (m - 1) as Vertice) == 1);
    }
}

/// A feasible tour is exactly a duplicate-free listing of `0..n`.
pub proof fn lemma_factivel_sse_permutacao(c: Seq<Vertice>, n: nat)
    requires
        c.len() <= usize::MAX,
    ensures
        factivel(c, n) <==> permutacao(c, n),
{
    if factivel(c, n) {
        lemma_soma_uns(c, n);
        lemma_contagem_total(c, n);
        lemma_acima_zero(c, n);
        assert forall|x: Vertice| c.to_multiset().contains(x) implies c.to_multiset().count(x)
            == 1 by {
            assert(c.contains(x));
            let i = choose|i: int| 0 <= i < c.len() && c[i] == x;
            assert(c[i] < n);
            assert(ocorrencias(c, x) == 1);
        }
        c.lemma_multiset_has_no_duplicates_conv();
    }
    if permutacao(c, n) {
        c.lemma_multiset_has_no_duplicates();
        assert forall|v: Vertice| v < n implies #[trigger] ocorrencias(c, v) <= 1 by {
            if c.to_multiset().contains(v) {
            }
        }
        lemma_acima_zero(c, n);
        lemma_contagem_total(c, n);
        lemma_soma_limitada(c, n);
    }
}

/// A duplicate-free sequence that holds every vertex of `0..n` has at least `n` entries.
pub proof fn lemma_cobre_tudo(c: Seq<Vertice>, n: nat)
    requires
        n <= usize::MAX,
        c.no_duplicates(),
        forall|v: Vertice| v < n ==> #[trigger] c.contains(v),
    ensures
        c.len() >= n,
{
    c.lemma_multiset_has_no_duplicates();
    assert forall|v: Vertice| v < n implies #[trigger] ocorrencias(c, v) == 1 by {
        assert(c.contains(v));
        assert(c.to_multiset().count(v) > 0);
    }
    lemma_soma_uns(c, n);
    lemma_contagem_total(c, n);
}

proof fn lemma_soma_arestas_nao_negativa(g: Seq<Seq<Peso>>, c: Seq<Vertice>, k: int)
    ensures
        soma_arestas(g, c, k) >= 0,
    decreases k,
{
    if k > 0 {
        lemma_soma_arestas_nao_negativa(g, c, k - 1);
    }
}

/// The objective of a feasible tour whose length fits in a `u64` is the sum
/// of its consecutive edges plus the closing edge.
pub proof fn lemma_fo_factivel(g: Seq<Seq<Peso>>, c: Seq<Vertice>)
    requires
        factivel(c, g.len()),
        comprimento_ciclo(g, c) <= u64::MAX,
    ensures
        fo_de(g, c) == comprimento_ciclo(g, c),
        c.len() > 0 ==> fo_de(g, c) == soma_arestas(g, c, c.len() - 1) + peso(g, c.last(), c[0]),
{
    lemma_soma_arestas_nao_negativa(g, c, c.len() - 1);
}

impl View for Grafo {
    type V = Seq<Seq<Peso>>;

    closed spec fn view(&self) -> Seq<Seq<Peso>> {
        matriz(self.0@)
    }
}

/// The rows of `m`, each seen as a sequence.
pub open spec fn matriz(m: Seq<Vec<Peso>>) -> Seq<Seq<Peso>> {
    Seq::new(m.len(), |i: int| m[i]@)
}

/// Every row of `g` has as many entries as `g` has rows.
pub open spec fn quadrada(g: Seq<Seq<Peso>>) -> bool {
    forall|i: int| 0 <= i < g.len() ==> #[trigger] g[i].len() == g.len()
}

impl Grafo {
    #[verifier::type_invariant]
    spec fn linhas_completas(self) -> bool {
        forall|i: int| 0 <= i < self.0@.len() ==> #[trigger] self.0@[i]@.len() == self.0@.len()
    }

    /// Builds a graph from a square matrix; `None` when some row has another length.
    pub fn from_matriz(m: Vec<Vec<Peso>>) -> (r: Option<Grafo>)
        ensures
            r is Some <==> quadrada(matriz(m@)),
            r matches Some(g) ==> g@ == matriz(m@),
    {
        let n = m.len();
        let mut i: usize = 0;
        while i < n
            invariant
                n == m.len(),
                i <= n,
                forall|j: int| 0 <= j < i ==> #[trigger] m@[j]@.len() == n,
            decreases n - i,
        {
            if m[i].len() != n {
                assert(matriz(m@)[i as int].len() != n);
                return None;
            }
            i += 1;
        }
        Some(Grafo(m))
    }

    pub fn num_vertices(&self) -> (n: usize)
        ensures
            n == self@.len(),
            quadrada(self@),
    {
        proof {
            use_type_invariant(self);
            assert forall|i: int| 0 <= i < self@.len() implies #[trigger] self@[i].len()
                == self@.len() by {
                assert(self@[i] == self.0@[i]@);
            }
        }
        self.0.len()
    }

    /// Distances from `vertice` to every vertex, indexed by destination.
    pub fn adjacentes(&self, vertice: Vertice) -> (r: &[Peso])
        requires
            vertice < self@.len(),
        ensures
            r@ == self@[vertice as int],
    {
        assert(self@[vertice as int] == self.0[vertice as int]@);
        self.0[vertice].as_slice()
    }

    pub fn distancia(&self, src: Vertice, dst: Vertice) -> (r: Peso)
        requires
            src < self@.len(),
            dst < self@.len(),
        ensures
            r == self@[src as int][dst as int],
    {
        proof {
            use_type_invariant(self);
            assert(self@[src as int] == self.0@[src as int]@);
        }
        self.0[src][dst]
    }

    /// The built-in four-vertex example.
    pub fn toy() -> (g: Grafo)
        ensures
            g@ == seq![
                seq![0u64, 1, 4, 2],
                seq![1u64, 0, 2, 5],
                seq![4u64, 2, 0, 3],
                seq![2u64, 5, 3, 0],
            ],
    {
        let g = Grafo(
            vec![vec![0, 1, 4, 2], vec![1, 0, 2, 5], vec![4, 2, 0, 3], vec![2, 5, 3, 0]],
        );
        assert(g@ =~= seq![
            seq![0u64, 1, 4, 2],
            seq![1u64, 0, 2, 5],
            seq![4u64, 2, 0, 3],
            seq![2u64, 5, 3, 0],
        ]);
        g
    }
}

/// A tour of a graph with its objective, computed once when the tour is built.
pub struct Solucao {
    caminho: Caminho,
    fo: Peso,
}

/// Counts, for each vertex of `0..len`, its occurrences in `caminho`; other
/// entries are not counted.
fn frequencias(caminho: &Caminho) -> (freq: Vec<u64>)
    ensures
        freq@.len() == caminho@.len(),
        forall|v: int| 0 <= v < caminho@.len() ==> #[trigger] freq@[v] == ocorrencias(
            caminho@,
            v as Vertice,
        ),
{
    let n = caminho.len();
    let mut freq: Vec<u64> = Vec::with_capacity(n);
    let mut k: usize = 0;
    while k < n
        invariant
            k <= n,
            freq@.len() == k,
            forall|v: int| 0 <= v < k ==> freq@[v] == 0,
        decreases n - k,
    {
        freq.push(0);
        k += 1;
    }
    let mut i: usize = 0;
    while i < n
        invariant
            n == caminho@.len(),
            i <= n,
            freq@.len() == n,
            forall|v: int| 0 <= v < n ==> #[trigger] freq@[v] == ocorrencias(
                caminho@.take(i as int),
                v as Vertice,
            ),
            forall|v: int| 0 <= v < n ==> #[trigger] freq@[v] <= i,
        decreases n - i,
    {
        let vert = caminho[i];
        assert(caminho@.take(i as int + 1) == caminho@.take(i as int).push(vert));
        if vert < n {
            let atual = freq[vert];
            freq.set(vert, atual + 1);
        }
        i += 1;
    }
    assert(caminho@.take(n as int) == caminho@);
    freq
}

/// Whether `c` has `num_vertices` entries and holds each vertex of
/// `0..num_vertices` exactly once.
pub fn is_factivel(c: &Caminho, num_vertices: usize) -> (r: bool)
    ensures
        r == (c@.len() == num_vertices && forall|v: Vertice|
            v < num_vertices ==> #[trigger] ocorrencias(c@, v) == 1),
        r == factivel(c@, num_vertices as nat),
{
    if c.len() != num_vertices {
        return false;
    }
    let freq = frequencias(c);
    let mut v: usize = 0;
    while v < num_vertices
        invariant
            c@.len() == num_vertices,
            freq@.len() == num_vertices,
            v <= num_vertices,
            forall|u: int| 0 <= u < num_vertices ==> #[trigger] freq@[u] == ocorrencias(
                c@,
                u as Vertice,
            ),
            forall|u: Vertice| u < v ==> #[trigger] ocorrencias(c@, u) == 1,
        decreases num_vertices - v,
    {
        if freq[v] != 1 {
            assert(freq@[v as int] == ocorrencias(c@, v));
            return false;
        }
        v += 1;
    }
    true
}

impl Solucao {
    /// The tour's sequence of vertices.
    pub closed spec fn rota(&self) -> Seq<Vertice> {
        self.caminho@
    }

    /// The tour's cached objective.
    pub closed spec fn custo(&self) -> Peso {
        self.fo
    }

    /// Objective of `caminho` in `grafo`: `INF` when it is not feasible, else
    /// the length of the closed cycle, capped at `u64::MAX`.
    pub fn calcula_fo(grafo: &Grafo, caminho: &Caminho) -> (r: Peso)
        ensures
            r == fo_de(grafo@, caminho@),
    {
        let n = grafo.num_vertices();
        if !is_factivel(caminho, n) {
            return INF;
        }
        if n == 0 {
            return 0;
        }
        proof {
            lemma_factivel_sse_permutacao(caminho@, n as nat);
        }
        let g = Ghost(grafo@);
        let c = Ghost(caminho@);
        let mut soma: u64 = 0;
        let mut i: usize = 0;
        while i + 1 < n
            invariant
                g@ == grafo@,
                c@ == caminho@,
                n == c@.len(),
                n == g@.len(),
                quadrada(g@),
                permutacao(c@, n as nat),
                i < n,
                soma as int == if soma_arestas(g@, c@, i as int) > u64::MAX {
                    u64::MAX as int
                } else {
                    soma_arestas(g@, c@, i as int)
                },
            decreases n - i,
        {
            let w = grafo.distancia(caminho[i], caminho[i + 1]);
            soma = soma.saturating_add(w);
            i += 1;
        }
        let fim = caminho[n - 1];
        let inicio = caminho[0];
        let r = soma.saturating_add(grafo.distancia(fim, inicio));
        proof {
            lemma_soma_arestas_nao_negativa(g@, c@, n - 1);
        }
        r
    }

    /// Builds a tour and computes its objective.
    pub fn new(grafo: &Grafo, caminho: Caminho) -> (r: Solucao)
        ensures
            r.rota() == caminho@,
            r.custo() == fo_de(grafo@, caminho@),
    {
        Solucao { fo: Solucao::calcula_fo(grafo, &caminho), caminho: caminho }
    }

    /// The empty tour, whose objective is `INF`.
    pub fn vazia() -> (r: Solucao)
        ensures
            r.rota() == Seq::<Vertice>::empty(),
            r.custo() == INF,
    {
        Solucao { fo: INF, caminho: vec![] }
    }

    pub fn caminho(&self) -> (r: &Caminho)
        ensures
            r@ == self.rota(),
    {
        &self.caminho
    }

    pub fn fo(&self) -> (r: Peso)
        ensures
            r == self.custo(),
    {
        self.fo
    }

    /// A copy of the tour with the same vertices and the same objective.
    pub fn duplica(&self) -> (r: Solucao)
        ensures
            r.rota() == self.rota(),
            r.custo() == self.custo(),
    {
        Solucao { caminho: self.caminho.clone(), fo: self.fo }
    }
}

/// Number of entries of `perm` before position `m` that are greater than `v`.
pub open spec fn maiores_antes(perm: Seq<Vertice>, v: Vertice, m: int) -> nat
    decreases m,
{
    if m <= 0 {
        0
    } else {
        maiores_antes(perm, v, m - 1) + if perm[m - 1] > v {
            1nat
        } else {
            0nat
        }
    }
}

/// Inversion table of a permutation: entry `i` counts the vertices greater
/// than `i` that come before `i`.
pub fn perm2inv(perm: &Caminho) -> (inv: Caminho)
    requires
        permutacao(perm@, perm@.len()),
    ensures
        inv@.len() == perm@.len(),
        forall|i: int, k: int|
            #![trigger inv@[i], perm@[k]]
            0 <= i < perm@.len() && 0 <= k < perm@.len() && perm@[k] == i ==> inv@[i]
                == maiores_antes(perm@, i as Vertice, k),
{
    let n = perm.len();
    proof {
        lemma_factivel_sse_permutacao(perm@, n as nat);
    }
    let mut inv: Vec<Vertice> = Vec::new();
    let mut i: usize = 0;
    while i < n
        invariant
            n == perm@.len(),
            permutacao(perm@, n as nat),
            factivel(perm@, n as nat),
            i <= n,
            inv@.len() == i,
            forall|a: int, k: int|
                #![trigger inv@[a], perm@[k]]
                0 <= a < i && 0 <= k < n && perm@[k] == a ==> inv@[a] == maiores_antes(
                    perm@,
                    a as Vertice,
                    k,
                ),
        decreases n - i,
    {
        assert(ocorrencias(perm@, i) == 1);
        assert(perm@.contains(i));
        let ghost pos = choose|k: int| 0 <= k < n && perm@[k] == i;
        let mut m: usize = 0;
        let mut conta: usize = 0;
        while perm[m] != i
            invariant
                n == perm@.len(),
                0 <= pos < n,
                perm@[pos] == i,
                m <= pos,
                conta == maiores_antes(perm@, i, m as int),
                conta <= m,
            decreases pos - m,
        {
            if perm[m] > i {
                conta += 1;
            }
            m += 1;
        }
        proof {
            assert forall|k: int| 0 <= k < n && perm@[k] == i implies k == m by {
                if k != m {
                    assert(perm@[k] != perm@[m as int]);
                }
            }
        }
        inv.push(conta);
        i += 1;
    }
    inv
}

} // verus!
