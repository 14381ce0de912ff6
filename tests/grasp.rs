use caixeiro::grafo::{is_factivel, Grafo, Solucao, INF};
use caixeiro::grasp::{
    aceita, busca_local, continua, busca_local_vizinho, construcao, solve, two_opt_loop, two_opt_swap,
    vizinho_mais_proximo, Grasp,
};
use caixeiro::taxa::Taxa;
use rand::{SeedableRng, XorShiftRng};

fn rng() -> XorShiftRng {
    XorShiftRng::from_seed([11, 22, 33, 44])
}

fn todas_inversoes(c: &Vec<usize>) -> Vec<Vec<usize>> {
    let mut r = Vec::new();
    for i in 0..c.len() {
        for k in i + 1..=c.len() {
            r.push(two_opt_swap(c.clone(), i, k));
        }
    }
    r
}

#[test]
fn two_opt_swap_inverte_trecho() {
    assert_eq!(two_opt_swap(vec![0, 1, 2, 3, 4], 1, 4), vec![0, 3, 2, 1, 4]);
    assert_eq!(two_opt_swap(vec![0, 1, 2, 3, 4], 0, 5), vec![4, 3, 2, 1, 0]);
    assert_eq!(two_opt_swap(vec![0, 1, 2, 3, 4], 2, 3), vec![0, 1, 2, 3, 4]);
    assert_eq!(two_opt_swap(vec![0, 1, 2, 3, 4], 2, 2), vec![0, 1, 2, 3, 4]);
}

#[test]
fn two_opt_loop_melhora_e_para() {
    let g = Grafo::toy();
    let ruim = Solucao::new(&g, vec![0, 2, 1, 3]);
    let melhor = two_opt_loop(&g, &ruim).expect("an improving reversal exists");
    assert_eq!(melhor.fo(), 8);
    let otimo = Solucao::new(&g, vec![0, 1, 2, 3]);
    assert!(two_opt_loop(&g, &otimo).is_none());
}

#[test]
fn descida_termina_em_otimo_local() {
    let g = Grafo::from_matriz(vec![
        vec![0, 3, 9, 4, 7],
        vec![3, 0, 2, 8, 6],
        vec![9, 2, 0, 5, 1],
        vec![4, 8, 5, 0, 3],
        vec![7, 6, 1, 3, 0],
    ])
    .unwrap();
    let inicio = Solucao::new(&g, vec![0, 2, 4, 1, 3]);
    let r = busca_local_vizinho(&g, &inicio);
    assert!(r.fo() <= inicio.fo());
    assert!(is_factivel(r.caminho(), 5));
    for c in todas_inversoes(r.caminho()) {
        assert!(Solucao::calcula_fo(&g, &c) >= r.fo());
    }
}

#[test]
fn busca_local_sem_vizinhos_devolve_entrada() {
    let g = Grafo::toy();
    let s = Solucao::new(&g, vec![0, 2, 1, 3]);
    let r = busca_local(&g, s, 0);
    assert_eq!(r.caminho(), &vec![0, 2, 1, 3]);
    assert_eq!(r.fo(), 13);
    let r = busca_local(&g, Solucao::new(&g, vec![0, 2, 1, 3]), 3);
    assert_eq!(r.fo(), 8);
}

#[test]
fn construcao_gera_permutacao() {
    let g = Grafo::toy();
    let mut rng = rng();
    for num in 1..=4 {
        let alfa = Taxa::new(num, 4).unwrap();
        let c = vizinho_mais_proximo(&mut rng, &g, alfa);
        assert!(is_factivel(&c, 4));
        let s = construcao(&mut rng, &g, alfa);
        assert!(is_factivel(s.caminho(), 4));
        assert_eq!(s.fo(), Solucao::calcula_fo(&g, s.caminho()));
    }
}

#[test]
fn construcao_gulosa_segue_o_mais_proximo() {
    // with alfa small, the list holds only the nearest unvisited vertex
    let g = Grafo::from_matriz(vec![
        vec![0, 1, 50, 50],
        vec![50, 0, 1, 50],
        vec![50, 50, 0, 1],
        vec![1, 50, 50, 0],
    ])
    .unwrap();
    let mut rng = rng();
    let alfa = Taxa::new(1, 100).unwrap();
    for _ in 0..10 {
        let c = vizinho_mais_proximo(&mut rng, &g, alfa);
        for w in c.windows(2) {
            assert_eq!((w[0] + 1) % 4, w[1]);
        }
    }
}

#[test]
fn grasp_converge_no_grafo_toy() {
    let g = Grafo::toy();
    let mut rng = rng();
    let alfa = Taxa::new(1, 2).unwrap();
    let (s, _) = solve(&mut rng, &g, alfa, u64::MAX, 10, 100);
    assert_eq!(s.fo(), 8);
    assert!(is_factivel(s.caminho(), 4));
}

#[test]
fn grasp_dois_vertices() {
    let g = Grafo::from_matriz(vec![vec![0, 5], vec![5, 0]]).unwrap();
    let mut rng = rng();
    let (s, _) = Grasp::new(&g).max_iter(100).solve(&mut rng);
    assert_eq!(s.fo(), 10);
    assert!(s.caminho() == &vec![0, 1] || s.caminho() == &vec![1, 0]);
}

#[test]
fn grasp_sem_iteracoes_devolve_vazia() {
    let g = Grafo::toy();
    let mut rng = rng();
    let (s, it) = Grasp::new(&g).max_iter(0).solve(&mut rng);
    assert_eq!(s.fo(), INF);
    assert_eq!(it, 0);
}

#[test]
fn grasp_builder() {
    let g = Grafo::toy();
    let mut rng = rng();
    let alfa = Taxa::new(1, 1).unwrap();
    let (s, it) = Grasp::new(&g)
        .alfa(alfa)
        .timeout(60)
        .num_vizinhos(2)
        .max_iter(30)
        .solve(&mut rng);
    assert_eq!(s.fo(), 8);
    assert!(it < 30 + 30);
}

#[test]
fn melhor_acompanhado_nunca_sobe() {
    let g = Grafo::toy();
    let candidatos = vec![vec![0, 2, 1, 3], vec![0, 1, 2, 3], vec![1, 3, 0, 2], vec![3, 2, 1, 0]];
    let mut melhor = Solucao::vazia();
    let mut alvo = 0;
    let mut historico = vec![melhor.fo()];
    for (it, c) in candidatos.into_iter().enumerate() {
        let (m, a) = aceita(melhor, alvo, Solucao::new(&g, c), it as u64);
        melhor = m;
        alvo = a;
        historico.push(melhor.fo());
    }
    assert_eq!(historico, vec![INF, 13, 8, 8, 8]);
    // equal objectives do not replace the best: it was found at iteration 1
    assert_eq!(alvo, 1);
    assert_eq!(melhor.caminho(), &vec![0, 1, 2, 3]);
}

#[test]
fn regra_de_parada_grasp() {
    assert!(continua(2, 1, 2, 0, 10));
    assert!(!continua(3, 1, 2, 0, 10));
    assert!(!continua(2, 1, 2, 10, 10));
    assert!(!continua(u64::MAX, u64::MAX, 5, 0, 10));
    assert!(!continua(0, 0, 0, 0, 10));
}
