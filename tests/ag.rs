use caixeiro::ag::{
    gen_roleta, get_index_from_roleta, individuo_aleatorio, caminho_aleatorio, mutacao,
    ordered_crossover, ox_com_pontos, pmx_com_pontos, pmx_crossover, populacao_inicial,
    proxima_geracao, recombinacao, selecao, solve, swap_vertices, two_opt_aleatorio, Ag,
    Cruzamento, EstadoAg, Mutacao, ESCALA_ROLETA, pontos, mutacao_com_sorteios, passeio,
};
use caixeiro::grafo::{is_factivel, Grafo, Solucao, INF};
use caixeiro::taxa::Taxa;
use rand::{SeedableRng, XorShiftRng};

fn rng() -> XorShiftRng {
    XorShiftRng::from_seed([5, 6, 7, 8])
}

#[test]
fn ox_mantem_trecho_e_ordem() {
    let p1 = vec![0, 1, 2, 3, 4, 5, 6, 7];
    let p2 = vec![7, 6, 5, 4, 3, 2, 1, 0];
    // segment [2, 5) = 2 3 4 from p1; others, in p2's order: 7 6 5 1 0
    assert_eq!(ox_com_pontos(&p1, &p2, 2, 5), vec![7, 6, 2, 3, 4, 5, 1, 0]);
    assert_eq!(ox_com_pontos(&p1, &p2, 0, 0), p2);
    assert_eq!(ox_com_pontos(&p1, &p2, 3, 3), p2);
}

#[test]
fn pmx_recebe_trecho_do_primeiro_pai() {
    let p1 = vec![0, 1, 2, 3, 4, 5];
    let p2 = vec![5, 4, 3, 2, 1, 0];
    // p1's segment [1, 3) lands in place; 5 and 0 keep p2's positions
    assert_eq!(pmx_com_pontos(&p1, &p2, 1, 3), vec![5, 1, 2, 3, 4, 0]);
    let p2 = vec![3, 4, 5, 0, 1, 2];
    assert_eq!(pmx_com_pontos(&p1, &p2, 1, 4), vec![0, 1, 2, 3, 4, 5]);
    assert_eq!(pmx_com_pontos(&p1, &p2, 2, 2), p2);
}

#[test]
fn pontos_dos_sorteios() {
    assert_eq!(pontos(5, 7, 3), (2, 3));
    assert_eq!(pontos(5, 9, 1), (1, 4));
    assert_eq!(pontos(1, 9, 4), (0, 0));
}

#[test]
fn mutacao_segue_os_sorteios() {
    let c = vec![3, 0, 2, 1, 4];
    let t = Taxa::new(1, 2).unwrap();
    assert_eq!(mutacao_com_sorteios(c.clone(), t, Mutacao::Troca, 0, 1, 8), vec![3, 1, 2, 0, 4]);
    assert_eq!(mutacao_com_sorteios(c.clone(), t, Mutacao::Inversao, 0, 1, 8), vec![3, 2, 0, 1, 4]);
    assert_eq!(mutacao_com_sorteios(c.clone(), t, Mutacao::Troca, 1, 1, 8), c);
}

#[test]
fn passeio_segue_os_sorteios() {
    let g = Grafo::toy();
    assert_eq!(passeio(&g, &vec![1, 0, 0, 0]), Some(vec![1, 0, 2, 3]));
    assert_eq!(passeio(&g, &vec![0, 2, 1, 5]), Some(vec![0, 3, 2, 1]));
    let linha = Grafo::from_matriz(vec![
        vec![0, 1, INF, INF],
        vec![1, 0, 1, INF],
        vec![INF, 1, 0, 1],
        vec![INF, INF, 1, 0],
    ])
    .unwrap();
    assert_eq!(passeio(&linha, &vec![0, 0, 0, 0]), Some(vec![0, 1, 2, 3]));
    // from 1 the walk goes to 0, whose only neighbour is already visited
    assert_eq!(passeio(&linha, &vec![1, 0, 0, 0]), None);
}

#[test]
fn cruzamentos_geram_permutacoes() {
    let mut rng = rng();
    let p1 = vec![4, 2, 0, 7, 1, 6, 3, 5];
    let p2 = vec![1, 5, 6, 2, 7, 0, 4, 3];
    for _ in 0..50 {
        assert!(is_factivel(&pmx_crossover(&mut rng, &p1, &p2), 8));
        assert!(is_factivel(&ordered_crossover(&mut rng, &p1, &p2), 8));
    }
    for b in 0..=8 {
        for e in b..=8 {
            assert!(is_factivel(&pmx_com_pontos(&p1, &p2, b, e), 8));
            assert!(is_factivel(&ox_com_pontos(&p1, &p2, b, e), 8));
        }
    }
}

#[test]
fn mutacoes_preservam_permutacao() {
    let mut rng = rng();
    let c = vec![3, 0, 2, 1, 4];
    let sempre = Taxa::new(1, 1).unwrap();
    let nunca = Taxa::new(0, 1).unwrap();
    for _ in 0..20 {
        assert!(is_factivel(&swap_vertices(&mut rng, c.clone()), 5));
        assert!(is_factivel(&two_opt_aleatorio(&mut rng, c.clone()), 5));
        assert!(is_factivel(&mutacao(&mut rng, c.clone(), sempre, Mutacao::Troca), 5));
        assert!(is_factivel(&mutacao(&mut rng, c.clone(), sempre, Mutacao::Inversao), 5));
        assert_eq!(mutacao(&mut rng, c.clone(), nunca, Mutacao::Troca), c);
        assert_eq!(mutacao(&mut rng, c.clone(), nunca, Mutacao::Inversao), c);
    }
}

#[test]
fn roleta_acumula_pesos_inversos() {
    let g = Grafo::toy();
    let pop = vec![Solucao::new(&g, vec![0, 1, 2, 3]), Solucao::new(&g, vec![0, 2, 1, 3])];
    let roleta = gen_roleta(&pop);
    let a = (ESCALA_ROLETA / 8) as u128;
    let b = (ESCALA_ROLETA / 13) as u128;
    assert_eq!(roleta, vec![a, a + b]);
    assert_eq!(get_index_from_roleta(&roleta, 0), 0);
    assert_eq!(get_index_from_roleta(&roleta, a - 1), 0);
    assert_eq!(get_index_from_roleta(&roleta, a), 1);
    assert_eq!(get_index_from_roleta(&roleta, a + b), 0);
}

#[test]
fn selecao_sorteia_pares_validos() {
    let g = Grafo::toy();
    let mut rng = rng();
    let pop = populacao_inicial(&mut rng, &g, 6).unwrap();
    let pais = selecao(&mut rng, &pop, 9);
    assert_eq!(pais.len(), 9);
    assert!(pais.iter().all(|&(a, b)| a < 6 && b < 6));
}

#[test]
fn populacao_inicial_ordenada_e_factivel() {
    let g = Grafo::toy();
    let mut rng = rng();
    let pop = populacao_inicial(&mut rng, &g, 30).unwrap();
    assert_eq!(pop.len(), 30);
    for w in pop.windows(2) {
        assert!(w[0].fo() <= w[1].fo());
    }
    assert!(pop.iter().all(|s| is_factivel(s.caminho(), 4)));
}

#[test]
fn caminho_aleatorio_evita_arestas_inexistentes() {
    let g = Grafo::from_matriz(vec![
        vec![0, 1, INF, INF],
        vec![1, 0, 1, INF],
        vec![INF, 1, 0, 1],
        vec![INF, INF, 1, 0],
    ])
    .unwrap();
    let mut rng = rng();
    let mut achou = false;
    for _ in 0..50 {
        if let Some(c) = caminho_aleatorio(&mut rng, &g) {
            achou = true;
            assert!(is_factivel(&c, 4));
            for w in c.windows(2) {
                assert_ne!(g.distancia(w[0], w[1]), INF);
            }
        }
    }
    assert!(achou);
}

#[test]
fn grafo_sem_arestas_nao_gera_populacao() {
    let g = Grafo::from_matriz(vec![vec![0, INF, INF], vec![INF, 0, INF], vec![INF, INF, 0]])
        .unwrap();
    let mut rng = rng();
    assert!(individuo_aleatorio(&mut rng, &g).is_none());
    assert!(populacao_inicial(&mut rng, &g, 3).is_none());
    let xo = Taxa::new(1, 1).unwrap();
    let mc = Taxa::new(1, 10).unwrap();
    assert!(solve(&mut rng, &g, u64::MAX, 10, 3, xo, mc, Cruzamento::Pmx, Mutacao::Troca).is_none());
}

#[test]
fn proxima_geracao_elitista() {
    let g = Grafo::toy();
    let atual = vec![Solucao::new(&g, vec![0, 2, 1, 3]), Solucao::new(&g, vec![1, 3, 0, 2])];
    let filhos = vec![
        Solucao::new(&g, vec![0, 1, 3, 2]),
        Solucao::new(&g, vec![0, 1, 2, 3]),
        Solucao::new(&g, vec![0, 1, 1, 3]),
    ];
    let r = proxima_geracao(atual, filhos, 3);
    let fos: Vec<u64> = r.iter().map(|s| s.fo()).collect();
    assert_eq!(fos, vec![8, 13, 13]);
    // ties keep the current population first, then the offspring in order
    assert_eq!(r[1].caminho(), &vec![0, 2, 1, 3]);
    assert_eq!(r[2].caminho(), &vec![1, 3, 0, 2]);
}

#[test]
fn proxima_geracao_nunca_perde_o_melhor() {
    let g = Grafo::toy();
    let atual = vec![Solucao::new(&g, vec![0, 1, 2, 3])];
    let filhos = vec![Solucao::new(&g, vec![0, 2, 1, 3]), Solucao::new(&g, vec![0, 1, 3, 2])];
    let r = proxima_geracao(atual, filhos, 1);
    assert_eq!(r.len(), 1);
    assert_eq!(r[0].fo(), 8);
}

#[test]
fn recombinacao_gera_dois_filhos_por_par() {
    let g = Grafo::toy();
    let mut rng = rng();
    let pop = populacao_inicial(&mut rng, &g, 5).unwrap();
    let pais = vec![(0, 1), (2, 2), (4, 3)];
    let meio = Taxa::new(1, 2).unwrap();
    for (cruzamento, politica) in [(Cruzamento::Pmx, Mutacao::Troca), (Cruzamento::Ox, Mutacao::Inversao)] {
        let filhos = recombinacao(&mut rng, &g, &pop, &pais, meio, cruzamento, politica);
        assert_eq!(filhos.len(), 6);
        for f in &filhos {
            assert!(is_factivel(f.caminho(), 4));
            assert_eq!(f.fo(), Solucao::calcula_fo(&g, f.caminho()));
        }
    }
}

#[test]
fn ag_converge_no_grafo_toy() {
    let g = Grafo::toy();
    let mut rng = rng();
    let xo = Taxa::new(4, 5).unwrap();
    let mc = Taxa::new(1, 10).unwrap();
    let (s, _) =
        solve(&mut rng, &g, u64::MAX, 100, 50, xo, mc, Cruzamento::Pmx, Mutacao::Troca).unwrap();
    assert_eq!(s.fo(), 8);
    assert!(is_factivel(s.caminho(), 4));
    let (s, _) =
        solve(&mut rng, &g, u64::MAX, 100, 50, xo, mc, Cruzamento::Ox, Mutacao::Inversao).unwrap();
    assert_eq!(s.fo(), 8);
}

#[test]
fn ag_dois_vertices() {
    let g = Grafo::from_matriz(vec![vec![0, 5], vec![5, 0]]).unwrap();
    let mut rng = rng();
    let (s, _) = Ag::new(&g).max_iter(100).pop_tam(50).solve(&mut rng).unwrap();
    assert_eq!(s.fo(), 10);
    assert!(s.caminho() == &vec![0, 1] || s.caminho() == &vec![1, 0]);
}

#[test]
fn ag_builder() {
    let g = Grafo::toy();
    let mut rng = rng();
    let (s, _) = Ag::new(&g)
        .timeout(60)
        .max_iter(20)
        .pop_tam(40)
        .xo_chance(Taxa::new(1, 1).unwrap())
        .mut_chance(Taxa::new(3, 10).unwrap())
        .cruzamento(Cruzamento::Ox)
        .mutacao(Mutacao::Inversao)
        .solve(&mut rng)
        .unwrap();
    assert_eq!(s.fo(), 8);
}

#[test]
fn estado_conta_geracoes_e_para() {
    let g = Grafo::toy();
    let mut rng = rng();
    let xo = Taxa::new(1, 2).unwrap();
    let mut e = EstadoAg::inicia(&mut rng, &g, 4, xo, 2).unwrap();
    assert_eq!(e.populacao().len(), 4);
    assert_eq!(e.sorteia_pais(&mut rng).len(), 2);
    assert!(e.continua(0, 10));
    assert!(!e.continua(10, 10));
    let melhor_antes = e.populacao()[0].fo();
    e.avanca(vec![]);
    assert!(e.continua(0, 10));
    e.avanca(vec![]);
    // two generations without improvement reach max_iter = 2
    assert!(!e.continua(0, 10));
    let (s, it) = e.melhor();
    assert_eq!(s.fo(), melhor_antes);
    assert_eq!(it, 0);
}

#[test]
fn estado_registra_melhora() {
    let g = Grafo::toy();
    let mut rng = rng();
    let xo = Taxa::new(1, 1).unwrap();
    let mut e = EstadoAg::inicia(&mut rng, &g, 1, xo, 5).unwrap();
    e.avanca(vec![]);
    let otimo = Solucao::new(&g, vec![0, 1, 2, 3]);
    let tinha_otimo = e.populacao()[0].fo() == 8;
    e.avanca(vec![otimo]);
    assert_eq!(e.populacao()[0].fo(), 8);
    let (_, it) = e.melhor();
    assert_eq!(it, if tinha_otimo { 0 } else { 1 });
}
