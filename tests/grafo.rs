use caixeiro::grafo::{is_factivel, Grafo, Solucao, INF};

#[test]
fn fo_correta() {
    let g = Grafo::toy();
    let c = vec![0, 1, 2, 3];
    assert_eq!(Solucao::calcula_fo(&g, &c), 8);
}

#[test]
fn fo_infactivel_vertice_repetido() {
    let g = Grafo::toy();
    let c = vec![0, 1, 2, 1];
    assert_eq!(Solucao::calcula_fo(&g, &c), INF);
}

#[test]
fn fo_infactivel_vertice_faltando() {
    let g = Grafo::toy();
    let c = vec![0, 1, 2];
    assert_eq!(Solucao::calcula_fo(&g, &c), INF);
}

#[test]
fn fo_soma_arestas_e_fechamento() {
    let g = Grafo::toy();
    // 0->2 (4) + 2->1 (2) + 1->3 (5) + 3->0 (2)
    assert_eq!(Solucao::calcula_fo(&g, &vec![0, 2, 1, 3]), 13);
    let s = Solucao::new(&g, vec![3, 2, 1, 0]);
    assert_eq!(s.fo(), 8);
    assert_eq!(s.caminho(), &vec![3, 2, 1, 0]);
}

#[test]
fn fo_grafo_assimetrico() {
    let g = Grafo::from_matriz(vec![vec![0, 1, 9], vec![7, 0, 2], vec![3, 8, 0]]).unwrap();
    assert_eq!(Solucao::calcula_fo(&g, &vec![0, 1, 2]), 1 + 2 + 3);
    assert_eq!(Solucao::calcula_fo(&g, &vec![0, 2, 1]), 9 + 8 + 7);
}

#[test]
fn fo_vertice_fora_do_grafo() {
    let g = Grafo::toy();
    assert_eq!(Solucao::calcula_fo(&g, &vec![0, 1, 2, 7]), INF);
    assert_eq!(Solucao::calcula_fo(&g, &vec![0, 1, 2, 3, 0]), INF);
}

#[test]
fn fo_satura_no_maximo() {
    let m = u64::MAX;
    let g = Grafo::from_matriz(vec![vec![0, m], vec![m, 0]]).unwrap();
    assert_eq!(Solucao::calcula_fo(&g, &vec![0, 1]), u64::MAX);
}

#[test]
fn factivel_exige_cada_vertice_uma_vez() {
    assert!(is_factivel(&vec![2, 0, 1], 3));
    assert!(!is_factivel(&vec![2, 0, 0], 3));
    assert!(!is_factivel(&vec![2, 0], 3));
    assert!(!is_factivel(&vec![2, 0, 3], 3));
    assert!(is_factivel(&vec![], 0));
}

#[test]
fn solucao_vazia_tem_fo_infinita() {
    let s = Solucao::vazia();
    assert_eq!(s.fo(), INF);
    assert!(s.caminho().is_empty());
}

#[test]
fn grafo_acessores() {
    let g = Grafo::toy();
    assert_eq!(g.num_vertices(), 4);
    assert_eq!(g.distancia(1, 3), 5);
    assert_eq!(g.adjacentes(2), &[4, 2, 0, 3][..]);
    let pares: Vec<(usize, u64)> = g.adjacentes(0).iter().cloned().enumerate().collect();
    assert_eq!(pares, vec![(0, 0), (1, 1), (2, 4), (3, 2)]);
}

#[test]
fn grafo_matriz_irregular_recusada() {
    assert!(Grafo::from_matriz(vec![vec![0, 1], vec![1]]).is_none());
    assert!(Grafo::from_matriz(vec![vec![0, 1, 2], vec![1, 0, 2]]).is_none());
    assert!(Grafo::from_matriz(vec![vec![0, 5], vec![5, 0]]).is_some());
}
