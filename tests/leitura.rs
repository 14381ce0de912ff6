use caixeiro::grafo::{perm2inv, Grafo, Solucao, INF};
use caixeiro::leitura::{parse_matriz, parse_matriz_com_cabecalho};

#[test]
fn le_matriz_com_quebra_final() {
    let m = parse_matriz(b"0 1 4 2\n1 0 2 5\n4 2 0 3\n2 5 3 0\n");
    assert_eq!(m, vec![vec![0, 1, 4, 2], vec![1, 0, 2, 5], vec![4, 2, 0, 3], vec![2, 5, 3, 0]]);
}

#[test]
fn le_ultima_linha_sem_quebra_e_crlf() {
    let m = parse_matriz(b"  0\t7 \r\n+7   0");
    assert_eq!(m, vec![vec![0, 7], vec![7, 0]]);
}

#[test]
fn token_invalido_vira_inf() {
    let m = parse_matriz(b"0 x -3\n+ 0 1a\n18446744073709551616 18446744073709551615 0\n");
    assert_eq!(m, vec![vec![0, INF, INF], vec![INF, 0, INF], vec![INF, u64::MAX, 0]]);
}

#[test]
fn linhas_vazias_contam() {
    assert_eq!(parse_matriz(b""), Vec::<Vec<u64>>::new());
    assert_eq!(parse_matriz(b"\n"), vec![Vec::<u64>::new()]);
    assert_eq!(parse_matriz(b"1\n\n2"), vec![vec![1], vec![], vec![2]]);
}

#[test]
fn grafo_do_texto() {
    let g = Grafo::from_texto(b"0 5\n5 0\n").unwrap();
    assert_eq!(Solucao::calcula_fo(&g, &vec![1, 0]), 10);
    assert!(Grafo::from_texto(b"0 5\n5\n").is_none());
}

#[test]
fn tabela_de_inversoes() {
    assert_eq!(perm2inv(&vec![0, 1, 2, 3]), vec![0, 0, 0, 0]);
    assert_eq!(perm2inv(&vec![3, 2, 1, 0]), vec![3, 2, 1, 0]);
    // 1 comes after 4, 2, 5 and 3; 0 after 4, 2 and 5
    assert_eq!(perm2inv(&vec![4, 2, 5, 0, 3, 1]), vec![3, 4, 1, 2, 0, 0]);
}

#[test]
fn cabecalho_da_o_tamanho() {
    let m = parse_matriz_com_cabecalho(b"2\n0 5 9\n5 0 9\n9 9 0\n");
    assert_eq!(m, vec![vec![0, 5], vec![5, 0]]);
    let g = Grafo::from_texto_com_cabecalho(b"3\n0 1 4\n1 0 2\n4 2 0").unwrap();
    assert_eq!(Solucao::calcula_fo(&g, &vec![0, 1, 2]), 7);
    // an unreadable header counts as zero vertices
    assert_eq!(parse_matriz_com_cabecalho(b"x\n0 1\n1 0\n"), Vec::<Vec<u64>>::new());
    assert_eq!(parse_matriz_com_cabecalho(b""), Vec::<Vec<u64>>::new());
    // fewer rows than the header announces
    assert_eq!(parse_matriz_com_cabecalho(b"3\n0 1 2\n"), vec![vec![0, 1, 2]]);
}

#[test]
fn espacos_unicode_separam_tokens() {
    assert_eq!(parse_matriz("1\u{3000}2".as_bytes()), vec![vec![1, 2]]);
    assert_eq!(parse_matriz("0\u{a0}5\n5\u{2003}0\u{85}\n".as_bytes()), vec![vec![0, 5], vec![5, 0]]);
    // a non-whitespace multi-byte character stays inside its token
    assert_eq!(parse_matriz("1\u{e9} 2".as_bytes()), vec![vec![INF, 2]]);
}
