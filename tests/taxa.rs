use caixeiro::taxa::Taxa;

#[test]
fn taxa_valida_apenas_entre_zero_e_um() {
    assert!(Taxa::new(1, 0).is_none());
    assert!(Taxa::new(3, 2).is_none());
    let t = Taxa::new(7, 20).unwrap();
    assert_eq!((t.num(), t.den()), (7, 20));
}

#[test]
fn taxa_teto() {
    let t = Taxa::new(35, 100).unwrap();
    assert_eq!(t.teto(10), 4);
    assert_eq!(t.teto(20), 7);
    assert_eq!(t.teto(1), 1);
    assert_eq!(t.teto(0), 0);
    assert_eq!(Taxa::new(1, 1).unwrap().teto(9), 9);
    assert_eq!(Taxa::new(0, 1).unwrap().teto(9), 0);
}

#[test]
fn taxa_acerta() {
    let t = Taxa::new(1, 10).unwrap();
    assert!(t.acerta(0));
    assert!(t.acerta(20));
    assert!(!t.acerta(1));
    assert!(!t.acerta(19));
}
