use aoe2_ml::texto::{parsear_entero, leer_entero_o_cero};

#[test]
fn parsear_entero_como_std() {
    let casos = [
        "0", "123", "-5", "+7", "", "-", "+", "12a", " 1", "1 ", "2147483647", "2147483648",
        "-2147483648", "-2147483649", "0007", "99999999999999999999", "--1", "1_0",
    ];
    for c in casos.iter() {
        assert_eq!(parsear_entero(c), c.parse::<i32>().ok(), "texto {:?}", c);
    }
}

#[test]
fn parsear_entero_valores() {
    assert_eq!(parsear_entero("1200"), Some(1200));
    assert_eq!(parsear_entero("-2147483648"), Some(i32::MIN));
    assert_eq!(parsear_entero("2147483648"), None);
    assert_eq!(parsear_entero("abc"), None);
}

#[test]
fn leer_entero_o_cero_por_defecto() {
    let r = vec!["x".to_string(), "15".to_string()];
    assert_eq!(leer_entero_o_cero(&r, 1), 15);
    assert_eq!(leer_entero_o_cero(&r, 0), 0);
    assert_eq!(leer_entero_o_cero(&r, 7), 0);
}
