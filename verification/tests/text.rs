use pazk::group_utils::list_vec;
use pazk::polynomials::{format_univ_poly, UniPoly};
use pazk::text::{decimal_text, join3, join5};

#[test]
fn numbers_in_decimal() {
    assert_eq!(decimal_text(0), "0");
    assert_eq!(decimal_text(7), "7");
    assert_eq!(decimal_text(10), "10");
    assert_eq!(decimal_text(1234567890), "1234567890");
    assert_eq!(decimal_text(u64::MAX), "18446744073709551615");
}

#[test]
fn texts_joined() {
    assert_eq!(join3("a", "", "bc"), "abc");
    assert_eq!(join5("V --> (r_", "1", " = ", "12", ")"), "V --> (r_1 = 12)");
}

#[test]
fn univariate_polynomials_as_text() {
    let text = |coeffs: Vec<u64>| format_univ_poly(&UniPoly { coeffs }, "x");
    assert_eq!(text(vec![]), "0");
    assert_eq!(text(vec![0, 0, 0]), "0");
    assert_eq!(text(vec![7]), "7");
    assert_eq!(text(vec![1]), "1");
    assert_eq!(text(vec![0, 1]), "x");
    assert_eq!(text(vec![0, 5]), "5*x");
    assert_eq!(text(vec![0, 0, 1]), "x^2");
    assert_eq!(text(vec![0, 0, 9]), "9*x^2");
    assert_eq!(text(vec![4, 4, 3]), "3*x^2 + 4*x + 4");
    assert_eq!(text(vec![1, 0, 0, 1, 0]), "x^3 + 1");
    assert_eq!(text(vec![0, 1, 0, 0, 0, 0, 0, 0, 0, 0, 0, 0, 12]), "12*x^12 + x");
    assert_eq!(format_univ_poly(&UniPoly { coeffs: vec![2, 1, 3] }, "y_1"), "3*y_1^2 + y_1 + 2");
}

#[test]
fn lists_as_text() {
    assert_eq!(list_vec(&[1, 2, 3], ", "), "1, 2, 3");
    assert_eq!(list_vec(&["a"], ", "), "a");
    assert_eq!(list_vec::<u8>(&[], ", "), "");
    assert_eq!(list_vec(&[String::from("x"), String::from("")], " "), "x ");
}
