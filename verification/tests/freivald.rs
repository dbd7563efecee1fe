use pazk::freivald::{freivald_check, Decision};

#[test]
fn a_true_product_is_accepted_for_every_element() {
    let a = vec![vec![1, 2], vec![3, 4]];
    let b = vec![vec![0, 1], vec![1, 0]];
    let c = vec![vec![2, 1], vec![4, 3]];
    for r in 0..5 {
        assert_eq!(freivald_check(&a, &b, &c, r, 5), Decision(true));
    }
    // entries need not be reduced
    let c = vec![vec![7, 6], vec![9, 13]];
    assert_eq!(freivald_check(&a, &b, &c, 3, 5), Decision(true));
}

#[test]
fn a_false_product_is_rejected_but_for_few_elements() {
    let a = vec![vec![1, 2], vec![3, 4]];
    let b = vec![vec![0, 1], vec![1, 0]];
    // wrong in the first column: the power zero of the element is never zero
    let c = vec![vec![3, 1], vec![4, 3]];
    for r in 0..5 {
        assert_eq!(freivald_check(&a, &b, &c, r, 5), Decision(false));
    }
    // wrong in the second column: only the element zero does not see it
    let c = vec![vec![2, 1], vec![4, 4]];
    assert_eq!(freivald_check(&a, &b, &c, 0, 5), Decision(true));
    for r in 1..5 {
        assert_eq!(freivald_check(&a, &b, &c, r, 5), Decision(false));
    }
}

#[test]
fn matrices_of_three_rows() {
    let a = vec![vec![1, 0, 2], vec![0, 3, 0], vec![4, 0, 5]];
    let b = vec![vec![1, 1, 1], vec![2, 0, 2], vec![0, 6, 0]];
    // the product over the field with 13 elements
    let c = vec![vec![1, 0, 1], vec![6, 0, 6], vec![4, 8, 4]];
    for r in 0..13 {
        assert_eq!(freivald_check(&a, &b, &c, r, 13), Decision(true));
    }
    let empty: Vec<Vec<u64>> = vec![];
    assert_eq!(freivald_check(&empty, &empty, &empty, 2, 13), Decision(true));
}

#[test]
fn decisions_as_text() {
    assert_eq!(Decision(true).to_text(), "Accept");
    assert_eq!(Decision(false).to_text(), "Reject");
}
