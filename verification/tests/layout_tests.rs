use ftpl::{AsLayout, Expression, Extent, Factor, Kind, ScalarExpr, Space, Valuation};

#[test]
fn test_identity_layout() {
    let f1 = Factor::new(Kind::Logical, Extent::Constant(10), None);
    let space = Space::new(vec![f1.clone()]);
    let id = Expression::Identity(space);
    let valuation = Valuation::new();
    let input = vec![5];
    let output = id.apply(&valuation, &input).unwrap();
    assert_eq!(input, output);
}

#[test]
fn test_reshape() {
    let s = Space::new(vec![
        Factor::new(Kind::Logical, Extent::Constant(2), None),
        Factor::new(Kind::Logical, Extent::Constant(3), None),
    ]);
    let t = Space::new(vec![Factor::new(Kind::Logical, Extent::Constant(6), None)]);
    let reshape = Expression::Reshape(s, t);
    let valuation = Valuation::new();
    assert_eq!(reshape.apply(&valuation, &[0, 0]).unwrap(), vec![0]);
    assert_eq!(reshape.apply(&valuation, &[1, 2]).unwrap(), vec![5]);
}

#[test]
fn test_binary_shadow() {
    let s = Space::new(vec![Factor::new(Kind::Logical, Extent::Constant(4), None)]);
    let matrix = vec![vec![0, 1], vec![1, 0]];
    let shadow = Expression::BinaryShadow(s, matrix);
    let valuation = Valuation::new();
    assert_eq!(shadow.apply(&valuation, &[1]).unwrap(), vec![2]);
    assert_eq!(shadow.apply(&valuation, &[2]).unwrap(), vec![1]);
}

#[test]
fn test_broadcast() {
    let s = Space::new(vec![Factor::new(Kind::Logical, Extent::Constant(10), None)]);
    let t = Space::new(vec![Factor::new(Kind::Logical, Extent::Constant(1), None)]);
    let broadcast = Expression::Broadcast(s, t);
    let valuation = Valuation::new();
    assert_eq!(broadcast.apply(&valuation, &[5]).unwrap(), vec![0]);
}

#[test]
fn test_lowering_complex() {
    let s = Space::new(vec![
        Factor::new(Kind::Logical, Extent::Constant(2), None),
        Factor::new(Kind::Logical, Extent::Constant(3), None),
    ]);
    let lin = Expression::Linearize(s);
    let valuation = Valuation::new();
    let inputs = vec![ScalarExpr::Input(0), ScalarExpr::Input(1)];
    let (lowered, domain) = lin.lower(&valuation, inputs);
    assert_eq!(lowered[0].eval(&[1, 2]), 5);
    assert_eq!(domain.eval(&[1, 2]), 1); // Valid
    assert_eq!(domain.eval(&[2, 0]), 0); // Invalid (H=2)
}

#[test]
fn test_permute_mapping() {
    let s = Space::new(vec![
        Factor::new(Kind::Logical, Extent::Constant(2), None),
        Factor::new(Kind::Logical, Extent::Constant(3), None),
    ]);
    let p = Expression::Permute(s, vec![1, 0]);
    let val = Valuation::new();
    assert_eq!(p.apply(&val, &[1, 2]).unwrap(), vec![2, 1]);
}

#[test]
fn test_slice_mapping() {
    let s = Space::new(vec![Factor::new(Kind::Logical, Extent::Constant(10), None)]);
    let slice = Expression::Slice(s, vec![(2, 5)]); // [2, 5)
    let val = Valuation::new();
    assert_eq!(slice.apply(&val, &[2]).unwrap(), vec![0]);
    assert_eq!(slice.apply(&val, &[4]).unwrap(), vec![2]);
    assert!(slice.apply(&val, &[5]).is_none());
}

#[test]
fn test_pad_mapping() {
    let s = Space::new(vec![Factor::new(Kind::Logical, Extent::Constant(10), None)]);
    let t = Space::new(vec![Factor::new(Kind::Logical, Extent::Constant(12), None)]);
    let pad = Expression::Pad(s, t, vec![(1, 1)]);
    let val = Valuation::new();
    assert_eq!(pad.apply(&val, &[0]).unwrap(), vec![1]);
    assert_eq!(pad.apply(&val, &[9]).unwrap(), vec![10]);
}

#[test]
fn test_flip_mapping() {
    let s = Space::new(vec![Factor::new(Kind::Logical, Extent::Constant(10), None)]);
    let flip = Expression::Flip(s, vec![true]);
    let val = Valuation::new();
    assert_eq!(flip.apply(&val, &[0]).unwrap(), vec![9]);
    assert_eq!(flip.apply(&val, &[9]).unwrap(), vec![0]);
}

#[test]
fn test_linearize_delinearize_inverse() {
    let s = Space::new(vec![
        Factor::new(Kind::Logical, Extent::Constant(2), None),
        Factor::new(Kind::Logical, Extent::Constant(3), None),
    ]);
    let lin = Expression::Linearize(s.clone());
    let delin = Expression::Delinearize(s);
    let val = Valuation::new();

    let coord = vec![1, 2];
    let offset = lin.apply(&val, &coord).unwrap();
    let back = delin.apply(&val, &offset).unwrap();
    assert_eq!(coord, back);
}

#[test]
fn test_layout_product() {
    let l1 = Expression::Identity(Space::new(vec![Factor::new(
        Kind::Logical,
        Extent::Constant(2),
        None,
    )]));
    let l2 = Expression::Identity(Space::new(vec![Factor::new(
        Kind::Logical,
        Extent::Constant(3),
        None,
    )]));
    let prod = Expression::Product(Box::new(l1), Box::new(l2));
    let val = Valuation::new();
    assert_eq!(prod.apply(&val, &[1, 2]).unwrap(), vec![1, 2]);
}

#[test]
fn test_scalar_expr_simplification() {
    // (x * 1) + 0 -> x
    let expr = ScalarExpr::Add(
        Box::new(ScalarExpr::Mul(
            Box::new(ScalarExpr::Input(0)),
            Box::new(ScalarExpr::Constant(1)),
        )),
        Box::new(ScalarExpr::Constant(0)),
    )
    .simplify();
    assert_eq!(expr, ScalarExpr::Input(0));

    // x / 4 -> x >> 2
    let div = ScalarExpr::Div(
        Box::new(ScalarExpr::Input(0)),
        Box::new(ScalarExpr::Constant(4)),
    )
    .simplify();
    assert_eq!(
        div,
        ScalarExpr::BitShiftRight(Box::new(ScalarExpr::Input(0)), 2)
    );
}
