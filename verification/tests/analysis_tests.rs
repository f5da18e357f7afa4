use ftpl::{AsLayout, Expression, Extent, Factor, Judgment, Kind, Space, Valuation};

#[test]
fn test_left_div() {
    let f1 = Factor::new(Kind::Logical, Extent::Constant(2), None);
    let f2 = Factor::new(Kind::Logical, Extent::Constant(3), None);
    let s1 = Space::new(vec![f1]);
    let s2 = Space::new(vec![f2]);
    let t = Expression::Identity(s1);
    let r = Expression::Identity(s2);
    let l = Expression::Product(Box::new(t.clone()), Box::new(r.clone()));
    assert_eq!(l.left_div(t).unwrap(), r);
}

#[test]
fn test_structural_judgments() {
    let s = Space::new(vec![Factor::new(Kind::Logical, Extent::Constant(10), None)]);
    let id = Expression::Identity(s.clone());
    let broadcast = Expression::Broadcast(s.clone(), Space::new(vec![Factor::new(Kind::Logical, Extent::Constant(1), None)]));
    let valuation = Valuation::new();
    assert_eq!(id.is_injective(), Judgment::True);
    assert_eq!(broadcast.is_injective(), Judgment::False);
    assert_eq!(broadcast.is_aliasing(&valuation), Judgment::True);
}

#[test]
fn test_normalization_cancellation() {
    let s = Space::new(vec![Factor::new(Kind::Logical, Extent::Constant(10), None)]);
    let lin = Expression::Linearize(s.clone());
    let delin = Expression::Delinearize(s.clone());
    let comp = Expression::Composition(Box::new(lin), Box::new(delin));

    let nf = comp.normalize();
    // lin o delin should simplify to identity in normalization
    assert_eq!(nf.placement, Expression::Identity(s));
}

#[test]
fn test_tensor_core_fit_analysis() {
    let frag = Space::new(vec![Factor::new(Kind::Fragment, Extent::Constant(16), None)]);
    let instr = Expression::Linearize(frag.clone());
    let tile = Space::new(vec![Factor::new(Kind::Tile, Extent::Constant(2), None)]);
    let program = Expression::Product(Box::new(instr.clone()), Box::new(Expression::Identity(tile.clone())));

    assert!(program.left_div(instr).is_some());
}

#[test]
fn test_is_surjective() {
    let s = Space::new(vec![Factor::new(Kind::Logical, Extent::Constant(10), None)]);
    let id = Expression::Identity(s.clone());
    let slice = Expression::Slice(s.clone(), vec![(0, 5)]);

    assert_eq!(id.is_surjective(), Judgment::True);
    assert_eq!(slice.is_surjective(), Judgment::False);
}

#[test]
fn test_max_vector_width_cases() {
    let mut val = Valuation::new();
    val.variables.insert("DEBUG".to_string(), 1);

    // Row-major [4, 8] -> 8
    let s = Space::new(vec![
        Factor::new(Kind::Logical, Extent::Constant(4), None),
        Factor::new(Kind::Logical, Extent::Constant(8), None),
    ]);
    let lin = Expression::Linearize(s);
    assert_eq!(lin.max_vector_width(&val), 8);

    // Column-major (Transpose) -> 1
    let p = Expression::Permute(lin.source(), vec![1, 0]);
    let col = Expression::Composition(Box::new(p), Box::new(lin));
    assert_eq!(col.max_vector_width(&val), 1);
}

#[test]
fn test_normalization_rules() {
    let s1 = Space::new(vec![Factor::new(Kind::Logical, Extent::Constant(4), None)]);
    let s2 = Space::new(vec![Factor::new(Kind::Logical, Extent::Constant(4), None)]);
    let s3 = Space::new(vec![Factor::new(Kind::Logical, Extent::Constant(4), None)]);

    // Rule 5: Reshape Fusion
    let r1 = Expression::Reshape(s1.clone(), s2.clone());
    let r2 = Expression::Reshape(s2.clone(), s3.clone());
    let comp = Expression::Composition(Box::new(r1), Box::new(r2));
    let simplified = comp.simplify_recursive();

    if let Expression::Reshape(src, tgt) = simplified {
        assert_eq!(src, s1);
        assert_eq!(tgt, s3);
    } else {
        panic!("Reshape fusion failed");
    }

    // Rule 6: Permute Fusion
    let p1 = Expression::Permute(s1.clone(), vec![0]);
    let p2 = Expression::Permute(s1.clone(), vec![0]);
    let comp_p = Expression::Composition(Box::new(p1), Box::new(p2));
    let simplified_p = comp_p.simplify_recursive();
    assert!(matches!(simplified_p, Expression::Permute(_, _)));
}

#[test]
fn test_aliasing_detection() {
    let val = Valuation::new();
    let s10 = Space::new(vec![Factor::new(Kind::Logical, Extent::Constant(10), None)]);
    let s1 = Space::new(vec![Factor::new(Kind::Logical, Extent::Constant(1), None)]);
    let broadcast = Expression::Broadcast(s10, s1);

    assert_eq!(broadcast.is_aliasing(&val), Judgment::True);
}
