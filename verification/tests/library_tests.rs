use ftpl::viz::render_grid;
use ftpl::{
    invert_gf2, to_cuda, AsLayout, Expression, Extent, Factor, Judgment, Kind, Layout, ScalarExpr,
    Space, Valuation,
};

fn space_of(extents: &[u64]) -> Space {
    Space::new(
        extents
            .iter()
            .map(|&e| Factor::new(Kind::Logical, Extent::Constant(e), None))
            .collect(),
    )
}

#[test]
fn gf2_inverse_of_swap_is_swap() {
    let m = vec![vec![0u8, 1], vec![1, 0]];
    assert_eq!(invert_gf2(&m), Some(vec![vec![0u8, 1], vec![1, 0]]));
}

#[test]
fn gf2_inverse_of_shear() {
    let m = vec![vec![1u8, 1, 0], vec![0, 1, 1], vec![0, 0, 1]];
    let inv = invert_gf2(&m).unwrap();
    assert_eq!(inv, vec![vec![1u8, 1, 1], vec![0, 1, 1], vec![0, 0, 1]]);
}

#[test]
fn gf2_inverse_uses_low_bits_only() {
    let m = vec![vec![3u8, 2], vec![4, 5]];
    assert_eq!(invert_gf2(&m), Some(vec![vec![1u8, 0], vec![0, 1]]));
}

#[test]
fn gf2_singular_matrix_has_no_inverse() {
    let m = vec![vec![1u8, 1], vec![1, 1]];
    assert_eq!(invert_gf2(&m), None);
    let z = vec![vec![0u8, 0], vec![0, 0]];
    assert_eq!(invert_gf2(&z), None);
}

#[test]
fn gf2_empty_matrix_is_its_own_inverse() {
    let m: Vec<Vec<u8>> = vec![];
    assert_eq!(invert_gf2(&m), Some(vec![]));
}

#[test]
fn inverse_of_linearize_is_delinearize() {
    let s = space_of(&[2, 3]);
    let lin = Expression::Linearize(s.clone());
    assert_eq!(lin.inverse(), Some(Expression::Delinearize(s.clone())));
    let delin = Expression::Delinearize(s.clone());
    assert_eq!(delin.inverse(), Some(Expression::Linearize(s)));
}

#[test]
fn inverse_undoes_linearize_on_every_point() {
    let s = space_of(&[2, 3]);
    let lin = Expression::Linearize(s);
    let inv = lin.inverse().unwrap();
    let val = Valuation::new();
    for i in 0..2u64 {
        for j in 0..3u64 {
            let o = lin.apply(&val, &[i, j]).unwrap();
            assert_eq!(o, vec![i * 3 + j]);
            assert_eq!(inv.apply(&val, &o).unwrap(), vec![i, j]);
        }
    }
}

#[test]
fn inverse_undoes_permutation() {
    let s = space_of(&[2, 3, 4]);
    let p = Expression::Permute(s, vec![2, 0, 1]);
    let inv = p.inverse().unwrap();
    let val = Valuation::new();
    if let Expression::Permute(t, q) = &inv {
        assert_eq!(q, &vec![1, 2, 0]);
        assert_eq!(t, &space_of(&[3, 4, 2]));
    } else {
        panic!("the inverse of a permutation is a permutation");
    }
    let y = p.apply(&val, &[1, 2, 3]).unwrap();
    assert_eq!(y, vec![2, 3, 1]);
    assert_eq!(inv.apply(&val, &y).unwrap(), vec![1, 2, 3]);
}

#[test]
fn inverse_of_shadow_and_of_views() {
    let s = space_of(&[4]);
    let shadow = Expression::BinaryShadow(s.clone(), vec![vec![1, 1], vec![0, 1]]);
    assert_eq!(
        shadow.inverse(),
        Some(Expression::BinaryShadow(s.clone(), vec![vec![1, 1], vec![0, 1]]))
    );
    let singular = Expression::BinaryShadow(s.clone(), vec![vec![1, 1], vec![1, 1]]);
    assert_eq!(singular.inverse(), None);
    let slice = Expression::Slice(s.clone(), vec![(0, 2)]);
    assert_eq!(slice.inverse(), None);
    let comp = Expression::Composition(Box::new(Expression::Identity(s.clone())), Box::new(slice));
    assert_eq!(comp.inverse(), None);
    let r = Expression::Reshape(s.clone(), space_of(&[2, 2]));
    assert_eq!(r.inverse(), Some(Expression::Reshape(space_of(&[2, 2]), s)));
}

#[test]
fn left_div_of_nested_product() {
    let t = Expression::Identity(space_of(&[2]));
    let a = Expression::Identity(space_of(&[3]));
    let r = Expression::Identity(space_of(&[5]));
    let l = Expression::Product(
        Box::new(Expression::Product(Box::new(t.clone()), Box::new(a.clone()))),
        Box::new(r.clone()),
    );
    assert_eq!(l.left_div(t), Some(Expression::Product(Box::new(a), Box::new(r.clone()))));
    assert_eq!(r.left_div(Expression::Identity(space_of(&[5]))), None);
}

#[test]
fn fusion_rules() {
    let s = space_of(&[2, 3]);
    let lin_delin = Expression::Composition(
        Box::new(Expression::Linearize(s.clone())),
        Box::new(Expression::Delinearize(s.clone())),
    );
    assert_eq!(lin_delin.simplify_recursive(), Expression::Identity(s.clone()));

    let delin_lin = Expression::Composition(
        Box::new(Expression::Delinearize(s.clone())),
        Box::new(Expression::Linearize(s.clone())),
    );
    let offsets = Space::new(vec![Factor::new(
        Kind::Other("Offset".to_string()),
        Extent::Constant(6),
        None,
    )]);
    assert_eq!(delin_lin.simplify_recursive(), Expression::Identity(offsets));

    let p1 = Expression::Permute(s.clone(), vec![1, 0]);
    let p2 = Expression::Permute(space_of(&[3, 2]), vec![1, 0]);
    let perm = Expression::Composition(Box::new(p1), Box::new(p2));
    assert_eq!(perm.simplify_recursive(), Expression::Permute(s.clone(), vec![0, 1]));

    let m1 = vec![vec![1u8, 1], vec![0, 1]];
    let m2 = vec![vec![1u8, 0], vec![1, 1]];
    let shadows = Expression::Composition(
        Box::new(Expression::BinaryShadow(s.clone(), m1)),
        Box::new(Expression::BinaryShadow(s.clone(), m2)),
    );
    assert_eq!(
        shadows.simplify_recursive(),
        Expression::BinaryShadow(s.clone(), vec![vec![1, 1], vec![1, 0]])
    );

    let other = Expression::Composition(
        Box::new(Expression::Linearize(s.clone())),
        Box::new(Expression::Delinearize(space_of(&[6]))),
    );
    assert_eq!(other.clone().simplify_recursive(), other);
}

#[test]
fn layer_types_and_normal_forms() {
    let s = space_of(&[4]);
    assert_eq!(Expression::Identity(s.clone()).layer_type(), "View");
    assert_eq!(Expression::Linearize(s.clone()).layer_type(), "Placement");
    assert_eq!(
        Expression::BinaryShadow(s.clone(), vec![vec![1]]).layer_type(),
        "Shadow"
    );
    let prod = Expression::Product(
        Box::new(Expression::Identity(s.clone())),
        Box::new(Expression::Identity(s.clone())),
    );
    assert_eq!(prod.layer_type(), "Complex");

    let nf = Expression::Linearize(s.clone()).normalize();
    let offsets = Space::new(vec![Factor::new(
        Kind::Other("Offset".to_string()),
        Extent::Constant(4),
        None,
    )]);
    assert_eq!(nf.view, Expression::Identity(s.clone()));
    assert_eq!(nf.placement, Expression::Linearize(s.clone()));
    assert_eq!(nf.shadow, Expression::Identity(offsets));

    let sh = Expression::BinaryShadow(s.clone(), vec![vec![1]]);
    let nf = sh.clone().normalize();
    assert_eq!(nf.view, Expression::Identity(s.clone()));
    assert_eq!(nf.placement, Expression::Identity(s.clone()));
    assert_eq!(nf.shadow, sh);

    let val = Valuation::new();
    let nf = Expression::Linearize(space_of(&[2, 3])).normalize();
    assert_eq!(nf.apply(&val, &[1, 1]).unwrap(), vec![4]);
    assert_eq!(nf.source(), space_of(&[2, 3]));
}

#[test]
fn strides() {
    let val = Valuation::new();
    let lin = Expression::Linearize(space_of(&[4, 8]));
    assert_eq!(lin.get_stride(0, &val), Some(8));
    assert_eq!(lin.get_stride(1, &val), Some(1));
    assert_eq!(Expression::Identity(space_of(&[4])).get_stride(0, &val), Some(1));

    let prod = Expression::Product(
        Box::new(Expression::Linearize(space_of(&[4, 8]))),
        Box::new(Expression::Linearize(space_of(&[2]))),
    );
    assert_eq!(prod.get_stride(0, &val), Some(16));
    assert_eq!(prod.get_stride(2, &val), Some(1));

    let flip = Expression::Flip(space_of(&[4]), vec![true]);
    assert_eq!(flip.get_stride(0, &val), Some(u64::MAX));

    let unbound = Expression::Linearize(Space::new(vec![
        Factor::new(Kind::Logical, Extent::Constant(4), None),
        Factor::new(Kind::Logical, Extent::Variable("N".to_string()), None),
    ]));
    assert_eq!(unbound.get_stride(0, &val), None);
    assert_eq!(unbound.max_vector_width(&val), 1);
}

#[test]
fn judgments_combine() {
    let s = space_of(&[4]);
    let id = Expression::Identity(s.clone());
    let bc = Expression::Broadcast(s.clone(), space_of(&[1]));
    let comp = Expression::Composition(Box::new(id.clone()), Box::new(bc.clone()));
    assert_eq!(comp.is_injective(), Judgment::False);
    assert_eq!(comp.is_aliasing(&Valuation::new()), Judgment::True);
    let both = Expression::Composition(Box::new(id.clone()), Box::new(id.clone()));
    assert_eq!(both.is_injective(), Judgment::True);
    assert_eq!(both.is_aliasing(&Valuation::new()), Judgment::False);
    let pad = Expression::Pad(s.clone(), space_of(&[6]), vec![(1, 1)]);
    let prod = Expression::Product(Box::new(id.clone()), Box::new(pad));
    assert_eq!(prod.is_surjective(), Judgment::False);
    assert_eq!(prod.is_injective(), Judgment::True);

    let big = Expression::Reshape(space_of(&[8]), space_of(&[4]));
    assert_eq!(big.is_aliasing(&Valuation::new()), Judgment::True);
    let fits = Expression::Reshape(space_of(&[4]), space_of(&[2, 2]));
    assert_eq!(fits.is_aliasing(&Valuation::new()), Judgment::False);
    let open = Expression::Reshape(
        Space::new(vec![Factor::new(Kind::Logical, Extent::Variable("N".to_string()), None)]),
        space_of(&[4]),
    );
    assert_eq!(open.is_aliasing(&Valuation::new()), Judgment::Unknown);
}

#[test]
fn layout_builders() {
    let val = Valuation::new();
    let s = space_of(&[2, 3]);
    let row = Layout::row_major(s.clone());
    assert_eq!(row.apply(&val, &[1, 2]).unwrap(), vec![5]);
    let col = Layout::col_major(s.clone());
    assert_eq!(col.apply(&val, &[1, 2]).unwrap(), vec![5]);
    assert_eq!(col.apply(&val, &[0, 1]).unwrap(), vec![2]);
    assert_eq!(col.apply(&val, &[1, 0]).unwrap(), vec![1]);

    let t = row.clone().transpose();
    assert_eq!(t.source(), space_of(&[3, 2]));
    assert_eq!(t.apply(&val, &[2, 1]).unwrap(), vec![5]);
    let tt = row.clone().transpose().transpose();
    for i in 0..2u64 {
        for j in 0..3u64 {
            assert_eq!(tt.apply(&val, &[i, j]), row.apply(&val, &[i, j]));
        }
    }

    let id1 = Layout::identity(space_of(&[7]));
    assert_eq!(id1.clone().transpose(), id1);

    let reshaped = Layout::row_major(space_of(&[6])).reshape(s.clone());
    assert_eq!(reshaped.apply(&val, &[1, 1]).unwrap(), vec![4]);

    let split = Layout::row_major(space_of(&[6])).split(0, 2);
    assert_eq!(split.source(), space_of(&[3, 2]));
    assert_eq!(split.target(), Layout::row_major(space_of(&[6])).target());
    assert_eq!(split.apply(&val, &[2, 1]).unwrap(), vec![5]);

    let joined = Layout::row_major(s.clone()).join(0);
    assert_eq!(
        joined.expr,
        Expression::Composition(
            Box::new(Expression::Join(s.clone(), 0)),
            Box::new(Expression::Linearize(s.clone()))
        )
    );

    let prod = Layout::identity(space_of(&[2])).product(Layout::identity(space_of(&[3])));
    assert_eq!(prod.apply(&val, &[1, 2]).unwrap(), vec![1, 2]);

    let comp = Layout::row_major(space_of(&[4])).compose(Layout::new(Expression::Delinearize(space_of(&[2, 2]))));
    assert_eq!(comp.apply(&val, &[3]).unwrap(), vec![1, 1]);

    let sw = Layout::row_major(space_of(&[4])).swizzle(vec![vec![0, 1], vec![1, 0]]);
    assert_eq!(sw.apply(&val, &[1]).unwrap(), vec![2]);
}

#[test]
fn layout_analyses() {
    let val = Valuation::new();
    let s = space_of(&[8, 8]);
    let l1 = Layout::row_major(s.clone());
    let l2 = l1.clone().transpose();
    assert!(l1.equivalent_to(&l1.clone()));
    assert!(!l1.equivalent_to(&l2));
    let cancel = Layout::row_major(s.clone()).compose(Layout::new(Expression::Delinearize(s.clone())));
    assert!(cancel.equivalent_to(&Layout::identity(s.clone())));

    let shuffle = l1.shuffle_to(&l2).unwrap();
    assert_eq!(shuffle.apply(&val, &[1]).unwrap(), vec![8]);
    assert_eq!(shuffle.apply(&val, &[9]).unwrap(), vec![9]);
    assert!(Layout::new(Expression::Slice(s.clone(), vec![(0, 1), (0, 1)]))
        .shuffle_to(&l1)
        .is_none());

    let hw = Space::new(vec![
        Factor::new(Kind::Execution, Extent::Constant(32), Some("ThreadIdx".to_string())),
        Factor::new(Kind::Storage, Extent::Constant(32), Some("Offset".to_string())),
    ]);
    let bad = Layout::row_major(hw);
    assert_eq!(bad.bank_conflict_strides(&val), vec![(0, 32)]);
    assert_eq!(bad.max_vector_width(&val), 32);
    assert_eq!(bad.is_injective(), Judgment::True);
    assert_eq!(bad.is_surjective(), Judgment::True);
    assert_eq!(bad.is_aliasing(&val), Judgment::False);
    assert!(bad.inverse().is_some());
}

#[test]
fn cuda_text() {
    let names = ["x", "y"];
    let add = ScalarExpr::Add(Box::new(ScalarExpr::Input(0)), Box::new(ScalarExpr::Constant(30)));
    assert_eq!(to_cuda(&add, &names), "(x + 30)");
    let deep = ScalarExpr::Mod(
        Box::new(ScalarExpr::Mul(Box::new(ScalarExpr::Input(1)), Box::new(ScalarExpr::Input(7)))),
        Box::new(ScalarExpr::Constant(0)),
    );
    assert_eq!(to_cuda(&deep, &names), "((y * i7) % 0)");
    let shift = ScalarExpr::BitShiftRight(Box::new(ScalarExpr::Input(0)), 12);
    assert_eq!(to_cuda(&shift, &names), "(x >> 12)");
    let lin = ScalarExpr::BitLinear(Box::new(ScalarExpr::Input(0)), vec![vec![1, 1], vec![0, 1]]);
    assert_eq!(
        to_cuda(&lin, &names),
        "(((((x >> 0) & 1) ^ ((x >> 1) & 1)) << 0) | ((((x >> 1) & 1)) << 1) | ((x >> 2) << 2))"
    );
    let two = ScalarExpr::BitLinear(Box::new(ScalarExpr::Input(0)), vec![vec![0, 1], vec![1, 0]]);
    assert_eq!(
        to_cuda(&two, &names),
        "(((((x >> 1) & 1)) << 0) | ((((x >> 0) & 1)) << 1) | ((x >> 2) << 2))"
    );
    let zero = ScalarExpr::BitLinear(Box::new(ScalarExpr::Input(0)), vec![vec![0, 0], vec![2, 0]]);
    assert_eq!(to_cuda(&zero, &names), "(((x >> 2) << 2))");
    let cmp = ScalarExpr::Lt(Box::new(ScalarExpr::Input(0)), Box::new(ScalarExpr::Constant(1)));
    assert_eq!(to_cuda(&cmp, &names), "(x < 1)");
    let eq = ScalarExpr::Eq(Box::new(ScalarExpr::Input(0)), Box::new(ScalarExpr::Input(1)));
    assert_eq!(to_cuda(&eq, &names), "(x == y)");
    let both = ScalarExpr::And(Box::new(cmp.clone()), Box::new(eq.clone()));
    assert_eq!(to_cuda(&both, &names), "(((x < 1) != 0) && ((x == y) != 0))");
    assert_eq!(to_cuda(&ScalarExpr::Constant(1234567890), &names), "1234567890");
}

#[test]
fn svg_grid_of_row_major() {
    let val = Valuation::new();
    let lin = Expression::Linearize(space_of(&[2, 3]));
    let grid = render_grid(&lin, &val).unwrap();
    assert_eq!(grid.width, 180);
    assert_eq!(grid.height, 120);
    assert_eq!(grid.max_volume, 6);
    assert_eq!(grid.rows.len(), 2);
    assert_eq!(grid.rows[1].len(), 3);
    let c = &grid.rows[1][2];
    assert_eq!((c.x, c.y, c.storage_offset, c.has_exec), (120, 60, 5, false));
    assert!(render_grid(&Expression::Linearize(space_of(&[6])), &val).is_none());
}

#[test]
fn svg_grid_with_threads() {
    let val = Valuation::new();
    let hw = Space::new(vec![
        Factor::new(Kind::Execution, Extent::Constant(2), None),
        Factor::new(Kind::Storage, Extent::Constant(4), None),
    ]);
    let id = Expression::Identity(hw);
    let grid = render_grid(&id, &val).unwrap();
    let c = &grid.rows[1][3];
    assert_eq!((c.exec_id, c.storage_offset, c.has_exec, c.hue), (1, 3, true, 137));
    assert_eq!(grid.max_volume, 1);
}

#[test]
fn valuation_lookup() {
    let mut val = Valuation::new();
    assert_eq!(val.get_extent(&Extent::Variable("N".to_string())), None);
    val.variables.insert("N".to_string(), 4);
    val.variables.insert("N".to_string(), 5);
    assert_eq!(val.get_extent(&Extent::Variable("N".to_string())), Some(5));
    let q = Extent::Quotient(Box::new(Extent::Constant(7)), Box::new(Extent::Constant(0)));
    assert_eq!(val.get_extent(&q), None);
    let big = Extent::Product(vec![Extent::Constant(u64::MAX), Extent::Constant(2)]);
    assert_eq!(val.get_extent(&big), None);
}
