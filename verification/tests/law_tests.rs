use ftpl::{AsLayout, Expression, Extent, Factor, Judgment, Kind, ScalarExpr, Space, Valuation};

fn space_of(extents: &[u64]) -> Space {
    Space::new(
        extents
            .iter()
            .map(|&e| Factor::new(Kind::Logical, Extent::Constant(e), None))
            .collect(),
    )
}

fn inputs(n: usize) -> Vec<ScalarExpr> {
    (0..n).map(ScalarExpr::Input).collect()
}

fn points(extents: &[u64]) -> Vec<Vec<u64>> {
    let mut out = vec![vec![]];
    for &e in extents {
        let mut next = Vec::new();
        for p in &out {
            for v in 0..e {
                let mut q = p.clone();
                q.push(v);
                next.push(q);
            }
        }
        out = next;
    }
    out
}

fn lowering_matches_map(e: &Expression, src: &[u64]) {
    let val = Valuation::new();
    let (lowered, domain) = e.lower(&val, inputs(src.len()));
    for x in points(src) {
        let y = e.apply(&val, &x).unwrap();
        let z: Vec<u64> = lowered.iter().map(|l| l.eval(&x)).collect();
        assert_eq!(y, z, "at {:?}", x);
        assert_eq!(domain.eval(&x), 1);
    }
}

#[test]
fn lowering_of_a_column_major_layout_computes_its_map() {
    let s = space_of(&[2, 3]);
    let col = Expression::Composition(
        Box::new(Expression::Permute(s.clone(), vec![1, 0])),
        Box::new(Expression::Linearize(space_of(&[3, 2]))),
    );
    lowering_matches_map(&col, &[2, 3]);
}

#[test]
fn lowering_of_split_join_pad_computes_their_maps() {
    lowering_matches_map(&Expression::Split(space_of(&[6]), 0, 2), &[6]);
    lowering_matches_map(&Expression::Join(space_of(&[2, 3]), 0), &[2, 3]);
    lowering_matches_map(
        &Expression::Pad(space_of(&[3, 2]), space_of(&[5, 4]), vec![(1, 1), (2, 0)]),
        &[3, 2],
    );
    lowering_matches_map(&Expression::Repeat(space_of(&[6]), space_of(&[4])), &[6]);
    lowering_matches_map(&Expression::Broadcast(space_of(&[3, 4]), space_of(&[1, 4])), &[3, 4]);
    let prod = Expression::Product(
        Box::new(Expression::Linearize(space_of(&[2, 2]))),
        Box::new(Expression::Unsqueeze(space_of(&[3]), 0, Factor::new(Kind::Logical, Extent::Constant(1), None))),
    );
    lowering_matches_map(&prod, &[2, 2, 3]);
}

#[test]
fn simplification_keeps_values() {
    let x = || Box::new(ScalarExpr::Input(0));
    let y = || Box::new(ScalarExpr::Input(1));
    let c = |v: u64| Box::new(ScalarExpr::Constant(v));
    // ((x * 4 + y) / 4) and ((x * 4 + y) % 4)
    let sum = || Box::new(ScalarExpr::Add(Box::new(ScalarExpr::Mul(x(), c(4))), y()));
    let div = ScalarExpr::Div(sum(), c(4));
    let rem = ScalarExpr::Mod(sum(), c(4));
    let nested = ScalarExpr::Add(Box::new(ScalarExpr::Add(x(), c(3))), c(4));
    let shift = ScalarExpr::Div(y(), c(8));
    for a in 0..20u64 {
        for b in 0..20u64 {
            let pt = [a, b];
            for e in [&div, &rem, &nested, &shift] {
                assert_eq!(e.clone().simplify().eval(&pt), e.eval(&pt));
            }
        }
    }
    assert_eq!(
        div.clone().simplify(),
        ScalarExpr::Add(x(), Box::new(ScalarExpr::BitShiftRight(y(), 2)))
    );
    assert_eq!(rem.clone().simplify(), ScalarExpr::Mod(y(), c(4)));
    assert_eq!(nested.clone().simplify(), ScalarExpr::Add(x(), c(7)));
}

#[test]
fn fusion_keeps_the_map() {
    let val = Valuation::new();
    let s1 = space_of(&[2, 3]);
    let s2 = space_of(&[6]);
    let s3 = space_of(&[3, 2]);
    let comp = Expression::Composition(
        Box::new(Expression::Reshape(s1.clone(), s2.clone())),
        Box::new(Expression::Reshape(s2.clone(), s3.clone())),
    );
    let simple = comp.clone().simplify_recursive();
    assert_eq!(simple, Expression::Reshape(s1.clone(), s3.clone()));
    for x in points(&[2, 3]) {
        assert_eq!(simple.apply(&val, &x), comp.apply(&val, &x));
    }
    let perms = Expression::Composition(
        Box::new(Expression::Permute(space_of(&[2, 3, 4]), vec![2, 0, 1])),
        Box::new(Expression::Permute(space_of(&[3, 4, 2]), vec![1, 2, 0])),
    );
    let fused = perms.clone().simplify_recursive();
    for x in points(&[2, 3, 4]) {
        assert_eq!(fused.apply(&val, &x), perms.apply(&val, &x));
    }
}

#[test]
fn injective_layouts_separate_points() {
    let val = Valuation::new();
    let e = Expression::Composition(
        Box::new(Expression::Flip(space_of(&[3, 4]), vec![true, false])),
        Box::new(Expression::Join(space_of(&[3, 4]), 0)),
    );
    assert_eq!(e.is_injective(), Judgment::True);
    let mut seen: Vec<Vec<u64>> = Vec::new();
    for x in points(&[3, 4]) {
        let y = e.apply(&val, &x).unwrap();
        assert!(!seen.contains(&y));
        seen.push(y);
    }
    assert_eq!(seen.len(), 12);
}

#[test]
fn shadow_inverse_undoes_the_shadow() {
    let val = Valuation::new();
    let s = space_of(&[8]);
    let m = vec![vec![1, 1, 0], vec![0, 1, 1], vec![0, 0, 1]];
    let shadow = Expression::BinaryShadow(s.clone(), m);
    let inv = shadow.inverse().unwrap();
    for o in 0..8u64 {
        let y = shadow.apply(&val, &[o]).unwrap();
        assert_eq!(inv.apply(&val, &y).unwrap(), vec![o]);
    }
}

#[test]
fn surjective_layouts_reach_every_target_point() {
    let val = Valuation::new();
    // linearize a 2x3 space, then delinearize into 3x2, then flip and join
    let e = Expression::Composition(
        Box::new(Expression::Composition(
            Box::new(Expression::Linearize(space_of(&[2, 3]))),
            Box::new(Expression::Delinearize(space_of(&[3, 2]))),
        )),
        Box::new(Expression::Composition(
            Box::new(Expression::Flip(space_of(&[3, 2]), vec![false, true])),
            Box::new(Expression::Join(space_of(&[3, 2]), 0)),
        )),
    );
    assert_eq!(e.is_surjective(), Judgment::True);
    let mut reached: Vec<u64> = Vec::new();
    for x in points(&[2, 3]) {
        let y = e.apply(&val, &x).unwrap();
        assert_eq!(y.len(), 1);
        reached.push(y[0]);
    }
    for o in 0..6u64 {
        assert!(reached.contains(&o), "offset {} not reached", o);
    }
}

#[test]
fn a_reshape_to_a_smaller_space_reaches_it_and_never_aliases() {
    let val = Valuation::new();
    let e = Expression::Reshape(space_of(&[2, 3]), space_of(&[2, 2]));
    // the judgment says the reshape aliases: its source volume is larger
    assert_eq!(e.is_aliasing(&val), Judgment::True);
    let mut seen: Vec<Vec<u64>> = Vec::new();
    for x in points(&[2, 3]) {
        if let Some(y) = e.apply(&val, &x) {
            assert!(!seen.contains(&y));
            seen.push(y);
        }
    }
    // every point of the target is reached, and offsets 4 and 5 are not mapped
    assert_eq!(seen.len(), 4);
    for y in points(&[2, 2]) {
        assert!(seen.contains(&y));
    }
    assert_eq!(e.apply(&val, &[1, 1]), None);
}

#[test]
fn non_aliasing_layouts_separate_points() {
    let val = Valuation::new();
    let e = Expression::Composition(
        Box::new(Expression::Reshape(space_of(&[4, 3]), space_of(&[2, 6]))),
        Box::new(Expression::Linearize(space_of(&[2, 6]))),
    );
    assert_eq!(e.is_aliasing(&val), Judgment::False);
    let mut seen: Vec<Vec<u64>> = Vec::new();
    for x in points(&[4, 3]) {
        let y = e.apply(&val, &x).unwrap();
        assert!(!seen.contains(&y));
        seen.push(y);
    }
    assert_eq!(seen.len(), 12);
}

#[test]
fn a_split_maps_onto_its_target() {
    // a split of 6 by 2 sends v to (v / 2, v % 2) in the target [3, 2]
    let val = Valuation::new();
    let e = Expression::Split(space_of(&[6]), 0, 2);
    assert_eq!(e.is_surjective(), Judgment::True);
    let t = e.target();
    assert_eq!(val.get_extent(&t.factors[0].extent), Some(3));
    assert_eq!(val.get_extent(&t.factors[1].extent), Some(2));
    assert_eq!(e.apply(&val, &[5]), Some(vec![2, 1]));
    let images: Vec<Vec<u64>> = (0..6u64).map(|v| e.apply(&val, &[v]).unwrap()).collect();
    for y in points(&[3, 2]) {
        assert!(images.contains(&y));
        assert!(t.is_valid(&val, &y));
    }
}

#[test]
fn simplified_volume_has_the_product_value() {
    let mut val = Valuation::new();
    val.variables.insert("n".to_string(), 5);
    let s = Space::new(vec![
        Factor::new(Kind::Logical, Extent::Constant(2), None),
        Factor::new(Kind::Logical, Extent::Variable("n".to_string()), None),
        Factor::new(Kind::Logical, Extent::Constant(3), None),
    ]);
    let vol = s.volume_extent();
    assert_eq!(val.get_extent(&vol), Some(30));
    assert_eq!(val.get_extent(&vol.simplify()), Some(30));
}

#[test]
fn the_inverse_of_a_product_undoes_it() {
    let val = Valuation::new();
    let m = vec![vec![1, 0, 1], vec![0, 1, 0], vec![0, 0, 1]];
    let e = Expression::Product(
        Box::new(Expression::Linearize(space_of(&[2, 3]))),
        Box::new(Expression::Product(
            Box::new(Expression::Permute(space_of(&[4, 5]), vec![1, 0])),
            Box::new(Expression::BinaryShadow(space_of(&[8]), m)),
        )),
    );
    let inv = e.inverse().unwrap();
    let mut count = 0;
    for x in points(&[2, 3, 4, 5, 8]) {
        let y = e.apply(&val, &x).unwrap();
        assert_eq!(y.len(), 4);
        assert_eq!(inv.apply(&val, &y).unwrap(), x);
        count += 1;
    }
    assert_eq!(count, 2 * 3 * 4 * 5 * 8);
}

#[test]
fn broadcasts_and_repeats_onto_smaller_extents_reach_every_point() {
    let val = Valuation::new();
    let b = Expression::Broadcast(space_of(&[4, 3]), space_of(&[1, 3]));
    let r = Expression::Repeat(space_of(&[4, 6]), space_of(&[2, 6]));
    assert_eq!(b.is_surjective(), Judgment::True);
    assert_eq!(r.is_surjective(), Judgment::True);
    let b_images: Vec<Vec<u64>> = points(&[4, 3]).iter().map(|x| b.apply(&val, x).unwrap()).collect();
    for y in points(&[1, 3]) {
        assert!(b_images.contains(&y));
    }
    let r_images: Vec<Vec<u64>> = points(&[4, 6]).iter().map(|x| r.apply(&val, x).unwrap()).collect();
    for y in points(&[2, 6]) {
        assert!(r_images.contains(&y));
    }
}

#[test]
fn fusing_shadows_keeps_the_map() {
    let val = Valuation::new();
    let s = space_of(&[8]);
    let m1 = vec![vec![1, 1, 0], vec![0, 1, 1], vec![0, 0, 1]];
    let m2 = vec![vec![1, 0, 1], vec![0, 1, 0], vec![0, 0, 1]];
    let e = Expression::Composition(
        Box::new(Expression::BinaryShadow(s.clone(), m1.clone())),
        Box::new(Expression::BinaryShadow(s.clone(), m2.clone())),
    );
    let fused = e.clone().simplify_recursive();
    assert!(matches!(fused, Expression::BinaryShadow(_, _)));
    for o in 0..8u64 {
        assert_eq!(fused.apply(&val, &[o]), e.apply(&val, &[o]));
    }
}

#[test]
fn fusing_shadows_multiplies_the_second_matrix_by_the_first() {
    let val = Valuation::new();
    let s = space_of(&[4]);
    let m1 = vec![vec![1, 1], vec![0, 1]];
    let m2 = vec![vec![1, 0], vec![1, 1]];
    let e = Expression::Composition(
        Box::new(Expression::BinaryShadow(s.clone(), m1)),
        Box::new(Expression::BinaryShadow(s.clone(), m2)),
    );
    let fused = e.clone().simplify_recursive();
    assert_eq!(fused, Expression::BinaryShadow(s, vec![vec![1, 1], vec![1, 0]]));
    assert_eq!(e.apply(&val, &[1]), Some(vec![3]));
    for o in 0..4u64 {
        assert_eq!(fused.apply(&val, &[o]), e.apply(&val, &[o]));
    }
}

#[test]
fn strides_of_permuted_linearizations_match_steps() {
    let val = Valuation::new();
    let e = Expression::Composition(
        Box::new(Expression::Permute(space_of(&[4, 6, 2]), vec![2, 0, 1])),
        Box::new(Expression::Linearize(space_of(&[6, 2, 4]))),
    );
    let extents = [4u64, 6, 2];
    for dim in 0..3 {
        let stride = e.get_stride(dim, &val).unwrap();
        for x in points(&extents) {
            if x[dim] + 1 < extents[dim] {
                let mut x1 = x.clone();
                x1[dim] += 1;
                let a = e.apply(&val, &x).unwrap()[0];
                let b = e.apply(&val, &x1).unwrap()[0];
                assert_eq!(b, a + stride);
            }
        }
    }
    assert_eq!(e.get_stride(0, &val), Some(1));
    assert_eq!(e.get_stride(1, &val), Some(8));
    assert_eq!(e.get_stride(2, &val), Some(4));
}

#[test]
fn lowering_with_a_final_flip_or_slice_computes_the_map() {
    let val = Valuation::new();
    let flip_last = Expression::Composition(
        Box::new(Expression::Delinearize(space_of(&[4, 3]))),
        Box::new(Expression::Flip(space_of(&[4, 3]), vec![true, false])),
    );
    let (lowered, _) = flip_last.lower(&val, inputs(1));
    for o in 0..12u64 {
        let y = flip_last.apply(&val, &[o]).unwrap();
        let z: Vec<u64> = lowered.iter().map(|l| l.eval(&[o])).collect();
        assert_eq!(y, z, "at {}", o);
    }
    let slice = Expression::Slice(space_of(&[6, 5]), vec![(2, 5), (1, 4)]);
    let (lowered, domain) = slice.lower(&val, inputs(2));
    for x in points(&[6, 5]) {
        match slice.apply(&val, &x) {
            Some(y) => {
                let z: Vec<u64> = lowered.iter().map(|l| l.eval(&x)).collect();
                assert_eq!(y, z, "at {:?}", x);
                assert_eq!(domain.eval(&x), 1);
            }
            None => assert_eq!(domain.eval(&x), 0),
        }
    }
}

#[test]
fn the_domain_of_a_slice_marks_where_it_is_defined() {
    let val = Valuation::new();
    for (start, end) in [(0u64, 3u64), (1, 4), (2, 2)] {
        let slice = Expression::Slice(space_of(&[4]), vec![(start, end)]);
        let (_, domain) = slice.lower(&val, inputs(1));
        for c in 0..4u64 {
            assert_eq!(domain.eval(&[c]) != 0, slice.apply(&val, &[c]).is_some(), "at {} in {:?}", c, (start, end));
        }
    }
}

#[test]
fn the_inverse_of_a_composition_inverts_its_last_part_first() {
    // the inverse of `permute then linearize` is `delinearize then the
    // inverse permutation`, which takes each offset back to its point
    let val = Valuation::new();
    let e = Expression::Composition(
        Box::new(Expression::Permute(space_of(&[2, 3]), vec![1, 0])),
        Box::new(Expression::Linearize(space_of(&[3, 2]))),
    );
    assert_eq!(e.apply(&val, &[1, 2]), Some(vec![5]));
    let inv = e.inverse().unwrap();
    assert_eq!(inv.apply(&val, &[5]), Some(vec![1, 2]));
    for x in points(&[2, 3]) {
        let y = e.apply(&val, &x).unwrap();
        assert_eq!(inv.apply(&val, &y), Some(x));
    }
}

#[test]
fn the_normal_form_keeps_layers_that_come_out_of_order_together() {
    let val = Valuation::new();
    // a placement before a view stays whole in the view layer
    let e = Expression::Composition(
        Box::new(Expression::Delinearize(space_of(&[2, 3]))),
        Box::new(Expression::Permute(space_of(&[2, 3]), vec![1, 0])),
    );
    assert_eq!(e.apply(&val, &[1]), Some(vec![1, 0]));
    let nf = e.clone().normalize();
    assert_eq!(nf.view, e.clone());
    for o in 0..6u64 {
        assert_eq!(nf.apply(&val, &[o]), e.apply(&val, &[o]));
    }
    // a shadow before a flip
    let sh = Expression::Composition(
        Box::new(Expression::BinaryShadow(space_of(&[4]), vec![vec![0, 1], vec![1, 0]])),
        Box::new(Expression::Flip(space_of(&[4]), vec![true])),
    );
    let nf = sh.clone().normalize();
    for o in 0..4u64 {
        assert_eq!(nf.apply(&val, &[o]), sh.apply(&val, &[o]), "at {}", o);
    }
    assert_eq!(nf.apply(&val, &[1]), Some(vec![1]));
}

#[test]
fn products_of_injective_layouts_separate_points() {
    let val = Valuation::new();
    let m = vec![vec![1, 1], vec![0, 1]];
    let e = Expression::Product(
        Box::new(Expression::Delinearize(space_of(&[2, 3]))),
        Box::new(Expression::BinaryShadow(space_of(&[4]), m)),
    );
    assert_eq!(e.is_injective(), Judgment::True);
    assert_eq!(e.is_aliasing(&val), Judgment::False);
    let mut seen: Vec<Vec<u64>> = Vec::new();
    for x in points(&[6, 4]) {
        let y = e.apply(&val, &x).unwrap();
        assert!(!seen.contains(&y));
        seen.push(y);
    }
    assert_eq!(seen.len(), 24);
}

#[test]
fn products_of_surjective_layouts_reach_every_point() {
    let val = Valuation::new();
    let e = Expression::Product(
        Box::new(Expression::Linearize(space_of(&[2, 2]))),
        Box::new(Expression::Permute(space_of(&[3, 2]), vec![1, 0])),
    );
    assert_eq!(e.is_surjective(), Judgment::True);
    let images: Vec<Vec<u64>> = points(&[2, 2, 3, 2]).iter().map(|x| e.apply(&val, x).unwrap()).collect();
    for y in points(&[4, 2, 3]) {
        assert!(images.contains(&y));
    }
}

#[test]
fn a_double_transpose_is_equivalent_to_the_layout() {
    let s = Space::new(vec![
        Factor::new(Kind::Logical, Extent::Constant(8), Some("H".to_string())),
        Factor::new(Kind::Logical, Extent::Constant(8), Some("W".to_string())),
    ]);
    let l1 = ftpl::Layout::row_major(s);
    let l2 = l1.clone().transpose().transpose();
    assert!(l1.equivalent_to(&l2));
    assert!(!l1.equivalent_to(&l1.clone().transpose()));
}

#[test]
fn shuffling_from_a_column_major_layout_moves_each_point() {
    let val = Valuation::new();
    let s = space_of(&[4, 8]);
    let source = ftpl::Layout::col_major(s.clone());
    let target = ftpl::Layout::row_major(s.clone());
    let shuffle = source.shuffle_to(&target).unwrap();
    for x in points(&[4, 8]) {
        let from = source.apply(&val, &x).unwrap();
        assert_eq!(shuffle.apply(&val, &from), target.apply(&val, &x));
    }
}

#[test]
fn squeezing_a_dimension_of_extent_one_keeps_points_apart() {
    let val = Valuation::new();
    let e = Expression::Squeeze(space_of(&[3, 1, 2]), 1);
    assert_eq!(e.is_injective(), Judgment::True);
    let mut seen: Vec<Vec<u64>> = Vec::new();
    for x in points(&[3, 1, 2]) {
        let y = e.apply(&val, &x).unwrap();
        assert!(!seen.contains(&y));
        seen.push(y);
    }
}

#[test]
fn images_lie_in_the_target_space() {
    let val = Valuation::new();
    let e = Expression::Composition(
        Box::new(Expression::Pad(space_of(&[3, 2]), space_of(&[5, 2]), vec![(1, 1), (0, 0)])),
        Box::new(Expression::Broadcast(space_of(&[5, 2]), space_of(&[5, 1]))),
    );
    let t = e.target();
    for x in points(&[3, 2]) {
        let y = e.apply(&val, &x).unwrap();
        assert!(t.is_valid(&val, &y), "{:?}", y);
    }
}

#[test]
fn a_left_quotient_recomposes_to_the_layout() {
    let val = Valuation::new();
    let t = Expression::Linearize(space_of(&[2]));
    let a = Expression::Flip(space_of(&[3]), vec![true]);
    let r = Expression::Identity(space_of(&[2]));
    let e = Expression::Product(
        Box::new(Expression::Product(Box::new(t.clone()), Box::new(a))),
        Box::new(r),
    );
    let q = e.clone().left_div(t.clone()).unwrap();
    let recomposed = Expression::Product(Box::new(t), Box::new(q));
    for x in points(&[2, 3, 2]) {
        assert_eq!(recomposed.apply(&val, &x), e.apply(&val, &x));
    }
}

#[test]
fn the_stride_of_a_linearization_is_the_product_of_later_extents() {
    let val = Valuation::new();
    let e = Expression::Linearize(space_of(&[4, 8]));
    assert_eq!(e.get_stride(0, &val), Some(8));
    assert_eq!(e.get_stride(1, &val), Some(1));
}

#[test]
fn fusing_reshapes_through_a_smaller_space_maps_more_points() {
    // the fused reshape maps offset 5, which the middle space of 4 leaves out
    let val = Valuation::new();
    let e = Expression::Composition(
        Box::new(Expression::Reshape(space_of(&[6]), space_of(&[4]))),
        Box::new(Expression::Reshape(space_of(&[4]), space_of(&[6]))),
    );
    assert_eq!(e.apply(&val, &[5]), None);
    let fused = e.simplify_recursive();
    assert_eq!(fused.apply(&val, &[5]), Some(vec![5]));
}

#[test]
fn joins_and_splits_keep_the_volume() {
    let val = Valuation::new();
    let join = Expression::Join(space_of(&[3, 4, 5]), 1);
    assert_eq!(
        val.get_extent(&join.target().volume_extent()),
        val.get_extent(&join.source().volume_extent())
    );
    assert_eq!(val.get_extent(&join.target().volume_extent()), Some(60));
    let split = Expression::Split(space_of(&[12, 2]), 0, 3);
    assert_eq!(val.get_extent(&split.target().volume_extent()), Some(24));
}

#[test]
fn the_lowered_domain_marks_where_the_layout_is_defined() {
    let val = Valuation::new();
    let e = Expression::Product(
        Box::new(Expression::Reshape(space_of(&[2, 3]), space_of(&[2, 2]))),
        Box::new(Expression::Linearize(space_of(&[3]))),
    );
    let (_, domain) = e.lower(&val, inputs(3));
    let mut defined = 0;
    for x in points(&[2, 3, 3]) {
        let mapped = e.apply(&val, &x).is_some();
        assert_eq!(domain.eval(&x) != 0, mapped, "at {:?}", x);
        if mapped {
            defined += 1;
        }
    }
    assert_eq!(defined, 12);
}

#[test]
fn permutations_keep_the_volume() {
    let val = Valuation::new();
    let perm = Expression::Permute(space_of(&[3, 4, 5]), vec![2, 0, 1]);
    assert_eq!(perm.target().rank(), 3);
    assert_eq!(val.get_extent(&perm.target().volume_extent()), Some(60));
    assert_eq!(
        val.get_extent(&perm.target().volume_extent()),
        val.get_extent(&perm.source().volume_extent())
    );
}

#[test]
fn fusing_reshapes_through_a_larger_space_keeps_undefined_points() {
    // offsets 4 and 5 fit the middle space of 8 but not the last space of 4
    let val = Valuation::new();
    let e = Expression::Composition(
        Box::new(Expression::Reshape(space_of(&[6]), space_of(&[8]))),
        Box::new(Expression::Reshape(space_of(&[8]), space_of(&[4]))),
    );
    let fused = e.clone().simplify_recursive();
    assert!(matches!(fused, Expression::Reshape(_, _)));
    for o in 0..6u64 {
        assert_eq!(fused.apply(&val, &[o]), e.apply(&val, &[o]), "at {}", o);
    }
    assert_eq!(fused.apply(&val, &[5]), None);
    assert_eq!(fused.apply(&val, &[3]), Some(vec![3]));
}

#[test]
fn folding_constants_up_to_the_largest_value_keeps_it() {
    // (x + 2^63) + (2^63 - 1) stays within 64 bits at x = 0
    let e = ScalarExpr::Add(
        Box::new(ScalarExpr::Add(Box::new(ScalarExpr::Input(0)), Box::new(ScalarExpr::Constant(1u64 << 63)))),
        Box::new(ScalarExpr::Constant((1u64 << 63) - 1)),
    );
    let before = e.eval(&[0]);
    let simple = e.simplify();
    assert_eq!(
        simple,
        ScalarExpr::Add(Box::new(ScalarExpr::Input(0)), Box::new(ScalarExpr::Constant(u64::MAX)))
    );
    assert_eq!(simple.eval(&[0]), before);
    assert_eq!(before, u64::MAX);
}

#[test]
fn the_lowered_domain_of_a_composition_marks_where_it_is_defined() {
    let val = Valuation::new();
    let e = Expression::Composition(
        Box::new(Expression::Linearize(space_of(&[2, 3]))),
        Box::new(Expression::Reshape(space_of(&[6]), space_of(&[4]))),
    );
    let (_, domain) = e.lower(&val, inputs(2));
    let mut defined = 0;
    for x in points(&[2, 3]) {
        let mapped = e.apply(&val, &x).is_some();
        assert_eq!(domain.eval(&x) != 0, mapped, "at {:?}", x);
        if mapped {
            defined += 1;
        }
    }
    assert_eq!(defined, 4);
}

#[test]
fn equivalent_layouts_agree_on_every_point() {
    let val = Valuation::new();
    let s = space_of(&[8, 8]);
    let l1 = ftpl::Layout::row_major(s);
    let l2 = l1.clone().transpose().transpose();
    assert!(l1.equivalent_to(&l2));
    for x in points(&[8, 8]) {
        assert_eq!(l1.apply(&val, &x), l2.apply(&val, &x), "at {:?}", x);
    }
    // a point outside the source is left unmapped by both
    assert_eq!(l1.apply(&val, &[8, 0]), None);
    assert_eq!(l2.apply(&val, &[8, 0]), None);
}

#[test]
fn the_layers_of_a_single_layer_compose_to_it() {
    let val = Valuation::new();
    let e = Expression::Linearize(space_of(&[4, 8]));
    let nf = e.clone().normalize();
    for x in points(&[4, 8]) {
        let layered = nf
            .view
            .apply(&val, &x)
            .and_then(|v| nf.placement.apply(&val, &v))
            .and_then(|p| nf.shadow.apply(&val, &p));
        assert_eq!(layered, e.apply(&val, &x), "at {:?}", x);
    }
}

#[test]
fn the_layers_of_a_view_then_a_placement_compose_to_it() {
    let val = Valuation::new();
    let e = Expression::Composition(
        Box::new(Expression::Permute(space_of(&[2, 3]), vec![1, 0])),
        Box::new(Expression::Linearize(space_of(&[3, 2]))),
    );
    let nf = e.clone().normalize();
    for x in points(&[2, 3]) {
        let layered = nf
            .view
            .apply(&val, &x)
            .and_then(|v| nf.placement.apply(&val, &v))
            .and_then(|p| nf.shadow.apply(&val, &p));
        assert_eq!(layered, e.apply(&val, &x), "at {:?}", x);
    }
}

#[test]
fn permuting_a_layout_reads_each_old_dimension_from_its_new_position() {
    let val = Valuation::new();
    let s = space_of(&[2, 3, 4]);
    let l = ftpl::Layout::identity(s.clone()).permute(vec![1, 2, 0]);
    let src = l.source();
    let extents: Vec<Option<u64>> = src.factors.iter().map(|f| val.get_extent(&f.extent)).collect();
    assert_eq!(extents, vec![Some(4), Some(2), Some(3)]);
    assert_eq!(l.apply(&val, &[3, 1, 2]), Some(vec![1, 2, 3]));
    for y in points(&[4, 2, 3]) {
        assert_eq!(l.apply(&val, &y), Some(vec![y[1], y[2], y[0]]));
    }
}

#[test]
fn splitting_a_layout_joins_the_split_dimension_back() {
    let val = Valuation::new();
    let l = ftpl::Layout::row_major(space_of(&[6])).split(0, 2);
    let src = l.source();
    assert_eq!(src.rank(), 2);
    assert_eq!(val.get_extent(&src.volume_extent()), Some(6));
    assert_eq!(l.apply(&val, &[0, 1]), Some(vec![1]));
    for y in points(&[3, 2]) {
        assert_eq!(l.apply(&val, &y), Some(vec![y[0] * 2 + y[1]]));
    }
}

#[test]
fn reshape_judgments_follow_the_volumes() {
    let val = Valuation::new();
    let shrink = Expression::Reshape(space_of(&[10]), space_of(&[5]));
    assert_eq!(shrink.is_aliasing(&val), Judgment::True);
    assert_eq!(shrink.is_injective(), Judgment::Unknown);
    assert_eq!(shrink.is_surjective(), Judgment::True);
    let grow = Expression::Reshape(space_of(&[6]), space_of(&[10]));
    assert_eq!(grow.is_injective(), Judgment::True);
    assert_eq!(grow.is_surjective(), Judgment::Unknown);
    assert_eq!(grow.is_aliasing(&val), Judgment::False);
    assert_eq!(grow.apply(&val, &[5]), Some(vec![5]));
    let symbolic = Expression::Reshape(
        Space::new(vec![Factor::new(Kind::Logical, Extent::Variable("n".to_string()), None)]),
        space_of(&[4]),
    );
    assert_eq!(symbolic.is_injective(), Judgment::Unknown);
}

#[test]
fn shadow_judgments_follow_the_matrix() {
    let swap = Expression::BinaryShadow(space_of(&[4]), vec![vec![0, 1], vec![1, 0]]);
    assert_eq!(swap.is_injective(), Judgment::True);
    assert_eq!(swap.is_surjective(), Judgment::True);
    let zero = Expression::BinaryShadow(space_of(&[4]), vec![vec![0, 0], vec![0, 0]]);
    assert_eq!(zero.is_injective(), Judgment::Unknown);
    assert_eq!(zero.is_surjective(), Judgment::Unknown);
    let val = Valuation::new();
    assert_eq!(zero.apply(&val, &[0]), zero.apply(&val, &[1]));
    let odd = Expression::BinaryShadow(space_of(&[6]), vec![vec![0, 1], vec![1, 0]]);
    assert_eq!(odd.is_injective(), Judgment::True);
    assert_eq!(odd.is_surjective(), Judgment::Unknown);
}

#[test]
fn vector_widths_are_powers_of_two() {
    let val = Valuation::new();
    assert_eq!(Expression::Linearize(space_of(&[4, 6])).max_vector_width(&val), 4);
    assert_eq!(Expression::Linearize(space_of(&[4, 8])).max_vector_width(&val), 8);
    assert_eq!(Expression::Linearize(space_of(&[4, 1])).max_vector_width(&val), 1);
    assert_eq!(Expression::Linearize(space_of(&[2, 15])).max_vector_width(&val), 8);
}

#[test]
fn the_lowered_domain_of_a_product_with_a_slice_marks_where_it_is_defined() {
    let val = Valuation::new();
    let e = Expression::Product(
        Box::new(Expression::Slice(space_of(&[4]), vec![(0, 2)])),
        Box::new(Expression::Slice(space_of(&[5]), vec![(1, 4)])),
    );
    let (_, domain) = e.lower(&val, inputs(2));
    for x in points(&[4, 5]) {
        assert_eq!(domain.eval(&x) != 0, e.apply(&val, &x).is_some(), "at {:?}", x);
    }
}

#[test]
fn the_layers_of_a_view_a_placement_and_a_shadow_compose_to_the_layout() {
    let val = Valuation::new();
    let e = Expression::Composition(
        Box::new(Expression::Composition(
            Box::new(Expression::Permute(space_of(&[2, 4]), vec![1, 0])),
            Box::new(Expression::Linearize(space_of(&[4, 2]))),
        )),
        Box::new(Expression::BinaryShadow(space_of(&[8]), vec![vec![1, 1, 0], vec![0, 1, 0], vec![0, 0, 1]])),
    );
    let nf = e.clone().normalize();
    for x in points(&[2, 4]) {
        assert_eq!(nf.apply(&val, &x), e.apply(&val, &x), "at {:?}", x);
    }
}

#[test]
fn simplifying_keeps_evaluation_safe() {
    // x / 0 evaluates to 0; simplification leaves the division as it is
    let div = ScalarExpr::Div(Box::new(ScalarExpr::Input(0)), Box::new(ScalarExpr::Constant(0)));
    assert_eq!(div.eval(&[7]), 0);
    let simple = div.clone().simplify();
    assert_eq!(simple.eval(&[7]), 0);
    // (x * 4 + y) / 4 becomes x + y / 4, which is x + (y >> 2)
    let sum = ScalarExpr::Add(
        Box::new(ScalarExpr::Mul(Box::new(ScalarExpr::Input(0)), Box::new(ScalarExpr::Constant(4)))),
        Box::new(ScalarExpr::Input(1)),
    );
    let q = ScalarExpr::Div(Box::new(sum), Box::new(ScalarExpr::Constant(4))).simplify();
    assert_eq!(
        q,
        ScalarExpr::Add(
            Box::new(ScalarExpr::Input(0)),
            Box::new(ScalarExpr::BitShiftRight(Box::new(ScalarExpr::Input(1)), 2))
        )
    );
    assert_eq!(q.eval(&[3, 9]), 5);
}
