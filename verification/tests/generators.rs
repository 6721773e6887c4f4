use palette_trap::design::{
    defeat_any_fit, defeat_best_fusion, generate_design, round_down_even, Strategy,
};

#[test]
fn any_fit_smallest() {
    let (palettes, nb_colors) = defeat_any_fit(2);
    assert_eq!(nb_colors, 4);
    assert_eq!(palettes, vec![vec![0], vec![1], vec![2], vec![3]]);
}

#[test]
fn any_fit_four() {
    let (palettes, nb_colors) = defeat_any_fit(4);
    assert_eq!(nb_colors, 8);
    let expected: Vec<Vec<u8>> = vec![
        vec![0, 2],
        vec![1, 3],
        vec![0, 4],
        vec![1, 5],
        vec![0, 6],
        vec![1, 7],
        vec![2, 4],
        vec![3, 5],
        vec![2, 6],
        vec![3, 7],
        vec![4, 6],
        vec![5, 7],
    ];
    assert_eq!(palettes, expected);
}

#[test]
fn any_fit_zero_emits_nothing() {
    let (palettes, nb_colors) = defeat_any_fit(0);
    assert_eq!(nb_colors, 0);
    assert!(palettes.is_empty());
}

#[test]
fn any_fit_counts_and_shapes() {
    // 2 * C(6, 3) proto-palettes of size 3 each, drawn from 0..12.
    let (palettes, nb_colors) = defeat_any_fit(6);
    assert_eq!(nb_colors, 12);
    assert_eq!(palettes.len(), 2 * 20);
    for (t, pal) in palettes.iter().enumerate() {
        assert_eq!(pal.len(), 3);
        for (i, &a) in pal.iter().enumerate() {
            assert!((a as usize) < 12);
            // parity alternation: even palettes at even positions
            assert_eq!(a % 2, (t % 2) as u8);
            for &b in &pal[i + 1..] {
                assert_ne!(a, b);
            }
        }
    }
}

#[test]
fn best_fusion_smallest() {
    let (palettes, nb_colors) = defeat_best_fusion(2);
    assert_eq!(nb_colors, 4);
    assert_eq!(palettes, vec![vec![0], vec![2], vec![1], vec![3]]);
}

#[test]
fn best_fusion_four() {
    let (palettes, nb_colors) = defeat_best_fusion(4);
    assert_eq!(nb_colors, 6);
    let expected: Vec<Vec<u8>> = vec![
        vec![0, 1, 2],
        vec![0, 1, 4],
        vec![0, 1, 3],
        vec![0, 1, 5],
        vec![0, 4, 5],
        vec![1, 4, 5],
        vec![0, 2, 3],
        vec![2, 3, 4],
        vec![1, 2, 3],
        vec![2, 3, 5],
        vec![2, 4, 5],
        vec![3, 4, 5],
    ];
    assert_eq!(palettes, expected);
    // The lock colors 4 and 5 appear only in palettes derived from an
    // intersection, never in the unmodified combination members.
    for (t, pal) in palettes.iter().enumerate() {
        let in_block = t % 6;
        if in_block == 0 || in_block == 2 {
            assert!(pal.iter().all(|&c| c < 4));
        } else {
            assert!(pal.iter().any(|&c| c == 4 || c == 5));
        }
    }
}

#[test]
fn best_fusion_zero_emits_nothing() {
    let (palettes, nb_colors) = defeat_best_fusion(0);
    assert_eq!(nb_colors, 2);
    assert!(palettes.is_empty());
}

#[test]
fn best_fusion_counts_and_shapes() {
    // 2 * 6 + 3 * 4 proto-palettes of size exactly 5 each.
    let (palettes, nb_colors) = defeat_best_fusion(6);
    assert_eq!(nb_colors, 8);
    assert_eq!(palettes.len(), 2 * 6 + 3 * 4);
    for pal in &palettes {
        assert_eq!(pal.len(), 5);
        for (i, &a) in pal.iter().enumerate() {
            assert!(a < 8);
            for &b in &pal[i + 1..] {
                assert_ne!(a, b);
            }
        }
    }
}

#[test]
fn generator_is_deterministic() {
    assert_eq!(defeat_best_fusion(6), defeat_best_fusion(6));
    assert_eq!(defeat_any_fit(6), defeat_any_fit(6));
}

#[test]
fn generate_design_dispatches() {
    let (palettes, nb_colors) = generate_design(Strategy::AnyFit, 4).unwrap();
    assert_eq!((palettes, nb_colors), defeat_any_fit(4));
    let (palettes, nb_colors) = generate_design(Strategy::BestFusion, 4).unwrap();
    assert_eq!((palettes, nb_colors), defeat_best_fusion(4));
}

#[test]
fn generate_design_rejects_oversized() {
    // More than 256 color indices would be needed: a configuration error,
    // reported before any generation.
    assert!(generate_design(Strategy::AnyFit, 130).is_none());
    assert!(generate_design(Strategy::BestFusion, 256).is_none());
}

#[test]
fn round_down_even_clears_only_the_low_bit() {
    assert_eq!(round_down_even(0), 0);
    assert_eq!(round_down_even(3), 2);
    assert_eq!(round_down_even(4), 4);
    assert_eq!(round_down_even(5), 4);
    assert_eq!(round_down_even(7), 6);
    assert_eq!(round_down_even(8), 8);
}
