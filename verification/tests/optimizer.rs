use davis_edi::adder::EventAdder;
use davis_edi::mask::Mask;
use davis_edi::optimize::{candidate_coefficient, energy_score, min_unimodal_index};

#[test]
fn unimodal_search_finds_the_minimizer() {
    let energies: Vec<i64> = vec![50, 20, 5, 3, 8, 30, 70];
    assert_eq!(min_unimodal_index(&energies), 3);
}

#[test]
fn unimodal_search_handles_edge_valleys() {
    let rising: Vec<i64> = vec![1, 2, 3, 4];
    assert_eq!(min_unimodal_index(&rising), 0);
    let falling: Vec<i64> = vec![9, 7, 4, 2];
    assert_eq!(min_unimodal_index(&falling), 3);
    let single: Vec<i64> = vec![42];
    assert_eq!(min_unimodal_index(&single), 0);
}

#[test]
fn candidate_grid_spans_the_search_interval() {
    assert_eq!(candidate_coefficient(0, 61), 0);
    assert_eq!(candidate_coefficient(30, 61), 250);
    assert_eq!(candidate_coefficient(60, 61), 500);
}

#[test]
fn optimizer_fixes_the_found_coefficient() {
    let mut a = EventAdder::new(2, 2, 0, 1000);
    let energies: Vec<i64> = vec![50, 20, 5, 3, 8, 30, 70];
    let k = a.optimize_c(&energies);
    assert_eq!(k, 3);
    // 3 * 500 / 6 thousandths
    assert_eq!(a.current_coefficient(), 250);
}

fn mask_from(rows: &[&[u8]]) -> Mask {
    let h = rows.len();
    let w = rows[0].len();
    let mut m = Mask::zeros(w, h);
    for (y, row) in rows.iter().enumerate() {
        for (x, v) in row.iter().enumerate() {
            m.set(x, y, *v != 0);
        }
    }
    m
}

#[test]
fn erosion_keeps_only_fully_supported_pixels() {
    let m = mask_from(&[
        &[0, 1, 0],
        &[1, 1, 1],
        &[0, 1, 0],
    ]);
    let e = m.erode();
    assert!(e.get(1, 1));
    assert_eq!(e.count_foreground(), 1);
}

#[test]
fn dilation_spreads_by_one_cross_step() {
    let mut m = Mask::zeros(3, 3);
    m.set(1, 1, true);
    let d = m.dilate();
    assert_eq!(d.count_foreground(), 5);
    assert!(d.get(1, 0) && d.get(0, 1) && d.get(1, 1) && d.get(2, 1) && d.get(1, 2));
    assert!(!d.get(0, 0));
}

#[test]
fn thinning_reduces_a_cross_to_its_center() {
    let m = mask_from(&[
        &[0, 1, 0],
        &[1, 1, 1],
        &[0, 1, 0],
    ]);
    let t = m.thin();
    assert_eq!(t.count_foreground(), 1);
    assert!(t.get(1, 1));
}

#[test]
fn thinning_an_empty_mask_is_empty() {
    let m = Mask::zeros(4, 4);
    assert_eq!(m.thin().count_foreground(), 0);
}

#[test]
fn energy_combines_total_variation_and_sharpness() {
    // 2x2 grids: latent mask has 3 foreground pixels (tv = 3); the thinned
    // masks overlap in exactly 1 pixel (sharpness = 1)
    let edge_thinned = mask_from(&[&[1, 0], &[0, 1]]);
    let latent_thinned = mask_from(&[&[1, 1], &[0, 0]]);
    let latent_mask = mask_from(&[&[1, 1], &[1, 0]]);
    // 100 * (0.03 * 3 - 1) = 9 - 100
    assert_eq!(energy_score(&edge_thinned, &latent_thinned, &latent_mask), 3 * 3 - 100);
}

#[test]
fn energy_minimization_over_synthetic_curve() {
    // a synthetic unimodal energy curve over 61 candidates with its valley
    // at candidate 24: the search returns the known minimizer
    let mut energies: Vec<i64> = Vec::new();
    for k in 0..61i64 {
        energies.push((k - 24) * (k - 24));
    }
    let k = min_unimodal_index(&energies);
    assert_eq!(k, 24);
    assert_eq!(candidate_coefficient(k, 61), 200);
}
