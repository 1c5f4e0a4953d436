use neural_ascii::ascii::ascii_to_cells;
use neural_ascii::ascii::generate_number_ascii_art;
use neural_ascii::ascii::render_ascii_grid;
use neural_ascii::labels::to_one_hot;
use neural_ascii::params::ModelError;
use neural_ascii::params::ParamStore;
use neural_ascii::scalar::argmax_keys;
use neural_ascii::scalar::check_all_finite;
use neural_ascii::scalar::is_finite_bits;
use neural_ascii::scalar::order_key;

#[test]
fn finite_bits_classifies_patterns() {
    assert!(is_finite_bits(0));
    assert!(is_finite_bits(1.0f32.to_bits()));
    assert!(is_finite_bits((-0.0f32).to_bits()));
    assert!(is_finite_bits(f32::MAX.to_bits()));
    assert!(!is_finite_bits(f32::INFINITY.to_bits()));
    assert!(!is_finite_bits(f32::NEG_INFINITY.to_bits()));
    assert!(!is_finite_bits(f32::NAN.to_bits()));
}

#[test]
fn all_finite_spots_one_bad_element() {
    let good = vec![0u32, 1.5f32.to_bits(), (-2.25f32).to_bits()];
    assert!(check_all_finite(&good));
    let bad = vec![0u32, f32::NAN.to_bits(), 1.0f32.to_bits()];
    assert!(!check_all_finite(&bad));
    let empty: Vec<u32> = Vec::new();
    assert!(check_all_finite(&empty));
}

#[test]
fn order_key_follows_float_order() {
    let values = [
        f32::NEG_INFINITY,
        -100.0f32,
        -1.0,
        -0.0,
        0.0,
        0.5,
        1.0,
        100.0,
        f32::INFINITY,
    ];
    for pair in values.windows(2) {
        let a = order_key(pair[0].to_bits());
        let b = order_key(pair[1].to_bits());
        assert!(a < b, "{} vs {}", pair[0], pair[1]);
    }
}

#[test]
fn argmax_takes_last_of_equal_maxima() {
    assert_eq!(argmax_keys(&vec![5u32, 9, 9, 2]), 2);
    assert_eq!(argmax_keys(&vec![7u32]), 0);
    let scores = [0.1f32, 0.9, 0.9, 0.3];
    let keys: Vec<u32> = scores.iter().map(|x| order_key(x.to_bits())).collect();
    assert_eq!(argmax_keys(&keys), 2);
}

#[test]
fn one_hot_sets_exactly_the_label() {
    let encoded = to_one_hot(&vec![1u8, 0], 3);
    assert_eq!(encoded, vec![0u8, 1, 0, 1, 0, 0]);
    let empty = to_one_hot(&Vec::new(), 10);
    assert!(empty.is_empty());
}

#[test]
fn create_yields_expected_shapes_and_zero_biases() {
    let w1 = vec![1.0f32.to_bits(); 12];
    let w2 = vec![0.5f32.to_bits(); 6];
    let store = ParamStore::create(4, 3, 2, w1.clone(), w2.clone()).unwrap();
    assert_eq!(store.input_size, 4);
    assert_eq!(store.hidden_size, 3);
    assert_eq!(store.output_size, 2);
    assert_eq!(store.weights1, w1);
    assert_eq!(store.weights2, w2);
    assert_eq!(store.biases1, vec![0u32; 3]);
    assert_eq!(store.biases2, vec![0u32; 2]);
}

#[test]
fn create_rejects_zero_dimension() {
    let r = ParamStore::create(0, 3, 2, Vec::new(), vec![0u32; 6]);
    assert_eq!(r.unwrap_err(), ModelError::Config);
}

#[test]
fn create_rejects_mismatched_lengths() {
    let r = ParamStore::create(4, 3, 2, vec![0u32; 11], vec![0u32; 6]);
    assert_eq!(r.unwrap_err(), ModelError::Config);
}

#[test]
fn create_rejects_nonfinite_samples() {
    let mut w1 = vec![0u32; 12];
    w1[7] = f32::NAN.to_bits();
    let r = ParamStore::create(4, 3, 2, w1, vec![0u32; 6]);
    assert_eq!(r.unwrap_err(), ModelError::Divergence);
}

#[test]
fn from_parts_round_trips_tensors() {
    let store = ParamStore::from_parts(
        2,
        2,
        1,
        vec![1.0f32.to_bits(); 4],
        vec![2.0f32.to_bits(); 2],
        vec![3.0f32.to_bits(); 2],
        vec![4.0f32.to_bits(); 1],
    )
    .unwrap();
    assert_eq!(store.weights2, vec![2.0f32.to_bits(); 2]);
    assert_eq!(store.biases2, vec![4.0f32.to_bits()]);
}

#[test]
fn apply_update_replaces_tensors() {
    let mut store = ParamStore::create(2, 2, 1, vec![0u32; 4], vec![0u32; 2]).unwrap();
    let new_w1 = vec![1.5f32.to_bits(); 4];
    let r = store.apply_update(
        new_w1.clone(),
        vec![0u32; 2],
        vec![0.25f32.to_bits(); 2],
        vec![0u32; 1],
    );
    assert!(r.is_ok());
    assert_eq!(store.weights1, new_w1);
    assert_eq!(store.biases1, vec![0.25f32.to_bits(); 2]);
}

#[test]
fn apply_update_refuses_divergence_and_keeps_store() {
    let mut store = ParamStore::create(2, 2, 1, vec![0u32; 4], vec![0u32; 2]).unwrap();
    let mut bad = vec![0u32; 4];
    bad[0] = f32::INFINITY.to_bits();
    let r = store.apply_update(bad, vec![0u32; 2], vec![0u32; 2], vec![0u32; 1]);
    assert_eq!(r.unwrap_err(), ModelError::Divergence);
    assert_eq!(store.weights1, vec![0u32; 4]);
}

#[test]
fn apply_update_refuses_wrong_lengths() {
    let mut store = ParamStore::create(2, 2, 1, vec![0u32; 4], vec![0u32; 2]).unwrap();
    let r = store.apply_update(vec![0u32; 3], vec![0u32; 2], vec![0u32; 2], vec![0u32; 1]);
    assert_eq!(r.unwrap_err(), ModelError::Config);
}

#[test]
fn glyphs_match_the_fixed_table() {
    assert_eq!(
        generate_number_ascii_art(0),
        "#####\n#   #\n#   #\n#   #\n#####\n"
    );
    assert_eq!(
        generate_number_ascii_art(1),
        "  #  \n ##  \n  #  \n  #  \n#####\n"
    );
    assert_eq!(
        generate_number_ascii_art(7),
        "#####\n    #\n    #\n    #\n    #\n"
    );
    assert_eq!(generate_number_ascii_art(10), "Invalid number");
}

#[test]
fn ascii_cells_read_the_glyph_grid() {
    let art = generate_number_ascii_art(1);
    let cells = ascii_to_cells(&art, 5, 5);
    let expected: Vec<u8> = vec![
        0, 0, 1, 0, 0, //
        0, 1, 1, 0, 0, //
        0, 0, 1, 0, 0, //
        0, 0, 1, 0, 0, //
        1, 1, 1, 1, 1,
    ];
    assert_eq!(cells, expected);
}

#[test]
fn ascii_cells_ignore_input_outside_the_frame() {
    let art = "#####\n#\n###\n";
    let cells = ascii_to_cells(art, 2, 3);
    assert_eq!(cells, vec![1u8, 1, 1, 1, 0, 0]);
}

#[test]
fn ascii_cells_handle_empty_input() {
    assert_eq!(ascii_to_cells("", 2, 2), vec![0u8; 4]);
}

#[test]
fn grid_rendering_inverts_cell_reading_on_glyphs() {
    for digit in 0u8..10 {
        let art = generate_number_ascii_art(digit);
        let cells = ascii_to_cells(&art, 5, 5);
        let rendered = render_ascii_grid(&cells, 5, 5);
        assert_eq!(rendered, art.as_bytes().to_vec());
    }
}

#[test]
fn grid_rendering_marks_set_cells() {
    let rendered = render_ascii_grid(&vec![1u8, 0, 0, 1], 2, 2);
    assert_eq!(rendered, b"# \n #\n".to_vec());
}
