use neural_ascii::params::ModelError;
use neural_ascii::persist::check_number_token;
use neural_ascii::persist::check_records_consistent;
use neural_ascii::persist::parse_records;
use neural_ascii::persist::records_wf_check;
use neural_ascii::persist::render_records;
use neural_ascii::persist::ModelRecords;
use neural_ascii::persist::TensorRecord;

fn tokens(words: &[&str]) -> Vec<Vec<u8>> {
    words.iter().map(|w| w.as_bytes().to_vec()).collect()
}

fn sample_records() -> ModelRecords {
    ModelRecords {
        weights1: TensorRecord {
            shape: vec![4, 3],
            values: tokens(&[
                "0.5", "-1", "2e3", "0", "1.25", "-0.75", "3", "4", "5.5", "-6", "7", "8",
            ]),
        },
        weights2: TensorRecord {
            shape: vec![3, 2],
            values: tokens(&["1", "2", "3", "4", "5", "6"]),
        },
        biases1: TensorRecord {
            shape: vec![3],
            values: tokens(&["0", "0", "0"]),
        },
        biases2: TensorRecord {
            shape: vec![2],
            values: tokens(&["-0.5", "0.5"]),
        },
    }
}

#[test]
fn number_tokens_follow_the_json_grammar() {
    for ok in ["0", "-0", "7", "-0.5", "123.456", "1e10", "1E-7", "12.5e+2", "0.0001"] {
        assert!(check_number_token(&ok.as_bytes().to_vec()), "{}", ok);
    }
    for bad in ["", "-", "01", "1.", ".5", "1e", "1e+", "+1", "1.2.3", "--1", "1..2", "e5"] {
        assert!(!check_number_token(&bad.as_bytes().to_vec()), "{}", bad);
    }
}

#[test]
fn rendering_writes_the_eight_expected_lines() {
    let rec = ModelRecords {
        weights1: TensorRecord { shape: vec![2, 1], values: tokens(&["0.5", "-1"]) },
        weights2: TensorRecord { shape: vec![1, 1], values: tokens(&["2"]) },
        biases1: TensorRecord { shape: vec![1], values: tokens(&["0"]) },
        biases2: TensorRecord { shape: vec![1], values: tokens(&["0"]) },
    };
    let text = String::from_utf8(render_records(&rec)).unwrap();
    assert_eq!(
        text,
        "[2,1]\n[0.5,-1]\n[1,1]\n[2]\n[1]\n[0]\n[1]\n[0]\n"
    );
}

#[test]
fn saving_twice_writes_identical_bytes() {
    let rec = sample_records();
    assert_eq!(render_records(&rec), render_records(&rec));
}

#[test]
fn load_of_save_reproduces_every_tensor() {
    let rec = sample_records();
    assert!(records_wf_check(&rec));
    let bytes = render_records(&rec);
    let back = parse_records(&bytes).unwrap();
    assert_eq!(back, rec);
}

#[test]
fn persisted_shapes_and_values_survive_the_round_trip() {
    let rec = sample_records();
    let back = parse_records(&render_records(&rec)).unwrap();
    assert_eq!(back.weights1.shape, vec![4, 3]);
    assert_eq!(back.weights2.shape, vec![3, 2]);
    assert_eq!(back.biases1.shape, vec![3]);
    assert_eq!(back.biases2.shape, vec![2]);
    assert_eq!(back.weights1.values[0], b"0.5".to_vec());
    assert_eq!(back.weights1.values[2], b"2e3".to_vec());
    assert_eq!(back.biases2.values, tokens(&["-0.5", "0.5"]));
    assert!(check_records_consistent(&back));
}

#[test]
fn every_rendered_line_is_a_json_array() {
    let rec = sample_records();
    let text = String::from_utf8(render_records(&rec)).unwrap();
    let lines: Vec<&str> = text.lines().collect();
    assert_eq!(lines.len(), 8);
    for (k, line) in lines.iter().enumerate() {
        if k % 2 == 0 {
            let shape: Vec<u64> = serde_json::from_str(line).unwrap();
            assert!(!shape.is_empty());
        } else {
            let values: Vec<f64> = serde_json::from_str(line).unwrap();
            assert!(!values.is_empty());
        }
    }
    let w1: Vec<f64> = serde_json::from_str(lines[1]).unwrap();
    assert_eq!(w1[0], 0.5);
    assert_eq!(w1[1], -1.0);
    assert_eq!(w1[2], 2000.0);
}

#[test]
fn hand_written_text_parses_and_renders_back() {
    let text: &[u8] = b"[1,1]\n[0.25]\n[1,1]\n[3]\n[1]\n[0]\n[1]\n[-2e-3]\n";
    let rec = parse_records(&text.to_vec()).unwrap();
    assert_eq!(rec.weights1.shape, vec![1, 1]);
    assert_eq!(rec.weights1.values, tokens(&["0.25"]));
    assert_eq!(rec.biases2.values, tokens(&["-2e-3"]));
    assert!(check_records_consistent(&rec));
    assert_eq!(render_records(&rec), text.to_vec());
}

#[test]
fn malformed_text_is_a_format_error() {
    let cases: Vec<&[u8]> = vec![
        b"",
        b"[2,1]\n[0.5,-1]\n[1,1]\n[2]\n[1]\n[0]\n[1]\n[0]",
        b"[2,1]\n[0.5,-1]\n[1,1]\n[2]\n[1]\n[0]\n[1]\n[0]\nextra",
        b"[01]\n[1]\n[1]\n[1]\n[1]\n[1]\n[1]\n[1]\n",
        b"[1]\n[1.]\n[1]\n[1]\n[1]\n[1]\n[1]\n[1]\n",
        b"[1]\n[1,]\n[1]\n[1]\n[1]\n[1]\n[1]\n[1]\n",
        b"[1]\n[1][1]\n[1]\n[1]\n[1]\n[1]\n[1]\n",
        b"[1] \n[1]\n[1]\n[1]\n[1]\n[1]\n[1]\n[1]\n",
        b"[2,1]\n[0.5,-1]\n",
    ];
    for case in cases {
        let r = parse_records(&case.to_vec());
        assert_eq!(r.unwrap_err(), ModelError::Format);
    }
}

#[test]
fn consistency_check_refuses_wrong_counts_and_links() {
    let mut rec = sample_records();
    assert!(check_records_consistent(&rec));
    rec.weights1.values.pop();
    assert!(!check_records_consistent(&rec));
    let mut rec2 = sample_records();
    rec2.biases1.shape = vec![4];
    assert!(!check_records_consistent(&rec2));
    let mut rec3 = sample_records();
    rec3.weights2.shape = vec![3, 2, 1];
    assert!(!check_records_consistent(&rec3));
    let mut rec4 = sample_records();
    rec4.weights1.shape = vec![0, 3];
    assert!(!check_records_consistent(&rec4));
}

#[test]
fn wf_check_refuses_a_bad_token() {
    let mut rec = sample_records();
    assert!(records_wf_check(&rec));
    rec.biases2.values[0] = b"1..2".to_vec();
    assert!(!records_wf_check(&rec));
}
