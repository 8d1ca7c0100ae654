use vibrato::dictionary::connector::matrix_connector::MatrixConnector;
use vibrato::dictionary::connector::raw_connector::scorer::{ScorerBuilder, U31Array};
use vibrato::dictionary::connector::raw_connector::{RawConnector, INVALID_FEATURE_ID};
use vibrato::dictionary::connector::{Connector, ConnectorCost, ConnectorWrapper};
use vibrato::dictionary::mapper::ConnIdMapper;

#[test]
fn builder_test_2x2() {
    let data = "2 2
0 0 0
0 1 1
1 0 -2
1 1 -3";
    let conn = MatrixConnector::from_reader(data.as_bytes()).unwrap();
    assert_eq!(conn.cost(0, 0), 0);
    assert_eq!(conn.cost(0, 1), 1);
    assert_eq!(conn.cost(1, 0), -2);
    assert_eq!(conn.cost(1, 1), -3);
}

#[test]
fn builder_test_2x3() {
    let data = "2 3
0 0 0
0 1 1
0 2 2
1 0 -3
1 1 -4
1 2 -5";
    let conn = MatrixConnector::from_reader(data.as_bytes()).unwrap();
    assert_eq!(conn.cost(0, 0), 0);
    assert_eq!(conn.cost(0, 1), 1);
    assert_eq!(conn.cost(0, 2), 2);
    assert_eq!(conn.cost(1, 0), -3);
    assert_eq!(conn.cost(1, 1), -4);
    assert_eq!(conn.cost(1, 2), -5);
}

#[test]
fn builder_test_less_header() {
    let data = "2
0 0 0
0 1 1
1 0 -2
1 1 -3";
    let result = MatrixConnector::from_reader(data.as_bytes());

    assert!(result.is_err());
}

#[test]
fn builder_test_more_header() {
    let data = "2 2 2
0 0 0
0 1 1
1 0 -2
1 1 -3";
    let result = MatrixConnector::from_reader(data.as_bytes());

    assert!(result.is_err());
}

#[test]
fn builder_test_less_body() {
    let data = "2 2
0 0 0
0 1 1
1 -2
1 1 -3";
    let result = MatrixConnector::from_reader(data.as_bytes());

    assert!(result.is_err());
}

#[test]
fn builder_test_more_body() {
    let data = "2 2
0 0 0
0 1 1
1 0 1 -2
1 1 -3";
    let result = MatrixConnector::from_reader(data.as_bytes());

    assert!(result.is_err());
}

#[test]
fn builder_test_larger_matrix() {
    let data = "65536 65536";
    let result = MatrixConnector::from_reader(data.as_bytes());

    assert!(result.is_err());
}

#[test]
fn builder_test_larger_left_id() {
    let data = "2 2
0 0 0
0 1 1
1 2 -2
1 1 -3";
    let result = MatrixConnector::from_reader(data.as_bytes());

    assert!(result.is_err());
}

#[test]
fn builder_test_larger_right_id() {
    let data = "2 2
0 0 0
0 1 1
2 0 -2
1 1 -3";
    let result = MatrixConnector::from_reader(data.as_bytes());

    assert!(result.is_err());
}

#[test]
fn matrix_connector_test_2x2() {
    let data = "2 2
0 0 0
0 1 1
1 0 -2
1 1 -3";
    let conn = MatrixConnector::from_reader(data.as_bytes()).unwrap();
    assert_eq!(conn.cost(0, 0), 0);
    assert_eq!(conn.cost(0, 1), 1);
    assert_eq!(conn.cost(1, 0), -2);
    assert_eq!(conn.cost(1, 1), -3);
}

#[test]
fn matrix_connector_test_2x3() {
    let data = "2 3
0 0 0
0 1 1
0 2 2
1 0 -3
1 1 -4
1 2 -5";
    let conn = MatrixConnector::from_reader(data.as_bytes()).unwrap();
    assert_eq!(conn.cost(0, 0), 0);
    assert_eq!(conn.cost(0, 1), 1);
    assert_eq!(conn.cost(0, 2), 2);
    assert_eq!(conn.cost(1, 0), -3);
    assert_eq!(conn.cost(1, 1), -4);
    assert_eq!(conn.cost(1, 2), -5);
}

#[test]
fn matrix_connector_test_less_header() {
    let data = "2
0 0 0
0 1 1
1 0 -2
1 1 -3";
    let result = MatrixConnector::from_reader(data.as_bytes());

    assert!(result.is_err());
}

#[test]
fn matrix_connector_test_more_header() {
    let data = "2 2 2
0 0 0
0 1 1
1 0 -2
1 1 -3";
    let result = MatrixConnector::from_reader(data.as_bytes());

    assert!(result.is_err());
}

#[test]
fn matrix_connector_test_less_body() {
    let data = "2 2
0 0 0
0 1 1
1 -2
1 1 -3";
    let result = MatrixConnector::from_reader(data.as_bytes());

    assert!(result.is_err());
}

#[test]
fn matrix_connector_test_more_body() {
    let data = "2 2
0 0 0
0 1 1
1 0 1 -2
1 1 -3";
    let result = MatrixConnector::from_reader(data.as_bytes());

    assert!(result.is_err());
}

#[test]
fn matrix_connector_test_larger_matrix() {
    let data = "65536 65536";
    let result = MatrixConnector::from_reader(data.as_bytes());

    assert!(result.is_err());
}

#[test]
fn matrix_connector_test_larger_left_id() {
    let data = "2 2
0 0 0
0 1 1
1 2 -2
1 1 -3";
    let result = MatrixConnector::from_reader(data.as_bytes());

    assert!(result.is_err());
}

#[test]
fn matrix_connector_test_larger_right_id() {
    let data = "2 2
0 0 0
0 1 1
2 0 -2
1 1 -3";
    let result = MatrixConnector::from_reader(data.as_bytes());

    assert!(result.is_err());
}

#[test]
fn test_mapping() {
    let data = "2 3
0 0 0
0 1 1
0 2 2
1 0 -3
1 1 -4
1 2 -5";
    let mut conn = MatrixConnector::from_reader(data.as_bytes()).unwrap();

    let mapper = ConnIdMapper::new(vec![2, 0, 1], vec![1, 0]);
    conn.map_connection_ids(&mapper);

    assert_eq!(conn.cost(0, 0), -4);
    assert_eq!(conn.cost(0, 1), -5);
    assert_eq!(conn.cost(0, 2), -3);
    assert_eq!(conn.cost(1, 0), 1);
    assert_eq!(conn.cost(1, 1), 2);
    assert_eq!(conn.cost(1, 2), 0);
}

#[test]
fn matrix_counts() {
    let conn = MatrixConnector::from_reader("2 3\n\n0 2 7".as_bytes()).unwrap();
    assert_eq!(conn.num_right(), 2);
    assert_eq!(conn.num_left(), 3);
    assert_eq!(conn.cost(0, 2), 7);
    assert_eq!(conn.cost(1, 2), 0);
}

#[test]
fn matrix_bad_cost() {
    assert!(MatrixConnector::from_reader("1 1\n0 0 40000".as_bytes()).is_err());
    assert!(MatrixConnector::from_reader("1 1\n0 0 x".as_bytes()).is_err());
}

const RIGHT: &str = "\
1\tSURF-SURF:これ,*,SURF-POS:これ,POS-SURF:代名詞,*
2\tSURF-SURF:テスト,*,SURF-POS:テスト,POS-SURF:名詞,*";
const LEFT: &str = "\
1\tです,*,助動詞,です,*
2\tは,*,助詞,は,*";
const COST: &str = "\
SURF-SURF:これ/は\t-100
SURF-POS:これ/助詞\t200
POS-SURF:代名詞/は\t-300";

#[test]
fn raw_connector_from_readers_test() {
    let conn = RawConnector::from_readers(RIGHT.as_bytes(), LEFT.as_bytes(), COST.as_bytes()).unwrap();

    assert_eq!(conn.cost(1, 2), -200);
}

#[test]
fn raw_connector_mapping_test() {
    let mut conn = RawConnector::from_readers(RIGHT.as_bytes(), LEFT.as_bytes(), COST.as_bytes()).unwrap();

    let mapper = ConnIdMapper::new(vec![1, 2, 0], vec![2, 0, 1]);
    conn.map_connection_ids(&mapper);

    assert_eq!(conn.cost(0, 0), -200);
}

#[test]
fn raw_connector_counts_and_zero_row() {
    let conn = RawConnector::from_readers(RIGHT.as_bytes(), LEFT.as_bytes(), COST.as_bytes()).unwrap();
    assert_eq!(conn.num_right(), 3);
    assert_eq!(conn.num_left(), 3);
    assert_eq!(conn.cost(0, 0), 0);
    assert_eq!(conn.cost(1, 1), 0);
}

#[test]
fn raw_connector_bad_cost_line() {
    assert!(RawConnector::from_readers(RIGHT.as_bytes(), LEFT.as_bytes(), "a/b\tx".as_bytes()).is_err());
    assert!(RawConnector::from_readers(RIGHT.as_bytes(), LEFT.as_bytes(), "ab\t1".as_bytes()).is_err());
    assert!(RawConnector::from_readers("2\ta".as_bytes(), LEFT.as_bytes(), COST.as_bytes()).is_err());
}

#[test]
fn wrapper_forwards() {
    let data = "2 2\n0 0 0\n0 1 1\n1 0 -2\n1 1 -3";
    let conn = ConnectorWrapper::Matrix(MatrixConnector::from_reader(data.as_bytes()).unwrap());
    assert_eq!(conn.num_left(), 2);
    assert_eq!(conn.cost(1, 0), -2);
}

fn scorer_builder() -> ScorerBuilder {
    let mut builder = ScorerBuilder::new();
    builder.insert(18, 17, 1);
    builder.insert(4, 9, 2);
    builder.insert(17, 0, 3);
    builder.insert(17, 12, 4);
    builder.insert(8, 6, 5);
    builder.insert(2, 5, 6);
    builder.insert(12, 18, 7);
    builder.insert(9, 1, 8);
    builder.insert(19, 5, 9);
    builder.insert(9, 4, 10);
    builder.insert(0, 19, 11);
    builder.insert(2, 19, 12);
    builder.insert(7, 9, 13);
    builder.insert(18, 9, 14);
    builder.insert(17, 4, 15);
    builder.insert(9, 6, 16);
    builder.insert(13, 0, 17);
    builder.insert(1, 4, 18);
    builder.insert(0, 18, 19);
    builder.insert(18, 11, 20);
    builder
}

#[test]
fn retrieve_cost_test() {
    let scorer = scorer_builder().build();

    assert_eq!(scorer.retrieve_cost(0, 18), Some(19));
    assert_eq!(scorer.retrieve_cost(0, 19), Some(11));
    assert_eq!(scorer.retrieve_cost(9, 4), Some(10));
    assert_eq!(scorer.retrieve_cost(9, 6), Some(16));
    assert_eq!(scorer.retrieve_cost(0, 0), None);
    assert_eq!(scorer.retrieve_cost(9, 5), None);
}

#[test]
fn accumulate_cost_test() {
    let scorer = scorer_builder().build();

    assert_eq!(
        scorer.accumulate_cost(
            &U31Array::to_simd_vec(&[
                18,
                17,
                0,
                INVALID_FEATURE_ID,
                8,
                12,
                19,
                INVALID_FEATURE_ID,
                INVALID_FEATURE_ID,
                9,
                0,
                7,
                17,
                13,
                0,
                INVALID_FEATURE_ID
            ]),
            &U31Array::to_simd_vec(&[
                17,
                0,
                0,
                INVALID_FEATURE_ID,
                6,
                18,
                5,
                INVALID_FEATURE_ID,
                INVALID_FEATURE_ID,
                9,
                19,
                9,
                4,
                0,
                18,
                INVALID_FEATURE_ID
            ]),
        ),
        100,
    );
}

#[test]
fn accumulate_cost_empty_test() {
    let builder = ScorerBuilder::new();
    let scorer = builder.build();

    assert_eq!(scorer.accumulate_cost(&[], &[]), 0);
}

#[test]
fn scorer_insert_replaces() {
    let mut builder = ScorerBuilder::new();
    builder.insert(3, 5, 1);
    builder.insert(3, 5, 9);
    builder.insert(3, 4, 2);
    let scorer = builder.build();
    assert_eq!(scorer.retrieve_cost(3, 5), Some(9));
    assert_eq!(scorer.retrieve_cost(3, 4), Some(2));
    assert_eq!(scorer.retrieve_cost(5, 3), None);
}

#[test]
fn simd_vec_pads() {
    let v = U31Array::to_simd_vec(&[1, 2, 3]);
    assert_eq!(v.len(), 1);
    assert_eq!(v[0].0, [1, 2, 3, 0, 0, 0, 0, 0]);
    assert_eq!(U31Array::to_simd_vec(&[]).len(), 0);
}
