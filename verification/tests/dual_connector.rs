use vibrato::dictionary::connector::dual_connector::{remove_feature_templates_greedy, DualConnector};
use vibrato::dictionary::connector::{Connector, ConnectorCost};
use vibrato::dictionary::mapper::ConnIdMapper;

const RIGHT: &str = "\
1\tAB,*,CD,*,EF,*,GH,*,IJ,*,KL,*,MN,*,OP,*,QR,*,ST
2\tUV,*,WX,*,YZ,*,12,*,34,*,56,*,78,*,90,*,*,*,*";
const LEFT: &str = "\
1\tuv,*,wx,*,yz,*,12,*,34,*,56,*,78,*,90,*,*,*,*
2\tab,*,cd,*,ef,*,gh,*,ij,*,kl,*,mn,*,op,*,qr,*,st";
const COST: &str = "\
AB/ab\t-10
CD/cd\t20
EF/ef\t-30
GH/gh\t40
IJ/ij\t-50
KL/kl\t60
MN/mn\t-70
OP/op\t80
QR/qr\t-90
ST/st\t100
UV/uv\t-110
WX/wx\t120
YZ/yz\t-130
12/12\t140
34/34\t-150
56/56\t160
78/78\t-170
90/90\t180";

#[test]
fn dual_connector_from_readers_test() {
    let conn = DualConnector::from_readers(RIGHT.as_bytes(), LEFT.as_bytes(), COST.as_bytes()).unwrap();

    assert_eq!(conn.cost(1, 2), 50);
    assert_eq!(conn.cost(2, 1), 40);
}

#[test]
fn dual_connector_mapping_test() {
    let mut conn = DualConnector::from_readers(RIGHT.as_bytes(), LEFT.as_bytes(), COST.as_bytes()).unwrap();

    let mapper = ConnIdMapper::new(vec![1, 2, 0], vec![2, 0, 1]);
    conn.map_connection_ids(&mapper);

    assert_eq!(conn.cost(0, 0), 50);
    assert_eq!(conn.cost(1, 2), 40);
}

#[test]
fn dual_connector_sizes_and_bos() {
    let conn = DualConnector::from_readers(RIGHT.as_bytes(), LEFT.as_bytes(), COST.as_bytes()).unwrap();
    assert_eq!(conn.num_right(), 3);
    assert_eq!(conn.num_left(), 3);
    // No pair involves BOS/EOS, and unrelated features cost nothing.
    assert_eq!(conn.cost(0, 0), 0);
    assert_eq!(conn.cost(1, 1), 0);
    assert_eq!(conn.cost(2, 2), 0);
}

#[test]
fn dual_connector_needs_eight_templates() {
    let right = "1\tA,B\n2\tC,D";
    let left = "1\ta,b\n2\tc,d";
    let cost = "A/a\t1";
    assert!(DualConnector::from_readers(right.as_bytes(), left.as_bytes(), cost.as_bytes()).is_err());
}

#[test]
fn greedy_removes_the_templates_that_split_most() {
    // Template 0 takes three values on each side; templates 1 and 2 take one.
    let right = vec![vec![1, 5, 7], vec![2, 5, 7], vec![3, 5, 7]];
    let left = vec![vec![4, 6, 8], vec![5, 6, 8], vec![6, 6, 8]];
    let kept = remove_feature_templates_greedy(1, &right, &left, 3);
    assert_eq!(kept, vec![1, 2]);
    let kept = remove_feature_templates_greedy(0, &right, &left, 3);
    assert_eq!(kept, vec![0, 1, 2]);
}
