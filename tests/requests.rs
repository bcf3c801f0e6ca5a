use ubt::{get_basic_data_key, Address};
use ubt_pir::{
    parse_block_number, GetRootRequest, GetStateDeltaRequest, ParamValue, RpcErr, UbtState, UbtUpdate,
};

fn delta(from: ParamValue, to: ParamValue) -> Result<GetStateDeltaRequest, RpcErr> {
    GetStateDeltaRequest::parse(&Some(vec![from, to]))
}

#[test]
fn state_delta_ranges_are_validated() {
    assert!(matches!(delta(ParamValue::Unsigned(10), ParamValue::Unsigned(5)), Err(RpcErr::BadParams(_))));
    assert!(matches!(delta(ParamValue::Unsigned(0), ParamValue::Unsigned(150)), Err(RpcErr::BadParams(_))));
    let req = delta(ParamValue::Unsigned(0), ParamValue::Unsigned(5)).unwrap();
    assert!(matches!(req.handle(), Err(RpcErr::MethodNotFound(_))));
    assert!(delta(ParamValue::Unsigned(0), ParamValue::Unsigned(99)).is_ok());
    assert!(matches!(delta(ParamValue::Unsigned(0), ParamValue::Unsigned(100)), Err(RpcErr::BadParams(_))));
    assert!(delta(ParamValue::Text("0xa".to_string()), ParamValue::Text("0x14".to_string())).is_ok());
    assert!(delta(ParamValue::Unsigned(u64::MAX - 1), ParamValue::Unsigned(u64::MAX)).is_ok());
    assert!(matches!(delta(ParamValue::Unsigned(0), ParamValue::Unsigned(u64::MAX)), Err(RpcErr::BadParams(_))));
}

#[test]
fn state_delta_missing_params() {
    assert!(matches!(GetStateDeltaRequest::parse(&None), Err(RpcErr::MissingParam(_))));
    assert!(matches!(GetStateDeltaRequest::parse(&Some(vec![])), Err(RpcErr::MissingParam(_))));
    assert!(matches!(
        GetStateDeltaRequest::parse(&Some(vec![ParamValue::Unsigned(1)])),
        Err(RpcErr::MissingParam(_))
    ));
    assert!(matches!(
        GetStateDeltaRequest::parse(&Some(vec![ParamValue::Other, ParamValue::Unsigned(1)])),
        Err(RpcErr::BadParams(_))
    ));
}

#[test]
fn block_numbers_parse_as_integers_or_hex() {
    assert_eq!(parse_block_number(&ParamValue::Unsigned(42)), Ok(42));
    assert_eq!(parse_block_number(&ParamValue::Text("0x10".to_string())), Ok(16));
    assert_eq!(parse_block_number(&ParamValue::Text("ff".to_string())), Ok(255));
    assert_eq!(parse_block_number(&ParamValue::Text("0xAbC".to_string())), Ok(0xabc));
    assert_eq!(parse_block_number(&ParamValue::Text("0x0x1".to_string())), Ok(1));
    assert_eq!(parse_block_number(&ParamValue::Text("+1f".to_string())), Ok(31));
    assert_eq!(parse_block_number(&ParamValue::Text("0xffffffffffffffff".to_string())), Ok(u64::MAX));
    for bad in ["0x", "", "0x1g", "+", "-1", "0x10000000000000000"] {
        assert!(matches!(parse_block_number(&ParamValue::Text(bad.to_string())), Err(RpcErr::BadParams(_))));
    }
    assert!(matches!(parse_block_number(&ParamValue::Null), Err(RpcErr::BadParams(_))));
    assert!(matches!(parse_block_number(&ParamValue::Other), Err(RpcErr::BadParams(_))));
}

#[test]
fn root_is_served_for_the_head_only() {
    let req = GetRootRequest::parse(&Some(vec![ParamValue::Text("0x2".to_string())])).unwrap();
    assert!(matches!(req.handle(&mut None), Err(RpcErr::UnsupportedFork(_))));
    let mut tree = Some(UbtState::new());
    assert!(matches!(req.handle(&mut tree), Err(RpcErr::Internal(_))));
    let key = get_basic_data_key(&Address::repeat_byte(0x42)).to_bytes().0;
    let root = tree.as_mut().unwrap().apply_block_updates(2, [0; 32], &[UbtUpdate { key, value: Some([1; 32]) }]);
    let text = req.handle(&mut tree).unwrap();
    assert_eq!(text, format!("0x{}", hex::encode(root)));
    assert_eq!(text.len(), 66);
    let other = GetRootRequest::parse(&Some(vec![ParamValue::Unsigned(3)])).unwrap();
    assert!(matches!(other.handle(&mut tree), Err(RpcErr::BadParams(_))));
}

#[test]
fn root_request_needs_a_block_number() {
    assert!(matches!(GetRootRequest::parse(&None), Err(RpcErr::MissingParam(_))));
    assert!(matches!(GetRootRequest::parse(&Some(vec![])), Err(RpcErr::MissingParam(_))));
    assert!(matches!(GetRootRequest::parse(&Some(vec![ParamValue::Other])), Err(RpcErr::BadParams(_))));
}
