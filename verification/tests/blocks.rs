use hl_blockscope::blocks::{core_writer, cw_name, cw_slot, lists_transactions, read_core, read_evm};
use hl_blockscope::json::read_text;

fn bytes(s: &str) -> Option<Vec<u8>> {
    Some(s.as_bytes().to_vec())
}

fn raw_action(id: u32) -> String {
    format!("0x17938e13{:064x}{:064x}01{id:06x}00", 32, 4)
}

#[test]
fn action_slots() {
    assert_eq!(cw_slot(&raw_action(1)), 0);
    assert_eq!(cw_slot(&raw_action(10)), 1);
    assert_eq!(cw_slot(&raw_action(11)), 1);
    assert_eq!(cw_slot(&raw_action(6)), 2);
    assert_eq!(cw_slot(&raw_action(7)), 3);
    assert_eq!(cw_slot(&raw_action(13)), 4);
    assert_eq!(cw_slot(&raw_action(2)), 5);
    assert_eq!(cw_slot(""), 5);
    assert_eq!(cw_slot("0x17938e13"), 5);
    assert_eq!(cw_slot(&"z".repeat(200)), 5);
    assert_eq!(cw_slot(&format!("{}+00001", "0".repeat(140))), 0);
    assert_eq!(cw_slot(&format!("{}\u{e9}00001", "0".repeat(139))), 5);
}

#[test]
fn slot_names() {
    let names: Vec<&str> = (0..6).map(cw_name).collect();
    assert_eq!(names, vec!["limit", "cancel", "spotSend", "usdClass", "sendAsset", "other"]);
    assert_eq!(core_writer(), "0x3333333333333333333333333333333333333333");
}

#[test]
fn an_evm_block() {
    let block = format!(
        r#"{{"result":{{"timestamp":"0x64","gasLimit":"0x1e8480","gasUsed":"0xf4240",
        "baseFeePerGas":"0x5f5e100","transactions":[
        {{"to":"0x3333333333333333333333333333333333333333","input":"{}"}},
        {{"to":"0x3333333333333333333333333333333333333333","input":"{}"}},
        {{"to":"0x4444444444444444444444444444444444444444","input":"{}"}},
        {{"to":null}}]}}}}"#,
        raw_action(1),
        raw_action(99),
        raw_action(1)
    );
    let sys = r#"{"result":[{},{}]}"#;
    let receipts = r#"{"result":[{"status":"0x1"},{"status":"0x0"},{},{"status":"0x1"}]}"#;
    let b = read_evm(77, &bytes(&block), &bytes(sys), &bytes(receipts)).unwrap();
    assert_eq!(b.num, 77);
    assert_eq!(b.ts, 100);
    assert!(!b.big);
    assert_eq!((b.gas_used, b.gas_limit, b.base_fee), (1_000_000, 2_000_000, 100_000_000));
    assert_eq!(b.txs, 4);
    assert_eq!(b.cw, [1, 0, 0, 0, 0, 1]);
    assert_eq!(b.sys, 2);
    assert_eq!(b.reverted, 2);
}

#[test]
fn a_big_evm_block_with_replies_missing() {
    let block = r#"{"result":{"gasLimit":"0x1c9c380","transactions":[]}}"#;
    let b = read_evm(1, &bytes(block), &None, &bytes("no json")).unwrap();
    assert!(b.big);
    assert_eq!((b.ts, b.gas_used, b.base_fee, b.txs, b.sys, b.reverted), (0, 0, 0, 0, 0, 0));
    let edge = r#"{"result":{"gasLimit":"0x989680","transactions":[]}}"#;
    assert!(!read_evm(1, &bytes(edge), &None, &None).unwrap().big);
    let above = r#"{"result":{"gasLimit":"0x989681","transactions":[]}}"#;
    assert!(read_evm(1, &bytes(above), &None, &None).unwrap().big);
}

#[test]
fn no_evm_block_without_transactions() {
    assert!(read_evm(1, &None, &None, &None).is_none());
    assert!(read_evm(1, &bytes(r#"{"result":null}"#), &None, &None).is_none());
    assert!(read_evm(1, &bytes(r#"{"result":{"transactions":{}}}"#), &None, &None).is_none());
    let j = read_text(r#"{"result":{"transactions":[1]}}"#).unwrap();
    assert!(lists_transactions(Some(&j)));
    assert!(!lists_transactions(None));
}

#[test]
fn a_core_block() {
    let reply = r#"{"blockDetails":{"height":9,"blockTime":1700000000123,"numTxs":40,
        "proposer":"0xABCD","txs":[
        {"error":null,"action":{"type":"order","orders":[
            {"t":{"limit":{"tif":"Alo"}}},{"t":{"limit":{"tif":"Gtc"}}},
            {"t":{"limit":{"tif":"Ioc"}}},{"t":{"limit":{"tif":"Ioc"}}},{"t":{"trigger":{}}}]}},
        {"error":"rejected","action":{"type":"cancel","cancels":[1,2,3]}},
        {"action":{"type":"cancelByCloid"}},
        {"action":{"type":"evmRawTx"}},
        {"error":"x"}]}}"#;
    let b = read_core(5, &bytes(reply)).unwrap();
    assert_eq!((b.height, b.ms, b.txs), (9, 1_700_000_000_123, 40));
    assert_eq!((b.orders, b.alo, b.gtc, b.ioc), (5, 1, 1, 2));
    assert_eq!((b.cancels, b.evm_raw, b.errs), (4, 1, 2));
    assert_eq!(b.proposer, "0xabcd");
}

#[test]
fn a_core_block_with_details_missing() {
    let b = read_core(5, &bytes(r#"{"blockDetails":{"txs":[{},{}]}}"#)).unwrap();
    assert_eq!((b.height, b.ms, b.txs, b.orders), (5, 0, 2, 0));
    assert_eq!(b.proposer, "?");
    assert!(read_core(5, &bytes(r#"{"blockDetails":null}"#)).is_some());
    assert!(read_core(5, &bytes("{}")).is_none());
    assert!(read_core(5, &None).is_none());
}
