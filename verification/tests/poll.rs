use hl_blockscope::blocks::{Core, Evm};
use hl_blockscope::board::Msg;
use hl_blockscope::poll::{
    core_block_request, core_head_request, evm_block_request, evm_head_request,
    evm_receipts_request, evm_system_request, read_head, snapshot_span, validators_request, Ask,
    Polled, Poller, CORE_PER_TICK, PAUSE_MS,
};
use hl_blockscope::validators::read_validators;

fn evm(num: u64) -> Evm {
    Evm {
        num,
        ts: 0,
        big: false,
        gas_used: 0,
        gas_limit: 0,
        base_fee: 0,
        txs: 0,
        cw: [0; 6],
        sys: 0,
        reverted: 0,
    }
}

fn core_at(height: u64) -> Core {
    Core {
        height,
        ms: 0,
        txs: 0,
        orders: 0,
        alo: 0,
        gtc: 0,
        ioc: 0,
        cancels: 0,
        evm_raw: 0,
        errs: 0,
        proposer: String::new(),
    }
}

#[test]
fn requests_as_text() {
    assert_eq!(
        evm_head_request(),
        r#"{"id":1,"jsonrpc":"2.0","method":"eth_blockNumber","params":[]}"#
    );
    assert_eq!(
        core_head_request(),
        r#"{"id":1,"jsonrpc":"2.0","method":"eth_call","params":[{"data":"0x","to":"0x0000000000000000000000000000000000000809"},"latest"]}"#
    );
    assert_eq!(
        evm_block_request(255),
        r#"{"id":1,"jsonrpc":"2.0","method":"eth_getBlockByNumber","params":["0xff",true]}"#
    );
    assert_eq!(
        evm_system_request(16),
        r#"{"id":1,"jsonrpc":"2.0","method":"eth_getSystemTxsByBlockNumber","params":["0x10"]}"#
    );
    assert_eq!(
        evm_receipts_request(16),
        r#"{"id":1,"jsonrpc":"2.0","method":"eth_getBlockReceipts","params":["0x10"]}"#
    );
    assert_eq!(core_block_request(12), r#"{"height":12,"type":"blockDetails"}"#);
    assert_eq!(validators_request(), r#"{"type":"validatorSummaries"}"#);
}

#[test]
fn heads_are_read() {
    assert_eq!(read_head(&Some(br#"{"result":"0x10"}"#.to_vec())), Some(16));
    assert_eq!(read_head(&Some(br#"{"result":7}"#.to_vec())), Some(0));
    assert_eq!(read_head(&Some(br#"{"error":{}}"#.to_vec())), None);
    assert_eq!(read_head(&None), None);
}

/// The EVM blocks that are handed on in rounds that see the given heads, with the blocks of
/// `missing` not coming when they are asked for the first time.
fn rounds(heads: &[Option<u64>], missing: &[u64]) -> Vec<u64> {
    let mut missing = missing.to_vec();
    let mut p = Poller::new();
    let mut handed = Vec::new();
    for head in heads {
        let (m, mut ask) = p.step(Polled::EvmHead(*head));
        assert_eq!(m.is_some(), head.is_none());
        while let Ask::Evm(n) = ask {
            let lost = missing.iter().position(|x| *x == n);
            let came = match lost {
                Some(i) => {
                    missing.remove(i);
                    None
                }
                None => Some(evm(n)),
            };
            let (m, next) = p.step(Polled::Evm(came));
            if let Some(Msg::Evm(b)) = m {
                handed.push(b.num);
            }
            ask = next;
        }
        assert_eq!(ask, Ask::CoreHead);
        let (_, mut ask) = p.step(Polled::CoreHead(500));
        while let Ask::Core(_) = ask {
            ask = p.step(Polled::Core(None)).1;
        }
        assert_eq!(ask, Ask::Rest(PAUSE_MS));
    }
    handed
}

#[test]
fn every_evm_block_is_handed_on_once() {
    let heads = [10u64, 10, 13, 14, 20].map(Some);
    assert_eq!(rounds(&heads, &[]), (8..=20).collect::<Vec<u64>>());
}

#[test]
fn a_missing_evm_block_is_asked_for_again() {
    assert_eq!(rounds(&[Some(10), Some(10)], &[9]), vec![8, 10, 9]);
    assert_eq!(rounds(&[Some(10), Some(12)], &[8, 9]), vec![10, 8, 9, 11, 12]);
    assert_eq!(rounds(&[Some(10), None, Some(11), Some(11)], &[9, 9]), vec![8, 10, 11, 9]);
}

#[test]
fn a_missing_evm_block_holds_up_none() {
    let lost = [8u64; 9];
    assert_eq!(rounds(&[Some(10), Some(20)], &lost), (9..=20).collect::<Vec<u64>>());
}

#[test]
fn a_head_that_falls_back_brings_its_blocks_again() {
    let heads = [Some(10), Some(8), Some(11)];
    assert_eq!(rounds(&heads, &[]), vec![8, 9, 10, 9, 10, 11]);
    assert_eq!(rounds(&heads, &[9]), vec![8, 10, 9, 9, 10, 11]);
    assert_eq!(rounds(&heads, &[9, 9]), vec![8, 10, 9, 10, 11]);
}

#[test]
fn a_head_of_zero_starts_anew_and_skips_nothing() {
    assert_eq!(rounds(&[Some(0), Some(100)], &[]), vec![0, 98, 99, 100]);
    assert_eq!(rounds(&[Some(0), Some(100)], &[0]), vec![0, 98, 99, 100]);
    assert_eq!(rounds(&[Some(10), Some(0), Some(11)], &[]), vec![8, 9, 10, 9, 10, 11]);
    let long = (8..=20).collect::<Vec<u64>>();
    assert_eq!(rounds(&[Some(10), Some(0), Some(20)], &[]), long);
}

#[test]
fn the_first_evm_blocks_of_a_young_chain() {
    let span = Poller::new().evm_span(1);
    assert_eq!((span.from, span.to), (0, 1));
    assert_eq!(rounds(&[Some(1), Some(3)], &[]), vec![0, 1, 2, 3]);
}

#[test]
fn core_blocks_are_sampled() {
    let mut p = Poller::new();
    assert!(p.core_span(0).is_none());
    let span = Poller::new().core_span(1).unwrap();
    assert_eq!((span.from, span.to), (0, 1));
    let span = p.core_span(100).unwrap();
    assert_eq!((span.from, span.to), (98, 100));
    let span = p.core_span(101).unwrap();
    assert_eq!((span.from, span.to), (101, 101));
    let span = p.core_span(101).unwrap();
    assert!(span.from > span.to);
    let span = p.core_span(150).unwrap();
    assert_eq!((span.from, span.to), (148, 150));
    assert_eq!(span.to - span.from + 1, CORE_PER_TICK);
}

#[test]
fn a_round_of_polling() {
    let mut p = Poller::new();
    let (m, a) = p.step(Polled::Started);
    assert!(m.is_none());
    assert_eq!(a, Ask::Validators);
    let (m, a) = p.step(Polled::Validators(read_validators(&None)));
    assert!(matches!(m, Some(Msg::Validators(_))));
    assert_eq!(a, Ask::EvmHead);
    let (m, a) = p.step(Polled::EvmHead(Some(11)));
    assert!(m.is_none());
    assert_eq!(a, Ask::Evm(9));
    let (m, a) = p.step(Polled::Evm(Some(evm(9))));
    assert!(matches!(m, Some(Msg::Evm(b)) if b.num == 9));
    assert_eq!(a, Ask::Evm(10));
    let (m, a) = p.step(Polled::Evm(None));
    assert!(m.is_none());
    assert_eq!(a, Ask::Evm(11));
    let (_, a) = p.step(Polled::Evm(Some(evm(11))));
    assert_eq!(a, Ask::CoreHead);
    assert_eq!(p.missing, vec![10]);
    let (m, a) = p.step(Polled::CoreHead(50));
    assert!(m.is_none());
    assert_eq!(a, Ask::Core(48));
    let (m, a) = p.step(Polled::Core(Some(core_at(48))));
    assert!(matches!(m, Some(Msg::Core(b)) if b.height == 48));
    assert_eq!(a, Ask::Core(49));
    let (m, a) = p.step(Polled::Core(None));
    assert!(matches!(m, Some(Msg::Trouble(e)) if e == "core explorer unreachable"));
    assert_eq!(a, Ask::Core(50));
    let (_, a) = p.step(Polled::Core(Some(core_at(50))));
    assert_eq!(a, Ask::Rest(PAUSE_MS));
    let (m, a) = p.step(Polled::Rested);
    assert!(m.is_none());
    assert_eq!(a, Ask::EvmHead);
    let (m, a) = p.step(Polled::EvmHead(None));
    assert!(matches!(m, Some(Msg::Trouble(e)) if e == "evm rpc unreachable"));
    assert_eq!(a, Ask::CoreHead);
    let (m, a) = p.step(Polled::CoreHead(0));
    assert!(m.is_none());
    assert_eq!(a, Ask::Rest(700));
    let (_, a) = p.step(Polled::EvmHead(Some(11)));
    assert_eq!(a, Ask::Evm(10));
    let (m, a) = p.step(Polled::Evm(Some(evm(10))));
    assert!(matches!(m, Some(Msg::Evm(b)) if b.num == 10));
    assert_eq!(a, Ask::CoreHead);
    assert!(p.missing.is_empty());
    let (_, a) = p.step(Polled::CoreHead(50));
    assert_eq!(a, Ask::Rest(700));
}

#[test]
fn the_blocks_of_a_snapshot() {
    let s = snapshot_span(100);
    assert_eq!((s.from, s.to), (95, 100));
    let s = snapshot_span(3);
    assert_eq!((s.from, s.to), (0, 3));
}
