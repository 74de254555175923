use std::collections::VecDeque;

use hl_blockscope::blocks::{Core, Evm};
use hl_blockscope::board::{core_dt, dt_text, evm_dt_text, Board, Dt, Msg, CAP};
use hl_blockscope::rolling::{calls_text, proposers, rolling, Ratio};
use hl_blockscope::validators::{label, read_validators};

fn evm(num: u64, ts: u64, big: bool) -> Evm {
    Evm {
        num,
        ts,
        big,
        gas_used: 1,
        gas_limit: 4,
        base_fee: num * 10,
        txs: 5,
        cw: [1, 0, 2, 0, 0, 3],
        sys: 2,
        reverted: 1,
    }
}

fn core_at(height: u64, ms: u64, proposer: &str) -> Core {
    Core {
        height,
        ms,
        txs: 10,
        orders: 8,
        alo: 4,
        gtc: 1,
        ioc: 2,
        cancels: 6,
        evm_raw: 0,
        errs: 1,
        proposer: proposer.to_string(),
    }
}

#[test]
fn a_board_takes_in_messages() {
    let mut b = Board::new();
    b.apply(Msg::Trouble("lost".to_string()));
    assert_eq!(b.err, "lost");
    b.apply(Msg::Core(core_at(5, 0, "a")));
    assert_eq!(b.err, "");
    b.apply(Msg::Trouble("again".to_string()));
    b.apply(Msg::Core(core_at(5, 1, "b")));
    assert_eq!(b.err, "");
    assert_eq!(b.core.len(), 1);
    assert_eq!(b.core[0].proposer, "a");
    b.apply(Msg::Core(core_at(6, 2, "c")));
    assert_eq!(b.core[0].height, 6);
    assert_eq!(b.core[1].height, 5);
    b.apply(Msg::Trouble("evm".to_string()));
    b.apply(Msg::Evm(evm(1, 0, false)));
    assert_eq!(b.err, "");
    let reply = br#"[{"name":"Alpha","signer":"0xa"}]"#.to_vec();
    b.apply(Msg::Validators(read_validators(&Some(reply))));
    assert_eq!(label(&b.names, "0xa"), "Alpha");
}

#[test]
fn windows_are_bounded_and_newest_first() {
    let mut b = Board::new();
    for n in 0..200u64 {
        b.apply(Msg::Evm(evm(n, n, false)));
        b.apply(Msg::Core(core_at(n, n, "a")));
    }
    assert_eq!(b.evm.len(), CAP);
    assert_eq!(b.core.len(), 90);
    let nums: Vec<u64> = b.evm.iter().map(|x| x.num).collect();
    assert_eq!(nums, (110..200).rev().collect::<Vec<u64>>());
}

#[test]
fn times_between_core_blocks() {
    let b = core_at(7, 100, "a");
    assert_eq!(core_dt(&b, None), Dt::Unknown);
    assert_eq!(core_dt(&b, Some(&core_at(6, 30, "a"))), Dt::Ms(70));
    assert_eq!(core_dt(&b, Some(&core_at(6, 130, "a"))), Dt::Ms(0));
    assert_eq!(core_dt(&b, Some(&core_at(5, 30, "a"))), Dt::Gap);
    assert_eq!(dt_text(Dt::Unknown), "-");
    assert_eq!(dt_text(Dt::Gap), "gap");
    assert_eq!(dt_text(Dt::Ms(70)), "70");
}

#[test]
fn times_between_evm_blocks() {
    let b = evm(2, 10, false);
    assert_eq!(evm_dt_text(&b, None), "-");
    assert_eq!(evm_dt_text(&b, Some(&evm(1, 9, false))), "1");
    assert_eq!(evm_dt_text(&b, Some(&evm(1, 11, false))), "0");
}

#[test]
fn a_rolling_window() {
    let core: VecDeque<Core> = VecDeque::from(vec![
        core_at(20, 1000, "a"),
        core_at(19, 930, "b"),
        core_at(18, 850, "a"),
        core_at(10, 100, "c"),
        core_at(9, 120, "a"),
        core_at(8, 0, "d"),
    ]);
    let evm: VecDeque<Evm> = VecDeque::from(vec![
        evm(9, 60, true),
        evm(8, 59, false),
        evm(7, 58, false),
        evm(6, 55, false),
        evm(5, 57, false),
    ]);
    let r = rolling(&core, &evm, 61);
    assert_eq!((r.core_dt_p50, r.core_dt_p95, r.core_dt_max), (80, 120, 120));
    assert_eq!(r.orders_per_ms, Some(Ratio { num: 48, den: 270 }));
    assert_eq!(r.taker_share, Some(Ratio { num: 12, den: 48 }));
    assert_eq!(r.cancel_ratio, Some(Ratio { num: 36, den: 48 }));
    assert_eq!(r.err_rate, Some(Ratio { num: 6, den: 60 }));
    assert_eq!(r.proposers[0], ("a".to_string(), 3));
    assert_eq!(r.proposers.len(), 3);
    assert!(r.proposers[1].1 == 1 && r.proposers[2].1 == 1);
    assert_eq!(r.evm_util, vec![Some(Ratio { num: 1, den: 4 }); 4]);
    assert_eq!(r.evm_dts_p50, 3);
    assert_eq!(r.base_fee, 80);
    assert_eq!(r.revert_rate, Some(Ratio { num: 4, den: 20 }));
    assert_eq!(r.cw, [5, 0, 10, 0, 0, 15]);
    assert_eq!(r.sys, 10);
    assert_eq!(r.big_util, Some(Ratio { num: 1, den: 4 }));
    assert_eq!(r.next_big_s, 59);
}

#[test]
fn an_empty_window() {
    let r = rolling(&VecDeque::new(), &VecDeque::new(), 0);
    assert_eq!((r.core_dt_p50, r.core_dt_p95, r.core_dt_max), (0, 0, 0));
    assert_eq!(r.orders_per_ms, None);
    assert_eq!(r.taker_share, None);
    assert_eq!(r.cancel_ratio, None);
    assert_eq!(r.err_rate, None);
    assert!(r.proposers.is_empty() && r.evm_util.is_empty());
    assert_eq!((r.evm_dts_p50, r.base_fee, r.sys), (0, 0, 0));
    assert_eq!((r.revert_rate, r.big_util), (None, None));
    assert_eq!(r.next_big_s, 60);
}

#[test]
fn who_proposed_most() {
    let window: VecDeque<Core> = ["d", "a", "b", "a", "c", "a", "b", "c", "b"]
        .iter()
        .map(|p| core_at(0, 0, p))
        .collect();
    let top = proposers(&window);
    assert_eq!(top.len(), 3);
    assert_eq!((top[0].1, top[1].1, top[2].1), (3, 3, 2));
    assert_eq!(top[2].0, "c");
}

#[test]
fn the_histogram_of_calls() {
    assert_eq!(calls_text(&[0; 6]), "none");
    assert_eq!(calls_text(&[5, 0, 10, 0, 0, 15]), "limit:5 spotSend:10 other:15");
    assert_eq!(calls_text(&[0, u128::MAX, 0, 0, 0, 0]), format!("cancel:{}", u128::MAX));
}

#[test]
fn times_of_a_run_add_up_to_its_length() {
    let run: VecDeque<Core> =
        [900, 830, 815, 700, 655].iter().zip(0..).map(|(ms, i)| core_at(50 - i, *ms, "a")).collect();
    let r = rolling(&run, &VecDeque::new(), 0);
    assert_eq!(r.orders_per_ms.unwrap().den, 900 - 655);
    assert!(r.core_dt_p50 <= r.core_dt_p95 && r.core_dt_p95 <= r.core_dt_max);
    assert_eq!((r.core_dt_p50, r.core_dt_max), (70, 115));
    let share = r.taker_share.unwrap();
    assert!(share.num <= share.den);
    assert!(r.proposers.iter().map(|p| p.1).sum::<usize>() <= run.len());
}

#[test]
fn a_skip_has_no_time() {
    let window = VecDeque::from(vec![core_at(9, 900, "a"), core_at(7, 100, "a")]);
    let r = rolling(&window, &VecDeque::new(), 0);
    assert_eq!(r.core_dt_max, 0);
    assert_eq!(r.orders_per_ms, None);
}
