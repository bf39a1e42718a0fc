use tx_pusher::advance::{advance, apply_submission, is_valid_tx_id, next_submission, Outcome};
use tx_pusher::pass::collect_pass;
use tx_pusher::types::{
    chain_is_finished, chain_is_wf, count_pushed, count_unpushed, last_pushed_id,
    transaction_is_confirmed, Inscription, Status, Transaction, Tx,
};
use tx_pusher::BATCH_CAP;

fn unsent(hex: &str) -> Tx {
    Tx { pushed: false, tx_hex: hex.to_string(), tx_id: None }
}

fn sent(hex: &str, id: &str) -> Tx {
    Tx { pushed: true, tx_hex: hex.to_string(), tx_id: Some(id.to_string()) }
}

fn id64(c: char) -> String {
    std::iter::repeat(c).take(64).collect()
}

#[test]
fn tx_id_validation_edge_lengths() {
    let id63: String = std::iter::repeat('a').take(63).collect();
    let id65: String = std::iter::repeat('a').take(65).collect();
    assert!(!is_valid_tx_id(&id63));
    assert!(is_valid_tx_id(&id64('a')));
    assert!(!is_valid_tx_id(&id65));
    assert!(!is_valid_tx_id("Error"));
    assert!(!is_valid_tx_id(""));
}

#[test]
fn advance_sends_all_when_under_cap() {
    let mut chain = Inscription {
        inscription_number: 1,
        txs: vec![unsent("aa"), unsent("bb"), unsent("cc")],
    };
    let resps = vec![id64('1'), id64('2'), id64('3')];
    let outcome = advance(&mut chain, None, &resps, BATCH_CAP);
    assert_eq!(outcome, Outcome::Advanced);
    assert!(chain_is_finished(&chain));
    assert_eq!(chain.txs[0].tx_id, Some(id64('1')));
    assert_eq!(chain.txs[1].tx_id, Some(id64('2')));
    assert_eq!(chain.txs[2].tx_id, Some(id64('3')));
    assert!(chain_is_wf(&chain));
}

#[test]
fn scenario_three_steps_finish_in_three_passes_with_cap_one() {
    // Three unbroadcast steps, every submission accepted and every
    // confirmation positive; with a batch cap of one the chain finishes after
    // the third pass and is then dropped from the persisted set.
    let mut chain = Inscription {
        inscription_number: 5,
        txs: vec![unsent("aa"), unsent("bb"), unsent("cc")],
    };
    for pass in 0..3u32 {
        let confirmed = if pass == 0 { None } else { Some(true) };
        let resps = vec![id64(char::from_digit(pass + 1, 10).unwrap())];
        let outcome = advance(&mut chain, confirmed, &resps, 1);
        assert_eq!(outcome, Outcome::Advanced);
        assert_eq!(count_pushed(&chain), (pass + 1) as usize);
        let finished_now = chain_is_finished(&chain);
        let (kept, all_done) = collect_pass(vec![(chain.clone(), outcome)]);
        if pass < 2 {
            assert!(!finished_now);
            assert_eq!(kept.len(), 1);
            assert!(!all_done);
        } else {
            assert!(finished_now);
            assert_eq!(kept.len(), 0);
            assert!(all_done);
        }
    }
}

#[test]
fn scenario_unconfirmed_chain_is_blocked_and_unchanged() {
    let chain0 = Inscription {
        inscription_number: 2,
        txs: vec![sent("aa", &id64('1')), unsent("bb")],
    };
    let mut chain = chain0.clone();
    let resps = vec![id64('9')];
    let outcome = advance(&mut chain, Some(false), &resps, BATCH_CAP);
    assert_eq!(outcome, Outcome::Blocked);
    assert_eq!(chain, chain0);
    let (kept, all_done) = collect_pass(vec![(chain, outcome)]);
    assert_eq!(kept.len(), 1);
    assert_eq!(kept[0], chain0);
    assert!(!all_done);
}

#[test]
fn blocked_advance_is_idempotent() {
    // While the outstanding step stays unconfirmed, advancing twice returns
    // Blocked both times and never re-broadcasts the step.
    let chain0 = Inscription {
        inscription_number: 3,
        txs: vec![sent("aa", &id64('1')), unsent("bb")],
    };
    let mut chain = chain0.clone();
    let resps = vec![id64('9')];
    assert_eq!(advance(&mut chain, Some(false), &resps, BATCH_CAP), Outcome::Blocked);
    assert_eq!(chain, chain0);
    assert_eq!(advance(&mut chain, Some(false), &resps, BATCH_CAP), Outcome::Blocked);
    assert_eq!(chain, chain0);
}

#[test]
fn scenario_rejected_submission_fails_but_keeps_earlier_marks() {
    // The second submission returns a string that is not 64 characters long:
    // the advance reports Failed, the first step stays marked broadcast, the
    // later steps stay unbroadcast, and the chain is retained.
    let mut chain = Inscription {
        inscription_number: 4,
        txs: vec![unsent("aa"), unsent("bb"), unsent("cc")],
    };
    let resps = vec![id64('1'), "Error".to_string(), id64('3')];
    let outcome = advance(&mut chain, None, &resps, BATCH_CAP);
    assert_eq!(outcome, Outcome::Failed);
    assert!(chain.txs[0].pushed);
    assert_eq!(chain.txs[0].tx_id, Some(id64('1')));
    assert!(!chain.txs[1].pushed);
    assert_eq!(chain.txs[1].tx_id, None);
    assert!(!chain.txs[2].pushed);
    assert!(chain_is_wf(&chain));
    let (kept, all_done) = collect_pass(vec![(chain, outcome)]);
    assert_eq!(kept.len(), 1);
    assert!(!all_done);
}

#[test]
fn batch_cap_bounds_one_advance() {
    // 100 unbroadcast steps and every submission accepted: one advance call
    // broadcasts exactly 25.
    let mut chain = Inscription {
        inscription_number: 6,
        txs: (0..100).map(|_| unsent("ab")).collect(),
    };
    let resps: Vec<String> = (0..25).map(|_| id64('f')).collect();
    let outcome = advance(&mut chain, None, &resps, BATCH_CAP);
    assert_eq!(outcome, Outcome::Advanced);
    assert_eq!(count_pushed(&chain), 25);
    assert_eq!(count_unpushed(&chain), 75);
    assert!(chain_is_wf(&chain));
}

#[test]
fn empty_pass_ends_the_run() {
    let (kept, all_done) = collect_pass(Vec::new());
    assert_eq!(kept.len(), 0);
    assert!(all_done);
}

#[test]
fn fully_broadcast_chains_are_dropped_and_end_the_run() {
    let a = Inscription { inscription_number: 1, txs: vec![sent("aa", &id64('1'))] };
    let b = Inscription { inscription_number: 2, txs: Vec::new() };
    let (kept, all_done) =
        collect_pass(vec![(a, Outcome::Advanced), (b, Outcome::Advanced)]);
    assert_eq!(kept.len(), 0);
    assert!(all_done);
}

#[test]
fn pass_keeps_unfinished_chains_in_order() {
    let a = Inscription { inscription_number: 1, txs: vec![sent("aa", &id64('1'))] };
    let b = Inscription {
        inscription_number: 2,
        txs: vec![sent("bb", &id64('2')), unsent("cc")],
    };
    let c = Inscription { inscription_number: 3, txs: vec![unsent("dd")] };
    let results = vec![
        (a, Outcome::Advanced),
        (b.clone(), Outcome::Blocked),
        (c.clone(), Outcome::Failed),
    ];
    let (kept, all_done) = collect_pass(results);
    assert_eq!(kept, vec![b, c]);
    assert!(!all_done);
}

#[test]
fn submissions_walk_the_frontier_in_order() {
    let mut chain = Inscription {
        inscription_number: 7,
        txs: vec![unsent("aa"), unsent("bb")],
    };
    assert_eq!(next_submission(&chain, 0, BATCH_CAP), Some(0));
    assert!(apply_submission(&mut chain, 0, id64('1')));
    assert_eq!(next_submission(&chain, 1, BATCH_CAP), Some(1));
    assert!(apply_submission(&mut chain, 1, id64('2')));
    assert_eq!(next_submission(&chain, 2, BATCH_CAP), None);
    assert!(chain_is_finished(&chain));
}

#[test]
fn rejected_submission_leaves_the_step_alone() {
    let mut chain = Inscription { inscription_number: 8, txs: vec![unsent("aa")] };
    assert!(!apply_submission(&mut chain, 0, "nope".to_string()));
    assert!(!chain.txs[0].pushed);
    assert_eq!(chain.txs[0].tx_id, None);
}

#[test]
fn cap_zero_sends_nothing() {
    let mut chain = Inscription { inscription_number: 9, txs: vec![unsent("aa")] };
    let resps: Vec<String> = Vec::new();
    assert_eq!(advance(&mut chain, None, &resps, 0), Outcome::Advanced);
    assert_eq!(count_pushed(&chain), 0);
}

#[test]
fn chain_well_formedness_checks() {
    let good = Inscription {
        inscription_number: 1,
        txs: vec![sent("aa", &id64('1')), unsent("bb")],
    };
    assert!(chain_is_wf(&good));
    let id_missing = Inscription {
        inscription_number: 2,
        txs: vec![Tx { pushed: true, tx_hex: "aa".to_string(), tx_id: None }],
    };
    assert!(!chain_is_wf(&id_missing));
    let out_of_order = Inscription {
        inscription_number: 3,
        txs: vec![unsent("aa"), sent("bb", &id64('1'))],
    };
    assert!(!chain_is_wf(&out_of_order));
}

#[test]
fn last_pushed_id_names_the_gating_step() {
    let none_yet = Inscription { inscription_number: 1, txs: vec![unsent("aa")] };
    assert_eq!(last_pushed_id(&none_yet), None);
    let two_in = Inscription {
        inscription_number: 2,
        txs: vec![sent("aa", &id64('1')), sent("bb", &id64('2')), unsent("cc")],
    };
    assert_eq!(last_pushed_id(&two_in), Some(&id64('2')));
}

#[test]
fn confirmation_reads_the_status_field() {
    let yes = Transaction { status: Status { confirmed: true } };
    let no = Transaction { status: Status { confirmed: false } };
    assert!(transaction_is_confirmed(&yes));
    assert!(!transaction_is_confirmed(&no));
}
