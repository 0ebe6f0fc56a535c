use zkas_shielded::address::{Address, Prefix, Version};
use zkas_shielded::bundle::{sizes, ActionWire, ShieldedBundle};
use zkas_shielded::daemon::blocks::{
    decode_block, frontier_state, ingest_shielded_chain_block, ChainBlock, DecodedBlock,
};
use zkas_shielded::daemon::credentials::{
    bearer_token, certificate_names, check_indices, check_signature_text, device_signatures,
    fingerprint_of_der, imported_seed, signature_text, watched_key, CheckError, KeyError, TlsIdentity,
};
use zkas_shielded::daemon::fees::{plan_chunks, take_notes, Chunk, FeeSchedule};
use zkas_shielded::daemon::history::{history_page, HistoryEntry, HistoryKind};
use zkas_shielded::daemon::load::{
    close_pass, entry_at, fast_sync_applies, full_scan_entry, kept_birthday, replay_page, resume, settle_pass,
    walk_step, Canonical, ReplayStep, Resume, SyncOutcome, WalkStep,
};
use zkas_shielded::daemon::repair::{diagnose, graft_wallet, RepairError};
use zkas_shielded::daemon::request::{
    cursor_gone, fmt_fc, history_window, known_prefix, not_a_u64, pairing_uri, parse_u64,
    prefix_from, sanitize_token, scan_path, token_from, wallet_path, JsonU64, TokenError,
};
use zkas_shielded::daemon::scanfile::{parse_scan_bytes, write_scan};
use zkas_shielded::daemon::spend::{
    check_fresh, consolidate, insufficient_message, matured_candidates, memo_bytes,
    order_by_value, prepare_from, select_spends, settle_amount, stranded_hint,
    wallet_prepare_step, wallet_send_step, ConsolidateError, PrepareError, PrepareStep, SendStep,
    Stale,
};
use zkas_shielded::daemon::status::{snap_from_entry, status, Diagnosis, StatusSource};
use zkas_shielded::daemon::submit::{
    chunk_memo, mark_all_spent, settle_submission, SendState, SubmitStep,
};
use zkas_shielded::daemon::sync::{
    cursor_verdict, matured_in, DecodedPage, PageOutcome, Probe, SyncError, WalletEntry,
};
use zkas_shielded::daemon::vault::WalletKey;
use zkas_shielded::daemon::warm::{witness_budget, witness_step};
use zkas_shielded::message::{sign_message, VerifyError};
use zkas_shielded::payer::{
    distil, draw, first_note, ingest_limit, scan_page, short_message, Draw, FullBlock, ScanStep,
};
use zkas_shielded::tree::{GlobalTree, NoteCommitmentTree};
use zkas_shielded::tx::{payment_tx, Transaction, TransactionOutput};
use zkas_shielded::wallet::prepared::draft_payment;
use zkas_shielded::wallet::{address_bytes_from_seed, recover_sent, ShieldedKeys};
use zkas_shielded::walletdb::graft::GraftError;
use zkas_shielded::walletdb::WalletDb;

const SEED: [u8; 32] = [7; 32];

fn raw(seed: u8) -> [u8; 43] {
    address_bytes_from_seed([seed; 32]).unwrap()
}

fn wire(nf: u8) -> ShieldedBundle {
    ShieldedBundle {
        actions: vec![ActionWire {
            nullifier: [nf; 32],
            rk: [2; 32],
            cmx: [3; 32],
            cv_net: [4; 32],
            ephemeral_key: [5; 32],
            enc_ciphertext: [6; sizes::ENC_CIPHERTEXT],
            out_ciphertext: [7; sizes::OUT_CIPHERTEXT],
            spend_auth_sig: [8; sizes::SIG],
        }],
        flags: 3,
        value_balance: 5,
        anchor: [9; 32],
        proof: vec![1, 2, 3],
        binding_sig: [10; sizes::SIG],
    }
}

fn block(n: u8, blue: u64, outputs: &[([u8; 43], u64)], bundles: Vec<Vec<u8>>) -> ChainBlock {
    ChainBlock {
        hash: [n; 32],
        blue_score: blue,
        daa_score: blue + 1000,
        coinbase_txid: [n; 32],
        coinbase_outputs: outputs
            .iter()
            .map(|(r, v)| TransactionOutput { value: *v, script: r.to_vec() })
            .collect(),
        accepted_bundles: bundles,
        accepted_txids: vec![[n.wrapping_add(100); 32]],
        timestamp: 5,
    }
}

fn entry() -> WalletEntry {
    WalletEntry::from_parts(
        WalletKey::Seed(SEED),
        false,
        WalletDb::from_seed(SEED).unwrap(),
        [0; 32],
        [0; 32],
        0,
        vec![],
        0,
    )
}

fn page(sink: u64, blocks: &[ChainBlock]) -> DecodedPage {
    let blocks: Vec<DecodedBlock> = blocks.iter().map(decode_block).collect();
    DecodedPage { reorged: false, sink_blue_score: sink, blocks }
}

#[test]
fn blocks_decode_what_they_hold() {
    let mut b = block(1, 5, &[(raw(7), 50), (raw(8), 60)], vec![vec![1], wire(1).to_bytes(), wire(2).to_bytes()]);
    b.coinbase_outputs.push(TransactionOutput { value: 1, script: vec![0; 42] });
    b.coinbase_outputs.push(TransactionOutput { value: 1, script: vec![0xff; 43] });
    b.accepted_txids = vec![[1; 32], [2; 32]];
    let d = decode_block(&b);
    assert_eq!(d.coinbase.iter().map(|c| c.1).collect::<Vec<_>>(), vec![50, 60]);
    assert_eq!(d.bundles, vec![wire(1), wire(2)]);
    assert_eq!(d.txids, vec![[2; 32], [0; 32]]);
    assert_eq!((d.hash, d.blue_score, d.daa_score, d.timestamp), ([1; 32], 5, 1005, 5));

    let mut a = WalletDb::from_seed(SEED).unwrap();
    let mut c = WalletDb::from_seed(SEED).unwrap();
    ingest_shielded_chain_block(&mut a, &b);
    let refs: Vec<&ShieldedBundle> = d.bundles.iter().collect();
    c.ingest_block_precomputed(&d.coinbase, &refs);
    assert_eq!(a.anchor(), c.anchor());
    assert_eq!(a.balance(), 50);
    assert_eq!(a.size(), 4);
}

#[test]
fn settled_blocks_enter_and_the_rest_is_previewed() {
    let mut e = entry();
    let blocks = [
        block(1, 10, &[(raw(7), 50)], vec![]),
        block(2, 20, &[(raw(8), 60)], vec![]),
        block(3, 101, &[(raw(7), 5)], vec![wire(9).to_bytes()]),
    ];
    e.strikes = 2;
    assert_eq!(e.follow_page(&page(300, &blocks)), PageOutcome::CaughtUp);
    assert_eq!(e.strikes, 0);
    assert_eq!((e.low, e.scanned, e.sink_blue), ([2; 32], 1020, 300));
    assert_eq!(e.ring, vec![(10, 1), (20, 2)]);
    assert_eq!((e.preview.incoming, e.preview.outgoing), (5, 0));
    assert_eq!(e.db.balance(), 50);
    assert!(e.caught_up);

    // What the mempool shares with those blocks is counted once.
    e.scan_mempool(&vec![wire(9)]);
    assert_eq!(e.mempool.outgoing, 0);

    // Once settled, it enters.
    let mut more = entry();
    assert_eq!(more.follow_page(&page(301, &blocks)), PageOutcome::More);
    assert_eq!(more.db.balance(), 55);
    assert_eq!(more.preview.incoming, 0);
    assert_eq!(more.follow_page(&page(301, &[])), PageOutcome::CaughtUp);
}

#[test]
fn a_spend_in_the_mempool_shows_once() {
    let mut e = entry();
    e.follow_page(&page(1000, &[block(1, 10, &[(raw(7), 50)], vec![])]));
    let mut spend = wire(1);
    spend.actions[0].nullifier = e.db.notes()[0].nullifier;
    e.scan_mempool(&vec![spend.clone()]);
    assert_eq!(e.mempool.outgoing, 50);
    e.follow_page(&page(210, &[block(2, 11, &[], vec![spend.to_bytes()])]));
    assert_eq!(e.preview.outgoing, 50);
    e.scan_mempool(&vec![spend]);
    assert_eq!(e.mempool.outgoing, 0);
}

#[test]
fn pages_in_parts_are_pages_as_one() {
    let blocks =
        [block(1, 1, &[(raw(7), 1)], vec![]), block(2, 2, &[(raw(7), 2)], vec![wire(4).to_bytes()])];
    let mut one = entry();
    one.follow_page(&page(1000, &blocks));
    let mut two = entry();
    two.follow_page(&page(1000, &blocks[..1]));
    two.follow_page(&page(1000, &blocks[1..]));
    assert_eq!(one.db.anchor(), two.db.anchor());
    assert_eq!(one.ring, two.ring);
    assert_eq!(one.db.balance(), two.db.balance());
}

#[test]
fn strikes_count_and_clear() {
    let mut e = entry();
    let off = DecodedPage { reorged: true, sink_blue_score: 9, blocks: vec![] };
    assert_eq!(e.follow_page(&off), PageOutcome::Reorged);
    assert_eq!((e.strikes, e.sink_blue), (1, 0));
    assert_eq!(e.error, Some(SyncError::Reorged));
    e.page_failed(true, "x");
    assert_eq!((e.strikes, e.error.clone()), (2, Some(SyncError::CursorGone)));
    e.page_failed(false, "busy");
    assert_eq!(e.strikes, 2);
    assert_eq!(e.error.clone().unwrap().message(), "get_shielded_blocks failed: busy");
    e.page_timed_out();
    assert_eq!(e.error, Some(SyncError::TimedOut));
    assert_eq!(settle_pass(&e, false), (SyncOutcome::Behind, false));
    e.strikes = 3;
    assert_eq!(settle_pass(&e, false), (SyncOutcome::Retired, false));
    e.strikes = 0;
    e.finish_pass(77);
    assert_eq!((e.error.clone(), e.updated_unix), (None, 77));
    e.poison();
    assert_eq!(e.error.unwrap().message(), "rescanning from birthday");
}

#[test]
fn only_a_live_node_says_that_a_cursor_is_gone() {
    assert!(cursor_gone("RPC: cannot find header abc"));
    assert!(cursor_gone("x does not have retention root y"));
    assert!(!cursor_gone("deadline elapsed"));
    let gone = Probe::Failed("cannot find full block".to_string());
    assert!(cursor_verdict("required chain data is missing", &Probe::Found, false));
    assert!(cursor_verdict("busy", &gone, true));
    assert!(!cursor_verdict("busy", &gone, false));
    assert!(!cursor_verdict("busy", &Probe::TimedOut, true));
    assert!(!cursor_verdict("busy", &Probe::Found, true));
}

#[test]
fn boundaries_mature_below_the_sink() {
    let ring = [(5, 1), (10, 2), (12, 3)];
    assert_eq!(matured_in(&ring, 640), Some(2));
    assert_eq!(matured_in(&ring, 642), Some(3));
    assert_eq!(matured_in(&ring, 634), None);
    assert_eq!(matured_in(&[(0, 4)], 1), Some(4));
    let mut e = entry();
    for i in 0..700u64 {
        e.ring.push((i, i));
    }
    e.ring.truncate(694);
    e.follow_page(&page(5000, &[block(1, 4000, &[], vec![])]));
    assert_eq!(e.ring.len(), 694);
    assert_eq!(e.ring[0], (1, 1));
    assert_eq!(e.ring[693], (4000, 0));
    assert_eq!(e.matured_leaves(), Some(0));
}

#[test]
fn checkpoints_are_written_when_due() {
    let mut e = entry();
    e.scanned = 999;
    assert_eq!(settle_pass(&e, false), (SyncOutcome::Behind, false));
    e.scanned = 1000;
    assert_eq!(settle_pass(&e, false), (SyncOutcome::Behind, true));
    e.scanned = 1;
    e.caught_up = true;
    assert_eq!(settle_pass(&e, false), (SyncOutcome::Idle, true));
    assert_eq!(settle_pass(&e, true), (SyncOutcome::Idle, false));
    e.force_checkpoint = true;
    assert_eq!(settle_pass(&e, true), (SyncOutcome::Idle, true));
    e.mark_saved();
    assert_eq!((e.saved_scanned, e.force_checkpoint), (1, false));
    e.force_checkpoint = true;
    e.error = Some(SyncError::TimedOut);
    assert_eq!(settle_pass(&e, true), (SyncOutcome::Idle, false));
}

#[test]
fn wallets_resume_or_scan() {
    let db = WalletDb::from_seed(SEED).unwrap();
    let key = WalletKey::Seed(SEED);
    let scan = write_scan(&[1; 32], &[2; 32], 3, &db.to_checkpoint(), &[(4, 5)], 6, 7);
    match resume(Some(&scan), key, true, [1; 32], None) {
        Resume::Entry(e) => {
            assert_eq!((e.low, e.scanned, e.saved_scanned), ([2; 32], 3, 3));
            assert_eq!((e.ring, e.sink_blue, e.blind_below), (vec![(4, 5)], 6, 7));
            assert!(e.recoverable_history && !e.caught_up);
        }
        Resume::Scan { .. } => panic!(),
    }
    assert!(matches!(resume(None, key, true, [1; 32], None), Resume::Scan { quarantine: false }));
    assert!(matches!(
        resume(Some(&scan), key, true, [9; 32], None),
        Resume::Scan { quarantine: false }
    ));
    let mut tree = GlobalTree::new();
    let leaf = zkas_shielded::field::ExtractedNoteCommitment::from_bytes(&[0; 32]).unwrap();
    tree.append(leaf).unwrap();
    assert!(matches!(
        resume(Some(&scan), key, true, [1; 32], Some(&tree.to_state())),
        Resume::Scan { quarantine: true }
    ));

    assert!(fast_sync_applies(10, 10) && !fast_sync_applies(9, 10));
    let fs = tree.to_state();
    let e = entry_at(key, false, [1; 32], [3; 32], 44, &fs).unwrap();
    assert_eq!((e.low, e.scanned, e.db.size()), ([3; 32], 44, 1));
    let e = full_scan_entry(key, false, [1; 32], 43, [3; 32], [3; 32], 44, &fs).unwrap();
    assert_eq!(e.blind_below, 1);
    let e = full_scan_entry(key, false, [1; 32], 44, [3; 32], [3; 32], 44, &fs).unwrap();
    assert_eq!(e.blind_below, 0);
    assert!(full_scan_entry(key, false, [1; 32], 0, [3; 32], [4; 32], 44, &fs).is_none());
    assert_eq!(frontier_state(0, [1; 32], vec![]).leaf, None);
    assert_eq!(frontier_state(1, [1; 32], vec![]).leaf, Some([1; 32]));
}

#[test]
fn a_wallet_must_be_the_nodes() {
    let mut e = entry();
    assert_eq!(e.ensure_canonical(&GlobalTree::new().to_state()), Canonical::Yes);
    assert_eq!(e.strikes, 0);
    let bad = frontier_state(5, [0xff; 32], vec![]);
    assert_eq!(e.ensure_canonical(&bad), Canonical::BadFrontier);
    let mut tree = GlobalTree::new();
    let leaf = zkas_shielded::field::ExtractedNoteCommitment::from_bytes(&[0; 32]).unwrap();
    tree.append(leaf).unwrap();
    assert_eq!(e.ensure_canonical(&tree.to_state()), Canonical::Diverged);
    assert_eq!((e.strikes, e.error), (3, Some(SyncError::Diverged)));
}

#[test]
fn the_walk_stops_before_the_birthday() {
    let p = [([1; 32], 10), ([2; 32], 20), ([3; 32], 30)];
    assert_eq!(walk_step(false, &p, None, 25), WalkStep::StartAt([2; 32]));
    assert_eq!(walk_step(false, &p, None, 30), WalkStep::StartAt([2; 32]));
    assert_eq!(walk_step(false, &p, None, 10), WalkStep::GiveUp);
    assert_eq!(walk_step(false, &p, Some([9; 32]), 5), WalkStep::StartAt([9; 32]));
    assert_eq!(walk_step(false, &p, None, 31), WalkStep::StartAt([3; 32]));
    assert_eq!(walk_step(true, &p, None, 25), WalkStep::GiveUp);
    assert_eq!(walk_step(false, &[], None, 25), WalkStep::GiveUp);
    let long: Vec<([u8; 32], u64)> = (0..2000u64).map(|i| ([1; 32], i)).collect();
    assert_eq!(walk_step(false, &long, None, 5000), WalkStep::Fetch([1; 32]));
}

#[test]
fn a_replay_ends_where_anchors_do() {
    let blocks = vec![block(1, 5, &[(raw(7), 5)], vec![]), block(2, 9, &[(raw(7), 6)], vec![])];
    let mut db = WalletDb::from_seed(SEED).unwrap();
    assert_eq!(replay_page(&mut db, false, 636, &blocks), ReplayStep::Done);
    assert_eq!(db.balance(), 5);
    let mut db = WalletDb::from_seed(SEED).unwrap();
    assert_eq!(replay_page(&mut db, false, 700, &blocks), ReplayStep::Fetch([2; 32]));
    assert_eq!(db.balance(), 11);
    assert_eq!(replay_page(&mut db, false, 700, &vec![]), ReplayStep::Done);
    assert_eq!(replay_page(&mut db, true, 700, &blocks), ReplayStep::Reorged);
    assert_eq!(db.balance(), 11);
}

#[test]
fn registrations_keep_the_earlier_birthday() {
    let same = Some((WalletKey::Fvk([1; 96]), 50));
    assert_eq!(kept_birthday(same, &[1; 96], true, 80), Some(50));
    assert_eq!(kept_birthday(same, &[1; 96], true, 20), Some(20));
    assert_eq!(kept_birthday(same, &[1; 96], false, 20), None);
    assert_eq!(kept_birthday(same, &[2; 96], true, 20), None);
    assert_eq!(kept_birthday(Some((WalletKey::Seed([1; 32]), 5)), &[1; 96], true, 20), None);
    assert_eq!(kept_birthday(None, &[1; 96], true, 20), None);
}

/// A wallet with notes of these values, all deep enough.
fn rich(values: &[u64]) -> WalletEntry {
    let mut e = entry();
    let outputs: Vec<([u8; 43], u64)> = values.iter().map(|v| (raw(7), *v)).collect();
    e.follow_page(&page(5000, &[block(1, 10, &outputs, vec![])]));
    e
}

fn fees(base: u64, least: &[u64]) -> FeeSchedule {
    FeeSchedule { base, least: least.to_vec() }
}

#[test]
fn fees_follow_the_schedule() {
    let f = fees(3, &[1, 5, 9]);
    assert_eq!((f.chunk_fee(0), f.chunk_fee(1), f.chunk_fee(2)), (3, 3, 5));
    assert_eq!((f.chunk_fee(3), f.chunk_fee(8)), (9, 9));
    assert_eq!(fees(2, &[]).chunk_fee(4), 2);
    assert_eq!(take_notes(&[10, 9, 8], 12, &fees(1, &[]), 3), (2, 19));
    assert_eq!(take_notes(&[10, 9, 8], 19, &fees(1, &[]), 2), (2, 19));
    assert_eq!(take_notes(&[], 1, &fees(1, &[]), 2), (0, 0));
}

#[test]
fn payments_are_cut_into_chunks() {
    let f = fees(1, &[]);
    let plan = plan_chunks(&[10, 9, 8, 7], 25, &f, 2).unwrap();
    assert_eq!(
        plan,
        vec![Chunk { notes: 2, pay: 18, fee: 1 }, Chunk { notes: 1, pay: 7, fee: 1 }]
    );
    assert_eq!(plan_chunks(&[10, 9], 19, &f, 2), None);
    assert_eq!(plan_chunks(&[1, 1], 1, &f, 1), None);
    assert_eq!(plan_chunks(&[5], 0, &f, 1), Some(vec![]));
    assert_eq!(plan_chunks(&[], 1, &f, 1), None);
}

#[test]
fn values_are_put_in_order() {
    assert_eq!(order_by_value(&[5, 9, 5, 7], true), vec![1, 3, 0, 2]);
    assert_eq!(order_by_value(&[5, 9, 5, 7], false), vec![0, 2, 3, 1]);
    assert!(order_by_value(&[], true).is_empty());
}

#[test]
fn sends_are_planned_from_deep_notes() {
    let e = rich(&[10, 30, 20]);
    let f = fees(1, &[]);
    match wallet_send_step(&e, 45, &f, 2) {
        SendStep::Go(txs) => {
            assert_eq!(txs.len(), 1);
            assert_eq!((txs[0].pay, txs[0].fee), (45, 1));
            assert_eq!(txs[0].positions, vec![1, 2]);
            assert_eq!(txs[0].inputs[0].0.value(), 30);
            for (note, path) in &txs[0].inputs {
                assert_eq!(path.root(&note.commitment()).to_bytes(), e.db.anchor());
            }
        }
        _ => panic!(),
    }
    let mut done = rich(&[10]);
    done.caught_up = true;
    assert!(matches!(wallet_send_step(&done, 10, &f, 2), SendStep::Refuse { have: 10, stranded: 0 }));
    done.caught_up = false;
    assert!(matches!(wallet_send_step(&done, 10, &f, 2), SendStep::Replay));
    assert!(matches!(wallet_send_step(&entry(), 10, &f, 2), SendStep::Replay));
    let (notes, lost) = matured_candidates(&e.db, 2);
    assert_eq!(notes.iter().map(|n| n.position).collect::<Vec<_>>(), vec![0, 1]);
    assert_eq!(lost, 0);
}

#[test]
fn one_transaction_takes_what_it_can() {
    let e = rich(&[10, 30, 20]);
    let f = fees(1, &[]);
    let s = select_spends(&e.db, e.db.notes(), 3, 55, &f, 2).unwrap();
    assert_eq!((s.selected, s.have, s.fee), (50, 60, 1));
    assert_eq!(s.positions, vec![1, 2]);
    assert_eq!(settle_amount(55, 1, 50, 60, true, 2), Ok((49, 6)));
    assert_eq!(
        settle_amount(55, 1, 50, 60, false, 2),
        Err(PrepareError::TooManyNotes { max_per: 2, capacity: 49 })
    );
    assert_eq!(
        settle_amount(60, 1, 50, 60, true, 2),
        Err(PrepareError::Insufficient { have: 60, need: 61 })
    );
    assert_eq!(settle_amount(49, 1, 50, 60, true, 2), Ok((49, 0)));
    assert_eq!(
        PrepareError::TooManyNotes { max_per: 2, capacity: 49 }.message(),
        "amount needs more than 2 input notes (standard tx size cap): max sendable in one tx is 49 sompi; send in smaller chunks"
    );
    assert!(select_spends(&e.db, e.db.notes(), 9, 55, &f, 2).is_none());
}

#[test]
fn payments_are_prepared_from_the_registered_wallet() {
    let mut e = rich(&[10, 30, 20]);
    let f = fees(1, &[]);
    let fvk = e.db.fvk().to_bytes();
    let tip = e.scanned;
    match wallet_prepare_step(&e, &fvk, tip, 45, &f, 2, false) {
        PrepareStep::Go { selection, pay, owed } => {
            assert_eq!((pay, owed, selection.fee), (45, 0, 1));
            assert_eq!(selection.positions, vec![1, 2]);
            for (note, path) in &selection.inputs {
                assert_eq!(path.root(&note.commitment()).to_bytes(), e.db.anchor());
            }
        }
        _ => panic!(),
    }
    assert!(matches!(
        wallet_prepare_step(&e, &fvk, tip, 55, &f, 2, true),
        PrepareStep::Go { pay: 49, owed: 6, .. }
    ));
    assert!(matches!(
        wallet_prepare_step(&e, &fvk, tip, 55, &f, 2, false),
        PrepareStep::Refuse(PrepareError::TooManyNotes { max_per: 2, capacity: 49 })
    ));
    assert!(matches!(
        wallet_prepare_step(&e, &fvk, tip, 60, &f, 2, true),
        PrepareStep::Refuse(PrepareError::Insufficient { have: 60, need: 61 })
    ));
    assert!(matches!(
        wallet_prepare_step(&e, &[1; 96], tip, 45, &f, 2, false),
        PrepareStep::Replay
    ));
    assert!(matches!(
        wallet_prepare_step(&entry(), &fvk, 1, 45, &f, 2, false),
        PrepareStep::Replay
    ));
    assert!(matches!(
        prepare_from(&e.db, e.db.notes(), 9, 45, &f, 2, false),
        PrepareStep::NoPath
    ));
    assert!(matches!(
        wallet_prepare_step(&e, &fvk, 0, 45, &f, 2, false),
        PrepareStep::Wait(Stale { node_tip: 0, .. })
    ));
    e.strikes = 1;
    assert!(matches!(
        wallet_prepare_step(&e, &fvk, tip, 45, &f, 2, false),
        PrepareStep::Wait(_)
    ));
}

/// A wallet of three leaves and notes at 0, 1 and 2, and its checkpoint with the stream cut
/// short: it starts from the tree of the first two leaves.
fn cut_short() -> (WalletDb, Vec<u8>) {
    let mut full = WalletDb::from_seed(SEED).unwrap();
    ingest_shielded_chain_block(&mut full, &block(1, 10, &[(raw(7), 10), (raw(7), 30)], vec![]));
    // Behind the notes stand the nullifiers, of which there are none, and the tree: a flag,
    // the last leaf, the number of past siblings and the one that there is.
    let early = full.to_checkpoint();
    let tip = early[early.len() - (1 + 32 + 8 + 32)..].to_vec();
    ingest_shielded_chain_block(&mut full, &block(2, 20, &[(raw(7), 20)], vec![]));
    let whole = full.to_checkpoint();
    let mut cut = vec![whole[0]];
    cut.extend_from_slice(&2u64.to_le_bytes());
    cut.extend_from_slice(&tip);
    cut.extend_from_slice(&3u64.to_le_bytes());
    cut.extend_from_slice(&1u64.to_le_bytes());
    cut.extend_from_slice(&whole[1 + 8 + 1 + 8 + 8 + 2 * 32..]);
    (full, cut)
}

#[test]
fn stranded_notes_come_back_by_grafting() {
    let (full, cut) = cut_short();
    let mut db = WalletDb::from_checkpoint(SEED, &cut).unwrap();
    assert_eq!((db.base_size(), db.size(), db.balance()), (2, 3, 60));
    assert_eq!(db.stranded_notes().iter().map(|n| n.position).collect::<Vec<_>>(), vec![0, 1]);
    assert!(db.is_stranded(1) && !db.is_stranded(2));
    assert!(db.witness_path(1).is_none() && db.witness_path(2).is_some());
    let (notes, lost) = matured_candidates(&db, 3);
    assert_eq!((notes.len(), notes[0].position, lost), (1, 2, 40));
    let d = diagnose(&db, 9);
    assert_eq!((d.notes, d.balance, d.scanned, d.base, d.size), (3, 60, 9, 2, 3));
    assert_eq!((d.stranded, d.stranded_value), (vec![0, 1], 40));

    let other = WalletDb::from_seed([8; 32]).unwrap();
    assert_eq!(db.graft_history(&other), Err(GraftError::OtherWallet));
    let mut short = WalletDb::from_seed(SEED).unwrap();
    assert_eq!(db.graft_history(&short), Err(GraftError::Gap));
    ingest_shielded_chain_block(&mut short, &block(7, 10, &[(raw(7), 10), (raw(7), 30)], vec![]));
    assert_eq!(db.graft_history(&short), Err(GraftError::Disagree));
    assert_eq!(GraftError::Disagree.message(), "the leaf streams disagree");
    assert_eq!(db.base_size(), 2);

    let path = db.witness_path(2).unwrap();
    assert_eq!(db.graft_history(&full), Ok(2));
    assert_eq!(db.graft_history(&full), Err(GraftError::NothingBelow));
    assert_eq!((db.base_size(), db.size(), db.balance()), (0, 3, 60));
    assert_eq!(db.anchor(), full.anchor());
    assert!(db.stranded_notes().is_empty());
    assert_eq!(db.witness_path(2).unwrap().auth_path(), path.auth_path());
    for n in db.notes() {
        let path = db.witness_path(n.position).unwrap();
        assert_eq!(path.root(&n.note.commitment()).to_bytes(), full.anchor());
    }
}

#[test]
fn files_are_repaired_by_older_ones() {
    let (full, cut) = cut_short();
    let key = WalletKey::Seed(SEED);
    let current = write_scan(&[1; 32], &[2; 32], 9, &cut, &[(5, 3)], 7, 0);
    let older = write_scan(&[1; 32], &[3; 32], 8, &full.to_checkpoint(), &[], 6, 0);
    let r = graft_wallet(&current, &older, &key).ok().unwrap();
    assert_eq!((r.restored, r.base, r.before, r.after), (2, 0, 2, 0));
    assert_eq!(r.report(), "grafted 2 leaves back (base now 0); stranded notes 2 -> 0");
    let (parts, db) = parse_scan_bytes(&r.scan, &key, None).unwrap();
    assert_eq!((parts.genesis, parts.low, parts.scanned), ([1; 32], [2; 32], 9));
    assert_eq!((parts.ring, parts.sink_blue), (vec![(5, 3)], 7));
    assert_eq!((db.base_size(), db.anchor()), (0, full.anchor()));

    let elsewhere = write_scan(&[4; 32], &[3; 32], 8, &full.to_checkpoint(), &[], 6, 0);
    let fault = |a: &[u8], b: &[u8]| graft_wallet(a, b, &key).err().unwrap();
    assert_eq!(fault(&current, &elsewhere), RepairError::OtherChain);
    assert_eq!(fault(&current[1..], &older), RepairError::Current);
    assert_eq!(fault(&current, &older[1..]), RepairError::Older);
    assert_eq!(fault(&older, &current), RepairError::Graft(GraftError::NothingBelow));
    assert_eq!(
        RepairError::OtherChain.message(),
        "older snapshot is from a different chain (genesis mismatch)"
    );
}

#[test]
fn the_newest_entries_come_first() {
    let entries: Vec<HistoryEntry> = (0..4u8)
        .map(|n| HistoryEntry {
            kind: [HistoryKind::Coinbase, HistoryKind::Received, HistoryKind::Sent][n as usize % 3],
            txid: [n; 32],
            daa_score: n as u64 + 10,
            timestamp_ms: n as u64 + 100,
            amount: n as u64 * 7,
            fee: n as u64,
            recipient: if n == 2 { Some([5; 43]) } else { None },
            memo: vec![n; n as usize],
        })
        .collect();
    let p = history_page(&entries, Some(2), Some(1));
    assert_eq!((p.total, p.offset, p.limit, p.rows.len()), (4, 1, 2, 2));
    assert_eq!(p.rows[0].kind, "sent");
    assert_eq!(p.rows[0].txid, "02".repeat(32));
    assert_eq!((p.rows[0].daa_score, p.rows[0].timestamp), (12, 102));
    assert_eq!((p.rows[0].amount_sompi, p.rows[0].amount_sompi_exact.as_str()), (14, "14"));
    assert_eq!((p.rows[0].fee_sompi, p.rows[0].fee_sompi_exact.as_str()), (2, "2"));
    assert_eq!((p.rows[0].recipient, p.rows[0].memo.clone()), (Some([5; 43]), Some(vec![2, 2])));
    assert_eq!((p.rows[1].kind.as_str(), p.rows[1].recipient), ("received", None));
    let all = history_page(&entries, None, None);
    assert_eq!((all.limit, all.rows.len()), (500, 4));
    assert_eq!((all.rows[3].kind.as_str(), all.rows[3].memo.clone()), ("coinbase", None));
    assert!(history_page(&entries, Some(9), Some(4)).rows.is_empty());
}

#[test]
fn accepted_transactions_count_and_refused_ones_do_not() {
    let mut e = rich(&[10, 30, 20]);
    let txs = match wallet_send_step(&e, 45, &fees(1, &[]), 1) {
        SendStep::Go(txs) => txs,
        _ => panic!(),
    };
    assert_eq!(txs.iter().map(|t| (t.pay, t.fee)).collect::<Vec<_>>(), vec![(29, 1), (16, 1)]);
    let mut s = SendState::new(txs.len());
    let step = settle_submission(&mut s, &txs[0], None);
    assert!(matches!(step, SubmitStep::Rejected));
    assert_eq!(step.message("no"), "node rejected the payment: no");
    assert_eq!((s.txids.len(), s.sent, s.fees), (0, 0, 0));

    let step = settle_submission(&mut s, &txs[0], Some("a"));
    assert!(matches!(&step, SubmitStep::Mark(p) if *p == vec![1]));
    assert_eq!((s.txids.clone(), s.sent, s.fees), (vec!["a".to_string()], 29, 1));
    mark_all_spent(&mut e.db, &txs[0].positions);
    assert_eq!(e.db.notes().iter().map(|n| n.position).collect::<Vec<_>>(), vec![0, 2]);

    let step = settle_submission(&mut s, &txs[1], None);
    assert!(matches!(step, SubmitStep::Partial { accepted: 1, total: 2 }));
    assert_eq!(
        step.message("no"),
        "payment partially sent: 1/2 txs accepted, then the node rejected: no"
    );
    assert_eq!((s.txids.len(), s.sent), (1, 29));
    settle_submission(&mut s, &txs[1], Some("b"));
    assert_eq!((s.txids.len(), s.sent, s.fees), (2, 45, 2));
    mark_all_spent(&mut e.db, &[0, 2, 9]);
    assert_eq!(e.db.balance(), 0);
    assert_eq!(chunk_memo(&[7; 512], 0), [7; 512]);
    assert_eq!(chunk_memo(&[7; 512], 1), [0; 512]);
}

#[test]
fn lost_payments_come_back_and_settled_ones_do_not() {
    let mut e = rich(&[10, 30, 20]);
    e.scanned = 1_000;
    e.park(&[1; 32], &[1, 9]);
    e.scanned = 2_000;
    e.park(&[2; 32], &[0]);
    assert_eq!(e.db.balance(), 20);
    assert_eq!(e.parked.iter().map(|p| (p.txid[0], p.submitted)).collect::<Vec<_>>(), vec![(1, 1_000), (2, 2_000)]);

    e.scanned = 4_600;
    e.caught_up = false;
    assert!(e.reclaim_expired().is_empty(), "nothing is judged before the wallet is caught up");
    e.caught_up = true;
    e.force_checkpoint = false;
    e.scanned = 4_599;
    assert!(e.reclaim_expired().is_empty());
    assert!(!e.force_checkpoint);
    e.scanned = 4_600;
    assert_eq!(e.reclaim_expired(), vec![([1; 32], 30)]);
    assert!(e.force_checkpoint);
    assert_eq!(e.db.notes().iter().map(|n| n.position).collect::<Vec<_>>(), vec![1, 2]);
    assert_eq!(e.parked.len(), 1);

    // The chain shows the other one: it is settled, however late it is.
    let mut spend = wire(1);
    spend.actions[0].nullifier = e.parked[0].note.nullifier;
    e.db.ingest_block(&[], &[&spend]);
    e.scanned = 9_999;
    let (outcome, due, lost) = close_pass(&mut e, true);
    assert_eq!((outcome, due, lost.len(), e.parked.len()), (SyncOutcome::Idle, true, 0, 0));
    assert_eq!(e.db.balance(), 50);

    e.park(&[3; 32], &[1]);
    e.scanned = 20_000;
    e.strikes = 1;
    let (outcome, due, lost) = close_pass(&mut e, true);
    assert_eq!((outcome, due, lost.len()), (SyncOutcome::Behind, false, 0));
    let note = e.parked[0].note;
    e.db.take_back(note);
    e.db.take_back(note);
    assert_eq!(e.db.notes().iter().map(|n| n.position).collect::<Vec<_>>(), vec![1, 2]);
}

#[test]
fn blocks_are_recorded_where_the_user_wants_it() {
    let keys = ShieldedKeys::from_seed(SEED).unwrap();
    let mut e = entry();
    e.recoverable_history = true;
    e.follow_page(&page(5000, &[block(1, 10, &[(raw(7), 1_000), (raw(8), 5)], vec![])]));
    assert_eq!(e.history.len(), 1);
    assert_eq!((e.history[0].kind, e.history[0].amount), (HistoryKind::Coinbase, 1_000));
    assert_eq!((e.history[0].txid, e.history[0].daa_score, e.history[0].timestamp_ms), ([1; 32], 1010, 5));

    let note = e.db.notes()[0];
    let path = e.db.witness_path(0).unwrap();
    let mut memo = [0u8; 512];
    memo[..2].copy_from_slice(b"hi");
    let fvk = keys.full_viewing_key();
    let paid =
        draft_payment(&fvk, vec![(note.note, path)], raw(9), 600, 100, &[0; 32], b"c", true, memo).unwrap();
    let sent = recover_sent(&fvk, &paid.effects);
    let mut values: Vec<(u64, [u8; 43])> = sent.iter().map(|r| (r.value(), r.note.recipient())).collect();
    values.sort();
    assert_eq!(values, vec![(300, raw(7)), (600, raw(9))]);
    let other = ShieldedKeys::from_seed([9; 32]).unwrap().full_viewing_key();
    assert!(recover_sent(&other, &paid.effects).is_empty());

    // A payment under way is known by its parked note.
    e.park(&[7; 32], &[0]);
    e.follow_page(&page(5000, &[block(2, 20, &[], vec![paid.effects.to_bytes()])]));
    let row = &e.history[1];
    assert_eq!((row.kind, row.amount, row.fee), (HistoryKind::Sent, 600, 100));
    assert_eq!((row.txid, row.recipient, row.memo.as_slice()), ([102; 32], Some(raw(9)), &b"hi"[..]));
    assert_eq!(e.db.balance(), 300);

    let from = ShieldedKeys::from_seed([9; 32]).unwrap();
    let theirs = {
        let mut db = WalletDb::from_seed([9; 32]).unwrap();
        ingest_shielded_chain_block(&mut db, &block(3, 30, &[(raw(9), 50)], vec![]));
        let (n, p) = (db.notes()[0].note, db.witness_path(0).unwrap());
        draft_payment(&from.full_viewing_key(), vec![(n, p)], raw(7), 40, 10, &[0; 32], b"c", false, memo).unwrap()
    };
    assert!(recover_sent(&from.full_viewing_key(), &theirs.effects).is_empty(), "not recoverable");
    e.follow_page(&page(5000, &[block(4, 40, &[], vec![theirs.effects.to_bytes()])]));
    let row = &e.history[2];
    assert_eq!((row.kind, row.amount, row.fee), (HistoryKind::Received, 40, 0));
    assert_eq!((row.recipient, row.memo.as_slice()), (None, &b"hi"[..]));

    // Blocks of an older node, and of a wallet that keeps no history, are not recorded.
    let mut undated = block(5, 50, &[(raw(7), 1)], vec![]);
    undated.timestamp = 0;
    e.follow_page(&page(5000, &[undated]));
    assert_eq!(e.history.len(), 3);
    e.recoverable_history = false;
    e.follow_page(&page(5000, &[block(6, 60, &[(raw(7), 1)], vec![])]));
    assert_eq!((e.history.len(), e.db.balance()), (3, 342));
}

#[test]
fn the_smallest_notes_are_merged() {
    let e = rich(&[10, 30, 20]);
    let tx = consolidate(&e, &fees(1, &[]), 2).ok().unwrap();
    assert_eq!((tx.pay, tx.fee, tx.positions), (29, 1, vec![0, 2]));
    assert!(matches!(
        consolidate(&rich(&[10]), &fees(1, &[]), 2),
        Err(ConsolidateError::TooFew)
    ));
    let over = consolidate(&rich(&[u64::MAX, u64::MAX, 1, 2]), &fees(1, &[]), 3).err().unwrap();
    assert_eq!(over, ConsolidateError::TooLarge { sum: u64::MAX as u128 + 3 });
    assert_eq!(
        over.message(),
        "smallest notes sum to 18446744073709551618, more than one payment can carry"
    );
    assert_eq!(
        consolidate(&rich(&[u64::MAX, u64::MAX, 1, 2]), &fees(1, &[]), 2).ok().unwrap().pay,
        2
    );
    assert!(matches!(
        consolidate(&e, &fees(30, &[]), 2),
        Err(ConsolidateError::TooSmall { sum: 30, fee: 30 })
    ));
    assert!(matches!(consolidate(&entry(), &fees(1, &[]), 2), Err(ConsolidateError::Syncing)));
}

#[test]
fn stale_wallets_do_not_spend() {
    assert_eq!(check_fresh(100, 364, 0), Ok(()));
    assert_eq!(check_fresh(100, 365, 0), Err(Stale { scanned: 100, node_tip: 365 }));
    assert!(check_fresh(100, 0, 0).is_err());
    assert!(check_fresh(100, 100, 1).is_err());
    assert_eq!(
        Stale { scanned: 1, node_tip: 2 }.message(),
        "wallet is still updating its canonical chain view (wallet DAA 1, node DAA 2); wait for sync before sending"
    );
}

#[test]
fn memos_fill_their_field() {
    let m = memo_bytes(Some("hé")).unwrap();
    assert_eq!(m[..3], *"hé".as_bytes());
    assert_eq!(m[3..], [0; 509]);
    assert_eq!(memo_bytes(None), Ok([0; 512]));
    assert!(memo_bytes(Some(&"a".repeat(512))).is_ok());
    assert!(memo_bytes(Some(&"a".repeat(513))).is_err());
}

#[test]
fn refusals_say_what_is_missing() {
    assert_eq!(stranded_hint(0), "");
    assert!(stranded_hint(150_000_000).starts_with("; note: 1.50000000 ZKAS of this wallet"));
    assert_eq!(
        insufficient_message(5, 7, 2, 0),
        "insufficient matured funds: have 5, need 9+ (amount 7 + a 2 fee per tx; funds must be ~10 min old to spend)"
    );
}

#[test]
fn status_tells_what_is_known() {
    let mut e = rich(&[10, 30]);
    e.chain_len = 900;
    e.preview.incoming = 4;
    e.mempool.incoming = 3;
    let s = snap_from_entry("addr".to_string(), &e, 1010);
    assert_eq!((s.balance_sompi, s.spendable_sompi, s.maturing_sompi), (40, 40, 0));
    assert_eq!((s.pending_in, s.pending_out, s.note_count), (7, 0, 2));
    assert_eq!((s.chain_len, s.scanned), (1010, 1010));
    assert!(s.synced && !s.watch_only && !s.missing_history && !s.warming);
    let r = status(StatusSource::Fresh(s), "mainnet".to_string(), true, 1010);
    assert_eq!((r.balance_sompi.as_str(), r.balance_fc.as_str()), ("40", "0.00000040"));
    assert_eq!(r.address.as_deref(), Some("addr"));
    assert_eq!(r.error, None);

    e.sink_blue = 0;
    e.blind_below = 1;
    e.caught_up = true;
    let s = snap_from_entry("a".to_string(), &e, 1043);
    assert_eq!((s.spendable_sompi, s.maturing_sompi), (0, 40));
    assert!(s.synced && s.missing_history && s.warming);
    let r = status(StatusSource::Last(s), "mainnet".to_string(), false, 5);
    assert_eq!(r.error.as_deref(), Some("updating…"));
    e.caught_up = false;
    assert!(!snap_from_entry("a".to_string(), &e, 1043).synced);
    assert!(snap_from_entry("a".to_string(), &e, 1042).synced);

    let r = status(StatusSource::Unseen, "n".to_string(), true, 9);
    assert_eq!((r.has_wallet, r.chain_len, r.error.as_deref()), (true, 9, Some("updating…")));
    let r = status(StatusSource::OnDisk, "n".to_string(), true, 9);
    assert_eq!(r.error.as_deref(), Some("loading…"));
    let r = status(StatusSource::Nothing, "n".to_string(), true, 9);
    assert!(!r.has_wallet && r.error.is_none());
    assert_eq!(r.maturing_fc, "0.00000000");
}

#[test]
fn a_diagnosis_is_one_line() {
    let d = Diagnosis {
        notes: 2,
        balance: 5,
        scanned: 3,
        base: 4,
        size: 6,
        stranded: vec![1, 9],
        stranded_value: 200_000_000,
    };
    assert_eq!(
        d.line("t"),
        "t: notes=2 balance=0.00000005 scanned=3 base=4 size=6 stranded=2 stranded_value=2.00000000 positions=[1, 9]\n"
    );
}

#[test]
fn wallets_are_warmed_step_by_step() {
    let mut e = entry();
    assert!(!e.warm_step(true), "there is no anchor yet");
    assert!(!e.witnesses_warm);
    let mut e = rich(&[10, 30, 20]);
    assert!(!e.warm_step(false), "a cold wallet waits to be warmed");
    assert_eq!((e.db.witnessed_upto(), e.witnesses_warm), (0, false));
    assert!(!e.warm_step(true));
    assert_eq!((e.db.witnessed_upto(), e.witnesses_warm, e.force_checkpoint), (3, true, true));
    e.force_checkpoint = false;
    assert!(!e.warm_step(false));
    assert_eq!((e.witnesses_warm, e.force_checkpoint), (true, false));
}

#[test]
fn witnesses_are_kept_within_budget() {
    assert_eq!((witness_budget(0), witness_budget(32), witness_budget(33)), (1, 32, 12));
    assert_eq!(witness_step(1, 16384), 16384);
    assert_eq!(witness_step(12, 4000), 2730);
    assert_eq!(witness_step(2000, 4000), 32);
    let mut e = rich(&[10, 30]);
    e.advance_spend_witnesses_bounded();
    assert_eq!(e.db.witnessed_upto(), 2);
}

#[test]
fn tokens_are_fit_for_file_names() {
    assert_eq!(sanitize_token(" ab-C_9 ").as_deref(), Some("ab-C_9"));
    assert_eq!(sanitize_token("../x"), None);
    assert_eq!(sanitize_token("  "), None);
    assert_eq!(sanitize_token(&"a".repeat(129)), None);
    assert!(sanitize_token(&"a".repeat(128)).is_some());
    assert_eq!(token_from(Some("a b"), true), Err(TokenError::Invalid));
    assert_eq!(token_from(None, true).unwrap(), "default");
    assert_eq!(token_from(None, false), Err(TokenError::Missing));
    assert_eq!((TokenError::Invalid.status(), TokenError::Missing.status()), (400, 401));
    assert_eq!(TokenError::Missing.message(), "missing X-Wallet-Token");
    assert_eq!(wallet_path("d", "t"), "d/t.json");
    assert_eq!(scan_path("d", "t"), "d/t.scan");
}

#[test]
fn networks_have_names() {
    assert_eq!(prefix_from("TestNet"), Prefix::Testnet);
    assert_eq!(prefix_from("devnet"), Prefix::Devnet);
    assert_eq!(prefix_from("SIMNET"), Prefix::Simnet);
    assert_eq!(prefix_from("nonsense"), Prefix::Mainnet);
    assert_eq!(known_prefix("Mainnet"), Some(Prefix::Mainnet));
    assert_eq!(known_prefix("simnet"), Some(Prefix::Simnet));
    assert_eq!(known_prefix("nonsense"), None);
}

#[test]
fn amounts_in_coins_have_eight_decimals() {
    assert_eq!(fmt_fc(0), "0.00000000");
    assert_eq!(fmt_fc(123_456_789), "1.23456789");
    assert_eq!(fmt_fc(u64::MAX as u128), "184467440737.09551615");
}

#[test]
fn prepare_accepts_exact_decimal_u64_values() {
    assert_eq!(JsonU64::Decimal("18446744073709551615".to_string()).parse(), Some(u64::MAX));
    assert_eq!(JsonU64::Decimal("3000000".to_string()).parse(), Some(3_000_000));
    assert_eq!(JsonU64::Decimal("18446744073709551616".to_string()).parse(), None);
    for bad in ["", "+", "-1", " 1", "1 ", "1.0", "0x1", "١"] {
        assert_eq!(parse_u64(bad), None);
        assert!(bad.parse::<u64>().is_err());
    }
    for good in ["0", "007", "+5"] {
        assert_eq!(parse_u64(good), good.parse::<u64>().ok());
    }
    assert_eq!(not_a_u64("fee"), "fee must be an unsigned 64-bit decimal integer");
}

#[test]
fn prepare_keeps_legacy_numeric_values_compatible() {
    assert_eq!(JsonU64::Number(100).parse(), Some(100));
    assert_eq!(JsonU64::Number(3).parse(), Some(3));
}

#[test]
fn history_comes_in_pages() {
    assert_eq!(history_window(None, None), (500, 0));
    assert_eq!(history_window(Some(0), Some(4)), (1, 4));
    assert_eq!(history_window(Some(9999), None), (5000, 0));
}

#[test]
fn pairing_takes_one_text() {
    assert_eq!(
        pairing_uri(false, Some("1.2.3.4"), 8443, "tok", "mainnet", Some("ab")),
        "zkas+https://1.2.3.4:8443#token=tok&net=mainnet&fp=ab"
    );
    assert_eq!(
        pairing_uri(true, None, 1, "t", "n", None),
        "zkas+http://<YOUR-PUBLIC-IP>:1#token=t&net=n"
    );
}

#[test]
fn signatures_travel_as_text() {
    let m = sign_message(SEED, b"net", b"hello").unwrap();
    let text = signature_text(&m);
    let a = Address::new(Prefix::Mainnet, Version::ShieldedOrchard, &m.address);
    assert_eq!(check_signature_text(&a, b"net", b"hello", &text), Ok(Ok(())));
    assert_eq!(
        check_signature_text(&a, b"net", b"other", &text),
        Ok(Err(VerifyError::BadSignature))
    );
    assert_eq!(check_signature_text(&a, b"net", b"hello", "zz"), Err(CheckError::NotHex));
    assert_eq!(check_signature_text(&a, b"net", b"hello", "00"), Err(CheckError::BadLength));
    let t = Address::new(Prefix::Mainnet, Version::PubKey, &[0; 32]);
    assert_eq!(check_signature_text(&t, b"net", b"hello", &text), Err(CheckError::NotShielded));
}

#[test]
fn keys_are_taken_from_text() {
    let hex = zkas_shielded::text::hex(&SEED);
    assert_eq!(imported_seed(&hex), Ok(SEED));
    assert_eq!(imported_seed("xy"), Err(KeyError::SeedNotHex));
    assert_eq!(imported_seed("00"), Err(KeyError::SeedLength));
    let fvk = WalletDb::from_seed(SEED).unwrap().fvk().to_bytes();
    assert_eq!(watched_key(&zkas_shielded::text::hex(&fvk)), Ok(fvk));
    assert_eq!(watched_key("00"), Err(KeyError::FvkNotHex));
    assert_eq!(watched_key(&"ff".repeat(96)), Err(KeyError::NotAViewingKey));
    assert_eq!(KeyError::NotASpendingKey.message(), "seed is not a valid Orchard spending key");
    let sigs = vec![(3usize, "11".repeat(64)), (1, "22".repeat(64))];
    let read = device_signatures(&sigs).unwrap();
    assert_eq!(read, vec![(3, [0x11; 64]), (1, [0x22; 64])]);
    assert!(check_indices(&read, 4) && !check_indices(&read, 3));
    assert!(device_signatures(&vec![(0, "11".to_string())]).is_none());
}

#[test]
fn certificates_are_pinned_by_their_digest() {
    assert_eq!(
        fingerprint_of_der(b"abc"),
        "ba7816bf8f01cfea414140de5dae2223b00361a396177a9cb410ff61f20015ad"
    );
    assert_eq!(
        certificate_names(&vec!["".to_string(), "h".to_string()]),
        vec!["localhost".to_string(), "h".to_string()]
    );
    assert_eq!(bearer_token(Some(" x"), Some("y")), (" x".to_string(), false));
    assert_eq!(bearer_token(None, Some("y\n")), ("y".to_string(), false));
    let (fresh, store) = bearer_token(None, None);
    assert_eq!((fresh.len(), store), (64, true));
    assert_ne!(fresh, bearer_token(None, None).0);
    let made = TlsIdentity::fresh(vec![1], vec![2], b"abc");
    assert_eq!((made.cert_pem, made.key_pem), (vec![1], vec![2]));
    assert_eq!(made.fingerprint, fingerprint_of_der(b"abc"));
    assert_eq!(TlsIdentity::stored(vec![1], vec![2], "ab\n").fingerprint, "ab");
}

fn plain_tx(version: u16, outputs: Vec<TransactionOutput>, payload: Vec<u8>) -> Transaction {
    Transaction {
        version,
        inputs: vec![],
        outputs,
        lock_time: 0,
        subnetwork_id: [0; 20],
        gas: 0,
        payload,
    }
}

#[test]
fn full_blocks_boil_down_to_their_effects() {
    let out = TransactionOutput { value: 5, script: raw(7).to_vec() };
    let b = FullBlock {
        hash: [1; 32],
        transactions: vec![
            ([2; 32], plain_tx(1, vec![out.clone()], vec![])),
            ([3; 32], plain_tx(1, vec![], vec![9])),
            ([4; 32], payment_tx(wire(1).to_bytes())),
        ],
    };
    let c = distil(&b);
    assert_eq!((c.hash, c.coinbase_txid), ([1; 32], [2; 32]));
    assert_eq!(c.coinbase_outputs, vec![out]);
    assert_eq!(c.accepted_bundles, vec![wire(1).to_bytes()]);
    let none = distil(&FullBlock { hash: [1; 32], transactions: vec![] });
    assert!(none.coinbase_outputs.is_empty() && none.accepted_bundles.is_empty());
}

#[test]
fn the_payer_replays_and_draws() {
    assert_eq!(ingest_limit(6003, 6000), Some(1));
    assert_eq!(ingest_limit(6002, 6000), None);
    assert_eq!(ingest_limit(5, u64::MAX), None);
    let blocks = vec![
        block(0, 0, &[(raw(7), 99)], vec![]),
        block(1, 0, &[(raw(7), 5)], vec![]),
        block(2, 0, &[(raw(7), 8)], vec![]),
        block(3, 0, &[(raw(7), 2)], vec![]),
    ];
    let mut db = WalletDb::from_seed(SEED).unwrap();
    let (n, step) = scan_page(&mut db, &blocks, &[0; 32], &[0; 32], 0, 10);
    assert_eq!((n, step), (3, ScanStep::Fetch([3; 32])));
    assert_eq!(db.balance(), 15);
    let (n, step) = scan_page(&mut db, &vec![blocks[3].clone()], &[3; 32], &[0; 32], n, 10);
    assert_eq!((n, step), (3, ScanStep::Done));
    let mut part = WalletDb::from_seed(SEED).unwrap();
    let (n, step) = scan_page(&mut part, &blocks, &[0; 32], &[0; 32], 0, 2);
    assert_eq!((n, step), (2, ScanStep::Done));
    assert_eq!(part.balance(), 13);

    match draw(&db, 9) {
        Draw::Inputs { inputs, selected } => {
            assert_eq!(inputs.iter().map(|i| i.0.value()).collect::<Vec<_>>(), vec![8, 5]);
            assert_eq!(selected, 13);
        }
        _ => panic!(),
    }
    assert!(matches!(draw(&db, 16), Draw::Short { selected: 15, count: 3 }));
    assert_eq!(
        short_message(15, 3, 16, 15),
        "insufficient matured funds: have 15 across 3 matured note(s), need amount+fee=16 (total balance 15)"
    );
    let outputs = vec![
        TransactionOutput { value: 1, script: vec![0; 44] },
        TransactionOutput { value: 2, script: vec![0; 43] },
    ];
    assert_eq!(first_note(&outputs), Some((1, 2)));
    assert_eq!(first_note(&vec![]), None);
}
