use zkas_shielded::bundle::{sizes, ActionWire, ShieldedBundle};
use zkas_shielded::coinbase::{
    coinbase_note_commitment, derive_coinbase_note_desc, CoinbaseNoteDesc,
};
use zkas_shielded::field::ExtractedNoteCommitment;
use zkas_shielded::keys::FullViewingKey;
use zkas_shielded::state::{CoinbaseMint, CoinbaseNote, ShieldedState};
use zkas_shielded::tree::{ChainBlockSubtree, GlobalTree, NoteCommitmentTree};
use zkas_shielded::wallet::address_bytes_from_seed;
use zkas_shielded::walletdb::checkpoint::{CHECKPOINT_VERSION, CHECKPOINT_VERSION_V3};
use zkas_shielded::walletdb::WalletDb;

/// A coinbase note description for `seed` paid to `address`, plus its value.
fn coinbase_for(address: [u8; 43], seed: &[u8], value: u64) -> (CoinbaseNoteDesc, u64) {
    (derive_coinbase_note_desc(address, seed), value)
}

fn address_of(seed: [u8; 32]) -> [u8; 43] {
    address_bytes_from_seed(seed).unwrap()
}

#[test]
fn discovers_own_coinbase_ignores_others() {
    let mine = [7u8; 32];
    let other = [8u8; 32];
    let mut db = WalletDb::from_seed(mine).unwrap();

    let cb_mine = coinbase_for(address_of(mine), b"txid-a||0", 5_000);
    let cb_other = coinbase_for(address_of(other), b"txid-a||1", 9_000);
    db.ingest_block(&[cb_mine, cb_other], &[]);

    assert_eq!(db.notes().len(), 1, "only the wallet's own coinbase note is tracked");
    assert_eq!(db.balance(), 5_000);
    assert_eq!(db.notes()[0].position, 0, "our note is leaf 0 (first coinbase note)");
}

#[test]
fn precomputed_ingest_matches_recompute() {
    let mine = [7u8; 32];
    let other = [8u8; 32];
    let blocks: Vec<Vec<(CoinbaseNoteDesc, u64)>> = (0..25u32)
        .map(|b| {
            vec![
                coinbase_for(address_of(mine), format!("txid-{b}||0").as_bytes(), 1_000 + b as u64),
                coinbase_for(address_of(other), format!("txid-{b}||1").as_bytes(), 7_000),
            ]
        })
        .collect();

    let mut recompute = WalletDb::from_seed(mine).unwrap();
    let mut shared = WalletDb::from_seed(mine).unwrap();
    for block in &blocks {
        recompute.ingest_block(block, &[]);
        let pre: Vec<(CoinbaseNoteDesc, u64, ExtractedNoteCommitment)> = block
            .iter()
            .filter_map(|(d, v)| coinbase_note_commitment(d, *v).ok().map(|cmx| (*d, *v, cmx)))
            .collect();
        shared.ingest_block_precomputed(&pre, &[]);
    }

    assert_eq!(recompute.balance(), shared.balance(), "balances match");
    assert_eq!(recompute.notes().len(), shared.notes().len(), "same note count");
    assert_eq!(
        recompute.notes().iter().map(|n| n.position).collect::<Vec<_>>(),
        shared.notes().iter().map(|n| n.position).collect::<Vec<_>>(),
        "same leaf positions",
    );
    assert_eq!(recompute.size(), shared.size(), "same leaf count");
    assert_eq!(recompute.anchor(), shared.anchor(), "identical tip anchor");
}

#[test]
fn watch_only_fvk_sees_same_notes_as_seed() {
    let mine = [7u8; 32];
    let fvk_bytes = FullViewingKey::from_seed(&mine).unwrap().to_bytes();

    let mut seed_db = WalletDb::from_seed(mine).unwrap();
    let mut watch_db = WalletDb::from_fvk(&fvk_bytes).unwrap();

    let blocks = [
        (
            coinbase_for(address_of([1u8; 32]), b"b1||0", 1_000),
            coinbase_for(address_of(mine), b"b1||1", 2_000),
        ),
        (
            coinbase_for(address_of([9u8; 32]), b"b2||0", 3_000),
            coinbase_for(address_of(mine), b"b2||1", 4_000),
        ),
    ];
    for (a, b) in blocks {
        seed_db.ingest_block(&[a, b], &[]);
        watch_db.ingest_block(&[a, b], &[]);
    }

    assert_eq!(watch_db.balance(), seed_db.balance());
    assert_eq!(watch_db.balance(), 6_000, "both owned notes discovered watch-only");
    assert_eq!(watch_db.notes().len(), seed_db.notes().len());
    assert_eq!(watch_db.anchor(), seed_db.anchor(), "same tip anchor");
    for (w, s) in watch_db.notes().iter().zip(seed_db.notes()) {
        assert_eq!(w.position, s.position);
        assert_eq!(w.value(), s.value());
        let pw = watch_db.witness_path(w.position).expect("watch-only witness");
        let ps = seed_db.witness_path(s.position).expect("seed witness");
        assert_eq!(
            pw.root(&w.note.commitment()).to_bytes(),
            ps.root(&s.note.commitment()).to_bytes(),
            "identical witness root"
        );
    }
    assert_eq!(watch_db.fvk().to_bytes(), fvk_bytes);
}

fn interleaved(mine: [u8; 32]) -> WalletDb {
    let mut db = WalletDb::from_seed(mine).unwrap();
    for b in 0..12u8 {
        let tag = [b, b, b, b];
        let theirs = coinbase_for(address_of([b.wrapping_add(1); 32]), &tag, 100 + b as u64);
        if b == 2 || b == 5 || b == 9 {
            let ours = coinbase_for(address_of(mine), &[b, 9, 9, 9], 1_000 + b as u64);
            db.ingest_block(&[theirs, ours], &[]);
        } else {
            db.ingest_block(&[theirs], &[]);
        }
    }
    db
}

#[test]
fn live_witness_matches_rebuilt_witness() {
    let mine = [21u8; 32];
    let db = interleaved(mine);
    assert_eq!(db.notes().len(), 3);

    let n = db.size();
    for cutoff in [n - 3, n - 1, n] {
        let fresh = interleaved(mine);
        let mut live = interleaved(mine);
        live.advance_witnesses(cutoff);

        for n in db.notes() {
            if n.position >= cutoff {
                continue;
            }
            let want = fresh.witness_path_at(n.position, cutoff).expect("rebuilt witness");
            let got = live.witness_path_at(n.position, cutoff).expect("live witness");
            let cm = n.note.commitment();
            assert_eq!(
                got.root(&cm).to_bytes(),
                want.root(&cm).to_bytes(),
                "same anchor at cutoff {cutoff}, position {}",
                n.position
            );
            assert_eq!(got.auth_path(), want.auth_path(), "same authentication path");
        }
    }
}

#[test]
fn capped_witness_steps_reach_the_target() {
    let mine = [21u8; 32];
    let mut steps = interleaved(mine);
    let target = steps.size() - 1;
    let mut rounds = 0;
    while steps.advance_witnesses_capped(target, 4) {
        rounds += 1;
    }
    assert!(rounds >= 3);
    assert_eq!(steps.witnessed_upto(), target);
    let at_once = interleaved(mine);
    let p = steps.notes()[0].position;
    assert_eq!(
        steps.witness_path_at(p, target).unwrap().auth_path(),
        at_once.witness_path_at(p, target).unwrap().auth_path()
    );
}

#[test]
fn watch_only_resumes_from_checkpoint() {
    let mine = [11u8; 32];
    let fvk_bytes = FullViewingKey::from_seed(&mine).unwrap().to_bytes();

    let mut db = WalletDb::from_fvk(&fvk_bytes).unwrap();
    db.ingest_block(
        &[
            coinbase_for(address_of([3u8; 32]), b"c||0", 500),
            coinbase_for(address_of(mine), b"c||1", 7_000),
        ],
        &[],
    );
    db.ingest_block(&[coinbase_for(address_of(mine), b"d||0", 1_500)], &[]);

    let restored = WalletDb::from_checkpoint_fvk(&fvk_bytes, &db.to_checkpoint())
        .expect("watch-only checkpoint restores");

    assert_eq!(restored.balance(), db.balance());
    assert_eq!(restored.balance(), 8_500);
    assert_eq!(restored.size(), db.size());
    assert_eq!(restored.anchor(), db.anchor(), "same tree state");
    for (r, o) in restored.notes().iter().zip(db.notes()) {
        assert_eq!(r.position, o.position);
        assert_eq!(r.value(), o.value());
    }
    let as_seed = WalletDb::from_checkpoint(mine, &db.to_checkpoint()).expect("seed restore");
    assert_eq!(as_seed.balance(), restored.balance());
    assert_eq!(as_seed.anchor(), restored.anchor());
}

#[test]
fn witness_root_tracks_consensus_anchor() {
    let mine = [3u8; 32];
    let addr = address_of(mine);
    let mut db = WalletDb::from_seed(mine).unwrap();
    let mut state = ShieldedState::new();

    let a = coinbase_for(address_of([1u8; 32]), b"b1||0", 1_000);
    let b = coinbase_for(addr, b"b1||1", 2_000);
    let mint1 = CoinbaseMint::new(vec![
        CoinbaseNote { value: a.1, commitment: coinbase_note_commitment(&a.0, a.1).unwrap() },
        CoinbaseNote { value: b.1, commitment: coinbase_note_commitment(&b.0, b.1).unwrap() },
    ]);
    state.apply_chain_block(Some(&mint1), &[]).unwrap();
    db.ingest_block(&[a, b], &[]);

    assert_eq!(
        db.anchor(),
        state.anchor().to_bytes(),
        "wallet mirror anchor == consensus anchor (block 1)"
    );

    let c = coinbase_for(address_of([9u8; 32]), b"b2||0", 3_000);
    let mint2 = CoinbaseMint::new(vec![CoinbaseNote {
        value: c.1,
        commitment: coinbase_note_commitment(&c.0, c.1).unwrap(),
    }]);
    state.apply_chain_block(Some(&mint2), &[]).unwrap();
    db.ingest_block(&[c], &[]);

    assert_eq!(
        db.anchor(),
        state.anchor().to_bytes(),
        "wallet mirror anchor == consensus anchor (block 2)"
    );

    let owned = &db.notes()[0];
    assert_eq!(owned.value(), 2_000);
    let path = db.witness_path(owned.position).expect("a spendable Orchard path is available");
    assert_eq!(u64::from(path.position()), owned.position, "path is for the owned leaf");
    assert_eq!(path.root(&owned.note.commitment()).to_bytes(), db.anchor());
}

fn opaque_bundle() -> ShieldedBundle {
    let action = ActionWire {
        nullifier: [9u8; 32],
        rk: [1u8; sizes::FIELD],
        cmx: [2u8; sizes::FIELD],
        cv_net: [3u8; sizes::FIELD],
        ephemeral_key: [4u8; sizes::FIELD],
        enc_ciphertext: [5u8; sizes::ENC_CIPHERTEXT],
        out_ciphertext: [6u8; sizes::OUT_CIPHERTEXT],
        spend_auth_sig: [7u8; sizes::SIG],
    };
    ShieldedBundle {
        actions: vec![action],
        flags: 0b11,
        value_balance: 0,
        anchor: [0u8; 32],
        proof: vec![],
        binding_sig: [0u8; sizes::SIG],
    }
}

#[test]
fn double_accepted_bundle_is_dropped() {
    let mine = [7u8; 32];
    let mut db = WalletDb::from_seed(mine).unwrap();
    let bundle = opaque_bundle();

    db.ingest_block(&[], &[&bundle]);
    assert_eq!(db.size(), 1, "first acceptance appended one leaf");
    db.ingest_block(&[], &[&bundle]);
    assert_eq!(db.size(), 1, "duplicate acceptance dropped (no extra leaf)");

    let blob = db.to_checkpoint();
    let mut restored = WalletDb::from_checkpoint(mine, &blob).expect("v3 checkpoint reloads");
    restored.ingest_block(&[], &[&bundle]);
    assert_eq!(restored.size(), 1, "drop rule persists across restarts");
}

#[test]
fn checkpoint_roundtrips_state_and_witness() {
    let mine = [5u8; 32];
    let addr = address_of(mine);
    let mut db = WalletDb::from_seed(mine).unwrap();

    db.ingest_block(
        &[
            coinbase_for(address_of([1u8; 32]), b"b1||0", 1_000),
            coinbase_for(addr, b"b1||1", 2_000),
        ],
        &[],
    );
    db.ingest_block(
        &[
            coinbase_for(addr, b"b2||0", 4_000),
            coinbase_for(address_of([9u8; 32]), b"b2||1", 3_000),
        ],
        &[],
    );

    let blob = db.to_checkpoint();
    let restored = WalletDb::from_checkpoint(mine, &blob).expect("checkpoint reloads");

    assert_eq!(restored.balance(), db.balance(), "balance survives the round-trip");
    assert_eq!(restored.balance(), 6_000);
    assert_eq!(restored.notes().len(), db.notes().len(), "owned-note count matches");
    assert_eq!(restored.anchor(), db.anchor(), "tip anchor is reconstructed from the leaf stream");
    assert_eq!(restored.size(), db.size(), "leaf count matches");

    for (a, b) in restored.notes().iter().zip(db.notes()) {
        assert_eq!(a.position, b.position);
        assert_eq!(a.value(), b.value());
        let pa = restored.witness_path(a.position).expect("restored witness");
        let pb = db.witness_path(b.position).expect("original witness");
        assert_eq!(
            pa.root(&a.note.commitment()).to_bytes(),
            pb.root(&b.note.commitment()).to_bytes(),
            "restored spend witness roots to the same anchor"
        );
    }

    assert!(
        WalletDb::from_checkpoint(mine, &blob[..blob.len() - 1]).is_none(),
        "truncated blob rejected"
    );
    let mut bad = blob.clone();
    bad[0] = 0xFF;
    assert!(WalletDb::from_checkpoint(mine, &bad).is_none(), "wrong version rejected");
    let mut long = blob.clone();
    long.push(0);
    assert!(WalletDb::from_checkpoint(mine, &long).is_none());
}

#[test]
fn cut_or_relabelled_checkpoints_are_refused() {
    let mine = [7u8; 32];
    let mut db = WalletDb::from_seed(mine).unwrap();
    db.ingest_block(&[coinbase_for(address_of(mine), b"b1||0", 1_000)], &[&opaque_bundle()]);
    let blob = db.to_checkpoint();
    for len in (0..blob.len()).step_by(61).chain([blob.len() - 1]) {
        assert!(WalletDb::from_checkpoint(mine, &blob[..len]).is_none(), "{len}");
    }
    for version in [0, CHECKPOINT_VERSION_V3, 5, 255] {
        let mut other = blob.clone();
        other[0] = version;
        assert!(WalletDb::from_checkpoint(mine, &other).is_none(), "{version}");
    }
    let mut back = WalletDb::from_checkpoint(mine, &blob).unwrap();
    assert_eq!((back.size(), back.base_size(), back.anchor()), (2, 0, db.anchor()));
    back.ingest_block(&[], &[&opaque_bundle()]);
    assert_eq!(back.size(), 2, "what was applied before the restart is not applied again");
}

/// The checkpoint bytes of a tree's frontier.
fn frontier_bytes(tree: &GlobalTree) -> Vec<u8> {
    let state = tree.to_state();
    let mut out = vec![1u8];
    out.extend_from_slice(&state.leaf.unwrap());
    out.extend_from_slice(&(state.ommers.len() as u64).to_le_bytes());
    for o in &state.ommers {
        out.extend_from_slice(o);
    }
    out
}

#[test]
fn v3_checkpoint_still_restores_and_matches_v4() {
    let mine = [7u8; 32];
    let addr = address_of(mine);
    let mut db = WalletDb::from_seed(mine).unwrap();
    let mut tree = GlobalTree::new();
    let blocks = [
        vec![
            coinbase_for(address_of([2u8; 32]), b"b1||0", 500),
            coinbase_for(addr, b"b1||1", 1_500),
        ],
        vec![coinbase_for(addr, b"b2||0", 2_500)],
    ];
    for block in &blocks {
        db.ingest_block(block, &[]);
        for (d, v) in block {
            tree.append(coinbase_note_commitment(d, *v).unwrap()).unwrap();
        }
    }

    let v4 = db.to_checkpoint();
    assert_eq!(v4[0], CHECKPOINT_VERSION, "fresh checkpoints are written as v4");

    let suffix = frontier_bytes(&tree);
    assert_eq!(v4[v4.len() - suffix.len()..], suffix[..]);
    let mut v3 = v4[..v4.len() - suffix.len()].to_vec();
    v3[0] = CHECKPOINT_VERSION_V3;

    let from_v3 = WalletDb::from_checkpoint(mine, &v3).expect("v3 checkpoint still reloads");
    let from_v4 = WalletDb::from_checkpoint(mine, &v4).expect("v4 checkpoint reloads");
    let with_tip = WalletDb::from_checkpoint_with_tip(mine, &v3, &tree.to_state()).unwrap();

    assert_eq!(from_v3.anchor(), db.anchor(), "v3 replay rebuilds the tip anchor");
    assert_eq!(from_v4.anchor(), db.anchor(), "v4 frontier rebuilds the same tip anchor");
    assert_eq!(with_tip.anchor(), db.anchor());
    assert_eq!(from_v4.size(), from_v3.size());
    assert_eq!(from_v4.balance(), from_v3.balance());

    let n = from_v4.notes()[0].position;
    let p4 = from_v4.witness_path(n).expect("witness from v4 restore");
    let p3 = from_v3.witness_path(n).expect("witness from v3 restore");
    let cmx = from_v4.notes()[0].note.commitment();
    assert_eq!(
        p4.root(&cmx).to_bytes(),
        p3.root(&cmx).to_bytes(),
        "identical spend witness either way"
    );

    let mut a = from_v4;
    let mut b = from_v3;
    let blk = [coinbase_for(addr, b"b3||0", 900)];
    a.ingest_block(&blk, &[]);
    b.ingest_block(&blk, &[]);
    assert_eq!(a.anchor(), b.anchor(), "post-restore appends agree");
    db.ingest_block(&blk, &[]);
    assert_eq!(a.anchor(), db.anchor(), "and match the never-restarted wallet");
}

fn apply(gt: &mut GlobalTree, wallets: &mut [&mut WalletDb], blk: &[(CoinbaseNoteDesc, u64)]) {
    let mut st = ChainBlockSubtree::new();
    for (d, v) in blk {
        st.push(coinbase_note_commitment(d, *v).unwrap());
    }
    gt.append_subtree(&st).unwrap();
    for w in wallets {
        w.ingest_block(blk, &[]);
    }
}

#[test]
fn fast_sync_from_frontier_matches_full_scan() {
    let mine = [11u8; 32];
    let addr = address_of(mine);
    let mut gt = GlobalTree::new();
    let mut full = WalletDb::from_seed(mine).unwrap();

    let pre = [
        vec![
            coinbase_for(address_of([1u8; 32]), b"p0||0", 100),
            coinbase_for(address_of([2u8; 32]), b"p0||1", 100),
        ],
        vec![coinbase_for(address_of([3u8; 32]), b"p1||0", 100)],
    ];
    for blk in &pre {
        apply(&mut gt, &mut [&mut full], blk);
    }

    let checkpoint = gt.to_state();
    let mut fast = WalletDb::from_frontier(mine, &checkpoint).unwrap();
    assert_eq!(fast.anchor(), full.anchor(), "fast-sync begins at the checkpoint anchor");
    assert_eq!(fast.size(), checkpoint.size, "fast-sync starts at the checkpoint leaf count");

    let post = [
        vec![
            coinbase_for(address_of([4u8; 32]), b"q0||0", 100),
            coinbase_for(addr, b"q0||1", 2_000),
        ],
        vec![
            coinbase_for(addr, b"q1||0", 3_000),
            coinbase_for(address_of([5u8; 32]), b"q1||1", 100),
        ],
    ];
    for blk in &post {
        apply(&mut gt, &mut [&mut full, &mut fast], blk);
    }

    assert_eq!(fast.balance(), full.balance(), "same balance");
    assert_eq!(fast.balance(), 5_000);
    assert_eq!(fast.anchor(), full.anchor(), "same tip anchor");
    assert_eq!(fast.anchor(), gt.anchor().to_bytes(), "== consensus anchor");
    assert_eq!(fast.notes().len(), full.notes().len());
    for (a, b) in fast.notes().iter().zip(full.notes()) {
        assert_eq!(a.position, b.position, "same absolute leaf position");
        assert_eq!(a.value(), b.value());
        let pa = fast.witness_path(a.position).expect("fast-sync witness");
        let pb = full.witness_path(b.position).expect("full-scan witness");
        let cmx = a.note.commitment();
        assert_eq!(
            pa.root(&cmx).to_bytes(),
            pb.root(&cmx).to_bytes(),
            "identical witness root at the tip"
        );
    }

    let blob = fast.to_checkpoint();
    let reloaded = WalletDb::from_checkpoint(mine, &blob).expect("v2 checkpoint reloads");
    assert_eq!(reloaded.balance(), fast.balance());
    assert_eq!(reloaded.anchor(), fast.anchor());
    let n = &reloaded.notes()[0];
    assert!(
        reloaded.witness_path(n.position).is_some(),
        "reloaded fast-sync wallet still witnesses"
    );
}

#[test]
fn previews_count_without_changing_the_wallet() {
    let mine = [6u8; 32];
    let mut db = WalletDb::from_seed(mine).unwrap();
    let ours = coinbase_for(address_of(mine), b"x", 70);
    let theirs = coinbase_for(address_of([1u8; 32]), b"y", 9);
    let p = db.preview_block(&[ours, theirs], &[]);
    assert_eq!((p.incoming, p.outgoing), (70, 0));
    assert_eq!(db.size(), 0);
    db.ingest_block(&[ours, theirs], &[]);
    let mut spend = opaque_bundle();
    spend.actions[0].nullifier = db.notes()[0].nullifier;
    let p = db.preview_block(&[], &[&spend]);
    assert_eq!((p.incoming, p.outgoing), (0, 70));
    assert_eq!(db.balance(), 70);
    db.ingest_block(&[], &[&spend]);
    assert_eq!(db.balance(), 0);

    let more = [coinbase_for(address_of(mine), b"z", 40), coinbase_for(address_of(mine), b"w", 2)];
    db.ingest_block(&more, &[]);
    spend.actions[0].nullifier = db.notes()[1].nullifier;
    let next = [coinbase_for(address_of(mine), b"v", 5)];
    let p = db.preview_block(&next, &[&spend]);
    let before = db.balance();
    db.ingest_block(&next, &[&spend]);
    assert_eq!((p.incoming, p.outgoing), (5, 2));
    assert_eq!(db.balance(), before + p.incoming - p.outgoing);
    assert!(db.notes().windows(2).all(|n| n[0].position < n[1].position));
}

#[test]
fn marking_a_note_spent_drops_it() {
    let mine = [6u8; 32];
    let mut db = WalletDb::from_seed(mine).unwrap();
    db.ingest_block(
        &[coinbase_for(address_of(mine), b"x", 70), coinbase_for(address_of(mine), b"y", 5)],
        &[],
    );
    db.mark_spent(0);
    assert_eq!(db.balance(), 5);
    db.mark_spent(7);
    assert_eq!(db.balance(), 5);
}
