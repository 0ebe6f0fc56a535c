use zkas_shielded::daemon::adopt::{adopt_twin_checkpoint, Donor};
use zkas_shielded::daemon::scanfile::{
    checkpoint_blind_below, checkpoint_cursor, load_checkpoint, parse_scan_bytes, read_scan,
    write_scan, SCAN_VERSION_PREV,
};
use zkas_shielded::daemon::seal::{decrypt_seed, encrypt_seed, seal_seed, seed_of, UnsealError};
use zkas_shielded::daemon::vault::{
    encrypt_wallet_in_place, export_backup, fvk_file, import_backup, load_wallet_meta, seed_file,
    vault_state, verify_wallet_secret, BackupError, EncryptError, VaultState, WalletBackup,
    WalletKey,
};
use zkas_shielded::text::hex;
use zkas_shielded::tree::GlobalTree;
use zkas_shielded::walletdb::WalletDb;

/// A backup restores the same wallet on another device, and refuses a wrong passphrase, a
/// foreign file, and clobbering a live wallet.
#[test]
fn backup_roundtrips_and_refuses_bad_input() {
    let seed = [0x5au8; 32];
    let src = seed_file("mainnet", &seed, 4242, Some("device-passphrase")).unwrap();
    assert_eq!(vault_state(Some(&src)), VaultState::Encrypted);

    let backup =
        export_backup(Some(&src), Some("device-passphrase"), "backup-passphrase", 99).unwrap();
    assert!(
        !backup.encrypted_seed_hex.contains(&hex(&seed)),
        "backup must not carry the seed in the clear"
    );
    assert_eq!(backup.created_unix, 99);

    let dst = import_backup(Some(&backup), false, "backup-passphrase", "new-device-pass").unwrap();
    let (key, birthday, _) = load_wallet_meta(&dst, Some("new-device-pass")).unwrap();
    assert_eq!(birthday, 4242, "birthday survives so the restore does not rescan from genesis");
    match key {
        WalletKey::Seed(s) => assert_eq!(s, seed, "restored seed is identical"),
        WalletKey::Fvk(_) => panic!("expected a seed wallet"),
    }
    assert_eq!(vault_state(Some(&dst)), VaultState::Encrypted, "restored wallet is encrypted at rest");

    assert!(import_backup(Some(&backup), false, "not-the-passphrase", "new-device-pass").is_err());
    assert!(import_backup(None, false, "backup-passphrase", "new-device-pass").is_err());
    assert!(
        import_backup(Some(&backup), true, "backup-passphrase", "new-device-pass").is_err(),
        "must not overwrite an existing wallet"
    );

    assert!(export_backup(Some(&src), Some("wrong"), "backup-passphrase", 0).is_err());

    let legacy = seed_file("mainnet", &seed, 0, None).unwrap();
    assert_eq!(vault_state(Some(&legacy)), VaultState::Plaintext);
    let legacy = encrypt_wallet_in_place(Some(&legacy), "device-passphrase").unwrap().unwrap();
    assert_eq!(vault_state(Some(&legacy)), VaultState::Encrypted);
    assert!(verify_wallet_secret(Some(&legacy), "device-passphrase"));
    assert!(!verify_wallet_secret(Some(&legacy), "nope"));
    assert!(export_backup(Some(&legacy), Some("device-passphrase"), "backup-passphrase", 0).is_ok());
}

fn plain_backup() -> WalletBackup {
    WalletBackup {
        magic: "zkas-wallet-backup".to_string(),
        version: 1,
        network: "mainnet".to_string(),
        birthday: 1,
        encrypted_seed_hex: "00".to_string(),
        created_unix: 0,
    }
}

#[test]
fn backups_tell_what_is_wrong() {
    let seed = [0x5au8; 32];
    let file = seed_file("mainnet", &seed, 0, None).unwrap();
    assert_eq!(export_backup(Some(&file), None, "short", 0), Err(BackupError::ShortBackupSecret));
    assert_eq!(export_backup(None, None, "long enough", 0), Err(BackupError::NoWallet));
    let watch = fvk_file("mainnet", &[1; 96], 0);
    assert_eq!(export_backup(Some(&watch), None, "long enough", 0), Err(BackupError::WatchOnly));
    let mut broken = file.clone();
    broken.seed_hex = "zz".to_string();
    assert_eq!(export_backup(Some(&broken), None, "long enough", 0), Err(BackupError::Unreadable));

    let b = plain_backup();
    assert_eq!(import_backup(Some(&b), false, "x", "short"), Err(BackupError::ShortWalletSecret));
    let mut foreign = b.clone();
    foreign.magic = "other".to_string();
    assert_eq!(
        import_backup(Some(&foreign), false, "x", "long enough"),
        Err(BackupError::NotABackup)
    );
    let mut newer = b.clone();
    newer.version = 2;
    assert_eq!(
        import_backup(Some(&newer), false, "x", "long enough"),
        Err(BackupError::Newer(2))
    );
    assert_eq!(
        BackupError::Newer(2).message(),
        "this backup was written by a newer wallet (format v2) — update the app"
    );
    assert_eq!(import_backup(Some(&b), true, "x", "long enough"), Err(BackupError::Exists));
    assert_eq!(import_backup(Some(&b), false, "x", "long enough"), Err(BackupError::WrongSecret));
    let mut corrupt = b.clone();
    corrupt.encrypted_seed_hex = "0".to_string();
    assert_eq!(
        import_backup(Some(&corrupt), false, "x", "long enough"),
        Err(BackupError::Corrupt)
    );
}

#[test]
fn sealed_seeds_open_with_their_secret_alone() {
    let seed = [9u8; 32];
    let blob = seal_seed(&seed, "secret", &[1; 16], &[2; 24]).unwrap();
    assert_eq!(blob.len(), 88);
    assert_eq!(blob[..16], [1; 16]);
    assert_eq!(blob[16..40], [2; 24]);
    assert_ne!(blob[40..72], seed);
    assert_eq!(decrypt_seed(&blob, "secret"), Ok(seed));
    assert_eq!(decrypt_seed(&blob, "other"), Err(UnsealError::WrongSecret));
    assert_eq!(decrypt_seed(&blob[..55], "secret"), Err(UnsealError::TooShort));
    let mut bent = blob.clone();
    bent[50] ^= 1;
    assert_eq!(decrypt_seed(&bent, "secret"), Err(UnsealError::WrongSecret));
    assert_eq!(seed_of(Some(vec![1, 2])), Err(UnsealError::NotASeed));
    assert_eq!(seed_of(None), Err(UnsealError::WrongSecret));
    assert_eq!(seed_of(Some(seed.to_vec())), Ok(seed));
    assert_eq!(UnsealError::NotASeed.message(), "decrypted seed is not 32 bytes");
}

#[test]
fn fresh_seals_differ() {
    let a = encrypt_seed(&[9; 32], "secret").unwrap();
    let b = encrypt_seed(&[9; 32], "secret").unwrap();
    assert_ne!(a, b);
    assert_eq!(decrypt_seed(&a, "secret"), Ok([9; 32]));
}

#[test]
fn files_hold_what_they_are_made_of() {
    let plain = seed_file("devnet", &[3; 32], 7, None).unwrap();
    assert_eq!(plain.version, 1);
    assert_eq!(plain.network, "devnet");
    assert_eq!(plain.seed_hex, hex(&[3; 32]));
    assert!(!plain.encrypted && plain.fvk_hex.is_empty() && !plain.recoverable_history);
    assert!(verify_wallet_secret(Some(&plain), "anything"));
    let watch = fvk_file("devnet", &[4; 96], 8);
    assert_eq!(watch.version, 2);
    assert_eq!(vault_state(Some(&watch)), VaultState::WatchOnly);
    assert_eq!(vault_state(None), VaultState::Missing);
    assert!(!verify_wallet_secret(None, "x"));
    let (key, birthday, history) = load_wallet_meta(&watch, None).unwrap();
    assert_eq!((birthday, history), (8, false));
    assert_eq!(key, WalletKey::Fvk([4; 96]));
    assert!(key.is_watch_only());
    let refused = key.seed().unwrap_err();
    assert_eq!(refused.status(), 403);
    assert!(refused.message().starts_with("this wallet is watch-only"));
    assert!(key.empty_db().is_none() && key.fvk_bytes().is_none());
    let seed = WalletKey::Seed([3; 32]);
    assert_eq!(seed.seed(), Ok([3; 32]));
    assert_eq!(seed.fvk_bytes().unwrap(), WalletDb::from_seed([3; 32]).unwrap().fvk().to_bytes());
    assert!(seed.db_from_frontier(&GlobalTree::new().to_state()).is_some());
    assert_eq!(encrypt_wallet_in_place(Some(&watch), "s"), Ok(None));
    assert_eq!(encrypt_wallet_in_place(None, "s"), Err(EncryptError::NoWallet));
    let mut broken = plain.clone();
    broken.seed_hex = "00".to_string();
    assert_eq!(encrypt_wallet_in_place(Some(&broken), "s"), Err(EncryptError::BadSeed));
}

/// A registration whose viewing key another token already scanned starts from that
/// checkpoint, and the checkpoint reads under either key form.
#[test]
fn twin_checkpoint_adoption_clones_and_verifies() {
    let genesis = [7u8; 32];
    let seed = [0x5au8; 32];
    let db = WalletDb::from_seed(seed).expect("valid seed");
    let fvk = db.fvk().to_bytes();

    let file = seed_file("mainnet", &seed, 4242, None).unwrap();
    let scan = write_scan(&genesis, &[9u8; 32], 777, &db.to_checkpoint(), &[(100, 0)], 100, 0);
    let donors = [Donor { token: "donor", wallet: Some(&file), scan: Some(&scan), modified: 1 }];

    let (at, birthday) =
        adopt_twin_checkpoint(&donors, "phone", &fvk, 9999, &genesis, None).expect("must adopt");
    assert_eq!(donors[at].token, "donor");
    assert_eq!(birthday, 4242, "keeps the earlier of donor/requested birthdays");
    let (parts, _) = load_checkpoint(&scan, &WalletKey::Fvk(fvk), &genesis, None)
        .expect("clone parses under the FVK key form");
    assert_eq!(parts.scanned, 777, "scanned-block cursor survives the clone");

    let other = WalletDb::from_seed([0x33u8; 32]).unwrap().fvk().to_bytes();
    assert!(
        adopt_twin_checkpoint(&donors, "other", &other, 0, &genesis, None).is_none(),
        "foreign viewing key must not clone someone else's checkpoint"
    );
    assert!(adopt_twin_checkpoint(&donors, "donor", &fvk, 9999, &genesis, None).is_none());

    let scan = write_scan(&genesis, &[9u8; 32], 777, &db.to_checkpoint(), &[(100, 0)], 100, 555);
    let donors = [Donor { token: "donor", wallet: Some(&file), scan: Some(&scan), modified: 1 }];
    assert!(
        adopt_twin_checkpoint(&donors, "phone", &fvk, 0, &genesis, None).is_none(),
        "a blind donor must not answer a full-history restore"
    );
    assert!(
        adopt_twin_checkpoint(&donors, "phone", &fvk, 5000, &genesis, None).is_some(),
        "a blind donor is fine for a restore born at/after the donor"
    );

    assert!(
        adopt_twin_checkpoint(&donors, "phone", &fvk, 9999, &[8u8; 32], None).is_none(),
        "checkpoint for another chain must not be adopted"
    );
}

#[test]
fn the_freshest_twin_serves() {
    let genesis = [7u8; 32];
    let seed = [0x5au8; 32];
    let db = WalletDb::from_seed(seed).unwrap();
    let fvk = db.fvk().to_bytes();
    let file = seed_file("mainnet", &seed, 10, None).unwrap();
    let scan = write_scan(&genesis, &[9u8; 32], 1, &db.to_checkpoint(), &[], 0, 0);
    let donor = |token, modified| Donor { token, wallet: Some(&file), scan: Some(&scan[..]), modified };
    let donors = [donor("a", 3), donor("b", 5), donor("c", 5), donor("d", 4)];
    assert_eq!(adopt_twin_checkpoint(&donors, "x", &fvk, 7, &genesis, None), Some((1, 7)));
    let bare = [Donor { token: "a", wallet: None, scan: Some(&scan), modified: 1 }];
    assert_eq!(adopt_twin_checkpoint(&bare, "x", &fvk, 7, &genesis, None), None);
    let unscanned = [Donor { token: "a", wallet: Some(&file), scan: None, modified: 1 }];
    assert_eq!(adopt_twin_checkpoint(&unscanned, "x", &fvk, 7, &genesis, None), None);
}

#[test]
fn scan_files_read_back() {
    let ring = [(5, 6), (7, 8)];
    let bytes = write_scan(&[1; 32], &[2; 32], 3, &[9, 9, 9], &ring, 4, 10);
    assert_eq!(bytes[..5], *b"FCWS\x04");
    assert_eq!(bytes.len(), 77 + 8 + 3 + 4 + 32 + 16);
    let p = read_scan(&bytes).unwrap();
    assert_eq!((p.genesis, p.low, p.scanned), ([1; 32], [2; 32], 3));
    assert_eq!((p.blob, p.ring.as_slice()), (&[9u8, 9, 9][..], &ring[..]));
    assert_eq!((p.sink_blue, p.blind_below), (4, 10));
    assert_eq!(checkpoint_cursor(&bytes, &[1; 32]), Some([2; 32]));
    assert_eq!(checkpoint_cursor(&bytes, &[3; 32]), None);
    assert_eq!(checkpoint_blind_below(&bytes), Some(10));

    let mut long = bytes.clone();
    long.push(0);
    assert!(read_scan(&long).is_none());
    for cut in [0, 76, 80, bytes.len() - 1] {
        assert!(read_scan(&bytes[..cut]).is_none());
    }
    let mut other = bytes.clone();
    other[0] = 0;
    assert!(read_scan(&other).is_none() && checkpoint_cursor(&other, &[1; 32]).is_none());
    other = bytes.clone();
    other[4] = 9;
    assert!(read_scan(&other).is_none() && checkpoint_blind_below(&other).is_none());

    let mut older = bytes[..bytes.len() - 8].to_vec();
    older[4] = SCAN_VERSION_PREV;
    let p = read_scan(&older).unwrap();
    assert_eq!((p.sink_blue, p.blind_below), (4, 0));
    assert_eq!(checkpoint_blind_below(&older), Some(0));
}

#[test]
fn a_checkpoint_must_agree_with_the_node() {
    let seed = [0x5au8; 32];
    let db = WalletDb::from_seed(seed).unwrap();
    let key = WalletKey::Seed(seed);
    let bytes = write_scan(&[1; 32], &[2; 32], 3, &db.to_checkpoint(), &[], 4, 0);
    assert!(parse_scan_bytes(&bytes, &key, None).is_some());
    let empty = GlobalTree::new().to_state();
    assert!(parse_scan_bytes(&bytes, &key, Some(&empty)).is_some());
    let mut tree = GlobalTree::new();
    let leaf = zkas_shielded::field::ExtractedNoteCommitment::from_bytes(&[0; 32]).unwrap();
    zkas_shielded::tree::NoteCommitmentTree::append(&mut tree, leaf).unwrap();
    assert!(parse_scan_bytes(&bytes, &key, Some(&tree.to_state())).is_none());
    assert!(load_checkpoint(&bytes, &key, &[3; 32], None).is_none());
}
