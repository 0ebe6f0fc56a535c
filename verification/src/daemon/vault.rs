//! Wallet files: the key that a wallet holds, how it is protected, and backups.

use crate::bytes::to_array;
use crate::daemon::seal::{decrypt_seed, encrypt_seed, unsealed};
use crate::keys::{fvk_of_seed, viewing_key};
use crate::text::{
    chars_of, decimal_text, hex, hex_round_trips, hex_text, push_decimal, same_text, unhex,
    unhex_bytes,
};
use crate::tree::FrontierState;
use crate::walletdb::checkpoint::{restored, wallet_view};
use crate::walletdb::{WalletDb, WalletV};
use vstd::prelude::*;
use vstd::string::*;

verus! {

/// What a wallet's file holds.
#[derive(Debug, Clone, PartialEq, Eq)]
pub struct WalletFile {
    pub version: u32,
    pub network: String,
    /// The seed, sealed where `encrypted` says so; empty in a watch-only wallet.
    pub seed_hex: String,
    pub encrypted: bool,
    /// The height from which the chain is scanned; 0 for all of it.
    pub birthday: u64,
    /// The full viewing key of a watch-only wallet; empty in any other.
    pub fvk_hex: String,
    /// The user wants a readable history.
    pub recoverable_history: bool,
}

/// The key material that the daemon holds for a wallet. With a viewing key alone it can see
/// the wallet, and cannot spend.
#[derive(Debug, Clone, Copy, PartialEq, Eq)]
pub enum WalletKey {
    Seed([u8; 32]),
    Fvk([u8; 96]),
}

/// What a [`WalletKey`] holds.
pub enum KeyV {
    Seed(Seq<u8>),
    Fvk(Seq<u8>),
}

impl View for WalletKey {
    type V = KeyV;

    open spec fn view(&self) -> KeyV {
        match *self {
            WalletKey::Seed(s) => KeyV::Seed(s@),
            WalletKey::Fvk(f) => KeyV::Fvk(f@),
        }
    }
}

impl KeyV {
    /// The full viewing key that the wallet watches with, if it has one.
    pub open spec fn viewing(self) -> Option<Seq<u8>> {
        match self {
            KeyV::Seed(s) => fvk_of_seed(s),
            KeyV::Fvk(f) => if viewing_key(f) {
                Some(f)
            } else {
                None
            },
        }
    }
}

/// The refusal to spend or sign with a watch-only wallet.
#[derive(Debug, Clone, Copy, PartialEq, Eq, Structural)]
pub struct WatchOnly;

impl WatchOnly {
    /// The HTTP status to answer with.
    pub fn status(&self) -> (code: u16)
        ensures
            code == 403,
    {
        403
    }

    /// The message for people.
    pub fn message(&self) -> (s: &'static str)
        ensures
            s@ == "this wallet is watch-only: the daemon holds no seed and cannot spend or sign for it. Use /api/wallet/prepare + /api/wallet/submit and sign on the device that holds the seed."@,
    {
        "this wallet is watch-only: the daemon holds no seed and cannot spend or sign for it. Use /api/wallet/prepare + /api/wallet/submit and sign on the device that holds the seed."
    }
}

impl WalletKey {
    /// Whether the daemon holds a viewing key alone.
    pub fn is_watch_only(&self) -> (r: bool)
        ensures
            r == (self@ is Fvk),
    {
        match self {
            WalletKey::Seed(_) => false,
            WalletKey::Fvk(_) => true,
        }
    }

    /// The seed; a watch-only wallet has none.
    pub fn seed(&self) -> (r: Result<[u8; 32], WatchOnly>)
        ensures
            match r {
                Ok(s) => self@ == KeyV::Seed(s@),
                Err(_) => self@ is Fvk,
            },
    {
        match self {
            WalletKey::Seed(s) => Ok(*s),
            WalletKey::Fvk(_) => Err(WatchOnly),
        }
    }

    /// The wallet before it has seen anything.
    pub fn empty_db(&self) -> (r: Option<WalletDb>)
        ensures
            r is Some <==> self@.viewing() is Some,
            r matches Some(db) ==> db.wf() && db@.tidy() && db@ == WalletV::fresh(
                self@.viewing()->Some_0,
            ),
    {
        match self {
            WalletKey::Seed(s) => WalletDb::from_seed(*s),
            WalletKey::Fvk(f) => WalletDb::from_fvk(f),
        }
    }

    /// A wallet that starts from a checkpoint frontier.
    pub fn db_from_frontier(&self, fs: &FrontierState) -> (r: Option<WalletDb>)
        ensures
            r is Some <==> self@.viewing() is Some && fs.consistent(),
            r matches Some(db) ==> db.wf() && db@.tidy() && db@ == WalletV::fresh(
                self@.viewing()->Some_0,
            ).rebased(fs.tree()),
    {
        match self.empty_db() {
            Some(mut db) => match db.apply_frontier(fs) {
                Some(()) => Some(db),
                None => None,
            },
            None => None,
        }
    }

    /// The full viewing key that the wallet watches with: two registrations of one wallet
    /// share it, whichever form their keys came in.
    pub fn fvk_bytes(&self) -> (r: Option<[u8; 96]>)
        ensures
            match r {
                Some(f) => self@.viewing() == Some(f@),
                None => self@.viewing() is None,
            },
    {
        match self.empty_db() {
            Some(db) => Some(db.fvk().to_bytes()),
            None => None,
        }
    }
}

impl WalletKey {
    /// The wallet that a checkpoint resumes, with the tip tree that the node reports for
    /// the checkpoint's cursor where there is one.
    pub fn db_from_checkpoint(&self, bytes: &[u8], tip: Option<&FrontierState>) -> (r: Option<
        WalletDb,
    >)
        ensures
            r is Some ==> r->Some_0.wf(),
            wallet_view(r) == resumed_by(self@, bytes@, tip),
    {
        match (self, tip) {
            (WalletKey::Seed(s), None) => WalletDb::from_checkpoint(*s, bytes),
            (WalletKey::Seed(s), Some(fs)) => WalletDb::from_checkpoint_with_tip(*s, bytes, fs),
            (WalletKey::Fvk(f), None) => WalletDb::from_checkpoint_fvk(f, bytes),
            (WalletKey::Fvk(f), Some(fs)) => WalletDb::from_checkpoint_fvk_with_tip(f, bytes, fs),
        }
    }
}

/// The wallet that a checkpoint resumes for a key.
pub open spec fn resumed_by(key: KeyV, bytes: Seq<u8>, tip: Option<&FrontierState>) -> Option<
    WalletV,
> {
    match key.viewing() {
        Some(fvk) => restored(
            fvk,
            bytes,
            match tip {
                Some(fs) => Some(*fs),
                None => None,
            },
        ),
        None => None,
    }
}

/// The bytes that a hexadecimal text spells, where they are `n`.
pub open spec fn hex_bytes(text: Seq<char>, n: nat) -> Option<Seq<u8>> {
    match unhex_bytes(text) {
        Some(b) => if b.len() == n {
            Some(b)
        } else {
            None
        },
        None => None,
    }
}

/// The key that a wallet's file holds, read with a passphrase where it needs one.
pub open spec fn file_key(wf: WalletFile, secret: Option<&str>) -> Option<KeyV> {
    if wf.fvk_hex@.len() != 0 {
        match hex_bytes(wf.fvk_hex@, 96) {
            Some(f) => Some(KeyV::Fvk(f)),
            None => None,
        }
    } else if wf.encrypted {
        match (unhex_bytes(wf.seed_hex@), secret) {
            (Some(blob), Some(secret)) => match unsealed(blob, secret@) {
                Some(seed) => Some(KeyV::Seed(seed)),
                None => None,
            },
            _ => None,
        }
    } else {
        match hex_bytes(wf.seed_hex@, 32) {
            Some(s) => Some(KeyV::Seed(s)),
            None => None,
        }
    }
}

/// What an optional key holds.
pub open spec fn key_view(k: Option<WalletKey>) -> Option<KeyV> {
    match k {
        Some(k) => Some(k@),
        None => None,
    }
}

fn seed_from_hex(text: &str) -> (r: Option<[u8; 32]>)
    ensures
        match r {
            Some(s) => hex_bytes(text@, 32) == Some(s@),
            None => hex_bytes(text@, 32) is None,
        },
{
    match unhex(text) {
        Some(b) => if b.len() == 32 {
            let s: [u8; 32] = to_array(b.as_slice());
            Some(s)
        } else {
            None
        },
        None => None,
    }
}

fn is_empty_text(s: &str) -> (r: bool)
    ensures
        r == (s@.len() == 0),
{
    chars_of(s).len() == 0
}

/// Reads the key out of a wallet's file. A file with a viewing key is a watch-only wallet;
/// a sealed seed needs the passphrase.
pub fn read_key(wf: &WalletFile, secret: Option<&str>) -> (r: Option<WalletKey>)
    ensures
        key_view(r) == file_key(*wf, secret),
{
    if !is_empty_text(wf.fvk_hex.as_str()) {
        return match unhex(wf.fvk_hex.as_str()) {
            Some(b) => if b.len() == 96 {
                let f: [u8; 96] = to_array(b.as_slice());
                Some(WalletKey::Fvk(f))
            } else {
                None
            },
            None => None,
        };
    }
    if wf.encrypted {
        match (unhex(wf.seed_hex.as_str()), secret) {
            (Some(blob), Some(secret)) => match decrypt_seed(blob.as_slice(), secret) {
                Ok(seed) => Some(WalletKey::Seed(seed)),
                Err(_) => None,
            },
            _ => None,
        }
    } else {
        match seed_from_hex(wf.seed_hex.as_str()) {
            Some(s) => Some(WalletKey::Seed(s)),
            None => None,
        }
    }
}

/// Loads a wallet's key, birthday and choice of history.
pub fn load_wallet_meta(wf: &WalletFile, secret: Option<&str>) -> (r: Option<(WalletKey, u64, bool)>)
    ensures
        match r {
            Some((key, birthday, history)) => {
                &&& file_key(*wf, secret) == Some(key@)
                &&& birthday == wf.birthday
                &&& history == wf.recoverable_history
            },
            None => file_key(*wf, secret) is None,
        },
{
    match read_key(wf, secret) {
        Some(key) => Some((key, wf.birthday, wf.recoverable_history)),
        None => None,
    }
}

/// How a wallet's file is protected.
#[derive(Debug, Clone, Copy, PartialEq, Eq, Structural)]
pub enum VaultState {
    /// There is no wallet yet.
    Missing,
    /// The seed is in clear text.
    Plaintext,
    /// The seed is sealed.
    Encrypted,
    /// There is no seed to protect.
    WatchOnly,
}

/// How a wallet's file is protected.
pub open spec fn protection(wf: Option<&WalletFile>) -> VaultState {
    match wf {
        None => VaultState::Missing,
        Some(wf) => if wf.fvk_hex@.len() != 0 {
            VaultState::WatchOnly
        } else if wf.encrypted {
            VaultState::Encrypted
        } else {
            VaultState::Plaintext
        },
    }
}

/// How a wallet's file is protected, without opening it.
pub fn vault_state(wf: Option<&WalletFile>) -> (s: VaultState)
    ensures
        s == protection(wf),
{
    match wf {
        None => VaultState::Missing,
        Some(wf) => if !is_empty_text(wf.fvk_hex.as_str()) {
            VaultState::WatchOnly
        } else if wf.encrypted {
            VaultState::Encrypted
        } else {
            VaultState::Plaintext
        },
    }
}

/// Whether a passphrase opens a wallet. One that needs none opens with any.
pub fn verify_wallet_secret(wf: Option<&WalletFile>, secret: &str) -> (r: bool)
    ensures
        r == (match protection(wf) {
            VaultState::Missing => false,
            VaultState::Plaintext | VaultState::WatchOnly => true,
            VaultState::Encrypted => file_key(*wf->Some_0, Some(secret)) is Some,
        }),
{
    match (vault_state(wf), wf) {
        (VaultState::Missing, _) => false,
        (VaultState::Encrypted, Some(wf)) => read_key(wf, Some(secret)).is_some(),
        _ => true,
    }
}

/// The file of a new seed wallet, sealed under a passphrase where there is one. History is
/// off until the user turns it on.
pub fn seed_file(network: &str, seed: &[u8; 32], birthday: u64, secret: Option<&str>) -> (r: Result<
    WalletFile,
    String,
>)
    ensures
        match r {
            Ok(wf) => {
                &&& wf.version == 1
                &&& wf.network@ == network@
                &&& wf.birthday == birthday
                &&& !wf.recoverable_history
                &&& wf.encrypted == secret is Some
                &&& wf.fvk_hex@.len() == 0
                &&& file_key(wf, secret) == Some(KeyV::Seed(seed@))
                &&& secret is None ==> wf.seed_hex@ == hex_text(seed@)
            },
            Err(_) => secret matches Some(s) && s@.len() >= 0x4000_0000,
        },
{
    let seed_hex: String = match secret {
        Some(s) => match encrypt_seed(seed, s) {
            Ok(blob) => {
                proof {
                    hex_round_trips(blob@);
                }
                hex(blob.as_slice())
            },
            Err(e) => {
                return Err(e);
            },
        },
        None => {
            proof {
                hex_round_trips(seed@);
            }
            hex(seed)
        },
    };
    let fvk_hex: String = String::new();
    Ok(
        WalletFile {
            version: 1,
            network: String::from_str(network),
            seed_hex,
            encrypted: secret.is_some(),
            birthday,
            fvk_hex,
            recoverable_history: false,
        },
    )
}

/// The file of a new watch-only wallet: there is no seed to protect.
pub fn fvk_file(network: &str, fvk: &[u8; 96], birthday: u64) -> (wf: WalletFile)
    ensures
        wf.version == 2,
        wf.network@ == network@,
        wf.seed_hex@.len() == 0,
        !wf.encrypted,
        wf.birthday == birthday,
        wf.fvk_hex@ == hex_text(fvk@),
        !wf.recoverable_history,
        forall|secret: Option<&str>| #[trigger] file_key(wf, secret) == Some(KeyV::Fvk(fvk@)),
        protection(Some(&wf)) == VaultState::WatchOnly,
{
    let fvk_hex: String = hex(fvk);
    proof {
        hex_round_trips(fvk@);
        if fvk_hex@.len() == 0 {
            assert(fvk_hex@ =~= Seq::<char>::empty());
            assert(hex_text(Seq::<u8>::empty()) =~= Seq::<char>::empty());
            hex_round_trips(Seq::<u8>::empty());
        }
    }
    WalletFile {
        version: 2,
        network: String::from_str(network),
        seed_hex: String::new(),
        encrypted: false,
        birthday,
        fvk_hex,
        recoverable_history: false,
    }
}

/// Why a wallet could not be sealed.
#[derive(Debug, Clone, PartialEq, Eq)]
pub enum EncryptError {
    /// There is no wallet.
    NoWallet,
    /// The file's seed is no seed.
    BadSeed,
    /// The seed could not be sealed.
    Seal(String),
}

impl EncryptError {
    /// The text of [`message`](Self::message).
    pub open spec fn text(self) -> Seq<char> {
        match self {
            EncryptError::NoWallet => "no wallet to encrypt"@,
            EncryptError::BadSeed => "wallet seed is not 32 bytes"@,
            EncryptError::Seal(e) => e@,
        }
    }

    /// The message for people.
    pub fn message(&self) -> (s: String)
        ensures
            s@ == self.text(),
    {
        match self {
            EncryptError::NoWallet => String::from_str("no wallet to encrypt"),
            EncryptError::BadSeed => String::from_str("wallet seed is not 32 bytes"),
            EncryptError::Seal(e) => String::from_str(e.as_str()),
        }
    }
}

/// Seals a clear-text wallet under a passphrase: the file to write, or `None` where the
/// wallet needs no sealing. The sealed file holds the same key, and all else of the file
/// stays.
pub fn encrypt_wallet_in_place(wf: Option<&WalletFile>, secret: &str) -> (r: Result<
    Option<WalletFile>,
    EncryptError,
>)
    ensures
        match protection(wf) {
            VaultState::Missing => r == Err::<Option<WalletFile>, _>(EncryptError::NoWallet),
            VaultState::Encrypted | VaultState::WatchOnly => r matches Ok(None),
            VaultState::Plaintext => match r {
                Ok(Some(out)) => {
                    &&& out.encrypted
                    &&& file_key(out, Some(secret)) == file_key(*wf->Some_0, None)
                    &&& file_key(out, Some(secret)) is Some
                    &&& out.version == wf->Some_0.version
                    &&& out.network@ == wf->Some_0.network@
                    &&& out.birthday == wf->Some_0.birthday
                    &&& out.fvk_hex@ == wf->Some_0.fvk_hex@
                    &&& out.recoverable_history == wf->Some_0.recoverable_history
                },
                Ok(None) => false,
                Err(EncryptError::NoWallet) => false,
                Err(EncryptError::BadSeed) => file_key(*wf->Some_0, None) is None,
                Err(EncryptError::Seal(_)) => file_key(*wf->Some_0, None) is Some && secret@.len()
                    >= 0x4000_0000,
            },
        },
{
    let wf: &WalletFile = match (vault_state(wf), wf) {
        (VaultState::Plaintext, Some(wf)) => wf,
        (VaultState::Missing, _) => {
            return Err(EncryptError::NoWallet);
        },
        _ => {
            return Ok(None);
        },
    };
    let seed: [u8; 32] = match seed_from_hex(wf.seed_hex.as_str()) {
        Some(seed) => seed,
        None => {
            return Err(EncryptError::BadSeed);
        },
    };
    match encrypt_seed(&seed, secret) {
        Err(e) => Err(EncryptError::Seal(e)),
        Ok(blob) => {
            proof {
                hex_round_trips(blob@);
            }
            Ok(
                Some(
                    WalletFile {
                        version: wf.version,
                        network: String::from_str(wf.network.as_str()),
                        seed_hex: hex(blob.as_slice()),
                        encrypted: true,
                        birthday: wf.birthday,
                        fvk_hex: String::from_str(wf.fvk_hex.as_str()),
                        recoverable_history: wf.recoverable_history,
                    },
                ),
            )
        },
    }
}

/// A portable backup: the seed sealed under a passphrase of its own, and what a restore
/// needs besides.
#[derive(Debug, Clone, PartialEq, Eq)]
pub struct WalletBackup {
    /// The marker of a backup.
    pub magic: String,
    pub version: u32,
    pub network: String,
    /// The wallet's birthday.
    pub birthday: u64,
    /// The sealed seed.
    pub encrypted_seed_hex: String,
    pub created_unix: u64,
}

/// The marker of a backup.
pub const BACKUP_MAGIC: &'static str = "zkas-wallet-backup";

/// The newest form of a backup.
pub const BACKUP_VERSION: u32 = 1;

/// Fewest characters of a passphrase.
pub const MIN_PASSPHRASE: usize = 8;

/// Why a backup could not be made or restored.
#[derive(Debug, Clone, PartialEq, Eq)]
pub enum BackupError {
    /// The passphrase of the backup is too short.
    ShortBackupSecret,
    /// The passphrase of the wallet is too short.
    ShortWalletSecret,
    /// There is no wallet to back up.
    NoWallet,
    /// The wallet has no seed to back up.
    WatchOnly,
    /// The wallet's seed cannot be read.
    Unreadable,
    /// The file is no backup.
    NotABackup,
    /// The backup is of a newer form.
    Newer(u32),
    /// There is a wallet already.
    Exists,
    /// The backup's seed is not in hexadecimal notation.
    Corrupt,
    /// The passphrase does not open the backup.
    WrongSecret,
    /// The seed could not be sealed.
    Seal(String),
}

impl BackupError {
    /// The text of [`message`](Self::message).
    pub open spec fn text(self) -> Seq<char> {
        match self {
            BackupError::ShortBackupSecret => "backup passphrase must be at least 8 characters"@,
            BackupError::ShortWalletSecret => "passphrase must be at least 8 characters"@,
            BackupError::NoWallet => "no wallet on this device"@,
            BackupError::WatchOnly =>
                "this is a watch-only wallet — it holds no seed to back up"@,
            BackupError::Unreadable => "cannot read the wallet seed (wrong passphrase?)"@,
            BackupError::NotABackup => "not a ZKas wallet backup file"@,
            BackupError::Newer(v) => "this backup was written by a newer wallet (format v"@
                + decimal_text(v as nat) + ") — update the app"@,
            BackupError::Exists =>
                "a wallet already exists on this device; remove it before restoring"@,
            BackupError::Corrupt => "backup is corrupt (bad seed field)"@,
            BackupError::WrongSecret => "wrong backup passphrase"@,
            BackupError::Seal(e) => e@,
        }
    }

    /// The message for people.
    pub fn message(&self) -> (s: String)
        ensures
            s@ == self.text(),
    {
        match self {
            BackupError::ShortBackupSecret =>
                String::from_str("backup passphrase must be at least 8 characters"),
            BackupError::ShortWalletSecret =>
                String::from_str("passphrase must be at least 8 characters"),
            BackupError::NoWallet => String::from_str("no wallet on this device"),
            BackupError::WatchOnly =>
                String::from_str("this is a watch-only wallet — it holds no seed to back up"),
            BackupError::Unreadable =>
                String::from_str("cannot read the wallet seed (wrong passphrase?)"),
            BackupError::NotABackup => String::from_str("not a ZKas wallet backup file"),
            BackupError::Newer(v) => {
                let mut s: String = String::from_str(
                    "this backup was written by a newer wallet (format v",
                );
                push_decimal(&mut s, *v as u128);
                s.append(") — update the app");
                s
            },
            BackupError::Exists => String::from_str(
                "a wallet already exists on this device; remove it before restoring",
            ),
            BackupError::Corrupt => String::from_str("backup is corrupt (bad seed field)"),
            BackupError::WrongSecret => String::from_str("wrong backup passphrase"),
            BackupError::Seal(e) => String::from_str(e.as_str()),
        }
    }
}

/// The seed that a backup opens to under its passphrase.
pub open spec fn backup_seed(b: WalletBackup, secret: Seq<char>) -> Option<Seq<u8>> {
    match unhex_bytes(b.encrypted_seed_hex@) {
        Some(blob) => unsealed(blob, secret),
        None => None,
    }
}

/// A passphrase of too few characters.
pub open spec fn short(secret: Seq<char>) -> bool {
    secret.len() < MIN_PASSPHRASE
}

/// What backing a wallet up gives: a backup that opens to the wallet's seed, or why there is
/// none.
pub open spec fn export_outcome(
    r: Result<WalletBackup, BackupError>,
    wf: Option<&WalletFile>,
    wallet_secret: Option<&str>,
    backup_secret: Seq<char>,
    now: u64,
) -> bool {
    match r {
        Ok(b) => {
            &&& !short(backup_secret)
            &&& wf is Some
            &&& b.magic@ == BACKUP_MAGIC@
            &&& b.version == BACKUP_VERSION
            &&& b.network@ == wf->Some_0.network@
            &&& b.birthday == wf->Some_0.birthday
            &&& b.created_unix == now
            &&& backup_seed(b, backup_secret) is Some
            &&& file_key(*wf->Some_0, wallet_secret) == Some(
                KeyV::Seed(backup_seed(b, backup_secret)->Some_0),
            )
        },
        Err(BackupError::ShortBackupSecret) => short(backup_secret),
        Err(BackupError::NoWallet) => !short(backup_secret) && wf is None,
        Err(BackupError::WatchOnly) => !short(backup_secret) && protection(wf)
            == VaultState::WatchOnly,
        Err(BackupError::Unreadable) => {
            &&& !short(backup_secret)
            &&& wf is Some
            &&& protection(wf) != VaultState::WatchOnly
            &&& file_key(*wf->Some_0, wallet_secret) is None
        },
        Err(BackupError::Seal(_)) => {
            &&& wf is Some
            &&& file_key(*wf->Some_0, wallet_secret) matches Some(KeyV::Seed(_))
            &&& backup_secret.len() >= 0x4000_0000
        },
        Err(_) => false,
    }
}

/// Backs a wallet's seed up under a passphrase of its own. A watch-only wallet is refused:
/// its backup could not restore the power to spend.
pub fn export_backup(
    wf: Option<&WalletFile>,
    wallet_secret: Option<&str>,
    backup_secret: &str,
    now: u64,
) -> (r: Result<WalletBackup, BackupError>)
    ensures
        export_outcome(r, wf, wallet_secret, backup_secret@, now),
{
    if chars_of(backup_secret).len() < MIN_PASSPHRASE {
        return Err(BackupError::ShortBackupSecret);
    }
    let wf: &WalletFile = match wf {
        Some(wf) => wf,
        None => {
            return Err(BackupError::NoWallet);
        },
    };
    if !is_empty_text(wf.fvk_hex.as_str()) {
        return Err(BackupError::WatchOnly);
    }
    match read_key(wf, wallet_secret) {
        None => Err(BackupError::Unreadable),
        Some(WalletKey::Fvk(_)) => Err(BackupError::WatchOnly),
        Some(WalletKey::Seed(seed)) => match encrypt_seed(&seed, backup_secret) {
            Err(e) => Err(BackupError::Seal(e)),
            Ok(blob) => {
                proof {
                    hex_round_trips(blob@);
                }
                Ok(
                    WalletBackup {
                        magic: String::from_str(BACKUP_MAGIC),
                        version: BACKUP_VERSION,
                        network: String::from_str(wf.network.as_str()),
                        birthday: wf.birthday,
                        encrypted_seed_hex: hex(blob.as_slice()),
                        created_unix: now,
                    },
                )
            },
        },
    }
}

/// What restoring a backup gives: the wallet's file, which opens under the wallet's
/// passphrase to the seed of the backup, or why there is none.
pub open spec fn import_outcome(
    r: Result<WalletFile, BackupError>,
    backup: Option<&WalletBackup>,
    exists_already: bool,
    backup_secret: Seq<char>,
    wallet_secret: &str,
) -> bool {
    let named = backup is Some && backup->Some_0.magic@ == BACKUP_MAGIC@;
    let fit = !short(wallet_secret@) && named && backup->Some_0.version <= BACKUP_VERSION
        && !exists_already;
    match r {
        Ok(wf) => {
            &&& fit
            &&& backup_seed(*backup->Some_0, backup_secret) is Some
            &&& wf.version == 1
            &&& wf.encrypted
            &&& wf.fvk_hex@.len() == 0
            &&& !wf.recoverable_history
            &&& wf.network@ == backup->Some_0.network@
            &&& wf.birthday == backup->Some_0.birthday
            &&& file_key(wf, Some(wallet_secret)) == Some(
                KeyV::Seed(backup_seed(*backup->Some_0, backup_secret)->Some_0),
            )
        },
        Err(BackupError::ShortWalletSecret) => short(wallet_secret@),
        Err(BackupError::NotABackup) => !short(wallet_secret@) && !named,
        Err(BackupError::Newer(v)) => !short(wallet_secret@) && named && v == backup->Some_0.version
            && v > BACKUP_VERSION,
        Err(BackupError::Exists) => !short(wallet_secret@) && named && backup->Some_0.version
            <= BACKUP_VERSION && exists_already,
        Err(BackupError::Corrupt) => fit && unhex_bytes(
            backup->Some_0.encrypted_seed_hex@,
        ) is None,
        Err(BackupError::WrongSecret) => {
            &&& fit
            &&& unhex_bytes(backup->Some_0.encrypted_seed_hex@) is Some
            &&& backup_seed(*backup->Some_0, backup_secret) is None
        },
        Err(BackupError::Seal(_)) => fit && backup_seed(
            *backup->Some_0,
            backup_secret,
        ) is Some && wallet_secret@.len() >= 0x4000_0000,
        Err(_) => false,
    }
}

/// Restores a backup into the file of a new wallet, sealed under the wallet's passphrase. It
/// never replaces a wallet that is there.
pub fn import_backup(
    backup: Option<&WalletBackup>,
    exists_already: bool,
    backup_secret: &str,
    wallet_secret: &str,
) -> (r: Result<WalletFile, BackupError>)
    ensures
        import_outcome(r, backup, exists_already, backup_secret@, wallet_secret),
{
    if chars_of(wallet_secret).len() < MIN_PASSPHRASE {
        return Err(BackupError::ShortWalletSecret);
    }
    let backup: &WalletBackup = match backup {
        Some(backup) => backup,
        None => {
            return Err(BackupError::NotABackup);
        },
    };
    if !same_text(backup.magic.as_str(), BACKUP_MAGIC) {
        return Err(BackupError::NotABackup);
    }
    if backup.version > BACKUP_VERSION {
        return Err(BackupError::Newer(backup.version));
    }
    if exists_already {
        return Err(BackupError::Exists);
    }
    let blob: Vec<u8> = match unhex(backup.encrypted_seed_hex.as_str()) {
        Some(blob) => blob,
        None => {
            return Err(BackupError::Corrupt);
        },
    };
    let seed: [u8; 32] = match decrypt_seed(blob.as_slice(), backup_secret) {
        Ok(seed) => seed,
        Err(_) => {
            return Err(BackupError::WrongSecret);
        },
    };
    match seed_file(backup.network.as_str(), &seed, backup.birthday, Some(wallet_secret)) {
        Ok(wf) => Ok(wf),
        Err(e) => Err(BackupError::Seal(e)),
    }
}

/// A backup restores the wallet that it was made of: the same seed, network and birthday.
pub proof fn backups_restore_the_wallet(
    wf: WalletFile,
    old_secret: Option<&str>,
    backup_secret: Seq<char>,
    now: u64,
    b: WalletBackup,
    new_secret: &str,
    out: WalletFile,
)
    requires
        export_outcome(Ok(b), Some(&wf), old_secret, backup_secret, now),
        import_outcome(Ok(out), Some(&b), false, backup_secret, new_secret),
    ensures
        file_key(out, Some(new_secret)) == file_key(wf, old_secret),
        out.network@ == wf.network@,
        out.birthday == wf.birthday,
{
}

/// A backup that was made can be restored, wherever there is no wallet yet, under its own
/// passphrase and any fit one for the wallet: the wallet comes back, sealed.
pub proof fn backups_can_be_restored(
    wf: WalletFile,
    old_secret: Option<&str>,
    backup_secret: Seq<char>,
    now: u64,
    b: WalletBackup,
    new_secret: &str,
    r: Result<WalletFile, BackupError>,
)
    requires
        export_outcome(Ok(b), Some(&wf), old_secret, backup_secret, now),
        import_outcome(r, Some(&b), false, backup_secret, new_secret),
        !short(new_secret@),
        new_secret@.len() < 0x4000_0000,
    ensures
        r matches Ok(out) && {
            &&& file_key(out, Some(new_secret)) == file_key(wf, old_secret)
            &&& out.birthday == wf.birthday
            &&& out.network@ == wf.network@
            &&& protection(Some(&out)) == VaultState::Encrypted
        },
{
}

/// A backup is never restored over a wallet, nor under a passphrase that does not open it.
pub proof fn restoring_takes_the_place_and_the_passphrase(
    backup: Option<&WalletBackup>,
    exists_already: bool,
    backup_secret: Seq<char>,
    wallet_secret: &str,
    r: Result<WalletFile, BackupError>,
)
    requires
        import_outcome(r, backup, exists_already, backup_secret, wallet_secret),
        exists_already || backup is None || backup_seed(*backup->Some_0, backup_secret) is None,
    ensures
        r is Err,
{
}

/// A file tells one key: that of a watch-only wallet is a viewing key and never a seed, an
/// encrypted one tells nothing without the passphrase, and a plain seed reads back as written.
pub proof fn files_tell_their_key(wf: WalletFile, secret: Option<&str>)
    ensures
        protection(Some(&wf)) == VaultState::WatchOnly ==> !(file_key(wf, secret) matches Some(
            KeyV::Seed(_),
        )),
        protection(Some(&wf)) != VaultState::WatchOnly ==> !(file_key(wf, secret) matches Some(
            KeyV::Fvk(_),
        )),
        protection(Some(&wf)) == VaultState::Encrypted && secret is None ==> file_key(wf, secret)
            is None,
        protection(Some(&wf)) == VaultState::Plaintext ==> file_key(wf, secret) == file_key(
            wf,
            None,
        ),
        forall|seed: Seq<u8>|
            protection(Some(&wf)) == VaultState::Plaintext && seed.len() == 32
                && wf.seed_hex@ == #[trigger] hex_text(seed) ==> file_key(wf, secret) == Some(
                KeyV::Seed(seed),
            ),
        protection(None) == VaultState::Missing,
{
    assert forall|seed: Seq<u8>| protection(Some(&wf)) == VaultState::Plaintext && seed.len() == 32
        && wf.seed_hex@ == #[trigger] hex_text(seed) implies file_key(wf, secret) == Some(
        KeyV::Seed(seed),
    ) by {
        hex_round_trips(seed);
    }
}

/// A passphrase of eight characters is long enough, and one of fewer is not.
pub proof fn passphrases_have_eight_characters(secret: Seq<char>)
    ensures
        short(secret) <==> secret.len() <= 7,
{
}

} // verus!
