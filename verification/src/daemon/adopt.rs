//! Adopting the checkpoint of a twin: another registration of the same viewing key.
//!
//! A scan checkpoint follows from the viewing key and the public chain alone, so a second
//! registration of the key may start from the first one's checkpoint.

use crate::bytes::same;
use crate::daemon::scanfile::{blind_of, checkpoint_blind_below, checkpoint_cursor, cursor_of};
use crate::daemon::vault::{file_key, load_wallet_meta, WalletFile};
use crate::text::same_text;
use vstd::prelude::*;

verus! {

/// Another registration on this daemon.
pub struct Donor<'a> {
    pub token: &'a str,
    /// Its wallet's file, if it reads.
    pub wallet: Option<&'a WalletFile>,
    /// Its scan checkpoint, if there is one.
    pub scan: Option<&'a [u8]>,
    /// When the checkpoint was written; 0 where that is unknown.
    pub modified: u128,
}

/// Below which leaf the donor's view is blind; as blind as can be where that is unknown.
pub open spec fn donor_blind(d: Donor) -> nat {
    match d.scan {
        Some(s) => match blind_of(s@) {
            Some(n) => n,
            None => u64::MAX as nat,
        },
        None => u64::MAX as nat,
    }
}

/// The donor's checkpoint serves: it is another registration of the same viewing key, has a
/// cursor on this chain, and its view is at least as complete as this registration asks for.
pub open spec fn serves(
    d: Donor,
    token: Seq<char>,
    fvk: Seq<u8>,
    birthday: u64,
    genesis: Seq<u8>,
    secret: Option<&str>,
) -> bool {
    &&& d.token@ != token
    &&& d.scan is Some && cursor_of(d.scan->Some_0@, genesis) is Some
    &&& d.wallet is Some
    &&& file_key(*d.wallet->Some_0, secret) is Some
    &&& file_key(*d.wallet->Some_0, secret)->Some_0.viewing() == Some(fvk)
    &&& donor_blind(d) == 0 || (birthday != 0 && birthday >= d.wallet->Some_0.birthday)
}

/// Donor `i` is the freshest that serves, and the first of those.
pub open spec fn best_donor(
    donors: Seq<Donor>,
    token: Seq<char>,
    fvk: Seq<u8>,
    birthday: u64,
    genesis: Seq<u8>,
    secret: Option<&str>,
    i: int,
) -> bool {
    &&& 0 <= i < donors.len()
    &&& serves(donors[i], token, fvk, birthday, genesis, secret)
    &&& forall|j: int|
        0 <= j < donors.len() && #[trigger] serves(
            donors[j],
            token,
            fvk,
            birthday,
            genesis,
            secret,
        ) ==> donors[j].modified <= donors[i].modified && (donors[j].modified
            == donors[i].modified ==> i <= j)
}

/// The birthday of a donor that serves.
fn donor_birthday(
    d: &Donor,
    token: &str,
    fvk: &[u8; 96],
    birthday: u64,
    genesis: &[u8; 32],
    secret: Option<&str>,
) -> (r: Option<u64>)
    ensures
        r is Some <==> serves(*d, token@, fvk@, birthday, genesis@, secret),
        r matches Some(b) ==> b == d.wallet->Some_0.birthday,
{
    if same_text(d.token, token) {
        return None;
    }
    let scan: &[u8] = match d.scan {
        Some(scan) => scan,
        None => {
            return None;
        },
    };
    if checkpoint_cursor(scan, genesis).is_none() {
        return None;
    }
    let wallet: &WalletFile = match d.wallet {
        Some(wallet) => wallet,
        None => {
            return None;
        },
    };
    match load_wallet_meta(wallet, secret) {
        None => None,
        Some((key, born, _)) => match key.fvk_bytes() {
            None => None,
            Some(f) => {
                if !same(&f, fvk) {
                    assert(f@ != fvk@);
                    return None;
                }
                let blind: u64 = match checkpoint_blind_below(scan) {
                    Some(n) => n,
                    None => u64::MAX,
                };
                if blind != 0 && (birthday == 0 || birthday < born) {
                    None
                } else {
                    Some(born)
                }
            },
        },
    }
}

/// The twin whose checkpoint a registration of `fvk` under `token` may start from, and the
/// birthday to keep: the earlier of the two, so that no later scan skips notes that either
/// knew.
pub fn adopt_twin_checkpoint(
    donors: &[Donor],
    token: &str,
    fvk: &[u8; 96],
    birthday: u64,
    genesis: &[u8; 32],
    secret: Option<&str>,
) -> (r: Option<(usize, u64)>)
    ensures
        match r {
            Some((i, keep)) => {
                &&& best_donor(donors@, token@, fvk@, birthday, genesis@, secret, i as int)
                &&& keep == (if donors@[i as int].wallet->Some_0.birthday <= birthday {
                    donors@[i as int].wallet->Some_0.birthday
                } else {
                    birthday
                })
            },
            None => forall|j: int|
                0 <= j < donors@.len() ==> !#[trigger] serves(
                    donors@[j],
                    token@,
                    fvk@,
                    birthday,
                    genesis@,
                    secret,
                ),
        },
{
    let mut best: Option<(usize, u64)> = None;
    let mut i: usize = 0;
    while i < donors.len()
        invariant
            0 <= i <= donors@.len(),
            match best {
                Some((b, born)) => {
                    &&& b < i
                    &&& serves(donors@[b as int], token@, fvk@, birthday, genesis@, secret)
                    &&& born == donors@[b as int].wallet->Some_0.birthday
                    &&& forall|j: int|
                        0 <= j < i && #[trigger] serves(
                            donors@[j],
                            token@,
                            fvk@,
                            birthday,
                            genesis@,
                            secret,
                        ) ==> donors@[j].modified <= donors@[b as int].modified && (
                        donors@[j].modified == donors@[b as int].modified ==> b <= j)
                },
                None => forall|j: int|
                    0 <= j < i ==> !#[trigger] serves(
                        donors@[j],
                        token@,
                        fvk@,
                        birthday,
                        genesis@,
                        secret,
                    ),
            },
        decreases donors@.len() - i,
    {
        match donor_birthday(&donors[i], token, fvk, birthday, genesis, secret) {
            Some(born) => {
                let better: bool = match best {
                    Some((b, _)) => donors[i].modified > donors[b].modified,
                    None => true,
                };
                if better {
                    best = Some((i, born));
                }
            },
            None => {},
        }
        i = i + 1;
    }
    match best {
        Some((b, born)) => Some(
            (
                b,
                if born <= birthday {
                    born
                } else {
                    birthday
                },
            ),
        ),
        None => None,
    }
}

/// A checkpoint is adopted only from another registration of the same viewing key, on the same
/// chain, and only where it sees all that this registration asks for: its view is complete, or
/// it reaches as far back as this registration's birthday. A donor of which all of that holds
/// serves.
pub proof fn donors_see_enough(
    d: Donor,
    token: Seq<char>,
    fvk: Seq<u8>,
    birthday: u64,
    genesis: Seq<u8>,
    secret: Option<&str>,
)
    ensures
        serves(d, token, fvk, birthday, genesis, secret) ==> {
            &&& d.token@ != token
            &&& d.wallet is Some
            &&& file_key(*d.wallet->Some_0, secret)->Some_0.viewing() == Some(fvk)
            &&& d.scan is Some
            &&& d.scan->Some_0@.subrange(5, 37) == genesis
            &&& d.scan->Some_0@.len() >= 77
            &&& blind_of(d.scan->Some_0@) == Some(0nat) || (birthday > 0
                && d.wallet->Some_0.birthday <= birthday)
        },
        birthday == 0 && serves(d, token, fvk, birthday, genesis, secret) ==> blind_of(
            d.scan->Some_0@,
        ) == Some(0nat),
        d.token@ != token && d.wallet is Some && (file_key(
            *d.wallet->Some_0,
            secret,
        ) matches Some(key) && key.viewing() == Some(fvk)) && d.scan is Some && cursor_of(
            d.scan->Some_0@,
            genesis,
        ) is Some && blind_of(d.scan->Some_0@) == Some(0nat) ==> serves(
            d,
            token,
            fvk,
            birthday,
            genesis,
            secret,
        ),
        d.token@ != token && d.wallet is Some && (file_key(
            *d.wallet->Some_0,
            secret,
        ) matches Some(key) && key.viewing() == Some(fvk)) && d.scan is Some && cursor_of(
            d.scan->Some_0@,
            genesis,
        ) is Some && birthday > 0 && birthday >= d.wallet->Some_0.birthday ==> serves(
            d,
            token,
            fvk,
            birthday,
            genesis,
            secret,
        ),
{
}

} // verus!
