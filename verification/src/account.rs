//! The shielded account: keys, a receiving address, the notes that it owns, and payments.

use crate::address::{orchard_recipient_bytes, Address, Prefix, Version};
use crate::bundle::{BundleV, ShieldedBundle};
use crate::coinbase::CoinbaseNoteDesc;
use crate::keys::{address_of_fvk, fvk_of_seed, orchard_address, OrchardAddress};
use crate::tree::TREE_CAPACITY;
use crate::verify::network_context;
use crate::wallet::builder::{ActionProvingKey, BuildError};
use crate::wallet::payment::{
    build_outcome, build_payment_bundle, payment_plan, payments_leave_the_fee, ShieldedKeys,
};
use crate::wallet::plan::{built, PlanV};
use crate::walletdb::laws::blocks_keep_the_key;
use crate::walletdb::{
    action_count, bundle_views, lemma_elsewhere_removes, owned_views, worth, OwnedNote, OwnedV,
    WalletDb, WalletV,
};
use crate::witness::{MerklePath, PathV};
use vstd::prelude::*;
use vstd::string::*;

verus! {

/// A shielded account: a seed, and a live view of the notes that it owns.
pub struct ShieldedAccount {
    seed: [u8; 32],
    db: WalletDb,
}

impl View for ShieldedAccount {
    type V = WalletV;

    closed spec fn view(&self) -> WalletV {
        self.db@
    }
}

/// Why a payment could not be constructed.
#[derive(Debug, Clone, PartialEq, Eq)]
pub enum PaymentError {
    /// The recipient is no shielded address.
    BadRecipient,
    /// No single note holds at least amount and fee.
    InsufficientFunds,
    /// The selected note has no membership witness yet.
    NoWitness,
    /// Amount and fee together overflow.
    AmountOverflow,
    /// Building or proving the bundle failed.
    Build(String),
}

/// The text of a build error.
pub open spec fn build_error_text(e: BuildError) -> Seq<char> {
    match e {
        BuildError::Builder(s) => "Builder(\""@ + s@ + "\")"@,
        BuildError::Proof(s) => "Proof(\""@ + s@ + "\")"@,
        BuildError::Empty => "Empty"@,
    }
}

fn build_error_message(e: &BuildError) -> (s: String)
    ensures
        s@ == build_error_text(*e),
{
    match e {
        BuildError::Builder(text) => {
            let mut s: String = String::from_str("Builder(\"");
            s.append(text.as_str());
            s.append("\")");
            s
        },
        BuildError::Proof(text) => {
            let mut s: String = String::from_str("Proof(\"");
            s.append(text.as_str());
            s.append("\")");
            s
        },
        BuildError::Empty => String::from_str("Empty"),
    }
}

/// `i` is the note to spend: the smallest that holds what is needed, and the first of
/// those.
pub open spec fn selected(notes: Seq<OwnedV>, need: int, i: int) -> bool {
    &&& 0 <= i < notes.len()
    &&& notes[i].note.value >= need
    &&& forall|j: int|
        0 <= j < notes.len() && (#[trigger] notes[j]).note.value >= need ==> notes[i].note.value
            <= notes[j].note.value && (notes[j].note.value == notes[i].note.value ==> i <= j)
}

/// Selects the note to spend.
pub fn select_note(notes: &[OwnedNote], need: u64) -> (r: Option<usize>)
    ensures
        match r {
            Some(i) => selected(owned_views(notes@), need as int, i as int),
            None => forall|j: int|
                0 <= j < notes@.len() ==> (#[trigger] owned_views(notes@)[j]).note.value < need,
        },
{
    let ghost all = owned_views(notes@);
    let mut best: Option<usize> = None;
    let mut i: usize = 0;
    assert(all.take(0) =~= Seq::<OwnedV>::empty());
    while i < notes.len()
        invariant
            0 <= i <= notes@.len(),
            all == owned_views(notes@),
            match best {
                Some(b) => selected(all.take(i as int), need as int, b as int),
                None => forall|j: int|
                    0 <= j < i ==> (#[trigger] all[j]).note.value < need,
            },
        decreases notes@.len() - i,
    {
        let value: u64 = notes[i].value();
        let better: bool = value >= need && match best {
            Some(b) => value < notes[b].value(),
            None => true,
        };
        let ghost prior = best;
        if better {
            best = Some(i);
        }
        proof {
            let now = all.take(i + 1);
            assert(now[i as int] == all[i as int]);
            assert(all[i as int].note.value == value);
            assert(forall|j: int| 0 <= j < i ==> now[j] == all.take(i as int)[j]);
            if prior is Some {
                let b = prior->Some_0 as int;
                assert(all.take(i as int)[b] == all[b]);
            }
            if best is Some {
                let b = best->Some_0 as int;
                assert forall|j: int|
                    0 <= j < now.len() && (#[trigger] now[j]).note.value >= need implies now[b].note.value
                    <= now[j].note.value && (now[j].note.value == now[b].note.value ==> b <= j) by {
                    if j < i {
                        assert(all.take(i as int)[j].note.value >= need);
                    }
                }
                assert(selected(now, need as int, b));
            }
        }
        i = i + 1;
    }
    assert(all.take(i as int) =~= all);
    best
}

/// The recipient is a shielded address that decodes.
pub open spec fn payable(recipient: Address) -> bool {
    recipient.shielded() && orchard_address(recipient.payload@)
}

/// The plan of a payment from the selected note.
pub open spec fn account_plan(
    w: WalletV,
    i: int,
    path: PathV,
    recipient: Seq<u8>,
    amount: u64,
    fee: u64,
) -> PlanV {
    payment_plan(
        w.fvk,
        w.notes[i].note,
        path,
        recipient,
        amount,
        address_of_fvk(w.fvk),
        fee,
    )
}

impl ShieldedAccount {
    /// The account's wallet is in order, came by following the chain, and is the seed's.
    pub closed spec fn wf(&self) -> bool {
        self.db.wf() && self.db@.tidy() && fvk_of_seed(self.seed@) == Some(self.db@.fvk)
    }

    /// What [`wf`](Self::wf) says of what the account holds.
    pub proof fn lemma_wf(&self)
        requires
            self.wf(),
        ensures
            self@.tidy(),
            fvk_of_seed(self.seed()) == Some(self@.fvk),
    {
    }

    /// The account's seed.
    pub closed spec fn seed(&self) -> Seq<u8> {
        self.seed@
    }

    /// Derives an account from a seed; `None` if the seed is no spending key (negligibly
    /// rare).
    pub fn from_seed(seed: [u8; 32]) -> (r: Option<Self>)
        ensures
            r is Some <==> fvk_of_seed(seed@) is Some,
            r matches Some(a) ==> a.wf() && a.seed() == seed@ && a@ == WalletV::fresh(
                fvk_of_seed(seed@)->Some_0,
            ),
    {
        match WalletDb::from_seed(seed) {
            Some(db) => Some(ShieldedAccount { seed, db }),
            None => None,
        }
    }

    /// The account's receiving address on a network.
    pub fn receiving_address(&self, prefix: Prefix) -> (a: Address)
        requires
            self.wf(),
        ensures
            a.prefix == prefix,
            a.shielded(),
            a.payload@ == address_of_fvk(self@.fvk),
            payable(a),
    {
        let keys: ShieldedKeys = ShieldedKeys::from_seed(self.seed).unwrap();
        let raw: [u8; 43] = keys.address().to_raw_address_bytes();
        Address::new(prefix, Version::ShieldedOrchard, &raw)
    }

    /// Follows one accepted block: its coinbase notes and its accepted bundles, in the order
    /// in which the chain applies them.
    pub fn ingest_block(&mut self, coinbase: &[(CoinbaseNoteDesc, u64)], txs: &[&ShieldedBundle])
        requires
            old(self).wf(),
            old(self)@.size() + coinbase@.len() + action_count(bundle_views(txs@)) <= u64::MAX,
        ensures
            final(self).wf(),
            final(self).seed() == old(self).seed(),
            final(self)@ == old(self)@.coinbase(coinbase@).bundles(bundle_views(txs@)),
    {
        proof {
            blocks_keep_the_key(self@, coinbase@, bundle_views(txs@));
        }
        self.db.ingest_block(coinbase, txs);
    }

    /// The total of the notes that the account holds.
    pub fn balance(&self) -> (t: u128)
        ensures
            t == worth(self@.notes),
    {
        self.db.balance()
    }

    /// The account's wallet.
    pub fn db(&self) -> (db: &WalletDb)
        requires
            self.wf(),
        ensures
            db@ == self@,
            db.wf(),
            db@.tidy(),
    {
        &self.db
    }

    /// Builds a payment: spends one note that holds at least amount and fee, sends `amount`
    /// to `recipient`, returns the change, and leaves `fee` as the public value balance. The
    /// result is the encoding of the bundle, for a transaction's payload. Where it succeeds
    /// the spent note is dropped; else nothing changes.
    pub fn create_payment(
        &mut self,
        pk: &ActionProvingKey,
        recipient: &Address,
        amount: u64,
        fee: u64,
        network_domain: &[u8; 32],
        tx_context: &[u8],
    ) -> (r: Result<Vec<u8>, PaymentError>)
        requires
            old(self).wf(),
        ensures
            final(self).wf(),
            final(self).seed() == old(self).seed(),
            r is Err ==> final(self)@ == old(self)@,
            r matches Err(PaymentError::BadRecipient) <==> !payable(*recipient),
            r matches Err(PaymentError::AmountOverflow) <==> payable(*recipient) && amount + fee
                > u64::MAX,
            r matches Err(PaymentError::InsufficientFunds) <==> payable(*recipient) && amount + fee
                <= u64::MAX && (forall|j: int|
                0 <= j < old(self)@.notes.len() ==> (
                #[trigger] old(self)@.notes[j]).note.value < amount + fee),
            r matches Err(PaymentError::NoWitness) ==> exists|i: int| #[trigger]
                selected(old(self)@.notes, amount + fee, i) && old(self)@.path_at(
                    old(self)@.notes[i].position,
                    old(self)@.size(),
                ) is None,
            r matches Err(PaymentError::NoWitness) ==> old(self)@.size() > TREE_CAPACITY,
            r matches Err(PaymentError::Build(text)) ==> exists|i: int, e: BuildError| #[trigger]
                selected(old(self)@.notes, amount + fee, i) && text@ == #[trigger] build_error_text(e)
                    && fails_from(
                    old(self)@,
                    i,
                    e,
                    recipient.payload@,
                    amount,
                    fee,
                    network_context(network_domain@, tx_context@),
                ) && (fee <= i64::MAX ==> e is Proof),
            r matches Ok(bytes) ==> exists|i: int, b: ShieldedBundle| #[trigger]
                selected(old(self)@.notes, amount + fee, i) && bytes@ == #[trigger] b@.encoded()
                    && paid_from(
                    old(self)@,
                    final(self)@,
                    i,
                    b@,
                    recipient.payload@,
                    amount,
                    fee,
                    network_context(network_domain@, tx_context@),
                ),
    {
        let raw: [u8; 43] = match orchard_recipient_bytes(recipient) {
            Some(raw) => raw,
            None => {
                return Err(PaymentError::BadRecipient);
            },
        };
        let to: OrchardAddress = match OrchardAddress::from_raw_address_bytes(&raw) {
            Some(to) => to,
            None => {
                return Err(PaymentError::BadRecipient);
            },
        };
        if amount > u64::MAX - fee {
            return Err(PaymentError::AmountOverflow);
        }
        let need: u64 = amount + fee;
        let ghost w = self@;
        let owned: OwnedNote = {
            let notes: &[OwnedNote] = self.db.notes();
            match select_note(notes, need) {
                Some(i) => {
                    assert(selected(w.notes, need as int, i as int));
                    assert(owned_views(notes@)[i as int] == notes@[i as int]@);
                    assert(exists|k: int| #[trigger]
                        selected(w.notes, need as int, k) && w.notes[k] == notes@[i as int]@);
                    notes[i]
                },
                None => {
                    assert(forall|j: int|
                        0 <= j < w.notes.len() ==> (#[trigger] w.notes[j]).note.value < need);
                    return Err(PaymentError::InsufficientFunds);
                },
            }
        };
        let ghost i = choose|k: int| #[trigger] selected(w.notes, need as int, k) && w.notes[k] == owned@;
        let path: MerklePath = match self.db.witness_path(owned.position) {
            Some(path) => path,
            None => {
                assert(selected(w.notes, amount + fee, i));
                return Err(PaymentError::NoWitness);
            },
        };
        let keys: ShieldedKeys = ShieldedKeys::from_seed(self.seed).unwrap();
        let own: OrchardAddress = keys.address();
        let ghost walked = path@;
        match build_payment_bundle(
            pk,
            &keys,
            owned.note,
            path,
            &to,
            amount,
            &own,
            fee,
            network_domain,
            tx_context,
        ) {
            Err(e) => {
                proof {
                    assert(selected(w.notes, amount + fee, i));
                    assert(build_error_text(e) == build_error_text(e));
                    assert(w.keeps(w.notes[i]));
                    payments_leave_the_fee(
                        w.fvk,
                        w.notes[i].note,
                        walked,
                        recipient.payload@,
                        amount,
                        address_of_fvk(w.fvk),
                        fee,
                    );
                    assert(fails_from(
                        w,
                        i,
                        e,
                        recipient.payload@,
                        amount,
                        fee,
                        network_context(network_domain@, tx_context@),
                    ));
                }
                Err(PaymentError::Build(build_error_message(&e)))
            },
            Ok(b) => {
                self.db.mark_spent(owned.position);
                let bytes: Vec<u8> = b.to_bytes();
                proof {
                    lemma_elsewhere_removes(w.notes, i, w.base.size, w.size());
                    assert(selected(w.notes, amount + fee, i));
                    assert(b@.encoded() == bytes@);
                    assert(paid_from(
                        w,
                        self@,
                        i,
                        b@,
                        recipient.payload@,
                        amount,
                        fee,
                        network_context(network_domain@, tx_context@),
                    ));
                }
                Ok(bytes)
            },
        }
    }
}

/// Building the payment from the wallet's note `i` fails in this way.
pub open spec fn fails_from(
    before: WalletV,
    i: int,
    e: BuildError,
    recipient: Seq<u8>,
    amount: u64,
    fee: u64,
    context: Seq<u8>,
) -> bool {
    let path = before.path_at(before.notes[i].position, before.size());
    &&& path is Some
    &&& build_outcome(
        Err(e),
        account_plan(before, i, path->Some_0, recipient, amount, fee),
        context,
    )
}

/// The bundle is the payment from the wallet's note `i`, and the wallet dropped that note
/// and nothing else.
pub open spec fn paid_from(
    before: WalletV,
    after: WalletV,
    i: int,
    b: BundleV,
    recipient: Seq<u8>,
    amount: u64,
    fee: u64,
    context: Seq<u8>,
) -> bool {
    let path = before.path_at(before.notes[i].position, before.size());
    &&& path is Some
    &&& built(b, account_plan(before, i, path->Some_0, recipient, amount, fee), context)
    &&& after == (WalletV { notes: before.notes.remove(i), ..before })
}

/// An account pays from the smallest note that suffices: no note that covers the amount and
/// the fee is smaller, the one that is taken covers them, and which one it is is determined.
pub proof fn accounts_spend_the_smallest_note(notes: Seq<OwnedV>, need: int, i: int, j: int)
    requires
        selected(notes, need, i),
        0 <= j < notes.len(),
    ensures
        notes[i].note.value >= need,
        notes[j].note.value < notes[i].note.value ==> notes[j].note.value < need,
        selected(notes, need, j) ==> i == j,
{
}

} // verus!
