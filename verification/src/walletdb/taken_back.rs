//! Notes that come back: a wallet takes a note in again that it had given up.

use super::{ascend, owned_views, OwnedNote, OwnedV, WalletDb, WalletV};
use crate::nullifier::NullifierSet;
use vstd::prelude::*;

verus! {

/// The notes with one more, at its place by position; a note that is there already is not
/// taken in twice.
pub open spec fn with_note(notes: Seq<OwnedV>, n: OwnedV) -> Seq<OwnedV>
    decreases notes.len(),
{
    if notes.len() == 0 {
        seq![n]
    } else if notes.last().position < n.position {
        notes.push(n)
    } else if notes.last().position == n.position {
        notes
    } else {
        with_note(notes.drop_last(), n).push(notes.last())
    }
}

impl WalletV {
    /// The note is one of the wallet's stream, and the wallet's to spend.
    pub open spec fn can_take(self, n: OwnedV) -> bool {
        self.base.size <= n.position < self.size() && self.keeps(n)
    }
}

/// What stands behind a note's place stays behind it.
proof fn lemma_with_note_split(notes: Seq<OwnedV>, n: OwnedV, i: int)
    requires
        0 <= i <= notes.len(),
        forall|j: int| i <= j < notes.len() ==> (#[trigger] notes[j]).position > n.position,
    ensures
        with_note(notes, n) == with_note(notes.take(i), n) + notes.skip(i),
    decreases notes.len() - i,
{
    if i == notes.len() {
        assert(notes.take(i) =~= notes);
        assert(with_note(notes, n) + notes.skip(i) =~= with_note(notes, n));
    } else {
        let front = notes.drop_last();
        assert(notes[notes.len() - 1].position > n.position);
        assert forall|j: int| i <= j < front.len() implies (#[trigger] front[j]).position
            > n.position by {
            assert(notes[j].position > n.position);
        }
        lemma_with_note_split(front, n, i);
        assert(front.take(i) =~= notes.take(i));
        assert((with_note(notes.take(i), n) + front.skip(i)).push(notes.last()) =~= with_note(
            notes.take(i),
            n,
        ) + notes.skip(i));
    }
}

proof fn lemma_with_note_ascends(notes: Seq<OwnedV>, n: OwnedV, from: nat, to: nat)
    requires
        ascend(notes, from, to),
        from <= n.position < to,
    ensures
        ascend(with_note(notes, n), from, to),
        forall|i: int|
            0 <= i < with_note(notes, n).len() ==> #[trigger] with_note(notes, n)[i] == n
                || notes.contains(with_note(notes, n)[i]),
    decreases notes.len(),
{
    let all = with_note(notes, n);
    if notes.len() > 0 {
        super::lemma_ascend_front(notes, from, to);
        let front = notes.drop_last();
        let p = notes.last().position;
        if p < n.position {
            assert forall|i: int| 0 <= i < notes.len() implies from <= (
            #[trigger] notes[i]).position < n.position by {
                if i < front.len() {
                    assert(front[i].position < p);
                }
            }
            super::lemma_ascend_push(notes, n, from, to);
            assert forall|i: int| 0 <= i < all.len() implies #[trigger] all[i] == n
                || notes.contains(all[i]) by {
                if i < notes.len() {
                    assert(notes[i] == all[i]);
                }
            }
        } else if p == n.position {
            assert forall|i: int| 0 <= i < all.len() implies #[trigger] all[i] == n
                || notes.contains(all[i]) by {
                assert(notes[i] == all[i]);
            }
        } else {
            lemma_with_note_ascends(front, n, from, p);
            super::lemma_ascend_push(with_note(front, n), notes.last(), from, to);
            assert forall|i: int| 0 <= i < all.len() implies #[trigger] all[i] == n
                || notes.contains(all[i]) by {
                if i < with_note(front, n).len() {
                    assert(all[i] == with_note(front, n)[i]);
                    if all[i] != n {
                        let k = choose|k: int| 0 <= k < front.len() && front[k] == all[i];
                        assert(notes[k] == all[i]);
                    }
                } else {
                    assert(notes[notes.len() - 1] == all[i]);
                }
            }
        }
    }
}

impl WalletDb {
    /// Whether the stream has revealed a nullifier.
    pub fn has_seen(&self, nf: &[u8; 32]) -> (r: bool)
        ensures
            r == self@.spent.contains(nf@),
    {
        proof {
            self.spent_nullifiers.lemma_spent();
        }
        self.spent_nullifiers.contains(nf)
    }

    /// Takes a note in again.
    pub fn take_back(&mut self, n: OwnedNote)
        requires
            old(self).wf(),
        ensures
            final(self).wf(),
            final(self)@ == (WalletV { notes: with_note(old(self)@.notes, n@), ..old(self)@ }),
            old(self)@.tidy() && old(self)@.can_take(n@) ==> final(self)@.tidy(),
    {
        let ghost all = self@.notes;
        let mut i: usize = self.notes.len();
        while i > 0 && self.notes[i - 1].position > n.position
            invariant
                0 <= i <= self.notes@.len(),
                all == owned_views(self.notes@),
                forall|j: int| i <= j < all.len() ==> (#[trigger] all[j]).position > n@.position,
            decreases i,
        {
            assert(all[i - 1] == self.notes@[i - 1]@);
            i = i - 1;
        }
        proof {
            lemma_with_note_split(all, n@, i as int);
            if i > 0 {
                assert(all.take(i as int).last() == self.notes@[i - 1]@);
            }
            if old(self)@.tidy() && old(self)@.can_take(n@) {
                lemma_with_note_ascends(all, n@, self@.base.size, self@.size());
            }
        }
        if i > 0 && self.notes[i - 1].position == n.position {
            assert(all.take(i as int) + all.skip(i as int) =~= all);
            return;
        }
        self.notes.insert(i, n);
        proof {
            assert(with_note(all.take(i as int), n@) =~= all.take(i as int).push(n@));
            assert(self@.notes =~= all.take(i as int).push(n@) + all.skip(i as int));
            if old(self)@.tidy() && old(self)@.can_take(n@) {
                assert forall|j: int| 0 <= j < self@.notes.len() implies self@.keeps(
                    #[trigger] self@.notes[j],
                ) by {
                    let x = self@.notes[j];
                    if x != n@ {
                        assert(all.contains(x));
                        let k = choose|k: int| 0 <= k < all.len() && all[k] == x;
                        assert(old(self)@.keeps(all[k]));
                    }
                }
            }
        }
    }
}

} // verus!
