use zkas_shielded::field::{Anchor, ExtractedNoteCommitment};
use zkas_shielded::tree::{ChainBlockSubtree, FrontierState, GlobalTree, NoteCommitmentTree};

fn cmx(n: u32) -> ExtractedNoteCommitment {
    let mut b = [0u8; 32];
    b[0..4].copy_from_slice(&n.to_le_bytes());
    ExtractedNoteCommitment::from_bytes(&b).expect("canonical encoding")
}

fn subtree(ns: &[u32]) -> ChainBlockSubtree {
    let mut s = ChainBlockSubtree::new();
    for &n in ns {
        s.push(cmx(n));
    }
    s
}

#[test]
fn empty_anchor_matches_orchard_empty_tree() {
    assert_eq!(
        GlobalTree::new().anchor().to_bytes(),
        orchard::tree::Anchor::empty_tree().to_bytes()
    );
    assert_eq!(GlobalTree::new().size(), 0);
}

#[test]
fn anchor_is_deterministic_for_a_fixed_global_order() {
    let block_a = subtree(&[1, 2, 3]);
    let block_b = subtree(&[4, 5]);

    let mut t1 = GlobalTree::new();
    t1.append_subtree(&block_a).unwrap();
    t1.append_subtree(&block_b).unwrap();

    let mut t2 = GlobalTree::new();
    for n in [1, 2, 3, 4, 5] {
        t2.append(cmx(n)).unwrap();
    }

    assert_eq!(t1.anchor().to_bytes(), t2.anchor().to_bytes());
    assert_eq!(t1.size(), 5);
    assert_eq!(t2.size(), 5);
}

#[test]
fn anchor_depends_on_global_order() {
    let mut t1 = GlobalTree::new();
    for n in [1, 2, 3, 4, 5] {
        t1.append(cmx(n)).unwrap();
    }
    let mut t2 = GlobalTree::new();
    for n in [4, 5, 1, 2, 3] {
        t2.append(cmx(n)).unwrap();
    }
    assert_ne!(t1.anchor().to_bytes(), t2.anchor().to_bytes());
}

#[test]
fn anchor_changes_on_append() {
    let mut t = GlobalTree::new();
    let a0 = t.anchor().to_bytes();
    t.append(cmx(42)).unwrap();
    let a1 = t.anchor().to_bytes();
    assert_ne!(a0, a1);
}

#[test]
fn state_in_plain_bytes_describes_the_same_tree() {
    let mut t = GlobalTree::new();
    let empty = t.to_state();
    assert_eq!(empty, FrontierState { size: 0, leaf: None, ommers: vec![] });
    for n in 1..=7u32 {
        t.append(cmx(n)).unwrap();
        let state = t.to_state();
        assert_eq!(state.size, n as u64);
        assert_eq!(state.leaf, Some(cmx(n).to_bytes()));
        assert_eq!(state.ommers.len(), (n as u64 - 1).count_ones() as usize);
        let back = GlobalTree::from_state(&state).unwrap();
        assert_eq!(back.size(), t.size());
        assert_eq!(back.anchor().to_bytes(), t.anchor().to_bytes());
        assert_eq!(back.to_state(), state);
    }
}

#[test]
fn inconsistent_states_describe_no_tree() {
    let mut t = GlobalTree::new();
    for n in 1..=3u32 {
        t.append(cmx(n)).unwrap();
    }
    let good = t.to_state();
    let mut bad = good.clone();
    bad.size = 4;
    assert!(GlobalTree::from_state(&bad).is_err());
    let mut bad = good.clone();
    bad.leaf = None;
    assert!(GlobalTree::from_state(&bad).is_err());
    let mut bad = good.clone();
    bad.leaf = Some([0xff; 32]);
    assert!(GlobalTree::from_state(&bad).is_err());
    let mut bad = good.clone();
    bad.ommers[0] = [0xff; 32];
    assert!(GlobalTree::from_state(&bad).is_err());
    let mut bad = good;
    bad.size = (1u64 << 32) + 3;
    assert!(GlobalTree::from_state(&bad).is_err());
}

#[test]
fn a_full_tree_takes_no_leaf_and_keeps_its_anchor() {
    let full = FrontierState {
        size: 1u64 << 32,
        leaf: Some(cmx(1).to_bytes()),
        ommers: vec![cmx(2).to_bytes(); 32],
    };
    let mut t = GlobalTree::from_state(&full).unwrap();
    let before = t.anchor().to_bytes();
    let e = t.append(cmx(3)).unwrap_err();
    assert_eq!(e.message(), "note commitment tree is full (2^32 leaves)");
    assert_eq!(t.anchor().to_bytes(), before);
    let last = FrontierState {
        size: (1u64 << 32) - 1,
        leaf: Some(cmx(1).to_bytes()),
        ommers: vec![cmx(2).to_bytes(); 31],
    };
    let mut t = GlobalTree::from_state(&last).unwrap();
    // One of the two leaves fits.
    assert!(t.append_subtree(&subtree(&[5, 6])).is_err());
    assert_eq!(t.size(), 1u64 << 32);
}

#[test]
fn subtree_keeps_block_order() {
    let s = subtree(&[3, 1, 2]);
    assert_eq!(s.len(), 3);
    assert!(!s.is_empty());
    assert_eq!(s.commitments()[0].to_bytes(), cmx(3).to_bytes());
    assert!(Anchor::from_bytes(&[0xff; 32]).is_none());
    assert!(Anchor::from_bytes(&cmx(9).to_bytes()).is_some());
}
