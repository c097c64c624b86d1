//! The consistency gap of the unsynchronized read-modify-write cycle, and
//! the conditional-save loop that closes it, played out on an in-memory
//! versioned store with a fixed adversarial interleaving.

use sentiment_counter::codec::decode;
use sentiment_counter::label::Label;
use sentiment_counter::store::update_document;

fn count_of(bytes: &Vec<u8>, l: Label) -> u64 {
    decode(bytes).unwrap().get_count(l)
}

#[test]
fn naive_cycle_loses_an_update() {
    // Two cycles, both load before either saves: the later save overwrites
    // the earlier increment.
    let initial = b"Positive,1\n".to_vec();
    let a_loaded = initial.clone();
    let b_loaded = initial.clone();
    let a_out = update_document(&a_loaded, Label::Positive).unwrap();
    let b_out = update_document(&b_loaded, Label::Positive).unwrap();
    let after_a_saves = a_out;
    assert_eq!(count_of(&after_a_saves, Label::Positive), 2);
    let after_b_overwrites = b_out;
    assert_eq!(count_of(&after_b_overwrites, Label::Positive), 2); // one increment lost
    assert_ne!(count_of(&after_b_overwrites, Label::Positive), 3); // the correct total
}

#[test]
fn conditional_save_loop_keeps_every_update() {
    // The same interleaving under compare-and-swap: B's first save is
    // refused because the version moved, B retries from a fresh load, and
    // no increment is lost.
    let mut version: u64 = 0;
    let mut stored = b"Positive,1\n".to_vec();

    // both cycles load version 0
    let a_seen: u64 = version;
    let a_loaded = stored.clone();
    let b_seen: u64 = version;
    let b_loaded = stored.clone();

    // A commits first: its conditional save sees the version it loaded
    let a_out = update_document(&a_loaded, Label::Positive).unwrap();
    assert_eq!(a_seen, version);
    stored = a_out;
    version += 1;

    // B's save is refused: the version moved; B retries from a fresh load
    let b_out = update_document(&b_loaded, Label::Positive).unwrap();
    assert_ne!(b_seen, version);
    let _refused = b_out;
    let b_seen: u64 = version;
    let b_loaded = stored.clone();
    let b_out = update_document(&b_loaded, Label::Positive).unwrap();
    assert_eq!(b_seen, version);
    stored = b_out;
    version += 1;

    assert_eq!(version, 2);
    assert_eq!(count_of(&stored, Label::Positive), 3); // both increments kept
}

#[test]
fn serialized_commits_add_their_multiplicities() {
    // Each committed write is the increment of its predecessor, so any
    // commit order adds exactly the per-label commit counts.
    let mut stored = b"Negative,2\nPositive,5\n".to_vec();
    let commits = [
        Label::Positive,
        Label::Negative,
        Label::Positive,
        Label::Positive,
    ];
    for l in commits {
        stored = update_document(&stored, l).unwrap();
    }
    assert_eq!(count_of(&stored, Label::Positive), 8);
    assert_eq!(count_of(&stored, Label::Negative), 3);
}
