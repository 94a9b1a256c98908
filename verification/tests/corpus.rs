use mdstack::corpus::{
    decode_and_apply, decode_fields, fast_books, fold, reference_books, resting_orders, warm, Corpus,
    Packet, BATCH,
};
use mdstack::digest::BookDigest;
use mdstack::feed::WireSizes;
use mdstack::message::{Message, Side, Snapshot, SnapshotOrder};
use mdstack::view::BookSet;

fn shown(c: &Corpus) -> String {
    format!("{:?}", c.datagrams())
}

/// The corpus has to be identical from one build to the next.
#[test]
fn the_corpus_is_reproducible_from_its_seed() {
    let a = Corpus::build(16, 0xBE7C_0DE5);
    let b = Corpus::build(16, 0xBE7C_0DE5);
    assert_eq!(shown(&a), shown(&b));
    assert_eq!(a.messages(), 16 * usize::from(BATCH));

    let c = Corpus::build(16, 0xBE7C_0DE6);
    assert_ne!(
        shown(&a),
        shown(&c),
        "a different seed must produce a different corpus, or the seed is not doing anything"
    );
}

#[test]
fn decoding_actually_reads_every_field() {
    let corpus = Corpus::build(8, 0xBE7C_0DE5);
    let mut folded = 0u64;
    for d in corpus.datagrams() {
        folded = fold(folded, decode_fields(d));
    }
    assert_ne!(folded, 0, "the decode produced nothing");
    assert_ne!(
        folded, 0xcbf2_9ce4_8422_2325,
        "the checksum is still the FNV seed, so no field was ever folded in"
    );

    // Perturbing a field must change the answer.
    let d = &corpus.datagrams()[0];
    let mut messages = d.messages.clone();
    if let Message::AddOrder { order_id, .. } = &mut messages[0] {
        *order_id ^= 0x01;
    } else {
        panic!("the first message of a corpus is an add");
    }
    let tampered = Packet { first_sequence: d.first_sequence, messages };
    assert_ne!(
        decode_fields(d),
        decode_fields(&tampered),
        "flipping a bit of the first orderId did not change the decode checksum, \
         so the benchmark is not decoding the payload"
    );

    // And two different corpora must differ, which catches a decode that
    // returns something constant regardless of input.
    let other = Corpus::build(8, 0xBE7C_0DE6);
    let mut other_folded = 0u64;
    for d in other.datagrams() {
        other_folded = fold(other_folded, decode_fields(d));
    }
    assert_ne!(folded, other_folded);
}

#[test]
fn the_two_workloads_are_not_secretly_the_same_thing() {
    let corpus = Corpus::build(8, 0xBE7C_0DE5);
    let mut books = fast_books();
    for d in corpus.datagrams() {
        let _ = decode_and_apply(&mut books, d);
    }
    assert!(
        resting_orders(&books) > 50,
        "applying the corpus left {} orders resting; the book work is not happening",
        resting_orders(&books)
    );
    books.check_invariants().unwrap();
}

#[test]
fn both_books_reach_the_same_state_on_the_corpus() {
    let corpus = Corpus::build(32, 0xBE7C_0DE5);
    let mut fast = fast_books();
    let mut slow = reference_books();
    for d in corpus.datagrams() {
        let a = decode_and_apply(&mut fast, d);
        let b = decode_and_apply(&mut slow, d);
        assert_eq!(a, b, "the two books disagreed about which messages applied");
    }
    assert_eq!(BookDigest::of(&fast), BookDigest::of(&slow));
}

#[test]
fn the_corpus_carries_a_mix_of_message_types() {
    let corpus = Corpus::build(64, 0xBE7C_0DE5);
    let mut adds = 0;
    let mut deletes = 0;
    let mut modifies = 0;
    let mut trades = 0;
    for d in corpus.datagrams() {
        for m in &d.messages {
            match m {
                Message::AddOrder { .. } => adds += 1,
                Message::DeleteOrder { .. } => deletes += 1,
                Message::ModifyOrder { .. } => modifies += 1,
                Message::Trade { .. } => trades += 1,
                _ => {}
            }
        }
    }
    assert!(adds > 0 && deletes > 0 && modifies > 0 && trades > 0);
    assert!(
        adds < corpus.messages(),
        "the corpus is all AddOrder, so the branch predictor never has to work"
    );
}

#[test]
fn the_batch_factor_is_what_the_corpus_actually_uses() {
    let corpus = Corpus::build(4, 1);
    for d in corpus.datagrams() {
        assert_eq!(d.messages.len(), usize::from(BATCH));
    }
}

#[test]
fn a_workload_is_as_long_as_its_messages() {
    let sizes = WireSizes {
        packet_header: 24,
        add_order: 1,
        modify_order: 1,
        delete_order: 1,
        trade: 1,
        heartbeat: 1,
    };
    assert_eq!(Corpus::build(3, 5).bytes(sizes), 3 * (24 + 32));
    assert_eq!(Corpus::build(0, 5).bytes(sizes), 0);
}

#[test]
fn warming_applies_the_first_packets() {
    let corpus = Corpus::build(8, 3);
    let mut a = reference_books();
    let mut b = reference_books();
    warm(&mut a, &corpus, 5);
    for d in corpus.datagrams().iter().take(5) {
        let _ = decode_and_apply(&mut b, d);
    }
    assert_eq!(BookDigest::of(&a), BookDigest::of(&b));
    warm(&mut b, &corpus, 0);
    assert_eq!(BookDigest::of(&a), BookDigest::of(&b));
}

#[test]
fn a_checksum_folds_sequence_and_fields_in_order() {
    let orders = vec![SnapshotOrder { order_id: 11, price: -5, quantity: 2, side: Some(Side::Ask) }];
    let p = Packet {
        first_sequence: 9,
        messages: vec![
            Message::Heartbeat { last_sequence: 4 },
            Message::Snapshot(Snapshot { last_sequence: 3, symbol_id: 7, orders }),
        ],
    };
    let mut want = 0xcbf2_9ce4_8422_2325u64;
    for v in [9u64, 10, 3, 11, -5i64 as u64] {
        want = fold(want, v);
    }
    assert_eq!(decode_fields(&p), want);
    assert_eq!(fold(2, 3), 0x0000_0100_0000_01b3);
}
