use miden_mast::op_padding::{OpBatch, PaddedToRawPrefix, RawToPaddedPrefix};

/// One batch: group 0 holds 3 operations; group 1 holds 1 operation and a padding.
fn padded_batch() -> OpBatch {
    OpBatch {
        indptr: [0, 3, 5, 5, 5, 5, 5, 5, 5],
        padding: [false, true, false, false, false, false, false, false],
        num_groups: 2,
    }
}

#[test]
fn raw_to_padded_counts_paddings_before_each_raw_op() {
    let batches = vec![padded_batch()];
    let prefix = RawToPaddedPrefix::new(&batches);
    assert_eq!(prefix.raw_ops(), 4);
    for r in 0..4 {
        assert_eq!(prefix.index(r), 0);
    }
    assert_eq!(prefix.index(4), 1);
}

#[test]
fn padded_to_raw_counts_paddings_before_each_position() {
    let batches = vec![padded_batch(), padded_batch()];
    let prefix = PaddedToRawPrefix::new(&batches);
    for p in 0..5 {
        assert_eq!(prefix.index(p), 0);
    }
    for p in 5..10 {
        assert_eq!(prefix.index(p), 1);
    }
    assert_eq!(prefix.index(10), 2);
}

#[test]
fn padding_round_trip_on_concrete_batches() {
    let batches = vec![padded_batch(), padded_batch()];
    let raw2pad = RawToPaddedPrefix::new(&batches);
    let pad2raw = PaddedToRawPrefix::new(&batches);
    assert_eq!(raw2pad.raw_ops(), 8);
    for r in 0..raw2pad.raw_ops() {
        let p = r + raw2pad.index(r);
        assert_eq!(p - pad2raw.index(p), r);
    }
}

#[test]
fn no_batches_give_only_the_sentinel() {
    let batches: Vec<OpBatch> = Vec::new();
    let raw2pad = RawToPaddedPrefix::new(&batches);
    assert_eq!(raw2pad.raw_ops(), 0);
    assert_eq!(raw2pad.index(0), 0);
    let pad2raw = PaddedToRawPrefix::new(&batches);
    assert_eq!(pad2raw.index(0), 0);
}
