use miden_crypto::hash::blake::Blake3_256;
use miden_mast::ids::DecoratorId;
use miden_mast::node_fingerprint::{MastNodeFingerprint, basic_block_fingerprint};
use miden_mast::op_padding::OpBatch;

/// One batch: group 0 holds 3 operations; group 1 holds 1 operation and a padding.
fn padded_batch() -> OpBatch {
    OpBatch {
        indptr: [0, 3, 5, 5, 5, 5, 5, 5, 5],
        padding: [false, true, false, false, false, false, false, false],
        num_groups: 2,
    }
}

const DIGEST: [u64; 4] = [11, 12, 13, 14];

#[test]
fn block_without_decorators_or_assertions_has_no_decorator_root() {
    let fps = [[1u8; 32]];
    let r = basic_block_fingerprint(&fps, &[padded_batch()], &[], &[], &[], &[], DIGEST);
    assert_eq!(r, MastNodeFingerprint::new(DIGEST));
    assert_eq!(r.mast_root(), &DIGEST);
}

#[test]
fn block_fingerprint_hashes_decorators_at_raw_indices_then_assertions() {
    let fps = [[1u8; 32], [2u8; 32]];
    // Padded index 5 is the end of the block: 4 raw operations and one padding before it.
    let decorators = [(0usize, DecoratorId(0)), (5, DecoratorId(1))];
    let asserts = [(3usize, 0b0000_0110u8, 7u64)];
    let r = basic_block_fingerprint(
        &fps,
        &[padded_batch()],
        &asserts,
        &[DecoratorId(1)],
        &decorators,
        &[DecoratorId(0)],
        DIGEST,
    );
    let mut bytes = Vec::new();
    bytes.extend([2u8; 32]);
    bytes.extend(0u64.to_le_bytes());
    bytes.extend([1u8; 32]);
    bytes.extend(4u64.to_le_bytes());
    bytes.extend([2u8; 32]);
    bytes.extend([1u8; 32]);
    bytes.push(0b0000_0110);
    bytes.extend(3u32.to_le_bytes());
    bytes.extend(7u64.to_le_bytes());
    let root: [u8; 32] = Blake3_256::hash(&bytes).into();
    assert_eq!(r, MastNodeFingerprint::with_decorator_root(DIGEST, root));
}

#[test]
fn assertions_alone_give_a_decorator_root() {
    let fps: [[u8; 32]; 0] = [];
    let r = basic_block_fingerprint(&fps, &[padded_batch()], &[(0, 9, 1)], &[], &[], &[], DIGEST);
    let mut bytes = vec![9u8];
    bytes.extend(0u32.to_le_bytes());
    bytes.extend(1u64.to_le_bytes());
    let root: [u8; 32] = Blake3_256::hash(&bytes).into();
    assert_eq!(r, MastNodeFingerprint::with_decorator_root(DIGEST, root));
    assert_ne!(r, MastNodeFingerprint::new(DIGEST));
}

/// One batch holding the two operations of a block in a single group.
fn two_op_batch() -> OpBatch {
    OpBatch {
        indptr: [0, 2, 2, 2, 2, 2, 2, 2, 2],
        padding: [false; 8],
        num_groups: 1,
    }
}

/// One batch holding one operation.
fn one_op_batch() -> OpBatch {
    OpBatch {
        indptr: [0, 1, 1, 1, 1, 1, 1, 1, 1],
        padding: [false; 8],
        num_groups: 1,
    }
}

// Distinct opcodes standing for the three assertion operations.
const ASSERT: u8 = 0;
const U32ASSERT2: u8 = 1;
const MPVERIFY: u8 = 2;

#[test]
fn basic_block_fingerprint_different_before_decorators() {
    let fps = [[1u8; 32], [2u8; 32]];
    let fp1 =
        basic_block_fingerprint(&fps, &[two_op_batch()], &[], &[DecoratorId(0)], &[], &[], DIGEST);
    let fp2 =
        basic_block_fingerprint(&fps, &[two_op_batch()], &[], &[DecoratorId(1)], &[], &[], DIGEST);
    assert_ne!(fp1, fp2);
}

#[test]
fn basic_block_fingerprint_different_after_decorators() {
    let fps = [[1u8; 32], [2u8; 32]];
    let fp1 =
        basic_block_fingerprint(&fps, &[two_op_batch()], &[], &[], &[], &[DecoratorId(0)], DIGEST);
    let fp2 =
        basic_block_fingerprint(&fps, &[two_op_batch()], &[], &[], &[], &[DecoratorId(1)], DIGEST);
    assert_ne!(fp1, fp2);
}

#[test]
fn basic_block_fingerprint_different_assert_opcodes_no_decorators() {
    let fps: [[u8; 32]; 0] = [];
    let fp = |opcode: u8| {
        basic_block_fingerprint(&fps, &[one_op_batch()], &[(0, opcode, 42)], &[], &[], &[], DIGEST)
    };
    let fp_assert = fp(ASSERT);
    let fp_u32assert2 = fp(U32ASSERT2);
    let fp_mpverify = fp(MPVERIFY);
    assert_ne!(fp_assert, fp_u32assert2);
    assert_ne!(fp_assert, fp_mpverify);
    assert_ne!(fp_u32assert2, fp_mpverify);
}

#[test]
fn basic_block_fingerprint_different_assert_values_no_decorators() {
    let fps: [[u8; 32]; 0] = [];
    let fp = |opcode: u8, value: u64| {
        basic_block_fingerprint(&fps, &[one_op_batch()], &[(0, opcode, value)], &[], &[], &[], DIGEST)
    };
    assert_ne!(fp(ASSERT, 42), fp(ASSERT, 123));
    assert_ne!(fp(U32ASSERT2, 42), fp(U32ASSERT2, 123));
    assert_ne!(fp(MPVERIFY, 42), fp(MPVERIFY, 123));
}
