use patchy::hash::{compute_hash_strong, compute_hash_weak, Hash128, RollingHash};
use patchy::patchy::{
    apply_patch, build_patch, compute_blocks, compute_diff, testing_optimize_copy_cmds, CopyCmd,
    Patch, PatchCommands, PatchError, DEFAULT_BLOCK_SIZE,
};

fn pipeline(base: &[u8], other: &[u8], block_size: usize) -> Patch {
    let blocks = compute_blocks(other, block_size);
    let commands = compute_diff(base, &blocks, block_size);
    build_patch(other, &commands)
}

#[test]
fn rolling_hash_known_values() {
    // one byte 0: term = 31, a = 31, b = 31
    assert_eq!(compute_hash_weak(&[0u8]), (31 << 16) | 31);
    // "abc": terms 128, 129, 130; a = 387, b = 128 + 257 + 387 = 772
    assert_eq!(compute_hash_weak(b"abc"), (772 << 16) | 387);
    // empty input hashes to zero
    assert_eq!(compute_hash_weak(b""), 0);
    // a high byte: the bias is added whole, wrapping only at 16 bits,
    // so byte 230 contributes 261, not (230 + 31) mod 256
    assert_eq!(compute_hash_weak(&[230u8]), (261 << 16) | 261);
    // bytes 230, 255: terms 261, 286; a = 547, b = 261 + 547 = 808
    assert_eq!(compute_hash_weak(&[230u8, 255u8]), (808 << 16) | 547);
}

#[test]
fn rolling_hash_split_equivalence() {
    // feeding the bytes whole, in two parts, or one at a time gives one hash
    let data = b"the quick brown fox jumps over the lazy dog";
    let mut whole = RollingHash::new();
    whole.update(data);
    let mut split = RollingHash::new();
    split.update(&data[..7]);
    split.update(&data[7..]);
    let mut single = RollingHash::new();
    for &b in data.iter() {
        single.add(b);
    }
    assert_eq!(whole.get(), split.get());
    assert_eq!(whole.get(), single.get());
    assert_eq!(whole.count(), data.len());
}

#[test]
fn rolling_hash_slide_matches_fresh() {
    // sliding the window one byte forward equals hashing the window fresh
    let data = b"abcdefgh";
    let mut h = RollingHash::new();
    h.update(&data[0..4]);
    h.sub(data[0]);
    h.add(data[4]);
    assert_eq!(h.get(), compute_hash_weak(&data[1..5]));
    assert_eq!(h.count(), 4);
}

#[test]
fn strong_hash_known_vector() {
    // the leading 16 bytes of the BLAKE3 digest of the empty input
    let h = compute_hash_strong(b"");
    assert_eq!(h.to_hex_string(), "af1349b9f5f9a1a6a0404dea36dcc949");
}

#[test]
fn strong_hash_depends_on_input() {
    let a = compute_hash_strong(b"ab");
    let b = compute_hash_strong(b"ba");
    assert!(a != b);
    assert!(a == compute_hash_strong(b"ab"));
    assert_eq!(a.as_bytes().len(), 16);
    // the digest is not the input carried through
    assert!(&a.as_bytes()[0..2] != b"ab");
}

#[test]
fn hash128_zero_and_hex() {
    let z = Hash128::new_zero();
    assert_eq!(z.as_bytes(), &[0u8; 16]);
    assert_eq!(z.to_hex_string(), "00000000000000000000000000000000");
}

#[test]
fn compute_blocks_shapes() {
    let blocks = compute_blocks(b"abcdefg", 3);
    assert_eq!(blocks.len(), 3);
    assert_eq!((blocks[0].offset, blocks[0].size), (0, 3));
    assert_eq!((blocks[1].offset, blocks[1].size), (3, 3));
    assert_eq!((blocks[2].offset, blocks[2].size), (6, 1));
    assert_eq!(blocks[0].hash_weak, compute_hash_weak(b"abc"));
    assert!(blocks[0].hash_strong == compute_hash_strong(b"abc"));
    assert!(blocks[2].hash_strong == compute_hash_strong(b"g"));
    assert_eq!(compute_blocks(b"", 4).len(), 0);
    assert_eq!(DEFAULT_BLOCK_SIZE, 2048);
}

#[test]
fn scenario_identical_inputs() {
    // identical base and other: the differ reports synchronization and the
    // built patch carries nothing; applying it yields a zero-filled buffer
    let text = b"the quick brown fox";
    let blocks = compute_blocks(text, 4);
    let commands = compute_diff(text, &blocks, 4);
    assert!(commands.is_synchronized());
    let patch = build_patch(text, &commands);
    assert!(patch.data.is_empty());
    assert!(patch.base.is_empty());
    assert!(patch.other.is_empty());
    assert_eq!(patch.other_size, text.len() as u64);
    let out = apply_patch(text, &patch).unwrap();
    assert_eq!(out, vec![0u8; text.len()]);
}

#[test]
fn scenario_prefix_insertion() {
    let base = b"abcdefgh";
    let other = b"XXabcdefgh";
    let patch = pipeline(base, other, 2);
    assert_eq!(patch.data, b"XX".to_vec());
    assert_eq!(patch.other.len(), 1);
    assert_eq!(
        (patch.other[0].source, patch.other[0].target, patch.other[0].size),
        (0, 0, 2)
    );
    // the four two-byte base copies coalesce into one eight-byte copy
    assert_eq!(patch.base.len(), 1);
    assert_eq!(
        (patch.base[0].source, patch.base[0].target, patch.base[0].size),
        (0, 2, 8)
    );
    assert_eq!(apply_patch(base, &patch).unwrap(), other.to_vec());
}

#[test]
fn scenario_middle_replacement() {
    let base = b"abcdefgh";
    let other = b"abcXXfgh";
    let patch = pipeline(base, other, 2);
    // only the block-aligned "ab" and "gh" match; "cX" and "Xf" ship whole
    assert_eq!(patch.data, b"cXXf".to_vec());
    assert_eq!(patch.other.len(), 1);
    assert_eq!(
        (patch.other[0].source, patch.other[0].target, patch.other[0].size),
        (0, 2, 4)
    );
    assert_eq!(patch.base.len(), 2);
    assert_eq!(
        (patch.base[0].source, patch.base[0].target, patch.base[0].size),
        (0, 0, 2)
    );
    assert_eq!(
        (patch.base[1].source, patch.base[1].target, patch.base[1].size),
        (6, 6, 2)
    );
    assert_eq!(apply_patch(base, &patch).unwrap(), other.to_vec());
}

#[test]
fn scenario_empty_base() {
    let base = b"";
    let other = b"hello";
    let patch = pipeline(base, other, 2);
    assert_eq!(patch.data, b"hello".to_vec());
    assert!(patch.base.is_empty());
    // the three residual copies coalesce into one
    assert_eq!(patch.other.len(), 1);
    assert_eq!(
        (patch.other[0].source, patch.other[0].target, patch.other[0].size),
        (0, 0, 5)
    );
    assert_eq!(patch.other_size, 5);
    assert_eq!(apply_patch(base, &patch).unwrap(), other.to_vec());
}

#[test]
fn scenario_empty_other() {
    let base = b"hello";
    let other = b"";
    let patch = pipeline(base, other, 2);
    assert!(patch.data.is_empty());
    assert!(patch.base.is_empty());
    assert!(patch.other.is_empty());
    assert_eq!(patch.other_size, 0);
    assert_eq!(apply_patch(base, &patch).unwrap(), Vec::<u8>::new());
}

#[test]
fn scenario_repeated_base_content() {
    let base = b"abcdabcd";
    let other = b"abcd";
    let patch = pipeline(base, other, 2);
    assert!(patch.data.is_empty());
    assert!(patch.other.is_empty());
    // both blocks match; the two copies coalesce into one four-byte copy;
    // the scan records the last occurrence of each block, at offset 4
    assert_eq!(patch.base.len(), 1);
    assert_eq!(
        (patch.base[0].source, patch.base[0].target, patch.base[0].size),
        (4, 0, 4)
    );
    assert_eq!(apply_patch(base, &patch).unwrap(), other.to_vec());
}

#[test]
fn round_trip_various_inputs() {
    let cases: Vec<(&[u8], &[u8])> = vec![
        (b"abcdefghijklmnop", b"abcdefghijklmnop!!"),
        (b"hello world, hello world", b"hello world, goodbye world"),
        (b"", b""),
        (b"aaaa", b"aaaaaaaa"),
        (b"0123456789", b"9876543210"),
        (b"same", b"same"),
    ];
    for (base, other) in cases {
        for block_size in [1usize, 2, 3, 5, 2048] {
            let blocks = compute_blocks(other, block_size);
            let commands = compute_diff(base, &blocks, block_size);
            if commands.is_synchronized() {
                // the synchronized outcome signals bytewise equality instead
                // of reconstructing
                assert_eq!(base, other);
                continue;
            }
            let patch = build_patch(other, &commands);
            // residual monotonicity
            assert!(patch.data.len() <= other.len());
            let total: u64 = patch.other.iter().map(|c| c.size as u64).sum();
            assert_eq!(patch.data.len() as u64, total);
            // tiling: every target byte written exactly once
            let mut counts = vec![0u32; other.len()];
            for c in patch.base.iter().chain(patch.other.iter()) {
                for i in 0..c.size as usize {
                    counts[c.target as usize + i] += 1;
                }
            }
            assert!(counts.iter().all(|&n| n == 1));
            assert_eq!(apply_patch(base, &patch).unwrap(), other.to_vec());
        }
    }
}

#[test]
fn residual_needs_bytes() {
    let commands = PatchCommands {
        base: vec![CopyCmd { source: 0, target: 0, size: 3 }],
        other: vec![
            CopyCmd { source: 3, target: 3, size: 2 },
            CopyCmd { source: 5, target: 5, size: 4 },
        ],
    };
    assert_eq!(commands.need_bytes_from_base(), 3);
    assert_eq!(commands.need_bytes_from_other(), 6);
    assert!(!commands.is_synchronized());
    assert!(PatchCommands::new().is_synchronized());
}

#[test]
fn coalesce_merges_and_drops() {
    let mut cmds = vec![
        CopyCmd { source: 10, target: 4, size: 2 },
        CopyCmd { source: 8, target: 2, size: 2 },
        CopyCmd { source: 50, target: 9, size: 0 },
        CopyCmd { source: 20, target: 6, size: 3 },
    ];
    testing_optimize_copy_cmds(&mut cmds);
    // sources 8 and 10 are contiguous exactly as targets 2 and 4 are
    assert_eq!(cmds.len(), 2);
    assert_eq!((cmds[0].source, cmds[0].target, cmds[0].size), (8, 2, 4));
    assert_eq!((cmds[1].source, cmds[1].target, cmds[1].size), (20, 6, 3));
}

#[test]
fn coalesce_drops_lone_empty_command() {
    let mut cmds = vec![CopyCmd { source: 7, target: 3, size: 0 }];
    testing_optimize_copy_cmds(&mut cmds);
    assert!(cmds.is_empty());
    let mut kept = vec![CopyCmd { source: 7, target: 3, size: 1 }];
    testing_optimize_copy_cmds(&mut kept);
    assert_eq!(kept.len(), 1);
    let mut none: Vec<CopyCmd> = vec![];
    testing_optimize_copy_cmds(&mut none);
    assert!(none.is_empty());
}

#[test]
fn coalesce_idempotent_on_positive_sizes() {
    let start = vec![
        CopyCmd { source: 0, target: 6, size: 2 },
        CopyCmd { source: 7, target: 0, size: 3 },
        CopyCmd { source: 10, target: 3, size: 3 },
    ];
    let mut once = start.clone();
    testing_optimize_copy_cmds(&mut once);
    let mut twice = once.clone();
    testing_optimize_copy_cmds(&mut twice);
    assert_eq!(once.len(), twice.len());
    for (a, b) in once.iter().zip(twice.iter()) {
        assert_eq!((a.source, a.target, a.size), (b.source, b.target, b.size));
    }
}

#[test]
fn coalesce_preserves_application() {
    // applying before and after coalescing writes the same bytes
    let source: Vec<u8> = (0u8..32).collect();
    let cmds = vec![
        CopyCmd { source: 4, target: 8, size: 2 },
        CopyCmd { source: 0, target: 4, size: 4 },
        CopyCmd { source: 6, target: 10, size: 2 },
        CopyCmd { source: 20, target: 0, size: 4 },
    ];
    let mut plain = vec![0u8; 12];
    for c in &cmds {
        let s = c.source as usize;
        let t = c.target as usize;
        let n = c.size as usize;
        plain[t..t + n].copy_from_slice(&source[s..s + n]);
    }
    let mut coalesced_cmds = cmds.clone();
    testing_optimize_copy_cmds(&mut coalesced_cmds);
    assert!(coalesced_cmds.len() < cmds.len());
    let patch = Patch { data: source.clone(), base: vec![], other: coalesced_cmds, other_size: 12 };
    let out = apply_patch(b"", &patch).unwrap();
    assert_eq!(out, plain);
}

#[test]
fn apply_rejects_malformed_patches() {
    // a base copy reaching past the base buffer
    let patch = Patch {
        data: vec![],
        base: vec![CopyCmd { source: 3, target: 0, size: 4 }],
        other: vec![],
        other_size: 4,
    };
    assert_eq!(apply_patch(b"abcd", &patch), Err(PatchError::MalformedPatch));
    // a target range past the reconstruction length
    let patch = Patch {
        data: vec![1, 2, 3],
        base: vec![],
        other: vec![CopyCmd { source: 0, target: 2, size: 3 }],
        other_size: 4,
    };
    assert_eq!(apply_patch(b"", &patch), Err(PatchError::MalformedPatch));
    // a residual copy reaching past the carried data
    let patch = Patch {
        data: vec![1, 2],
        base: vec![],
        other: vec![CopyCmd { source: 1, target: 0, size: 2 }],
        other_size: 2,
    };
    assert_eq!(apply_patch(b"", &patch), Err(PatchError::MalformedPatch));
    // the same command inside bounds is accepted
    let patch = Patch {
        data: vec![1, 2],
        base: vec![],
        other: vec![CopyCmd { source: 0, target: 0, size: 2 }],
        other_size: 2,
    };
    assert_eq!(apply_patch(b"", &patch), Ok(vec![1, 2]));
}

#[test]
fn large_block_size_single_block() {
    let base = b"some shared content here";
    let other = b"some shared content here plus a tail";
    let patch = pipeline(base, other, DEFAULT_BLOCK_SIZE);
    // one block, no whole-block match: everything ships as residual
    assert_eq!(patch.data, other.to_vec());
    assert_eq!(apply_patch(base, &patch).unwrap(), other.to_vec());
}
