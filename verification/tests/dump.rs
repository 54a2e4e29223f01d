//! Dump and load roundtrips: single and multiple roots, named roots, the absorb
//! merge, and the errors.

use vwbdd::{DumpError, Manager, Ref};

// Helper: build a small BDD and return a canonical `Ref`.
fn build_formula(m: &mut Manager) -> Ref {
    // (x0 ∧ x1) ∨ (¬x0 ∧ x2)
    let _ = m.new_var();
    let _ = m.new_var();
    let _ = m.new_var();
    let f = m.false_();
    let t = m.true_();
    let x0 = m.make_node(0, f, t);
    let x1 = m.make_node(1, f, t);
    let x2 = m.make_node(2, f, t);
    let a = m.and(x0, x1);
    let nx0 = m.not(x0);
    let b = m.and(nx0, x2);
    m.or(a, b)
}

fn build_formula_labeled(m: &mut Manager) -> (Ref, Ref, Ref) {
    // Variables as above.
    let _ = m.new_var();
    let _ = m.new_var();
    let _ = m.new_var();
    let f = m.false_();
    let t = m.true_();
    let x0 = m.make_node(0, f, t);
    let x1 = m.make_node(1, f, t);
    let x2 = m.make_node(2, f, t);
    let ab = m.and(x0, x1);
    let xy = m.or(x0, x2);
    let xyz = m.xor(x1, x2);
    (ab, xy, xyz)
}

#[test]
fn single_root_roundtrip() {
    let mut m1 = Manager::new();
    let r = build_formula(&mut m1);
    let before_nodes = m1.num_nodes();
    let before_buf_len = m1.buf_len();

    // Separately, compute the reachable-from-root node count and the
    // byte size those nodes take. Under the clean-bytes invariant,
    // `dump` pre-GCs to the declared roots, so the dumped file holds
    // exactly this cleaned-down subset — not the full construction
    // history.
    let mut m_reference = Manager::new();
    let r_ref = build_formula(&mut m_reference);
    let _ = m_reference.drop_roots(&[r_ref]);
    let cleaned_nodes = m_reference.num_nodes();
    let cleaned_buf_len = m_reference.buf_len();
    assert!(
        cleaned_nodes <= before_nodes,
        "cleaned ({}) should be ≤ raw ({})",
        cleaned_nodes, before_nodes
    );

    let dumped = m1.dump(&[r]);

    let (m2, loaded) = Manager::load(&dumped).expect("load");
    assert_eq!(loaded.roots.len(), 1, "single root survived roundtrip");
    assert!(loaded.names.is_none(), "no names dumped → no names loaded");

    // Loaded manager holds the cleaned subset, not the full history.
    assert_eq!(
        m2.num_nodes(), cleaned_nodes,
        "dumped file contained the function-canonical subset: {} nodes (not the {} nodes \
         that existed in the manager's arena before dump)",
        cleaned_nodes, before_nodes
    );
    assert_eq!(m2.buf_len(), cleaned_buf_len);
    // m1 itself was also cleaned by dump (it ran drop_roots internally).
    assert_eq!(m1.num_nodes(), cleaned_nodes);
    assert_eq!(m1.buf_len(), cleaned_buf_len);
    let _ = before_buf_len; // retained for documentation

    // Root should decode as a Node ref pointing into the loaded arena.
    assert!(
        matches!(loaded.roots[0], Ref::Node(_)),
        "OR root is a non-terminal node"
    );
}

#[test]
fn multi_root_roundtrip() {
    let mut m1 = Manager::new();
    let (r1, r2, r3) = build_formula_labeled(&mut m1);

    let dumped = m1.dump(&[r1, r2, r3]);

    let (_m2, loaded) = Manager::load(&dumped).expect("load");
    assert_eq!(loaded.roots.len(), 3);
    assert!(loaded.names.is_none());
}

#[test]
fn named_roots_roundtrip() {
    let mut m1 = Manager::new();
    let (r1, r2, r3) = build_formula_labeled(&mut m1);

    let dumped = m1.dump_named(&[(r1, "and"), (r2, "or"), (r3, "xor")]);

    let (_m2, loaded) = Manager::load(&dumped).expect("load");
    assert_eq!(loaded.roots.len(), 3);
    let names = loaded.names.expect("names block present");
    assert_eq!(names, vec!["and", "or", "xor"]);
}

#[test]
fn absorb_dedupes_shared_subgraphs() {
    // Two workers each build a formula. Both formulas share the subgraph
    // (x0 ∧ x1). When the parent absorbs both dumps, the unique table
    // should collapse the shared piece to a single node.
    // Worker A: dumps just (x0 ∧ x1).
    let mut wa = Manager::new();
    let (ra, _, _) = build_formula_labeled(&mut wa);
    let dump_a = wa.dump(&[ra]);

    // Worker B: dumps (x0 ∧ x1) ∨ x2 — shares (x0 ∧ x1) with A.
    let mut wb = Manager::new();
    let _v0 = wb.new_var();
    let _v1 = wb.new_var();
    let _v2 = wb.new_var();
    let f = wb.false_();
    let t = wb.true_();
    let x0 = wb.make_node(0, f, t);
    let x1 = wb.make_node(1, f, t);
    let x2 = wb.make_node(2, f, t);
    let ab = wb.and(x0, x1);
    let rb = wb.or(ab, x2);
    let dump_b = wb.dump(&[rb]);

    // Parent: fresh, declare matching variables, absorb both.
    let mut parent = Manager::new();
    let _ = parent.new_var();
    let _ = parent.new_var();
    let _ = parent.new_var();
    assert_eq!(parent.num_nodes(), 0);

    let roots_a = parent.absorb(&dump_a).expect("absorb a");
    let after_a = parent.num_nodes();
    assert!(after_a > 0);

    let roots_b = parent.absorb(&dump_b).expect("absorb b");
    let after_b = parent.num_nodes();

    // Reference: build both formulas directly in a single manager. The
    // node count after absorbing A + B must match the single-manager
    // build, because the unique table deduplicates (x0 ∧ x1).
    let mut reference = Manager::new();
    let _ = reference.new_var();
    let _ = reference.new_var();
    let _ = reference.new_var();
    let rf = reference.false_();
    let rt = reference.true_();
    let rx0 = reference.make_node(0, rf, rt);
    let rx1 = reference.make_node(1, rf, rt);
    let rx2 = reference.make_node(2, rf, rt);
    let ref_ab = reference.and(rx0, rx1);
    let _ref_b = reference.or(ref_ab, rx2);
    // Now gc to retain both roots (ref_ab and _ref_b).
    let _ = reference.gc(0, &[ref_ab, _ref_b]);

    // After absorbing both, parent should hold exactly the same live set
    // (arena may have different layout but the canonical node set is
    // identical). Easier: just run gc on the absorbed parent too and
    // compare live counts.
    let _ = parent.gc(0, &[roots_a[0], roots_b[0]]);

    assert_eq!(
        parent.num_nodes(),
        reference.num_nodes(),
        "absorb dedup: parent node count after absorbing both ({}) \
         matches single-manager reference ({}). \
         after_a={}, after_b={}",
        parent.num_nodes(), reference.num_nodes(),
        after_a, after_b,
    );
    assert_eq!(roots_a.len(), 1);
    assert_eq!(roots_b.len(), 1);
}

#[test]
fn load_detects_bad_magic() {
    // Build a file whose CRC matches but whose magic bytes don't. CRC is
    // validated first (as the outermost integrity check), so a bad-magic
    // file must have a correct CRC to reach the magic-check branch.
    let body = b"NOT_VWBDD\0\0\0\0\0\0\0\0\0\0\0\0\0\0\0\0\0\0\0\0\0\0\0\0\0\0\0";
    let mut bytes = body.to_vec();
    // Append correct CRC for the body.
    let crc_placeholder = {
        // compute the CRC from its definition.
        let mut crc = 0xffff_ffffu32;
        let table: [u32; 256] = {
            let mut t = [0u32; 256];
            for i in 0..256 {
                let mut c = i as u32;
                for _ in 0..8 {
                    c = if c & 1 != 0 { 0xedb88320 ^ (c >> 1) } else { c >> 1 };
                }
                t[i] = c;
            }
            t
        };
        for &b in &bytes {
            crc = table[((crc ^ b as u32) & 0xff) as usize] ^ (crc >> 8);
        }
        crc ^ 0xffff_ffff
    };
    bytes.extend_from_slice(&crc_placeholder.to_le_bytes());
    let err = Manager::load(&bytes).err().expect("load should fail");
    assert!(matches!(err, DumpError::BadMagic), "got: {:?}", err);
}

#[test]
fn load_detects_crc_mismatch() {
    let mut m = Manager::new();
    let r = build_formula(&mut m);
    let mut bytes = m.dump(&[r]);

    // Corrupt one byte in the middle of the file.
    let mid = bytes.len() / 2;
    bytes[mid] ^= 0xff;

    let err = Manager::load(&bytes).err().expect("load should fail");
    assert!(
        matches!(err, DumpError::CrcMismatch { .. }),
        "got: {:?}",
        err
    );
}

#[test]
fn load_detects_truncation() {
    let mut m = Manager::new();
    let r = build_formula(&mut m);
    let mut bytes = m.dump(&[r]);

    // Chop the file in half.
    bytes.truncate(bytes.len() / 2);

    let err = Manager::load(&bytes).err().expect("load should fail");
    // Could be CrcMismatch (the trailing 4 bytes we read aren't really
    // the CRC of the body) or Truncated depending on where we cut.
    assert!(
        matches!(err, DumpError::CrcMismatch { .. } | DumpError::Truncated),
        "got: {:?}",
        err
    );
}

#[test]
fn load_then_reuse_in_operations() {
    // Loaded manager must be a fully functional engine, not just a bag
    // of bytes. Round-trip + do more work on top.
    let mut m1 = Manager::new();
    let r = build_formula(&mut m1);
    let dumped = m1.dump(&[r]);

    let (mut m2, loaded) = Manager::load(&dumped).expect("load");
    let loaded_root = loaded.roots[0];
    // Do a fresh operation post-load.
    let not_root = m2.not(loaded_root);
    let should_be_true = m2.or(loaded_root, not_root);
    assert_eq!(
        should_be_true,
        m2.true_(),
        "p ∨ ¬p must reduce to true on a loaded engine"
    );
}

/// A dump of the formula, with its checksum taken off.
fn dump_body() -> Vec<u8> {
    let mut m = Manager::new();
    let r = build_formula(&mut m);
    let mut bytes = m.dump_named(&[(r, "f")]);
    bytes.truncate(bytes.len() - 4);
    bytes
}

/// `body` with its checksum behind it.
fn seal(mut body: Vec<u8>) -> Vec<u8> {
    let crc = vwbdd::wire::crc32(&body);
    body.extend_from_slice(&crc.to_le_bytes());
    body
}

#[test]
fn crc_of_known_text() {
    assert_eq!(vwbdd::wire::crc32(b"123456789"), 0xcbf4_3926);
    assert_eq!(vwbdd::wire::crc32(b""), 0);
}

#[test]
fn dump_layout_is_exact() {
    let mut m = Manager::new();
    m.new_var();
    let (f, t) = (m.false_(), m.true_());
    let x = m.make_node(0, f, t);
    let bytes = m.dump_named(&[(x, "x"), (t, "one")]);
    let mut expected: Vec<u8> = b"VWBDD\0\0\0".to_vec();
    expected.extend_from_slice(&[1, 0]); // version
    expected.extend_from_slice(&[8, 1]); // offset width, flags
    expected.extend_from_slice(&[1, 0, 0, 0]); // variables
    expected.extend_from_slice(&[2, 0, 0, 0]); // roots
    expected.extend_from_slice(&[3, 0, 0, 0, 0, 0, 0, 0]); // arena length
    expected.extend_from_slice(&[0, 0, 0, 0]); // reserved
    expected.extend_from_slice(&[0, 0, 1]); // the node
    expected.extend_from_slice(&[2, 0, 0, 0, 0, 0, 0, 0]); // the node at 0
    expected.extend_from_slice(&[1, 0, 0, 0, 0, 0, 0, 0]); // true
    expected.extend_from_slice(&[1, 0, b'x', 3, 0, b'o', b'n', b'e']);
    assert_eq!(bytes, seal(expected));
}

#[test]
fn names_need_not_be_ascii() {
    let mut m = Manager::new();
    let (r1, r2, r3) = build_formula_labeled(&mut m);
    let dumped = m.dump_named(&[(r1, ""), (r2, "größer"), (r3, "日本語")]);
    let (_, loaded) = Manager::load(&dumped).expect("load");
    assert_eq!(loaded.names.unwrap(), vec!["", "größer", "日本語"]);
}

#[test]
fn every_dump_error_has_an_input() {
    assert_eq!(Manager::load(&[1, 2, 3]).err(), Some(DumpError::Truncated));
    assert_eq!(Manager::load(&seal(vec![0; 31])).err(), Some(DumpError::Truncated));
    assert_eq!(Manager::load(&seal(vec![0; 32])).err(), Some(DumpError::BadMagic));

    let mut body = dump_body();
    body[8] = 0x34;
    body[9] = 0x12;
    assert_eq!(Manager::load(&seal(body)).err(), Some(DumpError::UnsupportedVersion(0x1234)));

    let sealed = seal(dump_body());
    let mut broken = sealed.clone();
    let last = broken.len() - 1;
    broken[last] ^= 0x80;
    let actual = vwbdd::wire::crc32(&dump_body());
    assert_eq!(
        Manager::load(&broken).err(),
        Some(DumpError::CrcMismatch { expected: actual ^ 0x8000_0000, actual })
    );

    // An arena that is said to be longer than the dump.
    let mut body = dump_body();
    body[26] = 1;
    assert_eq!(Manager::load(&seal(body)).err(), Some(DumpError::Truncated));

    // A name that is cut off, one that is missing, and one that is not UTF-8.
    let mut body = dump_body();
    body.truncate(body.len() - 1);
    assert_eq!(Manager::load(&seal(body)).err(), Some(DumpError::MalformedNames));
    let mut body = dump_body();
    body.truncate(body.len() - 3);
    assert_eq!(Manager::load(&seal(body)).err(), Some(DumpError::MalformedNames));
    let mut body = dump_body();
    let last = body.len() - 1;
    body[last] = 0xff;
    assert_eq!(Manager::load(&seal(body.clone())).err(), Some(DumpError::MalformedNames));

    // Malformed names are reported whatever the arena holds.
    let mut both = body.clone();
    both[32] ^= 0xff;
    both[33] = 0xff;
    let sealed = seal(both);
    assert!(vwbdd::dump::can_load(&sealed));
    assert_eq!(Manager::load(&sealed).err(), Some(DumpError::MalformedNames));
    // With names in order, the arena has to be sound.
    let mut unsound = dump_body();
    unsound[33] = 0xff;
    assert!(vwbdd::dump::can_load(&seal(dump_body())));
    assert!(!vwbdd::dump::can_load(&seal(unsound)));

    // Absorbing does not look at names.
    let mut m = Manager::new();
    for _ in 0..3 {
        m.new_var();
    }
    assert_eq!(m.absorb(&seal(body)).expect("absorb").len(), 1);
    assert_eq!(m.absorb(&[0; 3]).err(), Some(DumpError::Truncated));
}

#[test]
fn absorbing_again_adds_nothing() {
    let mut worker = Manager::new();
    let (r1, r2, r3) = build_formula_labeled(&mut worker);
    let dumped = worker.dump(&[r1, r2, r3]);
    let mut parent = Manager::new();
    let r = build_formula(&mut parent);
    let first = parent.absorb(&dumped).expect("absorb");
    let len = parent.buf_len();
    let second = parent.absorb(&dumped).expect("absorb");
    assert_eq!(first, second);
    assert_eq!(parent.buf_len(), len);
    assert!(parent.holds(r));
}

#[test]
fn load_with_a_small_cache() {
    let mut m = Manager::new();
    let r = build_formula(&mut m);
    let dumped = m.dump(&[r]);
    let config = vwbdd::ManagerConfig::new().with_cache_slots(1 << 5);
    let (m2, loaded) = Manager::load_with_config(&dumped, config).expect("load");
    assert_eq!(m2.mem_stats().cache_bytes, 32 * 32);
    assert_eq!(m2.num_vars(), 3);
    assert_eq!(m2.arena_slice(0), m.arena_slice(0));
    assert_eq!(loaded.roots.len(), 1);
    let (m3, _) = Manager::load_generic(&dumped).expect("load");
    assert_eq!(m3.num_nodes(), m2.num_nodes());
}
