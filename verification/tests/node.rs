use vwbdd::node::{decode_node_at, decode_var_at, encode_node_at, Node, Ref};
use vwbdd::node::{code_to_ref, fixed, interleaved, per_field, ref_to_code, ref_to_u64};

#[test]
fn node_with_two_terminal_children_roundtrip() {
    // One var total; node has var=0 with both children terminal.
    let mut buf = Vec::new();
    encode_node_at(0, Ref::Terminal(false), Ref::Terminal(true), 0, &mut buf);
    let (node, n) = decode_node_at(&buf, 0);
    assert_eq!(n, buf.len());
    assert_eq!(
        node,
        Node {
            var: 0,
            lo: Ref::Terminal(false),
            hi: Ref::Terminal(true),
        }
    );
}

#[test]
fn node_with_terminal_children_packs_small() {
    // Interleaved: var=0 is 1 LEB byte; children interleave(0, 1) = 2, LEB = 1 byte.
    // Total = 2 bytes.
    let mut buf = Vec::new();
    interleaved::encode_node_at(0, Ref::Terminal(false), Ref::Terminal(true), 0, &mut buf);
    assert_eq!(buf.len(), 2, "simple variable-x node should be 2 bytes");
}

#[test]
fn node_with_terminal_children_packs_small_per_field() {
    // Per-field: var=0, lo_code=0, hi_code=1 — three 1-byte LEBs.
    let mut buf = Vec::new();
    per_field::encode_node_at(0, Ref::Terminal(false), Ref::Terminal(true), 0, &mut buf);
    assert_eq!(buf.len(), 3, "per-field node should be 3 bytes");
}

#[test]
fn node_with_terminal_children_packs_small_fixed() {
    // Fixed: always 12 bytes.
    let mut buf = Vec::new();
    fixed::encode_node_at(0, Ref::Terminal(false), Ref::Terminal(true), 0, &mut buf);
    assert_eq!(buf.len(), 12, "fixed node should be 12 bytes");
}

#[test]
fn stacked_nodes_roundtrip() {
    // Two vars. Node A at offset 0 is var=1 with terminal children.
    // Node B at offset a_len is var=0 with lo=A, hi=true.
    let mut buf = Vec::new();

    encode_node_at(
        1,
        Ref::Terminal(false),
        Ref::Terminal(true),
        0,
        &mut buf,
    );
    let a_len = buf.len();

    let b_off = buf.len() as u64;
    encode_node_at(
        0,
        Ref::Node(0),
        Ref::Terminal(true),
        b_off,
        &mut buf,
    );

    let (a, _) = decode_node_at(&buf, 0);
    assert_eq!(a.var, 1);
    assert_eq!(a.lo, Ref::Terminal(false));
    assert_eq!(a.hi, Ref::Terminal(true));

    let (b, _) = decode_node_at(&buf[a_len..], b_off);
    assert_eq!(b.var, 0);
    assert_eq!(b.lo, Ref::Node(0));
    assert_eq!(b.hi, Ref::Terminal(true));
}

/// A buffer of `len` bytes, to encode a node at offset `len`.
fn padded(len: usize) -> Vec<u8> {
    vec![0u8; len]
}

#[test]
fn every_encoding_gives_back_distant_children() {
    for &off in &[1u64, 5, 126, 127, 130, 20_000] {
        for lo in [Ref::Terminal(false), Ref::Terminal(true), Ref::Node(0), Ref::Node(off - 1)] {
            for hi in [Ref::Terminal(true), Ref::Node(off / 2)] {
                let expected = Node { var: 255, lo, hi };
                let at = off as usize;

                let mut buf = padded(at);
                encode_node_at(255, lo, hi, off, &mut buf);
                assert_eq!(decode_node_at(&buf[at..], off), (expected, buf.len() - at));
                assert_eq!(decode_var_at(&buf[at..], off), (255, 1));

                let mut buf = padded(at);
                interleaved::encode_node_at(255, lo, hi, off, &mut buf);
                assert_eq!(interleaved::decode_node_at(&buf[at..], off), (expected, buf.len() - at));
                assert_eq!(interleaved::decode_var_at(&buf[at..], off), (255, 1));

                let mut buf = padded(at);
                per_field::encode_node_at(255, lo, hi, off, &mut buf);
                assert_eq!(per_field::decode_node_at(&buf[at..], off), (expected, buf.len() - at));
                assert_eq!(per_field::decode_var_at(&buf[at..], off), (255, 2));

                let mut buf = padded(at);
                fixed::encode_node_at(255, lo, hi, off, &mut buf);
                assert_eq!(fixed::decode_node_at(&buf[at..], off), (expected, 12));
                assert_eq!(fixed::decode_var_at(&buf[at..], off), (255, 4));
            }
        }
    }
}

#[test]
fn node_bytes_are_exact() {
    // var 7, lo = false, hi = the node 300 bytes back: 302 = 0b10_0101110.
    let mut buf = padded(1000);
    encode_node_at(7, Ref::Terminal(false), Ref::Node(700), 1000, &mut buf);
    assert_eq!(&buf[1000..], &[7, 0, 0xae, 0x02]);

    let mut buf = padded(300);
    fixed::encode_node_at(1, Ref::Node(254), Ref::Terminal(true), 300, &mut buf);
    assert_eq!(&buf[300..], &[1, 0, 0, 0, 0, 1, 0, 0, 1, 0, 0, 0]);
}

#[test]
fn nodes_do_not_depend_on_their_position() {
    let mut near = padded(40);
    encode_node_at(3, Ref::Node(10), Ref::Node(37), 40, &mut near);
    let mut far = padded(1040);
    encode_node_at(3, Ref::Node(1010), Ref::Node(1037), 1040, &mut far);
    assert_eq!(&near[40..], &far[1040..]);
}

#[test]
fn encodings_have_names() {
    assert_eq!(fixed::ENCODING_NAME, "fixed12");
    assert_eq!(interleaved::ENCODING_NAME, "interleaved+u8var");
    assert_eq!(per_field::ENCODING_NAME, "per-field");
}

#[test]
fn codes_of_children() {
    for r in [Ref::Terminal(false), Ref::Terminal(true), Ref::Node(0), Ref::Node(99)] {
        assert_eq!(code_to_ref(ref_to_code(r, 100), 100), r);
    }
    assert_eq!(ref_to_code(Ref::Terminal(false), 7), 0);
    assert_eq!(ref_to_code(Ref::Terminal(true), 7), 1);
    assert_eq!(ref_to_code(Ref::Node(4), 7), 5);
    assert_eq!(code_to_ref(2, 7), Ref::Node(7));
    assert_eq!(code_to_ref(9, 7), Ref::Node(0));
    assert_eq!(ref_to_u64(Ref::Terminal(false)), 1);
    assert_eq!(ref_to_u64(Ref::Terminal(true)), 2);
    assert_eq!(ref_to_u64(Ref::Node(1)), 0x1000_0000_0000_0001);
    // The bit is flipped, so that it is clear in offsets that have it set.
    assert_eq!(ref_to_u64(Ref::Node(0x1000_0000_0000_0003)), 3);
}
