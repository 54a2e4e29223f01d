//! The unique tables by themselves.

use vwbdd::codec::{encode_node, Ref};
use vwbdd::unique::{unique_key_hash, CompactUnique, UniqueTables};

/// A chain of `n` different nodes with variable `var`, and their offsets.
fn chain(var: u32, n: usize) -> (Vec<u8>, Vec<u64>) {
    let mut buf = Vec::new();
    let mut offs: Vec<u64> = Vec::new();
    for i in 0..n {
        let hi = if i == 0 { Ref::Terminal(true) } else { Ref::Node(offs[i - 1]) };
        let off = buf.len() as u64;
        encode_node(var, Ref::Terminal(false), hi, off, &mut buf);
        offs.push(off);
    }
    (buf, offs)
}

fn key(offs: &[u64], i: usize) -> (Ref, Ref) {
    let hi = if i == 0 { Ref::Terminal(true) } else { Ref::Node(offs[i - 1]) };
    (Ref::Terminal(false), hi)
}

#[test]
fn table_finds_what_was_inserted() {
    let n = 2000;
    let (buf, offs) = chain(5, n);
    let mut table = CompactUnique::new();
    assert_eq!(table.bytes(), 1024 * 9);
    for i in 0..n {
        let (lo, hi) = key(&offs, i);
        let hash = unique_key_hash(5, lo, hi);
        assert_eq!(table.lookup(hash, 5, lo, hi, &buf), None);
        table.insert(hash, offs[i], &buf);
        assert_eq!(table.len(), i + 1);
        // Doubled at three quarters: after 768 and after 1536 entries.
        let cap = if i < 768 { 1024 } else if i < 1536 { 2048 } else { 4096 };
        assert_eq!(table.bytes(), cap * 9);
    }
    for i in 0..n {
        let (lo, hi) = key(&offs, i);
        assert_eq!(table.lookup(unique_key_hash(5, lo, hi), 5, lo, hi, &buf), Some(offs[i]));
    }
    let (lo, hi) = (Ref::Terminal(true), Ref::Terminal(false));
    assert_eq!(table.lookup(unique_key_hash(5, lo, hi), 5, lo, hi, &buf), None);
}

#[test]
fn table_is_sized_for_what_is_expected() {
    let mut table = CompactUnique::default();
    for (expected, cap) in [(0, 1024), (768, 1024), (769, 2048), (1536, 2048), (100_000, 262_144)] {
        table.resize_for(expected);
        assert_eq!(table.len(), 0);
        assert_eq!(table.bytes(), cap * 9);
    }
}

#[test]
fn tables_are_kept_per_variable() {
    let mut buf = Vec::new();
    encode_node(0, Ref::Terminal(false), Ref::Terminal(true), 0, &mut buf);
    let second = buf.len() as u64;
    encode_node(2, Ref::Terminal(false), Ref::Terminal(true), second, &mut buf);

    let mut tables = UniqueTables::new();
    assert_eq!((tables.num_vars(), tables.len(), tables.bytes()), (0, 0, 0));
    tables.ensure_var(2);
    tables.ensure_var(1);
    assert_eq!((tables.num_vars(), tables.bytes()), (3, 3 * 9216));
    let (lo, hi) = (Ref::Terminal(false), Ref::Terminal(true));
    tables.insert(unique_key_hash(0, lo, hi), 0, 0, &buf);
    tables.insert(unique_key_hash(2, lo, hi), 2, second, &buf);
    assert_eq!(tables.len(), 2);
    assert_eq!(tables.lookup(unique_key_hash(0, lo, hi), 0, lo, hi, &buf), Some(0));
    assert_eq!(tables.lookup(unique_key_hash(1, lo, hi), 1, lo, hi, &buf), None);
    assert_eq!(tables.lookup(unique_key_hash(2, lo, hi), 2, lo, hi, &buf), Some(second));

    tables.reset_for(&[0, 1000, 0, 0, 800]);
    assert_eq!((tables.num_vars(), tables.len()), (5, 0));
    assert_eq!(tables.bytes(), (3 * 1024 + 2 * 2048) * 9);
    let mut fresh = UniqueTables::default();
    fresh.reset_for(&[]);
    assert_eq!(fresh.num_vars(), 1);
}

#[test]
fn keys_hash_to_known_values() {
    // The mix of three words, worked out by hand for small words.
    let h = 1u64.wrapping_mul(0xbf58476d1ce4e5b9);
    let h = (h ^ (h >> 27)) ^ 2;
    let h = h.wrapping_mul(0x94d049bb133111eb);
    assert_eq!(unique_key_hash(0, Ref::Terminal(false), Ref::Terminal(true)), h ^ (h >> 31));
}
