//! Laws of dumps: where each thing stands in the bytes, what reading gives back of
//! what was written, and that damage is seen.

use crate::arena::{
    arena_ok, closed, lemma_boundary_zero, lemma_node_at, nodes, ref_in, starts, tree,
};
use crate::cache::vacant;
use crate::codec::{Node, Ref};
use crate::collect::{clean, collected, reach, reached, roots_in, theorem_collected};
use crate::diagram::vars_below;
use crate::dump::{
    absorbable, absorbed, body_of, checked, header_bytes, header_for, header_of,
    law_dump_roundtrip, law_header_roundtrip, law_names_roundtrip, law_seal_roundtrip, loadable,
    loaded, magic, name_list, names_bytes, names_of, names_ok, root_at, root_list, roots_bytes,
    roots_of, sealed, sections, texts_of, translated, DumpError, Header, LoadedRoots,
};
use crate::laws::{law_absorb_trees, law_load_of_dump, law_load_of_named_dump};
use crate::manager::Manager;
use crate::slab::lemma_reach_below;
use crate::wire::{
    crc_of, law_crc_burst, law_crc_residue, law_le_back, le_bytes, le_value, lemma_le_bound,
    lemma_le_len, lemma_le_roundtrip, lemma_pow256_values, wire_of,
};
use vstd::prelude::*;
use vstd::utf8::{encode_utf8, valid_utf8};

verus! {

// ---------------------------------------------------------------------------
// What comes back
// ---------------------------------------------------------------------------

/// **A named dump comes back name by name**: loading what was dumped for a list of
/// references with names gives, at every place in the list, a root that unfolds to
/// the tree of the reference at that place, with the text of its name beside it.
pub proof fn law_dump_named_load(
    before: &Manager,
    list: Seq<(Ref, &str)>,
    slots: nat,
    r: Result<(Manager, LoadedRoots), DumpError>,
)
    requires
        before.wf(),
        list.len() <= u32::MAX,
        forall|i: int| 0 <= i < list.len() ==> before.has((#[trigger] list[i]).0),
        forall|i: int|
            0 <= i < list.len() ==> encode_utf8((#[trigger] list[i]).1@).len() <= u16::MAX,
        ({
            let (arena, kept) = collected(before.arena(), 0, root_list(list));
            &&& arena.len() <= u64::MAX
            &&& loaded(
                sealed(body_of(before.vars(), arena, kept, Some(name_list(list)))),
                slots,
                r,
            )
        }),
    ensures
        r matches Ok((m, l)) && {
            &&& m.wf()
            &&& m.vars() == before.vars()
            &&& l.roots@.len() == list.len()
            &&& l.names matches Some(texts) && texts@.len() == list.len() && forall|i: int|
                0 <= i < list.len() ==> {
                    &&& m.has(#[trigger] l.roots@[i])
                    &&& m.tree(l.roots@[i]) == before.tree(list[i].0)
                    &&& texts@[i]@ == list[i].1@
                }
        },
{
    let roots = root_list(list);
    let names = list.map_values(|e: (Ref, &str)| e.1@);
    let (arena, kept) = collected(before.arena(), 0, roots);
    assert forall|i: int| 0 <= i < roots.len() implies before.has(#[trigger] roots[i]) by {
        assert(before.has(list[i].0));
    }
    lemma_dumped(before, roots);
    assert(names.map_values(|name: Seq<char>| encode_utf8(name)) =~= name_list(list));
    assert forall|i: int| 0 <= i < names.len() implies encode_utf8(#[trigger] names[i]).len()
        <= u16::MAX by {
        assert(names[i] == list[i].1@);
    }
    law_load_of_named_dump(before.vars(), arena, kept, names, slots, r);
    let (m, l) = r->Ok_0;
    assert forall|i: int| 0 <= i < list.len() implies m.has(#[trigger] l.roots@[i]) && m.tree(
        l.roots@[i],
    ) == before.tree(list[i].0) && l.names->0@[i]@ == list[i].1@ by {
        assert(ref_in(nodes(arena), kept[i]));
        assert(roots[i] == list[i].0);
        assert(names[i] == list[i].1@);
    }
}

/// A dump without names comes back root by root.
pub proof fn law_dump_load(
    before: &Manager,
    roots: Seq<Ref>,
    slots: nat,
    r: Result<(Manager, LoadedRoots), DumpError>,
)
    requires
        before.wf(),
        roots.len() <= u32::MAX,
        forall|i: int| 0 <= i < roots.len() ==> before.has(#[trigger] roots[i]),
        ({
            let (arena, kept) = collected(before.arena(), 0, roots);
            &&& arena.len() <= u64::MAX
            &&& loaded(sealed(body_of(before.vars(), arena, kept, None)), slots, r)
        }),
    ensures
        r matches Ok((m, l)) && {
            &&& m.wf()
            &&& m.vars() == before.vars()
            &&& l.names is None
            &&& l.roots@.len() == roots.len()
            &&& forall|i: int|
                0 <= i < roots.len() ==> m.has(#[trigger] l.roots@[i]) && m.tree(l.roots@[i])
                    == before.tree(roots[i])
        },
{
    let (arena, kept) = collected(before.arena(), 0, roots);
    lemma_dumped(before, roots);
    law_load_of_dump(before.vars(), arena, kept, slots, r);
    let (m, l) = r->Ok_0;
    assert forall|i: int| 0 <= i < roots.len() implies m.has(#[trigger] l.roots@[i]) && m.tree(
        l.roots@[i],
    ) == before.tree(roots[i]) by {
        assert(ref_in(nodes(arena), kept[i]));
    }
}

/// The parts of a dump, with names or without: the foreign root at every place has
/// the tree of the reference dumped at that place. Every such dump can be loaded, and
/// absorbed by every manager that has as many variables, as long as the functions use
/// no others.
pub proof fn law_dump_sections(
    before: &Manager,
    roots: Seq<Ref>,
    names: Option<Seq<Seq<u8>>>,
    vars: u32,
)
    requires
        before.wf(),
        roots.len() <= u32::MAX,
        forall|i: int| 0 <= i < roots.len() ==> before.has(#[trigger] roots[i]),
        names matches Some(list) ==> names_ok(list) && list.len() == roots.len(),
        collected(before.arena(), 0, roots).0.len() <= u64::MAX,
    ensures
        ({
            let (arena, kept) = collected(before.arena(), 0, roots);
            let bytes = sealed(body_of(before.vars(), arena, kept, names));
            &&& loadable(bytes)
            &&& sections(bytes) matches Ok(sec) && {
                let foreign = roots_of(sec.roots, sec.header.num_roots as nat);
                &&& sec.header.num_vars == before.vars()
                &&& arena_ok(sec.arena)
                &&& foreign.len() == roots.len()
                &&& roots_in(nodes(sec.arena), foreign)
                &&& forall|i: int|
                    0 <= i < roots.len() ==> tree(nodes(sec.arena), #[trigger] foreign[i])
                        == before.tree(roots[i])
                &&& before.vars() <= vars && (forall|i: int|
                    0 <= i < roots.len() ==> before.ready(#[trigger] roots[i])) ==> absorbable(
                    sec,
                    vars,
                )
            }
        }),
{
    let (arena, kept) = collected(before.arena(), 0, roots);
    lemma_dumped(before, roots);
    lemma_numbered(arena, kept);
    law_dump_roundtrip(before.vars(), arena, kept, names);
    let bytes = sealed(body_of(before.vars(), arena, kept, names));
    let sec = sections(bytes)->Ok_0;
    assert(roots_of(sec.roots, sec.header.num_roots as nat) == kept);
    if before.vars() <= vars && forall|i: int|
        0 <= i < roots.len() ==> before.ready(#[trigger] roots[i]) {
        lemma_dumped_vars(before, roots);
        assert(absorbable(sec, vars));
    }
}

/// A dump of functions over declared variables has nodes of no others.
proof fn lemma_dumped_vars(before: &Manager, roots: Seq<Ref>)
    requires
        before.wf(),
        forall|i: int| 0 <= i < roots.len() ==> before.ready(#[trigger] roots[i]),
        collected(before.arena(), 0, roots).0.len() <= u64::MAX,
    ensures
        ({
            let s = nodes(collected(before.arena(), 0, roots).0);
            forall|o: u64| #[trigger] s.dom().contains(o) ==> s[o].var < before.vars()
        }),
{
    let (arena, kept) = collected(before.arena(), 0, roots);
    let s = nodes(arena);
    let n = before.vars() as int;
    assert forall|i: int| 0 <= i < roots.len() implies before.has(#[trigger] roots[i]) by {
        assert(before.ready(roots[i]));
    }
    lemma_dumped(before, roots);
    assert forall|o: u64| #[trigger] s.dom().contains(o) implies s[o].var < n by {
        assert(reached(s, kept, o));
        let i = choose|i: int| 0 <= i < kept.len() && #[trigger] reach(s, kept[i]).contains(o);
        assert(ref_in(s, kept[i]));
        assert(before.ready(roots[i]));
        assert(tree(s, kept[i]) == before.tree(roots[i]));
        lemma_reached_var(s, kept[i], o, n);
    }
}

/// A node that is reached has one of the variables.
proof fn lemma_reached_var(s: Map<u64, Node>, r: Ref, o: u64, n: int)
    requires
        closed(s),
        ref_in(s, r),
        s.dom().contains(o),
        reach(s, r).contains(o),
        vars_below(tree(s, r), n),
    ensures
        s[o].var < n,
{
    lemma_reach_below(s, r, o, n);
    reveal(closed);
}

/// **What is absorbed of a dump are the functions that were dumped**, root by root:
/// where each root went, the tree is that of the reference dumped at its place.
pub proof fn law_dump_absorb(
    before: &Manager,
    roots: Seq<Ref>,
    names: Option<Seq<Seq<u8>>>,
    buf: Seq<u8>,
)
    requires
        before.wf(),
        roots.len() <= u32::MAX,
        forall|i: int| 0 <= i < roots.len() ==> before.has(#[trigger] roots[i]),
        names matches Some(list) ==> names_ok(list) && list.len() == roots.len(),
        collected(before.arena(), 0, roots).0.len() <= u64::MAX,
        arena_ok(buf),
        ({
            let (arena, kept) = collected(before.arena(), 0, roots);
            absorbed(buf, nodes(arena), starts(arena)).0.len() <= u64::MAX
        }),
    ensures
        ({
            let (arena, kept) = collected(before.arena(), 0, roots);
            let bytes = sealed(body_of(before.vars(), arena, kept, names));
            sections(bytes) matches Ok(sec) && {
                let foreign = roots_of(sec.roots, sec.header.num_roots as nat);
                let (out, map) = absorbed(buf, nodes(sec.arena), starts(sec.arena));
                foreign.len() == roots.len() && forall|i: int|
                    0 <= i < roots.len() ==> tree(
                        nodes(out),
                        translated(map, #[trigger] foreign[i]),
                    ) == before.tree(roots[i])
            }
        }),
{
    let (arena, kept) = collected(before.arena(), 0, roots);
    law_dump_sections(before, roots, names, 0);
    lemma_dumped(before, roots);
    lemma_numbered(arena, kept);
    law_dump_roundtrip(before.vars(), arena, kept, names);
    let all = starts(arena);
    let (out, map) = absorbed(buf, nodes(arena), all);
    assert forall|i: int| 0 <= i < roots.len() implies tree(
        nodes(out),
        translated(map, #[trigger] kept[i]),
    ) == before.tree(roots[i]) by {
        assert(ref_in(nodes(arena), kept[i]));
        if let Ref::Node(o) = kept[i] {
            let j = choose|j: int| 0 <= j < all.len() && all[j] == o;
            law_absorb_trees(buf, arena, j);
        }
    }
}

/// What is dumped for `roots`: an arena in which they have the trees that they had.
proof fn lemma_dumped(before: &Manager, roots: Seq<Ref>)
    requires
        before.wf(),
        forall|i: int| 0 <= i < roots.len() ==> before.has(#[trigger] roots[i]),
        collected(before.arena(), 0, roots).0.len() <= u64::MAX,
    ensures
        ({
            let (arena, kept) = collected(before.arena(), 0, roots);
            &&& arena_ok(arena)
            &&& kept.len() == roots.len()
            &&& roots_in(nodes(arena), kept)
            &&& clean(nodes(arena), 0, kept)
            &&& forall|i: int|
                0 <= i < roots.len() ==> tree(nodes(arena), #[trigger] kept[i]) == before.tree(
                    roots[i],
                )
        }),
{
    let buf = before.arena();
    before.lemma_wf();
    assert forall|i: int| 0 <= i < roots.len() implies ref_in(nodes(buf), #[trigger] roots[i]) by {
        assert(before.has(roots[i]));
    }
    lemma_boundary_zero(buf);
    theorem_collected(buf, 0, roots);
}

/// The roots of an arena have numbers.
proof fn lemma_numbered(arena: Seq<u8>, roots: Seq<Ref>)
    requires
        arena.len() <= u64::MAX,
        roots_in(nodes(arena), roots),
    ensures
        forall|i: int| 0 <= i < roots.len() ==> wire_of(#[trigger] roots[i]) <= u64::MAX,
{
    assert forall|i: int| 0 <= i < roots.len() implies wire_of(#[trigger] roots[i])
        <= u64::MAX by {
        assert(ref_in(nodes(arena), roots[i]));
        if let Ref::Node(o) = roots[i] {
            lemma_node_at(arena, o);
        }
    }
}

// ---------------------------------------------------------------------------
// Damage
// ---------------------------------------------------------------------------

/// What a dump is checked for: the last four bytes are the checksum of all bytes in
/// front of them, which are its body.
pub proof fn law_checked(bytes: Seq<u8>)
    ensures
        bytes.len() < 4 <==> checked(bytes) == Err::<Seq<u8>, DumpError>(DumpError::Truncated),
        bytes.len() >= 4 ==> ({
            let body = bytes.take(bytes.len() - 4);
            let trailer = bytes.skip(bytes.len() - 4);
            match checked(bytes) {
                Ok(b) => b == body && le_value(trailer) == crc_of(body),
                Err(e) => e matches DumpError::CrcMismatch { expected, actual } && expected
                    == le_value(trailer) && actual == crc_of(body) && expected != actual,
            }
        }),
{
    if bytes.len() >= 4 {
        lemma_le_bound(bytes.skip(bytes.len() - 4));
        lemma_pow256_values();
    }
}

/// **Damage is refused**: where a dump passes, none of that length passes that
/// differs from it within four bytes in a row, wherever they stand. What is wrong
/// with it is the checksum.
pub proof fn law_damage_refused(bytes: Seq<u8>, damaged: Seq<u8>, k: int)
    requires
        checked(bytes) is Ok,
        damaged.len() == bytes.len(),
        damaged != bytes,
        forall|i: int| 0 <= i < bytes.len() && !(k <= i < k + 4) ==> damaged[i] == bytes[i],
    ensures
        checked(damaged) matches Err(DumpError::CrcMismatch { .. }),
        sections(damaged) matches Err(DumpError::CrcMismatch { .. }),
{
    let n = bytes.len() as int;
    law_checked(bytes);
    law_checked(damaged);
    law_crc_residue(bytes.take(n - 4), bytes.skip(n - 4));
    law_crc_residue(damaged.take(n - 4), damaged.skip(n - 4));
    assert(bytes.take(n - 4) + bytes.skip(n - 4) =~= bytes);
    assert(damaged.take(n - 4) + damaged.skip(n - 4) =~= damaged);
    law_crc_burst(bytes, damaged, k);
}

/// A dump with one byte changed, whichever it is, is not loaded.
pub proof fn law_damaged_load(
    body: Seq<u8>,
    i: int,
    b: u8,
    slots: nat,
    r: Result<(Manager, LoadedRoots), DumpError>,
)
    requires
        0 <= i < sealed(body).len(),
        b != sealed(body)[i],
        loaded(sealed(body).update(i, b), slots, r),
    ensures
        r matches Err(DumpError::CrcMismatch { .. }),
{
    let bytes = sealed(body);
    law_seal_roundtrip(body);
    assert(bytes.update(i, b)[i] == b);
    law_damage_refused(bytes, bytes.update(i, b), i);
}

// ---------------------------------------------------------------------------
// Layout
// ---------------------------------------------------------------------------

/// Where everything stands in a dump: the 32 bytes of the header, the arena, eight
/// bytes for each root in the order of the roots, the names, and the checksum of all
/// that in the last four bytes.
pub proof fn law_dump_layout(
    vars: u32,
    arena: Seq<u8>,
    roots: Seq<Ref>,
    names: Option<Seq<Seq<u8>>>,
)
    requires
        arena.len() <= u64::MAX,
        roots.len() <= u32::MAX,
        forall|i: int| 0 <= i < roots.len() ==> wire_of(#[trigger] roots[i]) <= u64::MAX,
    ensures
        ({
            let d = sealed(body_of(vars, arena, roots, names));
            let a = 32 + arena.len() as int;
            let e = a + 8 * roots.len();
            let list = match names {
                Some(list) => names_bytes(list),
                None => seq![],
            };
            &&& d.take(8) == seq![0x56u8, 0x57, 0x42, 0x44, 0x44, 0, 0, 0]
            &&& d.subrange(8, 12) == seq![1u8, 0, 8, if names is Some { 1u8 } else { 0 }]
            &&& le_value(d.subrange(12, 16)) == vars
            &&& le_value(d.subrange(16, 20)) == roots.len()
            &&& le_value(d.subrange(20, 28)) == arena.len()
            &&& d.subrange(28, 32) == seq![0u8, 0, 0, 0]
            &&& d.subrange(32, a) == arena
            &&& forall|i: int|
                0 <= i < roots.len() ==> le_value(#[trigger] d.subrange(a + 8 * i, a + 8 * i + 8))
                    == wire_of(roots[i])
            &&& d.subrange(e, e + list.len()) == list
            &&& d.len() == e + list.len() + 4
            &&& le_value(d.skip(e + list.len() as int)) == crc_of(d.take(e + list.len() as int))
        }),
{
    let h = header_for(vars, arena, roots, names is Some);
    let head = header_bytes(h);
    let rb = roots_bytes(roots);
    let list = match names {
        Some(list) => names_bytes(list),
        None => seq![],
    };
    let body = body_of(vars, arena, roots, names);
    let d = sealed(body);
    let a = 32 + arena.len() as int;
    let e = a + 8 * roots.len();
    law_header_roundtrip(h, seq![]);
    lemma_header_layout(h);
    lemma_roots_at(roots);
    lemma_pow256_values();
    lemma_le_roundtrip(crc_of(body) as nat, 4);
    assert(d.take(32) =~= head);
    assert(d.take(8) =~= head.take(8));
    assert(d.subrange(8, 12) =~= head.subrange(8, 12));
    assert(d.subrange(12, 16) =~= head.subrange(12, 16));
    assert(d.subrange(16, 20) =~= head.subrange(16, 20));
    assert(d.subrange(20, 28) =~= head.subrange(20, 28));
    assert(d.subrange(28, 32) =~= head.subrange(28, 32));
    assert(d.subrange(32, a) =~= arena);
    assert forall|i: int| 0 <= i < roots.len() implies le_value(
        #[trigger] d.subrange(a + 8 * i, a + 8 * i + 8),
    ) == wire_of(roots[i]) by {
        assert(d.subrange(a + 8 * i, a + 8 * i + 8) =~= rb.subrange(8 * i, 8 * i + 8));
    }
    assert(d.subrange(e, e + list.len()) =~= list);
    assert(d.take(e + list.len() as int) =~= body);
    assert(d.skip(e + list.len() as int) =~= le_bytes(crc_of(body) as nat, 4));
}

/// The fields of a header.
proof fn lemma_header_layout(h: Header)
    requires
        h.format_version == 1,
    ensures
        ({
            let s = header_bytes(h);
            &&& s.len() == 32
            &&& s.take(8) == seq![0x56u8, 0x57, 0x42, 0x44, 0x44, 0, 0, 0]
            &&& s.subrange(8, 12) == seq![1u8, 0, h.offset_width, h.flags]
            &&& le_value(s.subrange(12, 16)) == h.num_vars
            &&& le_value(s.subrange(16, 20)) == h.num_roots
            &&& le_value(s.subrange(20, 28)) == h.arena_len
            &&& s.subrange(28, 32) == seq![0u8, 0, 0, 0]
        }),
{
    reveal(header_bytes);
    let s = header_bytes(h);
    lemma_pow256_values();
    lemma_le_len(1, 2);
    lemma_le_roundtrip(h.num_vars as nat, 4);
    lemma_le_roundtrip(h.num_roots as nat, 4);
    lemma_le_roundtrip(h.arena_len as nat, 8);
    lemma_le_len(0, 4);
    reveal_with_fuel(le_bytes, 5);
    assert(le_bytes(1, 2) =~= seq![1u8, 0]);
    assert(le_bytes(0, 4) =~= seq![0u8, 0, 0, 0]);
    assert(s.take(8) =~= magic());
    assert(s.subrange(8, 12) =~= seq![1u8, 0, h.offset_width, h.flags]);
    assert(s.subrange(12, 16) =~= le_bytes(h.num_vars as nat, 4));
    assert(s.subrange(16, 20) =~= le_bytes(h.num_roots as nat, 4));
    assert(s.subrange(20, 28) =~= le_bytes(h.arena_len as nat, 8));
    assert(s.subrange(28, 32) =~= le_bytes(0, 4));
}

/// The bytes of each root.
proof fn lemma_roots_at(roots: Seq<Ref>)
    requires
        forall|i: int| 0 <= i < roots.len() ==> wire_of(#[trigger] roots[i]) <= u64::MAX,
    ensures
        roots_bytes(roots).len() == 8 * roots.len(),
        forall|i: int|
            0 <= i < roots.len() ==> le_value(
                #[trigger] roots_bytes(roots).subrange(8 * i, 8 * i + 8),
            ) == wire_of(roots[i]),
    decreases roots.len(),
{
    if roots.len() > 0 {
        let head = roots.drop_last();
        let n = head.len() as int;
        let raw = roots_bytes(roots);
        assert forall|i: int| 0 <= i < head.len() implies wire_of(#[trigger] head[i])
            <= u64::MAX by {
            assert(head[i] == roots[i]);
        }
        lemma_roots_at(head);
        lemma_pow256_values();
        assert(wire_of(roots[n]) <= u64::MAX);
        lemma_le_roundtrip(wire_of(roots.last()), 8);
        assert forall|i: int| 0 <= i < roots.len() implies le_value(
            #[trigger] raw.subrange(8 * i, 8 * i + 8),
        ) == wire_of(roots[i]) by {
            if i < n {
                assert(raw.subrange(8 * i, 8 * i + 8) =~= roots_bytes(head).subrange(
                    8 * i,
                    8 * i + 8,
                ));
                assert(head[i] == roots[i]);
            } else {
                assert(raw.subrange(8 * i, 8 * i + 8) =~= le_bytes(wire_of(roots.last()), 8));
            }
        }
    }
}

/// No names take no bytes, and one name more is written behind the others: two bytes
/// of length, and the name.
pub proof fn law_names_layout(names: Seq<Seq<u8>>, name: Seq<u8>)
    ensures
        names_bytes(seq![]) == Seq::<u8>::empty(),
        names_bytes(names.push(name)) == names_bytes(names) + le_bytes(name.len(), 2) + name,
    decreases names.len(),
{
    let all = names.push(name);
    if names.len() == 0 {
        assert(all.drop_first() =~= seq![]);
        assert(names_bytes(all.drop_first()) =~= seq![]);
        assert(names_bytes(all) =~= names_bytes(names) + le_bytes(name.len(), 2) + name);
    } else {
        assert(all.drop_first() =~= names.drop_first().push(name));
        law_names_layout(names.drop_first(), name);
        assert(names_bytes(all) =~= names_bytes(names) + le_bytes(name.len(), 2) + name);
    }
}

// ---------------------------------------------------------------------------
// What is read
// ---------------------------------------------------------------------------

/// What is read as a header: at least 32 bytes that start with the eight bytes of
/// the format and with version 1, each field from its place. Whatever else it is,
/// it is refused for the first of these that fails.
pub proof fn law_header_read(s: Seq<u8>)
    ensures
        ({
            let known = s.take(8) == seq![0x56u8, 0x57, 0x42, 0x44, 0x44, 0, 0, 0];
            let version = s[8] + 256 * s[9];
            match header_of(s) {
                Err(DumpError::Truncated) => s.len() < 32,
                Err(DumpError::BadMagic) => s.len() >= 32 && !known,
                Err(DumpError::UnsupportedVersion(v)) => s.len() >= 32 && known && version != 1 && v
                    == version,
                Err(_) => false,
                Ok(h) => {
                    &&& s.len() >= 32 && known && version == 1
                    &&& h.format_version == 1
                    &&& h.offset_width == s[10]
                    &&& h.flags == s[11]
                    &&& h.num_vars == le_value(s.subrange(12, 16))
                    &&& h.num_roots == le_value(s.subrange(16, 20))
                    &&& h.arena_len == le_value(s.subrange(20, 28))
                },
            }
        }),
{
    if s.len() >= 32 {
        lemma_pow256_values();
        lemma_le_bound(s.subrange(8, 10));
        lemma_le_bound(s.subrange(12, 16));
        lemma_le_bound(s.subrange(16, 20));
        lemma_le_bound(s.subrange(20, 28));
        let two = s.subrange(8, 10);
        assert(le_value(two) == s[8] + 256 * s[9]) by {
            reveal_with_fuel(le_value, 3);
            assert(two.drop_first()[0] == s[9]);
            assert(two.drop_first().drop_first().len() == 0);
        }
    }
}

/// What is taken apart as a dump: it passes the check, its body starts with a header,
/// and what follows is as long as the header says. The parts are all that follows,
/// in order.
pub proof fn law_sections(bytes: Seq<u8>)
    ensures
        match sections(bytes) {
            Err(e) => {
                ||| checked(bytes) == Err::<Seq<u8>, DumpError>(e)
                ||| checked(bytes) matches Ok(body) && header_of(body) == Err::<Header, DumpError>(
                    e,
                )
                ||| checked(bytes) matches Ok(body) && header_of(body) matches Ok(h) && e
                    == DumpError::Truncated && body.len() < 32 + h.arena_len + 8 * h.num_roots
            },
            Ok(sec) => checked(bytes) matches Ok(body) && {
                &&& header_of(body) == Ok::<Header, DumpError>(sec.header)
                &&& sec.arena.len() == sec.header.arena_len
                &&& sec.roots.len() == 8 * sec.header.num_roots
                &&& body == body.take(32) + sec.arena + sec.roots + sec.names
            },
        },
{
    if let Ok(sec) = sections(bytes) {
        let body = checked(bytes)->Ok_0;
        law_header_read(body);
        assert(body =~= body.take(32) + sec.arena + sec.roots + sec.names);
    } else if let Ok(body) = checked(bytes) {
        law_header_read(body);
    }
}

/// The start of a string in three parts, the first of two bytes.
proof fn lemma_take_parts(s: Seq<u8>, k: int, j: int)
    requires
        0 <= k,
        0 <= j,
        2 + k + j <= s.len(),
    ensures
        s.take(2 + k + j) == s.take(2) + s.subrange(2, 2 + k) + s.skip(2 + k).take(j),
{
    assert(s.take(2 + k + j) =~= s.take(2) + s.subrange(2, 2 + k) + s.skip(2 + k).take(j));
}

/// What is read as names: exactly what is written for them, whatever follows.
pub proof fn law_names_read(s: Seq<u8>, n: nat, list: Seq<Seq<u8>>)
    ensures
        names_of(s, n) == Some(list) <==> {
            &&& list.len() == n
            &&& names_ok(list)
            &&& names_bytes(list).len() <= s.len()
            &&& s.take(names_bytes(list).len() as int) == names_bytes(list)
        },
    decreases n,
{
    let written = names_bytes(list);
    if list.len() == n && names_ok(list) && written.len() <= s.len() && s.take(written.len() as int)
        == written {
        law_names_roundtrip(list, s.skip(written.len() as int));
        assert(written + s.skip(written.len() as int) =~= s);
    }
    if names_of(s, n) == Some(list) {
        if n == 0 {
            assert(list.len() == 0);
            assert(s.take(0) =~= written);
        } else {
            let len = le_value(s.take(2));
            let name = s.subrange(2, 2 + len as int);
            let after = s.skip(2 + len as int);
            let more = names_of(after, (n - 1) as nat)->0;
            law_names_read(after, (n - 1) as nat, more);
            assert(list =~= seq![name] + more);
            assert(list.drop_first() =~= more);
            assert(list[0] == name);
            lemma_le_bound(s.take(2));
            lemma_pow256_values();
            assert forall|i: int| 0 <= i < list.len() implies (#[trigger] list[i]).len() <= u16::MAX
                && valid_utf8(list[i]) by {
                if i > 0 {
                    assert(list[i] == more[i - 1]);
                }
            }
            law_le_back(s.take(2));
            let m = names_bytes(more);
            assert(written == le_bytes(len, 2) + name + m);
            assert(after.take(m.len() as int) == m);
            lemma_le_len(len, 2);
            lemma_take_parts(s, len as int, m.len() as int);
        }
    }
}

/// What loading gives, for all bytes: an error exactly where the dump or its names
/// are not in order, and else the arena, the variables, the root that each eight
/// bytes stand for and the text of each name.
pub proof fn law_load(bytes: Seq<u8>, slots: nat, r: Result<(Manager, LoadedRoots), DumpError>)
    requires
        loaded(bytes, slots, r),
    ensures
        sections(bytes) matches Err(e) ==> (r matches Err(f) && f == e),
        sections(bytes) matches Ok(sec) ==> {
            let n = sec.header.num_roots as nat;
            match r {
                Err(e) => e == DumpError::MalformedNames && sec.header.flags & 1 == 1
                    && forall|list: Seq<Seq<u8>>|
                    list.len() == n && #[trigger] names_ok(list) && names_bytes(list).len()
                        <= sec.names.len() ==> sec.names.take(names_bytes(list).len() as int)
                        != names_bytes(list),
                Ok((m, l)) => {
                    &&& m.wf()
                    &&& m.arena() == sec.arena
                    &&& m.vars() == sec.header.num_vars
                    &&& m.memo() == vacant(slots)
                    &&& l.roots@.len() == n
                    &&& forall|i: int|
                        0 <= i < n ==> wire_of(#[trigger] l.roots@[i]) == le_value(
                            sec.roots.subrange(8 * i, 8 * i + 8),
                        )
                    &&& l.names is Some <==> sec.header.flags & 1 == 1
                    &&& l.names matches Some(texts) ==> exists|list: Seq<Seq<u8>>| #[trigger]
                        texts_of(texts@, list) && list.len() == n && names_ok(list) && names_bytes(
                            list,
                        ).len() <= sec.names.len() && sec.names.take(
                            names_bytes(list).len() as int,
                        ) == names_bytes(list)
                },
            }
        },
{
    if let Ok(sec) = sections(bytes) {
        let n = sec.header.num_roots as nat;
        let flags = sec.header.flags;
        assert(flags & 1 == 0 || flags & 1 == 1) by (bit_vector);
        law_sections(bytes);
        if r is Err {
            assert forall|list: Seq<Seq<u8>>|
                list.len() == n && #[trigger] names_ok(list) && names_bytes(list).len()
                    <= sec.names.len() implies sec.names.take(names_bytes(list).len() as int)
                != names_bytes(list) by {
                law_names_read(sec.names, n, list);
            }
        } else {
            let (m, l) = r->Ok_0;
            assert forall|i: int| 0 <= i < n implies wire_of(#[trigger] l.roots@[i]) == le_value(
                sec.roots.subrange(8 * i, 8 * i + 8),
            ) by {
                assert(l.roots@[i] == root_at(sec.roots, i));
                lemma_le_bound(sec.roots.subrange(8 * i, 8 * i + 8));
                lemma_pow256_values();
            }
            if let Some(texts) = l.names {
                let list = names_of(sec.names, n)->0;
                law_names_read(sec.names, n, list);
                assert(texts_of(texts@, list));
            }
        }
    }
}

} // verus!
