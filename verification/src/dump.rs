//! The dump format: an arena, the roots of interest in it, and optionally their
//! names, framed by a header and a checksum.
//!
//! ```text
//! [32 B header]
//! [arena_len bytes of encoded nodes]
//! [num_roots × u64 of roots]
//! [optionally, for each root, a u16 length and a UTF-8 name]
//! [4 B CRC32 of everything above]
//! ```
//!
//! All numbers are little-endian. A dump can be loaded into a fresh manager, or
//! absorbed into a live one, whose unique tables then merge what both have in
//! common.

use crate::apply::{intern, internable, lemma_intern};
use crate::arena::{
    arena_ok, closed, holds_ref, lemma_max_var_count, lemma_next_node, lemma_node_at,
    lemma_tree_ordered, max_var_count, nodes, parses, parses_from, read_node, ref_in, ref_level,
    scan_max_var, starts, starts_from, tree,
};
use crate::cache::{vacant, zeroed};
use crate::codec::{Node, Ref};
use crate::collect::{clean, collected, roots_in};
use crate::diagram::{eval, same_function, Bdd, Env};
use crate::format::{law_dump_load, law_dump_named_load};
use crate::manager::{table_count, DEFAULT_ITE_CACHE_SLOTS, Manager, ManagerConfig};
use crate::unique::{caps_fitted, lemma_caps_grown_same, lemma_caps_grown_trans};
use crate::validate::{arena_is_closed, arena_is_sound, lemma_before};
use crate::wire::{
    crc32, crc_of, get_le, law_wire_roundtrip, le_bytes, le_value, lemma_le_bound, lemma_le_len,
    lemma_le_roundtrip, lemma_pow256_values, put_le, ref_of_wire, ref_to_wire, wire_of,
    wire_to_ref,
};
use std::collections::HashMap;
use vstd::prelude::*;
use vstd::utf8::{decode_utf8, encode_utf8, valid_utf8};

verus! {

/// The version of the format.
pub const FORMAT_VERSION: u16 = 1;

/// The width in bytes of the offsets in the arena.
pub const OFFSET_WIDTH: u8 = 8;

/// The flag of a dump with named roots.
pub const FLAG_NAMED_ROOTS: u8 = 1;

/// The length of a header.
pub const HEADER_SIZE: usize = 32;

/// The bytes that a dump starts with: `VWBDD`, and three zeros.
pub open spec fn magic() -> Seq<u8> {
    seq![0x56u8, 0x57, 0x42, 0x44, 0x44, 0, 0, 0]
}

/// What is wrong with a dump.
#[derive(Debug, Clone, Copy, PartialEq, Eq, Structural)]
pub enum DumpError {
    /// The dump does not start as one.
    BadMagic,
    /// The dump has another version.
    UnsupportedVersion(u16),
    /// The dump ends too early.
    Truncated,
    /// The checksum does not fit the rest.
    CrcMismatch { expected: u32, actual: u32 },
    /// An offset is too wide. No offset is, where offsets are `u64`.
    OffsetOverflowsTarget(u64),
    /// The names do not fit the roots, or are not UTF-8.
    MalformedNames,
}

/// The fixed part at the start of a dump.
#[derive(Debug, Clone, Copy, PartialEq, Eq, Structural)]
pub struct Header {
    pub format_version: u16,
    pub offset_width: u8,
    pub flags: u8,
    pub num_vars: u32,
    pub num_roots: u32,
    pub arena_len: u64,
}

/// The bytes of a header. The last four are reserved.
#[verifier::opaque]
pub open spec fn header_bytes(h: Header) -> Seq<u8> {
    magic() + le_bytes(h.format_version as nat, 2) + seq![h.offset_width, h.flags] + le_bytes(
        h.num_vars as nat,
        4,
    ) + le_bytes(h.num_roots as nat, 4) + le_bytes(h.arena_len as nat, 8) + le_bytes(0, 4)
}

/// The header at the start of `s`.
pub open spec fn header_of(s: Seq<u8>) -> Result<Header, DumpError> {
    if s.len() < HEADER_SIZE {
        Err(DumpError::Truncated)
    } else if s.take(8) != magic() {
        Err(DumpError::BadMagic)
    } else if le_value(s.subrange(8, 10)) != FORMAT_VERSION {
        Err(DumpError::UnsupportedVersion(le_value(s.subrange(8, 10)) as u16))
    } else {
        Ok(
            Header {
                format_version: FORMAT_VERSION,
                offset_width: s[10],
                flags: s[11],
                num_vars: le_value(s.subrange(12, 16)) as u32,
                num_roots: le_value(s.subrange(16, 20)) as u32,
                arena_len: le_value(s.subrange(20, 28)) as u64,
            },
        )
    }
}

/// A header is read as it was written, whatever follows it.
pub proof fn law_header_roundtrip(h: Header, rest: Seq<u8>)
    requires
        h.format_version == FORMAT_VERSION,
    ensures
        header_bytes(h).len() == HEADER_SIZE,
        header_of(header_bytes(h) + rest) == Ok::<Header, DumpError>(h),
{
    reveal(header_bytes);
    let s = header_bytes(h) + rest;
    lemma_pow256_values();
    lemma_le_roundtrip(h.format_version as nat, 2);
    lemma_le_roundtrip(h.num_vars as nat, 4);
    lemma_le_roundtrip(h.num_roots as nat, 4);
    lemma_le_roundtrip(h.arena_len as nat, 8);
    lemma_le_len(0, 4);
    assert(s.take(8) =~= magic());
    assert(s.subrange(8, 10) =~= le_bytes(h.format_version as nat, 2));
    assert(s.subrange(12, 16) =~= le_bytes(h.num_vars as nat, 4));
    assert(s.subrange(16, 20) =~= le_bytes(h.num_roots as nat, 4));
    assert(s.subrange(20, 28) =~= le_bytes(h.arena_len as nat, 8));
}

impl Header {
    /// Appends the header to `out`.
    pub fn write_to(&self, out: &mut Vec<u8>)
        ensures
            final(out)@ == old(out)@ + header_bytes(*self),
    {
        reveal(header_bytes);
        out.push(0x56);
        out.push(0x57);
        out.push(0x42);
        out.push(0x44);
        out.push(0x44);
        out.push(0);
        out.push(0);
        out.push(0);
        put_le(self.format_version as u64, 2, out);
        out.push(self.offset_width);
        out.push(self.flags);
        put_le(self.num_vars as u64, 4, out);
        put_le(self.num_roots as u64, 4, out);
        put_le(self.arena_len, 8, out);
        put_le(0, 4, out);
        assert(out@ =~= old(out)@ + header_bytes(*self));
    }

    /// Reads the header at the start of `buf`.
    pub fn parse(buf: &[u8]) -> (r: Result<Self, DumpError>)
        ensures
            r == header_of(buf@),
    {
        if buf.len() < HEADER_SIZE {
            return Err(DumpError::Truncated);
        }
        if !(buf[0] == 0x56 && buf[1] == 0x57 && buf[2] == 0x42 && buf[3] == 0x44 && buf[4] == 0x44
            && buf[5] == 0 && buf[6] == 0 && buf[7] == 0) {
            proof {
                if buf@.take(8) == magic() {
                    assert(forall|i: int| 0 <= i < 8 ==> #[trigger] buf@.take(8)[i] == buf@[i]);
                    assert(buf@.take(8)[0] == buf@[0] && buf@.take(8)[1] == buf@[1] && buf@.take(
                        8,
                    )[2] == buf@[2] && buf@.take(8)[3] == buf@[3] && buf@.take(8)[4] == buf@[4]
                        && buf@.take(8)[5] == buf@[5] && buf@.take(8)[6] == buf@[6] && buf@.take(
                        8,
                    )[7] == buf@[7]);
                }
            }
            return Err(DumpError::BadMagic);
        }
        assert(buf@.take(8) =~= magic());
        proof {
            lemma_pow256_values();
            lemma_le_bound(buf@.subrange(8, 10));
            lemma_le_bound(buf@.subrange(12, 16));
            lemma_le_bound(buf@.subrange(16, 20));
        }
        let format_version: u16 = get_le(vstd::slice::slice_subrange(buf, 8, 10)) as u16;
        if format_version != FORMAT_VERSION {
            return Err(DumpError::UnsupportedVersion(format_version));
        }
        let num_vars: u32 = get_le(vstd::slice::slice_subrange(buf, 12, 16)) as u32;
        let num_roots: u32 = get_le(vstd::slice::slice_subrange(buf, 16, 20)) as u32;
        let arena_len: u64 = get_le(vstd::slice::slice_subrange(buf, 20, 28));
        Ok(
            Header {
                format_version,
                offset_width: buf[10],
                flags: buf[11],
                num_vars,
                num_roots,
                arena_len,
            },
        )
    }
}

// ---------------------------------------------------------------------------
// Roots and names
// ---------------------------------------------------------------------------

/// The bytes of a list of roots.
pub open spec fn roots_bytes(roots: Seq<Ref>) -> Seq<u8>
    decreases roots.len(),
{
    if roots.len() == 0 {
        seq![]
    } else {
        roots_bytes(roots.drop_last()) + le_bytes(wire_of(roots.last()), 8)
    }
}

/// Root number `i` of those in `raw`.
pub open spec fn root_at(raw: Seq<u8>, i: int) -> Ref {
    ref_of_wire(le_value(raw.subrange(8 * i, 8 * i + 8)) as u64)
}

/// The `n` roots in `raw`.
pub open spec fn roots_of(raw: Seq<u8>, n: nat) -> Seq<Ref> {
    Seq::new(n, |i: int| root_at(raw, i))
}

/// The bytes of a list of names: each with its length in front.
pub open spec fn names_bytes(names: Seq<Seq<u8>>) -> Seq<u8>
    decreases names.len(),
{
    if names.len() == 0 {
        seq![]
    } else {
        le_bytes(names[0].len(), 2) + names[0] + names_bytes(names.drop_first())
    }
}

/// The `n` names at the start of `s`; `None` where they are not all there, or not
/// all UTF-8.
pub open spec fn names_of(s: Seq<u8>, n: nat) -> Option<Seq<Seq<u8>>>
    decreases n,
{
    if n == 0 {
        Some(seq![])
    } else if s.len() < 2 {
        None
    } else {
        let len = le_value(s.take(2));
        if s.len() < 2 + len {
            None
        } else {
            let name = s.subrange(2, 2 + len as int);
            if !valid_utf8(name) {
                None
            } else {
                match names_of(s.skip(2 + len as int), (n - 1) as nat) {
                    None => None,
                    Some(rest) => Some(seq![name] + rest),
                }
            }
        }
    }
}

/// Whether `names` can be written: short enough, and UTF-8.
pub open spec fn names_ok(names: Seq<Seq<u8>>) -> bool {
    forall|i: int|
        0 <= i < names.len() ==> (#[trigger] names[i]).len() <= u16::MAX && valid_utf8(names[i])
}

/// Roots are read as they were written.
pub proof fn law_roots_roundtrip(roots: Seq<Ref>)
    requires
        forall|i: int| 0 <= i < roots.len() ==> wire_of(#[trigger] roots[i]) <= u64::MAX,
    ensures
        roots_bytes(roots).len() == 8 * roots.len(),
        roots_of(roots_bytes(roots), roots.len()) == roots,
    decreases roots.len(),
{
    if roots.len() == 0 {
        assert(roots_of(roots_bytes(roots), 0) =~= roots);
    } else {
        let head = roots.drop_last();
        let raw = roots_bytes(roots);
        let n = head.len() as int;
        assert forall|i: int| 0 <= i < head.len() implies wire_of(#[trigger] head[i])
            <= u64::MAX by {
            assert(head[i] == roots[i]);
        }
        law_roots_roundtrip(head);
        lemma_pow256_values();
        assert(wire_of(roots[n]) <= u64::MAX);
        lemma_le_roundtrip(wire_of(roots.last()), 8);
        assert(raw.subrange(8 * n, 8 * n + 8) =~= le_bytes(wire_of(roots.last()), 8));
        assert forall|i: int| 0 <= i < roots.len() implies root_at(raw, i) == roots[i] by {
            if i < n {
                assert(raw.subrange(8 * i, 8 * i + 8) =~= roots_bytes(head).subrange(
                    8 * i,
                    8 * i + 8,
                ));
                assert(roots_of(roots_bytes(head), head.len())[i] == head[i]);
            } else {
                law_wire_roundtrip(roots[i]);
            }
        }
        assert(roots_of(raw, roots.len()) =~= roots);
    }
}

/// Names are read as they were written, whatever follows them.
pub proof fn law_names_roundtrip(names: Seq<Seq<u8>>, rest: Seq<u8>)
    requires
        names_ok(names),
    ensures
        names_of(names_bytes(names) + rest, names.len()) == Some(names),
    decreases names.len(),
{
    if names.len() == 0 {
        assert(names =~= seq![]);
    } else {
        let first = names[0];
        let more = names.drop_first();
        let s = names_bytes(names) + rest;
        assert forall|i: int| 0 <= i < more.len() implies (#[trigger] more[i]).len() <= u16::MAX
            && valid_utf8(more[i]) by {
            assert(more[i] == names[i + 1]);
        }
        law_names_roundtrip(more, rest);
        lemma_pow256_values();
        lemma_le_roundtrip(first.len(), 2);
        lemma_name_parts(le_bytes(first.len(), 2), first, names_bytes(more), rest);
        assert(seq![first] + more =~= names);
    }
}

/// A name, its length in front of it and more behind it, taken apart.
proof fn lemma_name_parts(len: Seq<u8>, name: Seq<u8>, more: Seq<u8>, rest: Seq<u8>)
    requires
        len.len() == 2,
    ensures
        ({
            let s = len + name + more + rest;
            &&& s.len() >= 2 + name.len()
            &&& s.take(2) == len
            &&& s.subrange(2, 2 + name.len() as int) == name
            &&& s.skip(2 + name.len() as int) == more + rest
        }),
{
    let s = len + name + more + rest;
    assert(s.take(2) =~= len);
    assert(s.subrange(2, 2 + name.len() as int) =~= name);
    assert(s.skip(2 + name.len() as int) =~= more + rest);
}

/// The text of `bytes`, if they are UTF-8.
///
/// This is `std::str::from_utf8`: it succeeds exactly on UTF-8, and what it
/// returns are the characters that the bytes encode.
#[verifier::external_body]
fn utf8_text(bytes: &[u8]) -> (text: Option<&str>)
    ensures
        text is Some <==> valid_utf8(bytes@),
        text matches Some(s) ==> s@ == decode_utf8(bytes@),
{
    std::str::from_utf8(bytes).ok()
}

/// Whether `texts` are the texts of `names`.
pub open spec fn texts_of(texts: Seq<String>, names: Seq<Seq<u8>>) -> bool {
    &&& texts.len() == names.len()
    &&& forall|i: int| 0 <= i < names.len() ==> (#[trigger] texts[i])@ == decode_utf8(names[i])
}

/// The `n` names at the start of `buf`.
pub fn parse_names(buf: &[u8], n: usize) -> (r: Result<Vec<String>, DumpError>)
    ensures
        r matches Ok(texts) ==> names_of(buf@, n as nat) is Some && texts_of(
            texts@,
            names_of(buf@, n as nat)->0,
        ),
        r matches Err(e) ==> e == DumpError::MalformedNames && names_of(buf@, n as nat) is None,
{
    let mut out: Vec<String> = Vec::new();
    let mut pos: usize = 0;
    let mut left: usize = n;
    let ghost mut done = Seq::<Seq<u8>>::empty();
    proof {
        assert(buf@.skip(0) =~= buf@);
        lemma_names_prefix(done, buf@, n as nat);
    }
    while left > 0
        invariant
            left <= n,
            pos <= buf@.len(),
            texts_of(out@, done),
            names_of(buf@, n as nat) == names_after(done, buf@.skip(pos as int), left as nat),
        decreases left,
    {
        let ghost s = buf@.skip(pos as int);
        if buf.len() - pos < 2 {
            return Err(DumpError::MalformedNames);
        }
        let len_part = vstd::slice::slice_subrange(buf, pos, pos + 2);
        assert(len_part@ =~= s.take(2));
        proof {
            lemma_le_bound(len_part@);
            lemma_pow256_values();
        }
        let len: usize = get_le(len_part) as usize;
        if buf.len() - (pos + 2) < len {
            return Err(DumpError::MalformedNames);
        }
        let part = vstd::slice::slice_subrange(buf, pos + 2, pos + 2 + len);
        assert(part@ =~= s.subrange(2, 2 + len as int));
        match utf8_text(part) {
            None => {
                return Err(DumpError::MalformedNames);
            },
            Some(text) => {
                proof {
                    assert(s.skip(2 + len as int) =~= buf@.skip(pos + 2 + len));
                    lemma_names_after(done, s, left as nat, part@);
                    done = done.push(part@);
                }
                out.push(text.to_owned());
            },
        }
        pos = pos + 2 + len;
        left -= 1;
    }
    proof {
        assert(done + Seq::<Seq<u8>>::empty() =~= done);
    }
    Ok(out)
}

/// The names read so far, and those still to be read.
spec fn names_after(done: Seq<Seq<u8>>, s: Seq<u8>, n: nat) -> Option<Seq<Seq<u8>>> {
    match names_of(s, n) {
        None => None,
        Some(rest) => Some(done + rest),
    }
}

proof fn lemma_names_prefix(done: Seq<Seq<u8>>, s: Seq<u8>, n: nat)
    requires
        done.len() == 0,
    ensures
        names_after(done, s, n) == names_of(s, n),
{
    if let Some(rest) = names_of(s, n) {
        assert(done + rest =~= rest);
    }
}

proof fn lemma_names_after(done: Seq<Seq<u8>>, s: Seq<u8>, n: nat, name: Seq<u8>)
    requires
        n > 0,
        s.len() >= 2 + le_value(s.take(2)),
        name == s.subrange(2, 2 + le_value(s.take(2)) as int),
        valid_utf8(name),
    ensures
        names_after(done, s, n) == names_after(
            done.push(name),
            s.skip(2 + le_value(s.take(2)) as int),
            (n - 1) as nat,
        ),
{
    let t = s.skip(2 + le_value(s.take(2)) as int);
    if let Some(rest) = names_of(t, (n - 1) as nat) {
        assert(done + (seq![name] + rest) =~= done.push(name) + rest);
    }
}

// ---------------------------------------------------------------------------
// The whole dump
// ---------------------------------------------------------------------------

/// The header of a dump.
pub open spec fn header_for(vars: u32, arena: Seq<u8>, roots: Seq<Ref>, named: bool) -> Header {
    Header {
        format_version: FORMAT_VERSION,
        offset_width: OFFSET_WIDTH,
        flags: if named {
            FLAG_NAMED_ROOTS
        } else {
            0
        },
        num_vars: vars,
        num_roots: roots.len() as u32,
        arena_len: arena.len() as u64,
    }
}

/// A dump without its checksum.
pub open spec fn body_of(
    vars: u32,
    arena: Seq<u8>,
    roots: Seq<Ref>,
    names: Option<Seq<Seq<u8>>>,
) -> Seq<u8> {
    header_bytes(header_for(vars, arena, roots, names is Some)) + arena + roots_bytes(roots)
        + match names {
        Some(list) => names_bytes(list),
        None => seq![],
    }
}

/// `body` with its checksum behind it.
pub open spec fn sealed(body: Seq<u8>) -> Seq<u8> {
    body + le_bytes(crc_of(body) as nat, 4)
}

/// The body of a dump whose checksum fits.
pub open spec fn checked(bytes: Seq<u8>) -> Result<Seq<u8>, DumpError> {
    if bytes.len() < 4 {
        Err(DumpError::Truncated)
    } else {
        let body = bytes.take(bytes.len() - 4);
        let expected = le_value(bytes.skip(bytes.len() - 4)) as u32;
        let actual = crc_of(body);
        if expected != actual {
            Err(DumpError::CrcMismatch { expected, actual })
        } else {
            Ok(body)
        }
    }
}

/// The parts of a dump: its header, and the bytes of the arena, of the roots and
/// of what follows them.
pub struct Sections {
    pub header: Header,
    pub arena: Seq<u8>,
    pub roots: Seq<u8>,
    pub names: Seq<u8>,
}

/// The parts of a dump, or what is wrong with it: first its checksum, then its
/// header, then its length.
pub open spec fn sections(bytes: Seq<u8>) -> Result<Sections, DumpError> {
    match checked(bytes) {
        Err(e) => Err(e),
        Ok(body) => match header_of(body) {
            Err(e) => Err(e),
            Ok(header) => {
                let payload = body.skip(HEADER_SIZE as int);
                let a = header.arena_len as int;
                let r = a + 8 * header.num_roots;
                if payload.len() < r {
                    Err(DumpError::Truncated)
                } else {
                    Ok(
                        Sections {
                            header,
                            arena: payload.take(a),
                            roots: payload.subrange(a, r),
                            names: payload.skip(r),
                        },
                    )
                }
            },
        },
    }
}

/// A sealed body is read back.
pub proof fn law_seal_roundtrip(body: Seq<u8>)
    ensures
        checked(sealed(body)) == Ok::<Seq<u8>, DumpError>(body),
{
    let s = sealed(body);
    lemma_pow256_values();
    lemma_le_roundtrip(crc_of(body) as nat, 4);
    assert(s.take(s.len() - 4) =~= body);
    assert(s.skip(s.len() - 4) =~= le_bytes(crc_of(body) as nat, 4));
}

/// **Reading a dump gives back what was written**: the number of variables, the
/// arena, the roots and the names.
pub proof fn law_dump_roundtrip(
    vars: u32,
    arena: Seq<u8>,
    roots: Seq<Ref>,
    names: Option<Seq<Seq<u8>>>,
)
    requires
        arena.len() <= u64::MAX,
        roots.len() <= u32::MAX,
        forall|i: int| 0 <= i < roots.len() ==> wire_of(#[trigger] roots[i]) <= u64::MAX,
        names matches Some(list) ==> names_ok(list) && list.len() == roots.len(),
    ensures
        sections(sealed(body_of(vars, arena, roots, names))) is Ok,
        ({
            let sec = sections(sealed(body_of(vars, arena, roots, names)))->Ok_0;
            &&& sec.header == header_for(vars, arena, roots, names is Some)
            &&& sec.header.num_vars == vars
            &&& sec.header.num_roots == roots.len()
            &&& sec.arena == arena
            &&& roots_of(sec.roots, roots.len()) == roots
            &&& (sec.header.flags & FLAG_NAMED_ROOTS != 0) == (names is Some)
            &&& names matches Some(list) ==> names_of(sec.names, list.len()) == Some(list)
        }),
{
    let h = header_for(vars, arena, roots, names is Some);
    let tail = match names {
        Some(list) => names_bytes(list),
        None => seq![],
    };
    law_roots_roundtrip(roots);
    lemma_sections(h, arena, roots_bytes(roots), tail);
    assert(1u8 & 1 != 0 && 0u8 & 1 == 0) by (bit_vector);
    if let Some(list) = names {
        law_names_roundtrip(list, seq![]);
        assert(names_bytes(list) + Seq::<u8>::empty() =~= tail);
    }
}

/// A dump is taken apart at the lengths that its header gives.
proof fn lemma_sections(h: Header, arena: Seq<u8>, roots: Seq<u8>, names: Seq<u8>)
    requires
        h.format_version == FORMAT_VERSION,
        h.arena_len == arena.len(),
        8 * h.num_roots == roots.len(),
    ensures
        sections(sealed(header_bytes(h) + arena + roots + names)) == Ok::<Sections, DumpError>(
            Sections { header: h, arena, roots, names },
        ),
{
    let head = header_bytes(h);
    law_header_roundtrip(h, arena + roots + names);
    lemma_parts(head, arena, roots, names);
    law_seal_roundtrip(head + arena + roots + names);
}

/// Four parts in a row, taken apart at their lengths.
proof fn lemma_parts(head: Seq<u8>, arena: Seq<u8>, roots: Seq<u8>, names: Seq<u8>)
    ensures
        ({
            let body = head + arena + roots + names;
            let payload = body.skip(head.len() as int);
            let a = arena.len() as int;
            let r = a + roots.len();
            &&& body == head + (arena + roots + names)
            &&& payload.len() >= r
            &&& payload.take(a) == arena
            &&& payload.subrange(a, r) == roots
            &&& payload.skip(r) == names
        }),
{
    let body = head + arena + roots + names;
    let payload = body.skip(head.len() as int);
    let a = arena.len() as int;
    let r = a + roots.len();
    assert(body =~= head + (arena + roots + names));
    assert(payload =~= arena + roots + names);
    assert(payload.take(a) =~= arena);
    assert(payload.subrange(a, r) =~= roots);
    assert(payload.skip(r) =~= names);
}

/// The body of the dump `bytes`, if its checksum fits.
pub fn read_and_verify(bytes: &[u8]) -> (r: Result<&[u8], DumpError>)
    ensures
        r matches Ok(body) ==> checked(bytes@) == Ok::<Seq<u8>, DumpError>(body@),
        r matches Err(e) ==> checked(bytes@) == Err::<Seq<u8>, DumpError>(e),
{
    if bytes.len() < 4 {
        return Err(DumpError::Truncated);
    }
    let cut: usize = bytes.len() - 4;
    let body = vstd::slice::slice_subrange(bytes, 0, cut);
    let trailer = vstd::slice::slice_subrange(bytes, cut, bytes.len());
    proof {
        assert(body@ =~= bytes@.take(cut as int));
        assert(trailer@ =~= bytes@.skip(cut as int));
        lemma_le_bound(trailer@);
        lemma_pow256_values();
    }
    let expected: u32 = get_le(trailer) as u32;
    let actual: u32 = crc32(body);
    if expected != actual {
        return Err(DumpError::CrcMismatch { expected, actual });
    }
    Ok(body)
}

/// The header of a body, and what follows it.
fn split_header(buf: &[u8]) -> (r: Result<(Header, &[u8]), DumpError>)
    ensures
        r matches Ok((h, payload)) ==> header_of(buf@) == Ok::<Header, DumpError>(h) && payload@
            == buf@.skip(HEADER_SIZE as int),
        r matches Err(e) ==> header_of(buf@) == Err::<Header, DumpError>(e),
{
    match Header::parse(buf) {
        Err(e) => Err(e),
        Ok(header) => {
            let payload = vstd::slice::slice_subrange(buf, HEADER_SIZE, buf.len());
            assert(payload@ =~= buf@.skip(HEADER_SIZE as int));
            Ok((header, payload))
        },
    }
}

/// The arena, the roots and what follows them in a payload.
fn split_payload<'a>(header: &Header, payload: &'a [u8]) -> (r: Result<
    (&'a [u8], &'a [u8], &'a [u8]),
    DumpError,
>)
    ensures
        r matches Ok((arena, roots, names)) ==> {
            let a = header.arena_len as int;
            let e = a + 8 * header.num_roots;
            &&& payload@.len() >= e
            &&& arena@ == payload@.take(a)
            &&& roots@ == payload@.subrange(a, e)
            &&& names@ == payload@.skip(e)
        },
        r matches Err(e) ==> e == DumpError::Truncated && payload@.len() < header.arena_len + 8
            * header.num_roots,
{
    let total: u64 = payload.len() as u64;
    let roots_len: u64 = header.num_roots as u64 * 8;
    if total < header.arena_len || total - header.arena_len < roots_len {
        return Err(DumpError::Truncated);
    }
    let a: usize = header.arena_len as usize;
    let e: usize = (header.arena_len + roots_len) as usize;
    let arena = vstd::slice::slice_subrange(payload, 0, a);
    let roots = vstd::slice::slice_subrange(payload, a, e);
    let names = vstd::slice::slice_subrange(payload, e, payload.len());
    proof {
        assert(arena@ =~= payload@.take(a as int));
        assert(names@ =~= payload@.skip(e as int));
    }
    Ok((arena, roots, names))
}

/// The parts of the dump `bytes`: its header, its arena, its roots and what follows
/// them.
pub fn open_dump<'a>(bytes: &'a [u8]) -> (r: Result<(Header, &'a [u8], &'a [u8], &'a [u8]), DumpError>)
    ensures
        r matches Ok((header, arena, roots, names)) ==> sections(bytes@) == Ok::<
            Sections,
            DumpError,
        >(Sections { header, arena: arena@, roots: roots@, names: names@ }) && roots@.len() == 8
            * header.num_roots,
        r matches Err(e) ==> sections(bytes@) == Err::<Sections, DumpError>(e),
{
    match read_and_verify(bytes) {
        Err(e) => Err(e),
        Ok(body) => match split_header(body) {
            Err(e) => Err(e),
            Ok((header, payload)) => match split_payload(&header, payload) {
                Err(e) => Err(e),
                Ok((arena, roots, names)) => Ok((header, arena, roots, names)),
            },
        },
    }
}

/// Root number `i` of those in `raw`.
fn read_root(raw: &[u8], i: usize) -> (r: Ref)
    requires
        8 * i + 8 <= raw@.len(),
    ensures
        r == root_at(raw@, i as int),
{
    assert(raw@.len() == raw.len());
    let part = vstd::slice::slice_subrange(raw, i * 8, i * 8 + 8);
    wire_to_ref(get_le(part))
}

// ---------------------------------------------------------------------------
// Writing
// ---------------------------------------------------------------------------

/// The bytes of the names in a list of named roots.
pub open spec fn name_list(list: Seq<(Ref, &str)>) -> Seq<Seq<u8>> {
    list.map_values(|e: (Ref, &str)| encode_utf8(e.1@))
}

/// The roots in a list of named roots.
pub open spec fn root_list(list: Seq<(Ref, &str)>) -> Seq<Ref> {
    list.map_values(|e: (Ref, &str)| e.0)
}

/// Appends names to `out`.
fn put_names(list: &[(Ref, &str)], out: &mut Vec<u8>)
    requires
        forall|i: int|
            0 <= i < list@.len() ==> encode_utf8((#[trigger] list@[i]).1@).len() <= u16::MAX,
    ensures
        final(out)@ == old(out)@ + names_bytes(name_list(list@)),
{
    let ghost names = name_list(list@);
    let ghost start = out@;
    let mut i: usize = 0;
    assert(names.skip(0) =~= names);
    while i < list.len()
        invariant
            names == name_list(list@),
            i <= list@.len(),
            forall|k: int|
                0 <= k < list@.len() ==> encode_utf8((#[trigger] list@[k]).1@).len() <= u16::MAX,
            start + names_bytes(names) == out@ + names_bytes(names.skip(i as int)),
        decreases list@.len() - i,
    {
        let ghost before = out@;
        let ghost left = names.skip(i as int);
        let name = list[i].1.as_bytes();
        assert(name@ == encode_utf8(list@[i as int].1@));
        put_le(name.len() as u64, 2, out);
        out.extend_from_slice(name);
        proof {
            assert(left[0] == name@);
            assert(left.drop_first() =~= names.skip(i + 1));
            assert(before + names_bytes(left) =~= before + le_bytes(name@.len(), 2) + name@
                + names_bytes(names.skip(i + 1)));
            assert(out@ =~= before + le_bytes(name@.len(), 2) + name@);
        }
        i += 1;
    }
    proof {
        assert(names.skip(i as int) =~= seq![]);
        assert(out@ =~= start + names_bytes(names));
    }
}

impl Manager {
    /// The dump of the whole arena with the given roots and names.
    fn dump_inner(&self, roots: &[Ref], names: Option<&[(Ref, &str)]>) -> (bytes: Vec<u8>)
        requires
            self.wf(),
            roots@.len() <= u32::MAX,
            roots_in(self.nodes(), roots@),
            names matches Some(list) ==> forall|i: int|
                0 <= i < list@.len() ==> encode_utf8((#[trigger] list@[i]).1@).len() <= u16::MAX,
        ensures
            bytes@ == sealed(
                body_of(
                    self.vars(),
                    self.arena(),
                    roots@,
                    match names {
                        Some(list) => Some(name_list(list@)),
                        None => None,
                    },
                ),
            ),
    {
        let mut buf: Vec<u8> = Vec::new();
        let arena = self.arena_bytes();
        let named: bool = names.is_some();
        let header = Header {
            format_version: FORMAT_VERSION,
            offset_width: OFFSET_WIDTH,
            flags: if named {
                FLAG_NAMED_ROOTS
            } else {
                0
            },
            num_vars: self.num_vars(),
            num_roots: roots.len() as u32,
            arena_len: arena.len() as u64,
        };
        header.write_to(&mut buf);
        buf.extend_from_slice(arena);
        let ghost before = buf@;
        let mut i: usize = 0;
        proof {
            self.lemma_wf();
            assert(before =~= header_bytes(
                header_for(self.vars(), self.arena(), roots@, names is Some),
            ) + self.arena());
            assert(roots@.take(0) =~= seq![]);
            assert(buf@ =~= before + roots_bytes(roots@.take(0)));
        }
        while i < roots.len()
            invariant
                i <= roots@.len(),
                self.arena().len() <= u64::MAX,
                roots_in(self.nodes(), roots@),
                buf@ == before + roots_bytes(roots@.take(i as int)),
            decreases roots@.len() - i,
        {
            proof {
                assert(ref_in(self.nodes(), roots@[i as int]));
                if let Ref::Node(o) = roots@[i as int] {
                    lemma_node_at(self.arena(), o);
                }
                assert(roots@.take(i + 1).drop_last() =~= roots@.take(i as int));
            }
            let ghost at = buf@;
            put_le(ref_to_wire(roots[i]), 8, &mut buf);
            assert(buf@ =~= before + roots_bytes(roots@.take(i + 1)));
            i += 1;
        }
        let ghost after = buf@;
        assert(roots@.take(i as int) =~= roots@);
        if let Some(list) = names {
            put_names(list, &mut buf);
        } else {
            assert(buf@ =~= after + seq![]);
        }
        let crc: u32 = crc32(buf.as_slice());
        put_le(crc as u64, 4, &mut buf);
        buf
    }

    fn arena_bytes(&self) -> (s: &[u8])
        ensures
            s@ == self.arena(),
    {
        let s = self.arena_slice(0);
        assert(s@ =~= self.arena());
        s
    }

    /// A dump of what `roots` reach. The manager itself is collected to that, as
    /// by [`Manager::drop_roots`].
    pub fn dump(&mut self, roots: &[Ref]) -> (bytes: Vec<u8>)
        requires
            old(self).wf(),
            roots_in(old(self).nodes(), roots@),
            roots@.len() <= u32::MAX,
        ensures
            ({
                let (arena, kept) = collected(old(self).arena(), 0, roots@);
                &&& bytes@ == sealed(body_of(old(self).vars(), arena, kept, None))
                &&& final(self).arena() == arena
                &&& arena_ok(arena)
                &&& clean(nodes(arena), 0, kept)
                &&& kept.len() == roots@.len()
                &&& forall|i: int|
                    0 <= i < roots@.len() ==> final(self).has(#[trigger] kept[i])
                        && final(self).tree(kept[i]) == old(self).tree(roots@[i])
            }),
            forall|slots: nat, r: Result<(Manager, LoadedRoots), DumpError>| #[trigger]
                loaded(bytes@, slots, r) ==> (r matches Ok((m, l)) && {
                    &&& m.vars() == old(self).vars()
                    &&& l.names is None
                    &&& l.roots@.len() == roots@.len()
                    &&& forall|i: int|
                        0 <= i < roots@.len() ==> m.has(#[trigger] l.roots@[i]) && m.tree(
                            l.roots@[i],
                        ) == old(self).tree(roots@[i])
                }),
            final(self).memo() == if old(self).arena().len() == 0 {
                old(self).memo()
            } else {
                vacant(old(self).memo().len())
            },
            final(self).counters() == old(self).counters(),
            final(self).vars() == old(self).vars(),
            if old(self).arena().len() == 0 {
                final(self).unique_caps() == old(self).unique_caps()
            } else {
                final(self).tables_fitted(old(self))
            },
            final(self).wf(),
    {
        let cleaned: Vec<Ref> = self.drop_roots(roots);
        proof {
            self.lemma_wf();
            assert forall|i: int| 0 <= i < cleaned@.len() implies ref_in(
                self.nodes(),
                #[trigger] cleaned@[i],
            ) by {
                assert(self.has(cleaned@[i]));
            }
        }
        let bytes: Vec<u8> = self.dump_inner(cleaned.as_slice(), None);
        proof {
            assert forall|i: int| 0 <= i < roots@.len() implies old(self).has(
                #[trigger] roots@[i],
            ) by {
                assert(ref_in(old(self).nodes(), roots@[i]));
            }
            assert forall|slots: nat, r: Result<(Manager, LoadedRoots), DumpError>| #[trigger]
                loaded(bytes@, slots, r) implies (r matches Ok((m, l)) && {
                &&& m.vars() == old(self).vars()
                &&& l.names is None
                &&& l.roots@.len() == roots@.len()
                &&& forall|i: int|
                    0 <= i < roots@.len() ==> m.has(#[trigger] l.roots@[i]) && m.tree(l.roots@[i])
                        == old(self).tree(roots@[i])
            }) by {
                law_dump_load(old(self), roots@, slots, r);
            }
        }
        bytes
    }

    /// A dump of what the roots reach, with a name for each.
    pub fn dump_named(&mut self, roots_and_names: &[(Ref, &str)]) -> (bytes: Vec<u8>)
        requires
            old(self).wf(),
            roots_in(old(self).nodes(), root_list(roots_and_names@)),
            roots_and_names@.len() <= u32::MAX,
            forall|i: int|
                0 <= i < roots_and_names@.len() ==> encode_utf8(
                    (#[trigger] roots_and_names@[i]).1@,
                ).len() <= u16::MAX,
        ensures
            ({
                let roots = root_list(roots_and_names@);
                let (arena, kept) = collected(old(self).arena(), 0, roots);
                &&& bytes@ == sealed(
                    body_of(old(self).vars(), arena, kept, Some(name_list(roots_and_names@))),
                )
                &&& final(self).arena() == arena
                &&& arena_ok(arena)
                &&& clean(nodes(arena), 0, kept)
                &&& kept.len() == roots_and_names@.len()
                &&& forall|i: int|
                    0 <= i < roots_and_names@.len() ==> final(self).has(#[trigger] kept[i])
                        && final(self).tree(kept[i]) == old(self).tree(roots_and_names@[i].0)
            }),
            forall|slots: nat, r: Result<(Manager, LoadedRoots), DumpError>| #[trigger]
                loaded(bytes@, slots, r) ==> (r matches Ok((m, l)) && {
                    &&& m.vars() == old(self).vars()
                    &&& l.roots@.len() == roots_and_names@.len()
                    &&& l.names matches Some(texts) && texts@.len() == roots_and_names@.len()
                        && forall|i: int|
                        0 <= i < roots_and_names@.len() ==> {
                            &&& m.has(#[trigger] l.roots@[i])
                            &&& m.tree(l.roots@[i]) == old(self).tree(roots_and_names@[i].0)
                            &&& texts@[i]@ == roots_and_names@[i].1@
                        }
                }),
            final(self).memo() == if old(self).arena().len() == 0 {
                old(self).memo()
            } else {
                vacant(old(self).memo().len())
            },
            final(self).counters() == old(self).counters(),
            final(self).vars() == old(self).vars(),
            if old(self).arena().len() == 0 {
                final(self).unique_caps() == old(self).unique_caps()
            } else {
                final(self).tables_fitted(old(self))
            },
            final(self).wf(),
    {
        let mut roots: Vec<Ref> = Vec::new();
        let mut i: usize = 0;
        while i < roots_and_names.len()
            invariant
                i <= roots_and_names@.len(),
                roots@ == root_list(roots_and_names@).take(i as int),
            decreases roots_and_names@.len() - i,
        {
            roots.push(roots_and_names[i].0);
            i += 1;
            assert(roots@ =~= root_list(roots_and_names@).take(i as int));
        }
        assert(roots@ =~= root_list(roots_and_names@));
        let cleaned: Vec<Ref> = self.drop_roots(roots.as_slice());
        proof {
            self.lemma_wf();
            assert forall|k: int| 0 <= k < cleaned@.len() implies ref_in(
                self.nodes(),
                #[trigger] cleaned@[k],
            ) by {
                assert(self.has(cleaned@[k]));
            }
        }
        let bytes: Vec<u8> = self.dump_inner(cleaned.as_slice(), Some(roots_and_names));
        proof {
            assert forall|k: int| 0 <= k < roots_and_names@.len() implies old(self).has(
                (#[trigger] roots_and_names@[k]).0,
            ) by {
                assert(ref_in(old(self).nodes(), root_list(roots_and_names@)[k]));
            }
            assert forall|slots: nat, r: Result<(Manager, LoadedRoots), DumpError>| #[trigger]
                loaded(bytes@, slots, r) implies (r matches Ok((m, l)) && {
                &&& m.vars() == old(self).vars()
                &&& l.roots@.len() == roots_and_names@.len()
                &&& l.names matches Some(texts) && texts@.len() == roots_and_names@.len()
                    && forall|k: int|
                    0 <= k < roots_and_names@.len() ==> {
                        &&& m.has(#[trigger] l.roots@[k])
                        &&& m.tree(l.roots@[k]) == old(self).tree(roots_and_names@[k].0)
                        &&& texts@[k]@ == roots_and_names@[k].1@
                    }
            }) by {
                law_dump_named_load(old(self), roots_and_names@, slots, r);
            }
        }
        bytes
    }

    // -----------------------------------------------------------------------
    // Reading
    // -----------------------------------------------------------------------

    /// Loads a dump into a fresh manager with the default cache.
    pub fn load(bytes: &[u8]) -> (r: Result<(Self, LoadedRoots), DumpError>)
        requires
            loadable(bytes@),
        ensures
            loaded(bytes@, DEFAULT_ITE_CACHE_SLOTS as nat, r),
    {
        Manager::load_generic(bytes)
    }

    /// Loads a dump into a fresh manager with the default cache.
    pub fn load_generic(bytes: &[u8]) -> (r: Result<(Self, LoadedRoots), DumpError>)
        requires
            loadable(bytes@),
        ensures
            loaded(bytes@, DEFAULT_ITE_CACHE_SLOTS as nat, r),
    {
        Manager::load_with_config(bytes, ManagerConfig::new())
    }

    /// Loads a dump into a fresh manager with the options `config`.
    pub fn load_with_config(bytes: &[u8], config: ManagerConfig) -> (r: Result<
        (Self, LoadedRoots),
        DumpError,
    >)
        requires
            config.valid(),
            config.slots() * 32 <= isize::MAX,
            loadable(bytes@),
        ensures
            loaded(bytes@, config.slots(), r),
    {
        let (header, arena, roots_raw, names_raw) = match open_dump(bytes) {
            Err(e) => {
                return Err(e);
            },
            Ok(parts) => parts,
        };
        // Names are read first: where they are malformed, the arena does not matter.
        let names: Option<Vec<String>> = match read_names(&header, names_raw) {
            Err(e) => {
                return Err(e);
            },
            Ok(names) => names,
        };
        let mut mgr: Manager = Manager::with_config(config);
        let mut v: u32 = 0;
        while v < header.num_vars
            invariant
                v <= header.num_vars,
                mgr.wf(),
                mgr.arena() == Seq::<u8>::empty(),
                mgr.vars() == v,
                mgr.memo() == vacant(config.slots()),
                mgr.counters() == zeroed(false),
                mgr.unique_caps().len() == v,
            decreases header.num_vars - v,
        {
            let _v: u32 = mgr.new_var();
            v += 1;
        }
        assert(mgr.arena() + arena@ =~= arena@);
        mgr.absorb_arena_bytes(arena);
        let n: usize = header.num_roots as usize;
        let mut roots: Vec<Ref> = Vec::new();
        let mut i: usize = 0;
        while i < n
            invariant
                i <= n,
                roots_raw@.len() == 8 * n,
                roots@ == roots_of(roots_raw@, i as nat),
            decreases n - i,
        {
            roots.push(read_root(roots_raw, i));
            i += 1;
            assert(roots@ =~= roots_of(roots_raw@, i as nat));
        }
        Ok((mgr, LoadedRoots { roots, names }))
    }

    /// Appends the arena of a dump as it is.
    fn absorb_arena_bytes(&mut self, bytes: &[u8])
        requires
            old(self).wf(),
            arena_ok(old(self).arena() + bytes@),
        ensures
            final(self).arena() == old(self).arena() + bytes@,
            final(self).memo() == old(self).memo(),
            final(self).counters() == old(self).counters(),
            final(self).vars() == old(self).vars(),
            final(self).tables_fitted(old(self)),
            final(self).wf(),
    {
        self.extend_arena(bytes);
    }
}

/// Whether the names in a dump are malformed: it has the flag for names, and they
/// are not all there, or not all UTF-8.
pub open spec fn misnamed(sec: Sections) -> bool {
    sec.header.flags & FLAG_NAMED_ROOTS != 0 && names_of(
        sec.names,
        sec.header.num_roots as nat,
    ) is None
}

/// Whether loading `bytes` reports an error, or takes in a sound arena.
pub open spec fn loadable(bytes: Seq<u8>) -> bool {
    sections(bytes) matches Ok(sec) ==> misnamed(sec) || arena_ok(sec.arena)
}

/// The names of the roots, if the dump has any.
fn read_names(header: &Header, names_raw: &[u8]) -> (r: Result<Option<Vec<String>>, DumpError>)
    ensures
        ({
            let named = header.flags & FLAG_NAMED_ROOTS != 0;
            let n = header.num_roots as nat;
            match r {
                Ok(None) => !named,
                Ok(Some(texts)) => named && names_of(names_raw@, n) is Some && texts_of(
                    texts@,
                    names_of(names_raw@, n)->0,
                ),
                Err(e) => named && names_of(names_raw@, n) is None && e
                    == DumpError::MalformedNames,
            }
        }),
{
    if header.flags & FLAG_NAMED_ROOTS != 0 {
        match parse_names(names_raw, header.num_roots as usize) {
            Err(e) => Err(e),
            Ok(names) => Ok(Some(names)),
        }
    } else {
        Ok(None)
    }
}

/// Whether `bytes` can be handed to [`Manager::load`]: there is an error in them that
/// loading reports, or they are a dump with a sound arena.
pub fn can_load(bytes: &[u8]) -> (yes: bool)
    ensures
        yes == loadable(bytes@),
{
    match open_dump(bytes) {
        Err(_) => true,
        Ok((header, arena, _roots, names_raw)) => match read_names(&header, names_raw) {
            Err(_) => true,
            Ok(_) => arena_is_sound(arena),
        },
    }
}

/// What a dump was loaded with: its roots, and their names if it has any.
#[derive(Debug, Clone)]
pub struct LoadedRoots {
    pub roots: Vec<Ref>,
    pub names: Option<Vec<String>>,
}

/// What loading the dump `bytes` into a fresh manager with `slots` cache slots
/// gives: an error where there is one, else the arena, the roots and the names.
pub open spec fn loaded(
    bytes: Seq<u8>,
    slots: nat,
    r: Result<(Manager, LoadedRoots), DumpError>,
) -> bool {
    match sections(bytes) {
        Err(e) => r matches Err(f) && f == e,
        Ok(sec) => {
            let n = sec.header.num_roots as nat;
            let named = sec.header.flags & FLAG_NAMED_ROOTS != 0;
            if misnamed(sec) {
                r matches Err(f) && f == DumpError::MalformedNames
            } else {
                r matches Ok((m, loaded)) && {
                    &&& m.wf()
                    &&& m.arena() == sec.arena
                    &&& m.vars() == sec.header.num_vars
                    &&& m.memo() == vacant(slots)
                    &&& m.counters() == zeroed(false)
                    &&& m.unique_caps() == caps_fitted(
                        table_count(0, sec.header.num_vars, sec.arena),
                        sec.arena,
                    )
                    &&& loaded.roots@ == roots_of(sec.roots, n)
                    &&& !named ==> loaded.names is None
                    &&& named ==> (loaded.names matches Some(texts) && texts_of(
                        texts@,
                        names_of(sec.names, n)->0,
                    ))
                }
            }
        },
    }
}

// ---------------------------------------------------------------------------
// Merging
// ---------------------------------------------------------------------------

/// Where the foreign reference `r` went.
pub open spec fn translated(map: Map<u64, Ref>, r: Ref) -> Ref {
    match r {
        Ref::Terminal(_) => r,
        Ref::Node(o) => map[o],
    }
}

/// The arena after asking for the foreign nodes at `offs`, in order, and where
/// each of them went.
pub open spec fn absorbed(buf: Seq<u8>, f: Map<u64, Node>, offs: Seq<u64>) -> (
    Seq<u8>,
    Map<u64, Ref>,
)
    decreases offs.len(),
{
    if offs.len() == 0 {
        (buf, Map::empty())
    } else {
        let (mid, map) = absorbed(buf, f, offs.drop_last());
        let n = f[offs.last()];
        let (out, r) = intern(mid, n.var, translated(map, n.lo), translated(map, n.hi));
        (out, map.insert(offs.last(), r))
    }
}

/// Whether a manager with `vars` variables can absorb the dump: its variables are
/// declared, every foreign node stands behind its children and above them, and
/// the roots are foreign nodes.
pub open spec fn absorbable(sec: Sections, vars: u32) -> bool {
    &&& sec.header.num_vars <= vars
    &&& parses(sec.arena)
    &&& closed(nodes(sec.arena))
    &&& forall|o: u64| #[trigger]
        nodes(sec.arena).dom().contains(o) ==> nodes(sec.arena)[o].var < vars
    &&& roots_in(nodes(sec.arena), roots_of(sec.roots, sec.header.num_roots as nat))
}

/// Whether `r` in `m` stands for the function of `fr` in `f`.
spec fn stands_for(m: &Manager, r: Ref, f: Map<u64, Node>, fr: Ref) -> bool {
    &&& m.ready(r)
    &&& ref_level(m.nodes(), r) >= ref_level(f, fr)
    &&& same_function(m.tree(r), tree(f, fr))
}

/// What a foreign reference became, as long as its node has been asked for.
fn translate_child(r: Ref, translation: &HashMap<u64, Ref>) -> (t: Ref)
    requires
        r matches Ref::Node(o) ==> translation@.dom().contains(o),
    ensures
        t == translated(translation@, r),
{
    broadcast use vstd::std_specs::hash::group_hash_axioms;

    match r {
        Ref::Terminal(_) => r,
        Ref::Node(off) => *translation.get(&off).unwrap(),
    }
}

impl Manager {
    /// Whether `bytes` can be handed to [`Manager::absorb`]: they are no dump at all,
    /// which absorbing reports, or one that fits this manager.
    pub fn can_absorb(&self, bytes: &[u8]) -> (yes: bool)
        ensures
            yes == (sections(bytes@) matches Ok(sec) ==> absorbable(sec, self.vars())),
    {
        let (header, arena, roots_raw, _names) = match open_dump(bytes) {
            Err(_) => {
                return true;
            },
            Ok(parts) => parts,
        };
        if header.num_vars > self.num_vars() || !arena_is_closed(arena) {
            return false;
        }
        let ghost f = nodes(arena@);
        let ghost all = starts(arena@);
        let count: u32 = scan_max_var(arena);
        proof {
            lemma_max_var_count(f, all);
        }
        if count > self.num_vars() {
            proof {
                let i = choose|i: int|
                    0 <= i < all.len() && f[#[trigger] all[i]].var + 1 == max_var_count(f, all);
                assert(f.dom().contains(all[i]));
            }
            return false;
        }
        assert forall|o: u64| #[trigger] f.dom().contains(o) implies f[o].var < self.vars() by {
            let i = choose|i: int| 0 <= i < all.len() && all[i] == o;
            assert(f[all[i]].var < max_var_count(f, all));
        }
        let n: usize = header.num_roots as usize;
        let ghost foreign = roots_of(roots_raw@, n as nat);
        let mut i: usize = 0;
        while i < n
            invariant
                i <= n,
                n == header.num_roots,
                sections(bytes@) == Ok::<Sections, DumpError>(
                    Sections { header, arena: arena@, roots: roots_raw@, names: _names@ },
                ),
                parses(arena@),
                f == nodes(arena@),
                roots_raw@.len() == 8 * n,
                foreign == roots_of(roots_raw@, n as nat),
                forall|k: int| 0 <= k < i ==> ref_in(f, #[trigger] foreign[k]),
            decreases n - i,
        {
            let root: Ref = read_root(roots_raw, i);
            assert(foreign[i as int] == root);
            if !holds_ref(arena, root) {
                return false;
            }
            i += 1;
        }
        true
    }

    /// Takes the nodes of a dump into this manager, one by one: those that it has
    /// already are shared. Returns where the roots of the dump stand now. Equal
    /// variable numbers are taken for the same variable.
    pub fn absorb(&mut self, bytes: &[u8]) -> (r: Result<Vec<Ref>, DumpError>)
        requires
            old(self).wf(),
            sections(bytes@) matches Ok(sec) ==> absorbable(sec, old(self).vars()),
        ensures
            sections(bytes@) matches Err(e) ==> r == Err::<Vec<Ref>, DumpError>(e) && *final(self)
                == *old(self),
            sections(bytes@) matches Ok(sec) ==> {
                let f = nodes(sec.arena);
                let foreign = roots_of(sec.roots, sec.header.num_roots as nat);
                let (arena, map) = absorbed(old(self).arena(), f, starts(sec.arena));
                &&& r is Ok
                &&& final(self).arena() == arena
                &&& final(self).memo() == old(self).memo()
                &&& final(self).counters() == old(self).counters()
                &&& r->Ok_0@ == foreign.map_values(|fr: Ref| translated(map, fr))
                &&& forall|i: int|
                    0 <= i < foreign.len() ==> final(self).ready(#[trigger] r->Ok_0@[i])
                        && same_function(final(self).tree(r->Ok_0@[i]), tree(f, foreign[i]))
            },
            final(self).vars() == old(self).vars(),
            final(self).tables_grew(old(self)),
            final(self).wf(),
            final(self).keeps(old(self)),
    {
        broadcast use vstd::std_specs::hash::group_hash_axioms;

        proof {
            self.lemma_keeps_itself();
            lemma_caps_grown_same(self.unique_caps(), self.arena());
        }
        let (header, arena, roots_raw, _names) = match open_dump(bytes) {
            Err(e) => {
                return Err(e);
            },
            Ok(parts) => parts,
        };
        let ghost f = nodes(arena@);
        let ghost foreign = roots_of(roots_raw@, header.num_roots as nat);
        let ghost mut done = Seq::<u64>::empty();
        let mut translation: HashMap<u64, Ref> = HashMap::new();
        let mut pos: usize = 0;
        proof {
            assert(starts(arena@) =~= done + starts_from(arena@, 0));
            assert(translation@ =~= Map::empty());
        }
        while pos < arena.len()
            invariant
                parses(arena@),
                closed(f),
                f == nodes(arena@),
                forall|o: u64| #[trigger] f.dom().contains(o) ==> f[o].var < self.vars(),
                pos <= arena@.len(),
                parses_from(arena@, pos as nat),
                starts(arena@) == done + starts_from(arena@, pos as nat),
                old(self).wf(),
                self.wf(),
                self.vars() == old(self).vars(),
                self.memo() == old(self).memo(),
                self.counters() == old(self).counters(),
                self.keeps(old(self)),
                self.tables_grew(old(self)),
                (self.arena(), translation@) == absorbed(old(self).arena(), f, done),
                forall|o: u64| #[trigger] translation@.dom().contains(o) <==> done.contains(o),
                forall|o: u64| #[trigger]
                    translation@.dom().contains(o) ==> stands_for(
                        self,
                        translation@[o],
                        f,
                        Ref::Node(o),
                    ),
            decreases arena@.len() - pos,
        {
            broadcast use vstd::std_specs::hash::group_hash_axioms;

            let off: u64 = pos as u64;
            proof {
                lemma_next_node(arena@, done, pos as nat);
            }
            let (node, len): (Node, usize) = read_node(arena, off);
            proof {
                lemma_children_read(arena@, done, pos as nat);
                lemma_stands_for(self, translation@, f, node.lo);
                lemma_stands_for(self, translation@, f, node.hi);
            }
            let lo: Ref = translate_child(node.lo, &translation);
            let hi: Ref = translate_child(node.hi, &translation);
            let ghost before = *self;
            let new_ref: Ref = self.make_node(node.var, lo, hi);
            let ghost map = translation@;
            translation.insert(off, new_ref);
            proof {
                old(self).lemma_wf();
                before.lemma_wf();
                self.lemma_wf();
                lemma_caps_grown_trans(
                    old(self).unique_caps(),
                    old(self).arena(),
                    before.arena(),
                    self.arena(),
                );
                self.lemma_keeps_trans(&before, old(self));
                lemma_absorb_step(&before, self, f, off, lo, hi, new_ref);
                assert forall|o: u64| #[trigger] translation@.dom().contains(o) implies stands_for(
                    self,
                    translation@[o],
                    f,
                    Ref::Node(o),
                ) by {
                    if o != off {
                        assert(map.dom().contains(o));
                        lemma_still_stands(&before, self, map[o], f, Ref::Node(o));
                    }
                }
                let next = done.push(off);
                assert(next.drop_last() =~= done);
                assert forall|o: u64| #[trigger] translation@.dom().contains(o) <==> next.contains(
                    o,
                ) by {
                    if o == off {
                        assert(next[done.len() as int] == off);
                    } else if done.contains(o) {
                        let i = choose|i: int| 0 <= i < done.len() && done[i] == o;
                        assert(next[i] == o);
                    } else if next.contains(o) {
                        let i = choose|i: int| 0 <= i < next.len() && next[i] == o;
                        assert(done[i] == o);
                    }
                }
                done = next;
            }
            pos += len;
        }
        assert(done =~= starts(arena@));
        let n: usize = header.num_roots as usize;
        let mut roots: Vec<Ref> = Vec::new();
        let mut i: usize = 0;
        while i < n
            invariant
                i <= n,
                n == header.num_roots,
                closed(f),
                f == nodes(arena@),
                done == starts(arena@),
                roots_raw@.len() == 8 * n,
                foreign == roots_of(roots_raw@, n as nat),
                roots_in(f, foreign),
                forall|o: u64| #[trigger] translation@.dom().contains(o) <==> done.contains(o),
                forall|o: u64| #[trigger]
                    translation@.dom().contains(o) ==> stands_for(
                        self,
                        translation@[o],
                        f,
                        Ref::Node(o),
                    ),
                roots@ == foreign.take(i as int).map_values(
                    |fr: Ref| translated(translation@, fr),
                ),
                forall|k: int|
                    0 <= k < i ==> self.ready(#[trigger] roots@[k]) && same_function(
                        self.tree(roots@[k]),
                        tree(f, foreign[k]),
                    ),
            decreases n - i,
        {
            let foreign_ref: Ref = read_root(roots_raw, i);
            proof {
                assert(foreign[i as int] == foreign_ref);
                assert(ref_in(f, foreign[i as int]));
                if let Ref::Node(o) = foreign_ref {
                    assert(done.contains(o));
                    assert(translation@.dom().contains(o));
                }
                lemma_stands_for(self, translation@, f, foreign_ref);
            }
            roots.push(translate_child(foreign_ref, &translation));
            i += 1;
            assert(roots@ =~= foreign.take(i as int).map_values(
                |fr: Ref| translated(translation@, fr),
            ));
        }
        assert(foreign.take(i as int) =~= foreign);
        Ok(roots)
    }
}

/// The children of the next foreign node have been read.
proof fn lemma_children_read(buf: Seq<u8>, done: Seq<u64>, pos: nat)
    requires
        parses(buf),
        closed(nodes(buf)),
        pos < buf.len(),
        parses_from(buf, pos),
        starts(buf) == done + starts_from(buf, pos),
    ensures
        ({
            let s = nodes(buf);
            let n = s[pos as u64];
            &&& n.lo matches Ref::Node(o) ==> done.contains(o)
            &&& n.hi matches Ref::Node(o) ==> done.contains(o)
            &&& ref_in(s, n.lo)
            &&& ref_in(s, n.hi)
            &&& ref_level(s, n.lo) > n.var
            &&& ref_level(s, n.hi) > n.var
        }),
{
    lemma_next_node(buf, done, pos);
    reveal(closed);
    let n = nodes(buf)[pos as u64];
    assert(nodes(buf).dom().contains(pos as u64));
    lemma_before(buf, done, pos, n.lo);
    lemma_before(buf, done, pos, n.hi);
}

/// A foreign reference whose node has been read stands for its function.
proof fn lemma_stands_for(m: &Manager, map: Map<u64, Ref>, f: Map<u64, Node>, fr: Ref)
    requires
        fr matches Ref::Node(o) ==> map.dom().contains(o) && stands_for(
            m,
            map[o],
            f,
            Ref::Node(o),
        ),
    ensures
        stands_for(m, translated(map, fr), f, fr),
{
}

/// What stood for a function still does in a manager that has grown.
proof fn lemma_still_stands(before: &Manager, m: &Manager, r: Ref, f: Map<u64, Node>, fr: Ref)
    requires
        before.wf(),
        m.keeps(before),
        m.vars() == before.vars(),
        stands_for(before, r, f, fr),
    ensures
        stands_for(m, r, f, fr),
{
    before.lemma_wf();
    m.lemma_wf();
    assert(before.has(r));
    lemma_tree_ordered(before.nodes(), r);
    lemma_tree_ordered(m.nodes(), r);
}

/// The node made of what stands for the children stands for the foreign node.
proof fn lemma_absorb_step(
    before: &Manager,
    m: &Manager,
    f: Map<u64, Node>,
    off: u64,
    lo: Ref,
    hi: Ref,
    r: Ref,
)
    requires
        before.wf(),
        m.wf(),
        closed(f),
        f.dom().contains(off),
        stands_for(before, lo, f, f[off].lo),
        stands_for(before, hi, f, f[off].hi),
        m.ready(r),
        (m.arena(), r) == intern(before.arena(), f[off].var, lo, hi),
        internable(before.nodes(), f[off].var, lo, hi),
        forall|env: Env| #[trigger]
            eval(m.tree(r), env) == if env(f[off].var) {
                eval(before.tree(hi), env)
            } else {
                eval(before.tree(lo), env)
            },
    ensures
        stands_for(m, r, f, Ref::Node(off)),
{
    m.lemma_wf();
    before.lemma_wf();
    lemma_intern(before.arena(), f[off].var, lo, hi);
    let t = tree(f, Ref::Node(off));
    assert(t == Bdd::Branch {
        var: f[off].var,
        lo: Box::new(tree(f, f[off].lo)),
        hi: Box::new(tree(f, f[off].hi)),
    }) by {
        reveal(closed);
    }
    assert forall|env: Env| #[trigger] eval(m.tree(r), env) == eval(t, env) by {
        assert(eval(before.tree(lo), env) == eval(tree(f, f[off].lo), env));
        assert(eval(before.tree(hi), env) == eval(tree(f, f[off].hi), env));
    }
}

} // verus!
