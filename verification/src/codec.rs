//! The canonical binary form of objects.
//!
//! Every object has exactly one canonical encoding: a one-byte kind tag
//! followed by the kind's payload, with all lengths and counts as
//! 32-bit little-endian fields and all scalars little-endian.  The
//! digest of an object is the digest of this encoding.  Decoding is the
//! exact inverse: [`lemma_object_round_trip`] proves that decoding an
//! encoding yields the original object.

use vstd::prelude::*;
use vstd::arithmetic::div_mod::lemma_fundamental_div_mod;
use crate::oid::Oid;
use crate::object::{GitObject, GitObjectV, ObjectKind, TreeEntry, TreeEntryV, Identity, IdentityV,
    wf_object, wf_entry, wf_ident};

verus! {

// ---------------------------------------------------------------------
// scalar fields
// ---------------------------------------------------------------------

/// Little-endian encoding of a 32-bit value.
pub open spec fn enc_u32(v: u32) -> Seq<u8> {
    seq![
        (v % 256) as u8,
        ((v / 256) % 256) as u8,
        ((v / 0x10000) % 256) as u8,
        ((v / 0x1000000) % 256) as u8,
    ]
}

/// Decodes a 32-bit little-endian field at `pos`.
pub open spec fn dec_u32_at(s: Seq<u8>, pos: int) -> Option<(u32, int)> {
    if 0 <= pos && pos + 4 <= s.len() {
        Some((
            (s[pos] + s[pos + 1] * 256 + s[pos + 2] * 0x10000 + s[pos + 3] * 0x1000000) as u32,
            pos + 4,
        ))
    } else {
        None
    }
}

/// Little-endian encoding of a 64-bit value.
pub open spec fn enc_u64(v: u64) -> Seq<u8> {
    seq![
        (v % 256) as u8,
        ((v / 0x100) % 256) as u8,
        ((v / 0x10000) % 256) as u8,
        ((v / 0x1000000) % 256) as u8,
        ((v / 0x1_0000_0000) % 256) as u8,
        ((v / 0x100_0000_0000) % 256) as u8,
        ((v / 0x1_0000_0000_0000) % 256) as u8,
        ((v / 0x100_0000_0000_0000) % 256) as u8,
    ]
}

/// Decodes a 64-bit little-endian field at `pos`.
pub open spec fn dec_u64_at(s: Seq<u8>, pos: int) -> Option<(u64, int)> {
    if 0 <= pos && pos + 8 <= s.len() {
        Some((
            (s[pos] + s[pos + 1] * 0x100 + s[pos + 2] * 0x10000 + s[pos + 3] * 0x1000000
                + s[pos + 4] * 0x1_0000_0000 + s[pos + 5] * 0x100_0000_0000
                + s[pos + 6] * 0x1_0000_0000_0000 + s[pos + 7] * 0x100_0000_0000_0000) as u64,
            pos + 8,
        ))
    } else {
        None
    }
}

pub proof fn lemma_dec_u32_at(s: Seq<u8>, pos: int, v: u32)
    requires
        0 <= pos,
        pos + 4 <= s.len(),
        s.subrange(pos, pos + 4) =~= enc_u32(v),
    ensures
        dec_u32_at(s, pos) == Some((v, pos + 4)),
{
    assert(s[pos] == (v % 256) as u8);
    assert(s[pos + 1] == ((v / 256) % 256) as u8);
    assert(s[pos + 2] == ((v / 0x10000) % 256) as u8);
    assert(s[pos + 3] == ((v / 0x1000000) % 256) as u8);
    lemma_fundamental_div_mod(v as int, 256);
    lemma_fundamental_div_mod(v as int / 256, 256);
    lemma_fundamental_div_mod(v as int / 0x10000, 256);
    assert(v as int / 256 / 256 == v as int / 0x10000) by (nonlinear_arith);
    assert(v as int / 0x10000 / 256 == v as int / 0x1000000) by (nonlinear_arith);
    assert(v as int / 0x1000000 < 256);
    assert(v % 256 + (v / 256) % 256 * 256 + (v / 0x10000) % 256 * 0x10000
        + (v / 0x1000000) % 256 * 0x1000000 == v);
}

pub proof fn lemma_dec_u64_at(s: Seq<u8>, pos: int, v: u64)
    requires
        0 <= pos,
        pos + 8 <= s.len(),
        s.subrange(pos, pos + 8) =~= enc_u64(v),
    ensures
        dec_u64_at(s, pos) == Some((v, pos + 8)),
{
    assert(s[pos] == (v % 256) as u8);
    assert(s[pos + 1] == ((v / 0x100) % 256) as u8);
    assert(s[pos + 2] == ((v / 0x10000) % 256) as u8);
    assert(s[pos + 3] == ((v / 0x1000000) % 256) as u8);
    assert(s[pos + 4] == ((v / 0x1_0000_0000) % 256) as u8);
    assert(s[pos + 5] == ((v / 0x100_0000_0000) % 256) as u8);
    assert(s[pos + 6] == ((v / 0x1_0000_0000_0000) % 256) as u8);
    assert(s[pos + 7] == ((v / 0x100_0000_0000_0000) % 256) as u8);
    lemma_fundamental_div_mod(v as int, 256);
    lemma_fundamental_div_mod(v as int / 0x100, 256);
    lemma_fundamental_div_mod(v as int / 0x10000, 256);
    lemma_fundamental_div_mod(v as int / 0x1000000, 256);
    lemma_fundamental_div_mod(v as int / 0x1_0000_0000, 256);
    lemma_fundamental_div_mod(v as int / 0x100_0000_0000, 256);
    lemma_fundamental_div_mod(v as int / 0x1_0000_0000_0000, 256);
    assert(v as int / 0x100 / 256 == v as int / 0x10000) by (nonlinear_arith);
    assert(v as int / 0x10000 / 256 == v as int / 0x1000000) by (nonlinear_arith);
    assert(v as int / 0x1000000 / 256 == v as int / 0x1_0000_0000) by (nonlinear_arith);
    assert(v as int / 0x1_0000_0000 / 256 == v as int / 0x100_0000_0000) by (nonlinear_arith);
    assert(v as int / 0x100_0000_0000 / 256 == v as int / 0x1_0000_0000_0000)
        by (nonlinear_arith);
    assert(v as int / 0x1_0000_0000_0000 / 256 == v as int / 0x100_0000_0000_0000)
        by (nonlinear_arith);
    assert(v as int / 0x100_0000_0000_0000 < 256);
    assert(v % 256 + (v / 0x100) % 256 * 0x100 + (v / 0x10000) % 256 * 0x10000
        + (v / 0x1000000) % 256 * 0x1000000 + (v / 0x1_0000_0000) % 256 * 0x1_0000_0000
        + (v / 0x100_0000_0000) % 256 * 0x100_0000_0000
        + (v / 0x1_0000_0000_0000) % 256 * 0x1_0000_0000_0000
        + (v / 0x100_0000_0000_0000) % 256 * 0x100_0000_0000_0000 == v);
}

/// Appends the 32-bit little-endian form of `v`.
pub fn push_u32(out: &mut Vec<u8>, v: u32)
    ensures
        final(out)@ =~= old(out)@ + enc_u32(v),
{
    out.push((v % 256) as u8);
    out.push(((v / 256) % 256) as u8);
    out.push(((v / 0x10000) % 256) as u8);
    out.push(((v / 0x1000000) % 256) as u8);
}

/// Appends the 64-bit little-endian form of `v`.
pub fn push_u64(out: &mut Vec<u8>, v: u64)
    ensures
        final(out)@ =~= old(out)@ + enc_u64(v),
{
    out.push((v % 256) as u8);
    out.push(((v / 0x100) % 256) as u8);
    out.push(((v / 0x10000) % 256) as u8);
    out.push(((v / 0x1000000) % 256) as u8);
    out.push(((v / 0x1_0000_0000) % 256) as u8);
    out.push(((v / 0x100_0000_0000) % 256) as u8);
    out.push(((v / 0x1_0000_0000_0000) % 256) as u8);
    out.push(((v / 0x100_0000_0000_0000) % 256) as u8);
}

/// Reads a 32-bit little-endian field, mirroring [`dec_u32_at`].
pub fn read_u32(b: &Vec<u8>, pos: usize) -> (r: Option<(u32, usize)>)
    ensures
        match r {
            Some((v, p)) => dec_u32_at(b@, pos as int) == Some((v, p as int)),
            None => dec_u32_at(b@, pos as int) is None,
        },
{
    if pos <= b.len() && b.len() - pos >= 4 {
        let v: u32 = b[pos] as u32 + (b[pos + 1] as u32) * 256 + (b[pos + 2] as u32) * 0x10000
            + (b[pos + 3] as u32) * 0x1000000;
        Some((v, pos + 4))
    } else {
        None
    }
}

/// Reads a 64-bit little-endian field, mirroring [`dec_u64_at`].
pub fn read_u64(b: &Vec<u8>, pos: usize) -> (r: Option<(u64, usize)>)
    ensures
        match r {
            Some((v, p)) => dec_u64_at(b@, pos as int) == Some((v, p as int)),
            None => dec_u64_at(b@, pos as int) is None,
        },
{
    if pos <= b.len() && b.len() - pos >= 8 {
        let v: u64 = b[pos] as u64 + (b[pos + 1] as u64) * 0x100 + (b[pos + 2] as u64) * 0x10000
            + (b[pos + 3] as u64) * 0x1000000 + (b[pos + 4] as u64) * 0x1_0000_0000
            + (b[pos + 5] as u64) * 0x100_0000_0000 + (b[pos + 6] as u64) * 0x1_0000_0000_0000
            + (b[pos + 7] as u64) * 0x100_0000_0000_0000;
        Some((v, pos + 8))
    } else {
        None
    }
}

// ---------------------------------------------------------------------
// splitting a stream into the parts of a concatenation
// ---------------------------------------------------------------------

/// A window of a stream that holds a two-part concatenation splits into
/// a window per part.
pub proof fn lemma_split2(s: Seq<u8>, pos: int, a: Seq<u8>, b: Seq<u8>)
    requires
        0 <= pos,
        pos + a.len() + b.len() <= s.len(),
        s.subrange(pos, pos + a.len() + b.len()) == a + b,
    ensures
        s.subrange(pos, pos + a.len()) =~= a,
        s.subrange(pos + a.len(), pos + a.len() + b.len()) =~= b,
{
    let w = s.subrange(pos, pos + a.len() + b.len());
    assert forall|i: int| 0 <= i < a.len() implies s[pos + i] == a[i] by {
        assert(w[i] == (a + b)[i]);
    }
    assert forall|i: int| 0 <= i < b.len() implies s[pos + a.len() + i] == b[i] by {
        assert(w[a.len() + i] == (a + b)[a.len() + i]);
    }
}

// ---------------------------------------------------------------------
// kind tags, identifiers, byte strings
// ---------------------------------------------------------------------

/// The tag byte of an object kind.
pub open spec fn kind_byte(k: ObjectKind) -> u8 {
    match k {
        ObjectKind::Blob => 1,
        ObjectKind::Tree => 2,
        ObjectKind::Commit => 3,
        ObjectKind::Tag => 4,
    }
}

/// Encoding of an object kind: its single tag byte.
pub open spec fn enc_kind(k: ObjectKind) -> Seq<u8> {
    seq![kind_byte(k)]
}

/// Decodes a kind tag byte at `pos`.
pub open spec fn dec_kind_at(s: Seq<u8>, pos: int) -> Option<(ObjectKind, int)> {
    if 0 <= pos && pos + 1 <= s.len() {
        if s[pos] == 1 {
            Some((ObjectKind::Blob, pos + 1))
        } else if s[pos] == 2 {
            Some((ObjectKind::Tree, pos + 1))
        } else if s[pos] == 3 {
            Some((ObjectKind::Commit, pos + 1))
        } else if s[pos] == 4 {
            Some((ObjectKind::Tag, pos + 1))
        } else {
            None
        }
    } else {
        None
    }
}

pub proof fn lemma_dec_kind_at(s: Seq<u8>, pos: int, k: ObjectKind)
    requires
        0 <= pos,
        pos + 1 <= s.len(),
        s.subrange(pos, pos + 1) =~= enc_kind(k),
    ensures
        dec_kind_at(s, pos) == Some((k, pos + 1)),
{
    assert(s[pos] == s.subrange(pos, pos + 1)[0]);
}

/// Encoding of an object identifier: its three fields, little-endian.
pub open spec fn enc_oid(o: Oid) -> Seq<u8> {
    enc_u64(o.hash) + enc_u64(o.sum) + enc_u32(o.len)
}

/// Decodes a 20-byte object identifier at `pos`.
pub open spec fn dec_oid_at(s: Seq<u8>, pos: int) -> Option<(Oid, int)> {
    match dec_u64_at(s, pos) {
        Some((hash, p1)) => match dec_u64_at(s, p1) {
            Some((sum, p2)) => match dec_u32_at(s, p2) {
                Some((len, p3)) => Some((Oid { hash, sum, len }, p3)),
                None => None,
            },
            None => None,
        },
        None => None,
    }
}

pub proof fn lemma_dec_oid_at(s: Seq<u8>, pos: int, o: Oid)
    requires
        0 <= pos,
        pos + 20 <= s.len(),
        s.subrange(pos, pos + 20) =~= enc_oid(o),
    ensures
        dec_oid_at(s, pos) == Some((o, pos + 20)),
{
    lemma_split2(s, pos, enc_u64(o.hash) + enc_u64(o.sum), enc_u32(o.len));
    lemma_split2(s, pos, enc_u64(o.hash), enc_u64(o.sum));
    lemma_dec_u64_at(s, pos, o.hash);
    lemma_dec_u64_at(s, pos + 8, o.sum);
    lemma_dec_u32_at(s, pos + 16, o.len);
}

/// Encoding of a length-prefixed byte string.
pub open spec fn enc_bytes(b: Seq<u8>) -> Seq<u8> {
    enc_u32(b.len() as u32) + b
}

/// Decodes a length-prefixed byte string at `pos`.
pub open spec fn dec_bytes_at(s: Seq<u8>, pos: int) -> Option<(Seq<u8>, int)> {
    match dec_u32_at(s, pos) {
        Some((n, p1)) => {
            if p1 + n <= s.len() {
                Some((s.subrange(p1, p1 + n), p1 + n))
            } else {
                None
            }
        },
        None => None,
    }
}

pub proof fn lemma_dec_bytes_at(s: Seq<u8>, pos: int, b: Seq<u8>)
    requires
        0 <= pos,
        b.len() <= crate::oid::max_content_len(),
        pos + 4 + b.len() <= s.len(),
        s.subrange(pos, pos + 4 + b.len()) =~= enc_bytes(b),
    ensures
        dec_bytes_at(s, pos) == Some((b, pos + 4 + b.len())),
{
    lemma_split2(s, pos, enc_u32(b.len() as u32), b);
    lemma_dec_u32_at(s, pos, b.len() as u32);
}

/// Encoding of an identity: length-prefixed name, then the timestamp.
pub open spec fn enc_ident(i: IdentityV) -> Seq<u8> {
    enc_bytes(i.name) + enc_u64(i.timestamp)
}

/// Decodes an identity at `pos`.
pub open spec fn dec_ident_at(s: Seq<u8>, pos: int) -> Option<(IdentityV, int)> {
    match dec_bytes_at(s, pos) {
        Some((name, p1)) => match dec_u64_at(s, p1) {
            Some((timestamp, p2)) => Some((IdentityV { name, timestamp }, p2)),
            None => None,
        },
        None => None,
    }
}

pub proof fn lemma_dec_ident_at(s: Seq<u8>, pos: int, i: IdentityV)
    requires
        0 <= pos,
        wf_ident(i),
        pos + enc_ident(i).len() <= s.len(),
        s.subrange(pos, pos + enc_ident(i).len()) =~= enc_ident(i),
    ensures
        dec_ident_at(s, pos) == Some((i, pos + enc_ident(i).len())),
{
    let nl = i.name.len() as int;
    lemma_split2(s, pos, enc_bytes(i.name), enc_u64(i.timestamp));
    lemma_dec_bytes_at(s, pos, i.name);
    lemma_dec_u64_at(s, pos + 4 + nl, i.timestamp);
}

/// Encoding of an optional byte string: an absent/present tag byte,
/// then the string when present.
pub open spec fn enc_opt_bytes(b: Option<Seq<u8>>) -> Seq<u8> {
    match b {
        None => seq![0u8],
        Some(x) => seq![1u8] + enc_bytes(x),
    }
}

/// Decodes an optional byte string at `pos`.
pub open spec fn dec_opt_bytes_at(s: Seq<u8>, pos: int) -> Option<(Option<Seq<u8>>, int)> {
    if 0 <= pos && pos + 1 <= s.len() {
        if s[pos] == 0 {
            Some((None, pos + 1))
        } else if s[pos] == 1 {
            match dec_bytes_at(s, pos + 1) {
                Some((b, p1)) => Some((Some(b), p1)),
                None => None,
            }
        } else {
            None
        }
    } else {
        None
    }
}

pub proof fn lemma_dec_opt_bytes_at(s: Seq<u8>, pos: int, b: Option<Seq<u8>>)
    requires
        0 <= pos,
        match b {
            Some(x) => x.len() <= crate::oid::max_content_len(),
            None => true,
        },
        pos + enc_opt_bytes(b).len() <= s.len(),
        s.subrange(pos, pos + enc_opt_bytes(b).len()) =~= enc_opt_bytes(b),
    ensures
        dec_opt_bytes_at(s, pos) == Some((b, pos + enc_opt_bytes(b).len())),
{
    match b {
        None => {
            assert(s[pos] == s.subrange(pos, pos + 1)[0]);
        },
        Some(x) => {
            lemma_split2(s, pos, seq![1u8], enc_bytes(x));
            assert(s[pos] == s.subrange(pos, pos + 1)[0]);
            lemma_dec_bytes_at(s, pos + 1, x);
        },
    }
}

// ---------------------------------------------------------------------
// tree entries and identifier lists
// ---------------------------------------------------------------------

/// Encoding of one tree entry.
pub open spec fn enc_entry(e: TreeEntryV) -> Seq<u8> {
    enc_u32(e.mode) + enc_bytes(e.name) + enc_oid(e.child) + enc_kind(e.kind)
}

/// Decodes one tree entry at `pos`.
pub open spec fn dec_entry_at(s: Seq<u8>, pos: int) -> Option<(TreeEntryV, int)> {
    match dec_u32_at(s, pos) {
        Some((mode, p1)) => match dec_bytes_at(s, p1) {
            Some((name, p2)) => match dec_oid_at(s, p2) {
                Some((child, p3)) => match dec_kind_at(s, p3) {
                    Some((kind, p4)) => Some((TreeEntryV { mode, name, child, kind }, p4)),
                    None => None,
                },
                None => None,
            },
            None => None,
        },
        None => None,
    }
}

pub proof fn lemma_dec_entry_at(s: Seq<u8>, pos: int, e: TreeEntryV)
    requires
        0 <= pos,
        wf_entry(e),
        pos + enc_entry(e).len() <= s.len(),
        s.subrange(pos, pos + enc_entry(e).len()) =~= enc_entry(e),
    ensures
        dec_entry_at(s, pos) == Some((e, pos + enc_entry(e).len())),
{
    let nl = e.name.len() as int;
    lemma_split2(s, pos, enc_u32(e.mode) + enc_bytes(e.name) + enc_oid(e.child),
        enc_kind(e.kind));
    lemma_split2(s, pos, enc_u32(e.mode) + enc_bytes(e.name), enc_oid(e.child));
    lemma_split2(s, pos, enc_u32(e.mode), enc_bytes(e.name));
    lemma_dec_u32_at(s, pos, e.mode);
    lemma_dec_bytes_at(s, pos + 4, e.name);
    lemma_dec_oid_at(s, pos + 8 + nl, e.child);
    lemma_dec_kind_at(s, pos + 28 + nl, e.kind);
}

/// Encoding of a sequence of tree entries, first to last.
pub open spec fn enc_entries(es: Seq<TreeEntryV>) -> Seq<u8>
    decreases es.len(),
{
    if es.len() == 0 {
        Seq::empty()
    } else {
        enc_entry(es.first()) + enc_entries(es.skip(1))
    }
}

/// Decodes exactly `n` tree entries at `pos`.
pub open spec fn dec_entries_at(s: Seq<u8>, pos: int, n: nat) -> Option<(Seq<TreeEntryV>, int)>
    decreases n,
{
    if n == 0 {
        Some((Seq::empty(), pos))
    } else {
        match dec_entry_at(s, pos) {
            Some((e, p1)) => match dec_entries_at(s, p1, (n - 1) as nat) {
                Some((rest, p2)) => Some((seq![e] + rest, p2)),
                None => None,
            },
            None => None,
        }
    }
}

pub proof fn lemma_dec_entries_at(s: Seq<u8>, pos: int, es: Seq<TreeEntryV>)
    requires
        0 <= pos,
        forall|i: int| 0 <= i < es.len() ==> wf_entry(#[trigger] es[i]),
        pos + enc_entries(es).len() <= s.len(),
        s.subrange(pos, pos + enc_entries(es).len()) =~= enc_entries(es),
    ensures
        dec_entries_at(s, pos, es.len()) == Some((es, pos + enc_entries(es).len())),
    decreases es.len(),
{
    if es.len() == 0 {
        assert(es =~= Seq::<TreeEntryV>::empty());
    } else {
        let e = es.first();
        let el = enc_entry(e).len() as int;
        lemma_split2(s, pos, enc_entry(e), enc_entries(es.skip(1)));
        lemma_dec_entry_at(s, pos, e);
        lemma_dec_entries_at(s, pos + el, es.skip(1));
        assert(seq![e] + es.skip(1) =~= es);
    }
}

/// Encoding of a sequence of object identifiers, first to last.
pub open spec fn enc_oids(os: Seq<Oid>) -> Seq<u8>
    decreases os.len(),
{
    if os.len() == 0 {
        Seq::empty()
    } else {
        enc_oid(os.first()) + enc_oids(os.skip(1))
    }
}

/// Decodes exactly `n` object identifiers at `pos`.
pub open spec fn dec_oids_at(s: Seq<u8>, pos: int, n: nat) -> Option<(Seq<Oid>, int)>
    decreases n,
{
    if n == 0 {
        Some((Seq::empty(), pos))
    } else {
        match dec_oid_at(s, pos) {
            Some((o, p1)) => match dec_oids_at(s, p1, (n - 1) as nat) {
                Some((rest, p2)) => Some((seq![o] + rest, p2)),
                None => None,
            },
            None => None,
        }
    }
}

pub proof fn lemma_enc_oids_len(os: Seq<Oid>)
    ensures
        enc_oids(os).len() == 20 * os.len(),
    decreases os.len(),
{
    if os.len() > 0 {
        lemma_enc_oids_len(os.skip(1));
    }
}

pub proof fn lemma_dec_oids_at(s: Seq<u8>, pos: int, os: Seq<Oid>)
    requires
        0 <= pos,
        pos + enc_oids(os).len() <= s.len(),
        s.subrange(pos, pos + enc_oids(os).len()) =~= enc_oids(os),
    ensures
        dec_oids_at(s, pos, os.len()) == Some((os, pos + enc_oids(os).len())),
    decreases os.len(),
{
    if os.len() == 0 {
        assert(os =~= Seq::<Oid>::empty());
    } else {
        let o = os.first();
        lemma_split2(s, pos, enc_oid(o), enc_oids(os.skip(1)));
        lemma_dec_oid_at(s, pos, o);
        lemma_dec_oids_at(s, pos + 20, os.skip(1));
        assert(seq![o] + os.skip(1) =~= os);
    }
}

// ---------------------------------------------------------------------
// whole objects
// ---------------------------------------------------------------------

/// The canonical encoding of an object: kind tag, then the payload.
pub open spec fn enc_obj(o: GitObjectV) -> Seq<u8> {
    match o {
        GitObjectV::Blob { data } => enc_kind(ObjectKind::Blob) + enc_bytes(data),
        GitObjectV::Tree { entries } => enc_kind(ObjectKind::Tree)
            + enc_u32(entries.len() as u32) + enc_entries(entries),
        GitObjectV::Commit { tree, parents, author, committer, message, signature } =>
            enc_kind(ObjectKind::Commit) + enc_oid(tree) + enc_u32(parents.len() as u32)
            + enc_oids(parents) + enc_ident(author) + enc_ident(committer)
            + enc_bytes(message) + enc_opt_bytes(signature),
        GitObjectV::Tag { target, target_kind, tagger, message } =>
            enc_kind(ObjectKind::Tag) + enc_oid(target) + enc_kind(target_kind)
            + enc_ident(tagger) + enc_bytes(message),
    }
}

/// Decodes one object at `pos`.
pub open spec fn dec_obj_at(s: Seq<u8>, pos: int) -> Option<(GitObjectV, int)> {
    match dec_kind_at(s, pos) {
        Some((ObjectKind::Blob, p1)) => match dec_bytes_at(s, p1) {
            Some((data, p2)) => Some((GitObjectV::Blob { data }, p2)),
            None => None,
        },
        Some((ObjectKind::Tree, p1)) => match dec_u32_at(s, p1) {
            Some((n, p2)) => match dec_entries_at(s, p2, n as nat) {
                Some((entries, p3)) => Some((GitObjectV::Tree { entries }, p3)),
                None => None,
            },
            None => None,
        },
        Some((ObjectKind::Commit, p1)) => match dec_oid_at(s, p1) {
            Some((tree, p2)) => match dec_u32_at(s, p2) {
                Some((n, p3)) => match dec_oids_at(s, p3, n as nat) {
                    Some((parents, p4)) => match dec_ident_at(s, p4) {
                        Some((author, p5)) => match dec_ident_at(s, p5) {
                            Some((committer, p6)) => match dec_bytes_at(s, p6) {
                                Some((message, p7)) => match dec_opt_bytes_at(s, p7) {
                                    Some((signature, p8)) => Some((
                                        GitObjectV::Commit {
                                            tree, parents, author, committer, message, signature,
                                        },
                                        p8,
                                    )),
                                    None => None,
                                },
                                None => None,
                            },
                            None => None,
                        },
                        None => None,
                    },
                    None => None,
                },
                None => None,
            },
            None => None,
        },
        Some((ObjectKind::Tag, p1)) => match dec_oid_at(s, p1) {
            Some((target, p2)) => match dec_kind_at(s, p2) {
                Some((target_kind, p3)) => match dec_ident_at(s, p3) {
                    Some((tagger, p4)) => match dec_bytes_at(s, p4) {
                        Some((message, p5)) => Some((
                            GitObjectV::Tag { target, target_kind, tagger, message },
                            p5,
                        )),
                        None => None,
                    },
                    None => None,
                },
                None => None,
            },
            None => None,
        },
        None => None,
    }
}

/// Decodes a complete byte string as exactly one object.
pub open spec fn dec_obj(s: Seq<u8>) -> Option<GitObjectV> {
    match dec_obj_at(s, 0) {
        Some((o, p)) => if p == s.len() {
            Some(o)
        } else {
            None
        },
        None => None,
    }
}

/// An object parsed from the middle of a stream decodes back to itself.
#[verifier::rlimit(100)]
pub proof fn lemma_dec_obj_at(s: Seq<u8>, pos: int, o: GitObjectV)
    requires
        0 <= pos,
        wf_object(o),
        pos + enc_obj(o).len() <= s.len(),
        s.subrange(pos, pos + enc_obj(o).len()) =~= enc_obj(o),
    ensures
        dec_obj_at(s, pos) == Some((o, pos + enc_obj(o).len())),
{
    match o {
        GitObjectV::Blob { data } => {
            lemma_split2(s, pos, enc_kind(ObjectKind::Blob), enc_bytes(data));
            lemma_dec_kind_at(s, pos, ObjectKind::Blob);
            lemma_dec_bytes_at(s, pos + 1, data);
        },
        GitObjectV::Tree { entries } => {
            let n32 = entries.len() as u32;
            lemma_split2(s, pos, enc_kind(ObjectKind::Tree) + enc_u32(n32),
                enc_entries(entries));
            lemma_split2(s, pos, enc_kind(ObjectKind::Tree), enc_u32(n32));
            lemma_dec_kind_at(s, pos, ObjectKind::Tree);
            lemma_dec_u32_at(s, pos + 1, n32);
            lemma_dec_entries_at(s, pos + 5, entries);
        },
        GitObjectV::Commit { .. } => {
            lemma_dec_commit_at(s, pos, o);
        },
        GitObjectV::Tag { .. } => {
            lemma_dec_tag_at(s, pos, o);
        },
    }
}

#[verifier::rlimit(100)]
proof fn lemma_parts8(s: Seq<u8>, pos: int, k: Seq<u8>, t: Seq<u8>, n: Seq<u8>, ps: Seq<u8>,
    a: Seq<u8>, c: Seq<u8>, m: Seq<u8>, g: Seq<u8>)
    requires
        0 <= pos,
        pos + (k + t + n + ps + a + c + m + g).len() <= s.len(),
        s.subrange(pos, pos + (k + t + n + ps + a + c + m + g).len())
            == k + t + n + ps + a + c + m + g,
    ensures
        s.subrange(pos, pos + k.len()) =~= k,
        s.subrange(pos + k.len(), pos + k.len() + t.len()) =~= t,
        s.subrange(pos + k.len() + t.len(), pos + k.len() + t.len() + n.len()) =~= n,
        s.subrange(pos + k.len() + t.len() + n.len(),
            pos + k.len() + t.len() + n.len() + ps.len()) =~= ps,
        s.subrange(pos + k.len() + t.len() + n.len() + ps.len(),
            pos + k.len() + t.len() + n.len() + ps.len() + a.len()) =~= a,
        s.subrange(pos + k.len() + t.len() + n.len() + ps.len() + a.len(),
            pos + k.len() + t.len() + n.len() + ps.len() + a.len() + c.len()) =~= c,
        s.subrange(pos + k.len() + t.len() + n.len() + ps.len() + a.len() + c.len(),
            pos + k.len() + t.len() + n.len() + ps.len() + a.len() + c.len() + m.len()) =~= m,
        s.subrange(pos + k.len() + t.len() + n.len() + ps.len() + a.len() + c.len() + m.len(),
            pos + k.len() + t.len() + n.len() + ps.len() + a.len() + c.len() + m.len()
                + g.len()) =~= g,
{
    lemma_split2(s, pos, k + t + n + ps + a + c + m, g);
    lemma_split2(s, pos, k + t + n + ps + a + c, m);
    lemma_split2(s, pos, k + t + n + ps + a, c);
    lemma_split2(s, pos, k + t + n + ps, a);
    lemma_split2(s, pos, k + t + n, ps);
    lemma_split2(s, pos, k + t, n);
    lemma_split2(s, pos, k, t);
}

#[verifier::rlimit(100)]
proof fn lemma_dec_commit_at(s: Seq<u8>, pos: int, o: GitObjectV)
    requires
        0 <= pos,
        wf_object(o),
        o is Commit,
        pos + enc_obj(o).len() <= s.len(),
        s.subrange(pos, pos + enc_obj(o).len()) =~= enc_obj(o),
    ensures
        dec_obj_at(s, pos) == Some((o, pos + enc_obj(o).len())),
{
    match o {
        GitObjectV::Commit { tree, parents, author, committer, message, signature } => {
            lemma_enc_oids_len(parents);
            let n32 = parents.len() as u32;
            let k = enc_kind(ObjectKind::Commit);
            let t = enc_oid(tree);
            let n = enc_u32(n32);
            let ps = enc_oids(parents);
            let a = enc_ident(author);
            let c = enc_ident(committer);
            let m = enc_bytes(message);
            let g = enc_opt_bytes(signature);
            lemma_parts8(s, pos, k, t, n, ps, a, c, m, g);
            let p2 = pos + 21;
            let p3 = p2 + 4;
            let p4 = p3 + ps.len();
            let p5 = p4 + a.len();
            let p6 = p5 + c.len();
            let p7 = p6 + m.len();
            lemma_dec_kind_at(s, pos, ObjectKind::Commit);
            lemma_dec_oid_at(s, pos + 1, tree);
            lemma_dec_u32_at(s, p2, n32);
            lemma_dec_oids_at(s, p3, parents);
            lemma_dec_ident_at(s, p4, author);
            lemma_dec_ident_at(s, p5, committer);
            lemma_dec_bytes_at(s, p6, message);
            lemma_dec_opt_bytes_at(s, p7, signature);
        },
        _ => {},
    }
}

#[verifier::rlimit(100)]
proof fn lemma_dec_tag_at(s: Seq<u8>, pos: int, o: GitObjectV)
    requires
        0 <= pos,
        wf_object(o),
        o is Tag,
        pos + enc_obj(o).len() <= s.len(),
        s.subrange(pos, pos + enc_obj(o).len()) =~= enc_obj(o),
    ensures
        dec_obj_at(s, pos) == Some((o, pos + enc_obj(o).len())),
{
    match o {
        GitObjectV::Tag { target, target_kind, tagger, message } => {
            let k = enc_kind(ObjectKind::Tag);
            let t = enc_oid(target);
            let tk = enc_kind(target_kind);
            let g = enc_ident(tagger);
            let m = enc_bytes(message);
            lemma_split2(s, pos, k + t + tk + g, m);
            lemma_split2(s, pos, k + t + tk, g);
            lemma_split2(s, pos, k + t, tk);
            lemma_split2(s, pos, k, t);
            let p2 = pos + 21;
            let p3 = p2 + 1;
            let p4 = p3 + g.len();
            lemma_dec_kind_at(s, pos, ObjectKind::Tag);
            lemma_dec_oid_at(s, pos + 1, target);
            lemma_dec_kind_at(s, p2, target_kind);
            lemma_dec_ident_at(s, p3, tagger);
            lemma_dec_bytes_at(s, p4, message);
        },
        _ => {},
    }
}

// ---------------------------------------------------------------------
// executable encoding
// ---------------------------------------------------------------------

proof fn lemma_enc_entries_snoc(s: Seq<TreeEntryV>, e: TreeEntryV)
    ensures
        enc_entries(s.push(e)) == enc_entries(s) + enc_entry(e),
    decreases s.len(),
{
    if s.len() == 0 {
        assert(s.push(e).skip(1) =~= Seq::<TreeEntryV>::empty());
        assert(s.push(e).first() == e);
        assert(enc_entries(s.push(e)) == enc_entry(e) + enc_entries(Seq::<TreeEntryV>::empty()));
        assert(enc_entry(e) + Seq::<u8>::empty() =~= enc_entry(e));
        assert(enc_entries(s) + enc_entry(e) =~= enc_entry(e));
    } else {
        assert(s.push(e).skip(1) =~= s.skip(1).push(e));
        assert(s.push(e).first() == s.first());
        lemma_enc_entries_snoc(s.skip(1), e);
        vstd::seq_lib::lemma_concat_associative(
            enc_entry(s.first()), enc_entries(s.skip(1)), enc_entry(e));
    }
}

proof fn lemma_enc_oids_snoc(s: Seq<Oid>, o: Oid)
    ensures
        enc_oids(s.push(o)) == enc_oids(s) + enc_oid(o),
    decreases s.len(),
{
    if s.len() == 0 {
        assert(s.push(o).skip(1) =~= Seq::<Oid>::empty());
        assert(s.push(o).first() == o);
        assert(enc_oids(s.push(o)) == enc_oid(o) + enc_oids(Seq::<Oid>::empty()));
        assert(enc_oid(o) + Seq::<u8>::empty() =~= enc_oid(o));
        assert(enc_oids(s) + enc_oid(o) =~= enc_oid(o));
    } else {
        assert(s.push(o).skip(1) =~= s.skip(1).push(o));
        assert(s.push(o).first() == s.first());
        lemma_enc_oids_snoc(s.skip(1), o);
        vstd::seq_lib::lemma_concat_associative(
            enc_oid(s.first()), enc_oids(s.skip(1)), enc_oid(o));
    }
}

/// Appends the encoding of an object identifier.
pub fn push_oid(out: &mut Vec<u8>, o: &Oid)
    ensures
        final(out)@ =~= old(out)@ + enc_oid(*o),
{
    push_u64(out, o.hash);
    push_u64(out, o.sum);
    push_u32(out, o.len);
}

/// Appends a length-prefixed byte string.
pub fn push_bytes(out: &mut Vec<u8>, b: &Vec<u8>)
    requires
        b@.len() <= crate::oid::max_content_len(),
    ensures
        final(out)@ =~= old(out)@ + enc_bytes(b@),
{
    push_u32(out, b.len() as u32);
    let mut j: usize = 0;
    while j < b.len()
        invariant
            0 <= j <= b@.len(),
            out@ =~= old(out)@ + enc_u32(b@.len() as u32) + b@.take(j as int),
        decreases b@.len() - j,
    {
        out.push(b[j]);
        proof {
            assert(b@.take(j + 1) =~= b@.take(j as int).push(b@[j as int]));
        }
        j = j + 1;
    }
    proof {
        assert(b@.take(b@.len() as int) =~= b@);
    }
}

/// Appends the encoding of an identity.
pub fn push_ident(out: &mut Vec<u8>, i: &Identity)
    requires
        wf_ident(i@),
    ensures
        final(out)@ =~= old(out)@ + enc_ident(i@),
{
    push_bytes(out, &i.name);
    push_u64(out, i.timestamp);
}

/// Appends the encoding of an optional byte string.
pub fn push_opt_bytes(out: &mut Vec<u8>, b: &Option<Vec<u8>>)
    requires
        match b {
            Some(x) => x@.len() <= crate::oid::max_content_len(),
            None => true,
        },
    ensures
        final(out)@ =~= old(out)@ + enc_opt_bytes(match b {
            Some(x) => Some(x@),
            None => None,
        }),
{
    match b {
        None => {
            out.push(0u8);
        },
        Some(x) => {
            out.push(1u8);
            push_bytes(out, x);
        },
    }
}

/// Appends the encoding of one tree entry.
pub fn push_entry(out: &mut Vec<u8>, e: &TreeEntry)
    requires
        wf_entry(e@),
    ensures
        final(out)@ =~= old(out)@ + enc_entry(e@),
{
    push_u32(out, e.mode);
    push_bytes(out, &e.name);
    push_oid(out, &e.child);
    let tag: u8 = match e.kind {
        ObjectKind::Blob => 1,
        ObjectKind::Tree => 2,
        ObjectKind::Commit => 3,
        ObjectKind::Tag => 4,
    };
    out.push(tag);
}

/// Produces the canonical encoding of an object.
pub fn encode_object(o: &GitObject) -> (r: Vec<u8>)
    requires
        wf_object(o@),
    ensures
        r@ == enc_obj(o@),
{
    let mut out: Vec<u8> = Vec::new();
    match o {
        GitObject::Blob { data } => {
            out.push(1u8);
            push_bytes(&mut out, data);
        },
        GitObject::Tree { entries } => {
            out.push(2u8);
            push_u32(&mut out, entries.len() as u32);
            let ghost head = out@;
            proof {
                let evs = entries@.map_values(|t: TreeEntry| t@);
                assert forall|k: int| 0 <= k < entries@.len()
                    implies wf_entry(#[trigger] entries@[k]@) by {
                    assert(wf_entry(evs[k]));
                }
            }
            let mut i: usize = 0;
            while i < entries.len()
                invariant
                    0 <= i <= entries@.len(),
                    forall|k: int| 0 <= k < entries@.len() ==> wf_entry(#[trigger] entries@[k]@),
                    out@ =~= head
                        + enc_entries(entries@.map_values(|t: TreeEntry| t@).take(i as int)),
                decreases entries@.len() - i,
            {
                let ghost evs = entries@.map_values(|t: TreeEntry| t@);
                push_entry(&mut out, &entries[i]);
                proof {
                    assert(evs.take(i + 1) =~= evs.take(i as int).push(evs[i as int]));
                    lemma_enc_entries_snoc(evs.take(i as int), evs[i as int]);
                }
                i = i + 1;
            }
            proof {
                let evs = entries@.map_values(|t: TreeEntry| t@);
                assert(evs.take(evs.len() as int) =~= evs);
            }
        },
        GitObject::Commit { tree, parents, author, committer, message, signature } => {
            out.push(3u8);
            push_oid(&mut out, tree);
            push_u32(&mut out, parents.len() as u32);
            let ghost head = out@;
            let mut i: usize = 0;
            while i < parents.len()
                invariant
                    0 <= i <= parents@.len(),
                    out@ =~= head + enc_oids(parents@.take(i as int)),
                decreases parents@.len() - i,
            {
                push_oid(&mut out, &parents[i]);
                proof {
                    assert(parents@.take(i + 1)
                        =~= parents@.take(i as int).push(parents@[i as int]));
                    lemma_enc_oids_snoc(parents@.take(i as int), parents@[i as int]);
                }
                i = i + 1;
            }
            proof {
                assert(parents@.take(parents@.len() as int) =~= parents@);
            }
            push_ident(&mut out, author);
            push_ident(&mut out, committer);
            push_bytes(&mut out, message);
            push_opt_bytes(&mut out, signature);
        },
        GitObject::Tag { target, target_kind, tagger, message } => {
            out.push(4u8);
            push_oid(&mut out, target);
            let tag: u8 = match target_kind {
                ObjectKind::Blob => 1,
                ObjectKind::Tree => 2,
                ObjectKind::Commit => 3,
                ObjectKind::Tag => 4,
            };
            out.push(tag);
            push_ident(&mut out, tagger);
            push_bytes(&mut out, message);
        },
    }
    proof {
        assert(out@ =~= enc_obj(o@));
    }
    out
}

// ---------------------------------------------------------------------
// executable decoding
// ---------------------------------------------------------------------

/// Reads an object identifier, mirroring [`dec_oid_at`].
pub fn read_oid(b: &Vec<u8>, pos: usize) -> (r: Option<(Oid, usize)>)
    ensures
        match r {
            Some((v, p)) => dec_oid_at(b@, pos as int) == Some((v, p as int)),
            None => dec_oid_at(b@, pos as int) is None,
        },
{
    match read_u64(b, pos) {
        Some((hash, p1)) => match read_u64(b, p1) {
            Some((sum, p2)) => match read_u32(b, p2) {
                Some((len, p3)) => Some((Oid { hash, sum, len }, p3)),
                None => None,
            },
            None => None,
        },
        None => None,
    }
}

/// Reads a kind tag byte, mirroring [`dec_kind_at`].
pub fn read_kind(b: &Vec<u8>, pos: usize) -> (r: Option<(ObjectKind, usize)>)
    ensures
        match r {
            Some((v, p)) => dec_kind_at(b@, pos as int) == Some((v, p as int)),
            None => dec_kind_at(b@, pos as int) is None,
        },
{
    if pos < b.len() {
        let t = b[pos];
        if t == 1 {
            Some((ObjectKind::Blob, pos + 1))
        } else if t == 2 {
            Some((ObjectKind::Tree, pos + 1))
        } else if t == 3 {
            Some((ObjectKind::Commit, pos + 1))
        } else if t == 4 {
            Some((ObjectKind::Tag, pos + 1))
        } else {
            None
        }
    } else {
        None
    }
}

/// Reads a length-prefixed byte string, mirroring [`dec_bytes_at`].
pub fn read_bytes(b: &Vec<u8>, pos: usize) -> (r: Option<(Vec<u8>, usize)>)
    ensures
        match r {
            Some((v, p)) => dec_bytes_at(b@, pos as int) == Some((v@, p as int)),
            None => dec_bytes_at(b@, pos as int) is None,
        },
{
    match read_u32(b, pos) {
        Some((n, p1)) => {
            let n = n as usize;
            if p1 <= b.len() && b.len() - p1 >= n {
                let end: usize = p1 + n;
                let mut out: Vec<u8> = Vec::new();
                let mut j: usize = p1;
                while j < end
                    invariant
                        p1 <= j <= end,
                        end <= b@.len(),
                        out@ =~= b@.subrange(p1 as int, j as int),
                    decreases end - j,
                {
                    out.push(b[j]);
                    proof {
                        assert(b@.subrange(p1 as int, j + 1)
                            =~= b@.subrange(p1 as int, j as int).push(b@[j as int]));
                    }
                    j = j + 1;
                }
                Some((out, end))
            } else {
                None
            }
        },
        None => None,
    }
}

/// Reads an identity, mirroring [`dec_ident_at`].
pub fn read_ident(b: &Vec<u8>, pos: usize) -> (r: Option<(Identity, usize)>)
    ensures
        match r {
            Some((v, p)) => dec_ident_at(b@, pos as int) == Some((v@, p as int)),
            None => dec_ident_at(b@, pos as int) is None,
        },
{
    match read_bytes(b, pos) {
        Some((name, p1)) => match read_u64(b, p1) {
            Some((timestamp, p2)) => Some((Identity { name, timestamp }, p2)),
            None => None,
        },
        None => None,
    }
}

/// Reads an optional byte string, mirroring [`dec_opt_bytes_at`].
pub fn read_opt_bytes(b: &Vec<u8>, pos: usize) -> (r: Option<(Option<Vec<u8>>, usize)>)
    ensures
        match r {
            Some((v, p)) => dec_opt_bytes_at(b@, pos as int) == Some((
                match v {
                    Some(x) => Some(x@),
                    None => None,
                },
                p as int,
            )),
            None => dec_opt_bytes_at(b@, pos as int) is None,
        },
{
    if pos < b.len() {
        let t = b[pos];
        if t == 0 {
            Some((None, pos + 1))
        } else if t == 1 {
            match read_bytes(b, pos + 1) {
                Some((x, p1)) => Some((Some(x), p1)),
                None => None,
            }
        } else {
            None
        }
    } else {
        None
    }
}

/// Reads one tree entry, mirroring [`dec_entry_at`].
pub fn read_entry(b: &Vec<u8>, pos: usize) -> (r: Option<(TreeEntry, usize)>)
    ensures
        match r {
            Some((v, p)) => dec_entry_at(b@, pos as int) == Some((v@, p as int)),
            None => dec_entry_at(b@, pos as int) is None,
        },
{
    match read_u32(b, pos) {
        Some((mode, p1)) => match read_bytes(b, p1) {
            Some((name, p2)) => match read_oid(b, p2) {
                Some((child, p3)) => match read_kind(b, p3) {
                    Some((kind, p4)) => Some((TreeEntry { mode, name, child, kind }, p4)),
                    None => None,
                },
                None => None,
            },
            None => None,
        },
        None => None,
    }
}

/// Reads exactly `n` tree entries, mirroring [`dec_entries_at`].
pub fn read_entries(b: &Vec<u8>, pos: usize, n: u32) -> (r: Option<(Vec<TreeEntry>, usize)>)
    ensures
        match r {
            Some((v, p)) => dec_entries_at(b@, pos as int, n as nat)
                == Some((v@.map_values(|t: TreeEntry| t@), p as int)),
            None => dec_entries_at(b@, pos as int, n as nat) is None,
        },
{
    let mut acc: Vec<TreeEntry> = Vec::new();
    let mut cur: usize = pos;
    let mut i: u32 = 0;
    while i < n
        invariant
            0 <= i <= n,
            match dec_entries_at(b@, cur as int, (n - i) as nat) {
                Some((rest, p)) => dec_entries_at(b@, pos as int, n as nat)
                    == Some((acc@.map_values(|t: TreeEntry| t@) + rest, p)),
                None => dec_entries_at(b@, pos as int, n as nat) is None,
            },
        decreases n - i,
    {
        let ghost accv = acc@.map_values(|t: TreeEntry| t@);
        match read_entry(b, cur) {
            Some((e, p1)) => {
                let ghost ev = e@;
                acc.push(e);
                proof {
                    assert(acc@.map_values(|t: TreeEntry| t@) =~= accv + seq![ev]);
                    let tail = dec_entries_at(b@, p1 as int, (n - i - 1) as nat);
                    if tail is Some {
                        let rest2 = tail->Some_0.0;
                        assert(accv + (seq![ev] + rest2) =~= (accv + seq![ev]) + rest2);
                    }
                }
                cur = p1;
                i = i + 1;
            },
            None => {
                return None;
            },
        }
    }
    proof {
        assert(acc@.map_values(|t: TreeEntry| t@) + Seq::<TreeEntryV>::empty()
            =~= acc@.map_values(|t: TreeEntry| t@));
    }
    Some((acc, cur))
}

/// Decodes a complete canonical encoding as one object.
///
/// Succeeds exactly on the byte strings that [`dec_obj`] accepts, and
/// fails with [`GitError::CorruptPack`] on every other input.
#[verifier::rlimit(100)]
pub fn decode_object(b: &Vec<u8>) -> (r: Result<GitObject, crate::errors::GitError>)
    ensures
        match r {
            Ok(o) => dec_obj(b@) == Some(o@),
            Err(e) => dec_obj(b@) is None && e == crate::errors::GitError::CorruptPack,
        },
{
    let parsed: Option<(GitObject, usize)> = match read_kind(b, 0) {
        Some((ObjectKind::Blob, p1)) => match read_bytes(b, p1) {
            Some((data, p2)) => Some((GitObject::Blob { data }, p2)),
            None => None,
        },
        Some((ObjectKind::Tree, p1)) => match read_u32(b, p1) {
            Some((n, p2)) => match read_entries(b, p2, n) {
                Some((entries, p3)) => Some((GitObject::Tree { entries }, p3)),
                None => None,
            },
            None => None,
        },
        Some((ObjectKind::Commit, p1)) => match read_oid(b, p1) {
            Some((tree, p2)) => match read_u32(b, p2) {
                Some((n, p3)) => match read_oids(b, p3, n) {
                    Some((parents, p4)) => match read_ident(b, p4) {
                        Some((author, p5)) => match read_ident(b, p5) {
                            Some((committer, p6)) => match read_bytes(b, p6) {
                                Some((message, p7)) => match read_opt_bytes(b, p7) {
                                    Some((signature, p8)) => Some((
                                        GitObject::Commit {
                                            tree, parents, author, committer, message, signature,
                                        },
                                        p8,
                                    )),
                                    None => None,
                                },
                                None => None,
                            },
                            None => None,
                        },
                        None => None,
                    },
                    None => None,
                },
                None => None,
            },
            None => None,
        },
        Some((ObjectKind::Tag, p1)) => match read_oid(b, p1) {
            Some((target, p2)) => match read_kind(b, p2) {
                Some((target_kind, p3)) => match read_ident(b, p3) {
                    Some((tagger, p4)) => match read_bytes(b, p4) {
                        Some((message, p5)) => Some((
                            GitObject::Tag { target, target_kind, tagger, message },
                            p5,
                        )),
                        None => None,
                    },
                    None => None,
                },
                None => None,
            },
            None => None,
        },
        None => None,
    };
    match parsed {
        Some((o, p)) => {
            if p == b.len() {
                Ok(o)
            } else {
                Err(crate::errors::GitError::CorruptPack)
            }
        },
        None => Err(crate::errors::GitError::CorruptPack),
    }
}

/// Reads exactly `n` object identifiers, mirroring [`dec_oids_at`].
pub fn read_oids(b: &Vec<u8>, pos: usize, n: u32) -> (r: Option<(Vec<Oid>, usize)>)
    ensures
        match r {
            Some((v, p)) => dec_oids_at(b@, pos as int, n as nat) == Some((v@, p as int)),
            None => dec_oids_at(b@, pos as int, n as nat) is None,
        },
{
    let mut acc: Vec<Oid> = Vec::new();
    let mut cur: usize = pos;
    let mut i: u32 = 0;
    while i < n
        invariant
            0 <= i <= n,
            match dec_oids_at(b@, cur as int, (n - i) as nat) {
                Some((rest, p)) => dec_oids_at(b@, pos as int, n as nat)
                    == Some((acc@ + rest, p)),
                None => dec_oids_at(b@, pos as int, n as nat) is None,
            },
        decreases n - i,
    {
        match read_oid(b, cur) {
            Some((o, p1)) => {
                acc.push(o);
                cur = p1;
                i = i + 1;
            },
            None => {
                return None;
            },
        }
    }
    proof {
        assert(acc@ + Seq::<Oid>::empty() =~= acc@);
    }
    Some((acc, cur))
}

/// Round-trip: decoding the canonical encoding of any well-formed
/// object yields that object, byte model for byte model.
pub proof fn lemma_object_round_trip(o: GitObjectV)
    requires
        wf_object(o),
    ensures
        dec_obj(enc_obj(o)) == Some(o),
{
    let s = enc_obj(o);
    assert(s.subrange(0, s.len() as int) =~= s);
    lemma_dec_obj_at(s, 0, o);
}

} // verus!
