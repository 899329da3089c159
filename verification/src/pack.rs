//! The pack codec: a self-describing binary container for object sets.
//!
//! A pack is a header (magic, version, object count), a sequence of
//! records, and a trailing content digest of everything before it.
//! Each record declares the decoded size of its object's canonical
//! encoding and carries it either whole or as a delta against the
//! previous record's bytes (a copied prefix plus inserted remainder).
//! Delta is a size optimization only: decoding yields the identical
//! object either way, and a record whose declared size does not match
//! the reconstructed length is rejected as corrupt.

use vstd::prelude::*;
use crate::oid::{Oid, oid_of, hash_prefix, max_content_len};
use crate::object::{GitObject, GitObjectV, TreeEntry, wf_object};
use crate::codec::{enc_u32, dec_u32_at, enc_oid, dec_oid_at, enc_obj, dec_obj, encode_object,
    decode_object, read_u32, read_oid, push_u32, push_oid, lemma_dec_u32_at, lemma_dec_oid_at,
    lemma_split2, lemma_object_round_trip};
use crate::store::ObjectStore;
use crate::errors::GitError;

verus! {

/// The pack magic number.
pub open spec fn pack_magic() -> u32 {
    0x4B434150
}

/// The pack format version.
pub open spec fn pack_version() -> u32 {
    1
}

/// How one record carries its bytes.
#[verifier::ext_equal]
pub ghost enum RecordForm {
    /// The object's bytes stand whole in the record.
    Whole,
    /// The first `k` bytes are copied from the previous record's
    /// bytes; the rest are inserted literally.
    Prefix { k: int },
}

/// The encoding of one record carrying bytes `b`.
pub open spec fn enc_record(b: Seq<u8>, form: RecordForm) -> Seq<u8> {
    match form {
        RecordForm::Whole => enc_u32(b.len() as u32) + seq![0u8] + b,
        RecordForm::Prefix { k } => enc_u32(b.len() as u32) + seq![1u8] + enc_u32(k as u32)
            + b.skip(k),
    }
}

/// When a record form is valid for bytes `b` after previous bytes
/// `prev`.
pub open spec fn record_ok(b: Seq<u8>, prev: Option<Seq<u8>>, form: RecordForm) -> bool {
    &&& b.len() <= max_content_len()
    &&& match form {
        RecordForm::Whole => true,
        RecordForm::Prefix { k } => {
            &&& 0 <= k <= b.len()
            &&& prev is Some
            &&& k <= prev->0.len()
            &&& prev->0.take(k) == b.take(k)
        },
    }
}

/// Decodes one record at `pos`, reconstructing the carried bytes.
#[verifier::opaque]
pub open spec fn dec_record_at(s: Seq<u8>, pos: int, prev: Option<Seq<u8>>)
    -> Option<(Seq<u8>, int)>
{
    match dec_u32_at(s, pos) {
        Some((size, p1)) => if p1 + 1 <= s.len() {
            if s[p1] == 0 {
                if p1 + 1 + size <= s.len() {
                    Some((s.subrange(p1 + 1, p1 + 1 + size), p1 + 1 + size))
                } else {
                    None
                }
            } else if s[p1] == 1 {
                match prev {
                    Some(base) => match dec_u32_at(s, p1 + 1) {
                        Some((k, p2)) => if k <= base.len() && k <= size
                            && p2 + (size - k) <= s.len() {
                            Some((base.take(k as int) + s.subrange(p2, p2 + (size - k)),
                                p2 + (size - k)))
                        } else {
                            None
                        },
                        None => None,
                    },
                    None => None,
                }
            } else {
                None
            }
        } else {
            None
        },
        None => None,
    }
}

/// The encoding of a sequence of records, each delta-chained to its
/// predecessor.
#[verifier::opaque]
pub open spec fn enc_records(bl: Seq<Seq<u8>>, forms: Seq<RecordForm>) -> Seq<u8>
    decreases bl.len(),
{
    if bl.len() == 0 {
        Seq::empty()
    } else {
        enc_record(bl.first(), forms.first()) + enc_records(bl.skip(1), forms.skip(1))
    }
}

/// Validity of a record chain starting after `prev`.
#[verifier::opaque]
pub open spec fn records_ok(bl: Seq<Seq<u8>>, prev: Option<Seq<u8>>, forms: Seq<RecordForm>)
    -> bool
    decreases bl.len(),
{
    if bl.len() == 0 {
        true
    } else {
        record_ok(bl.first(), prev, forms.first())
            && records_ok(bl.skip(1), Some(bl.first()), forms.skip(1))
    }
}

/// Decodes exactly `n` records at `pos`.
pub open spec fn dec_records_at(s: Seq<u8>, pos: int, n: nat, prev: Option<Seq<u8>>)
    -> Option<(Seq<Seq<u8>>, int)>
    decreases n,
{
    if n == 0 {
        Some((Seq::empty(), pos))
    } else {
        match dec_record_at(s, pos, prev) {
            Some((b, p1)) => match dec_records_at(s, p1, (n - 1) as nat, Some(b)) {
                Some((rest, p2)) => Some((seq![b] + rest, p2)),
                None => None,
            },
            None => None,
        }
    }
}

/// The object a record's bytes decode to.  Equal to [`dec_obj`] by
/// definition; kept opaque so that reasoning about whole packs treats
/// per-record decoding as a single fact instead of re-expanding the
/// object decoder.
#[verifier::opaque]
pub open spec fn obj_decoded(b: Seq<u8>) -> Option<GitObjectV> {
    dec_obj(b)
}

pub proof fn lemma_obj_decoded(b: Seq<u8>)
    ensures
        obj_decoded(b) == dec_obj(b),
{
    reveal(obj_decoded);
}

/// Decodes every record's bytes as one object each.
pub open spec fn objs_of(bl: Seq<Seq<u8>>) -> Option<Seq<GitObjectV>>
    decreases bl.len(),
{
    if bl.len() == 0 {
        Some(Seq::empty())
    } else {
        match obj_decoded(bl.first()) {
            Some(o) => match objs_of(bl.skip(1)) {
                Some(rest) => Some(seq![o] + rest),
                None => None,
            },
            None => None,
        }
    }
}

/// An object the store can accept: well formed, with an encoding that
/// fits the digest's length field.
pub open spec fn storable(o: GitObjectV) -> bool {
    wf_object(o) && enc_obj(o).len() <= max_content_len()
}

/// All objects of a sequence are storable.
pub open spec fn all_storable(objs: Seq<GitObjectV>) -> bool {
    forall|i: int| 0 <= i < objs.len() ==> storable(#[trigger] objs[i])
}

/// The store map after writing a sequence of objects in order, with
/// already-present digests left untouched.
pub open spec fn store_after(m: Map<Oid, GitObjectV>, objs: Seq<GitObjectV>)
    -> Map<Oid, GitObjectV>
    decreases objs.len(),
{
    if objs.len() == 0 {
        m
    } else {
        let k = oid_of(enc_obj(objs.first()));
        let m1 = if m.contains_key(k) {
            m
        } else {
            m.insert(k, objs.first())
        };
        store_after(m1, objs.skip(1))
    }
}

/// The length of the records section with every record carried whole.
pub open spec fn whole_records_len(bl: Seq<Seq<u8>>) -> int
    decreases bl.len(),
{
    if bl.len() == 0 {
        0
    } else {
        5 + bl.first().len() + whole_records_len(bl.skip(1))
    }
}

/// The length of a pack carrying the given objects whole: header,
/// one undeltified record per object, trailing digest.  The encoder
/// never exceeds it, since a delta record is shorter than its whole
/// form.
pub open spec fn whole_pack_len(m: Map<Oid, GitObjectV>, oids: Seq<Oid>) -> int
    decreases oids.len(),
{
    if oids.len() == 0 {
        32
    } else {
        5 + enc_obj(m[oids.first()]).len() + whole_pack_len(m, oids.skip(1))
    }
}

proof fn lemma_whole_records_len_snoc(bl: Seq<Seq<u8>>, b: Seq<u8>)
    ensures
        whole_records_len(bl.push(b)) == whole_records_len(bl) + 5 + b.len(),
    decreases bl.len(),
{
    if bl.len() == 0 {
        assert(bl.push(b).first() == b);
        assert(bl.push(b).skip(1) =~= Seq::<Seq<u8>>::empty());
        assert(whole_records_len(bl.push(b))
            == 5 + b.len() + whole_records_len(bl.push(b).skip(1)));
    } else {
        assert(bl.push(b).first() == bl.first());
        assert(bl.push(b).skip(1) =~= bl.skip(1).push(b));
        lemma_whole_records_len_snoc(bl.skip(1), b);
        assert(whole_records_len(bl.push(b))
            == 5 + bl.first().len() + whole_records_len(bl.skip(1).push(b)));
        assert(whole_records_len(bl)
            == 5 + bl.first().len() + whole_records_len(bl.skip(1)));
    }
}

proof fn lemma_whole_pack_len(m: Map<Oid, GitObjectV>, oids: Seq<Oid>, bv: Seq<Seq<u8>>)
    requires
        bv.len() == oids.len(),
        forall|k: int| 0 <= k < bv.len() ==> #[trigger] bv[k] == enc_obj(m[oids[k]]),
    ensures
        whole_pack_len(m, oids) == 32 + whole_records_len(bv),
    decreases oids.len(),
{
    if oids.len() > 0 {
        assert(bv[0] == enc_obj(m[oids.first()]));
        assert forall|k: int| 0 <= k < bv.skip(1).len()
            implies #[trigger] bv.skip(1)[k] == enc_obj(m[oids.skip(1)[k]]) by {
            assert(bv.skip(1)[k] == bv[k + 1]);
            assert(oids.skip(1)[k] == oids[k + 1]);
            assert(bv[k + 1] == enc_obj(m[oids[k + 1]]));
        }
        lemma_whole_pack_len(m, oids.skip(1), bv.skip(1));
    }
}

/// Decodes a complete pack: header, records, trailing digest.
pub open spec fn dec_pack(s: Seq<u8>) -> Option<Seq<GitObjectV>> {
    match dec_u32_at(s, 0) {
        Some((magic, p1)) => if magic != pack_magic() {
            None
        } else {
            match dec_u32_at(s, p1) {
                Some((ver, p2)) => if ver != pack_version() {
                    None
                } else {
                    match dec_u32_at(s, p2) {
                        Some((n, p3)) => match dec_records_at(s, p3, n as nat, None) {
                            Some((bl, p4)) => if p4 <= max_content_len() {
                                match dec_oid_at(s, p4) {
                                    Some((ck, p5)) => if p5 == s.len()
                                        && ck == oid_of(s.subrange(0, p4)) {
                                        match objs_of(bl) {
                                            Some(objs) => if all_storable(objs) {
                                                Some(objs)
                                            } else {
                                                None
                                            },
                                            None => None,
                                        }
                                    } else {
                                        None
                                    },
                                    None => None,
                                }
                            } else {
                                None
                            },
                            None => None,
                        },
                        None => None,
                    }
                },
                None => None,
            }
        },
        None => None,
    }
}

// ---------------------------------------------------------------------
// round-trip lemmas
// ---------------------------------------------------------------------

#[verifier::rlimit(100)]
proof fn lemma_dec_record_at(s: Seq<u8>, pos: int, b: Seq<u8>, prev: Option<Seq<u8>>,
    form: RecordForm)
    requires
        0 <= pos,
        record_ok(b, prev, form),
        pos + enc_record(b, form).len() <= s.len(),
        s.subrange(pos, pos + enc_record(b, form).len()) =~= enc_record(b, form),
    ensures
        dec_record_at(s, pos, prev) == Some((b, pos + enc_record(b, form).len())),
{
    reveal(dec_record_at);
    match form {
        RecordForm::Whole => {
            lemma_split2(s, pos, enc_u32(b.len() as u32) + seq![0u8], b);
            lemma_split2(s, pos, enc_u32(b.len() as u32), seq![0u8]);
            lemma_dec_u32_at(s, pos, b.len() as u32);
            assert(s[pos + 4] == s.subrange(pos + 4, pos + 5)[0]);
        },
        RecordForm::Prefix { k } => {
            let base = prev->0;
            lemma_split2(s, pos,
                enc_u32(b.len() as u32) + seq![1u8] + enc_u32(k as u32), b.skip(k));
            lemma_split2(s, pos, enc_u32(b.len() as u32) + seq![1u8], enc_u32(k as u32));
            lemma_split2(s, pos, enc_u32(b.len() as u32), seq![1u8]);
            lemma_dec_u32_at(s, pos, b.len() as u32);
            assert(s[pos + 4] == s.subrange(pos + 4, pos + 5)[0]);
            lemma_dec_u32_at(s, pos + 5, k as u32);
            assert(base.take(k) + b.skip(k) =~= b.take(k) + b.skip(k));
            assert(b.take(k) + b.skip(k) =~= b);
        },
    }
}

proof fn lemma_dec_records_at(s: Seq<u8>, pos: int, bl: Seq<Seq<u8>>,
    prev: Option<Seq<u8>>, forms: Seq<RecordForm>)
    requires
        0 <= pos,
        bl.len() == forms.len(),
        records_ok(bl, prev, forms),
        pos + enc_records(bl, forms).len() <= s.len(),
        s.subrange(pos, pos + enc_records(bl, forms).len()) =~= enc_records(bl, forms),
    ensures
        dec_records_at(s, pos, bl.len(), prev)
            == Some((bl, pos + enc_records(bl, forms).len())),
    decreases bl.len(),
{
    reveal_with_fuel(enc_records, 2);
    reveal_with_fuel(records_ok, 2);
    if bl.len() == 0 {
        assert(bl =~= Seq::<Seq<u8>>::empty());
    } else {
        let b = bl.first();
        let f = forms.first();
        let el = enc_record(b, f).len() as int;
        lemma_split2(s, pos, enc_record(b, f), enc_records(bl.skip(1), forms.skip(1)));
        lemma_dec_record_at(s, pos, b, prev, f);
        lemma_dec_records_at(s, pos + el, bl.skip(1), Some(b), forms.skip(1));
        assert(seq![b] + bl.skip(1) =~= bl);
    }
}

proof fn lemma_objs_of(bl: Seq<Seq<u8>>, objs: Seq<GitObjectV>)
    requires
        bl.len() == objs.len(),
        forall|i: int| 0 <= i < bl.len() ==> obj_decoded(#[trigger] bl[i]) == Some(objs[i]),
    ensures
        objs_of(bl) == Some(objs),
    decreases bl.len(),
{
    if bl.len() == 0 {
        assert(objs =~= Seq::<GitObjectV>::empty());
    } else {
        assert(bl.first() == bl[0]);
        assert(obj_decoded(bl[0]) == Some(objs[0]));
        assert forall|i: int| 0 <= i < bl.skip(1).len()
            implies obj_decoded(#[trigger] bl.skip(1)[i]) == Some(objs.skip(1)[i]) by {
            assert(bl.skip(1)[i] == bl[i + 1]);
            assert(objs.skip(1)[i] == objs[i + 1]);
            assert(obj_decoded(bl[i + 1]) == Some(objs[i + 1]));
        }
        lemma_objs_of(bl.skip(1), objs.skip(1));
        assert(seq![objs.first()] + objs.skip(1) =~= objs);
    }
}

proof fn lemma_objs_of_none(bl: Seq<Seq<u8>>, i: int)
    requires
        0 <= i < bl.len(),
        obj_decoded(bl[i]) is None,
    ensures
        objs_of(bl) is None,
    decreases bl.len(),
{
    if i > 0 {
        lemma_objs_of_none(bl.skip(1), i - 1);
    }
}

proof fn lemma_enc_records_snoc(bl: Seq<Seq<u8>>, forms: Seq<RecordForm>, b: Seq<u8>,
    f: RecordForm)
    requires
        bl.len() == forms.len(),
    ensures
        enc_records(bl.push(b), forms.push(f))
            == enc_records(bl, forms) + enc_record(b, f),
    decreases bl.len(),
{
    reveal_with_fuel(enc_records, 3);
    if bl.len() == 0 {
        assert(bl.push(b).first() == b);
        assert(forms.push(f).first() == f);
        assert(bl.push(b).skip(1) =~= Seq::<Seq<u8>>::empty());
        assert(forms.push(f).skip(1) =~= Seq::<RecordForm>::empty());
        assert(enc_records(bl.push(b), forms.push(f)) == enc_record(b, f)
            + enc_records(bl.push(b).skip(1), forms.push(f).skip(1)));
        assert(enc_record(b, f) + Seq::<u8>::empty() =~= enc_record(b, f));
        assert(enc_records(bl, forms) + enc_record(b, f) =~= enc_record(b, f));
    } else {
        assert(bl.push(b).skip(1) =~= bl.skip(1).push(b));
        assert(forms.push(f).skip(1) =~= forms.skip(1).push(f));
        assert(bl.push(b).first() == bl.first());
        assert(forms.push(f).first() == forms.first());
        assert(enc_records(bl.push(b), forms.push(f))
            == enc_record(bl.first(), forms.first())
                + enc_records(bl.skip(1).push(b), forms.skip(1).push(f)));
        assert(enc_records(bl, forms) == enc_record(bl.first(), forms.first())
            + enc_records(bl.skip(1), forms.skip(1)));
        lemma_enc_records_snoc(bl.skip(1), forms.skip(1), b, f);
        vstd::seq_lib::lemma_concat_associative(
            enc_record(bl.first(), forms.first()),
            enc_records(bl.skip(1), forms.skip(1)),
            enc_record(b, f));
    }
}

proof fn lemma_records_ok_snoc(bl: Seq<Seq<u8>>, prev: Option<Seq<u8>>,
    forms: Seq<RecordForm>, b: Seq<u8>, f: RecordForm)
    requires
        bl.len() == forms.len(),
        records_ok(bl, prev, forms),
        record_ok(b, if bl.len() == 0 { prev } else { Some(bl.last()) }, f),
    ensures
        records_ok(bl.push(b), prev, forms.push(f)),
    decreases bl.len(),
{
    reveal_with_fuel(records_ok, 3);
    if bl.len() == 0 {
        assert(bl.push(b).first() == b);
        assert(forms.push(f).first() == f);
        assert(bl.push(b).skip(1) =~= Seq::<Seq<u8>>::empty());
        assert(forms.push(f).skip(1) =~= Seq::<RecordForm>::empty());
        assert(records_ok(bl.push(b), prev, forms.push(f))
            == (record_ok(b, prev, f)
                && records_ok(bl.push(b).skip(1), Some(b), forms.push(f).skip(1))));
    } else {
        assert(bl.push(b).skip(1) =~= bl.skip(1).push(b));
        assert(forms.push(f).skip(1) =~= forms.skip(1).push(f));
        assert(bl.push(b).first() == bl.first());
        assert(forms.push(f).first() == forms.first());
        if bl.len() == 1 {
            assert(bl.last() == bl.first());
        } else {
            assert(bl.skip(1).last() == bl.last());
        }
        assert(records_ok(bl, prev, forms) == (record_ok(bl.first(), prev, forms.first())
            && records_ok(bl.skip(1), Some(bl.first()), forms.skip(1))));
        lemma_records_ok_snoc(bl.skip(1), Some(bl.first()), forms.skip(1), b, f);
        assert(records_ok(bl.push(b), prev, forms.push(f))
            == (record_ok(bl.first(), prev, forms.first())
                && records_ok(bl.skip(1).push(b), Some(bl.first()),
                    forms.skip(1).push(f))));
    }
}

#[verifier::rlimit(100)]
proof fn lemma_dec_pack_header(s: Seq<u8>, n32: u32, rest: Seq<u8>)
    requires
        s == enc_u32(pack_magic()) + enc_u32(pack_version()) + enc_u32(n32) + rest,
    ensures
        dec_u32_at(s, 0) == Some((pack_magic(), 4int)),
        dec_u32_at(s, 4) == Some((pack_version(), 8int)),
        dec_u32_at(s, 8) == Some((n32, 12int)),
{
    assert(s.subrange(0, s.len() as int) =~= s);
    lemma_split2(s, 0, enc_u32(pack_magic()) + enc_u32(pack_version()) + enc_u32(n32),
        rest);
    lemma_split2(s, 0, enc_u32(pack_magic()) + enc_u32(pack_version()), enc_u32(n32));
    lemma_split2(s, 0, enc_u32(pack_magic()), enc_u32(pack_version()));
    lemma_dec_u32_at(s, 0, pack_magic());
    lemma_dec_u32_at(s, 4, pack_version());
    lemma_dec_u32_at(s, 8, n32);
}

proof fn lemma_dec_pack_assemble(s: Seq<u8>, bl: Seq<Seq<u8>>, objs: Seq<GitObjectV>,
    ck: Oid, p4: int)
    requires
        bl.len() <= 0xFFFF_FFFF,
        dec_u32_at(s, 0) == Some((pack_magic(), 4int)),
        dec_u32_at(s, 4) == Some((pack_version(), 8int)),
        dec_u32_at(s, 8) == Some((bl.len() as u32, 12int)),
        dec_records_at(s, 12, bl.len(), None) == Some((bl, p4)),
        0 <= p4 <= max_content_len(),
        dec_oid_at(s, p4) == Some((ck, p4 + 20)),
        p4 + 20 == s.len(),
        ck == oid_of(s.subrange(0, p4)),
        objs_of(bl) == Some(objs),
        all_storable(objs),
    ensures
        dec_pack(s) == Some(objs),
{
    assert((bl.len() as u32) as nat == bl.len());
}

proof fn lemma_dec_pack_splits(s: Seq<u8>, header: Seq<u8>, mid: Seq<u8>, tail: Seq<u8>)
    requires
        header.len() == 12,
        s == header + mid + tail,
    ensures
        s.subrange(0, 12 + mid.len() as int) =~= header + mid,
        s.subrange(12, 12 + mid.len() as int) =~= mid,
        s.subrange(12 + mid.len() as int, 12 + mid.len() as int + tail.len() as int) =~= tail,
{
    assert(s.subrange(0, s.len() as int) =~= s);
    lemma_split2(s, 0, header + mid, tail);
    lemma_split2(s, 0, header, mid);
}

/// A stream made of a well-formed header, a valid record chain and a
/// trailing digest yields those records and that digest when decoded.
#[verifier::rlimit(100)]
#[verifier::spinoff_prover]
proof fn lemma_dec_pack_facts(s: Seq<u8>, bv: Seq<Seq<u8>>, forms: Seq<RecordForm>, ck: Oid)
    requires
        bv.len() == forms.len(),
        bv.len() <= 0xFFFF_FFFF,
        records_ok(bv, None, forms),
        12 + enc_records(bv, forms).len() <= max_content_len(),
        s == enc_u32(pack_magic()) + enc_u32(pack_version()) + enc_u32(bv.len() as u32)
            + enc_records(bv, forms) + enc_oid(ck),
        ck == oid_of(enc_u32(pack_magic()) + enc_u32(pack_version())
            + enc_u32(bv.len() as u32) + enc_records(bv, forms)),
    ensures
        dec_u32_at(s, 0) == Some((pack_magic(), 4int)),
        dec_u32_at(s, 4) == Some((pack_version(), 8int)),
        dec_u32_at(s, 8) == Some((bv.len() as u32, 12int)),
        dec_records_at(s, 12, bv.len(), None)
            == Some((bv, 12 + enc_records(bv, forms).len() as int)),
        dec_oid_at(s, 12 + enc_records(bv, forms).len() as int)
            == Some((ck, 32 + enc_records(bv, forms).len() as int)),
        32 + enc_records(bv, forms).len() as int == s.len(),
        ck == oid_of(s.subrange(0, 12 + enc_records(bv, forms).len() as int)),
{
    let header = enc_u32(pack_magic()) + enc_u32(pack_version())
        + enc_u32(bv.len() as u32);
    let pre = header + enc_records(bv, forms);
    let p4 = pre.len() as int;
    vstd::seq_lib::lemma_concat_associative(header, enc_records(bv, forms), enc_oid(ck));
    assert(s == header + (enc_records(bv, forms) + enc_oid(ck)));
    lemma_dec_pack_header(s, bv.len() as u32, enc_records(bv, forms) + enc_oid(ck));
    lemma_dec_pack_splits(s, header, enc_records(bv, forms), enc_oid(ck));
    lemma_dec_records_at(s, 12, bv, None, forms);
    lemma_dec_oid_at(s, p4, ck);
    assert(s.subrange(0, p4) == pre);
    assert(oid_of(s.subrange(0, p4)) == ck);
}

/// A stream made of a well-formed header, a valid record chain and a
/// trailing digest decodes to the objects carried by the records.
proof fn lemma_dec_pack(s: Seq<u8>, bv: Seq<Seq<u8>>, forms: Seq<RecordForm>,
    objs: Seq<GitObjectV>, ck: Oid)
    requires
        bv.len() == forms.len(),
        bv.len() == objs.len(),
        bv.len() <= 0xFFFF_FFFF,
        records_ok(bv, None, forms),
        forall|i: int| 0 <= i < bv.len() ==> obj_decoded(#[trigger] bv[i]) == Some(objs[i]),
        all_storable(objs),
        12 + enc_records(bv, forms).len() <= max_content_len(),
        s == enc_u32(pack_magic()) + enc_u32(pack_version()) + enc_u32(bv.len() as u32)
            + enc_records(bv, forms) + enc_oid(ck),
        ck == oid_of(enc_u32(pack_magic()) + enc_u32(pack_version())
            + enc_u32(bv.len() as u32) + enc_records(bv, forms)),
    ensures
        dec_pack(s) == Some(objs),
{
    lemma_dec_pack_facts(s, bv, forms, ck);
    lemma_objs_of(bv, objs);
    lemma_dec_pack_assemble(s, bv, objs, ck, 12 + enc_records(bv, forms).len() as int);
}

proof fn lemma_bodies_decode(m: Map<Oid, GitObjectV>, oids: Seq<Oid>, bv: Seq<Seq<u8>>)
    requires
        bv.len() == oids.len(),
        forall|k: int| 0 <= k < oids.len() ==> m.contains_key(#[trigger] oids[k]),
        forall|k: int| 0 <= k < oids.len() ==> wf_object(m[#[trigger] oids[k]]),
        forall|k: int| 0 <= k < oids.len()
            ==> enc_obj(m[#[trigger] oids[k]]).len() <= max_content_len(),
        forall|k: int| 0 <= k < bv.len() ==> #[trigger] bv[k] == enc_obj(m[oids[k]]),
    ensures
        forall|i: int| 0 <= i < bv.len()
            ==> obj_decoded(#[trigger] bv[i]) == Some(objs_from(m, oids)[i]),
        all_storable(objs_from(m, oids)),
{
    assert forall|i: int| 0 <= i < bv.len()
        implies obj_decoded(#[trigger] bv[i]) == Some(objs_from(m, oids)[i]) by {
        lemma_object_round_trip(m[oids[i]]);
        lemma_obj_decoded(bv[i]);
    }
    assert forall|i: int| 0 <= i < objs_from(m, oids).len()
        implies storable(#[trigger] objs_from(m, oids)[i]) by {
        assert(objs_from(m, oids)[i] == m[oids[i]]);
    }
}

// ---------------------------------------------------------------------
// executable encoder
// ---------------------------------------------------------------------

/// The object views a sequence of identifiers denotes in a store.
pub open spec fn objs_from(m: Map<Oid, GitObjectV>, oids: Seq<Oid>) -> Seq<GitObjectV> {
    oids.map_values(|o: Oid| m[o])
}

/// Appends a whole byte string without a length prefix.
fn push_raw(out: &mut Vec<u8>, b: &Vec<u8>)
    ensures
        final(out)@ =~= old(out)@ + b@,
{
    let mut j: usize = 0;
    while j < b.len()
        invariant
            0 <= j <= b@.len(),
            out@ =~= old(out)@ + b@.take(j as int),
        decreases b@.len() - j,
    {
        out.push(b[j]);
        proof {
            assert(b@.take(j + 1) =~= b@.take(j as int).push(b@[j as int]));
        }
        j = j + 1;
    }
    proof {
        assert(b@.take(b@.len() as int) =~= b@);
    }
}

/// Appends the tail of a byte string, from `k` on.
fn push_tail(out: &mut Vec<u8>, b: &Vec<u8>, k: usize)
    requires
        k <= b@.len(),
    ensures
        final(out)@ =~= old(out)@ + b@.skip(k as int),
{
    let mut j: usize = k;
    while j < b.len()
        invariant
            k <= j <= b@.len(),
            out@ =~= old(out)@ + b@.subrange(k as int, j as int),
        decreases b@.len() - j,
    {
        out.push(b[j]);
        proof {
            assert(b@.subrange(k as int, j + 1)
                =~= b@.subrange(k as int, j as int).push(b@[j as int]));
        }
        j = j + 1;
    }
    proof {
        assert(b@.subrange(k as int, b@.len() as int) =~= b@.skip(k as int));
    }
}

/// The length of the longest common prefix of two byte strings.
fn common_prefix_len(a: &Vec<u8>, b: &Vec<u8>) -> (r: usize)
    ensures
        r <= a@.len(),
        r <= b@.len(),
        a@.take(r as int) == b@.take(r as int),
{
    let mut i: usize = 0;
    while i < a.len() && i < b.len()
        invariant
            0 <= i <= a@.len(),
            0 <= i <= b@.len(),
            forall|k: int| 0 <= k < i ==> a@[k] == b@[k],
        decreases a@.len() - i,
    {
        if a[i] != b[i] {
            proof {
                assert(a@.take(i as int) =~= b@.take(i as int));
            }
            return i;
        }
        i = i + 1;
    }
    proof {
        assert(a@.take(i as int) =~= b@.take(i as int));
    }
    i
}

/// Appends one record per body, delta-compressing a record against
/// its predecessor when the two share a prefix of at least eight
/// bytes.
#[verifier::rlimit(100)]
fn emit_records(out: &mut Vec<u8>, bodies: &Vec<Vec<u8>>) -> (forms: Ghost<Seq<RecordForm>>)
    requires
        forall|k: int| 0 <= k < bodies@.len()
            ==> (#[trigger] bodies@[k])@.len() <= max_content_len(),
    ensures
        forms@.len() == bodies@.len(),
        final(out)@ == old(out)@
            + enc_records(bodies@.map_values(|b: Vec<u8>| b@), forms@),
        records_ok(bodies@.map_values(|b: Vec<u8>| b@), None, forms@),
        enc_records(bodies@.map_values(|b: Vec<u8>| b@), forms@).len()
            <= whole_records_len(bodies@.map_values(|b: Vec<u8>| b@)),
{
    let ghost header = out@;
    let ghost mut forms: Seq<RecordForm> = Seq::empty();
    proof {
        reveal_with_fuel(enc_records, 1);
        reveal_with_fuel(records_ok, 1);
        assert(bodies@.map_values(|b: Vec<u8>| b@).take(0) =~= Seq::<Seq<u8>>::empty());
        assert(enc_records(bodies@.map_values(|b: Vec<u8>| b@).take(0), forms)
            == Seq::<u8>::empty());
        assert(out@ =~= header + Seq::<u8>::empty());
        assert(records_ok(bodies@.map_values(|b: Vec<u8>| b@).take(0), None, forms));
        assert(whole_records_len(bodies@.map_values(|b: Vec<u8>| b@).take(0)) == 0);
    }
    let mut r: usize = 0;
    while r < bodies.len()
        invariant
            0 <= r <= bodies@.len(),
            forms.len() == r,
            forall|k: int| 0 <= k < bodies@.len()
                ==> (#[trigger] bodies@[k])@.len() <= max_content_len(),
            out@ == header + enc_records(
                bodies@.map_values(|b: Vec<u8>| b@).take(r as int), forms),
            records_ok(bodies@.map_values(|b: Vec<u8>| b@).take(r as int), None, forms),
            enc_records(bodies@.map_values(|b: Vec<u8>| b@).take(r as int), forms).len()
                <= whole_records_len(bodies@.map_values(|b: Vec<u8>| b@).take(r as int)),
        decreases bodies@.len() - r,
    {
        let ghost bv = bodies@.map_values(|b: Vec<u8>| b@);
        let ghost prev_enc = out@;
        let mut form_delta: bool = false;
        let mut k: usize = 0;
        if r > 0 {
            k = common_prefix_len(&bodies[r - 1], &bodies[r]);
            if k >= 8 {
                form_delta = true;
            }
        }
        let ghost f: RecordForm = if form_delta {
            RecordForm::Prefix { k: k as int }
        } else {
            RecordForm::Whole
        };
        push_u32(out, bodies[r].len() as u32);
        if form_delta {
            out.push(1u8);
            push_u32(out, k as u32);
            let (head, tail) = bodies.split_at(r);
            push_tail(out, &tail[0], k);
            proof {
                assert(tail@[0] == bodies@[r as int]);
            }
        } else {
            out.push(0u8);
            let (head, tail) = bodies.split_at(r);
            push_raw(out, &tail[0]);
            proof {
                assert(tail@[0] == bodies@[r as int]);
            }
        }
        proof {
            let bvr = bv[r as int];
            assert(out@ =~= prev_enc + enc_record(bvr, f));
            assert(bv.take(r + 1) =~= bv.take(r as int).push(bvr));
            lemma_enc_records_snoc(bv.take(r as int), forms, bvr, f);
            let prevb: Option<Seq<u8>> = if r == 0 {
                None
            } else {
                Some(bv.take(r as int).last())
            };
            if r > 0 {
                assert(bv.take(r as int).last() == bv[r as int - 1]);
            }
            assert(record_ok(bvr, prevb, f));
            lemma_records_ok_snoc(bv.take(r as int), None, forms, bvr, f);
            lemma_whole_records_len_snoc(bv.take(r as int), bvr);
            assert(enc_record(bvr, f).len() <= 5 + bvr.len());
            forms = forms.push(f);
            assert(out@ == header + enc_records(bv.take(r + 1), forms));
        }
        r = r + 1;
    }
    proof {
        let bv = bodies@.map_values(|b: Vec<u8>| b@);
        assert(bv.take(bv.len() as int) =~= bv);
    }
    Ghost(forms)
}

/// Reads each object's canonical encoding out of the store.
fn collect_bodies(store: &ObjectStore, oids: &Vec<Oid>) -> (r: Result<Vec<Vec<u8>>, GitError>)
    requires
        store.wf(),
    ensures
        match r {
            Ok(bodies) => {
                &&& bodies@.len() == oids@.len()
                &&& forall|k: int| 0 <= k < oids@.len()
                    ==> store@.contains_key(#[trigger] oids@[k])
                &&& forall|k: int| 0 <= k < oids@.len()
                    ==> (#[trigger] bodies@[k])@ == enc_obj(store@[oids@[k]])
                &&& forall|k: int| 0 <= k < oids@.len()
                    ==> (#[trigger] bodies@[k])@.len() <= max_content_len()
            },
            Err(e) => e == GitError::ObjectNotFound
                && exists|i: int| 0 <= i < oids@.len()
                    && !store@.contains_key(#[trigger] oids@[i]),
        },
{
    let ghost m = store@;
    let mut bodies: Vec<Vec<u8>> = Vec::new();
    let mut i: usize = 0;
    while i < oids.len()
        invariant
            store.wf(),
            m == store@,
            0 <= i <= oids@.len(),
            bodies@.len() == i,
            forall|k: int| 0 <= k < i ==> m.contains_key(#[trigger] oids@[k]),
            forall|k: int| 0 <= k < i ==> (#[trigger] bodies@[k])@ == enc_obj(m[oids@[k]]),
            forall|k: int| 0 <= k < i ==> (#[trigger] bodies@[k])@.len() <= max_content_len(),
        decreases oids@.len() - i,
    {
        match store.get(&oids[i]) {
            Ok(obj) => {
                proof {
                    store.lemma_content_addressed();
                }
                let body = encode_object(obj);
                bodies.push(body);
            },
            Err(_) => {
                return Err(GitError::ObjectNotFound);
            },
        }
        i = i + 1;
    }
    Ok(bodies)
}

/// Builds the pack stream for already-encoded bodies.
#[verifier::rlimit(100)]
fn seal_pack(bodies: &Vec<Vec<u8>>, Ghost(objs): Ghost<Seq<GitObjectV>>)
    -> (r: Result<Vec<u8>, GitError>)
    requires
        bodies@.len() == objs.len(),
        forall|k: int| 0 <= k < bodies@.len()
            ==> (#[trigger] bodies@[k])@.len() <= max_content_len(),
        forall|k: int| 0 <= k < bodies@.len()
            ==> obj_decoded((#[trigger] bodies@[k])@) == Some(objs[k]),
        all_storable(objs),
    ensures
        match r {
            Ok(p) => dec_pack(p@) == Some(objs),
            Err(e) => e == GitError::TransferFailed,
        },
        bodies@.len() <= 0xFFFF_FFFF
            && 32 + whole_records_len(bodies@.map_values(|b: Vec<u8>| b@))
                <= max_content_len()
            ==> r is Ok,
{
    if bodies.len() > 0xFFFF_FFFFusize {
        return Err(GitError::TransferFailed);
    }
    let mut out: Vec<u8> = Vec::new();
    push_u32(&mut out, 0x4B434150u32);
    push_u32(&mut out, 1u32);
    push_u32(&mut out, bodies.len() as u32);
    let ghost header = out@;
    let forms = emit_records(&mut out, &bodies);
    if out.len() > 0xFFFF_FFFFusize {
        return Err(GitError::TransferFailed);
    }
    let checksum = hash_prefix(&out, out.len());
    let ghost pre = out@;
    push_oid(&mut out, &checksum);
    proof {
        let bv = bodies@.map_values(|b: Vec<u8>| b@);
        assert(pre.take(pre.len() as int) =~= pre);
        assert(checksum == oid_of(pre));
        assert(out@ == pre + enc_oid(checksum));
        lemma_dec_pack(out@, bv, forms@, objs, checksum);
    }
    Ok(out)
}

/// Encodes the given objects from the store into a pack stream, in the
/// given order, delta-compressing a record against its predecessor
/// when they share a prefix of at least eight bytes.
#[verifier::rlimit(100)]
#[verifier::spinoff_prover]
pub fn encode_pack(store: &ObjectStore, oids: &Vec<Oid>) -> (r: Result<Vec<u8>, GitError>)
    requires
        store.wf(),
    ensures
        match r {
            Ok(p) => {
                &&& forall|i: int| 0 <= i < oids@.len()
                    ==> store@.contains_key(#[trigger] oids@[i])
                &&& dec_pack(p@) == Some(objs_from(store@, oids@))
            },
            Err(e) => {
                ||| (e == GitError::ObjectNotFound
                    && exists|i: int| 0 <= i < oids@.len()
                        && !store@.contains_key(#[trigger] oids@[i]))
                ||| e == GitError::TransferFailed
            },
        },
        (forall|i: int| 0 <= i < oids@.len() ==> store@.contains_key(#[trigger] oids@[i]))
            && oids@.len() <= 0xFFFF_FFFF
            && whole_pack_len(store@, oids@) <= max_content_len()
            ==> r is Ok,
{
    let ghost m = store@;
    let bodies = match collect_bodies(store, oids) {
        Ok(bodies) => bodies,
        Err(e) => {
            return Err(e);
        },
    };
    proof {
        store.lemma_content_addressed();
        let bv = bodies@.map_values(|b: Vec<u8>| b@);
        let objs = objs_from(m, oids@);
        lemma_whole_pack_len(m, oids@, bv);
        lemma_bodies_decode(m, oids@, bv);
        assert forall|k: int| 0 <= k < bodies@.len()
            implies obj_decoded((#[trigger] bodies@[k])@) == Some(objs[k]) by {
            assert(bv[k] == bodies@[k]@);
            assert(obj_decoded(bv[k]) == Some(objs[k]));
        }
        assert(32 + whole_records_len(bv) == whole_pack_len(m, oids@));
    }
    seal_pack(&bodies, Ghost(objs_from(m, oids@)))
}

/// Checks at run time that an object's variable-length parts fit the
/// codec's 32-bit length fields.
pub fn object_sizes_ok(o: &GitObject) -> (r: bool)
    ensures
        r == wf_object(o@),
{
    match o {
        GitObject::Blob { data } => data.len() <= 0xFFFF_FFFFusize,
        GitObject::Tree { entries } => {
            if entries.len() > 0xFFFF_FFFFusize {
                proof {
                    let evs = entries@.map_values(|t: TreeEntry| t@);
                    assert(o@ == (GitObjectV::Tree { entries: evs }));
                    assert(evs.len() == entries@.len());
                    assert(evs.len() > crate::oid::max_content_len());
                    assert(!wf_object(o@));
                }
                return false;
            }
            let mut i: usize = 0;
            while i < entries.len()
                invariant
                    0 <= i <= entries@.len(),
                    entries@.len() <= 0xFFFF_FFFF,
                    o@ == (GitObjectV::Tree {
                        entries: entries@.map_values(|t: TreeEntry| t@),
                    }),
                    forall|k: int| 0 <= k < i
                        ==> crate::object::wf_entry(#[trigger] entries@[k]@),
                decreases entries@.len() - i,
            {
                if entries[i].name.len() > 0xFFFF_FFFFusize {
                    proof {
                        let evs = entries@.map_values(|t: TreeEntry| t@);
                        assert(evs[i as int] == entries@[i as int]@);
                        assert(!crate::object::wf_entry(evs[i as int]));
                    }
                    return false;
                }
                i = i + 1;
            }
            proof {
                let evs = entries@.map_values(|t: TreeEntry| t@);
                assert forall|k: int| 0 <= k < evs.len()
                    implies crate::object::wf_entry(#[trigger] evs[k]) by {
                    assert(crate::object::wf_entry(entries@[k]@));
                }
            }
            true
        },
        GitObject::Commit { parents, author, committer, message, signature, .. } => {
            parents.len() <= 0xFFFF_FFFFusize && author.name.len() <= 0xFFFF_FFFFusize
                && committer.name.len() <= 0xFFFF_FFFFusize
                && message.len() <= 0xFFFF_FFFFusize
                && match signature {
                    Some(sig) => sig.len() <= 0xFFFF_FFFFusize,
                    None => true,
                }
        },
        GitObject::Tag { tagger, message, .. } => {
            tagger.name.len() <= 0xFFFF_FFFFusize && message.len() <= 0xFFFF_FFFFusize
        },
    }
}

/// Copies `n` bytes starting at `pos`.
fn read_raw(b: &Vec<u8>, pos: usize, n: usize) -> (r: Vec<u8>)
    requires
        pos + n <= b@.len(),
    ensures
        r@ == b@.subrange(pos as int, pos + n),
{
    let blen = b.len();
    let end: usize = pos + n;
    let mut out: Vec<u8> = Vec::new();
    let mut j: usize = pos;
    while j < end
        invariant
            pos <= j <= end,
            end <= b@.len(),
            out@ =~= b@.subrange(pos as int, j as int),
        decreases end - j,
    {
        out.push(b[j]);
        proof {
            assert(b@.subrange(pos as int, j + 1)
                =~= b@.subrange(pos as int, j as int).push(b@[j as int]));
        }
        j = j + 1;
    }
    out
}

/// The previous record's bytes as the spec decoder sees them: absent
/// before the first record.
pub open spec fn prev_view(prev: Seq<u8>, have_prev: bool) -> Option<Seq<u8>> {
    if have_prev {
        Some(prev)
    } else {
        None
    }
}

/// Reads one record, mirroring [`dec_record_at`].
fn read_record(b: &Vec<u8>, pos: usize, prev: &Vec<u8>, have_prev: bool)
    -> (r: Option<(Vec<u8>, usize)>)
    ensures
        match r {
            Some((v, p)) => dec_record_at(b@, pos as int, prev_view(prev@, have_prev))
                == Some((v@, p as int)),
            None => dec_record_at(b@, pos as int, prev_view(prev@, have_prev)) is None,
        },
{
    proof {
        reveal(dec_record_at);
    }
    match read_u32(b, pos) {
        Some((size, p1)) => {
            if p1 >= b.len() {
                return None;
            }
            let tag = b[p1];
            let size = size as usize;
            if tag == 0 {
                if p1 + 1 <= b.len() && b.len() - (p1 + 1) >= size {
                    let bytes = read_raw(b, p1 + 1, size);
                    Some((bytes, p1 + 1 + size))
                } else {
                    None
                }
            } else if tag == 1 {
                if have_prev {
                    let base = prev;
                    match read_u32(b, p1 + 1) {
                        Some((k, p2)) => {
                            let k = k as usize;
                            if k <= base.len() && k <= size && b.len() >= p2
                                && b.len() - p2 >= size - k {
                                let mut bytes = read_raw(base, 0, k);
                                let ins = read_raw(b, p2, size - k);
                                let ghost basepart = bytes@;
                                let mut j: usize = 0;
                                while j < ins.len()
                                    invariant
                                        0 <= j <= ins@.len(),
                                        bytes@ =~= basepart + ins@.take(j as int),
                                    decreases ins@.len() - j,
                                {
                                    bytes.push(ins[j]);
                                    proof {
                                        assert(ins@.take(j + 1)
                                            =~= ins@.take(j as int).push(ins@[j as int]));
                                    }
                                    j = j + 1;
                                }
                                proof {
                                    assert(ins@.take(ins@.len() as int) =~= ins@);
                                    assert(base@.subrange(0, k as int) =~= base@.take(k as int));
                                }
                                Some((bytes, p2 + (size - k)))
                            } else {
                                None
                            }
                        },
                        None => None,
                    }
                } else {
                    None
                }
            } else {
                None
            }
        },
        None => None,
    }
}

/// Parses and decodes every record of the stream, threading the
/// delta base; reports whether every decoded object is storable.
#[verifier::rlimit(100)]
#[verifier::spinoff_prover]
fn parse_records(pack: &Vec<u8>, n: u32)
    -> (r: Result<(Vec<GitObject>, usize, bool, Ghost<Seq<Seq<u8>>>), GitError>)
    ensures
        match r {
            Ok((objs, cur, all_ok, bodies)) => {
                &&& bodies@.len() == n as nat
                &&& objs@.len() == n as nat
                &&& dec_records_at(pack@, 12, n as nat, None)
                    == Some((bodies@, cur as int))
                &&& forall|k: int| 0 <= k < n as nat
                    ==> obj_decoded(#[trigger] bodies@[k]) == Some(objs@[k]@)
                &&& (all_ok ==> forall|k: int| 0 <= k < n as nat
                    ==> storable(#[trigger] objs@[k]@))
                &&& (!all_ok ==> exists|k: int| 0 <= k < n as nat
                    && !storable(#[trigger] objs@[k]@))
            },
            Err(e) => {
                &&& e == GitError::CorruptPack
                &&& match dec_records_at(pack@, 12, n as nat, None) {
                    Some((bl, p)) => objs_of(bl) is None,
                    None => true,
                }
            },
        },
{
    let mut cur: usize = 12;
    let mut prev: Vec<u8> = Vec::new();
    let mut have_prev: bool = false;
    let mut objs: Vec<GitObject> = Vec::new();
    let ghost mut bodies: Seq<Seq<u8>> = Seq::empty();
    let mut all_ok: bool = true;
    let mut i: u32 = 0;
    while i < n
        invariant
            0 <= i <= n,
            objs@.len() == i,
            bodies.len() == i,
            forall|k: int| 0 <= k < i
                ==> obj_decoded(#[trigger] bodies[k]) == Some(objs@[k]@),
            all_ok ==> forall|k: int| 0 <= k < i ==> storable(#[trigger] objs@[k]@),
            !all_ok ==> exists|k: int| 0 <= k < i && !storable(#[trigger] objs@[k]@),
            match dec_records_at(pack@, cur as int, (n - i) as nat,
                prev_view(prev@, have_prev)) {
                Some((rest, p)) => dec_records_at(pack@, 12, n as nat, None)
                    == Some((bodies + rest, p)),
                None => dec_records_at(pack@, 12, n as nat, None) is None,
            },
        decreases n - i,
    {
        match read_record(pack, cur, &prev, have_prev) {
            Some((bytes, p1)) => {
                match decode_object(&bytes) {
                    Ok(o) => {
                        proof {
                            lemma_obj_decoded(bytes@);
                        }
                        let mut ok_here = object_sizes_ok(&o);
                        if ok_here {
                            let enc = encode_object(&o);
                            if enc.len() > 0xFFFF_FFFFusize {
                                ok_here = false;
                            }
                        }
                        proof {
                            if !ok_here {
                                assert(!storable(o@));
                            }
                        }
                        let ghost bv = bytes@;
                        let ghost ov = o@;
                        let ghost pre_objs = objs@;
                        let ghost pre_all_ok = all_ok;
                        objs.push(o);
                        if !ok_here {
                            all_ok = false;
                        }
                        proof {
                            let old_bodies = bodies;
                            bodies = bodies.push(bv);
                            assert(objs@[i as int]@ == ov);
                            if all_ok {
                                assert forall|k: int| 0 <= k < i + 1
                                    implies storable(#[trigger] objs@[k]@) by {
                                    if k < i {
                                        assert(objs@[k] == pre_objs[k]);
                                        assert(storable(pre_objs[k]@));
                                    }
                                }
                            } else {
                                if !ok_here {
                                    assert(!storable(objs@[i as int]@));
                                } else {
                                    let k = choose|k: int| 0 <= k < pre_objs.len()
                                        && !storable(#[trigger] pre_objs[k]@);
                                    assert(objs@[k] == pre_objs[k]);
                                    assert(!storable(objs@[k]@));
                                }
                            }
                            assert(dec_record_at(pack@, cur as int,
                                prev_view(prev@, have_prev)) == Some((bv, p1 as int)));
                            let tail2 = dec_records_at(pack@, p1 as int,
                                (n - i - 1) as nat, Some(bv));
                            let t0 = dec_records_at(pack@, cur as int, (n - i) as nat,
                                prev_view(prev@, have_prev));
                            assert(t0 == match tail2 {
                                Some((rest2, p2)) => Some((seq![bv] + rest2, p2)),
                                None => None,
                            });
                            if tail2 is Some {
                                let rest2 = tail2->Some_0.0;
                                let p2 = tail2->Some_0.1;
                                assert(t0 == Some((seq![bv] + rest2, p2)));
                                assert((old_bodies + (seq![bv] + rest2))
                                    =~= (bodies + rest2));
                            } else {
                                assert(t0 is None);
                            }
                        }
                        prev = bytes;
                        have_prev = true;
                        cur = p1;
                    },
                    Err(_) => {
                        proof {
                            lemma_obj_decoded(bytes@);
                            let tail2 = dec_records_at(pack@, p1 as int,
                                (n - i - 1) as nat, Some(bytes@));
                            let t0 = dec_records_at(pack@, cur as int, (n - i) as nat,
                                prev_view(prev@, have_prev));
                            if tail2 is Some {
                                let rest2 = tail2->Some_0.0;
                                let p2 = tail2->Some_0.1;
                                assert(t0 == Some((seq![bytes@] + rest2, p2)));
                                let bl = bodies + (seq![bytes@] + rest2);
                                assert(dec_records_at(pack@, 12, n as nat, None)
                                    == Some((bl, p2)));
                                assert(bl[i as int] == bytes@);
                                lemma_objs_of_none(bl, i as int);
                            } else {
                                assert(t0 is None);
                            }
                        }
                        return Err(GitError::CorruptPack);
                    },
                }
            },
            None => {
                return Err(GitError::CorruptPack);
            },
        }
        i = i + 1;
    }
    proof {
        assert(bodies + Seq::<Seq<u8>>::empty() =~= bodies);
        assert(dec_records_at(pack@, cur as int, (n - i) as nat,
            prev_view(prev@, have_prev)) == Some((Seq::<Seq<u8>>::empty(), cur as int)));
        assert(dec_records_at(pack@, 12, n as nat, None) == Some((bodies, cur as int)));
    }
    Ok((objs, cur, all_ok, Ghost(bodies)))
}

/// The trailing-digest condition of a pack whose records end at `p4`.
pub open spec fn trailer_ok(s: Seq<u8>, p4: int) -> bool {
    match dec_oid_at(s, p4) {
        Some((ck, p5)) => p5 == s.len() && p4 <= max_content_len()
            && ck == oid_of(s.subrange(0, p4)),
        None => false,
    }
}

/// Checks the trailing digest, mirroring [`trailer_ok`].
fn verify_trailer(pack: &Vec<u8>, cur: usize) -> (r: bool)
    ensures
        r == trailer_ok(pack@, cur as int),
{
    let (ck, p5) = match read_oid(pack, cur) {
        Some(pair) => pair,
        None => {
            return false;
        },
    };
    if p5 != pack.len() || cur > 0xFFFF_FFFFusize {
        return false;
    }
    let h = hash_prefix(pack, cur);
    proof {
        assert(pack@.take(cur as int) =~= pack@.subrange(0, cur as int));
    }
    h.hash == ck.hash && h.sum == ck.sum && h.len == ck.len
}

/// Ingests a pack into the store: parses and validates the whole
/// stream first (header, records, declared sizes, trailing digest),
/// then writes every carried object, earlier writes never overwritten.
/// A stream that is corrupt anywhere leaves the store unchanged.
#[verifier::rlimit(100)]
#[verifier::spinoff_prover]
pub fn ingest_pack(store: &mut ObjectStore, pack: &Vec<u8>) -> (r: Result<Vec<Oid>, GitError>)
    requires
        old(store).wf(),
    ensures
        final(store).wf(),
        match r {
            Ok(ids) => {
                &&& dec_pack(pack@) is Some
                &&& final(store)@ == store_after(old(store)@, dec_pack(pack@)->0)
                &&& ids@.len() == dec_pack(pack@)->0.len()
                &&& forall|i: int| 0 <= i < ids@.len()
                    ==> ids@[i] == oid_of(enc_obj(#[trigger] dec_pack(pack@)->0[i]))
            },
            Err(e) => {
                &&& e == GitError::CorruptPack
                &&& dec_pack(pack@) is None
                &&& final(store)@ == old(store)@
            },
        },
{
    let magic = match read_u32(pack, 0) {
        Some((m, _)) => m,
        None => {
            return Err(GitError::CorruptPack);
        },
    };
    if magic != 0x4B434150u32 {
        return Err(GitError::CorruptPack);
    }
    let ver = match read_u32(pack, 4) {
        Some((v, _)) => v,
        None => {
            return Err(GitError::CorruptPack);
        },
    };
    if ver != 1u32 {
        return Err(GitError::CorruptPack);
    }
    let n = match read_u32(pack, 8) {
        Some((v, _)) => v,
        None => {
            return Err(GitError::CorruptPack);
        },
    };
    let (objs, cur, all_ok, bodies_g) = match parse_records(pack, n) {
        Ok(t) => t,
        Err(e) => {
            return Err(GitError::CorruptPack);
        },
    };
    let ghost bodies: Seq<Seq<u8>> = bodies_g@;
    if !verify_trailer(pack, cur) {
        return Err(GitError::CorruptPack);
    }
    let ghost objsv = objs@.map_values(|o: GitObject| o@);
    proof {
        assert forall|k: int| 0 <= k < bodies.len()
            implies obj_decoded(#[trigger] bodies[k]) == Some(objsv[k]) by {
            assert(obj_decoded(bodies[k]) == Some(objs@[k]@));
        }
        lemma_objs_of(bodies, objsv);
    }
    if !all_ok {
        proof {
            let k = choose|k: int| 0 <= k < objs@.len() && !storable(#[trigger] objs@[k]@);
            assert(!storable(objsv[k]));
            assert(!all_storable(objsv));
        }
        return Err(GitError::CorruptPack);
    }
    proof {
        assert forall|k: int| 0 <= k < objsv.len()
            implies storable(#[trigger] objsv[k]) by {
            assert(storable(objs@[k]@));
        }
        let ck = dec_oid_at(pack@, cur as int)->Some_0.0;
        lemma_dec_pack_assemble(pack@, bodies, objsv, ck, cur as int);
    }
    let ghost m0 = store@;
    proof {
        assert forall|k: int| 0 <= k < objs@.len()
            implies #[trigger] objs@[k]@ == objsv[k] by {
        }
    }
    let ids = commit_objects(store, objs, Ghost(objsv));
    Ok(ids)
}

/// Writes each parsed object into the store, in order, returning the
/// digests; digests already present are left untouched.
fn commit_objects(store: &mut ObjectStore, objs: Vec<GitObject>,
    Ghost(objsv): Ghost<Seq<GitObjectV>>) -> (ids: Vec<Oid>)
    requires
        old(store).wf(),
        objsv.len() == objs@.len(),
        forall|k: int| 0 <= k < objs@.len() ==> #[trigger] objs@[k]@ == objsv[k],
        forall|k: int| 0 <= k < objsv.len() ==> storable(#[trigger] objsv[k]),
    ensures
        final(store).wf(),
        final(store)@ == store_after(old(store)@, objsv),
        ids@.len() == objsv.len(),
        forall|i: int| 0 <= i < ids@.len()
            ==> ids@[i] == oid_of(enc_obj(#[trigger] objsv[i])),
{
    let ghost m0 = store@;
    let mut objs = objs;
    proof {
        assert(objsv.skip(0) =~= objsv);
    }
    let total = objs.len();
    let mut ids: Vec<Oid> = Vec::new();
    let mut j: usize = 0;
    while j < total
        invariant
            store.wf(),
            0 <= j <= total,
            total == objsv.len(),
            ids@.len() == j,
            objs@.len() == total - j,
            forall|k: int| 0 <= k < objs@.len()
                ==> #[trigger] objs@[k]@ == objsv[j + k],
            forall|k: int| 0 <= k < objsv.len() ==> storable(#[trigger] objsv[k]),
            forall|k: int| 0 <= k < j ==> ids@[k] == oid_of(enc_obj(#[trigger] objsv[k])),
            store_after(store@, objsv.skip(j as int)) == store_after(m0, objsv),
        decreases total - j,
    {
        let o2 = objs.remove(0);
        proof {
            assert(o2@ == objsv[j as int]);
        }
        let id = store.put(o2);
        ids.push(id);
        proof {
            assert(objsv.skip(j as int).first() == objsv[j as int]);
            assert(objsv.skip(j as int).skip(1) =~= objsv.skip(j + 1));
        }
        j = j + 1;
    }
    proof {
        assert(objsv.skip(objsv.len() as int) =~= Seq::<GitObjectV>::empty());
    }
    ids
}

} // verus!
