//! The persistence codec: a whole collection to and from one opaque
//! byte blob.
//!
//! The blob starts with a format tag and version, then the slot count,
//! then the slots: integers little-endian, text as a character count
//! followed by one 32-bit scalar value per character. Relation caches
//! are never written; a loaded collection starts with empty caches and
//! a clear dirty flag.
//!
//! A save performed while the dirty flag is set writes a compacted
//! snapshot (live documents only) and clears the flag; a save of an
//! unchanged collection writes every slot verbatim, tombstones
//! included, so that slot positions survive the round trip.

use vstd::prelude::*;

use crate::doc::{Post, PostV, User, UserV};
use crate::store::{lemma_live_docs_idem, lemma_live_docs_wf, live_docs, wf_ids, DocView, Posts, Users};
use crate::CollectionError;
use vstd::bytes::{
    spec_u128_from_le_bytes, spec_u128_to_le_bytes, spec_u32_from_le_bytes, spec_u32_to_le_bytes,
    spec_u64_from_le_bytes, spec_u64_to_le_bytes, u128_from_le_bytes, u128_to_le_bytes,
    u32_from_le_bytes, u32_to_le_bytes, u64_from_le_bytes, u64_to_le_bytes,
    lemma_auto_spec_u128_to_from_le_bytes, lemma_auto_spec_u32_to_from_le_bytes,
    lemma_auto_spec_u64_to_from_le_bytes,
};
use vstd::string::StrSliceExecFns;
use vstd::utf8::{char_is_scalar, char_u32_cast, is_scalar};

verus! {

/// The four leading bytes of a blob: format tag, version, and the
/// collection kind.
pub open spec fn header(kind: u8) -> Seq<u8> {
    seq![0x61u8, 0x77u8, 0x01u8, kind]
}

/// A character's length does not overflow the count field.
pub open spec fn str_fits(s: Seq<char>) -> bool {
    s.len() <= u64::MAX
}

// ---------------------------------------------------------------
// Encoding, as sequences of bytes.
// ---------------------------------------------------------------
/// The characters of a text, four bytes each.
pub open spec fn enc_chars(s: Seq<char>) -> Seq<u8>
    decreases s.len(),
{
    if s.len() == 0 {
        Seq::empty()
    } else {
        spec_u32_to_le_bytes(s[0] as u32) + enc_chars(s.drop_first())
    }
}

/// A text: its character count, then its characters.
pub open spec fn enc_str(s: Seq<char>) -> Seq<u8> {
    spec_u64_to_le_bytes(s.len() as u64) + enc_chars(s)
}

/// A list of identifiers, sixteen bytes each.
pub open spec fn enc_ids(s: Seq<u128>) -> Seq<u8>
    decreases s.len(),
{
    if s.len() == 0 {
        Seq::empty()
    } else {
        spec_u128_to_le_bytes(s[0]) + enc_ids(s.drop_first())
    }
}

/// One post: identifier, timestamps, caption.
pub open spec fn enc_post(p: PostV) -> Seq<u8> {
    spec_u128_to_le_bytes(p.id) + spec_u64_to_le_bytes(p.created_at) + spec_u64_to_le_bytes(
        p.updated_at,
    ) + enc_str(p.caption)
}

/// A list of posts, in slot order.
pub open spec fn enc_posts(s: Seq<PostV>) -> Seq<u8>
    decreases s.len(),
{
    if s.len() == 0 {
        Seq::empty()
    } else {
        enc_post(s[0]) + enc_posts(s.drop_first())
    }
}

/// A whole posts collection: header, slot count, slots.
pub open spec fn posts_blob(ds: Seq<PostV>) -> Seq<u8> {
    header(1) + spec_u64_to_le_bytes(ds.len() as u64) + enc_posts(ds)
}

/// What a save writes: the compacted live slots when the dirty flag
/// is set, every slot verbatim otherwise.
pub open spec fn spec_save_posts(docs: Seq<PostV>, changed: bool) -> Seq<u8> {
    if changed {
        posts_blob(live_docs(docs))
    } else {
        posts_blob(docs)
    }
}

// ---------------------------------------------------------------
// Decoding, as a cursor over the blob.
// ---------------------------------------------------------------
/// Reads four bytes at `i` as a little-endian 32-bit integer.
pub open spec fn dec_u32(b: Seq<u8>, i: int) -> Option<(u32, int)> {
    if 0 <= i && i + 4 <= b.len() {
        Some((spec_u32_from_le_bytes(b.subrange(i, i + 4)), i + 4))
    } else {
        None
    }
}

/// Reads eight bytes at `i` as a little-endian 64-bit integer.
pub open spec fn dec_u64(b: Seq<u8>, i: int) -> Option<(u64, int)> {
    if 0 <= i && i + 8 <= b.len() {
        Some((spec_u64_from_le_bytes(b.subrange(i, i + 8)), i + 8))
    } else {
        None
    }
}

/// Reads sixteen bytes at `i` as a little-endian 128-bit integer.
pub open spec fn dec_u128(b: Seq<u8>, i: int) -> Option<(u128, int)> {
    if 0 <= i && i + 16 <= b.len() {
        Some((spec_u128_from_le_bytes(b.subrange(i, i + 16)), i + 16))
    } else {
        None
    }
}

/// Reads one character: a 32-bit value that must be a Unicode scalar.
pub open spec fn dec_char(b: Seq<u8>, i: int) -> Option<(char, int)> {
    match dec_u32(b, i) {
        Some((u, j)) => if is_scalar(u) {
            Some((u as char, j))
        } else {
            None
        },
        None => None,
    }
}

/// Reads `n` characters.
pub open spec fn dec_chars(b: Seq<u8>, i: int, n: nat) -> Option<(Seq<char>, int)>
    decreases n,
{
    if n == 0 {
        Some((Seq::empty(), i))
    } else {
        match dec_char(b, i) {
            Some((c, j)) => match dec_chars(b, j, (n - 1) as nat) {
                Some((cs, k)) => Some((seq![c] + cs, k)),
                None => None,
            },
            None => None,
        }
    }
}

/// Reads a text: its character count, then its characters.
pub open spec fn dec_str(b: Seq<u8>, i: int) -> Option<(Seq<char>, int)> {
    match dec_u64(b, i) {
        Some((n, j)) => dec_chars(b, j, n as nat),
        None => None,
    }
}

/// Reads `n` identifiers.
pub open spec fn dec_ids(b: Seq<u8>, i: int, n: nat) -> Option<(Seq<u128>, int)>
    decreases n,
{
    if n == 0 {
        Some((Seq::empty(), i))
    } else {
        match dec_u128(b, i) {
            Some((x, j)) => match dec_ids(b, j, (n - 1) as nat) {
                Some((xs, k)) => Some((seq![x] + xs, k)),
                None => None,
            },
            None => None,
        }
    }
}

/// Reads one post.
pub open spec fn dec_post(b: Seq<u8>, i: int) -> Option<(PostV, int)> {
    match dec_u128(b, i) {
        Some((id, j1)) => match dec_u64(b, j1) {
            Some((created_at, j2)) => match dec_u64(b, j2) {
                Some((updated_at, j3)) => match dec_str(b, j3) {
                    Some((caption, j4)) => Some(
                        (PostV { id, created_at, updated_at, caption }, j4),
                    ),
                    None => None,
                },
                None => None,
            },
            None => None,
        },
        None => None,
    }
}

/// Reads `n` posts.
pub open spec fn dec_posts(b: Seq<u8>, i: int, n: nat) -> Option<(Seq<PostV>, int)>
    decreases n,
{
    if n == 0 {
        Some((Seq::empty(), i))
    } else {
        match dec_post(b, i) {
            Some((d, j)) => match dec_posts(b, j, (n - 1) as nat) {
                Some((ds, k)) => Some((seq![d] + ds, k)),
                None => None,
            },
            None => None,
        }
    }
}

/// What a load reads back from a posts blob: the slots, exactly when
/// the header matches and the blob is consumed without remainder.
pub open spec fn spec_load_posts(b: Seq<u8>) -> Option<Seq<PostV>> {
    if b.len() >= 4 && b.subrange(0, 4) == header(1) {
        match dec_u64(b, 4) {
            Some((n, j)) => match dec_posts(b, j, n as nat) {
                Some((ds, k)) => if k == b.len() {
                    Some(ds)
                } else {
                    None
                },
                None => None,
            },
            None => None,
        }
    } else {
        None
    }
}

// ---------------------------------------------------------------
// Length and concatenation facts about the encoders.
// ---------------------------------------------------------------
proof fn lemma_enc_chars_len(s: Seq<char>)
    ensures
        enc_chars(s).len() == 4 * s.len(),
    decreases s.len(),
{
    lemma_auto_spec_u32_to_from_le_bytes();
    lemma_auto_spec_u64_to_from_le_bytes();
    lemma_auto_spec_u128_to_from_le_bytes();
    if s.len() > 0 {
        lemma_enc_chars_len(s.drop_first());
    }
}

proof fn lemma_enc_chars_concat(a: Seq<char>, b: Seq<char>)
    ensures
        enc_chars(a + b) == enc_chars(a) + enc_chars(b),
    decreases a.len(),
{
    if a.len() == 0 {
        assert(a + b =~= b);
        assert(enc_chars(a) + enc_chars(b) =~= enc_chars(b));
    } else {
        assert((a + b)[0] == a[0]);
        assert((a + b).drop_first() =~= a.drop_first() + b);
        lemma_enc_chars_concat(a.drop_first(), b);
        assert(spec_u32_to_le_bytes(a[0] as u32) + (enc_chars(a.drop_first()) + enc_chars(b)) =~= (
        spec_u32_to_le_bytes(a[0] as u32) + enc_chars(a.drop_first())) + enc_chars(b));
    }
}

proof fn lemma_enc_chars_take_step(s: Seq<char>, i: int)
    requires
        0 <= i < s.len(),
    ensures
        enc_chars(s.take(i + 1)) == enc_chars(s.take(i)) + spec_u32_to_le_bytes(s[i] as u32),
{
    lemma_auto_spec_u32_to_from_le_bytes();
    assert(s.take(i + 1) =~= s.take(i) + seq![s[i]]);
    lemma_enc_chars_concat(s.take(i), seq![s[i]]);
    assert(seq![s[i]].drop_first() =~= Seq::<char>::empty());
    assert(enc_chars(Seq::<char>::empty()) == Seq::<u8>::empty());
    assert(enc_chars(seq![s[i]]) =~= spec_u32_to_le_bytes(s[i] as u32));
}

proof fn lemma_enc_ids_concat(a: Seq<u128>, b: Seq<u128>)
    ensures
        enc_ids(a + b) == enc_ids(a) + enc_ids(b),
    decreases a.len(),
{
    if a.len() == 0 {
        assert(a + b =~= b);
        assert(enc_ids(a) + enc_ids(b) =~= enc_ids(b));
    } else {
        assert((a + b)[0] == a[0]);
        assert((a + b).drop_first() =~= a.drop_first() + b);
        lemma_enc_ids_concat(a.drop_first(), b);
        assert(spec_u128_to_le_bytes(a[0]) + (enc_ids(a.drop_first()) + enc_ids(b)) =~= (
        spec_u128_to_le_bytes(a[0]) + enc_ids(a.drop_first())) + enc_ids(b));
    }
}

proof fn lemma_enc_ids_take_step(s: Seq<u128>, i: int)
    requires
        0 <= i < s.len(),
    ensures
        enc_ids(s.take(i + 1)) == enc_ids(s.take(i)) + spec_u128_to_le_bytes(s[i]),
{
    lemma_auto_spec_u128_to_from_le_bytes();
    assert(s.take(i + 1) =~= s.take(i) + seq![s[i]]);
    lemma_enc_ids_concat(s.take(i), seq![s[i]]);
    assert(seq![s[i]].drop_first() =~= Seq::<u128>::empty());
    assert(enc_ids(Seq::<u128>::empty()) == Seq::<u8>::empty());
    assert(enc_ids(seq![s[i]]) =~= spec_u128_to_le_bytes(s[i]));
}

proof fn lemma_enc_posts_concat(a: Seq<PostV>, b: Seq<PostV>)
    ensures
        enc_posts(a + b) == enc_posts(a) + enc_posts(b),
    decreases a.len(),
{
    if a.len() == 0 {
        assert(a + b =~= b);
        assert(enc_posts(a) + enc_posts(b) =~= enc_posts(b));
    } else {
        assert((a + b)[0] == a[0]);
        assert((a + b).drop_first() =~= a.drop_first() + b);
        lemma_enc_posts_concat(a.drop_first(), b);
        assert(enc_post(a[0]) + (enc_posts(a.drop_first()) + enc_posts(b)) =~= (enc_post(a[0])
            + enc_posts(a.drop_first())) + enc_posts(b));
    }
}

proof fn lemma_enc_posts_take_step(s: Seq<PostV>, i: int)
    requires
        0 <= i < s.len(),
    ensures
        enc_posts(s.take(i + 1)) == enc_posts(s.take(i)) + enc_post(s[i]),
{
    assert(s.take(i + 1) =~= s.take(i) + seq![s[i]]);
    lemma_enc_posts_concat(s.take(i), seq![s[i]]);
    assert(seq![s[i]].drop_first() =~= Seq::<PostV>::empty());
    assert(enc_posts(Seq::<PostV>::empty()) == Seq::<u8>::empty());
    assert(enc_posts(seq![s[i]]) =~= enc_post(s[i]));
}

// ---------------------------------------------------------------
// Round trip: decoding reads back what encoding wrote.
// ---------------------------------------------------------------
proof fn lemma_dec_u32_round(b: Seq<u8>, i: int, x: u32)
    requires
        0 <= i,
        i + 4 <= b.len(),
        b.subrange(i, i + 4) == spec_u32_to_le_bytes(x),
    ensures
        dec_u32(b, i) == Some((x, i + 4)),
{
    lemma_auto_spec_u32_to_from_le_bytes();
    assert(spec_u32_to_le_bytes(x).len() == 4);
}

proof fn lemma_dec_u64_round(b: Seq<u8>, i: int, x: u64)
    requires
        0 <= i,
        i + 8 <= b.len(),
        b.subrange(i, i + 8) == spec_u64_to_le_bytes(x),
    ensures
        dec_u64(b, i) == Some((x, i + 8)),
{
    lemma_auto_spec_u64_to_from_le_bytes();
    assert(spec_u64_to_le_bytes(x).len() == 8);
}

proof fn lemma_dec_u128_round(b: Seq<u8>, i: int, x: u128)
    requires
        0 <= i,
        i + 16 <= b.len(),
        b.subrange(i, i + 16) == spec_u128_to_le_bytes(x),
    ensures
        dec_u128(b, i) == Some((x, i + 16)),
{
    lemma_auto_spec_u128_to_from_le_bytes();
    assert(spec_u128_to_le_bytes(x).len() == 16);
}

proof fn lemma_dec_chars_round(b: Seq<u8>, i: int, s: Seq<char>)
    requires
        0 <= i,
        i + enc_chars(s).len() <= b.len(),
        b.subrange(i, i + enc_chars(s).len()) == enc_chars(s),
    ensures
        dec_chars(b, i, s.len()) == Some((s, i + enc_chars(s).len())),
    decreases s.len(),
{
    lemma_auto_spec_u32_to_from_le_bytes();
    lemma_auto_spec_u64_to_from_le_bytes();
    lemma_auto_spec_u128_to_from_le_bytes();
    lemma_enc_chars_len(s);
    if s.len() == 0 {
        assert(dec_chars(b, i, 0) == Some((Seq::<char>::empty(), i)));
        assert(s =~= Seq::<char>::empty());
    } else {
        let e = enc_chars(s);
        let c0 = spec_u32_to_le_bytes(s[0] as u32);
        let rest = enc_chars(s.drop_first());
        lemma_enc_chars_len(s.drop_first());
        assert(b.subrange(i, i + 4) =~= c0) by {
            assert forall|k: int| 0 <= k < 4 implies b.subrange(i, i + 4)[k] == c0[k] by {
                assert(b.subrange(i, i + e.len() as int)[k] == e[k]);
            }
        }
        lemma_dec_u32_round(b, i, s[0] as u32);
        char_is_scalar(s[0]);
        char_u32_cast(s[0], s[0] as u32);
        assert(b.subrange(i + 4, i + 4 + rest.len() as int) =~= rest) by {
            assert forall|k: int| 0 <= k < rest.len() implies b.subrange(
                i + 4,
                i + 4 + rest.len() as int,
            )[k] == rest[k] by {
                assert(b.subrange(i, i + e.len() as int)[k + 4] == e[k + 4]);
            }
        }
        lemma_dec_chars_round(b, i + 4, s.drop_first());
        assert(seq![s[0]] + s.drop_first() =~= s);
    }
}

proof fn lemma_dec_str_round(b: Seq<u8>, i: int, s: Seq<char>)
    requires
        0 <= i,
        str_fits(s),
        i + enc_str(s).len() <= b.len(),
        b.subrange(i, i + enc_str(s).len()) == enc_str(s),
    ensures
        dec_str(b, i) == Some((s, i + enc_str(s).len())),
{
    lemma_auto_spec_u32_to_from_le_bytes();
    lemma_auto_spec_u64_to_from_le_bytes();
    lemma_auto_spec_u128_to_from_le_bytes();
    let e = enc_str(s);
    let cs = enc_chars(s);
    lemma_enc_chars_len(s);
    assert(b.subrange(i, i + 8) =~= spec_u64_to_le_bytes(s.len() as u64)) by {
        assert forall|k: int| #![trigger b.subrange(i, i + 8)[k]] 0 <= k < 8 implies b.subrange(
            i,
            i + 8,
        )[k] == spec_u64_to_le_bytes(s.len() as u64)[k] by {
            assert(b.subrange(i, i + e.len() as int)[k] == e[k]);
            assert(spec_u64_to_le_bytes(s.len() as u64).len() == 8) by {
                lemma_auto_spec_u64_to_from_le_bytes();
            }
        }
    }
    lemma_dec_u64_round(b, i, s.len() as u64);
    assert((s.len() as u64) as nat == s.len());
    assert(b.subrange(i + 8, i + 8 + cs.len() as int) =~= cs) by {
        assert forall|k: int| 0 <= k < cs.len() implies b.subrange(
            i + 8,
            i + 8 + cs.len() as int,
        )[k] == cs[k] by {
            assert(b.subrange(i, i + e.len() as int)[k + 8] == e[k + 8]);
        }
    }
    lemma_dec_chars_round(b, i + 8, s);
}

proof fn lemma_dec_post_round(b: Seq<u8>, i: int, p: PostV)
    requires
        0 <= i,
        str_fits(p.caption),
        i + enc_post(p).len() <= b.len(),
        b.subrange(i, i + enc_post(p).len()) == enc_post(p),
    ensures
        dec_post(b, i) == Some((p, i + enc_post(p).len())),
{
    lemma_auto_spec_u32_to_from_le_bytes();
    lemma_auto_spec_u64_to_from_le_bytes();
    lemma_auto_spec_u128_to_from_le_bytes();
    let e = enc_post(p);
    let a = spec_u128_to_le_bytes(p.id);
    let c1 = spec_u64_to_le_bytes(p.created_at);
    let c2 = spec_u64_to_le_bytes(p.updated_at);
    let es = enc_str(p.caption);
    lemma_enc_chars_len(p.caption);
    assert(e.len() == 32 + es.len());
    assert forall|k: int| #![trigger e[k]] 0 <= k < e.len() implies b[i + k] == e[k] by {
        assert(b.subrange(i, i + e.len() as int)[k] == e[k]);
    }
    assert forall|k: int| #![trigger e[k]] 0 <= k < e.len() implies e[k] == (if k < 16 {
        a[k]
    } else if k < 24 {
        c1[k - 16]
    } else if k < 32 {
        c2[k - 24]
    } else {
        es[k - 32]
    }) by {
        assert(e == ((a + c1) + c2) + es);
        assert(((a + c1) + c2) + es == e);
    }
    assert(b.subrange(i, i + 16) =~= a) by {
        assert forall|t: int| #![trigger a[t]] 0 <= t < 16 implies b.subrange(i, i + 16)[t] == a[t] by {
            assert(b[i + t] == e[t]);
            assert(e[t] == a[t]);
        }
    }
    lemma_dec_u128_round(b, i, p.id);
    assert(b.subrange(i + 16, i + 24) =~= c1) by {
        assert forall|t: int| #![trigger c1[t]] 0 <= t < 8 implies b.subrange(i + 16, i + 24)[t]
            == c1[t] by {
            assert(b[i + 16 + t] == e[16 + t]);
            assert(e[16 + t] == c1[t]);
        }
    }
    lemma_dec_u64_round(b, i + 16, p.created_at);
    assert(b.subrange(i + 24, i + 32) =~= c2) by {
        assert forall|t: int| #![trigger c2[t]] 0 <= t < 8 implies b.subrange(i + 24, i + 32)[t]
            == c2[t] by {
            assert(b[i + 24 + t] == e[24 + t]);
            assert(e[24 + t] == c2[t]);
        }
    }
    lemma_dec_u64_round(b, i + 24, p.updated_at);
    assert(b.subrange(i + 32, i + 32 + es.len() as int) =~= es) by {
        assert forall|t: int| #![trigger es[t]] 0 <= t < es.len() implies b.subrange(
            i + 32,
            i + 32 + es.len() as int,
        )[t] == es[t] by {
            assert(b[i + 32 + t] == e[32 + t]);
            assert(e[32 + t] == es[t]);
        }
    }
    lemma_dec_str_round(b, i + 32, p.caption);
}

/// Every caption fits its count field.
pub open spec fn posts_fit(ds: Seq<PostV>) -> bool {
    &&& ds.len() <= u64::MAX
    &&& forall|k: int| 0 <= k < ds.len() ==> str_fits((#[trigger] ds[k]).caption)
}

proof fn lemma_dec_posts_round(b: Seq<u8>, i: int, s: Seq<PostV>)
    requires
        0 <= i,
        posts_fit(s),
        i + enc_posts(s).len() <= b.len(),
        b.subrange(i, i + enc_posts(s).len()) == enc_posts(s),
    ensures
        dec_posts(b, i, s.len()) == Some((s, i + enc_posts(s).len())),
    decreases s.len(),
{
    lemma_auto_spec_u32_to_from_le_bytes();
    lemma_auto_spec_u64_to_from_le_bytes();
    lemma_auto_spec_u128_to_from_le_bytes();
    if s.len() == 0 {
        assert(s =~= Seq::<PostV>::empty());
    } else {
        let e = enc_posts(s);
        let e0 = enc_post(s[0]);
        let rest = enc_posts(s.drop_first());
        assert(e == e0 + rest);
        assert forall|k: int| #![trigger e[k]] 0 <= k < e.len() implies b[i + k] == e[k] by {
            assert(b.subrange(i, i + e.len() as int)[k] == e[k]);
        }
        assert(b.subrange(i, i + e0.len() as int) =~= e0) by {
            assert forall|k: int|
                #![trigger b.subrange(i, i + e0.len() as int)[k]]
                0 <= k < e0.len() implies b.subrange(i, i + e0.len() as int)[k] == e0[k] by {
                assert(e[k] == e0[k]);
            }
        }
        lemma_dec_post_round(b, i, s[0]);
        assert(b.subrange(i + e0.len() as int, i + e0.len() + rest.len()) =~= rest) by {
            assert forall|k: int|
                #![trigger rest[k]]
                0 <= k < rest.len() implies b.subrange(
                i + e0.len() as int,
                i + e0.len() + rest.len(),
            )[k] == rest[k] by {
                assert(e[k + e0.len()] == rest[k]);
            }
        }
        assert(posts_fit(s.drop_first())) by {
            assert forall|k: int| 0 <= k < s.drop_first().len() implies str_fits(
                (#[trigger] s.drop_first()[k]).caption,
            ) by {
                assert(s.drop_first()[k] == s[k + 1]);
            }
        }
        lemma_dec_posts_round(b, i + e0.len() as int, s.drop_first());
        assert(seq![s[0]] + s.drop_first() =~= s);
    }
}

/// Loading a posts blob reads back exactly the slots that were
/// written.
pub proof fn lemma_posts_blob_round(ds: Seq<PostV>)
    requires
        posts_fit(ds),
    ensures
        spec_load_posts(posts_blob(ds)) == Some(ds),
{
    let b = posts_blob(ds);
    let cnt = spec_u64_to_le_bytes(ds.len() as u64);
    let body = enc_posts(ds);
    lemma_auto_spec_u64_to_from_le_bytes();
    assert(b.len() == 12 + body.len());
    assert(b.subrange(0, 4) =~= header(1));
    assert(b.subrange(4, 12) =~= cnt);
    lemma_dec_u64_round(b, 4, ds.len() as u64);
    assert(b.subrange(12, 12 + body.len() as int) =~= body);
    lemma_dec_posts_round(b, 12, ds);
    assert((ds.len() as u64) as nat == ds.len());
}

// ---------------------------------------------------------------
// Users: encoding, decoding, and their round trip.
// ---------------------------------------------------------------
/// One user: identifier, timestamps, names, password hash, and the
/// owned relation identifiers. The derived cache is never written.
pub open spec fn enc_user(u: UserV) -> Seq<u8> {
    spec_u128_to_le_bytes(u.id) + spec_u64_to_le_bytes(u.created_at) + spec_u64_to_le_bytes(
        u.updated_at,
    ) + enc_str(u.username) + enc_str(u.email) + spec_u128_to_le_bytes(u.hashed_password)
        + spec_u64_to_le_bytes(u.post_ids.len() as u64) + enc_ids(u.post_ids)
}

/// A list of users, in slot order.
pub open spec fn enc_users(s: Seq<UserV>) -> Seq<u8>
    decreases s.len(),
{
    if s.len() == 0 {
        Seq::empty()
    } else {
        enc_user(s[0]) + enc_users(s.drop_first())
    }
}

/// A whole users collection: header, slot count, slots.
pub open spec fn users_blob(ds: Seq<UserV>) -> Seq<u8> {
    header(2) + spec_u64_to_le_bytes(ds.len() as u64) + enc_users(ds)
}

/// What a save writes: the compacted live slots when the dirty flag
/// is set, every slot verbatim otherwise.
pub open spec fn spec_save_users(docs: Seq<UserV>, changed: bool) -> Seq<u8> {
    if changed {
        users_blob(live_docs(docs))
    } else {
        users_blob(docs)
    }
}

/// The same user with an empty relation cache: what a round trip
/// through the codec gives back.
pub open spec fn stripped_user(u: UserV) -> UserV {
    UserV { posts: Seq::empty(), ..u }
}

/// The same slots with empty relation caches.
pub open spec fn stripped(s: Seq<UserV>) -> Seq<UserV> {
    Seq::new(s.len(), |k: int| stripped_user(s[k]))
}

/// Reads one user; its relation cache starts empty.
pub open spec fn dec_user(b: Seq<u8>, i: int) -> Option<(UserV, int)> {
    match dec_u128(b, i) {
        Some((id, j1)) => match dec_u64(b, j1) {
            Some((created_at, j2)) => match dec_u64(b, j2) {
                Some((updated_at, j3)) => match dec_str(b, j3) {
                    Some((username, j4)) => match dec_str(b, j4) {
                        Some((email, j5)) => match dec_u128(b, j5) {
                            Some((hashed_password, j6)) => match dec_u64(b, j6) {
                                Some((n, j7)) => match dec_ids(b, j7, n as nat) {
                                    Some((post_ids, j8)) => Some(
                                        (
                                            UserV {
                                                id,
                                                created_at,
                                                updated_at,
                                                username,
                                                email,
                                                hashed_password,
                                                posts: Seq::empty(),
                                                post_ids,
                                            },
                                            j8,
                                        ),
                                    ),
                                    None => None,
                                },
                                None => None,
                            },
                            None => None,
                        },
                        None => None,
                    },
                    None => None,
                },
                None => None,
            },
            None => None,
        },
        None => None,
    }
}

/// Reads `n` users.
pub open spec fn dec_users(b: Seq<u8>, i: int, n: nat) -> Option<(Seq<UserV>, int)>
    decreases n,
{
    if n == 0 {
        Some((Seq::empty(), i))
    } else {
        match dec_user(b, i) {
            Some((d, j)) => match dec_users(b, j, (n - 1) as nat) {
                Some((ds, k)) => Some((seq![d] + ds, k)),
                None => None,
            },
            None => None,
        }
    }
}

/// What a load reads back from a users blob: the slots, exactly when
/// the header matches and the blob is consumed without remainder.
pub open spec fn spec_load_users(b: Seq<u8>) -> Option<Seq<UserV>> {
    if b.len() >= 4 && b.subrange(0, 4) == header(2) {
        match dec_u64(b, 4) {
            Some((n, j)) => match dec_users(b, j, n as nat) {
                Some((ds, k)) => if k == b.len() {
                    Some(ds)
                } else {
                    None
                },
                None => None,
            },
            None => None,
        }
    } else {
        None
    }
}

proof fn lemma_enc_ids_len(s: Seq<u128>)
    ensures
        enc_ids(s).len() == 16 * s.len(),
    decreases s.len(),
{
    lemma_auto_spec_u128_to_from_le_bytes();
    if s.len() > 0 {
        lemma_enc_ids_len(s.drop_first());
    }
}

proof fn lemma_dec_ids_round(b: Seq<u8>, i: int, s: Seq<u128>)
    requires
        0 <= i,
        i + enc_ids(s).len() <= b.len(),
        b.subrange(i, i + enc_ids(s).len()) == enc_ids(s),
    ensures
        dec_ids(b, i, s.len()) == Some((s, i + enc_ids(s).len())),
    decreases s.len(),
{
    lemma_auto_spec_u128_to_from_le_bytes();
    lemma_enc_ids_len(s);
    if s.len() == 0 {
        assert(s =~= Seq::<u128>::empty());
    } else {
        let e = enc_ids(s);
        let c0 = spec_u128_to_le_bytes(s[0]);
        let rest = enc_ids(s.drop_first());
        lemma_enc_ids_len(s.drop_first());
        assert(b.subrange(i, i + 16) =~= c0) by {
            assert forall|k: int| #![trigger c0[k]] 0 <= k < 16 implies b.subrange(i, i + 16)[k]
                == c0[k] by {
                assert(b.subrange(i, i + e.len() as int)[k] == e[k]);
            }
        }
        lemma_dec_u128_round(b, i, s[0]);
        assert(b.subrange(i + 16, i + 16 + rest.len() as int) =~= rest) by {
            assert forall|k: int| #![trigger rest[k]] 0 <= k < rest.len() implies b.subrange(
                i + 16,
                i + 16 + rest.len() as int,
            )[k] == rest[k] by {
                assert(b.subrange(i, i + e.len() as int)[k + 16] == e[k + 16]);
            }
        }
        lemma_dec_ids_round(b, i + 16, s.drop_first());
        assert(seq![s[0]] + s.drop_first() =~= s);
    }
}

/// Every text and identifier list fits its count field.
pub open spec fn user_fits(u: UserV) -> bool {
    &&& str_fits(u.username)
    &&& str_fits(u.email)
    &&& u.post_ids.len() <= u64::MAX
}

/// Every slot fits, and so does the slot count.
pub open spec fn users_fit(ds: Seq<UserV>) -> bool {
    &&& ds.len() <= u64::MAX
    &&& forall|k: int| 0 <= k < ds.len() ==> user_fits(#[trigger] ds[k])
}

proof fn lemma_dec_user_round(b: Seq<u8>, i: int, u: UserV)
    requires
        0 <= i,
        user_fits(u),
        i + enc_user(u).len() <= b.len(),
        b.subrange(i, i + enc_user(u).len()) == enc_user(u),
    ensures
        dec_user(b, i) == Some((stripped_user(u), i + enc_user(u).len())),
{
    lemma_auto_spec_u32_to_from_le_bytes();
    lemma_auto_spec_u64_to_from_le_bytes();
    lemma_auto_spec_u128_to_from_le_bytes();
    let e = enc_user(u);
    let a = spec_u128_to_le_bytes(u.id);
    let c1 = spec_u64_to_le_bytes(u.created_at);
    let c2 = spec_u64_to_le_bytes(u.updated_at);
    let es1 = enc_str(u.username);
    let es2 = enc_str(u.email);
    let h = spec_u128_to_le_bytes(u.hashed_password);
    let cnt = spec_u64_to_le_bytes(u.post_ids.len() as u64);
    let eids = enc_ids(u.post_ids);
    lemma_enc_chars_len(u.username);
    lemma_enc_chars_len(u.email);
    lemma_enc_ids_len(u.post_ids);
    let o4 = 32 + es1.len() as int;
    let o5 = o4 + es2.len() as int;
    let o6 = o5 + 16;
    let o7 = o6 + 8;
    assert(e.len() as int == o7 + eids.len() as int);
    assert forall|k: int| #![trigger e[k]] 0 <= k < e.len() implies b[i + k] == e[k] by {
        assert(b.subrange(i, i + e.len() as int)[k] == e[k]);
    }
    assert forall|k: int| #![trigger e[k]] 0 <= k < e.len() implies e[k] == (if k < 16 {
        a[k]
    } else if k < 24 {
        c1[k - 16]
    } else if k < 32 {
        c2[k - 24]
    } else if k < o4 {
        es1[k - 32]
    } else if k < o5 {
        es2[k - o4]
    } else if k < o6 {
        h[k - o5]
    } else if k < o7 {
        cnt[k - o6]
    } else {
        eids[k - o7]
    }) by {
        assert(e == ((((((a + c1) + c2) + es1) + es2) + h) + cnt) + eids);
    }
    assert(b.subrange(i, i + 16) =~= a) by {
        assert forall|t: int| #![trigger a[t]] 0 <= t < 16 implies b.subrange(i, i + 16)[t]
            == a[t] by {
            assert(b[i + t] == e[t]);
            assert(e[t] == a[t]);
        }
    }
    lemma_dec_u128_round(b, i, u.id);
    assert(b.subrange(i + 16, i + 24) =~= c1) by {
        assert forall|t: int| #![trigger c1[t]] 0 <= t < 8 implies b.subrange(i + 16, i + 24)[t]
            == c1[t] by {
            assert(b[i + 16 + t] == e[16 + t]);
            assert(e[16 + t] == c1[t]);
        }
    }
    lemma_dec_u64_round(b, i + 16, u.created_at);
    assert(b.subrange(i + 24, i + 32) =~= c2) by {
        assert forall|t: int| #![trigger c2[t]] 0 <= t < 8 implies b.subrange(i + 24, i + 32)[t]
            == c2[t] by {
            assert(b[i + 24 + t] == e[24 + t]);
            assert(e[24 + t] == c2[t]);
        }
    }
    lemma_dec_u64_round(b, i + 24, u.updated_at);
    assert(b.subrange(i + 32, i + o4) =~= es1) by {
        assert forall|t: int| #![trigger es1[t]] 0 <= t < es1.len() implies b.subrange(
            i + 32,
            i + o4,
        )[t] == es1[t] by {
            assert(b[i + 32 + t] == e[32 + t]);
            assert(e[32 + t] == es1[t]);
        }
    }
    lemma_dec_str_round(b, i + 32, u.username);
    assert(b.subrange(i + o4, i + o5) =~= es2) by {
        assert forall|t: int| #![trigger es2[t]] 0 <= t < es2.len() implies b.subrange(
            i + o4,
            i + o5,
        )[t] == es2[t] by {
            assert(b[i + o4 + t] == e[o4 + t]);
            assert(e[o4 + t] == es2[t]);
        }
    }
    lemma_dec_str_round(b, i + o4, u.email);
    assert(b.subrange(i + o5, i + o6) =~= h) by {
        assert forall|t: int| #![trigger h[t]] 0 <= t < 16 implies b.subrange(i + o5, i + o6)[t]
            == h[t] by {
            assert(b[i + o5 + t] == e[o5 + t]);
            assert(e[o5 + t] == h[t]);
        }
    }
    lemma_dec_u128_round(b, i + o5, u.hashed_password);
    assert(b.subrange(i + o6, i + o7) =~= cnt) by {
        assert forall|t: int| #![trigger cnt[t]] 0 <= t < 8 implies b.subrange(i + o6, i + o7)[t]
            == cnt[t] by {
            assert(b[i + o6 + t] == e[o6 + t]);
            assert(e[o6 + t] == cnt[t]);
        }
    }
    lemma_dec_u64_round(b, i + o6, u.post_ids.len() as u64);
    assert(b.subrange(i + o7, i + o7 + eids.len() as int) =~= eids) by {
        assert forall|t: int| #![trigger eids[t]] 0 <= t < eids.len() implies b.subrange(
            i + o7,
            i + o7 + eids.len() as int,
        )[t] == eids[t] by {
            assert(b[i + o7 + t] == e[o7 + t]);
            assert(e[o7 + t] == eids[t]);
        }
    }
    lemma_dec_ids_round(b, i + o7, u.post_ids);
    assert((u.post_ids.len() as u64) as nat == u.post_ids.len());
}

proof fn lemma_dec_users_round(b: Seq<u8>, i: int, s: Seq<UserV>)
    requires
        0 <= i,
        users_fit(s),
        i + enc_users(s).len() <= b.len(),
        b.subrange(i, i + enc_users(s).len()) == enc_users(s),
    ensures
        dec_users(b, i, s.len()) == Some((stripped(s), i + enc_users(s).len())),
    decreases s.len(),
{
    if s.len() == 0 {
        assert(stripped(s) =~= Seq::<UserV>::empty());
    } else {
        let e = enc_users(s);
        let e0 = enc_user(s[0]);
        let rest = enc_users(s.drop_first());
        assert(e == e0 + rest);
        assert forall|k: int| #![trigger e[k]] 0 <= k < e.len() implies b[i + k] == e[k] by {
            assert(b.subrange(i, i + e.len() as int)[k] == e[k]);
        }
        assert(b.subrange(i, i + e0.len() as int) =~= e0) by {
            assert forall|k: int|
                #![trigger e0[k]]
                0 <= k < e0.len() implies b.subrange(i, i + e0.len() as int)[k] == e0[k] by {
                assert(e[k] == e0[k]);
            }
        }
        lemma_dec_user_round(b, i, s[0]);
        assert(b.subrange(i + e0.len() as int, i + e0.len() + rest.len()) =~= rest) by {
            assert forall|k: int|
                #![trigger rest[k]]
                0 <= k < rest.len() implies b.subrange(
                i + e0.len() as int,
                i + e0.len() + rest.len(),
            )[k] == rest[k] by {
                assert(e[k + e0.len()] == rest[k]);
            }
        }
        assert(users_fit(s.drop_first())) by {
            assert forall|k: int| 0 <= k < s.drop_first().len() implies user_fits(
                #[trigger] s.drop_first()[k],
            ) by {
                assert(s.drop_first()[k] == s[k + 1]);
            }
        }
        lemma_dec_users_round(b, i + e0.len() as int, s.drop_first());
        assert(seq![stripped_user(s[0])] + stripped(s.drop_first()) =~= stripped(s));
    }
}

/// Loading a users blob reads back exactly the slots that were
/// written, each with an empty relation cache.
pub proof fn lemma_users_blob_round(ds: Seq<UserV>)
    requires
        users_fit(ds),
    ensures
        spec_load_users(users_blob(ds)) == Some(stripped(ds)),
{
    let b = users_blob(ds);
    let cnt = spec_u64_to_le_bytes(ds.len() as u64);
    let body = enc_users(ds);
    lemma_auto_spec_u64_to_from_le_bytes();
    assert(b.len() == 12 + body.len());
    assert(b.subrange(0, 4) =~= header(2));
    assert(b.subrange(4, 12) =~= cnt);
    lemma_dec_u64_round(b, 4, ds.len() as u64);
    assert(b.subrange(12, 12 + body.len() as int) =~= body);
    lemma_dec_users_round(b, 12, ds);
    assert((ds.len() as u64) as nat == ds.len());
}

proof fn lemma_enc_users_concat(a: Seq<UserV>, b: Seq<UserV>)
    ensures
        enc_users(a + b) == enc_users(a) + enc_users(b),
    decreases a.len(),
{
    if a.len() == 0 {
        assert(a + b =~= b);
        assert(enc_users(a) + enc_users(b) =~= enc_users(b));
    } else {
        assert((a + b)[0] == a[0]);
        assert((a + b).drop_first() =~= a.drop_first() + b);
        lemma_enc_users_concat(a.drop_first(), b);
        assert(enc_user(a[0]) + (enc_users(a.drop_first()) + enc_users(b)) =~= (enc_user(a[0])
            + enc_users(a.drop_first())) + enc_users(b));
    }
}

proof fn lemma_enc_users_take_step(s: Seq<UserV>, i: int)
    requires
        0 <= i < s.len(),
    ensures
        enc_users(s.take(i + 1)) == enc_users(s.take(i)) + enc_user(s[i]),
{
    assert(s.take(i + 1) =~= s.take(i) + seq![s[i]]);
    lemma_enc_users_concat(s.take(i), seq![s[i]]);
    assert(seq![s[i]].drop_first() =~= Seq::<UserV>::empty());
    assert(enc_users(Seq::<UserV>::empty()) == Seq::<u8>::empty());
    assert(enc_users(seq![s[i]]) =~= enc_user(s[i]));
}

// ---------------------------------------------------------------
// Trusted items.
// ---------------------------------------------------------------
/// Relies on `char::from_u32`: it returns `Some` on every Unicode
/// scalar value, and the returned character carries the given code.
#[verifier::external_body]
fn char_from_u32(u: u32) -> (r: Option<char>)
    ensures
        r matches Some(c) ==> c as u32 == u,
        is_scalar(u) ==> r is Some,
{
    char::from_u32(u)
}

/// Relies on `String::push`: it appends the one character.
#[verifier::external_body]
fn push_char(s: &mut String, c: char)
    ensures
        final(s)@ == old(s)@.push(c),
{
    s.push(c)
}

// ---------------------------------------------------------------
// Writing.
// ---------------------------------------------------------------
fn write_u32(out: &mut Vec<u8>, x: u32)
    ensures
        final(out)@ == old(out)@ + spec_u32_to_le_bytes(x),
{
    let mut bs = u32_to_le_bytes(x);
    out.append(&mut bs);
}

fn write_u64(out: &mut Vec<u8>, x: u64)
    ensures
        final(out)@ == old(out)@ + spec_u64_to_le_bytes(x),
{
    let mut bs = u64_to_le_bytes(x);
    out.append(&mut bs);
}

fn write_u128(out: &mut Vec<u8>, x: u128)
    ensures
        final(out)@ == old(out)@ + spec_u128_to_le_bytes(x),
{
    let mut bs = u128_to_le_bytes(x);
    out.append(&mut bs);
}

#[verifier::loop_isolation(false)]
fn write_str(out: &mut Vec<u8>, s: &String)
    ensures
        final(out)@ == old(out)@ + enc_str(s@),
        str_fits(s@),
{
    let st = s.as_str();
    let n = st.unicode_len();
    write_u64(out, n as u64);
    proof {
        assert(s@.take(0) =~= Seq::<char>::empty());
        assert(enc_chars(Seq::<char>::empty()) == Seq::<u8>::empty());
        assert(out@ =~= old(out)@ + spec_u64_to_le_bytes(s@.len() as u64) + enc_chars(s@.take(0)));
    }
    let mut i: usize = 0;
    while i < n
        invariant
            n == s@.len(),
            i <= n,
            out@ == old(out)@ + spec_u64_to_le_bytes(s@.len() as u64) + enc_chars(
                s@.take(i as int),
            ),
        decreases n - i,
    {
        let c = st.get_char(i);
        let ghost pre = out@;
        write_u32(out, c as u32);
        proof {
            lemma_enc_chars_take_step(s@, i as int);
            assert(out@ =~= old(out)@ + spec_u64_to_le_bytes(s@.len() as u64) + enc_chars(
                s@.take(i + 1),
            ));
        }
        i = i + 1;
    }
    proof {
        assert(s@.take(n as int) =~= s@);
    }
}

#[verifier::loop_isolation(false)]
fn write_ids(out: &mut Vec<u8>, v: &Vec<u128>)
    ensures
        final(out)@ == old(out)@ + spec_u64_to_le_bytes(v@.len() as u64) + enc_ids(v@),
        v@.len() <= u64::MAX,
{
    let n = v.len();
    write_u64(out, n as u64);
    proof {
        assert(v@.take(0) =~= Seq::<u128>::empty());
        assert(enc_ids(Seq::<u128>::empty()) == Seq::<u8>::empty());
        assert(out@ =~= old(out)@ + spec_u64_to_le_bytes(v@.len() as u64) + enc_ids(v@.take(0)));
    }
    let mut i: usize = 0;
    while i < n
        invariant
            n == v@.len(),
            i <= n,
            out@ == old(out)@ + spec_u64_to_le_bytes(v@.len() as u64) + enc_ids(v@.take(i as int)),
        decreases n - i,
    {
        write_u128(out, v[i]);
        proof {
            lemma_enc_ids_take_step(v@, i as int);
            assert(out@ =~= old(out)@ + spec_u64_to_le_bytes(v@.len() as u64) + enc_ids(
                v@.take(i + 1),
            ));
        }
        i = i + 1;
    }
    proof {
        assert(v@.take(n as int) =~= v@);
    }
}

fn write_post(out: &mut Vec<u8>, p: &Post)
    ensures
        final(out)@ == old(out)@ + enc_post(p@),
        str_fits(p@.caption),
{
    write_u128(out, p.id);
    write_u64(out, p.created_at);
    write_u64(out, p.updated_at);
    write_str(out, &p.caption);
    proof {
        assert(out@ =~= old(out)@ + enc_post(p@));
    }
}

#[verifier::loop_isolation(false)]
fn write_posts(out: &mut Vec<u8>, v: &Vec<Post>)
    ensures
        final(out)@ == old(out)@ + spec_u64_to_le_bytes(v@.len() as u64) + enc_posts(v.deep_view()),
        posts_fit(v.deep_view()),
{
    let ghost dv = v.deep_view();
    let n = v.len();
    write_u64(out, n as u64);
    proof {
        assert(dv.take(0) =~= Seq::<PostV>::empty());
        assert(enc_posts(Seq::<PostV>::empty()) == Seq::<u8>::empty());
        assert(out@ =~= old(out)@ + spec_u64_to_le_bytes(dv.len() as u64) + enc_posts(dv.take(0)));
    }
    let mut i: usize = 0;
    while i < n
        invariant
            n == v@.len(),
            dv == v.deep_view(),
            dv.len() == n,
            i <= n,
            out@ == old(out)@ + spec_u64_to_le_bytes(dv.len() as u64) + enc_posts(dv.take(i as int)),
            forall|k: int| 0 <= k < i ==> str_fits((#[trigger] dv[k]).caption),
        decreases n - i,
    {
        write_post(out, &v[i]);
        proof {
            assert(dv[i as int] == v@[i as int]@);
            lemma_enc_posts_take_step(dv, i as int);
            assert(out@ =~= old(out)@ + spec_u64_to_le_bytes(dv.len() as u64) + enc_posts(
                dv.take(i + 1),
            ));
        }
        i = i + 1;
    }
    proof {
        assert(dv.take(n as int) =~= dv);
    }
}

fn write_user(out: &mut Vec<u8>, u: &User)
    ensures
        final(out)@ == old(out)@ + enc_user(u@),
        user_fits(u@),
{
    write_u128(out, u.id);
    write_u64(out, u.created_at);
    write_u64(out, u.updated_at);
    write_str(out, &u.username);
    write_str(out, &u.email);
    write_u128(out, u.hashed_password);
    write_ids(out, &u.post_ids);
    proof {
        assert(out@ =~= old(out)@ + enc_user(u@));
    }
}

#[verifier::loop_isolation(false)]
fn write_users(out: &mut Vec<u8>, v: &Vec<User>)
    ensures
        final(out)@ == old(out)@ + spec_u64_to_le_bytes(v@.len() as u64) + enc_users(v.deep_view()),
        users_fit(v.deep_view()),
{
    let ghost dv = v.deep_view();
    let n = v.len();
    write_u64(out, n as u64);
    proof {
        assert(dv.take(0) =~= Seq::<UserV>::empty());
        assert(enc_users(Seq::<UserV>::empty()) == Seq::<u8>::empty());
        assert(out@ =~= old(out)@ + spec_u64_to_le_bytes(dv.len() as u64) + enc_users(dv.take(0)));
    }
    let mut i: usize = 0;
    while i < n
        invariant
            n == v@.len(),
            dv == v.deep_view(),
            dv.len() == n,
            i <= n,
            out@ == old(out)@ + spec_u64_to_le_bytes(dv.len() as u64) + enc_users(dv.take(i as int)),
            forall|k: int| 0 <= k < i ==> user_fits(#[trigger] dv[k]),
        decreases n - i,
    {
        write_user(out, &v[i]);
        proof {
            assert(dv[i as int] == v@[i as int]@);
            lemma_enc_users_take_step(dv, i as int);
            assert(out@ =~= old(out)@ + spec_u64_to_le_bytes(dv.len() as u64) + enc_users(
                dv.take(i + 1),
            ));
        }
        i = i + 1;
    }
    proof {
        assert(dv.take(n as int) =~= dv);
    }
}

// ---------------------------------------------------------------
// Reading.
// ---------------------------------------------------------------
#[verifier::loop_isolation(false)]
fn read_exact(b: &Vec<u8>, i: usize, n: usize) -> (r: Option<Vec<u8>>)
    ensures
        r is Some <==> i + n <= b@.len(),
        r is Some ==> i + n <= usize::MAX,
        r matches Some(v) ==> v@ == b@.subrange(i as int, i as int + n as int),
{
    let blen = b.len();
    if i > blen || blen - i < n {
        return None;
    }
    let mut v: Vec<u8> = Vec::new();
    let mut k: usize = 0;
    while k < n
        invariant
            i + n <= b@.len(),
            k <= n,
            v@.len() == k,
            forall|t: int| 0 <= t < k ==> v@[t] == b@[i + t],
        decreases n - k,
    {
        v.push(b[i + k]);
        k = k + 1;
    }
    proof {
        assert(v@ =~= b@.subrange(i as int, i as int + n as int));
    }
    Some(v)
}

fn read_u32(b: &Vec<u8>, i: usize) -> (r: Option<(u32, usize)>)
    ensures
        r is Some <==> dec_u32(b@, i as int) is Some,
        r matches Some(p) ==> dec_u32(b@, i as int) == Some((p.0, p.1 as int)) && p.1 <= b@.len(),
{
    match read_exact(b, i, 4) {
        Some(v) => {
            let x = u32_from_le_bytes(v.as_slice());
            Some((x, i + 4))
        },
        None => None,
    }
}

fn read_u64(b: &Vec<u8>, i: usize) -> (r: Option<(u64, usize)>)
    ensures
        r is Some <==> dec_u64(b@, i as int) is Some,
        r matches Some(p) ==> dec_u64(b@, i as int) == Some((p.0, p.1 as int)) && p.1 <= b@.len(),
{
    match read_exact(b, i, 8) {
        Some(v) => {
            let x = u64_from_le_bytes(v.as_slice());
            Some((x, i + 8))
        },
        None => None,
    }
}

fn read_u128(b: &Vec<u8>, i: usize) -> (r: Option<(u128, usize)>)
    ensures
        r is Some <==> dec_u128(b@, i as int) is Some,
        r matches Some(p) ==> dec_u128(b@, i as int) == Some((p.0, p.1 as int)) && p.1 <= b@.len(),
{
    match read_exact(b, i, 16) {
        Some(v) => {
            let x = u128_from_le_bytes(v.as_slice());
            Some((x, i + 16))
        },
        None => None,
    }
}

fn read_char(b: &Vec<u8>, i: usize) -> (r: Option<(char, usize)>)
    ensures
        r is Some <==> dec_char(b@, i as int) is Some,
        r matches Some(p) ==> dec_char(b@, i as int) == Some((p.0, p.1 as int)) && p.1 <= b@.len(),
{
    match read_u32(b, i) {
        Some((u, j)) => {
            if u < 0xD800 || (u >= 0xE000 && u <= 0x10FFFF) {
                proof {
                    assert(is_scalar(u));
                }
                match char_from_u32(u) {
                    Some(c) => {
                        proof {
                            char_u32_cast(c, u);
                        }
                        Some((c, j))
                    },
                    None => {
                        proof {
                            assert(false);
                        }
                        None
                    },
                }
            } else {
                proof {
                    assert(!is_scalar(u));
                }
                None
            }
        },
        None => None,
    }
}

#[verifier::loop_isolation(false)]
fn read_chars(b: &Vec<u8>, i: usize, n: u64) -> (r: Option<(String, usize)>)
    ensures
        r is Some <==> dec_chars(b@, i as int, n as nat) is Some,
        r matches Some(p) ==> dec_chars(b@, i as int, n as nat) == Some((p.0@, p.1 as int)),
{
    let mut acc = String::new();
    let mut pos: usize = i;
    let mut k: u64 = 0;
    while k < n
        invariant
            k <= n,
            (match dec_chars(b@, pos as int, (n - k) as nat) {
                Some((cs, e)) => dec_chars(b@, i as int, n as nat) == Some((acc@ + cs, e)),
                None => dec_chars(b@, i as int, n as nat) is None,
            }),
        decreases n - k,
    {
        match read_char(b, pos) {
            None => {
                return None;
            },
            Some((c, np)) => {
                let ghost pre = acc@;
                push_char(&mut acc, c);
                proof {
                    assert(acc@ =~= pre + seq![c]);
                    if let Some((cs2, e)) = dec_chars(b@, np as int, (n - k - 1) as nat) {
                        assert(dec_chars(b@, pos as int, (n - k) as nat) == Some(
                            (seq![c] + cs2, e),
                        ));
                        assert((pre + seq![c]) + cs2 =~= pre + (seq![c] + cs2));
                    }
                }
                pos = np;
                k = k + 1;
            },
        }
    }
    proof {
        assert(dec_chars(b@, pos as int, 0) == Some((Seq::<char>::empty(), pos as int)));
        assert(acc@ + Seq::<char>::empty() =~= acc@);
    }
    Some((acc, pos))
}

fn read_str(b: &Vec<u8>, i: usize) -> (r: Option<(String, usize)>)
    ensures
        r is Some <==> dec_str(b@, i as int) is Some,
        r matches Some(p) ==> dec_str(b@, i as int) == Some((p.0@, p.1 as int)),
{
    match read_u64(b, i) {
        Some((n, j)) => read_chars(b, j, n),
        None => None,
    }
}

#[verifier::loop_isolation(false)]
fn read_ids(b: &Vec<u8>, i: usize, n: u64) -> (r: Option<(Vec<u128>, usize)>)
    ensures
        r is Some <==> dec_ids(b@, i as int, n as nat) is Some,
        r matches Some(p) ==> dec_ids(b@, i as int, n as nat) == Some((p.0@, p.1 as int)),
{
    let mut acc: Vec<u128> = Vec::new();
    let mut pos: usize = i;
    let mut k: u64 = 0;
    while k < n
        invariant
            k <= n,
            (match dec_ids(b@, pos as int, (n - k) as nat) {
                Some((xs, e)) => dec_ids(b@, i as int, n as nat) == Some((acc@ + xs, e)),
                None => dec_ids(b@, i as int, n as nat) is None,
            }),
        decreases n - k,
    {
        match read_u128(b, pos) {
            None => {
                return None;
            },
            Some((x, np)) => {
                let ghost pre = acc@;
                acc.push(x);
                proof {
                    assert(acc@ =~= pre + seq![x]);
                    if let Some((xs2, e)) = dec_ids(b@, np as int, (n - k - 1) as nat) {
                        assert(dec_ids(b@, pos as int, (n - k) as nat) == Some((seq![x] + xs2, e)));
                        assert((pre + seq![x]) + xs2 =~= pre + (seq![x] + xs2));
                    }
                }
                pos = np;
                k = k + 1;
            },
        }
    }
    proof {
        assert(dec_ids(b@, pos as int, 0) == Some((Seq::<u128>::empty(), pos as int)));
        assert(acc@ + Seq::<u128>::empty() =~= acc@);
    }
    Some((acc, pos))
}

fn read_post(b: &Vec<u8>, i: usize) -> (r: Option<(Post, usize)>)
    ensures
        r is Some <==> dec_post(b@, i as int) is Some,
        r matches Some(p) ==> dec_post(b@, i as int) == Some((p.0@, p.1 as int)),
{
    let x1 = read_u128(b, i);
    if x1.is_none() {
        return None;
    }
    let (id, j1) = x1.unwrap();
    let x2 = read_u64(b, j1);
    if x2.is_none() {
        return None;
    }
    let (created_at, j2) = x2.unwrap();
    let x3 = read_u64(b, j2);
    if x3.is_none() {
        return None;
    }
    let (updated_at, j3) = x3.unwrap();
    let x4 = read_str(b, j3);
    if x4.is_none() {
        return None;
    }
    let (caption, j4) = x4.unwrap();
    Some((Post { id, created_at, updated_at, caption }, j4))
}

#[verifier::loop_isolation(false)]
fn read_posts(b: &Vec<u8>, i: usize, n: u64) -> (r: Option<(Vec<Post>, usize)>)
    ensures
        r is Some <==> dec_posts(b@, i as int, n as nat) is Some,
        r matches Some(p) ==> dec_posts(b@, i as int, n as nat) == Some(
            (p.0.deep_view(), p.1 as int),
        ),
{
    let mut acc: Vec<Post> = Vec::new();
    let mut pos: usize = i;
    let mut k: u64 = 0;
    while k < n
        invariant
            k <= n,
            (match dec_posts(b@, pos as int, (n - k) as nat) {
                Some((ds, e)) => dec_posts(b@, i as int, n as nat) == Some(
                    (acc.deep_view() + ds, e),
                ),
                None => dec_posts(b@, i as int, n as nat) is None,
            }),
        decreases n - k,
    {
        match read_post(b, pos) {
            None => {
                return None;
            },
            Some((d, np)) => {
                let ghost pre = acc.deep_view();
                let ghost dv = d@;
                acc.push(d);
                proof {
                    assert(acc.deep_view() =~= pre + seq![dv]);
                    if let Some((ds2, e)) = dec_posts(b@, np as int, (n - k - 1) as nat) {
                        assert(dec_posts(b@, pos as int, (n - k) as nat) == Some(
                            (seq![dv] + ds2, e),
                        ));
                        assert((pre + seq![dv]) + ds2 =~= pre + (seq![dv] + ds2));
                    }
                }
                pos = np;
                k = k + 1;
            },
        }
    }
    proof {
        assert(dec_posts(b@, pos as int, 0) == Some((Seq::<PostV>::empty(), pos as int)));
        assert(acc.deep_view() + Seq::<PostV>::empty() =~= acc.deep_view());
    }
    Some((acc, pos))
}

fn read_user(b: &Vec<u8>, i: usize) -> (r: Option<(User, usize)>)
    ensures
        r is Some <==> dec_user(b@, i as int) is Some,
        r matches Some(p) ==> dec_user(b@, i as int) == Some((p.0@, p.1 as int)),
{
    let x1 = read_u128(b, i);
    if x1.is_none() {
        return None;
    }
    let (id, j1) = x1.unwrap();
    let x2 = read_u64(b, j1);
    if x2.is_none() {
        return None;
    }
    let (created_at, j2) = x2.unwrap();
    let x3 = read_u64(b, j2);
    if x3.is_none() {
        return None;
    }
    let (updated_at, j3) = x3.unwrap();
    let x4 = read_str(b, j3);
    if x4.is_none() {
        return None;
    }
    let (username, j4) = x4.unwrap();
    let x5 = read_str(b, j4);
    if x5.is_none() {
        return None;
    }
    let (email, j5) = x5.unwrap();
    let x6 = read_u128(b, j5);
    if x6.is_none() {
        return None;
    }
    let (hashed_password, j6) = x6.unwrap();
    let x7 = read_u64(b, j6);
    if x7.is_none() {
        return None;
    }
    let (n, j7) = x7.unwrap();
    let x8 = read_ids(b, j7, n);
    if x8.is_none() {
        return None;
    }
    let (post_ids, j8) = x8.unwrap();
    let u = User {
        id,
        created_at,
        updated_at,
        username,
        email,
        hashed_password,
        posts: Vec::new(),
        post_ids,
    };
    proof {
        assert(u.posts.deep_view() =~= Seq::<Option<PostV>>::empty());
    }
    Some((u, j8))
}

#[verifier::loop_isolation(false)]
fn read_users(b: &Vec<u8>, i: usize, n: u64) -> (r: Option<(Vec<User>, usize)>)
    ensures
        r is Some <==> dec_users(b@, i as int, n as nat) is Some,
        r matches Some(p) ==> dec_users(b@, i as int, n as nat) == Some(
            (p.0.deep_view(), p.1 as int),
        ),
{
    let mut acc: Vec<User> = Vec::new();
    let mut pos: usize = i;
    let mut k: u64 = 0;
    while k < n
        invariant
            k <= n,
            (match dec_users(b@, pos as int, (n - k) as nat) {
                Some((ds, e)) => dec_users(b@, i as int, n as nat) == Some(
                    (acc.deep_view() + ds, e),
                ),
                None => dec_users(b@, i as int, n as nat) is None,
            }),
        decreases n - k,
    {
        match read_user(b, pos) {
            None => {
                return None;
            },
            Some((d, np)) => {
                let ghost pre = acc.deep_view();
                let ghost dv = d@;
                acc.push(d);
                proof {
                    assert(acc.deep_view() =~= pre + seq![dv]);
                    if let Some((ds2, e)) = dec_users(b@, np as int, (n - k - 1) as nat) {
                        assert(dec_users(b@, pos as int, (n - k) as nat) == Some(
                            (seq![dv] + ds2, e),
                        ));
                        assert((pre + seq![dv]) + ds2 =~= pre + (seq![dv] + ds2));
                    }
                }
                pos = np;
                k = k + 1;
            },
        }
    }
    proof {
        assert(dec_users(b@, pos as int, 0) == Some((Seq::<UserV>::empty(), pos as int)));
        assert(acc.deep_view() + Seq::<UserV>::empty() =~= acc.deep_view());
    }
    Some((acc, pos))
}

// ---------------------------------------------------------------
// Saving and loading whole collections.
// ---------------------------------------------------------------
impl Posts {
    /// Serializes the collection into one blob. When the dirty flag
    /// is set the blob holds the compacted live slots and the flag is
    /// cleared; otherwise it holds every slot verbatim. Either way
    /// the blob decodes back to what was written.
    pub fn save_bytes(&mut self) -> (r: Vec<u8>)
        requires
            old(self).wf(),
        ensures
            r@ == spec_save_posts(old(self).docs(), old(self).changed),
            final(self).docs() == old(self).docs(),
            final(self).wf(),
            !final(self).changed,
            old(self).changed ==> spec_load_posts(r@) == Some(live_docs(old(self).docs())),
            !old(self).changed ==> spec_load_posts(r@) == Some(old(self).docs()),
    {
        let mut out: Vec<u8> = Vec::new();
        out.push(0x61);
        out.push(0x77);
        out.push(0x01);
        out.push(0x01);
        proof {
            assert(out@ =~= header(1));
        }
        if self.changed {
            let snap = self.filter();
            write_posts(&mut out, &snap.data);
            self.changed = false;
            proof {
                assert(out@ =~= posts_blob(live_docs(old(self).docs())));
                lemma_posts_blob_round(live_docs(old(self).docs()));
            }
        } else {
            write_posts(&mut out, &self.data);
            proof {
                assert(out@ =~= posts_blob(old(self).docs()));
                lemma_posts_blob_round(old(self).docs());
            }
        }
        out
    }

    /// Decodes a blob. `Ok` exactly when the blob parses whole and
    /// its live identifiers are unique; the loaded collection starts
    /// with a clear dirty flag. Anything else is a `Decode` error.
    #[verifier::loop_isolation(false)]
    pub fn load_bytes(b: &Vec<u8>) -> (r: Result<Posts, CollectionError>)
        ensures
            r matches Ok(st) ==> spec_load_posts(b@) == Some(st.docs()) && st.wf() && !st.changed,
            r is Err ==> r == Err::<Posts, CollectionError>(CollectionError::Decode),
            (r is Ok) <==> (spec_load_posts(b@) matches Some(ds) && wf_ids(ds)),
    {
        if b.len() < 4 {
            return Err(CollectionError::Decode);
        }
        if b[0] != 0x61 || b[1] != 0x77 || b[2] != 0x01 || b[3] != 0x01 {
            proof {
                assert(b@.subrange(0, 4)[0] == b@[0]);
                assert(b@.subrange(0, 4)[1] == b@[1]);
                assert(b@.subrange(0, 4)[2] == b@[2]);
                assert(b@.subrange(0, 4)[3] == b@[3]);
                assert(b@.subrange(0, 4) != header(1));
            }
            return Err(CollectionError::Decode);
        }
        proof {
            assert(b@.subrange(0, 4) =~= header(1));
        }
        let x = read_u64(b, 4);
        if x.is_none() {
            return Err(CollectionError::Decode);
        }
        let (n, j) = x.unwrap();
        let y = read_posts(b, j, n);
        if y.is_none() {
            return Err(CollectionError::Decode);
        }
        let (data, end) = y.unwrap();
        if end != b.len() {
            return Err(CollectionError::Decode);
        }
        let ghost ds = data.deep_view();
        let m = data.len();
        let mut p: usize = 0;
        while p < m
            invariant
                m == data@.len(),
                ds == data.deep_view(),
                ds.len() == m,
                p <= m,
                forall|x_: int, y_: int|
                    #![trigger ds[x_].vid(), ds[y_].vid()]
                    0 <= x_ < p && 0 <= y_ < m && x_ != y_ && ds[x_].vid() != 0 ==> ds[y_].vid()
                        != ds[x_].vid(),
            decreases m - p,
        {
            if data[p].id != 0 {
                let mut q: usize = 0;
                while q < m
                    invariant
                        q <= m,
                        p < m,
                        forall|y_: int|
                            0 <= y_ < q && y_ != p ==> (#[trigger] ds[y_]).vid() != ds[p as int].vid(),
                    decreases m - q,
                {
                    if q != p && data[q].id == data[p].id {
                        proof {
                            assert(ds[q as int].vid() == ds[p as int].vid());
                            assert(!wf_ids(ds));
                        }
                        return Err(CollectionError::Decode);
                    }
                    q = q + 1;
                }
            }
            p = p + 1;
        }
        proof {
            assert(wf_ids(ds));
        }
        Ok(Posts { data, changed: false })
    }
}

impl Users {
    /// Serializes the collection into one blob. When the dirty flag
    /// is set the blob holds the compacted live slots and the flag is
    /// cleared; otherwise it holds every slot verbatim. Relation
    /// caches are not written.
    pub fn save_bytes(&mut self) -> (r: Vec<u8>)
        requires
            old(self).wf(),
        ensures
            r@ == spec_save_users(old(self).docs(), old(self).changed),
            final(self).docs() == old(self).docs(),
            final(self).wf(),
            !final(self).changed,
            old(self).changed ==> spec_load_users(r@) == Some(stripped(live_docs(old(self).docs()))),
            !old(self).changed ==> spec_load_users(r@) == Some(stripped(old(self).docs())),
    {
        let mut out: Vec<u8> = Vec::new();
        out.push(0x61);
        out.push(0x77);
        out.push(0x01);
        out.push(0x02);
        proof {
            assert(out@ =~= header(2));
        }
        if self.changed {
            let snap = self.filter();
            write_users(&mut out, &snap.data);
            self.changed = false;
            proof {
                assert(out@ =~= users_blob(live_docs(old(self).docs())));
                lemma_users_blob_round(live_docs(old(self).docs()));
            }
        } else {
            write_users(&mut out, &self.data);
            proof {
                assert(out@ =~= users_blob(old(self).docs()));
                lemma_users_blob_round(old(self).docs());
            }
        }
        out
    }

    /// Decodes a blob. `Ok` exactly when the blob parses whole and
    /// its live identifiers are unique; the loaded collection starts
    /// with a clear dirty flag and empty relation caches. Anything
    /// else is a `Decode` error.
    #[verifier::loop_isolation(false)]
    pub fn load_bytes(b: &Vec<u8>) -> (r: Result<Users, CollectionError>)
        ensures
            r matches Ok(st) ==> spec_load_users(b@) == Some(st.docs()) && st.wf() && !st.changed,
            r is Err ==> r == Err::<Users, CollectionError>(CollectionError::Decode),
            (r is Ok) <==> (spec_load_users(b@) matches Some(ds) && wf_ids(ds)),
    {
        if b.len() < 4 {
            return Err(CollectionError::Decode);
        }
        if b[0] != 0x61 || b[1] != 0x77 || b[2] != 0x01 || b[3] != 0x02 {
            proof {
                assert(b@.subrange(0, 4)[0] == b@[0]);
                assert(b@.subrange(0, 4)[1] == b@[1]);
                assert(b@.subrange(0, 4)[2] == b@[2]);
                assert(b@.subrange(0, 4)[3] == b@[3]);
                assert(b@.subrange(0, 4) != header(2));
            }
            return Err(CollectionError::Decode);
        }
        proof {
            assert(b@.subrange(0, 4) =~= header(2));
        }
        let x = read_u64(b, 4);
        if x.is_none() {
            return Err(CollectionError::Decode);
        }
        let (n, j) = x.unwrap();
        let y = read_users(b, j, n);
        if y.is_none() {
            return Err(CollectionError::Decode);
        }
        let (data, end) = y.unwrap();
        if end != b.len() {
            return Err(CollectionError::Decode);
        }
        let ghost ds = data.deep_view();
        let m = data.len();
        let mut p: usize = 0;
        while p < m
            invariant
                m == data@.len(),
                ds == data.deep_view(),
                ds.len() == m,
                p <= m,
                forall|x_: int, y_: int|
                    #![trigger ds[x_].vid(), ds[y_].vid()]
                    0 <= x_ < p && 0 <= y_ < m && x_ != y_ && ds[x_].vid() != 0 ==> ds[y_].vid()
                        != ds[x_].vid(),
            decreases m - p,
        {
            if data[p].id != 0 {
                let mut q: usize = 0;
                while q < m
                    invariant
                        q <= m,
                        p < m,
                        forall|y_: int|
                            0 <= y_ < q && y_ != p ==> (#[trigger] ds[y_]).vid() != ds[p as int].vid(),
                    decreases m - q,
                {
                    if q != p && data[q].id == data[p].id {
                        proof {
                            assert(ds[q as int].vid() == ds[p as int].vid());
                            assert(!wf_ids(ds));
                        }
                        return Err(CollectionError::Decode);
                    }
                    q = q + 1;
                }
            }
            p = p + 1;
        }
        proof {
            assert(wf_ids(ds));
        }
        Ok(Users { data, changed: false })
    }
}

// ---------------------------------------------------------------
// The round-trip laws.
// ---------------------------------------------------------------
/// Saving then loading a posts collection reproduces its live
/// document set exactly. A compacting save (dirty flag set) loads
/// back with no tombstoned slot left; a verbatim save (flag clear)
/// loads back every slot, tombstones included, unchanged.
pub proof fn lemma_posts_save_load(docs: Seq<PostV>, changed: bool)
    requires
        wf_ids(docs),
        posts_fit(docs),
    ensures
        changed ==> spec_load_posts(spec_save_posts(docs, changed)) == Some(live_docs(docs)),
        !changed ==> spec_load_posts(spec_save_posts(docs, changed)) == Some(docs),
        spec_load_posts(spec_save_posts(docs, changed)) matches Some(ds) ==> live_docs(ds)
            == live_docs(docs) && wf_ids(ds),
        changed ==> forall|k: int|
            0 <= k < live_docs(docs).len() ==> (#[trigger] live_docs(docs)[k]).vid() != 0,
{
    lemma_live_docs_wf(docs);
    assert(posts_fit(live_docs(docs))) by {
        docs.lemma_filter_len(|d: PostV| d.vid() != 0);
        assert forall|k: int| 0 <= k < live_docs(docs).len() implies str_fits(
            (#[trigger] live_docs(docs)[k]).caption,
        ) by {
            let q = choose|q: int| 0 <= q < docs.len() && #[trigger] docs[q] == live_docs(docs)[k];
            assert(str_fits(docs[q].caption));
        }
    }
    if changed {
        lemma_posts_blob_round(live_docs(docs));
        lemma_live_docs_idem(live_docs(docs));
    } else {
        lemma_posts_blob_round(docs);
    }
}

/// Saving then loading a users collection reproduces its slots with
/// their identifiers, timestamps, fields and relation identifier
/// lists; only the derived caches come back empty. A compacting save
/// keeps exactly the live slots, a verbatim save every slot.
pub proof fn lemma_users_save_load(docs: Seq<UserV>, changed: bool)
    requires
        wf_ids(docs),
        users_fit(docs),
    ensures
        changed ==> spec_load_users(spec_save_users(docs, changed)) == Some(
            stripped(live_docs(docs)),
        ),
        !changed ==> spec_load_users(spec_save_users(docs, changed)) == Some(stripped(docs)),
        spec_load_users(spec_save_users(docs, changed)) matches Some(ds) ==> wf_ids(ds)
            && live_docs(ds) == stripped(live_docs(docs)),
        changed ==> forall|k: int|
            0 <= k < live_docs(docs).len() ==> (#[trigger] live_docs(docs)[k]).vid() != 0,
{
    lemma_live_docs_wf(docs);
    lemma_stripped_live_commute(docs);
    assert(users_fit(live_docs(docs))) by {
        docs.lemma_filter_len(|d: UserV| d.vid() != 0);
        assert forall|k: int| 0 <= k < live_docs(docs).len() implies user_fits(
            #[trigger] live_docs(docs)[k],
        ) by {
            let q = choose|q: int| 0 <= q < docs.len() && #[trigger] docs[q] == live_docs(docs)[k];
            assert(user_fits(docs[q]));
        }
    }
    if changed {
        lemma_users_blob_round(live_docs(docs));
        lemma_stripped_wf(live_docs(docs));
        let ds = stripped(live_docs(docs));
        assert(live_docs(ds) == ds) by {
            assert forall|k: int| 0 <= k < ds.len() implies (#[trigger] ds[k]).vid() != 0 by {
                assert(ds[k].vid() == live_docs(docs)[k].vid());
            }
            lemma_live_docs_idem(ds);
        }
    } else {
        lemma_users_blob_round(docs);
        lemma_stripped_wf(docs);
    }
}

/// Emptying the caches and dropping the tombstones commute.
proof fn lemma_stripped_live_commute(s: Seq<UserV>)
    ensures
        live_docs(stripped(s)) == stripped(live_docs(s)),
    decreases s.len(),
{
    reveal(Seq::filter);
    if s.len() == 0 {
        assert(stripped(s) =~= Seq::<UserV>::empty());
        assert(stripped(live_docs(s)) =~= Seq::<UserV>::empty());
    } else {
        let s0 = s.drop_last();
        lemma_stripped_live_commute(s0);
        let t = stripped(s);
        assert(t.drop_last() =~= stripped(s0));
        assert(t.last() == stripped_user(s.last()));
        assert(t.last().vid() == s.last().vid());
        if s.last().vid() != 0 {
            assert(live_docs(s) == live_docs(s0).push(s.last()));
            assert(live_docs(t) == live_docs(stripped(s0)).push(t.last()));
            assert(stripped(live_docs(s0).push(s.last())) =~= stripped(live_docs(s0)).push(
                stripped_user(s.last()),
            ));
        } else {
            assert(live_docs(t) == live_docs(stripped(s0)));
            assert(live_docs(s) == live_docs(s0));
        }
    }
}

/// Emptying the caches changes no identifier, so uniqueness of live
/// identifiers carries over.
proof fn lemma_stripped_wf(s: Seq<UserV>)
    requires
        wf_ids(s),
    ensures
        wf_ids(stripped(s)),
{
    let t = stripped(s);
    assert forall|i: int, j: int|
        0 <= i < t.len() && 0 <= j < t.len() && i != j && #[trigger] t[i].vid()
            != 0 implies #[trigger] t[j].vid() != t[i].vid() by {
        assert(t[i].vid() == s[i].vid());
        assert(t[j].vid() == s[j].vid());
    }
}

} // verus!
