use vstd::prelude::*;

use crate::bytes::{
    all_digits, decimal_spec, decimal_value, digits_value, flush, is_digit, is_ws, lemma_span_is, span, split_ws, split_ws_from,
};
use crate::codec::zlib_inflated;
use crate::object::{
    decode_object, field_at, kind_token, line_end, parents_from, parse_commit,
    parse_entries_from, parse_object, parse_tree, BodyView, CommitField, EntryView, Malformed,
    ObjectError, ObjectType, ObjectView,
};

verus! {

// ---------------------------------------------------------------- encodings

/// The tree micro-format of one entry: `<mode> <name>\0<raw identifier>`.
pub open spec fn encode_entry(e: EntryView) -> Seq<u8> {
    e.mode + seq![32u8] + e.filename + seq![0u8] + e.hash
}

/// Entries written one after the other, with no separator between them.
pub open spec fn encode_tree(es: Seq<EntryView>) -> Seq<u8>
    decreases es.len(),
{
    if es.len() == 0 {
        seq![]
    } else {
        encode_entry(es[0]) + encode_tree(es.drop_first())
    }
}

/// An entry the format can carry: a mode without space or NUL, a name
/// without NUL, and an identifier of `w` bytes (which may hold any value).
pub open spec fn encodable(e: EntryView, w: nat) -> bool {
    &&& e.hash.len() == w
    &&& forall|k: int| 0 <= k < e.mode.len() ==> e.mode[k] != 32 && e.mode[k] != 0
    &&& forall|k: int| 0 <= k < e.filename.len() ==> e.filename[k] != 0
}

/// The inflated form of an object: `<kind> <size>\0<body>`.
pub open spec fn encode_object(kind: ObjectType, size: nat, body: Seq<u8>) -> Seq<u8> {
    kind_token(kind) + seq![32u8] + decimal_spec(size) + seq![0u8] + body
}

// ---------------------------------------------------------------- tree round trip

proof fn lemma_parse_encoded_from(b: Seq<u8>, i: int, es: Seq<EntryView>, w: nat)
    requires
        0 <= i <= b.len(),
        b.subrange(i, b.len() as int) == encode_tree(es),
        forall|k: int| 0 <= k < es.len() ==> encodable(#[trigger] es[k], w),
    ensures
        parse_entries_from(b, w, i) == Ok::<Seq<EntryView>, Malformed>(es),
    decreases es.len(),
{
    if es.len() == 0 {
        assert(b.subrange(i, b.len() as int).len() == 0);
        assert(es =~= Seq::<EntryView>::empty());
    } else {
        let e = es[0];
        assert(encodable(es[0], w));
        let tail = es.drop_first();
        let enc = encode_entry(e);
        let m = e.mode.len() as int;
        let f = e.filename.len() as int;
        let z = i + m + 1 + f;
        let n = b.len() as int;
        assert(encode_tree(es) == enc + encode_tree(tail));
        assert forall|k: int| 0 <= k < enc.len() implies b[i + k] == enc[k] by {
            assert(b.subrange(i, n)[k] == (enc + encode_tree(tail))[k]);
        }
        assert forall|k: int| 0 <= k < m implies b[i + k] == e.mode[k] by {
            assert(enc[k] == e.mode[k]);
        }
        assert(b[i + m] == 32u8) by {
            assert(enc[m] == 32u8);
        }
        assert forall|k: int| 0 <= k < f implies b[i + m + 1 + k] == e.filename[k] by {
            assert(enc[m + 1 + k] == e.filename[k]);
        }
        assert(b[z] == 0u8) by {
            assert(enc[m + 1 + f] == 0u8);
        }
        assert forall|k: int| 0 <= k < w implies b[z + 1 + k] == e.hash[k] by {
            assert(enc[m + 2 + f + k] == e.hash[k]);
        }
        assert forall|j: int| i <= j < i + (z - i) implies b[j] != 0u8 by {
            if j < i + m {
                assert(b[j] == e.mode[j - i]);
            } else if j == i + m {
            } else {
                assert(b[j] == e.filename[j - i - m - 1]);
            }
        }
        lemma_span_is(b, 0, i, n, (z - i) as nat);
        assert forall|j: int| i <= j < i + m implies b[j] != 32u8 by {
            assert(b[j] == e.mode[j - i]);
        }
        lemma_span_is(b, 32, i, z, m as nat);
        let next = z + 1 + w;
        assert(b.subrange(next, n) =~= encode_tree(tail)) by {
            assert forall|k: int| 0 <= k < n - next implies b.subrange(next, n)[k] == encode_tree(tail)[k] by {
                assert(b.subrange(i, n)[next - i + k] == (enc + encode_tree(tail))[next - i + k]);
            }
        }
        assert forall|k: int| 0 <= k < tail.len() implies encodable(#[trigger] tail[k], w) by {
            assert(encodable(es[k + 1], w));
        }
        lemma_parse_encoded_from(b, next, tail, w);
        assert(b.subrange(i, n).len() == enc.len() + encode_tree(tail).len());
        assert(next <= n);
        assert(span(b, 0, i, n) == z - i);
        assert(i + span(b, 32, i, z) == i + m);
        assert(i < n);
        assert(b.subrange(i, i + m) =~= e.mode);
        assert(b.subrange(i + m + 1, z) =~= e.filename);
        assert(b.subrange(z + 1, next) =~= e.hash);
        assert(seq![e] + tail =~= es);
        let e2 = EntryView {
            mode: b.subrange(i, i + m),
            filename: b.subrange(i + m + 1, z),
            hash: b.subrange(z + 1, next),
        };
        assert(e2 == e);
    }
}

/// Tree entries written in the micro-format read back as the same entries, in
/// the same order, whatever bytes (NUL included) their identifiers hold.
pub proof fn lemma_tree_round_trip(es: Seq<EntryView>, w: nat)
    requires
        forall|k: int| 0 <= k < es.len() ==> encodable(#[trigger] es[k], w),
    ensures
        parse_tree(encode_tree(es), w) == Ok::<Seq<EntryView>, Malformed>(es),
{
    let b = encode_tree(es);
    assert(b.subrange(0, b.len() as int) =~= b);
    lemma_parse_encoded_from(b, 0, es, w);
}

// ---------------------------------------------------------------- headers

proof fn lemma_decimal_digits(n: nat)
    ensures
        decimal_spec(n).len() > 0,
        all_digits(decimal_spec(n)),
        digits_value(decimal_spec(n)) == n,
    decreases n,
{
    if n < 10 {
        let d = decimal_spec(n);
        assert(d.drop_last() =~= Seq::<u8>::empty());
        assert(digits_value(d) == digits_value(d.drop_last()) * 10 + (d.last() - 48) as nat);
    } else {
        lemma_decimal_digits(n / 10);
        let d = decimal_spec(n);
        assert(d.drop_last() =~= decimal_spec(n / 10));
        assert(n == (n / 10) * 10 + n % 10) by (nonlinear_arith);
        assert(n % 10 < 10);
        assert(d.last() as int == 48 + n % 10);
        assert(digits_value(d) == digits_value(d.drop_last()) * 10 + (d.last() - 48) as nat);
        assert forall|j: int| 0 <= j < d.len() implies is_digit(d[j]) by {
            if j < d.len() - 1 {
                assert(d[j] == decimal_spec(n / 10)[j]);
            }
        }
    }
}

proof fn lemma_run(s: Seq<u8>, i: int, k: nat, cur: Seq<u8>, acc: Seq<Seq<u8>>)
    requires
        0 <= i,
        i + k <= s.len(),
        forall|j: int| i <= j < i + k ==> !is_ws(s[j]),
    ensures
        split_ws_from(s, i, cur, acc) == split_ws_from(s, i + k, cur + s.subrange(i, i + k), acc),
    decreases k,
{
    if k == 0 {
        assert(cur + s.subrange(i, i) =~= cur);
    } else {
        lemma_run(s, i + 1, (k - 1) as nat, cur.push(s[i]), acc);
        assert(cur.push(s[i]) + s.subrange(i + 1, i + k) =~= cur + s.subrange(i, i + k));
    }
}

proof fn lemma_kind_token(k: ObjectType)
    ensures
        kind_token(k).len() > 0,
        forall|j: int| 0 <= j < kind_token(k).len() ==> !is_ws(#[trigger] kind_token(k)[j]) && kind_token(k)[j] != 0,
{
}

/// What a well-formed header decodes to.
proof fn lemma_header(kind: ObjectType, size: nat, body: Seq<u8>)
    ensures
        ({
            let raw = encode_object(kind, size, body);
            let t = kind_token(kind);
            let d = decimal_spec(size);
            let z = (t.len() + 1 + d.len()) as int;
            &&& span(raw, 0, 0, raw.len() as int) == z
            &&& split_ws(raw.subrange(0, z)) == seq![t, d]
            &&& raw.subrange(z + 1, raw.len() as int) == body
            &&& decimal_value(d, 0xffff_ffffu64) == (if size <= 0xffff_ffff {
                Some(size as u64)
            } else {
                None::<u64>
            })
        }),
{
    let raw = encode_object(kind, size, body);
    let t = kind_token(kind);
    let d = decimal_spec(size);
    let tl = t.len() as int;
    let z = tl + 1 + d.len();
    lemma_kind_token(kind);
    lemma_decimal_digits(size);
    assert(raw == t + seq![32u8] + d + seq![0u8] + body);
    assert forall|j: int| 0 <= j < tl implies raw[j] == t[j] by {}
    assert(raw[tl] == 32u8);
    assert forall|j: int| 0 <= j < d.len() implies raw[tl + 1 + j] == d[j] by {}
    assert(raw[z] == 0u8);
    assert forall|j: int| 0 <= j < z implies raw[j] != 0u8 by {
        if j < tl {
        } else if j == tl {
        } else {
            assert(raw[j] == d[j - tl - 1]);
            assert(is_digit(d[j - tl - 1]));
        }
    }
    lemma_span_is(raw, 0, 0, raw.len() as int, z as nat);
    let h = raw.subrange(0, z);
    assert(h =~= t + seq![32u8] + d);
    assert forall|j: int| 0 <= j < tl implies !is_ws(h[j]) by {
        assert(h[j] == t[j]);
    }
    lemma_run(h, 0, tl as nat, seq![], seq![]);
    assert(Seq::<u8>::empty() + h.subrange(0, tl) =~= t);
    assert(is_ws(h[tl]));
    assert(flush(t, seq![]) == seq![t]);
    assert forall|j: int| tl + 1 <= j < tl + 1 + d.len() implies !is_ws(h[j]) by {
        assert(h[j] == d[j - tl - 1]);
        assert(is_digit(d[j - tl - 1]));
    }
    lemma_run(h, tl + 1, d.len(), seq![], seq![t]);
    assert(Seq::<u8>::empty() + h.subrange(tl + 1, z) =~= d);
    assert(split_ws_from(h, z, d, seq![t]) == flush(d, seq![t]));
    assert(seq![t].push(d) =~= seq![t, d]);
    assert(raw.subrange(z + 1, raw.len() as int) =~= body);
}

/// A blob of any bytes `b`, wrapped as `blob <len>\0<b>`, decodes to a blob
/// whose body is `b` exactly; the same holds of any stored form that inflates
/// to it.
pub proof fn lemma_blob_round_trip(hash: Seq<char>, b: Seq<u8>, w: nat, stored: Seq<u8>)
    requires
        b.len() <= 0xffff_ffff,
    ensures
        parse_object(hash, encode_object(ObjectType::Blob, b.len(), b), w) == Ok::<ObjectView, Malformed>(
            ObjectView {
                obj_type: ObjectType::Blob,
                hash,
                size: b.len() as u32,
                data: b,
                body: BodyView::Blob,
            },
        ),
        zlib_inflated(stored) == Some(encode_object(ObjectType::Blob, b.len(), b)) ==> decode_object(
            hash,
            stored,
            w,
        ) == Ok::<ObjectView, ObjectError>(
            ObjectView {
                obj_type: ObjectType::Blob,
                hash,
                size: b.len() as u32,
                data: b,
                body: BodyView::Blob,
            },
        ),
{
    lemma_header(ObjectType::Blob, b.len(), b);
}

/// An object whose declared size differs from the length of its body is
/// refused with `SizeMismatch`, whatever its kind.
pub proof fn lemma_size_mismatch(hash: Seq<char>, kind: ObjectType, size: nat, body: Seq<u8>, w: nat)
    requires
        size <= 0xffff_ffff,
        body.len() != size,
    ensures
        parse_object(hash, encode_object(kind, size, body), w) == Err::<ObjectView, Malformed>(
            Malformed::SizeMismatch,
        ),
{
    lemma_header(kind, size, body);
}

/// Without a NUL byte there is no header, and a header of fewer than two
/// tokens is refused: neither yields an object.
pub proof fn lemma_header_required(hash: Seq<char>, raw: Seq<u8>, w: nat)
    ensures
        (forall|j: int| 0 <= j < raw.len() ==> raw[j] != 0u8) ==> parse_object(hash, raw, w)
            == Err::<ObjectView, Malformed>(Malformed::MissingHeaderTerminator),
        ({
            let z = span(raw, 0, 0, raw.len() as int) as int;
            z < raw.len() && split_ws(raw.subrange(0, z)).len() < 2
        }) ==> parse_object(hash, raw, w) == Err::<ObjectView, Malformed>(Malformed::BadHeader),
{
    if forall|j: int| 0 <= j < raw.len() ==> raw[j] != 0u8 {
        lemma_span_is(raw, 0, 0, raw.len() as int, raw.len());
    }
}

/// A commit whose `tree` line is not followed by a `parent` line is refused
/// with the parent field named.
pub proof fn lemma_commit_needs_parent(b: Seq<u8>)
    requires
        field_at(b, 0, CommitField::Tree),
        !field_at(b, line_end(b, 0) + 1, CommitField::Parent),
    ensures
        parse_commit(b) == Err::<crate::object::MetaView, Malformed>(
            Malformed::BadCommitField(CommitField::Parent),
        ),
{
    assert(parents_from(b, line_end(b, 0) + 1).len() == 0);
}

} // verus!
