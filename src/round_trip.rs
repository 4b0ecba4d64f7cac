use vstd::prelude::*;

use crate::byte_order::{
    lemma_bytes_round_trip, lemma_pow256_values, pow256, signed_of, unsigned_of, ByteOrder,
};
use crate::decode::{
    count_of, decode, parse_array, parse_tag, parse_children, parse_elements, parse_ints, parse_payload, parse_text,
    read_uint, to_i32s, to_i64s, to_i8s,
};
use crate::encode::{
    array_bytes, ints_bytes, list_id, payload_bytes, payload_texts_ok,
    payloads_bytes, payloads_texts_ok, tag_bytes, tag_texts_ok, tags_bytes, tags_texts_ok,
    text_bytes, text_ok,
};
use crate::error::{Error, ParseErrorKind};
use crate::ints::ints_of;
use crate::tag::TagView;

verus! {

/// Every list in the payload holds unnamed elements of the kind of its first one.
pub open spec fn payload_lists_ok(t: TagView) -> bool
    decreases t, 1nat,
{
    match t {
        TagView::List(_, ts) => elements_lists_ok(ts, list_id(ts)),
        TagView::Compound(_, ts) => children_lists_ok(ts),
        _ => true,
    }
}

pub open spec fn elements_lists_ok(ts: Seq<TagView>, id: u8) -> bool
    decreases ts, 0nat,
{
    ts.len() > 0 ==> ts[0].name() is None && ts[0].id() == id && payload_lists_ok(ts[0])
        && elements_lists_ok(ts.drop_first(), id)
}

pub open spec fn children_lists_ok(ts: Seq<TagView>) -> bool
    decreases ts, 0nat,
{
    ts.len() > 0 ==> payload_lists_ok(ts[0]) && children_lists_ok(ts.drop_first())
}

/// No compound in the payload has two children of one name.
pub open spec fn payload_names_unique(t: TagView) -> bool
    decreases t, 1nat,
{
    match t {
        TagView::List(_, ts) => elements_names_unique(ts),
        TagView::Compound(_, ts) => children_names_unique(ts, seq![]),
        _ => true,
    }
}

pub open spec fn elements_names_unique(ts: Seq<TagView>) -> bool
    decreases ts, 0nat,
{
    ts.len() > 0 ==> payload_names_unique(ts[0]) && elements_names_unique(ts.drop_first())
}

/// The children `ts` have names apart from each other and from `seen`, and
/// each payload has unique names too.
pub open spec fn children_names_unique(ts: Seq<TagView>, seen: Seq<Seq<char>>) -> bool
    decreases ts, 0nat,
{
    ts.len() > 0 ==> !seen.contains(ts[0].name()->0) && payload_names_unique(ts[0])
        && children_names_unique(ts.drop_first(), seen.push(ts[0].name()->0))
}

/// The `n` bytes of `b` from `pos` on.
pub open spec fn window(b: Seq<u8>, pos: nat, n: nat) -> Seq<u8> {
    b.subrange(pos as int, (pos + n) as int)
}

proof fn lemma_split(b: Seq<u8>, pos: nat, x: Seq<u8>, y: Seq<u8>)
    requires
        pos + x.len() + y.len() <= b.len(),
        window(b, pos, x.len() + y.len()) == x + y,
    ensures
        window(b, pos, x.len()) == x,
        window(b, pos + x.len(), y.len()) == y,
{
    assert forall|i: int| 0 <= i < x.len() implies window(b, pos, x.len())[i] == x[i] by {
        assert(window(b, pos, x.len() + y.len())[i] == (x + y)[i]);
    }
    assert forall|i: int| 0 <= i < y.len() implies window(b, pos + x.len(), y.len())[i] == y[i] by {
        assert(window(b, pos, x.len() + y.len())[x.len() + i] == (x + y)[x.len() + i]);
    }
    assert(window(b, pos, x.len()) =~= x);
    assert(window(b, pos + x.len(), y.len()) =~= y);
}

proof fn lemma_uint(b: Seq<u8>, pos: nat, v: nat, w: nat, o: ByteOrder)
    requires
        v < pow256(w),
        pos + w <= b.len(),
        window(b, pos, w) == o.spec_bytes(v, w),
    ensures
        read_uint(b, pos, w, o) == Ok::<nat, Error>(v),
{
    lemma_bytes_round_trip(o, v, w);
}

proof fn lemma_signed(v: int, w: nat)
    requires
        2 * v < pow256(w),
        2 * v >= -pow256(w),
    ensures
        unsigned_of(v, w) < pow256(w),
        signed_of(unsigned_of(v, w), w) == v,
{
}

proof fn lemma_text(b: Seq<u8>, pos: nat, s: Seq<char>, o: ByteOrder)
    requires
        text_bytes(s, o) is Ok,
        text_ok(s),
        pos + text_bytes(s, o)->Ok_0.len() <= b.len(),
        window(b, pos, text_bytes(s, o)->Ok_0.len()) == text_bytes(s, o)->Ok_0,
    ensures
        parse_text(b, pos, o) == Ok::<(Seq<char>, nat), Error>(
            (s, text_bytes(s, o)->Ok_0.len()),
        ),
{
    lemma_pow256_values();
    let m = crate::text::mutf8_encoded(s);
    let h = o.spec_bytes(m.len(), 2);
    lemma_bytes_round_trip(o, m.len(), 2);
    lemma_split(b, pos, h, m);
    lemma_uint(b, pos, m.len(), 2, o);
}

proof fn lemma_ints(b: Seq<u8>, pos: nat, s: Seq<int>, w: nat, o: ByteOrder)
    requires
        forall|i: int| 0 <= i < s.len() ==> 2 * #[trigger] s[i] < pow256(w) && 2 * s[i] >= -pow256(w),
        pos + ints_bytes(s, w, o).len() <= b.len(),
        window(b, pos, ints_bytes(s, w, o).len()) == ints_bytes(s, w, o),
        w > 0,
    ensures
        parse_ints(b, pos, s.len(), w, o) == Ok::<Seq<int>, Error>(s),
        ints_bytes(s, w, o).len() == s.len() * w,
    decreases s.len(),
{
    if s.len() > 0 {
        let u = unsigned_of(s[0], w);
        lemma_signed(s[0], w);
        let x = o.spec_bytes(u, w);
        let rest = ints_bytes(s.drop_first(), w, o);
        lemma_bytes_round_trip(o, u, w);
        lemma_split(b, pos, x, rest);
        lemma_uint(b, pos, u, w, o);
        assert forall|i: int| 0 <= i < s.drop_first().len() implies 2 * #[trigger] s.drop_first()[i]
            < pow256(w) && 2 * s.drop_first()[i] >= -pow256(w) by {
            assert(s.drop_first()[i] == s[i + 1]);
        }
        lemma_ints(b, pos + w, s.drop_first(), w, o);
        assert(read_uint(b, pos, w, o) == Ok::<nat, Error>(u));
        assert(parse_ints(b, pos + w, (s.len() - 1) as nat, w, o) == Ok::<Seq<int>, Error>(s.drop_first()));
        assert(seq![s[0]] + s.drop_first() =~= s);
        assert(parse_ints(b, pos, s.len(), w, o) == Ok::<Seq<int>, Error>(seq![signed_of(u, w)] + s.drop_first()));
        assert((s.len() - 1) * w + w == s.len() * w) by (nonlinear_arith);
    } else {
        assert(s =~= seq![]);
        assert(s.len() * w == 0) by (nonlinear_arith)
            requires
                s.len() == 0,
        ;
    }
}

proof fn lemma_array(b: Seq<u8>, pos: nat, s: Seq<int>, w: nat, o: ByteOrder, too_big: Error)
    requires
        w == 1 || w == 4 || w == 8,
        forall|i: int| 0 <= i < s.len() ==> 2 * #[trigger] s[i] < pow256(w) && 2 * s[i] >= -pow256(w),
        array_bytes(s, w, o, too_big) is Ok,
        pos + array_bytes(s, w, o, too_big)->Ok_0.len() <= b.len(),
        window(b, pos, array_bytes(s, w, o, too_big)->Ok_0.len()) == array_bytes(
            s,
            w,
            o,
            too_big,
        )->Ok_0,
    ensures
        parse_array(b, pos, w, o) == Ok::<(Seq<int>, nat), Error>(
            (s, array_bytes(s, w, o, too_big)->Ok_0.len()),
        ),
{
    lemma_pow256_values();
    let h = o.spec_bytes(s.len(), 4);
    lemma_bytes_round_trip(o, s.len(), 4);
    lemma_split(b, pos, h, ints_bytes(s, w, o));
    lemma_uint(b, pos, s.len(), 4, o);
    assert(count_of(s.len()) == s.len());
    lemma_ints(b, pos + 4, s, w, o);
}

proof fn lemma_first_byte(b: Seq<u8>, pos: nat, x: u8)
    requires
        pos + 1 <= b.len(),
        window(b, pos, 1) == seq![x],
    ensures
        b[pos as int] == x,
{
    assert(window(b, pos, 1)[0] == b[pos as int]);
}

/// The payload bytes of `t`, wherever they stand in `b`, decode to `t` without
/// its name.
proof fn lemma_payload(b: Seq<u8>, pos: nat, t: TagView, o: ByteOrder)
    requires
        payload_bytes(t, o) is Ok,
        payload_texts_ok(t),
        payload_lists_ok(t),
        pos + payload_bytes(t, o)->Ok_0.len() <= b.len(),
        window(b, pos, payload_bytes(t, o)->Ok_0.len()) == payload_bytes(t, o)->Ok_0,
    ensures
        parse_payload(b, pos, t.id(), o) == if payload_names_unique(t) {
            Ok::<(TagView, nat), Error>((t.with_name(None), payload_bytes(t, o)->Ok_0.len()))
        } else {
            Err::<(TagView, nat), Error>(Error::ParseError(ParseErrorKind::DuplicateName))
        },
    decreases t, 1nat,
{
    lemma_pow256_values();
    let e = payload_bytes(t, o)->Ok_0;
    match t {
        TagView::Byte(_, v) => {
            lemma_signed(v as int, 1);
            lemma_bytes_round_trip(o, unsigned_of(v as int, 1), 1);
            lemma_uint(b, pos, unsigned_of(v as int, 1), 1, o);
        },
        TagView::Short(_, v) => {
            lemma_signed(v as int, 2);
            lemma_bytes_round_trip(o, unsigned_of(v as int, 2), 2);
            lemma_uint(b, pos, unsigned_of(v as int, 2), 2, o);
        },
        TagView::Int(_, v) => {
            lemma_signed(v as int, 4);
            lemma_bytes_round_trip(o, unsigned_of(v as int, 4), 4);
            lemma_uint(b, pos, unsigned_of(v as int, 4), 4, o);
        },
        TagView::Long(_, v) => {
            lemma_signed(v as int, 8);
            lemma_bytes_round_trip(o, unsigned_of(v as int, 8), 8);
            lemma_uint(b, pos, unsigned_of(v as int, 8), 8, o);
        },
        TagView::Float(_, v) => {
            lemma_bytes_round_trip(o, v as nat, 4);
            lemma_uint(b, pos, v as nat, 4, o);
        },
        TagView::Double(_, v) => {
            lemma_bytes_round_trip(o, v as nat, 8);
            lemma_uint(b, pos, v as nat, 8, o);
        },
        TagView::ByteArray(_, v) => {
            lemma_array(b, pos, ints_of(v), 1, o, Error::ByteArrayTooBig);
            assert(to_i8s(ints_of(v)) =~= v);
        },
        TagView::String(_, s) => {
            lemma_text(b, pos, s, o);
        },
        TagView::List(_, ts) => {
            let id = list_id(ts);
            let h = o.spec_bytes(ts.len(), 4);
            let p = payloads_bytes(ts, o)->Ok_0;
            assert(e == seq![id] + h + p);
            lemma_bytes_round_trip(o, ts.len(), 4);
            lemma_split(b, pos, seq![id] + h, p);
            lemma_split(b, pos, seq![id], h);
            lemma_first_byte(b, pos, id);
            lemma_uint(b, pos + 1, ts.len(), 4, o);
            assert(count_of(ts.len()) == ts.len());
            lemma_elements(b, pos + 5, ts, id, o);
        },
        TagView::Compound(_, ts) => {
            lemma_children(b, pos, ts, seq![], o);
        },
        TagView::IntArray(_, v) => {
            lemma_array(b, pos, ints_of(v), 4, o, Error::IntArrayTooBig);
            assert(to_i32s(ints_of(v)) =~= v);
        },
        TagView::LongArray(_, v) => {
            lemma_array(b, pos, ints_of(v), 8, o, Error::LongArrayTooBig);
            assert(to_i64s(ints_of(v)) =~= v);
        },
    }
}

/// The payloads of list elements decode to the elements.
proof fn lemma_elements(b: Seq<u8>, pos: nat, ts: Seq<TagView>, id: u8, o: ByteOrder)
    requires
        payloads_bytes(ts, o) is Ok,
        payloads_texts_ok(ts),
        elements_lists_ok(ts, id),
        pos + payloads_bytes(ts, o)->Ok_0.len() <= b.len(),
        window(b, pos, payloads_bytes(ts, o)->Ok_0.len()) == payloads_bytes(ts, o)->Ok_0,
    ensures
        parse_elements(b, pos, id, ts.len(), o) == if elements_names_unique(ts) {
            Ok::<(Seq<TagView>, nat), Error>((ts, payloads_bytes(ts, o)->Ok_0.len()))
        } else {
            Err::<(Seq<TagView>, nat), Error>(Error::ParseError(ParseErrorKind::DuplicateName))
        },
    decreases ts, 0nat,
{
    if ts.len() == 0 {
        assert(ts =~= seq![]);
    } else {
        let t = ts[0];
        let a = payload_bytes(t, o)->Ok_0;
        let r = payloads_bytes(ts.drop_first(), o)->Ok_0;
        lemma_split(b, pos, a, r);
        lemma_payload(b, pos, t, o);
        lemma_elements(b, pos + a.len(), ts.drop_first(), id, o);
        assert(t.with_name(None) == t);
        assert(seq![t] + ts.drop_first() =~= ts);
    }
}

/// The bytes of compound children and the end byte decode to the children,
/// given the names `seen` before them.
#[verifier::rlimit(100)]
proof fn lemma_children(
    b: Seq<u8>,
    pos: nat,
    ts: Seq<TagView>,
    seen: Seq<Seq<char>>,
    o: ByteOrder,
)
    requires
        tags_bytes(ts, o) is Ok,
        tags_texts_ok(ts),
        children_lists_ok(ts),
        pos + tags_bytes(ts, o)->Ok_0.len() + 1 <= b.len(),
        window(b, pos, tags_bytes(ts, o)->Ok_0.len() + 1) == tags_bytes(ts, o)->Ok_0.push(0),
    ensures
        parse_children(b, pos, seen, o) == if children_names_unique(ts, seen) {
            Ok::<(Seq<TagView>, nat), Error>((ts, tags_bytes(ts, o)->Ok_0.len() + 1))
        } else {
            Err::<(Seq<TagView>, nat), Error>(Error::ParseError(ParseErrorKind::DuplicateName))
        },
    decreases ts, 0nat,
{
    if ts.len() == 0 {
        lemma_first_byte(b, pos, 0);
        assert(ts =~= seq![]);
    } else {
        let t = ts[0];
        let tb = tag_bytes(t, o)->Ok_0;
        let r = tags_bytes(ts.drop_first(), o)->Ok_0;
        assert(tags_texts_ok(ts.drop_first()) && tag_texts_ok(t));
        assert(children_lists_ok(ts.drop_first()) && payload_lists_ok(t));
        assert(tags_bytes(ts, o)->Ok_0 == tb + r);
        assert((tb + r).push(0) =~= tb + r.push(0));
        lemma_split(b, pos, tb, r.push(0));
        let n = t.name()->0;
        let nb = text_bytes(n, o)->Ok_0;
        lemma_child_head(b, pos, t, o);
        if !seen.contains(n) {
            if payload_names_unique(t) {
                lemma_children(b, pos + tb.len(), ts.drop_first(), seen.push(n), o);
                assert(t.with_name(None).with_name(Some(n)) == t);
                assert(seq![t] + ts.drop_first() =~= ts);
            }
        }
    }
}

/// The type id and the name of a child decode, and its payload bytes follow them.
proof fn lemma_child_head(b: Seq<u8>, pos: nat, t: TagView, o: ByteOrder)
    requires
        tag_bytes(t, o) is Ok,
        tag_texts_ok(t),
        payload_lists_ok(t),
        pos + tag_bytes(t, o)->Ok_0.len() <= b.len(),
        window(b, pos, tag_bytes(t, o)->Ok_0.len()) == tag_bytes(t, o)->Ok_0,
    ensures
        t.name() is Some,
        1 <= t.id() <= 12,
        b[pos as int] == t.id(),
        text_bytes(t.name()->0, o) is Ok,
        parse_text(b, pos + 1, o) == Ok::<(Seq<char>, nat), Error>(
            (t.name()->0, text_bytes(t.name()->0, o)->Ok_0.len()),
        ),
        tag_bytes(t, o)->Ok_0.len() == 1 + text_bytes(t.name()->0, o)->Ok_0.len()
            + payload_bytes(t, o)->Ok_0.len(),
        parse_payload(b, pos + 1 + text_bytes(t.name()->0, o)->Ok_0.len(), t.id(), o) == if payload_names_unique(t) {
            Ok::<(TagView, nat), Error>((t.with_name(None), payload_bytes(t, o)->Ok_0.len()))
        } else {
            Err::<(TagView, nat), Error>(Error::ParseError(ParseErrorKind::DuplicateName))
        },
    decreases t, 2nat,
{
    let n = t.name()->0;
    assert(t.name() is Some);
    assert(text_ok(n));
    assert(payload_texts_ok(t));
    let nb = text_bytes(n, o)->Ok_0;
    let a = payload_bytes(t, o)->Ok_0;
    let tb = tag_bytes(t, o)->Ok_0;
    assert(tb == seq![t.id()] + nb + a);
    lemma_split(b, pos, seq![t.id()] + nb, a);
    lemma_split(b, pos, seq![t.id()], nb);
    lemma_first_byte(b, pos, t.id());
    lemma_text(b, pos + 1, n, o);
    lemma_payload(b, pos + 1 + nb.len(), t, o);
}

/// The bytes of a whole tag decode to the tag.
#[verifier::rlimit(100)]
pub(crate) proof fn lemma_decode_encoded(t: TagView, o: ByteOrder)
    requires
        tag_bytes(t, o) is Ok,
        tag_texts_ok(t),
        payload_lists_ok(t),
    ensures
        decode(tag_bytes(t, o)->Ok_0, o) == if payload_names_unique(t) {
            Ok::<TagView, Error>(t)
        } else {
            Err::<TagView, Error>(Error::ParseError(ParseErrorKind::DuplicateName))
        },
{
    let b = tag_bytes(t, o)->Ok_0;
    assert(window(b, 0, b.len()) =~= b);
    lemma_child_head(b, 0, t, o);
    let n = t.name()->0;
    let c1 = text_bytes(n, o)->Ok_0.len();
    assert(parse_text(b, 1, o) == Ok::<(Seq<char>, nat), Error>((n, c1)));
    if payload_names_unique(t) {
        assert(t.with_name(None).with_name(Some(n)) == t);
        assert(parse_tag(b, 0, o) == Ok::<(TagView, nat), Error>((t, b.len())));
    } else {
        assert(parse_tag(b, 0, o) == Err::<(TagView, nat), Error>(
            Error::ParseError(ParseErrorKind::DuplicateName),
        ));
    }
}

} // verus!
