use vstd::prelude::*;

use crate::byte_order::ByteOrder;
use crate::decode::{
    clip, count_of, decode, parse_array, parse_children, parse_elements, parse_ints, parse_payload,
    parse_tag, parse_text, read_uint,
};
use crate::error::Error;
use crate::tag::TagView;

verus! {

/// The bytes ran out: an incomplete error that asks for at least one more byte.
pub open spec fn is_incomplete<T>(r: Result<T, Error>) -> bool {
    r matches Err(Error::Incomplete(k)) && k > 0
}

proof fn lemma_read_prefix(b: Seq<u8>, l: nat, pos: nat, w: nat, o: ByteOrder)
    requires
        pos <= l <= b.len(),
        read_uint(b, pos, w, o) is Ok,
        w <= 0xFFFF,
    ensures
        pos + w <= l ==> read_uint(b.take(l as int), pos, w, o) == read_uint(b, pos, w, o),
        pos + w > l ==> is_incomplete(read_uint(b.take(l as int), pos, w, o)),
{
    if pos + w <= l {
        assert(b.take(l as int).subrange(pos as int, (pos + w) as int) =~= b.subrange(
            pos as int,
            (pos + w) as int,
        ));
    }
}

proof fn lemma_text_prefix(b: Seq<u8>, l: nat, pos: nat, o: ByteOrder)
    requires
        pos <= l <= b.len(),
        parse_text(b, pos, o) is Ok,
    ensures
        pos + parse_text(b, pos, o)->Ok_0.1 <= l ==> parse_text(b.take(l as int), pos, o)
            == parse_text(b, pos, o),
        pos + parse_text(b, pos, o)->Ok_0.1 > l ==> is_incomplete(
            parse_text(b.take(l as int), pos, o),
        ),
{
    crate::byte_order::lemma_pow256_values();
    lemma_read_prefix(b, l, pos, 2, o);
    let len = read_uint(b, pos, 2, o)->Ok_0;
    crate::byte_order::lemma_be_value_bound(b.subrange(pos as int, (pos + 2) as int));
    crate::byte_order::lemma_le_value_bound(b.subrange(pos as int, (pos + 2) as int));
    if pos + 2 + len <= l {
        assert(b.take(l as int).subrange((pos + 2) as int, (pos + 2 + len) as int)
            =~= b.subrange((pos + 2) as int, (pos + 2 + len) as int));
    }
}

proof fn lemma_ints_prefix(b: Seq<u8>, l: nat, pos: nat, n: nat, w: nat, o: ByteOrder)
    requires
        pos <= l <= b.len(),
        parse_ints(b, pos, n, w, o) is Ok,
        1 <= w <= 8,
    ensures
        pos + n * w <= l ==> parse_ints(b.take(l as int), pos, n, w, o) == parse_ints(
            b,
            pos,
            n,
            w,
            o,
        ),
        pos + n * w > l ==> is_incomplete(parse_ints(b.take(l as int), pos, n, w, o)),
    decreases n,
{
    if n > 0 {
        lemma_read_prefix(b, l, pos, w, o);
        assert(n * w == w + (n - 1) * w) by (nonlinear_arith)
            requires
                n > 0,
        ;
        assert((n - 1) * w >= 0) by (nonlinear_arith)
            requires
                n > 0,
                w >= 1,
        ;
        if pos + w <= l {
            lemma_ints_prefix(b, l, pos + w, (n - 1) as nat, w, o);
        }
    }
}

proof fn lemma_array_prefix(b: Seq<u8>, l: nat, pos: nat, w: nat, o: ByteOrder)
    requires
        pos <= l <= b.len(),
        parse_array(b, pos, w, o) is Ok,
        1 <= w <= 8,
    ensures
        pos + parse_array(b, pos, w, o)->Ok_0.1 <= l ==> parse_array(b.take(l as int), pos, w, o)
            == parse_array(b, pos, w, o),
        pos + parse_array(b, pos, w, o)->Ok_0.1 > l ==> is_incomplete(
            parse_array(b.take(l as int), pos, w, o),
        ),
{
    lemma_read_prefix(b, l, pos, 4, o);
    if pos + 4 <= l {
        let c = read_uint(b, pos, 4, o)->Ok_0;
        lemma_ints_prefix(b, l, pos + 4, count_of(c), w, o);
    }
}

/// A payload read from a prefix of the bytes: the same where the prefix holds
/// all of it, else incomplete.
proof fn lemma_payload_prefix(b: Seq<u8>, l: nat, pos: nat, id: u8, o: ByteOrder)
    requires
        pos <= l <= b.len(),
        parse_payload(b, pos, id, o) is Ok,
    ensures
        pos + parse_payload(b, pos, id, o)->Ok_0.1 <= l ==> parse_payload(
            b.take(l as int),
            pos,
            id,
            o,
        ) == parse_payload(b, pos, id, o),
        pos + parse_payload(b, pos, id, o)->Ok_0.1 > l ==> is_incomplete(
            parse_payload(b.take(l as int), pos, id, o),
        ),
    decreases clip(b, pos), 1nat, 0nat,
{
    let p = b.take(l as int);
    if 1 <= id <= 6 {
        let w: nat = if id == 1 {
            1
        } else if id == 2 {
            2
        } else if id == 3 || id == 5 {
            4
        } else {
            8
        };
        lemma_read_prefix(b, l, pos, w, o);
    } else if id == 7 {
        lemma_array_prefix(b, l, pos, 1, o);
    } else if id == 8 {
        lemma_text_prefix(b, l, pos, o);
    } else if id == 9 {
        if pos + 1 <= l {
            assert(p[pos as int] == b[pos as int]);
            lemma_read_prefix(b, l, pos + 1, 4, o);
            if pos + 5 <= l {
                let c = read_uint(b, pos + 1, 4, o)->Ok_0;
                lemma_elements_prefix(b, l, pos + 5, b[pos as int], count_of(c), o);
            }
        }
    } else if id == 10 {
        lemma_children_prefix(b, l, pos, seq![], o);
    } else if id == 11 {
        lemma_array_prefix(b, l, pos, 4, o);
    } else {
        lemma_array_prefix(b, l, pos, 8, o);
    }
}

proof fn lemma_elements_prefix(b: Seq<u8>, l: nat, pos: nat, id: u8, n: nat, o: ByteOrder)
    requires
        pos <= l <= b.len(),
        parse_elements(b, pos, id, n, o) is Ok,
    ensures
        pos + parse_elements(b, pos, id, n, o)->Ok_0.1 <= l ==> parse_elements(
            b.take(l as int),
            pos,
            id,
            n,
            o,
        ) == parse_elements(b, pos, id, n, o),
        pos + parse_elements(b, pos, id, n, o)->Ok_0.1 > l ==> is_incomplete(
            parse_elements(b.take(l as int), pos, id, n, o),
        ),
    decreases clip(b, pos), 2nat, n,
{
    if n > 0 {
        lemma_payload_prefix(b, l, pos, id, o);
        let c = parse_payload(b, pos, id, o)->Ok_0.1;
        if pos + c <= l {
            lemma_elements_prefix(b, l, pos + c, id, (n - 1) as nat, o);
        }
    }
}

proof fn lemma_children_prefix(b: Seq<u8>, l: nat, pos: nat, seen: Seq<Seq<char>>, o: ByteOrder)
    requires
        pos <= l <= b.len(),
        parse_children(b, pos, seen, o) is Ok,
    ensures
        pos + parse_children(b, pos, seen, o)->Ok_0.1 <= l ==> parse_children(
            b.take(l as int),
            pos,
            seen,
            o,
        ) == parse_children(b, pos, seen, o),
        pos + parse_children(b, pos, seen, o)->Ok_0.1 > l ==> is_incomplete(
            parse_children(b.take(l as int), pos, seen, o),
        ),
    decreases clip(b, pos), 0nat, 0nat,
{
    let p = b.take(l as int);
    if pos + 1 <= l {
        assert(p[pos as int] == b[pos as int]);
        if b[pos as int] != 0 {
            lemma_text_prefix(b, l, pos + 1, o);
            let (n, c1) = parse_text(b, pos + 1, o)->Ok_0;
            if pos + 1 + c1 <= l {
                let id = b[pos as int];
                lemma_payload_prefix(b, l, pos + 1 + c1, id, o);
                let c2 = parse_payload(b, pos + 1 + c1, id, o)->Ok_0.1;
                if pos + 1 + c1 + c2 <= l {
                    lemma_children_prefix(b, l, pos + 1 + c1 + c2, seen.push(n), o);
                }
            }
        }
    }
}

/// Cutting the bytes of a document anywhere before their end leaves bytes that
/// decode to an incomplete error asking for at least one more byte; never to
/// a tree.
pub proof fn lemma_truncated_is_incomplete(b: Seq<u8>, o: ByteOrder, n: nat)
    requires
        decode(b, o) is Ok,
        n < b.len(),
    ensures
        is_incomplete(decode(b.take(n as int), o)),
{
    let p = b.take(n as int);
    if n >= 1 {
        assert(p[0] == b[0]);
        lemma_text_prefix(b, n, 1, o);
        let c1 = parse_text(b, 1, o)->Ok_0.1;
        if 1 + c1 <= n {
            lemma_payload_prefix(b, n, 1 + c1, b[0], o);
        }
    }
}

} // verus!
