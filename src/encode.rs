use vstd::prelude::*;

use crate::byte_order::{lemma_pow256_values, unsigned_of, ByteOrder};
use crate::decode::decode;
use crate::error::{Error, ParseErrorKind};
use crate::ints::{ints_of, WireInt};
use crate::round_trip::{lemma_decode_encoded, payload_lists_ok, payload_names_unique};
use crate::tag::{lemma_tags_view, tags_view, Tag, TagView};
use crate::text::{encode_text, mutf8_decoded, mutf8_encoded};

verus! {

/// `a` in front of the bytes of `r`, or the error of `r`.
pub open spec fn prepend(a: Seq<u8>, r: Result<Seq<u8>, Error>) -> Result<Seq<u8>, Error> {
    match r {
        Ok(b) => Ok(a + b),
        Err(e) => Err(e),
    }
}

/// The bytes of a name or a string: its length in two bytes, then its modified
/// UTF-8 bytes.
pub open spec fn text_bytes(s: Seq<char>, o: ByteOrder) -> Result<Seq<u8>, Error> {
    let b = mutf8_encoded(s);
    if b.len() > 0xFFFF {
        Err(Error::StringTooBig)
    } else {
        Ok(o.spec_bytes(b.len(), 2) + b)
    }
}

/// The bytes of the name of a tag in a named position.
pub open spec fn name_bytes(n: Option<Seq<char>>, o: ByteOrder) -> Result<Seq<u8>, Error> {
    match n {
        None => Err(Error::MissingName),
        Some(s) => text_bytes(s, o),
    }
}

/// Each number in `w` bytes, one after the other.
pub open spec fn ints_bytes(s: Seq<int>, w: nat, o: ByteOrder) -> Seq<u8>
    decreases s.len(),
{
    if s.len() == 0 {
        seq![]
    } else {
        o.spec_bytes(unsigned_of(s[0], w), w) + ints_bytes(s.drop_first(), w, o)
    }
}

/// The bytes of an array: its length in four bytes, then each item in `w` bytes.
pub open spec fn array_bytes(s: Seq<int>, w: nat, o: ByteOrder, too_big: Error) -> Result<
    Seq<u8>,
    Error,
> {
    if s.len() > i32::MAX {
        Err(too_big)
    } else {
        Ok(o.spec_bytes(s.len(), 4) + ints_bytes(s, w, o))
    }
}

/// The element type id that a list header carries: that of the first element,
/// or 0 for an empty list.
pub open spec fn list_id(ts: Seq<TagView>) -> u8 {
    if ts.len() == 0 {
        0
    } else {
        ts[0].id()
    }
}

/// The payload of a tag on the wire, without its type id and name.
pub open spec fn payload_bytes(t: TagView, o: ByteOrder) -> Result<Seq<u8>, Error>
    decreases t, 0nat,
{
    match t {
        TagView::Byte(_, v) => Ok(o.spec_bytes(unsigned_of(v as int, 1), 1)),
        TagView::Short(_, v) => Ok(o.spec_bytes(unsigned_of(v as int, 2), 2)),
        TagView::Int(_, v) => Ok(o.spec_bytes(unsigned_of(v as int, 4), 4)),
        TagView::Long(_, v) => Ok(o.spec_bytes(unsigned_of(v as int, 8), 8)),
        TagView::Float(_, v) => Ok(o.spec_bytes(v as nat, 4)),
        TagView::Double(_, v) => Ok(o.spec_bytes(v as nat, 8)),
        TagView::ByteArray(_, v) => array_bytes(ints_of(v), 1, o, Error::ByteArrayTooBig),
        TagView::String(_, s) => text_bytes(s, o),
        TagView::List(_, ts) => if ts.len() > i32::MAX {
            Err(Error::ListTooBig)
        } else {
            prepend(seq![list_id(ts)] + o.spec_bytes(ts.len(), 4), payloads_bytes(ts, o))
        },
        TagView::Compound(_, ts) => match tags_bytes(ts, o) {
            Ok(b) => Ok(b.push(0)),
            Err(e) => Err(e),
        },
        TagView::IntArray(_, v) => array_bytes(ints_of(v), 4, o, Error::IntArrayTooBig),
        TagView::LongArray(_, v) => array_bytes(ints_of(v), 8, o, Error::LongArrayTooBig),
    }
}

/// The payloads of list elements, one after the other.
pub open spec fn payloads_bytes(ts: Seq<TagView>, o: ByteOrder) -> Result<Seq<u8>, Error>
    decreases ts, 0nat,
{
    if ts.len() == 0 {
        Ok(seq![])
    } else {
        match payload_bytes(ts[0], o) {
            Err(e) => Err(e),
            Ok(a) => prepend(a, payloads_bytes(ts.drop_first(), o)),
        }
    }
}

/// A whole tag on the wire: type id, name and payload.
pub open spec fn tag_bytes(t: TagView, o: ByteOrder) -> Result<Seq<u8>, Error>
    decreases t, 1nat,
{
    match name_bytes(t.name(), o) {
        Err(e) => Err(e),
        Ok(nb) => prepend(seq![t.id()] + nb, payload_bytes(t, o)),
    }
}

/// Whole tags, one after the other.
pub open spec fn tags_bytes(ts: Seq<TagView>, o: ByteOrder) -> Result<Seq<u8>, Error>
    decreases ts, 0nat,
{
    if ts.len() == 0 {
        Ok(seq![])
    } else {
        match tag_bytes(ts[0], o) {
            Err(e) => Err(e),
            Ok(a) => prepend(a, tags_bytes(ts.drop_first(), o)),
        }
    }
}

/// The text that the modified UTF-8 bytes of `s` stand for is `s`.
pub open spec fn text_ok(s: Seq<char>) -> bool {
    mutf8_decoded(mutf8_encoded(s)) == Some(s)
}

/// Every text in the payload that the encoder writes reads back as itself.
pub open spec fn payload_texts_ok(t: TagView) -> bool
    decreases t, 1nat,
{
    match t {
        TagView::String(_, s) => text_ok(s),
        TagView::List(_, ts) => payloads_texts_ok(ts),
        TagView::Compound(_, ts) => tags_texts_ok(ts),
        _ => true,
    }
}

/// Every text of a tag in a named position reads back as itself.
pub open spec fn tag_texts_ok(t: TagView) -> bool
    decreases t, 2nat,
{
    (t.name() matches Some(n) ==> text_ok(n)) && payload_texts_ok(t)
}

pub open spec fn payloads_texts_ok(ts: Seq<TagView>) -> bool
    decreases ts, 0nat,
{
    ts.len() > 0 ==> payload_texts_ok(ts[0]) && payloads_texts_ok(ts.drop_first())
}

pub open spec fn tags_texts_ok(ts: Seq<TagView>) -> bool
    decreases ts, 0nat,
{
    ts.len() > 0 ==> tag_texts_ok(ts[0]) && tags_texts_ok(ts.drop_first())
}

proof fn lemma_payloads_texts_ok(ts: Seq<TagView>)
    requires
        forall|j: int| 0 <= j < ts.len() ==> #[trigger] payload_texts_ok(ts[j]),
    ensures
        payloads_texts_ok(ts),
    decreases ts.len(),
{
    if ts.len() > 0 {
        assert(payload_texts_ok(ts[0]));
        assert forall|j: int| 0 <= j < ts.drop_first().len() implies #[trigger] payload_texts_ok(
            ts.drop_first()[j],
        ) by {
            assert(ts.drop_first()[j] == ts[j + 1]);
        }
        lemma_payloads_texts_ok(ts.drop_first());
    }
}

proof fn lemma_tags_texts_ok(ts: Seq<TagView>)
    requires
        forall|j: int| 0 <= j < ts.len() ==> #[trigger] tag_texts_ok(ts[j]),
    ensures
        tags_texts_ok(ts),
    decreases ts.len(),
{
    if ts.len() > 0 {
        assert(tag_texts_ok(ts[0]));
        assert forall|j: int| 0 <= j < ts.drop_first().len() implies #[trigger] tag_texts_ok(
            ts.drop_first()[j],
        ) by {
            assert(ts.drop_first()[j] == ts[j + 1]);
        }
        lemma_tags_texts_ok(ts.drop_first());
    }
}

pub open spec fn unit_result(r: Result<(), Error>, s: Result<Seq<u8>, Error>) -> bool {
    match s {
        Ok(_) => r is Ok,
        Err(e) => r == Err::<(), Error>(e),
    }
}

pub open spec fn bytes_result(r: Result<Vec<u8>, Error>) -> Result<Seq<u8>, Error> {
    match r {
        Ok(b) => Ok(b@),
        Err(e) => Err(e),
    }
}

/// Appends the length and the modified UTF-8 bytes of `s`.
fn write_text(s: &str, o: ByteOrder, buf: &mut Vec<u8>) -> (r: Result<(), Error>)
    ensures
        unit_result(r, text_bytes(s@, o)),
        text_bytes(s@, o) matches Ok(b) ==> final(buf)@ == old(buf)@ + b,
        r is Ok ==> text_ok(s@),
{
    let encoded = encode_text(s);
    let mut b = match encoded {
        Some(b) => b,
        None => return Err(Error::StringTooBig),
    };
    if b.len() > 0xFFFF {
        return Err(Error::StringTooBig);
    }
    o.write(buf, b.len() as u64, 2);
    buf.append(&mut b);
    Ok(())
}


fn unsigned_i16(v: i16) -> (r: u64)
    ensures
        r as nat == unsigned_of(v as int, 2),
{
    proof {
        lemma_pow256_values();
    }
    if v < 0 {
        (v as i32 + 0x1_0000) as u64
    } else {
        v as u64
    }
}



/// Appends an array: its length in four bytes, then each item in its width.
fn write_ints<T: WireInt>(v: &Vec<T>, o: ByteOrder, too_big: Error, buf: &mut Vec<u8>) -> (r:
    Result<(), Error>)
    ensures
        unit_result(r, array_bytes(ints_of(v@), T::width(), o, too_big)),
        array_bytes(ints_of(v@), T::width(), o, too_big) matches Ok(b) ==> final(buf)@ == old(
            buf,
        )@ + b,
{
    if v.len() > 0x7FFF_FFFF {
        return Err(too_big);
    }
    let w = T::wire_width();
    let ghost s = ints_of(v@);
    let ghost start = old(buf)@;
    o.write(buf, v.len() as u64, 4);
    let mut i: usize = 0;
    proof {
        assert(s.skip(0) =~= s);
        assert(buf@ + ints_bytes(s, w as nat, o) =~= start + o.spec_bytes(v.len() as nat, 4)
            + ints_bytes(s, w as nat, o));
    }
    while i < v.len()
        invariant
            i <= v.len(),
            s == ints_of(v@),
            w as nat == T::width(),
            buf@ + ints_bytes(s.skip(i as int), w as nat, o) == start + o.spec_bytes(
                v.len() as nat,
                4,
            ) + ints_bytes(s, w as nat, o),
        decreases v.len() - i,
    {
        let ghost before = buf@;
        o.write(buf, v[i].to_wire(), w);
        proof {
            assert(s.skip(i as int).drop_first() =~= s.skip(i + 1));
            assert(s.skip(i as int)[0] == v@[i as int].value());
            let x = o.spec_bytes(unsigned_of(v@[i as int].value(), w as nat), w as nat);
            assert(ints_bytes(s.skip(i as int), w as nat, o) == x + ints_bytes(
                s.skip(i + 1),
                w as nat,
                o,
            ));
            assert(buf@ + ints_bytes(s.skip(i + 1), w as nat, o) =~= before + ints_bytes(
                s.skip(i as int),
                w as nat,
                o,
            ));
        }
        i += 1;
    }
    proof {
        assert(s.skip(i as int) =~= Seq::<int>::empty());
        assert(buf@ =~= buf@ + ints_bytes(s.skip(i as int), w as nat, o));
    }
    Ok(())
}

impl Tag {
    /// Returns the tag as bytes: its type id, its name and its payload.
    pub fn to_bytes(&self, byte_order: ByteOrder) -> (r: Result<Vec<u8>, Error>)
        ensures
            bytes_result(r) == tag_bytes(self@, byte_order),
            r matches Ok(b) ==> (payload_lists_ok(self@) ==> decode(b@, byte_order) == if payload_names_unique(
                self@,
            ) {
                Ok::<TagView, Error>(self@)
            } else {
                Err::<TagView, Error>(Error::ParseError(ParseErrorKind::DuplicateName))
            }),
    {
        let mut buf: Vec<u8> = Vec::new();
        match self.write_tag(byte_order, &mut buf) {
            Ok(()) => {
                proof {
                    assert(buf@ =~= Seq::<u8>::empty() + buf@);
                    if payload_lists_ok(self@) {
                        lemma_decode_encoded(self@, byte_order);
                    }
                }
                Ok(buf)
            },
            Err(e) => Err(e),
        }
    }

    /// Appends the whole tag to `buf`.
    fn write_tag(&self, o: ByteOrder, buf: &mut Vec<u8>) -> (r: Result<(), Error>)
        ensures
            unit_result(r, tag_bytes(self@, o)),
            tag_bytes(self@, o) matches Ok(b) ==> final(buf)@ == old(buf)@ + b,
            r is Ok ==> tag_texts_ok(self@),
        decreases self, 1nat,
    {
        buf.push(self.id());
        let ghost after_id = buf@;
        match self.tag_name() {
            None => {
                return Err(Error::MissingName);
            },
            Some(n) => match write_text(n.as_str(), o, buf) {
                Err(e) => {
                    return Err(e);
                },
                Ok(()) => {},
            },
        }
        let ghost mid = buf@;
        let r = self.write_payload(o, buf);
        proof {
            let nb = name_bytes(self@.name(), o)->Ok_0;
            assert(mid == after_id + nb);
            if let Ok(b) = payload_bytes(self@, o) {
                assert(final(buf)@ =~= old(buf)@ + ((seq![self@.id()] + nb) + b));
            }
        }
        r
    }

    /// Appends the payload of the tag to `buf`.
    fn write_payload(&self, o: ByteOrder, buf: &mut Vec<u8>) -> (r: Result<(), Error>)
        ensures
            unit_result(r, payload_bytes(self@, o)),
            payload_bytes(self@, o) matches Ok(b) ==> final(buf)@ == old(buf)@ + b,
            r is Ok ==> payload_texts_ok(self@),
        decreases self, 0nat,
    {
        match self {
            Tag::Byte(_, v) => {
                o.write(buf, v.to_wire(), 1);
                Ok(())
            },
            Tag::Short(_, v) => {
                o.write(buf, unsigned_i16(*v), 2);
                Ok(())
            },
            Tag::Int(_, v) => {
                o.write(buf, v.to_wire(), 4);
                Ok(())
            },
            Tag::Long(_, v) => {
                o.write(buf, v.to_wire(), 8);
                Ok(())
            },
            Tag::Float(_, v) => {
                o.write(buf, *v as u64, 4);
                Ok(())
            },
            Tag::Double(_, v) => {
                o.write(buf, *v, 8);
                Ok(())
            },
            Tag::ByteArray(_, v) => write_ints(v, o, Error::ByteArrayTooBig, buf),
            Tag::String(_, s) => write_text(s.as_str(), o, buf),
            Tag::List(_, ts) => write_list(ts, o, buf),
            Tag::Compound(_, ts) => write_compound(ts, o, buf),
            Tag::IntArray(_, v) => write_ints(v, o, Error::IntArrayTooBig, buf),
            Tag::LongArray(_, v) => write_ints(v, o, Error::LongArrayTooBig, buf),
        }
    }
}

/// Appends the payload of a list with elements `ts`.
fn write_list(ts: &Vec<Tag>, o: ByteOrder, buf: &mut Vec<u8>) -> (r: Result<(), Error>)
    ensures
        unit_result(r, payload_bytes(TagView::List(None, tags_view(ts@)), o)),
        payload_bytes(TagView::List(None, tags_view(ts@)), o) matches Ok(b) ==> final(buf)@ == old(
            buf,
        )@ + b,
        r is Ok ==> payload_texts_ok(TagView::List(None, tags_view(ts@))),
    decreases ts, 1nat,
{
    let ghost vs = TagView::List(None, tags_view(ts@))->List_1;
    proof {
        lemma_tags_view(ts@);
    }
    if ts.len() > 0x7FFF_FFFF {
        return Err(Error::ListTooBig);
    }
    let id: u8 = if ts.len() == 0 {
        0
    } else {
        ts[0].id()
    };
    let ghost start = old(buf)@;
    buf.push(id);
    o.write(buf, ts.len() as u64, 4);
    let ghost head = buf@;
    let mut i: usize = 0;
    proof {
        assert(vs.skip(0) =~= vs);
        assert(head == start + (seq![list_id(vs)] + o.spec_bytes(ts.len() as nat, 4)));
    }
    while i < ts.len()
        invariant
            i <= ts.len(),
            vs == TagView::List(None, tags_view(ts@))->List_1,
            ts.len() <= 0x7FFF_FFFF,
            vs.len() == ts.len(),
            forall|j: int| 0 <= j < ts.len() ==> #[trigger] vs[j] == ts@[j]@,
            head == start + (seq![list_id(vs)] + o.spec_bytes(ts.len() as nat, 4)),
            buf@.len() >= head.len(),
            buf@.subrange(0, head.len() as int) == head,
            payloads_bytes(vs, o) == prepend(
                buf@.skip(head.len() as int),
                payloads_bytes(vs.skip(i as int), o),
            ),
            forall|j: int| 0 <= j < i ==> #[trigger] payload_texts_ok(vs[j]),
        decreases ts.len() - i,
    {
        let ghost before = buf@;
        proof {
            assert(decreases_to!(ts => ts[i as int]));
        }
        match ts[i].write_payload(o, buf) {
            Err(e) => {
                proof {
                    assert(vs.skip(i as int)[0] == vs[i as int]);
                    assert(payloads_bytes(vs.skip(i as int), o) == Err::<Seq<u8>, Error>(e));
                    assert(payloads_bytes(vs, o) == Err::<Seq<u8>, Error>(e));
                    assert(vs.len() <= i32::MAX);
                    assert(payload_bytes(TagView::List(None, vs), o) == Err::<Seq<u8>, Error>(e));
                }
                return Err(e);
            },
            Ok(()) => {},
        }
        proof {
            let rest = vs.skip(i as int);
            assert(rest[0] == vs[i as int]);
            assert(rest.drop_first() =~= vs.skip(i + 1));
            let b = payload_bytes(vs[i as int], o)->Ok_0;
            assert(buf@ == before + b);
            assert(buf@.skip(head.len() as int) =~= before.skip(head.len() as int) + b);
            assert(buf@.subrange(0, head.len() as int) =~= before.subrange(
                0,
                head.len() as int,
            ));
            match payloads_bytes(vs.skip(i + 1), o) {
                Ok(c) => {
                    assert(before.skip(head.len() as int) + (b + c) =~= (before.skip(
                        head.len() as int,
                    ) + b) + c);
                },
                Err(_) => {},
            }
        }
        i += 1;
    }
    proof {
        assert(vs.skip(i as int) =~= Seq::<TagView>::empty());
        lemma_payloads_texts_ok(vs);
        assert(buf@ =~= head + buf@.skip(head.len() as int));
        assert(buf@ =~= start + (seq![list_id(vs)] + o.spec_bytes(ts.len() as nat, 4)
            + buf@.skip(head.len() as int)));
    }
    Ok(())
}

/// Appends the payload of a compound with children `ts`.
fn write_compound(ts: &Vec<Tag>, o: ByteOrder, buf: &mut Vec<u8>) -> (r: Result<(), Error>)
    ensures
        unit_result(r, payload_bytes(TagView::Compound(None, tags_view(ts@)), o)),
        payload_bytes(TagView::Compound(None, tags_view(ts@)), o) matches Ok(b) ==> final(buf)@
            == old(buf)@ + b,
        r is Ok ==> payload_texts_ok(TagView::Compound(None, tags_view(ts@))),
    decreases ts, 1nat,
{
    let ghost vs = TagView::Compound(None, tags_view(ts@))->Compound_1;
    proof {
        lemma_tags_view(ts@);
    }
    let ghost start = old(buf)@;
    let mut i: usize = 0;
    proof {
        assert(vs.skip(0) =~= vs);
        assert(buf@.skip(start.len() as int) =~= Seq::<u8>::empty());
    }
    while i < ts.len()
        invariant
            i <= ts.len(),
            vs == TagView::Compound(None, tags_view(ts@))->Compound_1,
            vs.len() == ts.len(),
            forall|j: int| 0 <= j < ts.len() ==> #[trigger] vs[j] == ts@[j]@,
            buf@.len() >= start.len(),
            buf@.subrange(0, start.len() as int) == start,
            tags_bytes(vs, o) == prepend(
                buf@.skip(start.len() as int),
                tags_bytes(vs.skip(i as int), o),
            ),
            forall|j: int| 0 <= j < i ==> #[trigger] tag_texts_ok(vs[j]),
        decreases ts.len() - i,
    {
        let ghost before = buf@;
        proof {
            assert(decreases_to!(ts => ts[i as int]));
        }
        match ts[i].write_tag(o, buf) {
            Err(e) => {
                proof {
                    assert(vs.skip(i as int)[0] == vs[i as int]);
                    assert(tags_bytes(vs.skip(i as int), o) == Err::<Seq<u8>, Error>(e));
                }
                return Err(e);
            },
            Ok(()) => {},
        }
        proof {
            let rest = vs.skip(i as int);
            assert(rest[0] == vs[i as int]);
            assert(rest.drop_first() =~= vs.skip(i + 1));
            let b = tag_bytes(vs[i as int], o)->Ok_0;
            assert(buf@ == before + b);
            assert(buf@.skip(start.len() as int) =~= before.skip(start.len() as int) + b);
            assert(buf@.subrange(0, start.len() as int) =~= before.subrange(
                0,
                start.len() as int,
            ));
            match tags_bytes(vs.skip(i + 1), o) {
                Ok(c) => {
                    assert(before.skip(start.len() as int) + (b + c) =~= (before.skip(
                        start.len() as int,
                    ) + b) + c);
                },
                Err(_) => {},
            }
        }
        i += 1;
    }
    buf.push(0);
    proof {
        assert(vs.skip(i as int) =~= Seq::<TagView>::empty());
        lemma_tags_texts_ok(vs);
        let w = buf@.subrange(start.len() as int, buf@.len() - 1);
        assert(w =~= buf@.drop_last().skip(start.len() as int));
        assert(buf@ =~= start + w.push(0));
    }
    Ok(())
}

} // verus!
