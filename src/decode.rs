use vstd::prelude::*;

use vstd::slice::slice_subrange;

use crate::byte_order::{lemma_pow256_values, pow256, signed_of, ByteOrder};
use crate::ints::{ints_of, WireInt};
use crate::error::{Error, ParseErrorKind};
use crate::tag::{lemma_tags_view_push, tags_view, Tag, TagView};
use crate::text::{decode_text, mutf8_decoded};

verus! {

/// How many bytes are left from `pos` on.
pub open spec fn clip(b: Seq<u8>, pos: nat) -> nat {
    if pos <= b.len() {
        (b.len() - pos) as nat
    } else {
        0
    }
}

/// The error for a read of `w` bytes at `pos` that runs past the end.
pub open spec fn incomplete(b: Seq<u8>, pos: nat, w: nat) -> Error {
    Error::Incomplete((pos + w - b.len()) as usize)
}

/// The unsigned number in the `w` bytes at `pos`.
pub open spec fn read_uint(b: Seq<u8>, pos: nat, w: nat, o: ByteOrder) -> Result<nat, Error> {
    if pos + w > b.len() {
        Err(incomplete(b, pos, w))
    } else {
        Ok(o.spec_value(b.subrange(pos as int, (pos + w) as int)))
    }
}

/// A name or a string at `pos`: a two-byte length, then that many bytes of
/// modified UTF-8. Gives the text and the number of bytes read.
pub open spec fn parse_text(b: Seq<u8>, pos: nat, o: ByteOrder) -> Result<(Seq<char>, nat), Error> {
    match read_uint(b, pos, 2, o) {
        Err(e) => Err(e),
        Ok(len) => if pos + 2 + len > b.len() {
            Err(incomplete(b, pos + 2, len))
        } else {
            match mutf8_decoded(b.subrange((pos + 2) as int, (pos + 2 + len) as int)) {
                None => Err(Error::ParseError(ParseErrorKind::InvalidText)),
                Some(s) => Ok((s, 2 + len)),
            }
        },
    }
}

/// The number of items that a four-byte count field holds: a negative count
/// stands for none.
pub open spec fn count_of(c: nat) -> nat {
    if signed_of(c, 4) < 0 {
        0
    } else {
        c
    }
}

/// `n` signed numbers of `w` bytes each, from `pos` on.
pub open spec fn parse_ints(b: Seq<u8>, pos: nat, n: nat, w: nat, o: ByteOrder) -> Result<
    Seq<int>,
    Error,
>
    decreases n,
{
    if n == 0 {
        Ok(seq![])
    } else {
        match read_uint(b, pos, w, o) {
            Err(e) => Err(e),
            Ok(u) => match parse_ints(b, pos + w, (n - 1) as nat, w, o) {
                Err(e) => Err(e),
                Ok(rest) => Ok(seq![signed_of(u, w)] + rest),
            },
        }
    }
}

/// An array at `pos`: a count, then that many numbers of `w` bytes each.
pub open spec fn parse_array(b: Seq<u8>, pos: nat, w: nat, o: ByteOrder) -> Result<
    (Seq<int>, nat),
    Error,
> {
    match read_uint(b, pos, 4, o) {
        Err(e) => Err(e),
        Ok(c) => match parse_ints(b, pos + 4, count_of(c), w, o) {
            Err(e) => Err(e),
            Ok(s) => Ok((s, 4 + count_of(c) * w)),
        },
    }
}

pub open spec fn to_i8s(s: Seq<int>) -> Seq<i8> {
    s.map_values(|x: int| x as i8)
}

pub open spec fn to_i32s(s: Seq<int>) -> Seq<i32> {
    s.map_values(|x: int| x as i32)
}

pub open spec fn to_i64s(s: Seq<int>) -> Seq<i64> {
    s.map_values(|x: int| x as i64)
}

/// The payload of type `id` at `pos`, as an unnamed tag, and the number of
/// bytes that it takes.
pub open spec fn parse_payload(b: Seq<u8>, pos: nat, id: u8, o: ByteOrder) -> Result<
    (TagView, nat),
    Error,
>
    decreases clip(b, pos), 1nat, 0nat,
{
    if 1 <= id <= 6 {
        let w: nat = if id == 1 {
            1
        } else if id == 2 {
            2
        } else if id == 3 || id == 5 {
            4
        } else {
            8
        };
        match read_uint(b, pos, w, o) {
            Err(e) => Err(e),
            Ok(u) => Ok(
                (
                    if id == 1 {
                        TagView::Byte(None, signed_of(u, 1) as i8)
                    } else if id == 2 {
                        TagView::Short(None, signed_of(u, 2) as i16)
                    } else if id == 3 {
                        TagView::Int(None, signed_of(u, 4) as i32)
                    } else if id == 4 {
                        TagView::Long(None, signed_of(u, 8) as i64)
                    } else if id == 5 {
                        TagView::Float(None, u as u32)
                    } else {
                        TagView::Double(None, u as u64)
                    },
                    w,
                ),
            ),
        }
    } else if id == 7 {
        match parse_array(b, pos, 1, o) {
            Err(e) => Err(e),
            Ok((s, c)) => Ok((TagView::ByteArray(None, to_i8s(s)), c)),
        }
    } else if id == 8 {
        match parse_text(b, pos, o) {
            Err(e) => Err(e),
            Ok((s, c)) => Ok((TagView::String(None, s), c)),
        }
    } else if id == 9 {
        if pos + 1 > b.len() {
            Err(incomplete(b, pos, 1))
        } else if b[pos as int] > 12 {
            Err(Error::ParseError(ParseErrorKind::InvalidTypeId))
        } else {
            match read_uint(b, pos + 1, 4, o) {
                Err(e) => Err(e),
                Ok(c) => if b[pos as int] == 0 && count_of(c) > 0 {
                    Err(Error::ParseError(ParseErrorKind::InvalidTypeId))
                } else {
                    match parse_elements(b, pos + 5, b[pos as int], count_of(c), o) {
                        Err(e) => Err(e),
                        Ok((ts, k)) => Ok((TagView::List(None, ts), 5 + k)),
                    }
                },
            }
        }
    } else if id == 10 {
        match parse_children(b, pos, seq![], o) {
            Err(e) => Err(e),
            Ok((ts, k)) => Ok((TagView::Compound(None, ts), k)),
        }
    } else if id == 11 {
        match parse_array(b, pos, 4, o) {
            Err(e) => Err(e),
            Ok((s, c)) => Ok((TagView::IntArray(None, to_i32s(s)), c)),
        }
    } else if id == 12 {
        match parse_array(b, pos, 8, o) {
            Err(e) => Err(e),
            Ok((s, c)) => Ok((TagView::LongArray(None, to_i64s(s)), c)),
        }
    } else {
        Err(Error::ParseError(ParseErrorKind::InvalidTypeId))
    }
}

/// `n` payloads of type `id`, one after the other, from `pos` on.
pub open spec fn parse_elements(b: Seq<u8>, pos: nat, id: u8, n: nat, o: ByteOrder) -> Result<
    (Seq<TagView>, nat),
    Error,
>
    decreases clip(b, pos), 2nat, n,
{
    if n == 0 {
        Ok((seq![], 0))
    } else {
        match parse_payload(b, pos, id, o) {
            Err(e) => Err(e),
            Ok((t, c)) => match parse_elements(b, pos + c, id, (n - 1) as nat, o) {
                Err(e) => Err(e),
                Ok((ts, k)) => Ok((seq![t] + ts, c + k)),
            },
        }
    }
}

/// The children of a compound from `pos` on, up to and with the end byte `0`;
/// `seen` holds the names of the children before `pos`.
pub open spec fn parse_children(b: Seq<u8>, pos: nat, seen: Seq<Seq<char>>, o: ByteOrder) -> Result<
    (Seq<TagView>, nat),
    Error,
>
    decreases clip(b, pos), 0nat, 0nat,
{
    if pos + 1 > b.len() {
        Err(incomplete(b, pos, 1))
    } else if b[pos as int] == 0 {
        Ok((seq![], 1))
    } else if b[pos as int] > 12 {
        Err(Error::ParseError(ParseErrorKind::InvalidTypeId))
    } else {
        match parse_text(b, pos + 1, o) {
            Err(e) => Err(e),
            Ok((n, c1)) => if seen.contains(n) {
                Err(Error::ParseError(ParseErrorKind::DuplicateName))
            } else {
                match parse_payload(b, pos + 1 + c1, b[pos as int], o) {
                    Err(e) => Err(e),
                    Ok((t, c2)) => match parse_children(b, pos + 1 + c1 + c2, seen.push(n), o) {
                        Err(e) => Err(e),
                        Ok((ts, c3)) => Ok((seq![t.with_name(Some(n))] + ts, 1 + c1 + c2 + c3)),
                    },
                }
            },
        }
    }
}

/// A whole named tag at `pos`, and the number of bytes that it takes.
pub open spec fn parse_tag(b: Seq<u8>, pos: nat, o: ByteOrder) -> Result<(TagView, nat), Error> {
    if pos + 1 > b.len() {
        Err(incomplete(b, pos, 1))
    } else if b[pos as int] == 0 || b[pos as int] > 12 {
        Err(Error::ParseError(ParseErrorKind::InvalidTypeId))
    } else {
        match parse_text(b, pos + 1, o) {
            Err(e) => Err(e),
            Ok((n, c1)) => match parse_payload(b, pos + 1 + c1, b[pos as int], o) {
                Err(e) => Err(e),
                Ok((t, c2)) => Ok((t.with_name(Some(n)), 1 + c1 + c2)),
            },
        }
    }
}

/// The tree that the bytes `b` hold: one named tag that takes all of them.
pub open spec fn decode(b: Seq<u8>, o: ByteOrder) -> Result<TagView, Error> {
    match parse_tag(b, 0, o) {
        Err(e) => Err(e),
        Ok((t, c)) => if c == b.len() {
            Ok(t)
        } else {
            Err(Error::ParseError(ParseErrorKind::TrailingBytes))
        },
    }
}

pub open spec fn prepend_ints(a: Seq<int>, r: Result<Seq<int>, Error>) -> Result<Seq<int>, Error> {
    match r {
        Ok(s) => Ok(a + s),
        Err(e) => Err(e),
    }
}

pub open spec fn prepend_tags(a: Seq<TagView>, k: nat, r: Result<(Seq<TagView>, nat), Error>) -> Result<
    (Seq<TagView>, nat),
    Error,
> {
    match r {
        Ok((ts, c)) => Ok((a + ts, k + c)),
        Err(e) => Err(e),
    }
}

pub open spec fn tag_result(r: Result<(Tag, usize), Error>) -> Result<(TagView, nat), Error> {
    match r {
        Ok((t, c)) => Ok((t@, c as nat)),
        Err(e) => Err(e),
    }
}

pub open spec fn tags_result(r: Result<(Vec<Tag>, usize), Error>) -> Result<
    (Seq<TagView>, nat),
    Error,
> {
    match r {
        Ok((ts, c)) => Ok((tags_view(ts@), c as nat)),
        Err(e) => Err(e),
    }
}

pub open spec fn decoded_result(r: Result<Tag, Error>) -> Result<TagView, Error> {
    match r {
        Ok(t) => Ok(t@),
        Err(e) => Err(e),
    }
}

pub open spec fn names_view(names: Seq<String>) -> Seq<Seq<char>> {
    names.map_values(|s: String| s@)
}

/// Reads the unsigned number in the `w` bytes at `pos`.
fn read_number(b: &[u8], pos: usize, w: usize, o: ByteOrder) -> (r: Result<u64, Error>)
    requires
        pos <= b@.len(),
        w <= 8,
    ensures
        match r {
            Ok(u) => read_uint(b@, pos as nat, w as nat, o) == Ok::<nat, Error>(u as nat) && pos + w
                <= b@.len() && u < pow256(w as nat),
            Err(e) => read_uint(b@, pos as nat, w as nat, o) == Err::<nat, Error>(e),
        },
{
    if w > b.len() - pos {
        Err(Error::Incomplete(w - (b.len() - pos)))
    } else {
        Ok(o.read(b, pos, w))
    }
}

/// Reads a name or a string at `pos`.
fn read_text(b: &[u8], pos: usize, o: ByteOrder) -> (r: Result<(String, usize), Error>)
    requires
        pos <= b@.len(),
    ensures
        match r {
            Ok((s, c)) => parse_text(b@, pos as nat, o) == Ok::<(Seq<char>, nat), Error>(
                (s@, c as nat),
            ) && pos + c <= b@.len(),
            Err(e) => parse_text(b@, pos as nat, o) == Err::<(Seq<char>, nat), Error>(e),
        },
{
    let _ = b.len();
    let len = match read_number(b, pos, 2, o) {
        Err(e) => {
            return Err(e);
        },
        Ok(u) => u,
    };
    proof {
        lemma_pow256_values();
    }
    let len = len as usize;
    let start = pos + 2;
    if len > b.len() - start {
        return Err(Error::Incomplete(len - (b.len() - start)));
    }
    let bytes = slice_subrange(b, start, start + len);
    match decode_text(bytes) {
        None => Err(Error::ParseError(ParseErrorKind::InvalidText)),
        Some(s) => Ok((s, 2 + len)),
    }
}


fn signed_i16(u: u64) -> (r: i16)
    requires
        u < pow256(2),
    ensures
        r as int == signed_of(u as nat, 2),
{
    proof {
        lemma_pow256_values();
    }
    if u >= 0x8000 {
        (u as i32 - 0x1_0000) as i16
    } else {
        u as i16
    }
}



/// Reads an array at `pos`: a count, then that many items of their width.
fn read_ints<T: WireInt>(b: &[u8], pos: usize, o: ByteOrder) -> (r: Result<(Vec<T>, usize), Error>)
    requires
        pos <= b@.len(),
    ensures
        match r {
            Ok((v, c)) => parse_array(b@, pos as nat, T::width(), o) == Ok::<(Seq<int>, nat), Error>(
                (ints_of(v@), c as nat),
            ) && pos + c <= b@.len(),
            Err(e) => parse_array(b@, pos as nat, T::width(), o) == Err::<(Seq<int>, nat), Error>(e),
        },
{
    let _ = b.len();
    let c = match read_number(b, pos, 4, o) {
        Err(e) => {
            return Err(e);
        },
        Ok(c) => c,
    };
    proof {
        lemma_pow256_values();
    }
    let n: u64 = if c >= 0x8000_0000 {
        0
    } else {
        c
    };
    let w = T::wire_width();
    let ghost total = parse_ints(b@, (pos + 4) as nat, n as nat, w as nat, o);
    let mut v: Vec<T> = Vec::new();
    let mut p: usize = pos + 4;
    let mut k: u64 = 0;
    proof {
        assert(ints_of(v@) =~= Seq::<int>::empty());
        assert(Seq::<int>::empty() + Seq::<int>::empty() =~= Seq::<int>::empty());
        match total {
            Ok(s) => {
                assert(Seq::<int>::empty() + s =~= s);
            },
            Err(_) => {},
        }
    }
    while k < n
        invariant
            pos + 4 <= b@.len(),
            p == pos + 4 + k * w,
            w as nat == T::width(),
            w == 1 || w == 4 || w == 8,
            p <= b@.len(),
            k <= n,
            n == count_of(c as nat),
            b@.len() <= usize::MAX,
            read_uint(b@, pos as nat, 4, o) == Ok::<nat, Error>(c as nat),
            total == parse_ints(b@, (pos + 4) as nat, n as nat, w as nat, o),
            total == prepend_ints(ints_of(v@), parse_ints(b@, p as nat, (n - k) as nat, w as nat, o)),
        decreases n - k,
    {
        let u = match read_number(b, p, w, o) {
            Err(e) => {
                proof {
                    assert(parse_ints(b@, p as nat, (n - k) as nat, w as nat, o) == Err::<Seq<int>, Error>(
                        e,
                    ));
                }
                return Err(e);
            },
            Ok(u) => u,
        };
        let ghost before = ints_of(v@);
        v.push(T::from_wire(u));
        proof {
            assert(ints_of(v@) =~= before.push(signed_of(u as nat, w as nat)));
            match parse_ints(b@, (p + w) as nat, (n - k - 1) as nat, w as nat, o) {
                Ok(rest) => {
                    assert(before + (seq![signed_of(u as nat, w as nat)] + rest) =~= before.push(
                        signed_of(u as nat, w as nat),
                    ) + rest);
                },
                Err(_) => {},
            }
        }
        p = p + w;
        k = k + 1;
    }
    proof {
        assert(ints_of(v@) + Seq::<int>::empty() =~= ints_of(v@));
    }
    Ok((v, p - pos))
}

/// Whether `n` is among `names`.
fn contains_name(names: &Vec<String>, n: &String) -> (r: bool)
    ensures
        r == names_view(names@).contains(n@),
{
    let mut i: usize = 0;
    while i < names.len()
        invariant
            i <= names.len(),
            forall|j: int| 0 <= j < i ==> names@[j]@ != n@,
        decreases names.len() - i,
    {
        if names[i] == *n {
            proof {
                assert(names_view(names@)[i as int] == n@);
            }
            return true;
        }
        i += 1;
    }
    proof {
        if names_view(names@).contains(n@) {
            let j = choose|j: int| 0 <= j < names_view(names@).len() && names_view(names@)[j] == n@;
            assert(names@[j]@ == n@);
        }
    }
    false
}

/// Reads the payload of type `id` at `pos`, as an unnamed tag.
fn read_payload(b: &[u8], pos: usize, id: u8, o: ByteOrder) -> (r: Result<(Tag, usize), Error>)
    requires
        pos <= b@.len(),
    ensures
        tag_result(r) == parse_payload(b@, pos as nat, id, o),
        r matches Ok((_, c)) ==> pos + c <= b@.len(),
    decreases clip(b@, pos as nat), 1nat, 0nat,
{
    let _ = b.len();
    proof {
        lemma_pow256_values();
    }
    if 1 <= id && id <= 6 {
        let w: usize = if id == 1 {
            1
        } else if id == 2 {
            2
        } else if id == 3 || id == 5 {
            4
        } else {
            8
        };
        let u = match read_number(b, pos, w, o) {
            Err(e) => {
                return Err(e);
            },
            Ok(u) => u,
        };
        let t = if id == 1 {
            Tag::Byte(None, i8::from_wire(u))
        } else if id == 2 {
            Tag::Short(None, signed_i16(u))
        } else if id == 3 {
            Tag::Int(None, i32::from_wire(u))
        } else if id == 4 {
            Tag::Long(None, i64::from_wire(u))
        } else if id == 5 {
            Tag::Float(None, u as u32)
        } else {
            Tag::Double(None, u)
        };
        Ok((t, w))
    } else if id == 7 {
        match read_ints::<i8>(b, pos, o) {
            Err(e) => Err(e),
            Ok((v, c)) => {
                proof {
                    assert(to_i8s(ints_of(v@)) =~= v@);
                }
                Ok((Tag::ByteArray(None, v), c))
            },
        }
    } else if id == 8 {
        match read_text(b, pos, o) {
            Err(e) => Err(e),
            Ok((s, c)) => Ok((Tag::String(None, s), c)),
        }
    } else if id == 9 {
        if pos >= b.len() {
            return Err(Error::Incomplete(1));
        }
        let eid = b[pos];
        if eid > 12 {
            return Err(Error::ParseError(ParseErrorKind::InvalidTypeId));
        }
        let c = match read_number(b, pos + 1, 4, o) {
            Err(e) => {
                return Err(e);
            },
            Ok(c) => c,
        };
        let n: u64 = if c >= 0x8000_0000 {
            0
        } else {
            c
        };
        if eid == 0 && n > 0 {
            return Err(Error::ParseError(ParseErrorKind::InvalidTypeId));
        }
        match read_elements(b, pos + 5, eid, n, o) {
            Err(e) => Err(e),
            Ok((ts, k)) => Ok((Tag::List(None, ts), 5 + k)),
        }
    } else if id == 10 {
        match read_children(b, pos, o) {
            Err(e) => Err(e),
            Ok((ts, k)) => Ok((Tag::Compound(None, ts), k)),
        }
    } else if id == 11 {
        match read_ints::<i32>(b, pos, o) {
            Err(e) => Err(e),
            Ok((v, c)) => {
                proof {
                    assert(to_i32s(ints_of(v@)) =~= v@);
                }
                Ok((Tag::IntArray(None, v), c))
            },
        }
    } else if id == 12 {
        match read_ints::<i64>(b, pos, o) {
            Err(e) => Err(e),
            Ok((v, c)) => {
                proof {
                    assert(to_i64s(ints_of(v@)) =~= v@);
                }
                Ok((Tag::LongArray(None, v), c))
            },
        }
    } else {
        Err(Error::ParseError(ParseErrorKind::InvalidTypeId))
    }
}

/// Reads `n` payloads of type `id` from `pos` on.
fn read_elements(b: &[u8], pos: usize, id: u8, n: u64, o: ByteOrder) -> (r: Result<
    (Vec<Tag>, usize),
    Error,
>)
    requires
        pos <= b@.len(),
    ensures
        tags_result(r) == parse_elements(b@, pos as nat, id, n as nat, o),
        r matches Ok((_, c)) ==> pos + c <= b@.len(),
    decreases clip(b@, pos as nat), 2nat, n,
{
    let _ = b.len();
    let ghost total = parse_elements(b@, pos as nat, id, n as nat, o);
    let mut ts: Vec<Tag> = Vec::new();
    let mut p: usize = pos;
    let mut k: u64 = 0;
    proof {
        match total {
            Ok((s, c)) => {
                assert(tags_view(ts@) + s =~= s);
            },
            Err(_) => {},
        }
    }
    while k < n
        invariant
            pos <= p <= b@.len(),
            b@.len() <= usize::MAX,
            k <= n,
            total == parse_elements(b@, pos as nat, id, n as nat, o),
            total == prepend_tags(
                tags_view(ts@),
                (p - pos) as nat,
                parse_elements(b@, p as nat, id, (n - k) as nat, o),
            ),
        decreases n - k,
    {
        let (t, c) = match read_payload(b, p, id, o) {
            Err(e) => {
                return Err(e);
            },
            Ok(x) => x,
        };
        let ghost before = tags_view(ts@);
        proof {
            lemma_tags_view_push(ts@, t);
        }
        ts.push(t);
        proof {
            match parse_elements(b@, (p + c) as nat, id, (n - k - 1) as nat, o) {
                Ok((rest, k2)) => {
                    assert(before + (seq![t@] + rest) =~= before.push(t@) + rest);
                },
                Err(_) => {},
            }
        }
        p = p + c;
        k = k + 1;
    }
    proof {
        assert(tags_view(ts@) + Seq::<TagView>::empty() =~= tags_view(ts@));
    }
    Ok((ts, p - pos))
}

/// Reads the children of a compound from `pos` on, up to and with the end byte.
#[verifier::rlimit(100)]
fn read_children(b: &[u8], pos: usize, o: ByteOrder) -> (r: Result<(Vec<Tag>, usize), Error>)
    requires
        pos <= b@.len(),
    ensures
        tags_result(r) == parse_children(b@, pos as nat, seq![], o),
        r matches Ok((_, c)) ==> pos + c <= b@.len(),
    decreases clip(b@, pos as nat), 0nat, 0nat,
{
    let _ = b.len();
    let ghost total = parse_children(b@, pos as nat, seq![], o);
    let mut ts: Vec<Tag> = Vec::new();
    let mut names: Vec<String> = Vec::new();
    let mut p: usize = pos;
    proof {
        assert(names_view(names@) =~= Seq::<Seq<char>>::empty());
        match total {
            Ok((s, c)) => {
                assert(tags_view(ts@) + s =~= s);
            },
            Err(_) => {},
        }
    }
    loop
        invariant
            pos <= p <= b@.len(),
            b@.len() <= usize::MAX,
            total == parse_children(b@, pos as nat, seq![], o),
            total == prepend_tags(
                tags_view(ts@),
                (p - pos) as nat,
                parse_children(b@, p as nat, names_view(names@), o),
            ),
        decreases b@.len() - p,
    {
        if p >= b.len() {
            return Err(Error::Incomplete(1));
        }
        let id = b[p];
        if id == 0 {
            proof {
                assert(tags_view(ts@) + Seq::<TagView>::empty() =~= tags_view(ts@));
            }
            return Ok((ts, p + 1 - pos));
        }
        if id > 12 {
            return Err(Error::ParseError(ParseErrorKind::InvalidTypeId));
        }
        let (n, c1) = match read_text(b, p + 1, o) {
            Err(e) => {
                return Err(e);
            },
            Ok(x) => x,
        };
        if contains_name(&names, &n) {
            return Err(Error::ParseError(ParseErrorKind::DuplicateName));
        }
        let (t, c2) = match read_payload(b, p + 1 + c1, id, o) {
            Err(e) => {
                return Err(e);
            },
            Ok(x) => x,
        };
        let ghost seen = names_view(names@);
        names.push(n.clone());
        let t = t.renamed(Some(n));
        let ghost before = tags_view(ts@);
        proof {
            assert(names_view(names@) =~= seen.push(n@));
            lemma_tags_view_push(ts@, t);
        }
        ts.push(t);
        proof {
            match parse_children(b@, (p + 1 + c1 + c2) as nat, seen.push(n@), o) {
                Ok((rest, k2)) => {
                    assert(before + (seq![t@] + rest) =~= before.push(t@) + rest);
                },
                Err(_) => {},
            }
        }
        p = p + 1 + c1 + c2;
    }
}

/// Reads a whole named tag at the start of `b`.
fn read_tag(b: &[u8], o: ByteOrder) -> (r: Result<(Tag, usize), Error>)
    ensures
        tag_result(r) == parse_tag(b@, 0, o),
        r matches Ok((_, c)) ==> c <= b@.len(),
{
    if b.len() == 0 {
        return Err(Error::Incomplete(1));
    }
    let id = b[0];
    if id == 0 || id > 12 {
        return Err(Error::ParseError(ParseErrorKind::InvalidTypeId));
    }
    let (n, c1) = match read_text(b, 1, o) {
        Err(e) => {
            return Err(e);
        },
        Ok(x) => x,
    };
    let (t, c2) = match read_payload(b, 1 + c1, id, o) {
        Err(e) => {
            return Err(e);
        },
        Ok(x) => x,
    };
    Ok((t.renamed(Some(n)), 1 + c1 + c2))
}

impl Tag {
    /// Returns the tag that `bytes` hold. The root tag must take all of them.
    pub fn from_bytes(bytes: &[u8], byte_order: ByteOrder) -> (r: Result<Tag, Error>)
        ensures
            decoded_result(r) == decode(bytes@, byte_order),
    {
        match read_tag(bytes, byte_order) {
            Err(e) => Err(e),
            Ok((t, c)) => if c == bytes.len() {
                Ok(t)
            } else {
                Err(Error::ParseError(ParseErrorKind::TrailingBytes))
            },
        }
    }
}

/// Bytes that begin with a type id outside `1..=12` are refused with a parse
/// error, whatever follows.
pub proof fn lemma_bad_root_id(b: Seq<u8>, o: ByteOrder)
    requires
        b.len() > 0,
        b[0] == 0 || b[0] > 12,
    ensures
        decode(b, o) == Err::<TagView, Error>(Error::ParseError(ParseErrorKind::InvalidTypeId)),
{
}

} // verus!
