use vstd::prelude::*;
use vstd::string::StringExecFns;

use crate::ints::{ints_of, WireInt};
use crate::tag::{lemma_tags_view, tags_view, Tag, TagView};

verus! {

/// How many items of an array, list or compound `Tag::pretty` shows.
pub const ABBREVIATE_ARRAY_SIZE: u64 = 50;

/// What each level of nesting puts in front of a line, unless the caller
/// gives another indent.
pub const INDENT: &'static str = "   ";

pub open spec fn digit_char(d: nat) -> char {
    if d == 0 {
        '0'
    } else if d == 1 {
        '1'
    } else if d == 2 {
        '2'
    } else if d == 3 {
        '3'
    } else if d == 4 {
        '4'
    } else if d == 5 {
        '5'
    } else if d == 6 {
        '6'
    } else if d == 7 {
        '7'
    } else if d == 8 {
        '8'
    } else {
        '9'
    }
}

/// The decimal digits of `n`.
pub open spec fn digits(n: nat) -> Seq<char>
    decreases n,
{
    if n < 10 {
        seq![digit_char(n)]
    } else {
        digits(n / 10) + seq![digit_char(n % 10)]
    }
}

/// The decimal text of `v`, with a minus sign where it is negative.
pub open spec fn int_text(v: int) -> Seq<char> {
    if v < 0 {
        seq!['-'] + digits((-v) as nat)
    } else {
        digits(v as nat)
    }
}

/// The kind of a tag, then its quoted name in parentheses where it has one.
pub open spec fn header(t: TagView) -> Seq<char> {
    t.kind_name() + match t.name() {
        Some(n) => "(\""@ + n + "\")"@,
        None => seq![],
    }
}

/// How many of `len` items are shown under the limit `max` (0: no limit).
pub open spec fn shown(len: nat, max: nat) -> nat {
    if max == 0 || len <= max {
        len
    } else {
        max
    }
}

/// A line without the carriage return that ends it, if one does.
pub open spec fn strip_cr(l: Seq<char>) -> Seq<char> {
    if l.len() > 0 && l.last() == '\r' {
        l.drop_last()
    } else {
        l
    }
}

/// The lines of `s`, where `cur` is the start of the first one: split at
/// `\n`, a `\r` right before the `\n` dropped, and no empty line after a
/// final `\n`.
pub open spec fn lines_from(s: Seq<char>, cur: Seq<char>) -> Seq<Seq<char>>
    decreases s.len(),
{
    if s.len() == 0 {
        if cur.len() == 0 {
            seq![]
        } else {
            seq![cur]
        }
    } else if s[0] == '\n' {
        seq![strip_cr(cur)] + lines_from(s.drop_first(), seq![])
    } else {
        lines_from(s.drop_first(), cur.push(s[0]))
    }
}

/// The lines of a text.
pub open spec fn text_lines(s: Seq<char>) -> Seq<Seq<char>> {
    lines_from(s, seq![])
}

/// Each line with `ind` in front of it and a line break after it.
pub open spec fn indent_lines(ls: Seq<Seq<char>>, ind: Seq<char>) -> Seq<char>
    decreases ls.len(),
{
    if ls.len() == 0 {
        seq![]
    } else {
        ind + ls[0] + "\n"@ + indent_lines(ls.drop_first(), ind)
    }
}

/// The line that counts the items left out, if any are.
pub open spec fn more_line(len: nat, max: nat, ind: Seq<char>) -> Seq<char> {
    if shown(len, max) < len {
        ind + "[and "@ + int_text(len - shown(len, max)) + " more]\n"@
    } else {
        seq![]
    }
}

/// The first `n` numbers of `s`, one per line, each after `ind`.
pub open spec fn items_text(s: Seq<int>, n: nat, ind: Seq<char>) -> Seq<char>
    decreases s.len(),
{
    if s.len() == 0 || n == 0 {
        seq![]
    } else {
        ind + int_text(s[0]) + "\n"@ + items_text(s.drop_first(), (n - 1) as nat, ind)
    }
}

/// The count of a collection, then its shown entries and the line that
/// counts the rest between braces.
pub open spec fn block(len: nat, body: Seq<char>, max: nat, ind: Seq<char>) -> Seq<char> {
    ": "@ + int_text(len as int) + " entries\n{\n"@ + body + more_line(len, max, ind) + "}"@
}

/// The text of an array of numbers.
pub open spec fn array_text(s: Seq<int>, max: nat, ind: Seq<char>) -> Seq<char> {
    block(s.len(), items_text(s, shown(s.len(), max), ind), max, ind)
}

/// The text of a tag: at most `max` items of each collection (0: all), and
/// each line of a child's own text indented once more by `ind`. `ft` and
/// `dt` give the text of a float from its bits.
pub open spec fn render(
    t: TagView,
    max: nat,
    ind: Seq<char>,
    ft: spec_fn(u32) -> Seq<char>,
    dt: spec_fn(u64) -> Seq<char>,
) -> Seq<char>
    decreases t, 1nat,
{
    header(t) + match t {
        TagView::Byte(_, v) => ": "@ + int_text(v as int),
        TagView::Short(_, v) => ": "@ + int_text(v as int),
        TagView::Int(_, v) => ": "@ + int_text(v as int),
        TagView::Long(_, v) => ": "@ + int_text(v as int),
        TagView::Float(_, v) => ": "@ + ft(v),
        TagView::Double(_, v) => ": "@ + dt(v),
        TagView::ByteArray(_, v) => array_text(ints_of(v), max, ind),
        TagView::String(_, s) => ": '"@ + s + "'"@,
        TagView::List(_, ts) => block(
            ts.len(),
            children_text(ts, shown(ts.len(), max), max, ind, ft, dt),
            max,
            ind,
        ),
        TagView::Compound(_, ts) => block(
            ts.len(),
            children_text(ts, shown(ts.len(), max), max, ind, ft, dt),
            max,
            ind,
        ),
        TagView::IntArray(_, v) => array_text(ints_of(v), max, ind),
        TagView::LongArray(_, v) => array_text(ints_of(v), max, ind),
    }
}

/// The first `n` tags of `ts`: every line of each one's own text, after `ind`.
pub open spec fn children_text(
    ts: Seq<TagView>,
    n: nat,
    max: nat,
    ind: Seq<char>,
    ft: spec_fn(u32) -> Seq<char>,
    dt: spec_fn(u64) -> Seq<char>,
) -> Seq<char>
    decreases ts, 0nat,
{
    if ts.len() == 0 || n == 0 {
        seq![]
    } else {
        indent_lines(text_lines(render(ts[0], max, ind, ft, dt)), ind) + children_text(
            ts.drop_first(),
            (n - 1) as nat,
            max,
            ind,
            ft,
            dt,
        )
    }
}

/// The text that a float renderer gives for each bit pattern.
pub open spec fn f32_texts<F: Fn(u32) -> String>(f: F) -> spec_fn(u32) -> Seq<char> {
    |x: u32| (choose|s: String| call_ensures(f, (x,), s))@
}

pub open spec fn f64_texts<D: Fn(u64) -> String>(d: D) -> spec_fn(u64) -> Seq<char> {
    |x: u64| (choose|s: String| call_ensures(d, (x,), s))@
}

/// The renderer takes every bit pattern and gives one text for each.
pub open spec fn renders_f32<F: Fn(u32) -> String>(f: F) -> bool {
    &&& forall|x: u32| #[trigger] call_requires(f, (x,))
    &&& forall|x: u32, s: String| #[trigger] call_ensures(f, (x,), s) ==> s@ == f32_texts(f)(x)
}

pub open spec fn renders_f64<D: Fn(u64) -> String>(d: D) -> bool {
    &&& forall|x: u64| #[trigger] call_requires(d, (x,))
    &&& forall|x: u64, s: String| #[trigger] call_ensures(d, (x,), s) ==> s@ == f64_texts(d)(x)
}

pub open spec fn texts_of(ls: Seq<String>) -> Seq<Seq<char>> {
    ls.map_values(|l: String| l@)
}

/// Relies on `str::lines`: the lines of `s`, split at `\n` or `\r\n`, without
/// their line endings; a final line ending adds no empty line.
#[verifier::external_body]
fn lines_of(s: &str) -> (r: Vec<String>)
    ensures
        texts_of(r@) == text_lines(s@),
{
    s.lines().map(String::from).collect()
}

fn digit_str(d: u64) -> (r: &'static str)
    requires
        d < 10,
    ensures
        r@ == seq![digit_char(d as nat)],
{
    proof {
        reveal_strlit("0");
        reveal_strlit("1");
        reveal_strlit("2");
        reveal_strlit("3");
        reveal_strlit("4");
        reveal_strlit("5");
        reveal_strlit("6");
        reveal_strlit("7");
        reveal_strlit("8");
        reveal_strlit("9");
    }
    if d == 0 {
        "0"
    } else if d == 1 {
        "1"
    } else if d == 2 {
        "2"
    } else if d == 3 {
        "3"
    } else if d == 4 {
        "4"
    } else if d == 5 {
        "5"
    } else if d == 6 {
        "6"
    } else if d == 7 {
        "7"
    } else if d == 8 {
        "8"
    } else {
        "9"
    }
}

/// Appends the decimal digits of `n`.
fn push_digits(out: &mut String, n: u64)
    ensures
        final(out)@ == old(out)@ + digits(n as nat),
    decreases n,
{
    if n >= 10 {
        push_digits(out, n / 10);
    }
    out.append(digit_str(n % 10));
    proof {
        if n >= 10 {
            assert(final(out)@ =~= old(out)@ + digits(n as nat));
        } else {
            assert(final(out)@ =~= old(out)@ + digits(n as nat));
        }
    }
}

/// Appends the decimal text of `v`.
fn push_int(out: &mut String, v: i64)
    ensures
        final(out)@ == old(out)@ + int_text(v as int),
{
    if v < 0 {
        proof {
            reveal_strlit("-");
        }
        out.append("-");
        let m = (-(v as i128)) as u64;
        push_digits(out, m);
        proof {
            assert(final(out)@ =~= old(out)@ + int_text(v as int));
        }
    } else {
        push_digits(out, v as u64);
    }
}

/// Appends the first `n` numbers of `v`, one per line, each after `ind`.
fn write_items<T: WireInt>(v: &Vec<T>, n: usize, ind: &str, out: &mut String)
    requires
        n <= v.len(),
    ensures
        final(out)@ == old(out)@ + items_text(ints_of(v@), n as nat, ind@),
{
    let ghost s = ints_of(v@);
    let ghost start = old(out)@;
    let mut i: usize = 0;
    proof {
        assert(s.skip(0) =~= s);
    }
    while i < n
        invariant
            i <= n,
            n <= v.len(),
            s == ints_of(v@),
            out@ + items_text(s.skip(i as int), (n - i) as nat, ind@) == start + items_text(
                s,
                n as nat,
                ind@,
            ),
        decreases n - i,
    {
        let ghost before = out@;
        out.append(ind);
        push_int(out, v[i].to_i64());
        out.append("\n");
        proof {
            let rest = s.skip(i as int);
            assert(rest.drop_first() =~= s.skip(i + 1));
            assert(rest[0] == v@[i as int].value());
            let line = ind@ + int_text(v@[i as int].value()) + "\n"@;
            assert(items_text(rest, (n - i) as nat, ind@) == line + items_text(
                s.skip(i + 1),
                (n - i - 1) as nat,
                ind@,
            ));
            assert(out@ + items_text(s.skip(i + 1), (n - i - 1) as nat, ind@) =~= before
                + items_text(rest, (n - i) as nat, ind@));
        }
        i += 1;
    }
    proof {
        assert(items_text(s.skip(i as int), 0, ind@) == Seq::<char>::empty());
        assert(out@ =~= out@ + Seq::<char>::empty());
    }
}

/// Appends the text of an array of numbers.
fn write_array<T: WireInt>(v: &Vec<T>, max: u64, ind: &str, out: &mut String)
    ensures
        final(out)@ == old(out)@ + array_text(ints_of(v@), max as nat, ind@),
{
    write_open(v.len(), out);
    write_items(v, shown_count(v.len(), max), ind, out);
    write_close(v.len(), max, ind, out);
    proof {
        assert(final(out)@ =~= old(out)@ + array_text(ints_of(v@), max as nat, ind@));
    }
}

fn shown_count(len: usize, max: u64) -> (r: usize)
    ensures
        r == shown(len as nat, max as nat),
        r <= len,
{
    if max == 0 || len as u64 <= max {
        len
    } else {
        max as usize
    }
}

/// Appends the kind and the quoted name of `t`.
fn write_header(t: &Tag, out: &mut String)
    ensures
        final(out)@ == old(out)@ + header(t@),
{
    out.append(t.name());
    match t.tag_name() {
        Some(n) => {
            out.append("(\"");
            out.append(n.as_str());
            out.append("\")");
            proof {
                assert(final(out)@ =~= old(out)@ + header(t@));
            }
        },
        None => {
            proof {
                assert(final(out)@ =~= old(out)@ + header(t@));
            }
        },
    }
}

/// Appends the count line and the opening brace of a collection.
fn write_open(len: usize, out: &mut String)
    ensures
        final(out)@ == old(out)@ + ": "@ + int_text(len as int) + " entries\n{\n"@,
{
    out.append(": ");
    push_digits(out, len as u64);
    out.append(" entries\n{\n");
}

/// Appends the line that counts the items left out, then the closing brace.
fn write_close(len: usize, max: u64, ind: &str, out: &mut String)
    ensures
        final(out)@ == old(out)@ + more_line(len as nat, max as nat, ind@) + "}"@,
{
    let n = shown_count(len, max);
    if n < len {
        out.append(ind);
        out.append("[and ");
        push_digits(out, (len - n) as u64);
        out.append(" more]\n");
    }
    out.append("}");
    proof {
        assert(final(out)@ =~= old(out)@ + more_line(len as nat, max as nat, ind@) + "}"@);
    }
}

/// Appends each line of `ls` after `ind`, each followed by a line break.
fn write_lines(ls: &Vec<String>, ind: &str, out: &mut String)
    ensures
        final(out)@ == old(out)@ + indent_lines(texts_of(ls@), ind@),
{
    let ghost s = texts_of(ls@);
    let ghost start = old(out)@;
    let mut i: usize = 0;
    proof {
        assert(s.skip(0) =~= s);
    }
    while i < ls.len()
        invariant
            i <= ls.len(),
            s == texts_of(ls@),
            out@ + indent_lines(s.skip(i as int), ind@) == start + indent_lines(s, ind@),
        decreases ls.len() - i,
    {
        let ghost before = out@;
        out.append(ind);
        out.append(ls[i].as_str());
        out.append("\n");
        proof {
            let rest = s.skip(i as int);
            assert(rest.drop_first() =~= s.skip(i + 1));
            assert(rest[0] == ls@[i as int]@);
            let line = ind@ + ls@[i as int]@ + "\n"@;
            assert(indent_lines(rest, ind@) == line + indent_lines(s.skip(i + 1), ind@));
            assert(out@ + indent_lines(s.skip(i + 1), ind@) =~= before + indent_lines(rest, ind@));
        }
        i += 1;
    }
    proof {
        assert(indent_lines(s.skip(i as int), ind@) == Seq::<char>::empty());
        assert(out@ =~= out@ + Seq::<char>::empty());
    }
}

/// Appends the text of the first `n` tags of `ts`, each line indented.
fn write_children<F: Fn(u32) -> String, D: Fn(u64) -> String>(
    ts: &Vec<Tag>,
    n: usize,
    max: u64,
    ind: &str,
    f: &F,
    d: &D,
    out: &mut String,
)
    requires
        n <= ts.len(),
        renders_f32(*f),
        renders_f64(*d),
    ensures
        final(out)@ == old(out)@ + children_text(
            tags_view(ts@),
            n as nat,
            max as nat,
            ind@,
            f32_texts(*f),
            f64_texts(*d),
        ),
    decreases ts, 0nat,
{
    let ghost vs = tags_view(ts@);
    let ghost ft = f32_texts(*f);
    let ghost dt = f64_texts(*d);
    let ghost start = old(out)@;
    proof {
        lemma_tags_view(ts@);
        assert(vs.skip(0) =~= vs);
    }
    let mut i: usize = 0;
    while i < n
        invariant
            i <= n,
            n <= ts.len(),
            vs == tags_view(ts@),
            vs.len() == ts.len(),
            forall|j: int| 0 <= j < ts.len() ==> #[trigger] vs[j] == ts@[j]@,
            ft == f32_texts(*f),
            dt == f64_texts(*d),
            renders_f32(*f),
            renders_f64(*d),
            out@ + children_text(vs.skip(i as int), (n - i) as nat, max as nat, ind@, ft, dt)
                == start + children_text(vs, n as nat, max as nat, ind@, ft, dt),
        decreases n - i,
    {
        let ghost before = out@;
        let mut text = String::new();
        proof {
            assert(decreases_to!(ts => ts[i as int]));
        }
        write_pretty(&ts[i], max, ind, f, d, &mut text);
        proof {
            assert(text@ =~= render(vs[i as int], max as nat, ind@, ft, dt));
        }
        let ls = lines_of(text.as_str());
        write_lines(&ls, ind, out);
        proof {
            let rest = vs.skip(i as int);
            assert(rest.drop_first() =~= vs.skip(i + 1));
            assert(rest[0] == vs[i as int]);
            let item = indent_lines(text_lines(render(vs[i as int], max as nat, ind@, ft, dt)), ind@);
            assert(children_text(rest, (n - i) as nat, max as nat, ind@, ft, dt) == item
                + children_text(vs.skip(i + 1), (n - i - 1) as nat, max as nat, ind@, ft, dt));
            assert(out@ == before + item);
            assert(out@ + children_text(vs.skip(i + 1), (n - i - 1) as nat, max as nat, ind@, ft, dt)
                =~= before + children_text(rest, (n - i) as nat, max as nat, ind@, ft, dt));
        }
        i += 1;
    }
    proof {
        assert(children_text(vs.skip(i as int), 0, max as nat, ind@, ft, dt) == Seq::<
            char,
        >::empty());
        assert(out@ =~= out@ + Seq::<char>::empty());
    }
}

/// Appends the payload text of a list or compound with tags `ts`.
fn write_collection<F: Fn(u32) -> String, D: Fn(u64) -> String>(
    ts: &Vec<Tag>,
    max: u64,
    ind: &str,
    f: &F,
    d: &D,
    out: &mut String,
)
    requires
        renders_f32(*f),
        renders_f64(*d),
    ensures
        final(out)@ == old(out)@ + block(
            ts.len() as nat,
            children_text(
                tags_view(ts@),
                shown(ts.len() as nat, max as nat),
                max as nat,
                ind@,
                f32_texts(*f),
                f64_texts(*d),
            ),
            max as nat,
            ind@,
        ),
    decreases ts, 1nat,
{
    write_open(ts.len(), out);
    write_children(ts, shown_count(ts.len(), max), max, ind, f, d, out);
    write_close(ts.len(), max, ind, out);
    proof {
        lemma_tags_view(ts@);
        assert(final(out)@ =~= old(out)@ + block(
            ts.len() as nat,
            children_text(
                tags_view(ts@),
                shown(ts.len() as nat, max as nat),
                max as nat,
                ind@,
                f32_texts(*f),
                f64_texts(*d),
            ),
            max as nat,
            ind@,
        ));
    }
}

/// Appends the text of `t`.
fn write_pretty<F: Fn(u32) -> String, D: Fn(u64) -> String>(
    t: &Tag,
    max: u64,
    ind: &str,
    f: &F,
    d: &D,
    out: &mut String,
)
    requires
        renders_f32(*f),
        renders_f64(*d),
    ensures
        final(out)@ == old(out)@ + render(t@, max as nat, ind@, f32_texts(*f), f64_texts(*d)),
    decreases t, 2nat,
{
    let ghost ft = f32_texts(*f);
    let ghost dt = f64_texts(*d);
    write_header(t, out);
    match t {
        Tag::Byte(_, v) => {
            out.append(": ");
            push_int(out, *v as i64);
        },
        Tag::Short(_, v) => {
            out.append(": ");
            push_int(out, *v as i64);
        },
        Tag::Int(_, v) => {
            out.append(": ");
            push_int(out, *v as i64);
        },
        Tag::Long(_, v) => {
            out.append(": ");
            push_int(out, *v);
        },
        Tag::Float(_, v) => {
            out.append(": ");
            let s = f(*v);
            out.append(s.as_str());
        },
        Tag::Double(_, v) => {
            out.append(": ");
            let s = d(*v);
            out.append(s.as_str());
        },
        Tag::ByteArray(_, v) => write_array(v, max, ind, out),
        Tag::String(_, s) => {
            out.append(": '");
            out.append(s.as_str());
            out.append("'");
        },
        Tag::List(_, ts) => {
            write_collection(ts, max, ind, f, d, out);
            proof {
                lemma_tags_view(ts@);
            }
        },
        Tag::Compound(_, ts) => {
            write_collection(ts, max, ind, f, d, out);
            proof {
                lemma_tags_view(ts@);
            }
        },
        Tag::IntArray(_, v) => write_array(v, max, ind, out),
        Tag::LongArray(_, v) => write_array(v, max, ind, out),
    }
    proof {
        assert(out@ =~= old(out)@ + render(t@, max as nat, ind@, ft, dt));
    }
}

impl Tag {
    /// Returns a text that shows the tag and everything in it, one item per
    /// line, with at most [`ABBREVIATE_ARRAY_SIZE`] items of each array, list
    /// or compound and [`INDENT`] per level. `f32_text` and `f64_text` give
    /// the text of a float from its bits.
    pub fn pretty<F: Fn(u32) -> String, D: Fn(u64) -> String>(
        &self,
        f32_text: &F,
        f64_text: &D,
    ) -> (r: String)
        requires
            renders_f32(*f32_text),
            renders_f64(*f64_text),
        ensures
            r@ == render(
                self@,
                ABBREVIATE_ARRAY_SIZE as nat,
                INDENT@,
                f32_texts(*f32_text),
                f64_texts(*f64_text),
            ),
    {
        self.pretty_with(ABBREVIATE_ARRAY_SIZE, INDENT, f32_text, f64_text)
    }

    /// Returns the text of [`Tag::pretty`] with at most `max_items` items of
    /// each array, list or compound; `0` shows them all.
    pub fn pretty_truncated<F: Fn(u32) -> String, D: Fn(u64) -> String>(
        &self,
        max_items: u64,
        f32_text: &F,
        f64_text: &D,
    ) -> (r: String)
        requires
            renders_f32(*f32_text),
            renders_f64(*f64_text),
        ensures
            r@ == render(self@, max_items as nat, INDENT@, f32_texts(*f32_text), f64_texts(*f64_text)),
    {
        self.pretty_with(max_items, INDENT, f32_text, f64_text)
    }

    /// Returns the text of [`Tag::pretty_truncated`] with `indent` in front of
    /// each line once per level of nesting.
    pub fn pretty_with<F: Fn(u32) -> String, D: Fn(u64) -> String>(
        &self,
        max_items: u64,
        indent: &str,
        f32_text: &F,
        f64_text: &D,
    ) -> (r: String)
        requires
            renders_f32(*f32_text),
            renders_f64(*f64_text),
        ensures
            r@ == render(self@, max_items as nat, indent@, f32_texts(*f32_text), f64_texts(*f64_text)),
    {
        let mut out = String::new();
        write_pretty(self, max_items, indent, f32_text, f64_text, &mut out);
        proof {
            assert(out@ =~= Seq::<char>::empty() + out@);
        }
        out
    }
}

} // verus!
