use mcnbt::Tag;

fn name(s: &str) -> Option<String> {
    Some(s.to_string())
}

fn f32_text(b: u32) -> String {
    f32::from_bits(b).to_string()
}

fn f64_text(b: u64) -> String {
    f64::from_bits(b).to_string()
}

fn pretty(t: &Tag) -> String {
    t.pretty(&f32_text, &f64_text)
}

#[test]
fn scalars() {
    assert_eq!(pretty(&Tag::Byte(name("foo"), -42)), "TAG_Byte(\"foo\"): -42");
    assert_eq!(pretty(&Tag::Long(None, i64::MIN)), "TAG_Long: -9223372036854775808");
    assert_eq!(pretty(&Tag::Float(name("f"), 42.69f32.to_bits())), "TAG_Float(\"f\"): 42.69");
    assert_eq!(pretty(&Tag::Double(None, 0.5f64.to_bits())), "TAG_Double: 0.5");
    assert_eq!(pretty(&Tag::String(name("s"), "hi".to_string())), "TAG_String(\"s\"): 'hi'");
}

#[test]
fn compound_with_list() {
    let data = Tag::root(vec![
        Tag::Int(name("format_version"), 1),
        Tag::List(name("size"), vec![Tag::Int(None, 5), Tag::Int(None, 6)]),
    ]);
    let expected = "TAG_Compound(\"\"): 2 entries\n{\n   TAG_Int(\"format_version\"): 1\n   TAG_List(\"size\"): 2 entries\n   {\n      TAG_Int: 5\n      TAG_Int: 6\n   }\n}";
    assert_eq!(pretty(&data), expected);
}

fn truncated_lines(text: &str) -> (usize, Vec<String>) {
    let lines: Vec<String> = text.lines().map(|l| l.to_string()).collect();
    let entries = lines.iter().filter(|l| l.starts_with("   ") && !l.contains("more")).count();
    (entries, lines)
}

#[test]
fn hundred_item_arrays_show_fifty() {
    let arrays = vec![
        Tag::ByteArray(name("b"), (0..100).map(|i| i as i8).collect()),
        Tag::IntArray(name("i"), (0..100).collect()),
        Tag::LongArray(name("l"), (0..100).collect()),
    ];
    for a in arrays {
        let text = a.pretty_truncated(50, &f32_text, &f64_text);
        let (entries, lines) = truncated_lines(&text);
        assert_eq!(entries, 50);
        assert!(lines[1] == "{");
        assert_eq!(lines[2], "   0");
        assert_eq!(lines[51], "   49");
        assert_eq!(lines[52], "   [and 50 more]");
        assert_eq!(lines[53], "}");
        assert_eq!(lines.len(), 54);
        assert!(lines[0].ends_with(": 100 entries"));
    }
}

#[test]
fn default_limit_is_fifty_and_zero_shows_all() {
    let a = Tag::IntArray(None, (0..60).collect());
    assert!(pretty(&a).contains("   [and 10 more]\n}"));
    let all = a.pretty_truncated(0, &f32_text, &f64_text);
    assert!(!all.contains("more"));
    assert_eq!(all.lines().count(), 63);
}

#[test]
fn lists_are_truncated_too() {
    let l = Tag::List(None, (0..5).map(|i| Tag::Byte(None, i)).collect());
    let text = l.pretty_truncated(2, &f32_text, &f64_text);
    assert_eq!(text, "TAG_List: 5 entries\n{\n   TAG_Byte: 0\n   TAG_Byte: 1\n   [and 3 more]\n}");
}

#[test]
fn multi_line_text_in_a_list_is_indented_on_every_line() {
    let l = Tag::List(None, vec![Tag::String(None, "a\nb".to_string())]);
    assert_eq!(pretty(&l), "TAG_List: 1 entries\n{\n   TAG_String: 'a\n   b'\n}");
}

#[test]
fn carriage_returns_before_line_breaks_are_dropped() {
    let c = Tag::Compound(None, vec![Tag::String(name("k\r\nv"), "x\r\ny\r".to_string())]);
    assert_eq!(
        pretty(&c),
        "TAG_Compound: 1 entries\n{\n   TAG_String(\"k\n   v\"): 'x\n   y\r'\n}"
    );
}

#[test]
fn nested_multi_line_text_gets_one_indent_per_level() {
    let inner = Tag::List(name("in"), vec![Tag::String(None, "p\nq".to_string())]);
    let outer = Tag::root(vec![inner]);
    assert_eq!(
        pretty(&outer),
        "TAG_Compound(\"\"): 1 entries\n{\n   TAG_List(\"in\"): 1 entries\n   {\n      TAG_String: 'p\n      q'\n   }\n}"
    );
}

#[test]
fn indent_is_a_parameter() {
    let data = Tag::root(vec![Tag::IntArray(name("a"), vec![1, 2, 3])]);
    let text = data.pretty_with(2, "\t", &f32_text, &f64_text);
    assert_eq!(
        text,
        "TAG_Compound(\"\"): 1 entries\n{\n\tTAG_Int_Array(\"a\"): 3 entries\n\t{\n\t\t1\n\t\t2\n\t\t[and 1 more]\n\t}\n}"
    );
}
