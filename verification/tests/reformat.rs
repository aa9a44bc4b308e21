use brace_writer::machine::{indent, step, BraceWriter, Mode, UnbalancedBraces};

#[test]
fn basic_output() {
    let text = "\n        if (apple == 0)\n        {\n            \n            whatever;\n            if (i == 1) { printf( \"hello\"); } }\n\n            \n";
    let mut writer = BraceWriter::new();
    let res = writer.write(text.as_bytes());
    assert!(res.is_ok());
}

#[test]
fn braces_forced_onto_own_lines() {
    let input = "if (x == 0)\n{\n    foo();\n    if (y == 1) { bar(); } }\n";
    let mut writer = BraceWriter::new();
    let out = writer.write(input.as_bytes()).unwrap();
    let expected = "if (x == 0)\n{\n\tfoo();\n\tif (y == 1) \n\t{\n\t\tbar(); \n\t}\n}\n";
    assert_eq!(out, expected.as_bytes());
    assert_eq!(writer.depth(), 0);
}

#[test]
fn empty_braces() {
    let mut writer = BraceWriter::new();
    let out = writer.write(b"{}").unwrap();
    assert_eq!(out, b"{\n}\n");
    assert_eq!(writer.depth(), 0);
}

#[test]
fn leading_blank_lines_dropped() {
    let mut writer = BraceWriter::new();
    let out = writer.write(b"  \n  \n{a}").unwrap();
    assert_eq!(out, b"{\n\ta\n}\n");
    assert_eq!(writer.depth(), 0);
}

#[test]
fn unmatched_close_is_an_error() {
    let mut writer = BraceWriter::new();
    assert_eq!(writer.write(b"}"), Err(UnbalancedBraces));
}

#[test]
fn error_leaves_the_filter_usable() {
    let mut writer = BraceWriter::new();
    let out = writer.write(b"{x").unwrap();
    assert_eq!(out, b"{\n\tx");
    assert_eq!(writer.depth(), 1);
    assert_eq!(writer.write(b"}}"), Err(UnbalancedBraces));
    assert_eq!(writer.depth(), 1);
    let out = writer.write(b"\n}").unwrap();
    assert_eq!(out, b"\n}\n");
    assert_eq!(writer.depth(), 0);
}

#[test]
fn chunk_boundaries_do_not_matter() {
    let input: &[u8] = b"if (x == 0)\n{\n    foo();\n    if (y == 1) { bar(); } }\n";
    let mut whole = BraceWriter::new();
    let expected = whole.write(input).unwrap();
    for cut in 0..=input.len() {
        let mut split = BraceWriter::new();
        let mut out = split.write(&input[..cut]).unwrap();
        out.extend_from_slice(&split.write(&input[cut..]).unwrap());
        assert_eq!(out, expected);
        assert_eq!(split.depth(), whole.depth());
    }
}

#[test]
fn one_byte_at_a_time() {
    let input: &[u8] = b"{\r\n  a { b }\n}";
    let mut whole = BraceWriter::new();
    let expected = whole.write(input).unwrap();
    let mut dribble = BraceWriter::new();
    let mut out = Vec::new();
    for b in input {
        out.extend_from_slice(&dribble.write(std::slice::from_ref(b)).unwrap());
    }
    assert_eq!(out, expected);
    assert_eq!(dribble.depth(), whole.depth());
}

#[test]
fn reformatting_is_idempotent() {
    let input: &[u8] = b"\tif (x == 0)  \n{\n    foo();\n    if (y == 1) { bar(); } }\n";
    let mut first = BraceWriter::new();
    let once = first.write(input).unwrap();
    let mut second = BraceWriter::new();
    let twice = second.write(&once).unwrap();
    assert_eq!(twice, once);
    assert_eq!(second.depth(), first.depth());
}

#[test]
fn mid_line_whitespace_kept_and_newlines_normalized() {
    let mut writer = BraceWriter::new();
    let out = writer.write(b"a b\tc\r\nd\re").unwrap();
    assert_eq!(out, b"a b\tc\nd\ne");
}

#[test]
fn bytes_beyond_ascii_pass_through() {
    let mut writer = BraceWriter::new();
    let out = writer.write(b"x\xe2\x98\x83y").unwrap();
    assert_eq!(out, b"x\xe2\x98\x83y");
    let mut writer = BraceWriter::new();
    let out = writer.write(b"\xa0\x85").unwrap();
    assert_eq!(out, b"\xa0\x85");
}

#[test]
fn balanced_input_returns_depth_to_zero() {
    let mut writer = BraceWriter::new();
    writer.write(b"{ { x } { } }").unwrap();
    assert_eq!(writer.depth(), 0);
}

#[test]
fn indent_pushes_one_tab_per_level() {
    let mut out = vec![b'a'];
    indent(&mut out, 3);
    assert_eq!(out, b"a\t\t\t");
    indent(&mut out, 0);
    assert_eq!(out, b"a\t\t\t");
}

#[test]
fn step_opens_a_block() {
    let mut out = Vec::new();
    let next = step(Mode::LineStart, 0, b'{', &mut out).unwrap();
    assert_eq!(next, (Mode::LineStart, 1));
    assert_eq!(out, b"{\n");
}

#[test]
fn step_refuses_underflow() {
    let mut out = Vec::new();
    assert_eq!(step(Mode::LineStart, 0, b'}', &mut out), Err(UnbalancedBraces));
    assert_eq!(out, b"");
    assert_eq!(step(Mode::MidLine, 0, b'}', &mut out), Err(UnbalancedBraces));
    assert_eq!(out, b"");
}
