use cat::config::Options;
use cat::writer::{write_file, CatWriter, Counter};

fn opts() -> Options {
    Options::none()
}

fn write_one(options: Options, seg: &[u8]) -> Vec<u8> {
    let mut w = CatWriter::new(options);
    w.write(&seg.to_vec())
}

#[test]
fn counter_starts_at_zero_and_advances() {
    let mut c = Counter::new();
    assert_eq!(c.value, 0);
    assert_eq!(c.next(), 1);
    assert_eq!(c.next(), 2);
    assert_eq!(c.value, 2);
}

#[test]
fn plain_bytes_pass_through() {
    let out = write_one(opts(), b"hello world\n");
    assert_eq!(out, b"hello world\n".to_vec());
}

#[test]
fn default_passes_control_bytes_through() {
    for b in 0u8..=255u8 {
        let out = write_one(opts(), &[b]);
        assert_eq!(out, vec![b]);
    }
}

#[test]
fn show_tabs_marks_tab() {
    let mut o = opts();
    o.show_tabs = true;
    assert_eq!(write_one(o, b"\t"), b"^I".to_vec());
    assert_eq!(write_one(o, b"a\tb\n"), b"a^Ib\n".to_vec());
}

#[test]
fn show_ends_marks_newline() {
    let mut o = opts();
    o.show_ends = true;
    assert_eq!(write_one(o, b"ab\n"), b"ab$\n".to_vec());
    assert_eq!(write_one(o, b"\n"), b"$\n".to_vec());
}

#[test]
fn show_tabs_and_ends_compose() {
    let mut o = opts();
    o.show_tabs = true;
    o.show_ends = true;
    assert_eq!(write_one(o, b"a\tb\n"), b"a^Ib$\n".to_vec());
}

#[test]
fn nonprinting_low_control_bytes() {
    let mut o = opts();
    o.show_nonprinting = true;
    assert_eq!(write_one(o, &[0x01]), b"^A".to_vec());
    assert_eq!(write_one(o, &[0x00]), b"^@".to_vec());
    assert_eq!(write_one(o, &[0x1F]), b"^_".to_vec());
}

#[test]
fn nonprinting_leaves_tab_and_newline_alone() {
    let mut o = opts();
    o.show_nonprinting = true;
    assert_eq!(write_one(o, b"\t"), b"\t".to_vec());
    assert_eq!(write_one(o, b"\n"), b"\n".to_vec());
}

#[test]
fn nonprinting_del_byte() {
    let mut o = opts();
    o.show_nonprinting = true;
    assert_eq!(write_one(o, &[0x7F]), b"^?".to_vec());
}

#[test]
fn nonprinting_high_bytes() {
    let mut o = opts();
    o.show_nonprinting = true;
    assert_eq!(write_one(o, &[0x80]), b"M-^@".to_vec());
    assert_eq!(write_one(o, &[0x9F]), b"M-^_".to_vec());
    assert_eq!(write_one(o, &[0xA0]), b"M- ".to_vec());
    assert_eq!(write_one(o, &[0xFE]), b"M-~".to_vec());
    assert_eq!(write_one(o, &[0xFF]), b"M-^?".to_vec());
}

#[test]
fn printable_bytes_never_escaped() {
    let mut o = opts();
    o.show_nonprinting = true;
    o.show_tabs = true;
    o.show_ends = true;
    for b in 0x20u8..=0x7Eu8 {
        assert_eq!(write_one(o, &[b]), vec![b]);
    }
}

#[test]
fn numbering_format_is_width_six_then_tab() {
    let mut o = opts();
    o.number = true;
    let mut w = CatWriter::new(o);
    let out = w.write(&b"x\n".to_vec());
    assert_eq!(out, b"     1\tx\n".to_vec());
    let out = w.write(&b"y\n".to_vec());
    assert_eq!(out, b"     2\ty\n".to_vec());
    let out = w.write(&b"z\n".to_vec());
    assert_eq!(out, b"     3\tz\n".to_vec());
}

#[test]
fn numbering_counts_blank_lines_too() {
    let mut o = opts();
    o.number = true;
    let mut w = CatWriter::new(o);
    assert_eq!(w.write(&b"a\n".to_vec()), b"     1\ta\n".to_vec());
    assert_eq!(w.write(&b"\n".to_vec()), b"     2\t\n".to_vec());
    assert_eq!(w.write(&b"b\n".to_vec()), b"     3\tb\n".to_vec());
}

#[test]
fn number_nonblank_skips_blank_lines() {
    let mut o = opts();
    o.number = true;
    o.number_nonblank = true;
    let mut w = CatWriter::new(o);
    assert_eq!(w.write(&b"x\n".to_vec()), b"     1\tx\n".to_vec());
    assert_eq!(w.write(&b"\n".to_vec()), b"\n".to_vec());
    assert_eq!(w.write(&b"y\n".to_vec()), b"     2\ty\n".to_vec());
}

#[test]
fn squeeze_keeps_first_blank_of_a_run() {
    let mut o = opts();
    o.squeeze_blank = true;
    let mut w = CatWriter::new(o);
    assert_eq!(w.write(&b"a\n".to_vec()), b"a\n".to_vec());
    assert_eq!(w.write(&b"\n".to_vec()), b"\n".to_vec());
    assert_eq!(w.write(&b"\n".to_vec()), b"".to_vec());
    assert_eq!(w.write(&b"\n".to_vec()), b"".to_vec());
    assert_eq!(w.write(&b"b\n".to_vec()), b"b\n".to_vec());
}

#[test]
fn squeeze_resets_after_non_blank() {
    let mut o = opts();
    o.squeeze_blank = true;
    let mut w = CatWriter::new(o);
    assert_eq!(w.write(&b"\n".to_vec()), b"\n".to_vec());
    assert_eq!(w.write(&b"\n".to_vec()), b"".to_vec());
    assert_eq!(w.write(&b"a\n".to_vec()), b"a\n".to_vec());
    assert_eq!(w.write(&b"\n".to_vec()), b"\n".to_vec());
    assert_eq!(w.write(&b"\n".to_vec()), b"".to_vec());
}

#[test]
fn squeezed_blanks_consume_no_number() {
    let mut o = opts();
    o.squeeze_blank = true;
    o.number = true;
    let mut w = CatWriter::new(o);
    assert_eq!(w.write(&b"a\n".to_vec()), b"     1\ta\n".to_vec());
    assert_eq!(w.write(&b"\n".to_vec()), b"     2\t\n".to_vec());
    assert_eq!(w.write(&b"\n".to_vec()), b"".to_vec());
    assert_eq!(w.write(&b"\n".to_vec()), b"".to_vec());
    assert_eq!(w.write(&b"b\n".to_vec()), b"     3\tb\n".to_vec());
}

#[test]
fn whitespace_only_line_is_not_blank() {
    let mut o = opts();
    o.squeeze_blank = true;
    let mut w = CatWriter::new(o);
    assert_eq!(w.write(&b" \n".to_vec()), b" \n".to_vec());
    assert_eq!(w.write(&b" \n".to_vec()), b" \n".to_vec());
    let mut o2 = opts();
    o2.number = true;
    o2.number_nonblank = true;
    let mut w2 = CatWriter::new(o2);
    assert_eq!(w2.write(&b" \n".to_vec()), b"     1\t \n".to_vec());
}

#[test]
fn write_file_splits_on_newlines() {
    let mut o = opts();
    o.show_ends = true;
    let mut w = CatWriter::new(o);
    let out = write_file(&mut w, &b"ab\ncd\n".to_vec());
    assert_eq!(out, b"ab$\ncd$\n".to_vec());
}

#[test]
fn write_file_last_segment_may_lack_newline() {
    let mut o = opts();
    o.show_ends = true;
    let mut w = CatWriter::new(o);
    let out = write_file(&mut w, &b"ab\ncd".to_vec());
    assert_eq!(out, b"ab$\ncd".to_vec());
}

#[test]
fn write_file_empty_content_writes_nothing() {
    let mut o = opts();
    o.number = true;
    let mut w = CatWriter::new(o);
    let out = write_file(&mut w, &Vec::new());
    assert_eq!(out, b"".to_vec());
    assert_eq!(w.counter.value, 0);
}

#[test]
fn numbering_is_global_across_sources() {
    let mut o = opts();
    o.number = true;
    let mut w = CatWriter::new(o);
    let first = write_file(&mut w, &b"a\nb\n".to_vec());
    let second = write_file(&mut w, &b"c\nd\n".to_vec());
    assert_eq!(first, b"     1\ta\n     2\tb\n".to_vec());
    assert_eq!(second, b"     3\tc\n     4\td\n".to_vec());
}

#[test]
fn squeeze_run_across_one_source() {
    let mut o = opts();
    o.squeeze_blank = true;
    let mut w = CatWriter::new(o);
    let out = write_file(&mut w, &b"a\n\n\n\nb\n".to_vec());
    assert_eq!(out, b"a\n\nb\n".to_vec());
}

#[test]
fn squeeze_and_number_together() {
    let mut o = opts();
    o.squeeze_blank = true;
    o.number = true;
    let mut w = CatWriter::new(o);
    let out = write_file(&mut w, &b"a\n\n\n\nb\n".to_vec());
    assert_eq!(out, b"     1\ta\n     2\t\n     3\tb\n".to_vec());
}

#[test]
fn escaping_is_not_a_fixed_point() {
    let mut o = opts();
    o.show_ends = true;
    let first = write_one(o, b"a\n");
    assert_eq!(first, b"a$\n".to_vec());
    let second = write_one(o, &first);
    assert_eq!(second, b"a$$\n".to_vec());
}
