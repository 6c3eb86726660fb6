//! The transforming writer: turns input segments into annotated output bytes.

use vstd::prelude::*;

use crate::config::Options;

verus! {

/// A monotonic 1-based line counter: advance-and-return, no reset.
pub struct Counter {
    pub value: u32,
}

impl Counter {
    pub fn new() -> (c: Counter)
        ensures
            c.value == 0,
    {
        Counter { value: 0 }
    }

    /// Advances the counter and returns the new value.
    pub fn next(&mut self) -> (n: u32)
        requires
            old(self).value < u32::MAX,
        ensures
            final(self).value == old(self).value + 1,
            n == final(self).value,
    {
        self.value = self.value + 1;
        self.value
    }
}

/// A blank line: a segment whose entire content is a single newline byte.
pub open spec fn is_blank(seg: Seq<u8>) -> bool {
    seg =~= seq![10u8]
}

/// The per-byte escaping table. Tab and newline escaping are controlled by
/// their own flags; every other byte class answers to `show_nonprinting`.
/// Printable bytes 0x20..=0x7E always pass through.
pub open spec fn escape_byte(b: u8, opts: Options) -> Seq<u8> {
    if b == 9 {
        if opts.show_tabs {
            seq![94u8, 73u8]
        } else {
            seq![b]
        }
    } else if b == 10 {
        if opts.show_ends {
            seq![36u8, 10u8]
        } else {
            seq![b]
        }
    } else if b < 32 {
        if opts.show_nonprinting {
            seq![94u8, (b + 64) as u8]
        } else {
            seq![b]
        }
    } else if b < 127 {
        seq![b]
    } else if b == 127 {
        if opts.show_nonprinting {
            seq![94u8, 63u8]
        } else {
            seq![b]
        }
    } else if b < 160 {
        if opts.show_nonprinting {
            seq![77u8, 45u8, 94u8, (b - 64) as u8]
        } else {
            seq![b]
        }
    } else if b < 255 {
        if opts.show_nonprinting {
            seq![77u8, 45u8, (b - 128) as u8]
        } else {
            seq![b]
        }
    } else {
        if opts.show_nonprinting {
            seq![77u8, 45u8, 94u8, 63u8]
        } else {
            seq![b]
        }
    }
}

/// Byte-level escaping of a whole segment: the concatenation of the escape
/// of each byte, in order.
pub open spec fn escape_seq(seg: Seq<u8>, opts: Options) -> Seq<u8>
    decreases seg.len(),
{
    if seg.len() == 0 {
        Seq::empty()
    } else {
        escape_seq(seg.drop_last(), opts) + escape_byte(seg.last(), opts)
    }
}

/// Appends the escape of one byte to `out`, per the table in `escape_byte`.
fn push_escaped(out: &mut Vec<u8>, b: u8, opts: &Options)
    ensures
        final(out)@ == old(out)@ + escape_byte(b, *opts),
{
    if b == 9 {
        if opts.show_tabs {
            out.push(94);
            out.push(73);
        } else {
            out.push(b);
        }
    } else if b == 10 {
        if opts.show_ends {
            out.push(36);
            out.push(10);
        } else {
            out.push(b);
        }
    } else if b < 32 {
        if opts.show_nonprinting {
            out.push(94);
            out.push(b + 64);
        } else {
            out.push(b);
        }
    } else if b < 127 {
        out.push(b);
    } else if b == 127 {
        if opts.show_nonprinting {
            out.push(94);
            out.push(63);
        } else {
            out.push(b);
        }
    } else if b < 160 {
        if opts.show_nonprinting {
            out.push(77);
            out.push(45);
            out.push(94);
            out.push(b - 64);
        } else {
            out.push(b);
        }
    } else if b < 255 {
        if opts.show_nonprinting {
            out.push(77);
            out.push(45);
            out.push(b - 128);
        } else {
            out.push(b);
        }
    } else {
        if opts.show_nonprinting {
            out.push(77);
            out.push(45);
            out.push(94);
            out.push(63);
        } else {
            out.push(b);
        }
    }
    assert(out@ =~= old(out)@ + escape_byte(b, *opts));
}

/// The decimal digits of `n`, most significant first, as ASCII bytes.
pub open spec fn dec_rep(n: nat) -> Seq<u8>
    decreases n,
{
    if n < 10 {
        seq![(48 + n) as u8]
    } else {
        dec_rep(n / 10) + seq![(48 + n % 10) as u8]
    }
}

/// The numbering prefix for line number `n`: the decimal digits right-aligned
/// in a field of width 6 (space-padded on the left, no padding once the
/// number outgrows the field), followed by one tab byte.
pub open spec fn number_prefix(n: nat) -> Seq<u8> {
    let d = dec_rep(n);
    if d.len() < 6 {
        Seq::new((6 - d.len()) as nat, |i: int| 32u8) + d + seq![9u8]
    } else {
        d + seq![9u8]
    }
}

/// Builds the numbering prefix for `n` as bytes.
fn format_line_number(n: u32) -> (v: Vec<u8>)
    ensures
        v@ == number_prefix(n as nat),
{
    let mut digits: Vec<u8> = Vec::new();
    if n == 0 {
        digits.push(48);
        assert(digits@ =~= dec_rep(0));
    } else {
        let mut m: u32 = n;
        while m > 0
            invariant
                m <= n,
                m > 0 ==> dec_rep(n as nat) =~= dec_rep(m as nat) + digits@,
                m == 0 ==> digits@ =~= dec_rep(n as nat),
                m == n ==> digits@.len() == 0,
            decreases m,
        {
            let d: u8 = 48 + (m % 10) as u8;
            digits.insert(0, d);
            proof {
                if m >= 10 {
                    assert(dec_rep(m as nat) =~= dec_rep((m as nat) / 10) + seq![
                        (48 + (m as nat) % 10) as u8,
                    ]);
                }
            }
            m = m / 10;
        }
    }
    let mut v: Vec<u8> = Vec::new();
    let pad: usize = if digits.len() < 6 {
        6 - digits.len()
    } else {
        0
    };
    let mut j: usize = 0;
    while j < pad
        invariant
            j <= pad,
            v@ =~= Seq::new(j as nat, |i: int| 32u8),
        decreases pad - j,
    {
        v.push(32);
        assert(v@ =~= Seq::new((j + 1) as nat, |i: int| 32u8));
        j = j + 1;
    }
    v.append(&mut digits);
    v.push(9);
    assert(v@ =~= number_prefix(n as nat));
    v
}

/// For a single-byte segment the escaped content is exactly what the
/// per-byte table gives for that byte, whatever the option combination.
pub proof fn lemma_escape_single_byte(b: u8, opts: Options)
    ensures
        escape_seq(seq![b], opts) == escape_byte(b, opts),
{
    assert(seq![b].drop_last() =~= Seq::<u8>::empty());
    assert(escape_seq(Seq::<u8>::empty(), opts) =~= Seq::<u8>::empty());
    assert(seq![b].last() == b);
    assert(escape_seq(seq![b], opts) =~= escape_byte(b, opts));
}

/// The transforming writer. It owns the active option set, the line counter
/// and the blank-run suppression state, and turns one segment at a time into
/// the bytes destined for the sink.
pub struct CatWriter {
    pub options: Options,
    pub counter: Counter,
    pub was_empty: bool,
}

/// A segment is discarded entirely when blank-line squeezing is on, the
/// previous segment was blank, and this segment is blank as well.
pub open spec fn squeezed(w: CatWriter, seg: Seq<u8>) -> bool {
    w.options.squeeze_blank && w.was_empty && is_blank(seg)
}

/// A segment that survives squeezing receives a number exactly when
/// numbering is on and the segment is not a blank line excluded by
/// `number_nonblank`.
pub open spec fn emits_number(w: CatWriter, seg: Seq<u8>) -> bool {
    &&& !squeezed(w, seg)
    &&& w.options.number
    &&& !(w.options.number_nonblank && is_blank(seg))
}

/// The bytes a writer in state `w` emits for `seg`: nothing when squeezed;
/// otherwise the numbering prefix (if the segment is numbered, carrying the
/// next counter value) followed by the escaped content bytes.
pub open spec fn write_output(w: CatWriter, seg: Seq<u8>) -> Seq<u8> {
    if squeezed(w, seg) {
        Seq::empty()
    } else if emits_number(w, seg) {
        number_prefix((w.counter.value + 1) as nat) + escape_seq(seg, w.options)
    } else {
        escape_seq(seg, w.options)
    }
}

/// The writer state after processing `seg`: the counter advances by one iff
/// the segment was numbered, and the blank-run memory records whether the
/// segment was blank.
pub open spec fn step_writer(w: CatWriter, seg: Seq<u8>) -> CatWriter {
    CatWriter {
        options: w.options,
        counter: Counter {
            value: if emits_number(w, seg) {
                (w.counter.value + 1) as u32
            } else {
                w.counter.value
            },
        },
        was_empty: is_blank(seg),
    }
}

impl CatWriter {
    /// A fresh writer over the given option set: counter at zero, no blank
    /// line seen yet.
    pub fn new(options: Options) -> (w: CatWriter)
        ensures
            w.options == options,
            w.counter.value == 0,
            w.was_empty == false,
    {
        CatWriter { options, counter: Counter::new(), was_empty: false }
    }

    /// Transforms one segment, returning the bytes to hand to the sink.
    /// The count of bytes written is the length of the returned vector.
    pub fn write(&mut self, buf: &Vec<u8>) -> (out: Vec<u8>)
        requires
            old(self).counter.value < u32::MAX,
        ensures
            out@ == write_output(*old(self), buf@),
            *final(self) == step_writer(*old(self), buf@),
    {
        let blank = buf.len() == 1 && buf[0] == 10;
        proof {
            assert(blank == is_blank(buf@));
        }
        if !blank {
            self.was_empty = false;
        }
        if self.options.squeeze_blank && self.was_empty {
            return Vec::new();
        }
        let mut out: Vec<u8> = Vec::new();
        if self.options.number {
            let should_count = !(self.options.number_nonblank && blank);
            if should_count {
                let n = self.counter.next();
                let mut prefix = format_line_number(n);
                out.append(&mut prefix);
            }
        }
        if blank {
            self.was_empty = true;
        }
        let ghost head = out@;
        let ghost w_mid = *self;
        let mut i: usize = 0;
        while i < buf.len()
            invariant
                i <= buf@.len(),
                *self == w_mid,
                out@ == head + escape_seq(buf@.take(i as int), self.options),
            decreases buf@.len() - i,
        {
            let b = buf[i];
            push_escaped(&mut out, b, &self.options);
            proof {
                assert(buf@.take(i + 1 as int).drop_last() =~= buf@.take(i as int));
                assert(out@ =~= head + escape_seq(buf@.take(i + 1 as int), self.options));
            }
            i = i + 1;
        }
        proof {
            assert(buf@.take(buf@.len() as int) =~= buf@);
        }
        out
    }
}

/// Length of the first segment of `s`: up to and including the first newline
/// byte, or all of `s` when no newline occurs.
pub open spec fn first_segment_len(s: Seq<u8>) -> nat
    decreases s.len(),
{
    if s.len() == 0 {
        0
    } else if s[0] == 10 {
        1
    } else {
        1 + first_segment_len(s.drop_first())
    }
}

/// Splits a raw byte buffer into newline-inclusive segments; the last
/// segment may lack a trailing newline.
pub open spec fn segments(s: Seq<u8>) -> Seq<Seq<u8>>
    decreases s.len(),
    via segments_decreases
{
    if s.len() == 0 {
        Seq::empty()
    } else {
        let k = first_segment_len(s) as int;
        seq![s.take(k)] + segments(s.skip(k))
    }
}

#[via_fn]
proof fn segments_decreases(s: Seq<u8>) {
    if s.len() > 0 {
        lemma_first_segment_len_bounds(s);
    }
}

pub proof fn lemma_first_segment_len_bounds(s: Seq<u8>)
    requires
        s.len() > 0,
    ensures
        1 <= first_segment_len(s) <= s.len(),
        s[first_segment_len(s) - 1] == 10 || first_segment_len(s) == s.len(),
        forall|j: int| 0 <= j < first_segment_len(s) - 1 ==> s[j] != 10,
    decreases s.len(),
{
    let d = s.drop_first();
    if s[0] == 10 {
        assert(first_segment_len(s) == 1);
    } else if s.len() == 1 {
        assert(d.len() == 0);
        assert(first_segment_len(d) == 0);
        assert(first_segment_len(s) == 1);
    } else {
        lemma_first_segment_len_bounds(d);
        let k = first_segment_len(s);
        assert(k == 1 + first_segment_len(d));
        if first_segment_len(d) < d.len() {
            assert(s[k - 1] == d[first_segment_len(d) - 1]);
        }
        assert forall|j: int| 0 <= j < k - 1 implies s[j] != 10 by {
            if j > 0 {
                assert(s[j] == d[j - 1]);
            }
        }
    }
}

/// The first segment is exactly the prefix delimited by the first newline.
pub proof fn lemma_first_segment_len_is(s: Seq<u8>, k: int)
    requires
        1 <= k <= s.len(),
        s[k - 1] == 10 || k == s.len(),
        forall|j: int| 0 <= j < k - 1 ==> s[j] != 10,
    ensures
        first_segment_len(s) == k,
    decreases s.len(),
{
    let d = s.drop_first();
    if s[0] == 10 {
        if k > 1 {
            assert(s[0] != 10);
        }
        assert(first_segment_len(s) == 1);
    } else if k == 1 {
        assert(s.len() == 1);
        assert(d.len() == 0);
        assert(first_segment_len(d) == 0);
        assert(first_segment_len(s) == 1);
    } else {
        assert forall|j: int| 0 <= j < (k - 1) - 1 implies d[j] != 10 by {
            assert(d[j] == s[j + 1]);
        }
        if s[k - 1] == 10 {
            assert(d[k - 2] == s[k - 1]);
        } else {
            assert(k == s.len());
            assert(k - 1 == d.len());
        }
        lemma_first_segment_len_is(d, k - 1);
        assert(first_segment_len(s) == 1 + first_segment_len(d));
    }
}

/// The segments of a buffer cover it exactly: concatenated in order they
/// give the buffer back, every segment is nonempty, and every segment but
/// possibly the last ends with the newline byte that delimited it.
pub proof fn lemma_segments_cover(s: Seq<u8>)
    ensures
        segments(s).flatten() == s,
        forall|i: int| 0 <= i < segments(s).len() ==> segments(s)[i].len() > 0,
        forall|i: int|
            0 <= i < segments(s).len() - 1 ==> (#[trigger] segments(s)[i]).last() == 10,
    decreases s.len(),
{
    if s.len() > 0 {
        lemma_first_segment_len_bounds(s);
        let k = first_segment_len(s) as int;
        lemma_segments_cover(s.skip(k));
        let segs = segments(s);
        assert(segs.drop_first() =~= segments(s.skip(k)));
        assert(segs.flatten() == s.take(k) + segments(s.skip(k)).flatten());
        assert(s.take(k) + s.skip(k) =~= s);
        assert forall|i: int| 0 <= i < segs.len() - 1 implies (#[trigger] segs[i]).last()
            == 10 by {
            if i == 0 {
                assert(segments(s.skip(k)).len() > 0);
                assert(s.take(k).last() == s[k - 1]);
            } else {
                assert(segs[i] == segments(s.skip(k))[i - 1]);
            }
        }
    }
}

/// The output of a whole run: each segment's output in order, each processed
/// in the state the previous segments left behind.
pub open spec fn run_output(w: CatWriter, segs: Seq<Seq<u8>>) -> Seq<u8>
    decreases segs.len(),
{
    if segs.len() == 0 {
        Seq::empty()
    } else {
        write_output(w, segs[0]) + run_output(step_writer(w, segs[0]), segs.skip(1))
    }
}

/// The writer state after a whole run.
pub open spec fn run_final(w: CatWriter, segs: Seq<Seq<u8>>) -> CatWriter
    decreases segs.len(),
{
    if segs.len() == 0 {
        w
    } else {
        run_final(step_writer(w, segs[0]), segs.skip(1))
    }
}

/// The line numbers a run emits, in output order: one for each segment that
/// survives squeezing and is numbered.
pub open spec fn run_numbers(w: CatWriter, segs: Seq<Seq<u8>>) -> Seq<u32>
    decreases segs.len(),
{
    if segs.len() == 0 {
        Seq::empty()
    } else {
        let tail = run_numbers(step_writer(w, segs[0]), segs.skip(1));
        if emits_number(w, segs[0]) {
            seq![(w.counter.value + 1) as u32] + tail
        } else {
            tail
        }
    }
}

/// Numbering is strictly increasing by 1 across all numbered segments of a
/// run: the numbers emitted from state `w` are exactly the consecutive values
/// `w.counter.value + 1, w.counter.value + 2, ...`, and the counter advances
/// by exactly the count of numbers emitted. Suppressed blanks consume no
/// number.
pub proof fn lemma_numbering_consecutive(w: CatWriter, segs: Seq<Seq<u8>>)
    requires
        w.counter.value + segs.len() <= u32::MAX,
    ensures
        run_numbers(w, segs).len() <= segs.len(),
        forall|i: int|
            0 <= i < run_numbers(w, segs).len() ==> run_numbers(w, segs)[i] == w.counter.value + 1
                + i,
        run_final(w, segs).counter.value == w.counter.value + run_numbers(w, segs).len(),
    decreases segs.len(),
{
    if segs.len() > 0 {
        let w2 = step_writer(w, segs[0]);
        let tail = run_numbers(w2, segs.skip(1));
        lemma_numbering_consecutive(w2, segs.skip(1));
        if emits_number(w, segs[0]) {
            assert forall|i: int| 0 <= i < run_numbers(w, segs).len() implies run_numbers(w, segs)[i]
                == w.counter.value + 1 + i by {
                if i > 0 {
                    assert(run_numbers(w, segs)[i] == tail[i - 1]);
                }
            }
        }
    }
}

/// Processing two sources in a row equals processing the concatenated
/// segment list: the output, the emitted numbers and the final state all
/// carry across the boundary, so numbering is global, not per source.
pub proof fn lemma_run_concat(w: CatWriter, s1: Seq<Seq<u8>>, s2: Seq<Seq<u8>>)
    ensures
        run_output(w, s1 + s2) == run_output(w, s1) + run_output(run_final(w, s1), s2),
        run_final(w, s1 + s2) == run_final(run_final(w, s1), s2),
        run_numbers(w, s1 + s2) == run_numbers(w, s1) + run_numbers(run_final(w, s1), s2),
    decreases s1.len(),
{
    if s1.len() == 0 {
        assert(s1 + s2 =~= s2);
        assert(run_output(w, s1 + s2) =~= run_output(w, s1) + run_output(run_final(w, s1), s2));
        assert(run_numbers(w, s1 + s2) =~= run_numbers(w, s1) + run_numbers(run_final(w, s1), s2));
    } else {
        let w2 = step_writer(w, s1[0]);
        assert((s1 + s2)[0] == s1[0]);
        assert((s1 + s2).skip(1) =~= s1.skip(1) + s2);
        lemma_run_concat(w2, s1.skip(1), s2);
        assert(run_output(w, s1 + s2) =~= run_output(w, s1) + run_output(run_final(w, s1), s2));
        assert(run_numbers(w, s1 + s2) =~= run_numbers(w, s1) + run_numbers(run_final(w, s1), s2));
    }
}

/// Splits `content` into newline-inclusive segments and feeds each to the
/// writer, returning the concatenated output bytes.
pub fn write_file(buffer: &mut CatWriter, content: &Vec<u8>) -> (out: Vec<u8>)
    requires
        old(buffer).counter.value + content@.len() <= u32::MAX,
    ensures
        out@ == run_output(*old(buffer), segments(content@)),
        *final(buffer) == run_final(*old(buffer), segments(content@)),
{
    let ghost w0 = *old(buffer);
    let mut out: Vec<u8> = Vec::new();
    let mut pos: usize = 0;
    proof {
        assert(content@.skip(0) =~= content@);
    }
    while pos < content.len()
        invariant
            pos <= content@.len(),
            buffer.options == w0.options,
            buffer.counter.value <= w0.counter.value + pos,
            w0.counter.value + content@.len() <= u32::MAX,
            run_output(w0, segments(content@)) == out@ + run_output(
                *buffer,
                segments(content@.skip(pos as int)),
            ),
            run_final(w0, segments(content@)) == run_final(
                *buffer,
                segments(content@.skip(pos as int)),
            ),
        decreases content@.len() - pos,
    {
        let ghost rest = content@.skip(pos as int);
        proof {
            lemma_first_segment_len_bounds(rest);
        }
        let mut end: usize = pos;
        while end < content.len() && content[end] != 10
            invariant
                pos <= end <= content@.len(),
                forall|j: int| pos <= j < end ==> content@[j] != 10,
            decreases content@.len() - end,
        {
            end = end + 1;
        }
        if end < content.len() {
            end = end + 1;
        }
        proof {
            assert(forall|j: int| 0 <= j < end - pos - 1 ==> rest[j] != 10);
            lemma_first_segment_len_is(rest, end - pos);
        }
        let mut seg: Vec<u8> = Vec::new();
        let mut i: usize = pos;
        while i < end
            invariant
                pos <= i <= end <= content@.len(),
                seg@ == content@.subrange(pos as int, i as int),
            decreases end - i,
        {
            let b = content[i];
            seg.push(b);
            proof {
                assert(seg@ =~= content@.subrange(pos as int, i + 1 as int));
            }
            i = i + 1;
        }
        proof {
            assert(seg@ =~= rest.take((end - pos) as int));
            assert(segments(rest) == seq![seg@] + segments(rest.skip((end - pos) as int)));
            assert(rest.skip((end - pos) as int) =~= content@.skip(end as int));
        }
        let ghost w_before = *buffer;
        let mut chunk = buffer.write(&seg);
        out.append(&mut chunk);
        proof {
            assert(segments(rest).skip(1) =~= segments(content@.skip(end as int)));
            assert(run_output(w_before, segments(rest)) == write_output(w_before, seg@)
                + run_output(*buffer, segments(content@.skip(end as int))));
            assert(run_output(w0, segments(content@)) =~= out@ + run_output(
                *buffer,
                segments(content@.skip(end as int)),
            ));
        }
        pos = end;
    }
    proof {
        assert(content@.skip(content@.len() as int) =~= Seq::<u8>::empty());
        assert(out@ =~= run_output(w0, segments(content@)));
    }
    out
}

} // verus!
