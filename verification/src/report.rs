//! The two reports, as bytes: a table with one line for each call-tree node,
//! and a page with one collapsible table for each thread of each frame.
//!
//! Each `spec` function here takes the bytes written so far and returns them
//! with its piece appended, so a report reads top to bottom like the file it
//! describes.

use crate::frame::{Frame, FrameView, ThreadFrame, ThreadFrameView};
use crate::registry::{Registry, RegistryView};
use crate::report_laws::lemma_reports_are_not_empty;
use crate::tree::{Node, NodeView};
use vstd::prelude::*;
use vstd::string::StringSliceAdditionalSpecFns;
use vstd::utf8::encode_utf8;

verus! {

/// How text is made safe for a report.
#[derive(Clone, Copy, Debug, PartialEq, Eq, Structural)]
pub enum Escape {
    /// Inside a quoted field of the table: a quote is doubled.
    Csv,
    /// Inside the page: `&`, `<`, `>` and `"` become entities.
    Html,
}

/// The bytes of a piece of fixed text.
pub open spec fn text(s: &str) -> Seq<u8> {
    s.spec_bytes()
}

/// The decimal digits of `n`, which is not negative.
pub open spec fn decimal(n: int) -> Seq<u8>
    decreases n,
{
    if n < 10 {
        seq![(48 + n) as u8]
    } else {
        decimal(n / 10).push((48 + n % 10) as u8)
    }
}

/// What one byte of text becomes.
pub open spec fn escape_byte(mode: Escape, b: u8) -> Seq<u8> {
    match mode {
        Escape::Csv => if b == 34 {
            seq![34u8, 34u8]
        } else {
            seq![b]
        },
        Escape::Html => if b == 38 {
            text("&amp;")
        } else if b == 60 {
            text("&lt;")
        } else if b == 62 {
            text("&gt;")
        } else if b == 34 {
            text("&quot;")
        } else {
            seq![b]
        },
    }
}

/// What a piece of text becomes: each byte escaped, in order.
pub open spec fn escaped(mode: Escape, bytes: Seq<u8>) -> Seq<u8>
    decreases bytes.len(),
{
    if bytes.len() == 0 {
        Seq::empty()
    } else {
        escaped(mode, bytes.drop_last()) + escape_byte(mode, bytes.last())
    }
}

/// The name of the group of `token`, or a question mark for a token that
/// the registry does not know.
pub open spec fn group_bytes(reg: RegistryView, token: u64) -> Seq<u8> {
    if reg.knows(token) {
        encode_utf8(reg.group_name(token))
    } else {
        text("?")
    }
}

/// The name of the scope of `token`, or a question mark for a token that
/// the registry does not know.
pub open spec fn scope_bytes(reg: RegistryView, token: u64) -> Seq<u8> {
    if reg.knows(token) {
        encode_utf8(reg.scope_name(token))
    } else {
        text("?")
    }
}

/// `acc` and then the table's line for node `n` of a thread called `thread`
/// in frame `frame`: frame, thread, depth, group, scope, calls, inclusive,
/// exclusive and longest time in ticks, and whether a call spanned the flip.
pub open spec fn csv_row(
    acc: Seq<u8>,
    frame: u64,
    thread: Seq<char>,
    reg: RegistryView,
    n: NodeView,
) -> Seq<u8> {
    acc + decimal(frame as int) + text(",\"") + escaped(Escape::Csv, encode_utf8(thread)) + text(
        "\",",
    ) + decimal(n.depth) + text(",\"") + escaped(Escape::Csv, group_bytes(reg, n.token)) + text(
        "\",\"",
    ) + escaped(Escape::Csv, scope_bytes(reg, n.token)) + text("\",") + decimal(n.calls) + text(
        ",",
    ) + decimal(n.inclusive) + text(",") + decimal(n.exclusive) + text(",") + decimal(
        n.max_single,
    ) + text(",") + decimal(
        if n.spanning {
            1
        } else {
            0
        },
    ) + text("\n")
}

/// `acc` and then the lines of the first `upto` nodes of `part`.
pub open spec fn csv_rows(
    acc: Seq<u8>,
    frame: u64,
    part: ThreadFrameView,
    reg: RegistryView,
    upto: int,
) -> Seq<u8>
    decreases upto,
{
    if upto <= 0 {
        acc
    } else {
        csv_row(
            csv_rows(acc, frame, part, reg, upto - 1),
            frame,
            part.name,
            reg,
            part.tree.nodes[upto - 1],
        )
    }
}

/// `acc` and then the lines of the first `upto` threads of `frame`.
pub open spec fn csv_parts(acc: Seq<u8>, frame: FrameView, reg: RegistryView, upto: int) -> Seq<u8>
    decreases upto,
{
    if upto <= 0 {
        acc
    } else {
        let part = frame.threads[upto - 1];
        csv_rows(
            csv_parts(acc, frame, reg, upto - 1),
            frame.index,
            part,
            reg,
            part.tree.nodes.len() as int,
        )
    }
}

/// `acc` and then the lines of the first `upto` frames.
pub open spec fn csv_frames(
    acc: Seq<u8>,
    frames: Seq<FrameView>,
    reg: RegistryView,
    upto: int,
) -> Seq<u8>
    decreases upto,
{
    if upto <= 0 {
        acc
    } else {
        let frame = frames[upto - 1];
        csv_parts(csv_frames(acc, frames, reg, upto - 1), frame, reg, frame.threads.len() as int)
    }
}

/// The table: a heading line, then one line for each node of each thread of
/// each frame, oldest frame first.
pub open spec fn csv_report(frames: Seq<FrameView>, reg: RegistryView) -> Seq<u8> {
    csv_frames(
        Seq::empty() + text("frame,thread,depth,group,scope,calls,inclusive,exclusive,longest,spanning\n"),
        frames,
        reg,
        frames.len() as int,
    )
}

/// The digit of a number below sixteen.
pub open spec fn hex_digit(d: u32) -> u8 {
    if d < 10 {
        (48 + d) as u8
    } else {
        (87 + d) as u8
    }
}

/// A color as the page writes it: the six hexadecimal digits of its lower
/// three bytes, red first.
pub open spec fn color_hex(color: u32) -> Seq<u8> {
    seq![
        hex_digit((color / 0x100000) % 16),
        hex_digit((color / 0x10000) % 16),
        hex_digit((color / 0x1000) % 16),
        hex_digit((color / 0x100) % 16),
        hex_digit((color / 0x10) % 16),
        hex_digit(color % 16),
    ]
}

/// The color of the group of `token`, black for a token that the registry
/// does not know.
pub open spec fn group_color(reg: RegistryView, token: u64) -> u32 {
    if reg.knows(token) {
        reg.group_color(token)
    } else {
        0
    }
}

/// The color of the scope of `token`, black for a token that the registry
/// does not know.
pub open spec fn scope_color(reg: RegistryView, token: u64) -> u32 {
    if reg.knows(token) {
        reg.scope_color(token)
    } else {
        0
    }
}

/// `acc` and then the page's table row for node `n`, indented by its depth,
/// with the group and the scope each in its color.
pub open spec fn html_row(acc: Seq<u8>, reg: RegistryView, n: NodeView) -> Seq<u8> {
    acc + text("<tr><td style=\"padding-left:") + decimal(n.depth) + text(
        "em\"><span style=\"color:#",
    ) + color_hex(group_color(reg, n.token)) + text("\">") + escaped(
        Escape::Html,
        group_bytes(reg, n.token),
    ) + text("</span> / <span style=\"color:#") + color_hex(scope_color(reg, n.token)) + text(
        "\">",
    ) + escaped(Escape::Html, scope_bytes(reg, n.token)) + text("</span></td><td>") + decimal(
        n.calls,
    ) + text("</td><td>") + decimal(n.inclusive) + text("</td><td>") + decimal(n.exclusive)
        + text("</td><td>") + decimal(n.max_single) + text("</td></tr>\n")
}

/// `acc` and then the rows of the first `upto` nodes of `part`.
pub open spec fn html_rows(
    acc: Seq<u8>,
    part: ThreadFrameView,
    reg: RegistryView,
    upto: int,
) -> Seq<u8>
    decreases upto,
{
    if upto <= 0 {
        acc
    } else {
        html_row(html_rows(acc, part, reg, upto - 1), reg, part.tree.nodes[upto - 1])
    }
}

/// `acc` and then the collapsible table of one thread, under its name and
/// the number of events it lost.
pub open spec fn html_part(acc: Seq<u8>, part: ThreadFrameView, reg: RegistryView) -> Seq<u8> {
    html_rows(
        acc + text("<details open><summary>") + escaped(Escape::Html, encode_utf8(part.name))
            + text(" (") + decimal(part.dropped) + text(
            " events lost)</summary>\n<table>\n<tr><th>scope</th><th>calls</th><th>inclusive</th><th>exclusive</th><th>longest</th></tr>\n",
        ),
        part,
        reg,
        part.tree.nodes.len() as int,
    ) + text("</table>\n</details>\n")
}

/// `acc` and then the tables of the first `upto` threads of `frame`.
pub open spec fn html_parts(acc: Seq<u8>, frame: FrameView, reg: RegistryView, upto: int) -> Seq<u8>
    decreases upto,
{
    if upto <= 0 {
        acc
    } else {
        html_part(html_parts(acc, frame, reg, upto - 1), frame.threads[upto - 1], reg)
    }
}

/// `acc` and then the first `upto` frames, each under a heading with its
/// number, its length and the tick at which it opened.
pub open spec fn html_frames(
    acc: Seq<u8>,
    frames: Seq<FrameView>,
    reg: RegistryView,
    upto: int,
) -> Seq<u8>
    decreases upto,
{
    if upto <= 0 {
        acc
    } else {
        let frame = frames[upto - 1];
        html_parts(
            html_frames(acc, frames, reg, upto - 1) + text("<h2>Frame ") + decimal(
                frame.index as int,
            ) + text(": ") + decimal(frame.duration as int) + text(" ticks from tick ") + decimal(
                frame.start as int,
            ) + text("</h2>\n"),
            frame,
            reg,
            frame.threads.len() as int,
        )
    }
}

/// The page: a head that names the clock rate, then the frames, oldest
/// first.
pub open spec fn html_report(frames: Seq<FrameView>, reg: RegistryView, per_second: u64) -> Seq<
    u8,
> {
    html_frames(
        Seq::empty() + text(
            "<!DOCTYPE html>\n<html>\n<head><meta charset=\"utf-8\"><title>Profile</title></head>\n<body>\n<h1>Profile</h1>\n<p>",
        ) + decimal(per_second as int) + text(" ticks per second</p>\n"),
        frames,
        reg,
        frames.len() as int,
    ) + text("</body>\n</html>\n")
}

/// The views of a sequence of frames.
pub open spec fn frame_views(frames: Seq<Frame>) -> Seq<FrameView> {
    Seq::new(frames.len(), |i: int| frames[i]@)
}

/// Appends `bytes`.
fn push_bytes(out: &mut Vec<u8>, bytes: &[u8])
    ensures
        final(out)@ == old(out)@ + bytes@,
{
    let mut i: usize = 0;
    while i < bytes.len()
        invariant
            i <= bytes.len(),
            out@ == old(out)@ + bytes@.take(i as int),
        decreases bytes.len() - i,
    {
        out.push(bytes[i]);
        assert(out@ =~= old(out)@ + bytes@.take(i + 1));
        i = i + 1;
    }
    assert(bytes@.take(i as int) =~= bytes@);
}

/// Appends a piece of fixed text.
fn push_text(out: &mut Vec<u8>, s: &str)
    ensures
        final(out)@ == old(out)@ + text(s),
{
    push_bytes(out, s.as_bytes());
}

/// Appends the decimal digits of `n`.
fn push_decimal(out: &mut Vec<u8>, n: u128)
    ensures
        final(out)@ == old(out)@ + decimal(n as int),
        final(out)@.len() > old(out)@.len(),
    decreases n,
{
    if n >= 10 {
        push_decimal(out, n / 10);
    }
    let d: u8 = (n % 10) as u8;
    out.push(48 + d);
    assert(out@ =~= old(out)@ + decimal(n as int));
}

/// Appends `bytes`, escaped for the table or the page.
fn push_escaped(out: &mut Vec<u8>, bytes: &[u8], mode: Escape)
    ensures
        final(out)@ == old(out)@ + escaped(mode, bytes@),
{
    let mut i: usize = 0;
    assert(escaped(mode, bytes@.take(0)) =~= Seq::<u8>::empty());
    while i < bytes.len()
        invariant
            i <= bytes.len(),
            out@ == old(out)@ + escaped(mode, bytes@.take(i as int)),
        decreases bytes.len() - i,
    {
        let b: u8 = bytes[i];
        let ghost before = out@;
        match mode {
            Escape::Csv => {
                if b == 34 {
                    out.push(34);
                    out.push(34);
                } else {
                    out.push(b);
                }
            },
            Escape::Html => {
                if b == 38 {
                    push_text(out, "&amp;");
                } else if b == 60 {
                    push_text(out, "&lt;");
                } else if b == 62 {
                    push_text(out, "&gt;");
                } else if b == 34 {
                    push_text(out, "&quot;");
                } else {
                    out.push(b);
                }
            },
        }
        proof {
            assert(out@ =~= before + escape_byte(mode, b));
            assert(bytes@.take(i + 1).drop_last() =~= bytes@.take(i as int));
            assert(bytes@.take(i + 1).last() == b);
            assert(out@ =~= old(out)@ + escaped(mode, bytes@.take(i + 1)));
        }
        i = i + 1;
    }
    assert(bytes@.take(i as int) =~= bytes@);
}

/// Appends the escaped name of the group of `token`.
fn push_group(out: &mut Vec<u8>, reg: &Registry, token: u64, mode: Escape)
    requires
        reg@.wf(),
    ensures
        final(out)@ == old(out)@ + escaped(mode, group_bytes(reg@, token)),
{
    match reg.names(token) {
        Some(names) => push_escaped(out, names.0.as_str().as_bytes(), mode),
        None => push_escaped(out, "?".as_bytes(), mode),
    }
}

/// Appends the escaped name of the scope of `token`.
fn push_scope(out: &mut Vec<u8>, reg: &Registry, token: u64, mode: Escape)
    requires
        reg@.wf(),
    ensures
        final(out)@ == old(out)@ + escaped(mode, scope_bytes(reg@, token)),
{
    match reg.names(token) {
        Some(names) => push_escaped(out, names.1.as_str().as_bytes(), mode),
        None => push_escaped(out, "?".as_bytes(), mode),
    }
}

/// The hexadecimal digit of a number below sixteen.
fn hex_digit_of(d: u32) -> (b: u8)
    requires
        d < 16,
    ensures
        b == hex_digit(d),
{
    if d < 10 {
        (48 + d) as u8
    } else {
        (87 + d) as u8
    }
}

/// Appends the six hexadecimal digits of a color.
fn push_color(out: &mut Vec<u8>, color: u32)
    ensures
        final(out)@ == old(out)@ + color_hex(color),
{
    out.push(hex_digit_of((color / 0x100000) % 16));
    out.push(hex_digit_of((color / 0x10000) % 16));
    out.push(hex_digit_of((color / 0x1000) % 16));
    out.push(hex_digit_of((color / 0x100) % 16));
    out.push(hex_digit_of((color / 0x10) % 16));
    out.push(hex_digit_of(color % 16));
    assert(out@ =~= old(out)@ + color_hex(color));
}

/// Appends the table's line for one node.
fn push_csv_row(out: &mut Vec<u8>, frame: u64, thread: &String, reg: &Registry, n: &Node)
    requires
        reg@.wf(),
    ensures
        final(out)@ == csv_row(old(out)@, frame, thread@, reg@, n@),
{
    push_decimal(out, frame as u128);
    push_text(out, ",\"");
    push_escaped(out, thread.as_str().as_bytes(), Escape::Csv);
    push_text(out, "\",");
    push_decimal(out, n.depth as u128);
    push_text(out, ",\"");
    push_group(out, reg, n.token, Escape::Csv);
    push_text(out, "\",\"");
    push_scope(out, reg, n.token, Escape::Csv);
    push_text(out, "\",");
    push_decimal(out, n.call_count as u128);
    push_text(out, ",");
    push_decimal(out, n.inclusive as u128);
    push_text(out, ",");
    push_decimal(out, n.exclusive as u128);
    push_text(out, ",");
    push_decimal(out, n.max_single as u128);
    push_text(out, ",");
    push_decimal(
        out,
        if n.spanning {
            1
        } else {
            0
        },
    );
    push_text(out, "\n");
}

/// Appends the table's lines for one thread of a frame.
fn push_csv_rows(out: &mut Vec<u8>, frame: u64, part: &ThreadFrame, reg: &Registry)
    requires
        reg@.wf(),
    ensures
        final(out)@ == csv_rows(old(out)@, frame, part@, reg@, part@.tree.nodes.len() as int),
{
    let mut i: usize = 0;
    while i < part.nodes.len()
        invariant
            i <= part.nodes.len(),
            reg@.wf(),
            out@ == csv_rows(old(out)@, frame, part@, reg@, i as int),
        decreases part.nodes.len() - i,
    {
        assert(part@.tree.nodes[i as int] == part.nodes@[i as int]@);
        push_csv_row(out, frame, &part.name, reg, &part.nodes[i]);
        i = i + 1;
    }
}

/// Appends the table's lines for one frame.
fn push_csv_parts(out: &mut Vec<u8>, frame: &Frame, reg: &Registry)
    requires
        reg@.wf(),
    ensures
        final(out)@ == csv_parts(old(out)@, frame@, reg@, frame@.threads.len() as int),
{
    let mut i: usize = 0;
    while i < frame.threads.len()
        invariant
            i <= frame.threads.len(),
            reg@.wf(),
            out@ == csv_parts(old(out)@, frame@, reg@, i as int),
        decreases frame.threads.len() - i,
    {
        assert(frame@.threads[i as int] == frame.threads@[i as int]@);
        push_csv_rows(out, frame.index, &frame.threads[i], reg);
        i = i + 1;
    }
}

/// Writes the table for `frames`, oldest first, with names from `reg`.
pub fn write_csv(frames: &Vec<Frame>, reg: &Registry) -> (out: Vec<u8>)
    requires
        reg@.wf(),
    ensures
        out@ == csv_report(frame_views(frames@), reg@),
        out@.len() > 0,
{
    proof {
        lemma_reports_are_not_empty(frame_views(frames@), reg@, 0);
    }
    let mut out: Vec<u8> = Vec::new();
    assert(out@ =~= Seq::<u8>::empty());
    push_text(&mut out, "frame,thread,depth,group,scope,calls,inclusive,exclusive,longest,spanning\n");
    let ghost head = out@;
    let mut i: usize = 0;
    while i < frames.len()
        invariant
            i <= frames.len(),
            reg@.wf(),
            out@ == csv_frames(head, frame_views(frames@), reg@, i as int),
        decreases frames.len() - i,
    {
        assert(frame_views(frames@)[i as int] == frames@[i as int]@);
        push_csv_parts(&mut out, &frames[i], reg);
        i = i + 1;
    }
    out
}

/// Appends the page's row for one node.
fn push_html_row(out: &mut Vec<u8>, reg: &Registry, n: &Node)
    requires
        reg@.wf(),
    ensures
        final(out)@ == html_row(old(out)@, reg@, n@),
{
    let colors = match reg.colors(n.token) {
        Some(c) => c,
        None => (0, 0),
    };
    push_text(out, "<tr><td style=\"padding-left:");
    push_decimal(out, n.depth as u128);
    push_text(out, "em\"><span style=\"color:#");
    push_color(out, colors.0);
    push_text(out, "\">");
    push_group(out, reg, n.token, Escape::Html);
    push_text(out, "</span> / <span style=\"color:#");
    push_color(out, colors.1);
    push_text(out, "\">");
    push_scope(out, reg, n.token, Escape::Html);
    push_text(out, "</span></td><td>");
    push_decimal(out, n.call_count as u128);
    push_text(out, "</td><td>");
    push_decimal(out, n.inclusive as u128);
    push_text(out, "</td><td>");
    push_decimal(out, n.exclusive as u128);
    push_text(out, "</td><td>");
    push_decimal(out, n.max_single as u128);
    push_text(out, "</td></tr>\n");
}

/// Appends the page's table for one thread of a frame.
fn push_html_part(out: &mut Vec<u8>, part: &ThreadFrame, reg: &Registry)
    requires
        reg@.wf(),
    ensures
        final(out)@ == html_part(old(out)@, part@, reg@),
{
    push_text(out, "<details open><summary>");
    push_escaped(out, part.name.as_str().as_bytes(), Escape::Html);
    push_text(out, " (");
    push_decimal(out, part.dropped_events as u128);
    push_text(
        out,
        " events lost)</summary>\n<table>\n<tr><th>scope</th><th>calls</th><th>inclusive</th><th>exclusive</th><th>longest</th></tr>\n",
    );
    let ghost head = out@;
    let mut i: usize = 0;
    while i < part.nodes.len()
        invariant
            i <= part.nodes.len(),
            reg@.wf(),
            out@ == html_rows(head, part@, reg@, i as int),
        decreases part.nodes.len() - i,
    {
        assert(part@.tree.nodes[i as int] == part.nodes@[i as int]@);
        push_html_row(out, reg, &part.nodes[i]);
        i = i + 1;
    }
    push_text(out, "</table>\n</details>\n");
}

/// Appends the page's tables for one frame.
fn push_html_parts(out: &mut Vec<u8>, frame: &Frame, reg: &Registry)
    requires
        reg@.wf(),
    ensures
        final(out)@ == html_parts(old(out)@, frame@, reg@, frame@.threads.len() as int),
{
    let mut i: usize = 0;
    while i < frame.threads.len()
        invariant
            i <= frame.threads.len(),
            reg@.wf(),
            out@ == html_parts(old(out)@, frame@, reg@, i as int),
        decreases frame.threads.len() - i,
    {
        assert(frame@.threads[i as int] == frame.threads@[i as int]@);
        push_html_part(out, &frame.threads[i], reg);
        i = i + 1;
    }
}

/// Writes the page for `frames`, oldest first, with names from `reg` and the
/// clock rate `per_second` in its head.
pub fn write_html(frames: &Vec<Frame>, reg: &Registry, per_second: u64) -> (out: Vec<u8>)
    requires
        reg@.wf(),
    ensures
        out@ == html_report(frame_views(frames@), reg@, per_second),
        out@.len() > 0,
{
    let mut out: Vec<u8> = Vec::new();
    assert(out@ =~= Seq::<u8>::empty());
    push_text(
        &mut out,
        "<!DOCTYPE html>\n<html>\n<head><meta charset=\"utf-8\"><title>Profile</title></head>\n<body>\n<h1>Profile</h1>\n<p>",
    );
    push_decimal(&mut out, per_second as u128);
    push_text(&mut out, " ticks per second</p>\n");
    let ghost head = out@;
    let mut i: usize = 0;
    while i < frames.len()
        invariant
            i <= frames.len(),
            reg@.wf(),
            out@ == html_frames(head, frame_views(frames@), reg@, i as int),
        decreases frames.len() - i,
    {
        let frame = &frames[i];
        assert(frame_views(frames@)[i as int] == frame@);
        push_text(&mut out, "<h2>Frame ");
        push_decimal(&mut out, frame.index as u128);
        push_text(&mut out, ": ");
        push_decimal(&mut out, frame.duration as u128);
        push_text(&mut out, " ticks from tick ");
        push_decimal(&mut out, frame.start as u128);
        push_text(&mut out, "</h2>\n");
        push_html_parts(&mut out, frame, reg);
        i = i + 1;
    }
    push_text(&mut out, "</body>\n</html>\n");
    out
}

} // verus!
