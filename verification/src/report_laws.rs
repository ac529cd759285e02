//! What holds of the reports: neither is ever empty, numbers and names
//! read back from the table as they went in, and no name brings markup into
//! the page.

use crate::frame::{FrameView, ThreadFrameView};
use crate::registry::RegistryView;
use crate::report::{
    csv_frames, csv_parts, csv_report, csv_rows, decimal, escaped, html_report, text, Escape,
};
use vstd::prelude::*;

verus! {

/// The lines of a thread only add to what stands before them.
proof fn lemma_csv_rows_grow(
    acc: Seq<u8>,
    frame: u64,
    part: ThreadFrameView,
    reg: RegistryView,
    upto: int,
)
    ensures
        csv_rows(acc, frame, part, reg, upto).len() >= acc.len(),
    decreases upto,
{
    if upto > 0 {
        lemma_csv_rows_grow(acc, frame, part, reg, upto - 1);
    }
}

/// The lines of a frame only add to what stands before them.
proof fn lemma_csv_parts_grow(acc: Seq<u8>, frame: FrameView, reg: RegistryView, upto: int)
    ensures
        csv_parts(acc, frame, reg, upto).len() >= acc.len(),
    decreases upto,
{
    if upto > 0 {
        let part = frame.threads[upto - 1];
        lemma_csv_parts_grow(acc, frame, reg, upto - 1);
        lemma_csv_rows_grow(
            csv_parts(acc, frame, reg, upto - 1),
            frame.index,
            part,
            reg,
            part.tree.nodes.len() as int,
        );
    }
}

/// The lines of the frames only add to what stands before them.
proof fn lemma_csv_frames_grow(acc: Seq<u8>, frames: Seq<FrameView>, reg: RegistryView, upto: int)
    ensures
        csv_frames(acc, frames, reg, upto).len() >= acc.len(),
    decreases upto,
{
    if upto > 0 {
        let frame = frames[upto - 1];
        lemma_csv_frames_grow(acc, frames, reg, upto - 1);
        lemma_csv_parts_grow(
            csv_frames(acc, frames, reg, upto - 1),
            frame,
            reg,
            frame.threads.len() as int,
        );
    }
}

/// Neither report is ever empty: the table has its heading, the page its
/// head and foot, whatever the frames are.
pub proof fn lemma_reports_are_not_empty(
    frames: Seq<FrameView>,
    reg: RegistryView,
    per_second: u64,
)
    ensures
        csv_report(frames, reg).len() > 0,
        html_report(frames, reg, per_second).len() > 0,
{
    let heading = Seq::<u8>::empty() + text(
        "frame,thread,depth,group,scope,calls,inclusive,exclusive,longest,spanning\n",
    );
    reveal_strlit("frame,thread,depth,group,scope,calls,inclusive,exclusive,longest,spanning\n");
    reveal_strlit("</body>\n</html>\n");
    vstd::utf8::is_ascii_chars_encode_utf8(
        "frame,thread,depth,group,scope,calls,inclusive,exclusive,longest,spanning\n"@,
    );
    vstd::utf8::is_ascii_chars_encode_utf8("</body>\n</html>\n"@);
    assert(heading.len() > 0);
    lemma_csv_frames_grow(heading, frames, reg, frames.len() as int);
}

/// What a quoted field of the table reads as: a doubled quote as one quote,
/// every other byte as itself.
pub open spec fn csv_unescaped(field: Seq<u8>) -> Seq<u8>
    decreases field.len(),
{
    if field.len() == 0 {
        Seq::empty()
    } else if field.last() == 34 && field.len() >= 2 {
        csv_unescaped(field.subrange(0, field.len() - 2)).push(34u8)
    } else {
        csv_unescaped(field.drop_last()).push(field.last())
    }
}

/// Names read back. What the table's escaping makes of a piece of text
/// reads as that text again, whatever quotes and commas it holds.
pub proof fn lemma_csv_reads_back(bytes: Seq<u8>)
    ensures
        csv_unescaped(escaped(Escape::Csv, bytes)) == bytes,
    decreases bytes.len(),
{
    if bytes.len() > 0 {
        let front = escaped(Escape::Csv, bytes.drop_last());
        let whole = escaped(Escape::Csv, bytes);
        lemma_csv_reads_back(bytes.drop_last());
        if bytes.last() == 34 {
            assert(whole.subrange(0, whole.len() - 2) =~= front);
        } else {
            assert(whole.drop_last() =~= front);
        }
        assert(csv_unescaped(whole) =~= bytes);
    } else {
        assert(csv_unescaped(escaped(Escape::Csv, bytes)) =~= bytes);
    }
}

/// The number that a sequence of decimal digits stands for.
pub open spec fn decimal_value(digits: Seq<u8>) -> int
    decreases digits.len(),
{
    if digits.len() == 0 {
        0
    } else {
        decimal_value(digits.drop_last()) * 10 + (digits.last() - 48)
    }
}

/// Numbers read back. The digits of a number that is not negative are at
/// least one, all between `0` and `9`, and stand for the number.
pub proof fn lemma_decimal_reads_back(n: int)
    requires
        n >= 0,
    ensures
        decimal(n).len() >= 1,
        forall|i: int| 0 <= i < decimal(n).len() ==> 48 <= #[trigger] decimal(n)[i] <= 57,
        decimal_value(decimal(n)) == n,
    decreases n,
{
    let digits = decimal(n);
    if n < 10 {
        assert(digits.drop_last() =~= Seq::<u8>::empty());
        assert(decimal_value(Seq::<u8>::empty()) == 0);
        assert(digits.last() == 48 + n);
        assert(decimal_value(digits) == decimal_value(digits.drop_last()) * 10 + (digits.last()
            - 48));
    } else {
        lemma_decimal_reads_back(n / 10);
        assert(digits.drop_last() =~= decimal(n / 10));
        assert(digits.last() == 48 + n % 10);
        assert(decimal_value(digits) == decimal_value(digits.drop_last()) * 10 + (digits.last()
            - 48));
        assert(n == (n / 10) * 10 + n % 10);
    }
}

/// The four entities, byte by byte.
proof fn lemma_entities()
    ensures
        text("&amp;") == seq![38u8, 97u8, 109u8, 112u8, 59u8],
        text("&lt;") == seq![38u8, 108u8, 116u8, 59u8],
        text("&gt;") == seq![38u8, 103u8, 116u8, 59u8],
        text("&quot;") == seq![38u8, 113u8, 117u8, 111u8, 116u8, 59u8],
{
    reveal_strlit("&amp;");
    reveal_strlit("&lt;");
    reveal_strlit("&gt;");
    reveal_strlit("&quot;");
    vstd::utf8::is_ascii_chars_encode_utf8("&amp;"@);
    vstd::utf8::is_ascii_chars_encode_utf8("&lt;"@);
    vstd::utf8::is_ascii_chars_encode_utf8("&gt;"@);
    vstd::utf8::is_ascii_chars_encode_utf8("&quot;"@);
    assert(text("&amp;") =~= seq![38u8, 97u8, 109u8, 112u8, 59u8]);
    assert(text("&lt;") =~= seq![38u8, 108u8, 116u8, 59u8]);
    assert(text("&gt;") =~= seq![38u8, 103u8, 116u8, 59u8]);
    assert(text("&quot;") =~= seq![38u8, 113u8, 117u8, 111u8, 116u8, 59u8]);
}

/// No markup from names. Text that went through the page's escaping holds
/// no `<`, no `>` and no `"`, whatever it held before.
pub proof fn lemma_escaped_html_has_no_markup(bytes: Seq<u8>, i: int)
    requires
        0 <= i < escaped(Escape::Html, bytes).len(),
    ensures
        escaped(Escape::Html, bytes)[i] != 60,
        escaped(Escape::Html, bytes)[i] != 62,
        escaped(Escape::Html, bytes)[i] != 34,
    decreases bytes.len(),
{
    lemma_entities();
    if bytes.len() > 0 {
        let front = escaped(Escape::Html, bytes.drop_last());
        if i < front.len() {
            lemma_escaped_html_has_no_markup(bytes.drop_last(), i);
        }
    }
}

} // verus!
