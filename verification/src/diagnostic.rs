//! A rendering of a failed read for people: the bytes around the fault as a
//! line of hexadecimal numbers, and under it a line that marks the bytes
//! that the fault is about.

use crate::error::ParseFailure;
use vstd::prelude::*;
use vstd::string::StringExecFns;

verus! {

/// The most bytes shown on either side of the first marked byte.
pub const CONTEXT: usize = 30;

/// The part of a buffer that is shown, and the bytes marked within it.
#[derive(Clone, Copy, Debug, PartialEq, Eq, Structural)]
pub struct Excerpt {
    /// The index in the buffer of the first byte shown.
    pub start: usize,
    /// The index in the buffer behind the last byte shown.
    pub end: usize,
    /// The index, among the bytes shown, of the first byte marked.
    pub offset: usize,
    /// The number of bytes marked.
    pub len: usize,
}

/// The smaller of two numbers.
pub open spec fn min(a: int, b: int) -> int {
    if a <= b {
        a
    } else {
        b
    }
}

/// The excerpt of a buffer of `total` bytes that shows the `len` bytes from
/// `offset` on: up to thirty bytes before `offset` and up to thirty from it
/// on, with no more bytes marked than are shown. An offset behind the end of
/// the buffer counts as the end.
pub open spec fn excerpt_spec(total: usize, offset: usize, len: usize) -> Excerpt {
    let at = min(offset as int, total as int);
    let before = min(at, CONTEXT as int);
    let after = min(total - at, CONTEXT as int);
    Excerpt {
        start: (at - before) as usize,
        end: (at + after) as usize,
        offset: before as usize,
        len: min(before + after, len as int) as usize,
    }
}

/// Chooses the part of a buffer of `total` bytes that is shown for the
/// `len` bytes from `offset` on.
pub fn excerpt(total: usize, offset: usize, len: usize) -> (e: Excerpt)
    ensures
        e == excerpt_spec(total, offset, len),
        e.start <= e.end <= total,
        e.end - e.start <= 2 * CONTEXT,
{
    let at = if offset < total {
        offset
    } else {
        total
    };
    let avail_after = total - at;
    let after = if avail_after < CONTEXT {
        avail_after
    } else {
        CONTEXT
    };
    let before = if at < CONTEXT {
        at
    } else {
        CONTEXT
    };
    let new_start = at - before;
    let new_end = at + after;
    let shown = new_end - new_start;
    let new_len = if shown < len {
        shown
    } else {
        len
    };
    Excerpt { start: new_start, end: new_end, offset: before, len: new_len }
}

/// The digit that stands for a number below sixteen.
pub open spec fn hex_digit(n: int) -> char {
    if n == 0 {
        '0'
    } else if n == 1 {
        '1'
    } else if n == 2 {
        '2'
    } else if n == 3 {
        '3'
    } else if n == 4 {
        '4'
    } else if n == 5 {
        '5'
    } else if n == 6 {
        '6'
    } else if n == 7 {
        '7'
    } else if n == 8 {
        '8'
    } else if n == 9 {
        '9'
    } else if n == 10 {
        'A'
    } else if n == 11 {
        'B'
    } else if n == 12 {
        'C'
    } else if n == 13 {
        'D'
    } else if n == 14 {
        'E'
    } else {
        'F'
    }
}

/// A byte as two hexadecimal digits and a space.
pub open spec fn hex_cell(byte: u8) -> Seq<char> {
    seq![hex_digit(byte as int / 16), hex_digit(byte as int % 16), ' ']
}

/// The bytes as hexadecimal numbers of two digits, a space behind each.
pub open spec fn hex_line(bytes: Seq<u8>) -> Seq<char>
    decreases bytes.len(),
{
    if bytes.len() == 0 {
        Seq::empty()
    } else {
        hex_line(bytes.drop_last()) + hex_cell(bytes.last())
    }
}

/// What stands under the byte at index `i` of the bytes shown when the
/// `len` bytes from `offset` on are marked: three tildes under a marked
/// byte, two under the last of them, three spaces under any other.
pub open spec fn mark_cell(i: int, offset: int, len: int) -> Seq<char> {
    if len > 0 && i == offset + len - 1 {
        seq!['~', '~']
    } else if offset <= i < offset + len {
        seq!['~', '~', '~']
    } else {
        seq![' ', ' ', ' ']
    }
}

/// The line that marks the `len` bytes from `offset` on among `count`
/// bytes shown.
pub open spec fn mark_line(count: nat, offset: int, len: int) -> Seq<char>
    decreases count,
{
    if count == 0 {
        Seq::empty()
    } else {
        mark_line((count - 1) as nat, offset, len) + mark_cell(count - 1, offset, len)
    }
}

/// Four spaces: the margin of every line.
pub open spec fn margin() -> Seq<char> {
    seq![' ', ' ', ' ', ' ']
}

/// The two lines that show `bytes` with the `len` bytes from `offset` on
/// marked: the bytes in hexadecimal, and the marks under them.
pub open spec fn slice_lines(bytes: Seq<u8>, offset: int, len: int) -> Seq<char> {
    margin() + hex_line(bytes) + seq!['\n'] + margin() + mark_line(bytes.len(), offset, len)
        + seq!['\n']
}

/// The digit that stands for a number below sixteen.
fn hex_str(n: u8) -> (digit: &'static str)
    requires
        n < 16,
    ensures
        digit@ == seq![hex_digit(n as int)],
{
    proof {
        reveal_strlit("0");
        reveal_strlit("1");
        reveal_strlit("2");
        reveal_strlit("3");
        reveal_strlit("4");
        reveal_strlit("5");
        reveal_strlit("6");
        reveal_strlit("7");
        reveal_strlit("8");
        reveal_strlit("9");
        reveal_strlit("A");
        reveal_strlit("B");
        reveal_strlit("C");
        reveal_strlit("D");
        reveal_strlit("E");
        reveal_strlit("F");
    }
    let digit = match n {
        0 => "0",
        1 => "1",
        2 => "2",
        3 => "3",
        4 => "4",
        5 => "5",
        6 => "6",
        7 => "7",
        8 => "8",
        9 => "9",
        10 => "A",
        11 => "B",
        12 => "C",
        13 => "D",
        14 => "E",
        _ => "F",
    };
    assert(digit@ =~= seq![hex_digit(n as int)]);
    digit
}

/// Appends the bytes as hexadecimal numbers of two digits, a space behind
/// each.
pub fn push_hex_line(out: &mut String, bytes: &[u8])
    ensures
        final(out)@ == old(out)@ + hex_line(bytes@),
{
    let ghost before = out@;
    let mut i: usize = 0;
    proof {
        assert(bytes@.take(0) =~= Seq::<u8>::empty());
        assert(out@ =~= before + hex_line(bytes@.take(0)));
        reveal_strlit(" ");
    }
    while i < bytes.len()
        invariant
            i <= bytes.len(),
            out@ == before + hex_line(bytes@.take(i as int)),
            " "@ == seq![' '],
        decreases bytes.len() - i,
    {
        let byte = bytes[i];
        let ghost so_far = out@;
        out.append(hex_str(byte / 16));
        out.append(hex_str(byte % 16));
        out.append(" ");
        proof {
            assert(bytes@.take(i as int + 1).drop_last() =~= bytes@.take(i as int));
            assert(out@ =~= so_far + hex_cell(byte));
            assert(out@ =~= before + hex_line(bytes@.take(i as int + 1)));
        }
        i = i + 1;
    }
    assert(bytes@.take(i as int) =~= bytes@);
}

/// Appends the line that marks the `len` bytes from `offset` on among
/// `count` bytes shown.
pub fn push_mark_line(out: &mut String, count: usize, offset: usize, len: usize)
    ensures
        final(out)@ == old(out)@ + mark_line(count as nat, offset as int, len as int),
{
    let ghost before = out@;
    let mut i: usize = 0;
    proof {
        assert(out@ =~= before + mark_line(0, offset as int, len as int));
        reveal_strlit("~~");
        reveal_strlit("~~~");
        reveal_strlit("   ");
    }
    while i < count
        invariant
            i <= count,
            out@ == before + mark_line(i as nat, offset as int, len as int),
            "~~"@ =~= seq!['~', '~'],
            "~~~"@ =~= seq!['~', '~', '~'],
            "   "@ =~= seq![' ', ' ', ' '],
        decreases count - i,
    {
        let ghost so_far = out@;
        let marked = i >= offset && i - offset < len;
        if marked && i - offset == len - 1 {
            out.append("~~");
        } else if marked {
            out.append("~~~");
        } else {
            out.append("   ");
        }
        proof {
            assert(out@ =~= so_far + mark_cell(i as int, offset as int, len as int));
            assert(out@ =~= before + mark_line((i + 1) as nat, offset as int, len as int));
        }
        i = i + 1;
    }
}

/// Shows the `len` bytes from `offset` on within `bytes`: the bytes around
/// them in hexadecimal, and a line under them that marks them.
pub fn render_slice(bytes: &[u8], offset: usize, len: usize) -> (out: String)
    ensures
        out@ == slice_lines(
            bytes@.subrange(
                excerpt_spec(bytes.len(), offset, len).start as int,
                excerpt_spec(bytes.len(), offset, len).end as int,
            ),
            excerpt_spec(bytes.len(), offset, len).offset as int,
            excerpt_spec(bytes.len(), offset, len).len as int,
        ),
{
    let e = excerpt(bytes.len(), offset, len);
    let shown = &bytes[e.start..e.end];
    let mut out = String::new();
    proof {
        reveal_strlit("    ");
        reveal_strlit("\n");
    }
    out.append("    ");
    push_hex_line(&mut out, shown);
    out.append("\n");
    out.append("    ");
    push_mark_line(&mut out, shown.len(), e.offset, e.len);
    out.append("\n");
    assert(out@ =~= slice_lines(shown@, e.offset as int, e.len as int));
    out
}

/// The bytes that a failure is about, cut to a buffer of `total` bytes: the
/// index of the first of them and their number.
pub open spec fn failure_range(total: usize, failure: ParseFailure) -> (usize, usize) {
    let start = min(failure.start as int, total as int);
    let end = min(failure.end as int, total as int);
    (
        start as usize,
        if end >= start {
            (end - start) as usize
        } else {
            0
        },
    )
}

/// Shows where in `bytes` a read failed: the bytes around the fault in
/// hexadecimal, with the bytes that the failing primitive had taken marked
/// under them.
pub fn render_failure(bytes: &[u8], failure: &ParseFailure) -> (out: String)
    ensures
        out@ == slice_lines(
            bytes@.subrange(
                excerpt_spec(
                    bytes.len(),
                    failure_range(bytes.len(), *failure).0,
                    failure_range(bytes.len(), *failure).1,
                ).start as int,
                excerpt_spec(
                    bytes.len(),
                    failure_range(bytes.len(), *failure).0,
                    failure_range(bytes.len(), *failure).1,
                ).end as int,
            ),
            excerpt_spec(
                bytes.len(),
                failure_range(bytes.len(), *failure).0,
                failure_range(bytes.len(), *failure).1,
            ).offset as int,
            excerpt_spec(
                bytes.len(),
                failure_range(bytes.len(), *failure).0,
                failure_range(bytes.len(), *failure).1,
            ).len as int,
        ),
{
    let total = bytes.len();
    let start = if failure.start < total {
        failure.start
    } else {
        total
    };
    let end = if failure.end < total {
        failure.end
    } else {
        total
    };
    let len = if end >= start {
        end - start
    } else {
        0
    };
    render_slice(bytes, start, len)
}

} // verus!
