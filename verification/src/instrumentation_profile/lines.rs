//! The lines of a text profile, and the numbers that stand on them.

use vstd::prelude::*;

verus! {

/// A line of a text: the positions of its first byte and after its last.
#[derive(Debug, Clone, Copy, PartialEq, Eq)]
pub struct Line {
    pub start: usize,
    pub end: usize,
}

/// Whether a byte is a space, a tab or a carriage return.
pub open spec fn is_blank(b: u8) -> bool {
    b == 32 || b == 9 || b == 13
}

/// The position of the first line feed at or after `at`, or the length of
/// the text if there is none.
pub open spec fn line_end(bytes: Seq<u8>, at: int) -> int
    decreases bytes.len() - at,
{
    if at < 0 || at >= bytes.len() {
        bytes.len() as int
    } else if bytes[at] == 10 {
        at
    } else {
        line_end(bytes, at + 1)
    }
}

/// The position of the first byte from `from` up to `to` that is not blank,
/// or `to` if all are.
pub open spec fn skip_blanks(bytes: Seq<u8>, from: int, to: int) -> int
    decreases to - from,
{
    if from >= to {
        to
    } else if is_blank(bytes[from]) {
        skip_blanks(bytes, from + 1, to)
    } else {
        from
    }
}

/// The position after the last byte from `from` up to `to` that is not
/// blank, or `from` if all are.
pub open spec fn drop_blanks(bytes: Seq<u8>, from: int, to: int) -> int
    decreases to - from,
{
    if to <= from {
        from
    } else if is_blank(bytes[to - 1]) {
        drop_blanks(bytes, from, to - 1)
    } else {
        to
    }
}

/// The lines of a text from `at` on that say something: each without the
/// blanks at its ends, and without the lines that are empty then or that
/// start with `#`.
pub open spec fn lines_from(bytes: Seq<u8>, at: int) -> Seq<Line>
    decreases bytes.len() - at,
{
    if at < 0 || at >= bytes.len() {
        Seq::empty()
    } else {
        let stop = line_end(bytes, at);
        let start = skip_blanks(bytes, at, stop);
        let end = drop_blanks(bytes, start, stop);
        if stop < at {
            Seq::empty()
        } else {
            let rest = if stop < bytes.len() {
                lines_from(bytes, stop + 1)
            } else {
                Seq::empty()
            };
            if start >= end || bytes[start] == 35 {
                rest
            } else {
                seq![Line { start: start as usize, end: end as usize }] + rest
            }
        }
    }
}

/// A line ends at or after the position at which it is looked for, and
/// after it if no line feed stands there.
pub proof fn lemma_line_end_bounds(bytes: Seq<u8>, at: int)
    requires
        0 <= at <= bytes.len(),
    ensures
        at <= line_end(bytes, at) <= bytes.len(),
        at < bytes.len() && bytes[at] != 10 ==> at < line_end(bytes, at),
    decreases bytes.len() - at,
{
    if at < bytes.len() && bytes[at] != 10 {
        lemma_line_end_bounds(bytes, at + 1);
    }
}

/// Dropping the blanks at the end keeps a byte that is not blank.
pub proof fn lemma_drop_blanks_keeps(bytes: Seq<u8>, from: int, to: int)
    requires
        0 <= from < to <= bytes.len(),
        !is_blank(bytes[from]),
    ensures
        from < drop_blanks(bytes, from, to) <= to,
    decreases to - from,
{
    if is_blank(bytes[to - 1]) {
        lemma_drop_blanks_keeps(bytes, from, to - 1);
    }
}

/// A text that starts with a byte that is neither blank nor a line feed nor
/// `#` has a first line that says something, and the line starts with that
/// byte.
pub proof fn lemma_first_line(bytes: Seq<u8>)
    requires
        0 < bytes.len() <= usize::MAX,
        !is_blank(bytes[0]),
        bytes[0] != 10,
        bytes[0] != 35,
    ensures
        lines_from(bytes, 0).len() > 0,
        lines_from(bytes, 0)[0].start == 0,
        0 < lines_from(bytes, 0)[0].end <= bytes.len(),
{
    lemma_line_end_bounds(bytes, 0);
    let stop = line_end(bytes, 0);
    lemma_drop_blanks_keeps(bytes, 0, stop);
    let end = drop_blanks(bytes, 0, stop);
    let rest = if stop < bytes.len() {
        lines_from(bytes, stop + 1)
    } else {
        Seq::<Line>::empty()
    };
    let line = Line { start: 0, end: end as usize };
    assert(skip_blanks(bytes, 0, stop) == 0);
    assert(lines_from(bytes, 0) == seq![line] + rest);
    assert((seq![line] + rest)[0] == line);
}

/// Whether each line lies within a text of the given length and is not
/// empty.
pub open spec fn lines_within(lines: Seq<Line>, len: nat) -> bool {
    forall|i: int| 0 <= i < lines.len() ==> (#[trigger] lines[i]).start < lines[i].end <= len
}

/// The lines of a text that say something.
pub fn significant_lines(bytes: &[u8]) -> (lines: Vec<Line>)
    ensures
        lines@ == lines_from(bytes@, 0),
        lines_within(lines@, bytes@.len()),
{
    let len: usize = bytes.len();
    let mut lines: Vec<Line> = Vec::new();
    let mut at: usize = 0;
    proof {
        assert(lines@ + lines_from(bytes@, 0) =~= lines_from(bytes@, 0));
    }
    while at < len
        invariant
            at <= len,
            len == bytes@.len(),
            lines@ + lines_from(bytes@, at as int) == lines_from(bytes@, 0),
            lines_within(lines@, bytes@.len()),
        decreases len - at,
    {
        let mut stop: usize = at;
        while stop < len && bytes[stop] != 10
            invariant
                at <= stop <= len,
                len == bytes@.len(),
                line_end(bytes@, stop as int) == line_end(bytes@, at as int),
            decreases len - stop,
        {
            stop = stop + 1;
        }
        let mut start: usize = at;
        while start < stop && (bytes[start] == 32 || bytes[start] == 9 || bytes[start] == 13)
            invariant
                at <= start <= stop <= len,
                len == bytes@.len(),
                skip_blanks(bytes@, start as int, stop as int) == skip_blanks(
                    bytes@,
                    at as int,
                    stop as int,
                ),
            decreases stop - start,
        {
            start = start + 1;
        }
        let mut end: usize = stop;
        while end > start && (bytes[end - 1] == 32 || bytes[end - 1] == 9 || bytes[end - 1] == 13)
            invariant
                start <= end <= stop <= len,
                len == bytes@.len(),
                drop_blanks(bytes@, start as int, end as int) == drop_blanks(
                    bytes@,
                    start as int,
                    stop as int,
                ),
            decreases end - start,
        {
            end = end - 1;
        }
        let ghost before = lines@;
        let ghost rest = if stop < len {
            lines_from(bytes@, stop + 1)
        } else {
            Seq::<Line>::empty()
        };
        proof {
            assert(line_end(bytes@, at as int) == stop);
            assert(skip_blanks(bytes@, at as int, stop as int) == start);
            assert(drop_blanks(bytes@, start as int, stop as int) == end);
        }
        if start < end && bytes[start] != 35 {
            let line = Line { start, end };
            lines.push(line);
            proof {
                assert(before + (seq![line] + rest) =~= before.push(line) + rest);
            }
        }
        if stop == len {
            at = len;
        } else {
            at = stop + 1;
        }
        proof {
            assert(lines_from(bytes@, at as int) == rest);
        }
    }
    proof {
        assert(lines@ + Seq::<Line>::empty() =~= lines@);
    }
    lines
}

/// Whether a byte is a decimal digit.
pub open spec fn is_digit(b: u8) -> bool {
    48 <= b <= 57
}

/// The value of a decimal digit.
pub open spec fn digit_value(b: u8) -> nat {
    if is_digit(b) {
        (b - 48) as nat
    } else {
        0
    }
}

/// The number that decimal digits stand for.
pub open spec fn decimal_nat(s: Seq<u8>) -> nat
    decreases s.len(),
{
    if s.len() == 0 {
        0
    } else {
        decimal_nat(s.drop_last()) * 10 + digit_value(s.last())
    }
}

/// The number that a text stands for in decimal notation: the text is made
/// of decimal digits, at least one, and the number fits in 64 bits.
pub open spec fn parse_decimal(s: Seq<u8>) -> Option<u64> {
    if s.len() > 0 && (forall|i: int| 0 <= i < s.len() ==> is_digit(#[trigger] s[i]))
        && decimal_nat(s) <= u64::MAX {
        Some(decimal_nat(s) as u64)
    } else {
        None
    }
}

/// Whether a byte is a hexadecimal digit.
pub open spec fn is_hex_digit(b: u8) -> bool {
    is_digit(b) || 97 <= b <= 102 || 65 <= b <= 70
}

/// The value of a hexadecimal digit.
pub open spec fn hex_digit_value(b: u8) -> nat {
    if is_digit(b) {
        (b - 48) as nat
    } else if 97 <= b <= 102 {
        (b - 87) as nat
    } else if 65 <= b <= 70 {
        (b - 55) as nat
    } else {
        0
    }
}

/// The number that hexadecimal digits stand for.
pub open spec fn hex_nat(s: Seq<u8>) -> nat
    decreases s.len(),
{
    if s.len() == 0 {
        0
    } else {
        hex_nat(s.drop_last()) * 16 + hex_digit_value(s.last())
    }
}

/// The number that a text stands for in hexadecimal notation: the text is
/// made of hexadecimal digits, at least one, and the number fits in 64 bits.
pub open spec fn parse_hex(s: Seq<u8>) -> Option<u64> {
    if s.len() > 0 && (forall|i: int| 0 <= i < s.len() ==> is_hex_digit(#[trigger] s[i]))
        && hex_nat(s) <= u64::MAX {
        Some(hex_nat(s) as u64)
    } else {
        None
    }
}

/// Whether a text starts with `0x` or `0X`.
pub open spec fn has_hex_prefix(s: Seq<u8>) -> bool {
    s.len() >= 2 && s[0] == 48 && (s[1] == 120 || s[1] == 88)
}

/// The number that a text stands for: in hexadecimal notation after `0x`,
/// in decimal notation otherwise.
pub open spec fn parse_number(s: Seq<u8>) -> Option<u64> {
    if has_hex_prefix(s) {
        parse_hex(s.skip(2))
    } else {
        parse_decimal(s)
    }
}

/// The number that the first digits of a text stand for is not above the
/// number that all of them stand for.
pub proof fn lemma_decimal_prefix(s: Seq<u8>, k: int)
    requires
        0 <= k <= s.len(),
    ensures
        decimal_nat(s.take(k)) <= decimal_nat(s),
    decreases s.len(),
{
    if k == s.len() {
        assert(s.take(k) =~= s);
    } else {
        assert(s.drop_last().take(k) =~= s.take(k));
        lemma_decimal_prefix(s.drop_last(), k);
    }
}

/// The same for hexadecimal digits.
pub proof fn lemma_hex_prefix(s: Seq<u8>, k: int)
    requires
        0 <= k <= s.len(),
    ensures
        hex_nat(s.take(k)) <= hex_nat(s),
    decreases s.len(),
{
    if k == s.len() {
        assert(s.take(k) =~= s);
    } else {
        assert(s.drop_last().take(k) =~= s.take(k));
        lemma_hex_prefix(s.drop_last(), k);
    }
}

/// Reads the bytes from `from` up to `to` as a number in decimal notation.
pub fn read_decimal(bytes: &[u8], from: usize, to: usize) -> (r: Option<u64>)
    requires
        from <= to <= bytes@.len(),
    ensures
        r == parse_decimal(bytes@.subrange(from as int, to as int)),
{
    let ghost s = bytes@.subrange(from as int, to as int);
    if from == to {
        return None;
    }
    let mut acc: u64 = 0;
    let mut i: usize = from;
    proof {
        assert(s.take(0) =~= Seq::<u8>::empty());
    }
    while i < to
        invariant
            from <= i <= to <= bytes@.len(),
            s == bytes@.subrange(from as int, to as int),
            acc == decimal_nat(s.take(i - from)),
            forall|k: int| 0 <= k < i - from ==> is_digit(#[trigger] s[k]),
        decreases to - i,
    {
        let b: u8 = bytes[i];
        if b < 48 || b > 57 {
            proof {
                assert(!is_digit(s[i - from]));
            }
            return None;
        }
        let d: u64 = (b - 48) as u64;
        proof {
            assert(s.take(i - from + 1).drop_last() =~= s.take(i - from));
            assert(s.take(i - from + 1).last() == b);
        }
        if acc > (u64::MAX - d) / 10 {
            proof {
                lemma_decimal_prefix(s, i - from + 1);
            }
            return None;
        }
        acc = acc * 10 + d;
        i = i + 1;
    }
    proof {
        assert(s.take(to - from) =~= s);
    }
    Some(acc)
}

/// Reads the bytes from `from` up to `to` as a number in hexadecimal
/// notation.
pub fn read_hex(bytes: &[u8], from: usize, to: usize) -> (r: Option<u64>)
    requires
        from <= to <= bytes@.len(),
    ensures
        r == parse_hex(bytes@.subrange(from as int, to as int)),
{
    let ghost s = bytes@.subrange(from as int, to as int);
    if from == to {
        return None;
    }
    let mut acc: u64 = 0;
    let mut i: usize = from;
    proof {
        assert(s.take(0) =~= Seq::<u8>::empty());
    }
    while i < to
        invariant
            from <= i <= to <= bytes@.len(),
            s == bytes@.subrange(from as int, to as int),
            acc == hex_nat(s.take(i - from)),
            forall|k: int| 0 <= k < i - from ==> is_hex_digit(#[trigger] s[k]),
        decreases to - i,
    {
        let b: u8 = bytes[i];
        let d: u64 = if 48 <= b && b <= 57 {
            (b - 48) as u64
        } else if 97 <= b && b <= 102 {
            (b - 87) as u64
        } else if 65 <= b && b <= 70 {
            (b - 55) as u64
        } else {
            proof {
                assert(!is_hex_digit(s[i - from]));
            }
            return None;
        };
        proof {
            assert(s.take(i - from + 1).drop_last() =~= s.take(i - from));
            assert(s.take(i - from + 1).last() == b);
        }
        if acc > (u64::MAX - d) / 16 {
            proof {
                lemma_hex_prefix(s, i - from + 1);
            }
            return None;
        }
        acc = acc * 16 + d;
        i = i + 1;
    }
    proof {
        assert(s.take(to - from) =~= s);
    }
    Some(acc)
}

/// Reads the bytes from `from` up to `to` as a number.
pub fn read_number(bytes: &[u8], from: usize, to: usize) -> (r: Option<u64>)
    requires
        from <= to <= bytes@.len(),
    ensures
        r == parse_number(bytes@.subrange(from as int, to as int)),
{
    let ghost s = bytes@.subrange(from as int, to as int);
    if to - from >= 2 && bytes[from] == 48 && (bytes[from + 1] == 120 || bytes[from + 1] == 88) {
        proof {
            assert(s[0] == bytes@[from as int] && s[1] == bytes@[from + 1]);
            assert(s.skip(2) =~= bytes@.subrange(from + 2, to as int));
        }
        read_hex(bytes, from + 2, to)
    } else {
        proof {
            if s.len() >= 2 {
                assert(s[0] == bytes@[from as int] && s[1] == bytes@[from + 1]);
            }
        }
        read_decimal(bytes, from, to)
    }
}

} // verus!
