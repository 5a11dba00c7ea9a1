//! Byte-level output helpers: indentation, decimal numbers and quoted text.
use vstd::prelude::*;
use vstd::string::StringSliceAdditionalSpecFns;

verus! {

/// `n` space characters.
pub open spec fn blank(n: nat) -> Seq<u8> {
    Seq::new(n, |i: int| 32u8)
}

/// The two-character escape of a byte that needs one, or the byte itself.
pub open spec fn escape_byte(b: u8) -> Seq<u8> {
    if b == 34u8 {
        seq![92u8, 34u8]
    } else if b == 92u8 {
        seq![92u8, 92u8]
    } else if b == 8u8 {
        seq![92u8, 98u8]
    } else if b == 12u8 {
        seq![92u8, 102u8]
    } else if b == 10u8 {
        seq![92u8, 110u8]
    } else if b == 13u8 {
        seq![92u8, 114u8]
    } else if b == 9u8 {
        seq![92u8, 116u8]
    } else {
        seq![b]
    }
}

/// Whether a byte is written through unchanged.
pub open spec fn is_plain(b: u8) -> bool {
    b != 34u8 && b != 92u8 && b != 8u8 && b != 12u8 && b != 10u8 && b != 13u8 && b != 9u8
}

/// Every byte of `s` replaced by its escape, left to right.
pub open spec fn escaped(s: Seq<u8>) -> Seq<u8>
    decreases s.len(),
{
    if s.len() == 0 {
        Seq::empty()
    } else {
        escaped(s.drop_last()) + escape_byte(s.last())
    }
}

/// The escaped bytes of `s` between double quotes.
pub open spec fn quoted(s: Seq<u8>) -> Seq<u8> {
    seq![34u8] + escaped(s) + seq![34u8]
}

/// The decimal digits of `n`, most significant first, without leading zeros.
pub open spec fn digits(n: nat) -> Seq<u8>
    decreases n,
{
    if n < 10 {
        seq![(48 + n) as u8]
    } else {
        digits(n / 10) + seq![(48 + n % 10) as u8]
    }
}

/// The decimal text of a signed integer: a minus sign before negative ones.
pub open spec fn int_text(n: int) -> Seq<u8> {
    if n < 0 {
        seq![45u8] + digits((-n) as nat)
    } else {
        digits(n as nat)
    }
}

/// A run of plain bytes is its own escape.
proof fn lemma_escaped_plain_run(s: Seq<u8>, start: int, end: int)
    requires
        0 <= start <= end <= s.len(),
        forall|k: int| start <= k < end ==> is_plain(#[trigger] s[k]),
    ensures
        escaped(s.subrange(0, end)) == escaped(s.subrange(0, start)) + s.subrange(start, end),
    decreases end - start,
{
    if end > start {
        lemma_escaped_plain_run(s, start, end - 1);
        assert(s.subrange(0, end).drop_last() =~= s.subrange(0, end - 1));
        assert(s.subrange(start, end) =~= s.subrange(start, end - 1).push(s[end - 1]));
        assert(escape_byte(s[end - 1]) =~= seq![s[end - 1]]);
        assert(escaped(s.subrange(0, end)) =~= escaped(s.subrange(0, start)) + s.subrange(start, end));
    } else {
        assert(s.subrange(start, end) =~= Seq::<u8>::empty());
        assert(escaped(s.subrange(0, start)) + s.subrange(start, end) =~= escaped(s.subrange(0, start)));
    }
}

/// Appends the bytes `s[start..end]`.
fn write_run(out: &mut Vec<u8>, s: &[u8], start: usize, end: usize)
    requires
        start <= end <= s@.len(),
    ensures
        final(out)@ == old(out)@ + s@.subrange(start as int, end as int),
{
    let mut i: usize = start;
    while i < end
        invariant
            start <= i <= end <= s@.len(),
            out@ == old(out)@ + s@.subrange(start as int, i as int),
        decreases end - i,
    {
        out.push(s[i]);
        i = i + 1;
        assert(out@ =~= old(out)@ + s@.subrange(start as int, i as int));
    }
}

/// Appends all of `s`.
pub(crate) fn write_bytes(out: &mut Vec<u8>, s: &[u8])
    ensures
        final(out)@ == old(out)@ + s@,
{
    write_run(out, s, 0, s.len());
    assert(s@.subrange(0, s@.len() as int) =~= s@);
}

/// Appends `n` space characters to `out`.
pub fn spaces(out: &mut Vec<u8>, n: usize)
    ensures
        final(out)@ == old(out)@ + blank(n as nat),
{
    let mut i: usize = 0;
    while i < n
        invariant
            i <= n,
            out@ == old(out)@ + blank(i as nat),
        decreases n - i,
    {
        out.push(32u8);
        i = i + 1;
        assert(out@ =~= old(out)@ + blank(i as nat));
    }
}

/// The escape of one byte that needs one, or `None` for a plain byte.
fn escape_of(b: u8) -> (r: Option<u8>)
    ensures
        r is None <==> is_plain(b),
        r matches Some(c) ==> escape_byte(b) == seq![92u8, c],
{
    if b == 34u8 {
        Some(34u8)
    } else if b == 92u8 {
        Some(92u8)
    } else if b == 8u8 {
        Some(98u8)
    } else if b == 12u8 {
        Some(102u8)
    } else if b == 10u8 {
        Some(110u8)
    } else if b == 13u8 {
        Some(114u8)
    } else if b == 9u8 {
        Some(116u8)
    } else {
        None
    }
}

/// Appends `bytes` as a double-quoted literal: `"`, `\`, backspace, form
/// feed, newline, carriage return and tab become two-character escapes, and
/// every other byte passes through. Runs of plain bytes are copied in one go.
pub fn escape_bytes(out: &mut Vec<u8>, bytes: &[u8])
    ensures
        final(out)@ == old(out)@ + quoted(bytes@),
{
    out.push(34u8);
    let mut start: usize = 0;
    let mut i: usize = 0;
    while i < bytes.len()
        invariant
            start <= i <= bytes@.len(),
            out@ == old(out)@ + seq![34u8] + escaped(bytes@.subrange(0, start as int)),
            forall|k: int| start <= k < i ==> is_plain(#[trigger] bytes@[k]),
        decreases bytes@.len() - i,
    {
        let b = bytes[i];
        match escape_of(b) {
            Some(c) => {
                proof {
                    lemma_escaped_plain_run(bytes@, start as int, i as int);
                }
                write_run(out, bytes, start, i);
                out.push(92u8);
                out.push(c);
                proof {
                    let s = bytes@.subrange(0, i as int + 1);
                    assert(s.drop_last() =~= bytes@.subrange(0, i as int));
                    assert(s.last() == b);
                    assert(out@ =~= old(out)@ + seq![34u8] + escaped(s));
                }
                start = i + 1;
            },
            None => {},
        }
        i = i + 1;
    }
    proof {
        lemma_escaped_plain_run(bytes@, start as int, i as int);
        assert(bytes@.subrange(0, i as int) =~= bytes@);
    }
    write_run(out, bytes, start, i);
    out.push(34u8);
    assert(out@ =~= old(out)@ + quoted(bytes@));
}

/// Appends the UTF-8 bytes of `value` as a quoted literal (see `escape_bytes`).
pub fn escape_str(out: &mut Vec<u8>, value: &str)
    ensures
        final(out)@ == old(out)@ + quoted(value.spec_bytes()),
{
    escape_bytes(out, value.as_bytes())
}

/// Appends the decimal digits of `n`.
pub(crate) fn write_unsigned(out: &mut Vec<u8>, n: u64)
    ensures
        final(out)@ == old(out)@ + digits(n as nat),
    decreases n,
{
    if n >= 10 {
        write_unsigned(out, n / 10);
    }
    let d: u8 = (n % 10) as u8;
    out.push(48u8 + d);
    assert(out@ =~= old(out)@ + digits(n as nat));
}

/// Appends the decimal text of `n`, with a minus sign when it is negative.
pub(crate) fn write_signed(out: &mut Vec<u8>, n: i64)
    ensures
        final(out)@ == old(out)@ + int_text(n as int),
{
    if n < 0 {
        out.push(45u8);
        let m: u64 = (0i128 - n as i128) as u64;
        write_unsigned(out, m);
        assert(out@ =~= old(out)@ + int_text(n as int));
    } else {
        write_unsigned(out, n as u64);
    }
}

} // verus!
