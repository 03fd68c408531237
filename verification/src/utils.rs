//! Byte-level helpers shared by the frame decoders: recognizing the two-byte
//! line delimiter (carriage return, line feed), finding the end of a line,
//! and trimming zero-padded read buffers.

use crate::constants::{ASCII_CARRIAGE_RETURN, ASCII_LINE_FEED};
use crate::server::SerializeError;
use vstd::prelude::*;

verus! {

/// A line delimiter stands at `i` when the byte there is a line feed directly
/// preceded by a carriage return. Positions 0 and 1 never count: a frame
/// begins with at least a marker byte and one digit before its first
/// delimiter.
pub open spec fn is_delim_at(s: Seq<u8>, i: int) -> bool {
    &&& 2 <= i < s.len()
    &&& s[i] == 10
    &&& s[i - 1] == 13
}

/// How many line delimiters stand strictly before position `n`.
pub open spec fn delim_count(s: Seq<u8>, n: int) -> int
    decreases n,
{
    if n <= 0 {
        0
    } else {
        delim_count(s, n - 1) + if is_delim_at(s, n - 1) {
            1int
        } else {
            0int
        }
    }
}

/// Appending bytes moves no delimiter that already lies within the original
/// prefix.
pub proof fn lemma_delim_count_append(s: Seq<u8>, t: Seq<u8>, n: int)
    requires
        n <= s.len(),
    ensures
        delim_count(s + t, n) == delim_count(s, n),
    decreases n,
{
    if n > 0 {
        lemma_delim_count_append(s, t, n - 1);
        assert(is_delim_at(s + t, n - 1) == is_delim_at(s, n - 1));
    }
}

/// Scanning further never lowers the delimiter count.
pub proof fn lemma_delim_count_monotone(s: Seq<u8>, m: int, n: int)
    requires
        m <= n,
    ensures
        delim_count(s, m) <= delim_count(s, n),
    decreases n - m,
{
    if m < n {
        lemma_delim_count_monotone(s, m, n - 1);
    }
}

/// The count up to `n` never exceeds the positions scanned.
pub proof fn lemma_delim_count_bound(s: Seq<u8>, n: int)
    ensures
        0 <= delim_count(s, n) <= if n <= 0 {
            0int
        } else {
            n
        },
    decreases n,
{
    if n > 0 {
        lemma_delim_count_bound(s, n - 1);
    }
}

/// `e` is the end of the line starting at `start`: the first delimiter at or
/// after `start`, with no zero byte standing before it.
pub open spec fn eol_found(s: Seq<u8>, start: int, e: int) -> bool {
    &&& start <= e
    &&& is_delim_at(s, e)
    &&& forall|j: int| start <= j < e ==> !is_delim_at(s, j) && s[j] != 0
}

/// Some line starting at `start` ends in a delimiter before any zero byte.
pub open spec fn has_eol(s: Seq<u8>, start: int) -> bool {
    exists|e: int| eol_found(s, start, e)
}

/// The end of the line starting at `start`, where one exists.
pub open spec fn the_eol(s: Seq<u8>, start: int) -> int {
    choose|e: int| eol_found(s, start, e)
}

/// At most one position ends the line starting at `start`.
pub proof fn lemma_eol_unique(s: Seq<u8>, start: int, e1: int, e2: int)
    requires
        eol_found(s, start, e1),
        eol_found(s, start, e2),
    ensures
        e1 == e2,
{
    if e1 < e2 {
        assert(!is_delim_at(s, e1));
    }
    if e2 < e1 {
        assert(!is_delim_at(s, e2));
    }
}

/// Where the scan for a zero byte starting at `start` stops: just before the
/// first zero byte after `start`, or at the second-to-last position of the
/// buffer, whichever comes first.
pub open spec fn spec_zero_byte_index(s: Seq<u8>, start: int) -> int
    decreases s.len() - start,
{
    if start + 1 < s.len() - 1 && s[start + 1] > 0 {
        spec_zero_byte_index(s, start + 1)
    } else {
        start
    }
}

pub proof fn lemma_zero_byte_index_bounds(s: Seq<u8>, start: int)
    requires
        0 <= start,
    ensures
        start <= spec_zero_byte_index(s, start),
        spec_zero_byte_index(s, start) <= if start <= s.len() - 2 {
            s.len() - 2
        } else {
            start
        },
    decreases s.len() - start,
{
    if start + 1 < s.len() - 1 && s[start + 1] > 0 {
        lemma_zero_byte_index_bounds(s, start + 1);
    }
}

/// The end of the line read from `start`: its delimiter where one exists, the
/// zero-byte cutoff otherwise.
pub open spec fn spec_line_end(s: Seq<u8>, start: int) -> int {
    if has_eol(s, start) {
        the_eol(s, start)
    } else {
        spec_zero_byte_index(s, start)
    }
}

pub open spec fn is_digit(b: u8) -> bool {
    48 <= b <= 57
}

pub open spec fn all_digits(s: Seq<u8>) -> bool {
    forall|i: int| 0 <= i < s.len() ==> is_digit(#[trigger] s[i])
}

/// The value of a sequence of decimal digit bytes, most significant first.
pub open spec fn dec_value(s: Seq<u8>) -> int
    decreases s.len(),
{
    if s.len() == 0 {
        0
    } else {
        dec_value(s.drop_last()) * 10 + (s.last() - 48)
    }
}

/// What parsing a decimal integer from `s` yields: its value when `s` is one
/// or more digit bytes, nothing otherwise.
pub open spec fn parse_dec(s: Seq<u8>) -> Option<int> {
    if s.len() > 0 && all_digits(s) {
        Some(dec_value(s))
    } else {
        None
    }
}

pub proof fn lemma_dec_value_nonneg(s: Seq<u8>)
    requires
        all_digits(s),
    ensures
        dec_value(s) >= 0,
    decreases s.len(),
{
    if s.len() > 0 {
        assert(all_digits(s.drop_last()));
        lemma_dec_value_nonneg(s.drop_last());
    }
}

/// Reading further digits never lowers the value seen so far.
pub proof fn lemma_dec_value_prefix(s: Seq<u8>, n: int)
    requires
        all_digits(s),
        0 <= n <= s.len(),
    ensures
        dec_value(s.take(n)) <= dec_value(s),
    decreases s.len() - n,
{
    if n < s.len() {
        lemma_dec_value_prefix(s, n + 1);
        assert(s.take(n + 1).drop_last() =~= s.take(n));
        assert(all_digits(s.take(n)));
        lemma_dec_value_nonneg(s.take(n));
        assert(dec_value(s.take(n + 1)) == dec_value(s.take(n)) * 10 + (s[n] - 48));
    } else {
        assert(s.take(n) =~= s);
    }
}

/// Parses a decimal integer from digit bytes; nothing when a byte is not a
/// digit, the sequence is empty, or the value does not fit in `usize`.
pub fn parse_decimal(s: &[u8]) -> (r: Option<usize>)
    ensures
        r is Some <==> s@.len() > 0 && all_digits(s@) && dec_value(s@) <= usize::MAX,
        r matches Some(v) ==> v as int == dec_value(s@),
{
    let n = s.len();
    if n == 0 {
        return None;
    }
    let mut acc: usize = 0;
    let mut i: usize = 0;
    while i < n
        invariant
            n == s@.len(),
            0 <= i <= n,
            all_digits(s@.take(i as int)),
            acc as int == dec_value(s@.take(i as int)),
        decreases n - i,
    {
        let b = s[i];
        if b < 48 || b > 57 {
            assert(!is_digit(s@[i as int]));
            return None;
        }
        let d = (b - 48) as usize;
        if acc > (usize::MAX - d) / 10 {
            proof {
                assert(acc as int * 10 + d > usize::MAX);
                assert(s@.take(i as int + 1).drop_last() =~= s@.take(i as int));
                assert(dec_value(s@.take(i as int + 1)) == acc as int * 10 + d);
                if all_digits(s@) {
                    lemma_dec_value_prefix(s@, i as int + 1);
                }
            }
            return None;
        }
        proof {
            assert(s@.take(i as int + 1).drop_last() =~= s@.take(i as int));
        }
        acc = acc * 10 + d;
        i += 1;
    }
    proof {
        assert(s@.take(n as int) =~= s@);
    }
    Some(acc)
}

/// Whether `index` stands at a line delimiter in `buff`.
pub fn index_is_at_delimiter(index: usize, buff: &[u8]) -> (r: bool)
    ensures
        r == is_delim_at(buff@, index as int),
{
    index < buff.len() && 2 <= index && buff[index] == ASCII_LINE_FEED && buff[index - 1]
        == ASCII_CARRIAGE_RETURN
}

/// Finds the end of the line starting at `start`: the first delimiter not
/// preceded by a zero byte. Fails with `IncompleteLine` when the line has not
/// fully arrived.
pub fn get_eol_index(start: usize, buff: &[u8]) -> (r: Result<usize, SerializeError>)
    requires
        buff@.len() >= 1,
    ensures
        match r {
            Ok(e) => eol_found(buff@, start as int, e as int),
            Err(err) => err == SerializeError::IncompleteLine && !has_eol(buff@, start as int),
        },
{
    let mut end = start;
    while end < buff.len() - 1 && buff[end] != 0 && !index_is_at_delimiter(end, buff)
        invariant
            buff@.len() >= 1,
            start <= end,
            forall|j: int| start <= j < end ==> !is_delim_at(buff@, j) && buff@[j] != 0,
        decreases buff@.len() - end,
    {
        end += 1;
    }
    if !index_is_at_delimiter(end, buff) {
        assert(!has_eol(buff@, start as int)) by {
            if has_eol(buff@, start as int) {
                let e = the_eol(buff@, start as int);
                assert(eol_found(buff@, start as int, e));
                // The scan stopped at `end` without finding a delimiter, so a
                // delimiter at `e` would have to lie beyond `end`; but then the
                // stop at `end` was a zero byte or the buffer's edge, both of
                // which contradict `eol_found`.
                if e < end {
                    assert(!is_delim_at(buff@, e));
                } else {
                    assert(end < e);
                    assert(!(end < buff@.len() - 1) || buff@[end as int] == 0);
                }
            }
        };
        return Err(SerializeError::IncompleteLine);
    }
    Ok(end)
}

/// Where the scan for a zero byte stops, starting at `start`.
pub fn get_zero_byte_index(start: usize, buff: &[u8]) -> (r: usize)
    requires
        start < buff@.len(),
    ensures
        r as int == spec_zero_byte_index(buff@, start as int),
        r < buff@.len(),
{
    let n = buff.len();
    let mut end = start;
    while end + 1 < n - 1 && buff[end + 1] > 0
        invariant
            n == buff@.len(),
            start <= end < n,
            spec_zero_byte_index(buff@, end as int) == spec_zero_byte_index(
                buff@,
                start as int,
            ),
        decreases buff@.len() - end,
    {
        end += 1;
    }
    end
}

/// Trims a zero-padded read buffer to its meaningful prefix.
pub fn remove_empty_data(buff: &[u8]) -> (r: &[u8])
    requires
        buff@.len() >= 1,
    ensures
        r@ == buff@.subrange(0, spec_zero_byte_index(buff@, 0) + 1),
{
    let n = buff.len();
    let end_of_buff = get_zero_byte_index(0, buff);
    assert(end_of_buff < n);
    &buff[0..end_of_buff + 1]
}

/// Reads one line from `start`: through its delimiter when the line is
/// complete, through the zero-byte cutoff otherwise.
pub fn read_line<'a>(start: usize, buff: &'a [u8]) -> (r: &'a [u8])
    requires
        start < buff@.len(),
    ensures
        r@ == buff@.subrange(start as int, spec_line_end(buff@, start as int) + 1),
        start <= spec_line_end(buff@, start as int) < buff@.len(),
{
    let n = buff.len();
    let eol_idx_result = get_eol_index(start, buff);
    match eol_idx_result {
        Ok(e) => {
            proof {
                lemma_eol_unique(buff@, start as int, e as int, the_eol(buff@, start as int));
            }
            assert(e < n);
            &buff[start..e + 1]
        },
        Err(_) => {
            let z = get_zero_byte_index(start, buff);
            proof {
                lemma_zero_byte_index_bounds(buff@, start as int);
            }
            assert(z < n);
            &buff[start..z + 1]
        },
    }
}

/// The text of a buffer, leaving out the line delimiter that ends it, if
/// one does. Fails with `UnsupportedTextEncoding` when the bytes read are
/// not valid UTF-8.
pub fn from_utf8_without_delimiter(buff: &[u8]) -> (r: Result<&str, SerializeError>)
    requires
        buff@.len() >= 1,
    ensures
        ({
            let cut = if is_delim_at(buff@, buff@.len() - 1) {
                buff@.len() - 3
            } else {
                buff@.len() - 1
            };
            match r {
                Ok(s) => vstd::utf8::valid_utf8(buff@.subrange(0, cut + 1)) && s@
                    == vstd::utf8::decode_utf8(buff@.subrange(0, cut + 1)),
                Err(e) => e == SerializeError::UnsupportedTextEncoding
                    && !vstd::utf8::valid_utf8(buff@.subrange(0, cut + 1)),
            }
        }),
{
    let buff_end = buff.len() - 1;
    let buff_read_to: usize = if index_is_at_delimiter(buff_end, buff) {
        buff_end - 2
    } else {
        buff_end
    };
    let prefix = &buff[0..buff_read_to + 1];
    assert(prefix@ =~= buff@.subrange(
        0,
        if is_delim_at(buff@, buff@.len() - 1) {
            buff@.len() - 2
        } else {
            buff@.len() as int
        },
    ));
    match core::str::from_utf8(prefix) {
        Ok(s) => Ok(s),
        Err(_) => Err(SerializeError::UnsupportedTextEncoding),
    }
}

} // verus!
