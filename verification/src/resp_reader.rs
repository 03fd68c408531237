//! A frame decoder that consumes its input one byte at a time, recording the
//! position after each line delimiter, parsing the element count as soon as
//! the header line's delimiter arrives, and stopping exactly at the byte that
//! completes the frame, so that the bytes of a following frame in the same
//! buffer stay unconsumed.

use crate::constants::{RESP_BUFFER_SIZE, RESP_COMMAND_ARG_SIZE};
use crate::server::SerializeError;
use crate::utils::{delim_count, index_is_at_delimiter, is_delim_at, parse_dec, parse_decimal};
use vstd::prelude::*;

verus! {

pub type Result<T> = core::result::Result<T, SerializeError>;

/// One fixed-size read buffer, zero-padded past `bytes_read`.
#[derive(Debug, Clone)]
pub struct RespBuffer {
    pub data: [u8; RESP_BUFFER_SIZE],
    pub bytes_read: usize,
}

/// The position of the first line delimiter at or after `i`.
pub open spec fn spec_first_delim(s: Seq<u8>, i: int) -> Option<int>
    decreases s.len() - i,
{
    if i >= s.len() {
        None
    } else if is_delim_at(s, i) {
        Some(i)
    } else {
        spec_first_delim(s, i + 1)
    }
}

/// The positions just after each line delimiter among the first `n` bytes,
/// in order.
pub open spec fn spec_break_positions(s: Seq<u8>, n: int) -> Seq<int>
    decreases n,
{
    if n <= 0 {
        Seq::empty()
    } else {
        spec_break_positions(s, n - 1) + if is_delim_at(s, n - 1) {
            seq![n]
        } else {
            Seq::<int>::empty()
        }
    }
}

/// The expected delimiter count declared by the header line, read at the
/// first delimiter: the digit bytes between the marker and the delimiter's
/// carriage return give `N`, and `2 * N + 1` delimiters are expected (at most
/// `u32::MAX`). Nothing before the first delimiter, or when the digits do
/// not parse.
pub open spec fn rr_expected(s: Seq<u8>) -> Option<int> {
    match spec_first_delim(s, 0) {
        Some(p) => {
            let digits = if p >= 3 {
                s.subrange(1, p - 1)
            } else {
                Seq::<u8>::empty()
            };
            match parse_dec(digits) {
                Some(v) => if 2 * v + 1 <= u32::MAX {
                    Some(2 * v + 1)
                } else {
                    None
                },
                None => None,
            }
        },
        None => None,
    }
}

/// The frame made of the bytes `s` is complete.
pub open spec fn rr_complete(s: Seq<u8>) -> bool {
    &&& rr_expected(s) matches Some(n)
    &&& delim_count(s, s.len() as int) >= n
}

/// The byte just consumed ended a line delimiter while no expected count
/// could be read: the unreadable-header error state.
pub open spec fn rr_err(s: Seq<u8>) -> bool {
    &&& s.len() >= 1
    &&& is_delim_at(s, s.len() - 1)
    &&& rr_expected(s) is None
}

/// How many bytes of `buff` the reader already holding `data` consumes:
/// bytes are taken one at a time until the accumulated bytes complete a frame
/// or hit the unreadable-header error, or the buffer runs out.
pub open spec fn rr_consumed(data: Seq<u8>, buff: Seq<u8>, i: int) -> int
    decreases buff.len() - i,
{
    if 0 <= i < buff.len() {
        let s = data + buff.subrange(0, i + 1);
        if rr_complete(s) || rr_err(s) {
            i + 1
        } else {
            rr_consumed(data, buff, i + 1)
        }
    } else {
        i
    }
}

pub proof fn lemma_first_delim_props(s: Seq<u8>, i: int)
    ensures
        match spec_first_delim(s, i) {
            Some(p) => i <= p < s.len() && is_delim_at(s, p) && (forall|j: int|
                i <= j < p ==> !is_delim_at(s, j)),
            None => forall|j: int| i <= j < s.len() ==> !is_delim_at(s, j),
        },
    decreases s.len() - i,
{
    if i < s.len() && !is_delim_at(s, i) {
        lemma_first_delim_props(s, i + 1);
    }
}

pub proof fn lemma_first_delim_determined(s: Seq<u8>, i: int, p: int)
    requires
        i <= p < s.len(),
        is_delim_at(s, p),
        forall|j: int| i <= j < p ==> !is_delim_at(s, j),
    ensures
        spec_first_delim(s, i) == Some(p),
    decreases p - i,
{
    if i < p {
        lemma_first_delim_determined(s, i + 1, p);
    }
}

/// Appending bytes moves no first delimiter that already exists, hence
/// changes no already-declared (or already-failed) header reading.
pub proof fn lemma_rr_expected_append(s: Seq<u8>, t: Seq<u8>)
    requires
        spec_first_delim(s, 0) is Some,
    ensures
        spec_first_delim(s + t, 0) == spec_first_delim(s, 0),
        rr_expected(s + t) == rr_expected(s),
{
    lemma_first_delim_props(s, 0);
    let p = spec_first_delim(s, 0)->0;
    assert(is_delim_at(s + t, p));
    assert forall|j: int| 0 <= j < p implies !is_delim_at(s + t, j) by {
        if 2 <= j {
            assert(!is_delim_at(s, j));
            assert((s + t)[j] == s[j]);
            assert((s + t)[j - 1] == s[j - 1]);
        }
    }
    lemma_first_delim_determined(s + t, 0, p);
    if p >= 3 {
        assert((s + t).subrange(1, p - 1) =~= s.subrange(1, p - 1));
    }
}

/// Appending bytes that hold no delimiter leaves the header reading as it
/// was.
pub proof fn lemma_rr_expected_append_no_delim(s: Seq<u8>, t: Seq<u8>)
    requires
        spec_first_delim(s, 0) is None,
        forall|j: int| s.len() <= j < (s + t).len() ==> !is_delim_at(s + t, j),
    ensures
        spec_first_delim(s + t, 0) is None,
        rr_expected(s + t) is None,
{
    lemma_first_delim_props(s, 0);
    lemma_first_delim_props(s + t, 0);
    if spec_first_delim(s + t, 0) is Some {
        let p = spec_first_delim(s + t, 0)->0;
        if p < s.len() {
            assert(is_delim_at(s, p));
        }
        assert(false);
    }
}

/// Break positions already recorded stay where they are as bytes arrive.
pub proof fn lemma_break_positions_append(s: Seq<u8>, t: Seq<u8>, n: int)
    requires
        n <= s.len(),
    ensures
        spec_break_positions(s + t, n) == spec_break_positions(s, n),
    decreases n,
{
    if n > 0 {
        lemma_break_positions_append(s, t, n - 1);
        assert(is_delim_at(s + t, n - 1) == is_delim_at(s, n - 1));
    }
}

/// Where no delimiter stands, the count is zero.
pub proof fn lemma_delim_count_zero(s: Seq<u8>, n: int)
    requires
        forall|j: int| 0 <= j < n ==> !is_delim_at(s, j),
    ensures
        delim_count(s, n) == 0,
    decreases n,
{
    if n > 0 {
        lemma_delim_count_zero(s, n - 1);
    }
}

/// A read consumes at least one byte and at most the whole buffer.
pub proof fn lemma_rr_consumed_bounds(data: Seq<u8>, buff: Seq<u8>, i: int)
    requires
        0 <= i <= buff.len(),
    ensures
        i <= rr_consumed(data, buff, i) <= buff.len(),
        i < buff.len() ==> i + 1 <= rr_consumed(data, buff, i),
    decreases buff.len() - i,
{
    if i < buff.len() {
        lemma_rr_consumed_bounds(data, buff, i + 1);
    }
}

/// The incremental byte-at-a-time frame decoder.
#[derive(Debug, Clone)]
pub struct RespReader {
    pub data: Vec<u8>,
    pub data_line_break_positions: Vec<usize>,
    pub data_read: usize,
    pub size_set: bool,
    pub delimiters_read: u32,
    pub expected_delimiter_cnt: u32,
    pub reached_end_of_msg: bool,
}

impl RespReader {
    /// The recorded break positions, as mathematical integers.
    pub open spec fn breaks_view(self) -> Seq<int> {
        self.data_line_break_positions@.map_values(|v: usize| v as int)
    }

    /// Internal consistency: the delimiter count and break positions match
    /// the accumulated bytes, the cached expected count matches the header,
    /// and the completion flag reports exactly whether the frame is complete.
    pub open spec fn wf(self) -> bool {
        &&& self.delimiters_read as int == delim_count(self.data@, self.data@.len() as int)
        &&& self.breaks_view() == spec_break_positions(self.data@, self.data@.len() as int)
        &&& self.size_set <==> rr_expected(self.data@) is Some
        &&& (self.size_set ==> self.expected_delimiter_cnt as int == rr_expected(self.data@)->0
            && self.delimiters_read <= self.expected_delimiter_cnt)
        &&& (!self.size_set ==> self.expected_delimiter_cnt == 0)
        &&& self.reached_end_of_msg == rr_complete(self.data@)
    }

    pub fn new() -> (r: Self)
        ensures
            r.wf(),
            r.data@ == Seq::<u8>::empty(),
            r.data_line_break_positions@ == Seq::<usize>::empty(),
            r.data_read == 0,
            !r.size_set,
            r.delimiters_read == 0,
            r.expected_delimiter_cnt == 0,
            !r.reached_end_of_msg,
    {
        let r = RespReader {
            data: Vec::with_capacity(RESP_BUFFER_SIZE),
            data_line_break_positions: Vec::with_capacity(RESP_COMMAND_ARG_SIZE),
            data_read: 0,
            size_set: false,
            delimiters_read: 0,
            expected_delimiter_cnt: 0,
            reached_end_of_msg: false,
        };
        proof {
            assert(r.breaks_view() =~= spec_break_positions(r.data@, 0));
        }
        r
    }

    /// Clears all state for the next frame.
    pub fn reset(&mut self)
        ensures
            final(self).wf(),
            final(self).data@ == Seq::<u8>::empty(),
            final(self).data_line_break_positions@ == Seq::<usize>::empty(),
            final(self).data_read == old(self).data_read,
            !final(self).size_set,
            final(self).delimiters_read == 0,
            final(self).expected_delimiter_cnt == 0,
            !final(self).reached_end_of_msg,
    {
        self.data.clear();
        self.data_line_break_positions.clear();
        self.size_set = false;
        self.delimiters_read = 0;
        self.expected_delimiter_cnt = 0;
        self.reached_end_of_msg = false;
        proof {
            assert(self.breaks_view() =~= spec_break_positions(self.data@, 0));
        }
    }

    /// Consumes bytes one at a time until the frame completes or the buffer
    /// runs out, and returns the index of the last byte consumed. Fails with
    /// `UnreadableCommandSize` when the header line's delimiter arrives
    /// without a readable element count.
    pub fn read(&mut self, buff: &[u8]) -> (r: Result<usize>)
        requires
            old(self).wf(),
            buff@.len() >= 1,
            !old(self).reached_end_of_msg,
            old(self).data@.len() + buff@.len() < u32::MAX,
        ensures
            final(self).wf(),
            final(self).data@ == old(self).data@ + buff@.subrange(
                0,
                rr_consumed(old(self).data@, buff@, 0),
            ),
            final(self).data_read == old(self).data_read,
            match r {
                Ok(v) => {
                    &&& v as int == rr_consumed(old(self).data@, buff@, 0) - 1
                    &&& !rr_err(final(self).data@)
                    &&& final(self).reached_end_of_msg == rr_complete(final(self).data@)
                    &&& (rr_complete(final(self).data@) || rr_consumed(old(self).data@, buff@, 0)
                        == buff@.len())
                },
                Err(e) => {
                    &&& e == SerializeError::UnreadableCommandSize
                    &&& rr_err(final(self).data@)
                    &&& !final(self).reached_end_of_msg
                },
            },
    {
        let ghost d0 = old(self).data@;
        let n = buff.len();
        let mut i: usize = 0;
        proof {
            assert(d0 + buff@.subrange(0, 0) =~= d0);
        }
        while i < n && !self.reached_end_of_msg
            invariant
                old(self).wf(),
                !old(self).reached_end_of_msg,
                d0 == old(self).data@,
                d0.len() + buff@.len() < u32::MAX,
                n == buff@.len(),
                i <= n,
                self.wf(),
                self.data@ == d0 + buff@.subrange(0, i as int),
                self.data_read == old(self).data_read,
                !self.reached_end_of_msg ==> rr_consumed(d0, buff@, i as int) == rr_consumed(
                    d0,
                    buff@,
                    0,
                ),
                self.reached_end_of_msg ==> i as int == rr_consumed(d0, buff@, 0) && i >= 1,
                i > 0 ==> !rr_err(self.data@),
            decreases n - i,
        {
            let ghost s_before = self.data@;
            let ghost b = seq![buff@[i as int]];
            self.data.push(buff[i]);
            let ghost s = self.data@;
            let ghost slen = s.len() as int;
            proof {
                assert(s =~= s_before + b);
                assert(s =~= d0 + buff@.subrange(0, i as int + 1));
                // The new byte changes no delimiter already counted and adds
                // at most the one at its own position.
                crate::utils::lemma_delim_count_append(s_before, b, s_before.len() as int);
                assert(delim_count(s, slen) == delim_count(s, slen - 1) + if is_delim_at(
                    s,
                    slen - 1,
                ) {
                    1int
                } else {
                    0int
                });
                lemma_break_positions_append(s_before, b, s_before.len() as int);
                assert(spec_break_positions(s, slen) == spec_break_positions(s, slen - 1)
                    + if is_delim_at(s, slen - 1) {
                    seq![slen]
                } else {
                    Seq::<int>::empty()
                });
                crate::utils::lemma_delim_count_bound(s_before, s_before.len() as int);
                assert(self.delimiters_read < u32::MAX - 1);
            }
            let p = self.data.len() - 1;
            if index_is_at_delimiter(p, self.data.as_slice()) {
                self.data_line_break_positions.push(self.data.len());
                proof {
                    assert(self.breaks_view() =~= spec_break_positions(s, slen));
                }
                self.delimiters_read = self.delimiters_read + 1;
                if !self.size_set {
                    let ghost first_case = spec_first_delim(s_before, 0) is None;
                    let digits: &[u8] = if p >= 3 {
                        &self.data.as_slice()[1..p - 1]
                    } else {
                        &self.data.as_slice()[0..0]
                    };
                    proof {
                        if first_case {
                            // This delimiter is the frame's first: the model
                            // reads its expected count from these bytes.
                            lemma_first_delim_props(s_before, 0);
                            lemma_delim_count_zero(s_before, s_before.len() as int);
                            assert(delim_count(s, slen) == 1);
                            assert forall|j: int| 0 <= j < p as int implies !is_delim_at(s, j) by {
                                if 2 <= j {
                                    assert(!is_delim_at(s_before, j));
                                    assert(s[j] == s_before[j]);
                                    assert(s[j - 1] == s_before[j - 1]);
                                }
                            }
                            lemma_first_delim_determined(s, 0, p as int);
                            if p >= 3 {
                                assert(digits@ =~= s.subrange(1, p as int - 1));
                            } else {
                                assert(digits@ =~= Seq::<u8>::empty());
                            }
                        } else {
                            // An earlier delimiter already failed to yield a
                            // count; its line feed stands among these bytes,
                            // so this reading fails too.
                            lemma_rr_expected_append(s_before, b);
                            lemma_first_delim_props(s_before, 0);
                            let p0 = spec_first_delim(s_before, 0)->0;
                            if p >= 3 {
                                assert(s[p as int] == 10 && s[p as int - 1] == 13);
                                assert(s[p0] == 10);
                                assert(p0 < p as int - 1);
                                assert(digits@[p0 - 1] == s[p0]);
                                assert(!crate::utils::all_digits(digits@));
                            }
                        }
                    }
                    let size = match parse_decimal(digits) {
                        Some(v) => v,
                        None => {
                            proof {
                                if first_case {
                                    assert(rr_expected(s) is None);
                                }
                                assert(rr_err(s));
                            }
                            return Err(SerializeError::UnreadableCommandSize);
                        },
                    };
                    proof {
                        if !first_case {
                            assert(false);
                        }
                    }
                    if size > ((u32::MAX - 1) / 2) as usize {
                        proof {
                            assert(rr_expected(s) is None);
                            assert(rr_err(s));
                        }
                        return Err(SerializeError::UnreadableCommandSize);
                    }
                    self.size_set = true;
                    self.expected_delimiter_cnt = (2 * size + 1) as u32;
                    self.reached_end_of_msg = self.delimiters_read == self.expected_delimiter_cnt;
                    proof {
                        assert(rr_expected(s) == Some(2 * size as int + 1));
                    }
                } else {
                    proof {
                        lemma_rr_expected_append(s_before, b);
                    }
                    self.reached_end_of_msg = self.delimiters_read == self.expected_delimiter_cnt;
                }
            } else {
                proof {
                    assert(self.breaks_view() =~= spec_break_positions(s, slen));
                    if spec_first_delim(s_before, 0) is Some {
                        lemma_rr_expected_append(s_before, b);
                    } else {
                        assert forall|j: int|
                            s_before.len() <= j < s.len() implies !is_delim_at(s, j) by {
                            assert(j == slen - 1);
                        }
                        lemma_rr_expected_append_no_delim(s_before, b);
                    }
                }
            }
            i += 1;
            proof {
                let j = i as int - 1;
                assert(self.data@ =~= d0 + buff@.subrange(0, j + 1));
                assert(self.wf());
                if self.reached_end_of_msg {
                    assert(rr_complete(self.data@));
                    assert(rr_consumed(d0, buff@, j) == j + 1);
                } else {
                    assert(!rr_complete(self.data@));
                    assert(!rr_err(self.data@));
                    assert(rr_consumed(d0, buff@, j) == rr_consumed(d0, buff@, j + 1));
                }
            }
        }
        proof {
            if !self.reached_end_of_msg {
                assert(i == n);
            }
        }
        Ok(i - 1)
    }

    /// The accumulated payload as text. Fails with
    /// `UnsupportedTextEncoding` when the bytes are not valid UTF-8.
    pub fn write_to_utf8(&self) -> (r: Result<String>)
        ensures
            match r {
                Ok(s) => vstd::utf8::valid_utf8(self.data@) && s@ == vstd::utf8::decode_utf8(
                    self.data@,
                ),
                Err(e) => e == SerializeError::UnsupportedTextEncoding
                    && !vstd::utf8::valid_utf8(self.data@),
            },
    {
        let copy = self.data.clone();
        proof {
            assert(copy@ =~= self.data@);
        }
        match String::from_utf8(copy) {
            Ok(msg) => Ok(msg),
            Err(_) => Err(SerializeError::UnsupportedTextEncoding),
        }
    }
}

} // verus!
