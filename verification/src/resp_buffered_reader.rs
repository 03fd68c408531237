//! The incremental frame decoder. It accumulates raw bytes handed to it in
//! arbitrarily sized chunks and reports when one complete protocol frame has
//! arrived, by parsing the element count `N` from the header line `*<N>` and
//! counting line delimiters until `2 * N + 1` of them have been seen.
//!
//! Each scan resumes from the last position already examined, so the cost of
//! a chunk is proportional to the new bytes alone. Every observable flag is a
//! pure function of the bytes accumulated so far, which makes the decoder's
//! behavior independent of how the stream was chunked.

use crate::constants::ASCII_ASTERISK;
use crate::server::SerializeError;
use crate::utils::{
    all_digits, dec_value, delim_count, eol_found, get_eol_index, has_eol, index_is_at_delimiter,
    is_delim_at, lemma_delim_count_append, lemma_delim_count_monotone, lemma_dec_value_nonneg,
    lemma_eol_unique, parse_dec, parse_decimal, read_line, spec_line_end, the_eol,
};
use vstd::prelude::*;

verus! {

pub type Result<T> = core::result::Result<T, SerializeError>;

/// The digit bytes of the header line of `s`: the bytes after the marker and
/// before the delimiter that ends the first line.
pub open spec fn spec_header_digits(s: Seq<u8>) -> Seq<u8> {
    let e = the_eol(s, 0);
    if e >= 3 {
        s.subrange(1, e - 1)
    } else {
        s.subrange(1, e + 1)
    }
}

/// A complete header line has arrived: at least four bytes, the array marker
/// first, and a line delimiter ending the first line.
pub open spec fn header_present(s: Seq<u8>) -> bool {
    &&& s.len() >= 4
    &&& s[0] == 42
    &&& has_eol(s, 0)
}

/// How many line delimiters a frame starting with the bytes `s` must hold in
/// all: `2 * N + 1` for a header line declaring `N` elements. Nothing while
/// the header line is incomplete, unreadable, or declares a count that cannot
/// be represented.
pub open spec fn header_expected(s: Seq<u8>) -> Option<int> {
    if header_present(s) {
        match parse_dec(spec_header_digits(s)) {
            Some(v) => if 2 * v + 1 <= usize::MAX {
                Some(2 * v + 1)
            } else {
                None
            },
            None => None,
        }
    } else {
        None
    }
}

/// The frame made of the bytes `s` is complete: the header declares an
/// expected delimiter count and at least that many delimiters have arrived.
pub open spec fn frame_complete(s: Seq<u8>) -> bool {
    &&& header_expected(s) is Some
    &&& delim_count(s, s.len() as int) >= header_expected(s)->0
}

/// A declared expected delimiter count is always positive: the header line
/// itself ends in a delimiter.
pub proof fn lemma_header_expected_pos(s: Seq<u8>)
    ensures
        header_expected(s) matches Some(n) ==> 1 <= n <= usize::MAX,
{
    if header_expected(s) is Some {
        lemma_dec_value_nonneg(spec_header_digits(s));
    }
}

/// Appending bytes to a buffer whose header line is complete changes neither
/// the header line nor what it declares.
pub proof fn lemma_header_append(s: Seq<u8>, t: Seq<u8>)
    requires
        header_present(s),
    ensures
        header_present(s + t),
        the_eol(s + t, 0) == the_eol(s, 0),
        header_expected(s + t) == header_expected(s),
{
    let e = the_eol(s, 0);
    assert(eol_found(s, 0, e));
    assert(is_delim_at(s + t, e));
    assert(forall|j: int| 0 <= j < e ==> (s + t)[j] == s[j]);
    assert(eol_found(s + t, 0, e));
    lemma_eol_unique(s + t, 0, e, the_eol(s + t, 0));
    assert(spec_header_digits(s + t) =~= spec_header_digits(s));
}

/// A complete frame stays complete as more bytes arrive.
pub proof fn lemma_frame_complete_append(s: Seq<u8>, t: Seq<u8>)
    requires
        frame_complete(s),
    ensures
        frame_complete(s + t),
{
    lemma_header_append(s, t);
    lemma_delim_count_append(s, t, s.len() as int);
    lemma_delim_count_monotone(s + t, s.len() as int, (s + t).len() as int);
}

/// Chunking independence: every report the decoder makes is a pure function
/// of the bytes accumulated so far ([`RespBufferedReader::extend`] ensures
/// exactly that of its completion report and of the expected delimiter
/// count), so any two chunkings of one byte stream yield the same reports
/// once the same bytes have arrived.
pub proof fn lemma_chunking_independence(chunks_a: Seq<Seq<u8>>, chunks_b: Seq<Seq<u8>>)
    requires
        chunks_a.flatten() == chunks_b.flatten(),
    ensures
        header_expected(chunks_a.flatten()) == header_expected(chunks_b.flatten()),
        frame_complete(chunks_a.flatten()) == frame_complete(chunks_b.flatten()),
{
}

/// No delimiter is ever counted at position zero.
pub proof fn lemma_delim_count_first(s: Seq<u8>)
    ensures
        delim_count(s, 0) == 0,
        delim_count(s, 1) == 0,
{
    assert(delim_count(s, 0) == 0);
    assert(!is_delim_at(s, 0));
    assert(delim_count(s, 1) == delim_count(s, 0));
}

/// How many bytes of `buff` a decoder already holding `data` consumes: whole
/// lines are taken in turn until the accumulated bytes form a complete frame
/// or the buffer runs out.
pub open spec fn spec_read_consumed(data: Seq<u8>, buff: Seq<u8>, cursor: int) -> int
    decreases buff.len() - cursor,
{
    if 0 <= cursor < buff.len() {
        let end = spec_line_end(buff, cursor);
        let unclamped = if end + 1 > cursor + 1 {
            end + 1
        } else {
            cursor + 1
        };
        let next = if unclamped > buff.len() {
            buff.len() as int
        } else {
            unclamped
        };
        if frame_complete(data + buff.subrange(0, next)) {
            next
        } else {
            spec_read_consumed(data, buff, next)
        }
    } else {
        cursor
    }
}

/// What a single successful read reports.
#[derive(Debug)]
pub struct RespBuffReadResult {
    pub end_of_message_reached: bool,
    pub bytes_read: usize,
}

impl RespBuffReadResult {
    pub fn new() -> (r: Self)
        ensures
            !r.end_of_message_reached,
            r.bytes_read == 0,
    {
        RespBuffReadResult { end_of_message_reached: false, bytes_read: 0 }
    }
}

/// The incremental frame decoder. `data` holds every byte received for the
/// current frame; `size` caches the expected delimiter count once the header
/// line has been read; `last_read_idx` and `delimiter_cnt` record how far the
/// scan has come and how many delimiters it has counted;
/// `reached_end_of_msg` reports a complete frame.
#[derive(Clone, Debug)]
pub struct RespBufferedReader {
    pub data: Vec<u8>,
    pub eol_exists: bool,
    pub size: Option<usize>,
    pub last_read_idx: usize,
    pub delimiter_cnt: usize,
    pub reached_end_of_msg: bool,
    pub read_index: usize,
}

impl RespBufferedReader {
    /// The decoder's internal consistency: the delimiter count matches the
    /// positions scanned, the scan cursor stays inside the buffer, the cached
    /// size matches the header, the scan never runs past the expected count,
    /// and the completion flag is never ahead of the bytes.
    pub open spec fn wf(self) -> bool {
        &&& (self.data@.len() == 0 ==> self.last_read_idx == 0)
        &&& (self.data@.len() > 0 ==> (self.last_read_idx as int) < self.data@.len())
        &&& self.delimiter_cnt as int == delim_count(self.data@, self.last_read_idx as int + 1)
        &&& (self.size matches Some(n) ==> header_expected(self.data@) == Some(n as int))
        &&& (header_expected(self.data@) is None ==> self.last_read_idx == 0
            && self.delimiter_cnt == 0)
        &&& (header_expected(self.data@) matches Some(n) ==> self.delimiter_cnt as int <= n)
        &&& (self.reached_end_of_msg ==> frame_complete(self.data@))
    }

    pub fn new() -> (r: RespBufferedReader)
        ensures
            r.wf(),
            r.data@ == Seq::<u8>::empty(),
            !r.eol_exists,
            r.size is None,
            r.last_read_idx == 0,
            r.delimiter_cnt == 0,
            !r.reached_end_of_msg,
            r.read_index == 0,
    {
        let r = RespBufferedReader {
            data: Vec::new(),
            eol_exists: false,
            size: None,
            last_read_idx: 0,
            delimiter_cnt: 0,
            reached_end_of_msg: false,
            read_index: 0,
        };
        proof {
            lemma_delim_count_first(r.data@);
        }
        r
    }

    /// Builds a decoder directly over one buffer of bytes, scanning it at
    /// once.
    pub fn from_vec(data: Vec<u8>) -> (r: RespBufferedReader)
        ensures
            r.wf(),
            r.data@ == data@,
            r.eol_exists,
            r.reached_end_of_msg == frame_complete(data@),
            match header_expected(data@) {
                Some(n) => r.size == Some(n as usize) && (if frame_complete(data@) {
                    r.delimiter_cnt as int == n && is_delim_at(data@, r.last_read_idx as int)
                        && delim_count(data@, r.last_read_idx as int + 1) == n
                } else {
                    r.last_read_idx as int + 1 == data@.len() && r.delimiter_cnt as int
                        == delim_count(data@, data@.len() as int)
                }),
                None => r.size is None && r.last_read_idx == 0 && r.delimiter_cnt == 0,
            },
    {
        let mut cmd = RespBufferedReader {
            data: Vec::new(),
            eol_exists: true,
            size: None,
            last_read_idx: 0,
            delimiter_cnt: 0,
            reached_end_of_msg: false,
            read_index: 0,
        };
        proof {
            lemma_delim_count_first(cmd.data@);
        }
        let _ = cmd.extend(data.as_slice());
        proof {
            assert(cmd.data@ =~= data@);
            assert(Seq::<u8>::empty() + data@ =~= data@);
            if cmd.reached_end_of_msg && cmd.last_read_idx == 0 {
                // A complete frame expects at least one delimiter, yet no
                // delimiter is counted at the first position.
                lemma_delim_count_first(data@);
                lemma_header_expected_pos(data@);
            }
        }
        cmd
    }

    /// Clears all state so that the next frame can be decoded on the same
    /// instance.
    pub fn reset(&mut self)
        ensures
            final(self).wf(),
            final(self).data@ == Seq::<u8>::empty(),
            !final(self).eol_exists,
            final(self).size is None,
            final(self).last_read_idx == 0,
            final(self).delimiter_cnt == 0,
            !final(self).reached_end_of_msg,
            final(self).read_index == 0,
    {
        self.data.clear();
        self.eol_exists = false;
        self.size = None;
        self.last_read_idx = 0;
        self.delimiter_cnt = 0;
        self.reached_end_of_msg = false;
        self.read_index = 0;
        proof {
            lemma_delim_count_first(self.data@);
        }
    }

    /// The expected delimiter count, `2 * N + 1` for a header declaring `N`
    /// elements. Fails with `IncompleteCommand` before four bytes or without
    /// the array marker, with `IncompleteLine` while the header line is
    /// unfinished, and with `UnreadableCommandSize` when the header is not a
    /// readable count.
    pub fn size(&mut self) -> (r: Result<usize>)
        ensures
            final(self).data == old(self).data,
            final(self).eol_exists == old(self).eol_exists,
            final(self).last_read_idx == old(self).last_read_idx,
            final(self).delimiter_cnt == old(self).delimiter_cnt,
            final(self).reached_end_of_msg == old(self).reached_end_of_msg,
            final(self).read_index == old(self).read_index,
            match r {
                Ok(n) => header_expected(old(self).data@) == Some(n as int) && final(self).size
                    == Some(n),
                Err(e) => final(self).size == old(self).size && match e {
                    SerializeError::IncompleteCommand => old(self).data@.len() < 4 || old(
                        self,
                    ).data@[0] != 42,
                    SerializeError::IncompleteLine => old(self).data@.len() >= 4 && old(
                        self,
                    ).data@[0] == 42 && !has_eol(old(self).data@, 0),
                    SerializeError::UnreadableCommandSize => header_present(old(self).data@)
                        && header_expected(old(self).data@) is None,
                    _ => false,
                },
            },
    {
        let first_line_result = self.first_line_eol();
        match first_line_result {
            Ok(eol) => {
                let digits_end = if eol >= 3 {
                    eol - 1
                } else {
                    eol + 1
                };
                assert(eol < self.data@.len());
                let digits = &self.data.as_slice()[1..digits_end];
                assert(digits@ =~= spec_header_digits(self.data@));
                let command_size_result = parse_decimal(digits);
                match command_size_result {
                    Some(cmd_size) => {
                        if cmd_size > (usize::MAX - 1) / 2 {
                            Err(SerializeError::UnreadableCommandSize)
                        } else {
                            let cmd_size_with_attr_lengths = cmd_size * 2 + 1;
                            self.size = Some(cmd_size_with_attr_lengths);
                            Ok(cmd_size_with_attr_lengths)
                        }
                    },
                    None => Err(SerializeError::UnreadableCommandSize),
                }
            },
            Err(err) => Err(err),
        }
    }

    /// Whether the buffer currently ends in a line delimiter (and holds at
    /// least four bytes).
    pub fn is_last_line_complete(&self) -> (r: bool)
        ensures
            r == (self.data@.len() >= 4 && self.data@[self.data@.len() - 1] == 10
                && self.data@[self.data@.len() - 2] == 13),
    {
        if self.data.len() < 4 {
            return false;
        }
        let n = self.data.len() - 1;
        self.data[n - 1] == 13 && self.data[n] == 10
    }

    /// The position of the delimiter ending the header line.
    pub fn first_line_eol(&self) -> (r: Result<usize>)
        ensures
            match r {
                Ok(e) => header_present(self.data@) && e as int == the_eol(self.data@, 0)
                    && eol_found(self.data@, 0, e as int),
                Err(e) => match e {
                    SerializeError::IncompleteCommand => self.data@.len() < 4 || self.data@[0]
                        != 42,
                    SerializeError::IncompleteLine => self.data@.len() >= 4 && self.data@[0] == 42
                        && !has_eol(self.data@, 0),
                    _ => false,
                },
            },
    {
        if self.data.len() < 4 || self.data[0] != ASCII_ASTERISK {
            return Err(SerializeError::IncompleteCommand);
        }
        let r = get_eol_index(0, self.data.as_slice());
        match r {
            Ok(e) => {
                proof {
                    lemma_eol_unique(self.data@, 0, e as int, the_eol(self.data@, 0));
                }
                Ok(e)
            },
            Err(err) => Err(err),
        }
    }

    /// Scans forward from the last examined position, counting delimiters
    /// until the expected count is reached or the bytes run out. Reports
    /// whether the frame is complete; the report depends only on the bytes
    /// accumulated so far.
    pub fn all_lines_received(&mut self) -> (r: Result<bool>)
        requires
            old(self).wf(),
        ensures
            final(self).wf(),
            final(self).data == old(self).data,
            final(self).eol_exists == old(self).eol_exists,
            final(self).read_index == old(self).read_index,
            match r {
                Ok(b) => {
                    &&& b == frame_complete(old(self).data@)
                    &&& final(self).reached_end_of_msg == b
                    &&& header_expected(old(self).data@) is Some
                    &&& final(self).size == Some(header_expected(old(self).data@)->0 as usize)
                    &&& final(self).last_read_idx >= old(self).last_read_idx
                    &&& final(self).delimiter_cnt >= old(self).delimiter_cnt
                    &&& (!b ==> final(self).last_read_idx as int + 1 == old(self).data@.len()
                        && final(self).delimiter_cnt as int == delim_count(
                        old(self).data@,
                        old(self).data@.len() as int,
                    ))
                    &&& (b ==> final(self).delimiter_cnt as int == header_expected(
                        old(self).data@,
                    )->0 && (final(self).last_read_idx == old(self).last_read_idx || (is_delim_at(
                        old(self).data@,
                        final(self).last_read_idx as int,
                    ) && delim_count(old(self).data@, final(self).last_read_idx as int + 1)
                        == header_expected(old(self).data@)->0)))
                },
                Err(e) => {
                    &&& final(self).size == old(self).size
                    &&& final(self).last_read_idx == old(self).last_read_idx
                    &&& final(self).delimiter_cnt == old(self).delimiter_cnt
                    &&& final(self).reached_end_of_msg == old(self).reached_end_of_msg
                    &&& header_expected(old(self).data@) is None
                    &&& match e {
                        SerializeError::IncompleteCommand => old(self).data@.len() < 4 || old(
                            self,
                        ).data@[0] != 42,
                        SerializeError::IncompleteLine => old(self).data@.len() >= 4 && old(
                            self,
                        ).data@[0] == 42 && !has_eol(old(self).data@, 0),
                        SerializeError::UnreadableCommandSize => header_present(old(self).data@)
                            && header_expected(old(self).data@) is None,
                        _ => false,
                    }
                },
            },
    {
        let size_result = self.size();
        let expected_delimiter_cnt = match size_result {
            Ok(n) => n,
            Err(e) => {
                return Err(e);
            },
        };
        proof {
            lemma_header_expected_pos(self.data@);
        }
        let n = self.data.len();
        while self.last_read_idx + 1 < n && self.delimiter_cnt < expected_delimiter_cnt
            invariant
                n == self.data@.len(),
                n >= 4,
                self.data == old(self).data,
                self.eol_exists == old(self).eol_exists,
                self.read_index == old(self).read_index,
                self.size == Some(expected_delimiter_cnt),
                header_expected(self.data@) == Some(expected_delimiter_cnt as int),
                self.last_read_idx < n,
                self.delimiter_cnt as int == delim_count(
                    self.data@,
                    self.last_read_idx as int + 1,
                ),
                self.delimiter_cnt <= expected_delimiter_cnt,
                self.reached_end_of_msg == old(self).reached_end_of_msg,
                self.last_read_idx >= old(self).last_read_idx,
                self.delimiter_cnt >= old(self).delimiter_cnt,
                self.delimiter_cnt < expected_delimiter_cnt || (self.delimiter_cnt == old(
                    self,
                ).delimiter_cnt && self.last_read_idx == old(self).last_read_idx) || is_delim_at(
                    self.data@,
                    self.last_read_idx as int,
                ),
            decreases n - self.last_read_idx,
        {
            self.last_read_idx += 1;
            if index_is_at_delimiter(self.last_read_idx, self.data.as_slice()) {
                self.delimiter_cnt += 1;
            }
        }
        proof {
            lemma_delim_count_monotone(self.data@, self.last_read_idx as int + 1, n as int);
            if self.delimiter_cnt < expected_delimiter_cnt {
                assert(self.last_read_idx as int + 1 == n as int);
            }
        }
        self.reached_end_of_msg = self.delimiter_cnt == expected_delimiter_cnt;
        Ok(self.reached_end_of_msg)
    }

    /// Appends newly arrived bytes and rescans. The completion report is a
    /// pure function of all bytes accumulated so far, in whatever chunks they
    /// came.
    pub fn extend(&mut self, buff: &[u8]) -> (r: Result<bool>)
        requires
            old(self).wf(),
        ensures
            final(self).wf(),
            final(self).data@ == old(self).data@ + buff@,
            final(self).eol_exists == old(self).eol_exists,
            final(self).read_index == old(self).read_index,
            match r {
                Ok(b) => {
                    &&& b == frame_complete(old(self).data@ + buff@)
                    &&& final(self).reached_end_of_msg == b
                    &&& header_expected(old(self).data@ + buff@) is Some
                    &&& final(self).size == Some(
                        header_expected(old(self).data@ + buff@)->0 as usize,
                    )
                    &&& final(self).last_read_idx >= old(self).last_read_idx
                    &&& final(self).delimiter_cnt >= old(self).delimiter_cnt
                    &&& (!b ==> final(self).last_read_idx as int + 1 == old(self).data@.len()
                        + buff@.len() && final(self).delimiter_cnt as int == delim_count(
                        old(self).data@ + buff@,
                        (old(self).data@ + buff@).len() as int,
                    ))
                    &&& (b ==> final(self).delimiter_cnt as int == header_expected(
                        old(self).data@ + buff@,
                    )->0 && (final(self).last_read_idx == old(self).last_read_idx || (is_delim_at(
                        old(self).data@ + buff@,
                        final(self).last_read_idx as int,
                    ) && delim_count(
                        old(self).data@ + buff@,
                        final(self).last_read_idx as int + 1,
                    ) == header_expected(old(self).data@ + buff@)->0)))
                },
                Err(e) => {
                    &&& final(self).reached_end_of_msg == old(self).reached_end_of_msg
                    &&& final(self).size == old(self).size
                    &&& final(self).last_read_idx == old(self).last_read_idx
                    &&& final(self).delimiter_cnt == old(self).delimiter_cnt
                    &&& header_expected(old(self).data@ + buff@) is None
                    &&& !frame_complete(old(self).data@ + buff@)
                    &&& match e {
                        SerializeError::IncompleteCommand
                        | SerializeError::IncompleteLine
                        | SerializeError::UnreadableCommandSize => true,
                        _ => false,
                    }
                },
            },
    {
        let ghost s = self.data@;
        let ghost t = buff@;
        self.data.extend_from_slice(buff);
        proof {
            assert(self.data@ =~= s + t);
            // The scan state keeps its meaning over the grown buffer.
            if s.len() == 0 {
                assert(delim_count(s + t, 1) == delim_count(s + t, 0) + if is_delim_at(s + t, 0) {
                    1int
                } else {
                    0int
                });
                assert(self.delimiter_cnt as int == delim_count(self.data@, 1));
            } else {
                lemma_delim_count_append(s, t, self.last_read_idx as int + 1);
            }
            if header_present(s) {
                lemma_header_append(s, t);
            }
            if self.reached_end_of_msg {
                lemma_frame_complete_append(s, t);
            }
            if header_expected(s + t) is None {
                // A header never degrades: were anything declared before, the
                // append would have kept it.
                assert(header_expected(s) is None);
            }
            lemma_header_expected_pos(s + t);
        }
        self.all_lines_received()
    }

    /// Consumes bytes from `buff` line by line until the accumulated bytes
    /// form a complete frame or `buff` is exhausted, and returns how many
    /// bytes were consumed. A partial trailing line is kept: the next call
    /// resumes where this one stopped.
    pub fn read(&mut self, buff: &[u8]) -> (r: Result<usize>)
        requires
            old(self).wf(),
        ensures
            final(self).wf(),
            r is Ok,
            r matches Ok(k) ==> {
                &&& k as int == spec_read_consumed(old(self).data@, buff@, 0)
                &&& final(self).data@ == old(self).data@ + buff@.subrange(0, k as int)
                &&& final(self).eol_exists == old(self).eol_exists
                &&& final(self).read_index == old(self).read_index
                &&& (buff@.len() > 0 ==> final(self).reached_end_of_msg == frame_complete(
                    final(self).data@,
                ))
                &&& (buff@.len() == 0 ==> *final(self) == *old(self))
            },
    {
        let n = buff.len();
        let mut read_cursor: usize = 0;
        proof {
            assert(old(self).data@ + buff@.subrange(0, 0) =~= old(self).data@);
        }
        while read_cursor < n
            invariant
                old(self).wf(),
                n == buff@.len(),
                read_cursor <= n,
                self.wf(),
                self.data@ == old(self).data@ + buff@.subrange(0, read_cursor as int),
                self.eol_exists == old(self).eol_exists,
                self.read_index == old(self).read_index,
                spec_read_consumed(old(self).data@, buff@, read_cursor as int)
                    == spec_read_consumed(old(self).data@, buff@, 0),
                read_cursor > 0 ==> self.reached_end_of_msg == frame_complete(self.data@)
                    && !frame_complete(self.data@),
                read_cursor == 0 ==> *self == *old(self),
            decreases n - read_cursor,
        {
            let ghost cursor0 = read_cursor as int;
            let ghost data0 = self.data@;
            let line = read_line(read_cursor, buff);
            let ghost end = spec_line_end(buff@, cursor0);
            let msg_processing_result = self.extend(line);
            read_cursor += line.len();
            proof {
                assert(read_cursor as int == end + 1);
                assert(self.data@ =~= old(self).data@ + buff@.subrange(0, read_cursor as int));
            }
            match msg_processing_result {
                Err(err) => match &err {
                    SerializeError::IncompleteLine
                    | SerializeError::MissingContentSize
                    | SerializeError::IncompleteCommand
                    | SerializeError::UnreadableCommandSize => {
                        proof {
                            if cursor0 == 0 && old(self).reached_end_of_msg {
                                lemma_frame_complete_append(data0, line@);
                            }
                        }
                        continue ;
                    },
                    SerializeError::UnsupportedTextEncoding => {
                        proof {
                            assert(false);
                        }
                        return Err(SerializeError::UnsupportedTextEncoding);
                    },
                },
                Ok(command_transmission_complete) => {
                    if command_transmission_complete {
                        return Ok(read_cursor);
                    }
                },
            }
        }
        Ok(read_cursor)
    }

    /// The accumulated payload as text. Fails with
    /// `UnsupportedTextEncoding` when the bytes are not valid UTF-8.
    pub fn write_to_utf8(&self) -> (r: Result<String>)
        ensures
            match r {
                Ok(s) => vstd::utf8::valid_utf8(self.data@) && s@ == vstd::utf8::decode_utf8(
                    self.data@,
                ),
                Err(e) => e == SerializeError::UnsupportedTextEncoding
                    && !vstd::utf8::valid_utf8(self.data@),
            },
    {
        let copy = self.data.clone();
        proof {
            assert(copy@ =~= self.data@);
        }
        match String::from_utf8(copy) {
            Ok(s) => Ok(s),
            Err(_) => Err(SerializeError::UnsupportedTextEncoding),
        }
    }
}

} // verus!
