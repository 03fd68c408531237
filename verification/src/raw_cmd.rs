//! An earlier, simpler form of the incremental frame decoder. It accumulates
//! bytes, reads the element count from the header line, and counts line
//! delimiters until the expected `2 * N + 1` have been seen. Superseded by
//! [`crate::resp_buffered_reader::RespBufferedReader`], which adds reset and
//! buffered reading on top of the same frame model.

use crate::constants::ASCII_ASTERISK;
use crate::server::SerializeError;
use crate::utils::{
    delim_count, eol_found, get_eol_index, has_eol, index_is_at_delimiter, is_delim_at,
    lemma_delim_count_append, lemma_delim_count_monotone, lemma_eol_unique, parse_decimal, the_eol,
};
use crate::resp_buffered_reader::{
    frame_complete, header_expected, header_present, lemma_delim_count_first,
    lemma_frame_complete_append, lemma_header_append, lemma_header_expected_pos,
    spec_header_digits,
};
use vstd::prelude::*;

verus! {

/// One frame being assembled: the bytes received so far, the cached expected
/// delimiter count, the scan position, the running delimiter count, and the
/// completion flag.
pub struct RawCmd {
    pub data: Vec<u8>,
    pub eol_exists: bool,
    pub size: Option<usize>,
    pub last_read_idx: usize,
    pub cr_nr_count: usize,
    pub complete: bool,
}

impl RawCmd {
    /// Internal consistency, as for the buffered reader: the delimiter count
    /// matches the scanned positions, the cursor stays in the buffer, the
    /// cached size matches the header, and the completion flag is never
    /// ahead of the bytes.
    pub open spec fn wf(self) -> bool {
        &&& (self.data@.len() == 0 ==> self.last_read_idx == 0)
        &&& (self.data@.len() > 0 ==> (self.last_read_idx as int) < self.data@.len())
        &&& self.cr_nr_count as int == delim_count(self.data@, self.last_read_idx as int + 1)
        &&& (self.size matches Some(n) ==> header_expected(self.data@) == Some(n as int))
        &&& (header_expected(self.data@) is None ==> self.last_read_idx == 0 && self.cr_nr_count
            == 0)
        &&& (header_expected(self.data@) matches Some(n) ==> self.cr_nr_count as int <= n)
        &&& (self.complete ==> frame_complete(self.data@))
    }

    pub fn new() -> (r: RawCmd)
        ensures
            r.wf(),
            r.data@ == Seq::<u8>::empty(),
            !r.eol_exists,
            r.size is None,
            r.last_read_idx == 0,
            r.cr_nr_count == 0,
            !r.complete,
    {
        let r = RawCmd {
            data: Vec::new(),
            eol_exists: false,
            size: None,
            last_read_idx: 0,
            cr_nr_count: 0,
            complete: false,
        };
        proof {
            lemma_delim_count_first(r.data@);
        }
        r
    }

    /// Wraps one already-received buffer of bytes, not yet scanned.
    pub fn from_vec(data: Vec<u8>) -> (r: RawCmd)
        ensures
            r.wf(),
            r.data@ == data@,
            r.eol_exists,
            r.size is None,
            r.last_read_idx == 0,
            r.cr_nr_count == 0,
            !r.complete,
    {
        let r = RawCmd {
            data,
            eol_exists: true,
            size: None,
            last_read_idx: 0,
            cr_nr_count: 0,
            complete: false,
        };
        proof {
            lemma_delim_count_first(r.data@);
            if header_expected(r.data@) matches Some(n) {
                lemma_header_expected_pos(r.data@);
            }
        }
        r
    }

    /// The expected delimiter count declared by the header line, `2 * N + 1`
    /// for `N` elements. Error cases as for the buffered reader.
    pub fn size(&mut self) -> (r: Result<usize, SerializeError>)
        ensures
            final(self).data == old(self).data,
            final(self).eol_exists == old(self).eol_exists,
            final(self).last_read_idx == old(self).last_read_idx,
            final(self).cr_nr_count == old(self).cr_nr_count,
            final(self).complete == old(self).complete,
            match r {
                Ok(n) => header_expected(old(self).data@) == Some(n as int) && final(self).size
                    == Some(n),
                Err(e) => final(self).size == old(self).size && match e {
                    SerializeError::IncompleteCommand => old(self).data@.len() < 4 || old(
                        self,
                    ).data@[0] != 42,
                    SerializeError::IncompleteLine => old(self).data@.len() >= 4 && old(
                        self,
                    ).data@[0] == 42 && !has_eol(old(self).data@, 0),
                    SerializeError::UnreadableCommandSize => header_present(old(self).data@)
                        && header_expected(old(self).data@) is None,
                    _ => false,
                },
            },
    {
        let first_line_result = self.first_line_eol();
        match first_line_result {
            Ok(eol) => {
                let digits_end = if eol >= 3 {
                    eol - 1
                } else {
                    eol + 1
                };
                assert(eol < self.data@.len());
                let digits = &self.data.as_slice()[1..digits_end];
                assert(digits@ =~= spec_header_digits(self.data@));
                let command_size_result = parse_decimal(digits);
                match command_size_result {
                    Some(cmd_size) => {
                        if cmd_size > (usize::MAX - 1) / 2 {
                            Err(SerializeError::UnreadableCommandSize)
                        } else {
                            let cmd_size_with_attr_lengths = cmd_size * 2 + 1;
                            self.size = Some(cmd_size_with_attr_lengths);
                            Ok(cmd_size_with_attr_lengths)
                        }
                    },
                    None => Err(SerializeError::UnreadableCommandSize),
                }
            },
            Err(err) => Err(err),
        }
    }

    /// Whether the buffer currently ends in a line delimiter (and holds at
    /// least four bytes).
    pub fn is_last_line_complete(&self) -> (r: bool)
        ensures
            r == (self.data@.len() >= 4 && self.data@[self.data@.len() - 1] == 10
                && self.data@[self.data@.len() - 2] == 13),
    {
        if self.data.len() < 4 {
            return false;
        }
        let n = self.data.len() - 1;
        self.data[n - 1] == 13 && self.data[n] == 10
    }

    /// The position of the delimiter ending the header line.
    pub fn first_line_eol(&self) -> (r: Result<usize, SerializeError>)
        ensures
            match r {
                Ok(e) => header_present(self.data@) && e as int == the_eol(self.data@, 0)
                    && eol_found(self.data@, 0, e as int),
                Err(e) => match e {
                    SerializeError::IncompleteCommand => self.data@.len() < 4 || self.data@[0]
                        != 42,
                    SerializeError::IncompleteLine => self.data@.len() >= 4 && self.data@[0] == 42
                        && !has_eol(self.data@, 0),
                    _ => false,
                },
            },
    {
        if self.data.len() < 4 || self.data[0] != ASCII_ASTERISK {
            return Err(SerializeError::IncompleteCommand);
        }
        let r = get_eol_index(0, self.data.as_slice());
        match r {
            Ok(e) => {
                proof {
                    lemma_eol_unique(self.data@, 0, e as int, the_eol(self.data@, 0));
                }
                Ok(e)
            },
            Err(err) => Err(err),
        }
    }

    /// Scans forward from the last examined position and reports whether the
    /// whole frame has arrived; the report depends only on the accumulated
    /// bytes.
    pub fn all_lines_received(&mut self) -> (r: Result<bool, SerializeError>)
        requires
            old(self).wf(),
        ensures
            final(self).wf(),
            final(self).data == old(self).data,
            final(self).eol_exists == old(self).eol_exists,
            match r {
                Ok(b) => {
                    &&& b == frame_complete(old(self).data@)
                    &&& final(self).complete == b
                    &&& header_expected(old(self).data@) is Some
                    &&& final(self).size == Some(header_expected(old(self).data@)->0 as usize)
                    &&& final(self).last_read_idx >= old(self).last_read_idx
                    &&& final(self).cr_nr_count >= old(self).cr_nr_count
                    &&& (!b ==> final(self).last_read_idx as int + 1 == old(self).data@.len()
                        && final(self).cr_nr_count as int == delim_count(
                        old(self).data@,
                        old(self).data@.len() as int,
                    ))
                    &&& (b ==> final(self).cr_nr_count as int == header_expected(
                        old(self).data@,
                    )->0 && (final(self).last_read_idx == old(self).last_read_idx || (is_delim_at(
                        old(self).data@,
                        final(self).last_read_idx as int,
                    ) && delim_count(old(self).data@, final(self).last_read_idx as int + 1)
                        == header_expected(old(self).data@)->0)))
                },
                Err(e) => {
                    &&& final(self).size == old(self).size
                    &&& final(self).last_read_idx == old(self).last_read_idx
                    &&& final(self).cr_nr_count == old(self).cr_nr_count
                    &&& final(self).complete == old(self).complete
                    &&& header_expected(old(self).data@) is None
                    &&& match e {
                        SerializeError::IncompleteCommand => old(self).data@.len() < 4 || old(
                            self,
                        ).data@[0] != 42,
                        SerializeError::IncompleteLine => old(self).data@.len() >= 4 && old(
                            self,
                        ).data@[0] == 42 && !has_eol(old(self).data@, 0),
                        SerializeError::UnreadableCommandSize => header_present(old(self).data@)
                            && header_expected(old(self).data@) is None,
                        _ => false,
                    }
                },
            },
    {
        let size_result = self.size();
        let data_size = match size_result {
            Ok(n) => n,
            Err(e) => {
                return Err(e);
            },
        };
        proof {
            lemma_header_expected_pos(self.data@);
        }
        let n = self.data.len();
        while self.last_read_idx + 1 < n && self.cr_nr_count < data_size
            invariant
                n == self.data@.len(),
                n >= 4,
                self.data == old(self).data,
                self.eol_exists == old(self).eol_exists,
                self.size == Some(data_size),
                header_expected(self.data@) == Some(data_size as int),
                self.last_read_idx < n,
                self.cr_nr_count as int == delim_count(self.data@, self.last_read_idx as int + 1),
                self.cr_nr_count <= data_size,
                self.complete == old(self).complete,
                self.last_read_idx >= old(self).last_read_idx,
                self.cr_nr_count >= old(self).cr_nr_count,
                self.cr_nr_count < data_size || (self.cr_nr_count == old(self).cr_nr_count
                    && self.last_read_idx == old(self).last_read_idx) || is_delim_at(
                    self.data@,
                    self.last_read_idx as int,
                ),
            decreases n - self.last_read_idx,
        {
            self.last_read_idx += 1;
            if index_is_at_delimiter(self.last_read_idx, self.data.as_slice()) {
                self.cr_nr_count += 1;
            }
        }
        proof {
            lemma_delim_count_monotone(self.data@, self.last_read_idx as int + 1, n as int);
            if self.cr_nr_count < data_size {
                assert(self.last_read_idx as int + 1 == n as int);
            }
        }
        self.complete = self.cr_nr_count == data_size;
        Ok(self.complete)
    }

    /// Appends newly arrived bytes and rescans; the completion report is a
    /// pure function of all bytes accumulated so far.
    pub fn extend(&mut self, line: &Vec<u8>) -> (r: Result<bool, SerializeError>)
        requires
            old(self).wf(),
        ensures
            final(self).wf(),
            final(self).data@ == old(self).data@ + line@,
            final(self).eol_exists == old(self).eol_exists,
            match r {
                Ok(b) => {
                    &&& b == frame_complete(old(self).data@ + line@)
                    &&& final(self).complete == b
                    &&& header_expected(old(self).data@ + line@) is Some
                    &&& final(self).size == Some(
                        header_expected(old(self).data@ + line@)->0 as usize,
                    )
                    &&& final(self).last_read_idx >= old(self).last_read_idx
                    &&& final(self).cr_nr_count >= old(self).cr_nr_count
                    &&& (!b ==> final(self).last_read_idx as int + 1 == old(self).data@.len()
                        + line@.len() && final(self).cr_nr_count as int == delim_count(
                        old(self).data@ + line@,
                        (old(self).data@ + line@).len() as int,
                    ))
                    &&& (b ==> final(self).cr_nr_count as int == header_expected(
                        old(self).data@ + line@,
                    )->0 && (final(self).last_read_idx == old(self).last_read_idx || (is_delim_at(
                        old(self).data@ + line@,
                        final(self).last_read_idx as int,
                    ) && delim_count(
                        old(self).data@ + line@,
                        final(self).last_read_idx as int + 1,
                    ) == header_expected(old(self).data@ + line@)->0)))
                },
                Err(e) => {
                    &&& final(self).complete == old(self).complete
                    &&& final(self).size == old(self).size
                    &&& final(self).last_read_idx == old(self).last_read_idx
                    &&& final(self).cr_nr_count == old(self).cr_nr_count
                    &&& header_expected(old(self).data@ + line@) is None
                    &&& !frame_complete(old(self).data@ + line@)
                    &&& match e {
                        SerializeError::IncompleteCommand
                        | SerializeError::IncompleteLine
                        | SerializeError::UnreadableCommandSize => true,
                        _ => false,
                    }
                },
            },
    {
        let ghost s = self.data@;
        let ghost t = line@;
        self.data.extend_from_slice(line.as_slice());
        proof {
            assert(self.data@ =~= s + t);
            if s.len() == 0 {
                assert(delim_count(s + t, 1) == delim_count(s + t, 0) + if is_delim_at(s + t, 0) {
                    1int
                } else {
                    0int
                });
                assert(self.cr_nr_count as int == delim_count(self.data@, 1));
            } else {
                lemma_delim_count_append(s, t, self.last_read_idx as int + 1);
            }
            if header_present(s) {
                lemma_header_append(s, t);
            }
            if self.complete {
                lemma_frame_complete_append(s, t);
            }
            if header_expected(s + t) is None {
                assert(header_expected(s) is None);
            }
            lemma_header_expected_pos(s + t);
        }
        self.all_lines_received()
    }
}

} // verus!
