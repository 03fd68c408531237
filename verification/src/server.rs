//! Connection-facing state: the framing error taxonomy and the per-client
//! bookkeeping that turns raw reads into complete frame payloads.

use crate::constants::RESP_BUFFER_SIZE;
use crate::resp_reader::{
    lemma_rr_consumed_bounds, rr_complete, rr_consumed, rr_err, RespReader,
};
use std::collections::VecDeque;
use vstd::prelude::*;
use vstd::utf8::{decode_utf8, encode_utf8, valid_utf8};

verus! {

#[verifier::external_type_specification]
#[verifier::external_body]
pub struct ExFromUtf8Error(std::string::FromUtf8Error);

/// Relies on `String::from_utf8`: it succeeds exactly on valid UTF-8 input
/// and then returns the string whose characters decode, and re-encode to,
/// those bytes.
pub assume_specification[ String::from_utf8 ](vec: Vec<u8>) -> (r: core::result::Result<
    String,
    std::string::FromUtf8Error,
>)
    ensures
        r is Ok <==> valid_utf8(vec@),
        r matches Ok(s) ==> s@ == decode_utf8(vec@) && encode_utf8(s@) == vec@,
;

#[verifier::external_type_specification]
#[verifier::external_body]
pub struct ExUtf8Error(core::str::Utf8Error);

/// Relies on `str::from_utf8`: it succeeds exactly on valid UTF-8 input and
/// then returns the borrowed text whose characters decode, and re-encode to,
/// those bytes.
pub assume_specification[ core::str::from_utf8 ](v: &[u8]) -> (r: core::result::Result<
    &str,
    core::str::Utf8Error,
>)
    ensures
        r is Ok <==> valid_utf8(v@),
        r matches Ok(s) ==> s@ == decode_utf8(v@) && encode_utf8(s@) == v@,
;

/// Errors raised while reassembling a frame from the byte stream. The first
/// three are recoverable by supplying more bytes; the last two are fatal for
/// the frame being assembled.
#[derive(Debug)]
pub enum SerializeError {
    IncompleteLine,
    MissingContentSize,
    IncompleteCommand,
    UnsupportedTextEncoding,
    UnreadableCommandSize,
}

/// What draining one buffer of raw bytes through a frame reader leaves: the
/// decoded payload texts of the frames completed, and either the bytes of
/// the unfinished frame kept for the next read, or the error that stopped
/// the drain.
pub enum DrainRes {
    Done { msgs: Seq<Seq<char>>, rest: Seq<u8> },
    Fail { msgs: Seq<Seq<char>>, err: SerializeError },
}

/// `res` with `msgs` decoded before it.
pub open spec fn drain_prepend(msgs: Seq<Seq<char>>, res: DrainRes) -> DrainRes {
    match res {
        DrainRes::Done { msgs: m, rest } => DrainRes::Done { msgs: msgs + m, rest },
        DrainRes::Fail { msgs: m, err } => DrainRes::Fail { msgs: msgs + m, err },
    }
}

/// Drains `input` through a frame reader already holding `rdata`: each
/// completed frame's bytes are decoded as text and the reader starts afresh
/// on what follows; an unreadable frame header or a frame that is not valid
/// text stops the drain with the matching error; input that ends mid-frame
/// is kept.
pub open spec fn spec_drain(rdata: Seq<u8>, input: Seq<u8>) -> DrainRes
    decreases input.len(),
{
    if input.len() == 0 {
        DrainRes::Done { msgs: Seq::empty(), rest: rdata }
    } else {
        let k0 = rr_consumed(rdata, input, 0);
        let k = if k0 < 1 {
            1int
        } else if k0 > input.len() {
            input.len() as int
        } else {
            k0
        };
        let s = rdata + input.take(k);
        if rr_err(s) {
            DrainRes::Fail { msgs: Seq::empty(), err: SerializeError::UnreadableCommandSize }
        } else if rr_complete(s) {
            if valid_utf8(s) {
                drain_prepend(seq![decode_utf8(s)], spec_drain(Seq::empty(), input.skip(k)))
            } else {
                DrainRes::Fail { msgs: Seq::empty(), err: SerializeError::UnsupportedTextEncoding }
            }
        } else {
            DrainRes::Done { msgs: Seq::empty(), rest: s }
        }
    }
}

/// The per-connection state: identification supplied by the greeting, a
/// frame reader, and the queue of decoded frame payloads not yet handled.
#[derive(Debug)]
pub struct TcpClient {
    pub name: String,
    pub address: String,
    pub version: String,
    pub authenticated: bool,
    pub msg_from_client: u32,
    pub msg_cnt_to_client: u32,
    pub resp_buff_reader: RespReader,
    pub raw_msg_queue: VecDeque<String>,
}

impl TcpClient {
    /// The reader is internally consistent and stands before or inside a
    /// frame, never on a completed one: completed frames are drained into
    /// the message queue at once.
    pub open spec fn wf(self) -> bool {
        &&& self.resp_buff_reader.wf()
        &&& !self.resp_buff_reader.reached_end_of_msg
    }

    pub fn new(address: String) -> (r: TcpClient)
        ensures
            r.wf(),
            r.name@ == "unknown"@,
            r.version@ == "unknown"@,
            r.address@ == address@,
            !r.authenticated,
            r.msg_from_client == 0,
            r.msg_cnt_to_client == 0,
            r.resp_buff_reader.data@ == Seq::<u8>::empty(),
            r.raw_msg_queue@ == Seq::<String>::empty(),
    {
        TcpClient {
            name: "unknown".to_owned(),
            version: "unknown".to_owned(),
            address,
            authenticated: false,
            msg_from_client: 0,
            msg_cnt_to_client: 0,
            resp_buff_reader: RespReader::new(),
            raw_msg_queue: VecDeque::new(),
        }
    }

    /// Feeds the first `buff_bytes` bytes of one network read through the
    /// frame reader: every frame completed in them is decoded to text and
    /// appended to the message queue, and the reader keeps any unfinished
    /// trailing frame for the next read.
    pub fn read_buff(&mut self, buff: [u8; RESP_BUFFER_SIZE], buff_bytes: usize) -> (r:
        core::result::Result<(), SerializeError>)
        requires
            old(self).wf(),
            buff_bytes <= RESP_BUFFER_SIZE,
            old(self).resp_buff_reader.data@.len() + buff_bytes < u32::MAX,
            old(self).msg_from_client + buff_bytes <= u32::MAX,
        ensures
            final(self).name == old(self).name,
            final(self).address == old(self).address,
            final(self).version == old(self).version,
            final(self).authenticated == old(self).authenticated,
            final(self).msg_cnt_to_client == old(self).msg_cnt_to_client,
            final(self).resp_buff_reader.wf(),
            ({
                let res = spec_drain(
                    old(self).resp_buff_reader.data@,
                    buff@.take(buff_bytes as int),
                );
                match r {
                    Ok(u) => res matches DrainRes::Done { msgs, rest }
                        && final(self).raw_msg_queue.deep_view() == old(
                        self,
                    ).raw_msg_queue.deep_view() + msgs && final(self).resp_buff_reader.data@
                        == rest && final(self).msg_from_client == old(self).msg_from_client
                        + msgs.len() && final(self).wf(),
                    Err(e) => res matches DrainRes::Fail { msgs, err }
                        && e == err && final(self).raw_msg_queue.deep_view() == old(
                        self,
                    ).raw_msg_queue.deep_view() + msgs && final(self).msg_from_client == old(
                        self,
                    ).msg_from_client + msgs.len(),
                }
            }),
    {
        let ghost input = buff@.take(buff_bytes as int);
        let ghost q0 = old(self).raw_msg_queue.deep_view();
        let mut bytes_read: usize = 0;
        proof {
            assert(input.skip(0) =~= input);
            assert(q0 + Seq::<Seq<char>>::empty() =~= q0);
        }
        while bytes_read < buff_bytes
            invariant
                buff_bytes <= RESP_BUFFER_SIZE,
                input == buff@.take(buff_bytes as int),
                bytes_read <= buff_bytes,
                self.wf(),
                self.name == old(self).name,
                self.address == old(self).address,
                self.version == old(self).version,
                self.authenticated == old(self).authenticated,
                self.msg_cnt_to_client == old(self).msg_cnt_to_client,
                self.resp_buff_reader.data@.len() + (buff_bytes - bytes_read) < u32::MAX,
                q0 == old(self).raw_msg_queue.deep_view(),
                self.raw_msg_queue.deep_view().len() >= q0.len(),
                self.raw_msg_queue.deep_view().take(q0.len() as int) == q0,
                self.msg_from_client == old(self).msg_from_client + (
                self.raw_msg_queue.deep_view().len() - q0.len()),
                self.msg_from_client + (buff_bytes - bytes_read) <= u32::MAX,
                drain_prepend(
                    self.raw_msg_queue.deep_view().skip(q0.len() as int),
                    spec_drain(self.resp_buff_reader.data@, input.skip(bytes_read as int)),
                ) == spec_drain(old(self).resp_buff_reader.data@, input),
            decreases buff_bytes - bytes_read,
        {
            let ghost rdata = self.resp_buff_reader.data@;
            let ghost rem = input.skip(bytes_read as int);
            let ghost msgs_before = self.raw_msg_queue.deep_view();
            let chunk = &buff.as_slice()[bytes_read..buff_bytes];
            proof {
                assert(chunk@ =~= rem);
                lemma_rr_consumed_bounds(rdata, rem, 0);
            }
            let read_result = self.resp_buff_reader.read(chunk);
            let ghost k = rr_consumed(rdata, rem, 0);
            proof {
                assert(1 <= k <= rem.len());
                assert(rem.take(k) =~= rem.subrange(0, k));
                assert(self.resp_buff_reader.data@ =~= rdata + rem.take(k));
            }
            let r = match read_result {
                Ok(v) => v,
                Err(e) => {
                    proof {
                        assert(rr_err(rdata + rem.take(k)));
                        assert(spec_drain(rdata, rem) == DrainRes::Fail {
                            msgs: Seq::<Seq<char>>::empty(),
                            err: SerializeError::UnreadableCommandSize,
                        });
                        let done = self.raw_msg_queue.deep_view().skip(q0.len() as int);
                        assert(done + Seq::<Seq<char>>::empty() =~~= done);
                        assert(drain_prepend(done, spec_drain(rdata, rem)) == DrainRes::Fail {
                            msgs: done,
                            err: SerializeError::UnreadableCommandSize,
                        });
                    }
                    return Err(e);
                },
            };
            bytes_read = bytes_read + r + 1;
            proof {
                assert(rem.take(k) =~= input.subrange(
                    bytes_read - k,
                    bytes_read as int,
                ));
                assert(rem.skip(k) =~= input.skip(bytes_read as int));
            }
            if self.resp_buff_reader.reached_end_of_msg {
                let msg_utf8 = match self.resp_buff_reader.write_to_utf8() {
                    Ok(m) => m,
                    Err(e) => {
                        proof {
                            assert(rr_complete(rdata + rem.take(k)));
                            assert(!rr_err(rdata + rem.take(k)));
                            assert(!valid_utf8(rdata + rem.take(k)));
                            assert(spec_drain(rdata, rem) == DrainRes::Fail {
                                msgs: Seq::<Seq<char>>::empty(),
                                err: SerializeError::UnsupportedTextEncoding,
                            });
                            let done = self.raw_msg_queue.deep_view().skip(q0.len() as int);
                            assert(done + Seq::<Seq<char>>::empty() =~~= done);
                            assert(drain_prepend(done, spec_drain(rdata, rem)) == DrainRes::Fail {
                                msgs: done,
                                err: SerializeError::UnsupportedTextEncoding,
                            });
                        }
                        return Err(e);
                    },
                };
                self.msg_from_client = self.msg_from_client + 1;
                let ghost frame = self.resp_buff_reader.data@;
                self.raw_msg_queue.push_back(msg_utf8);
                self.resp_buff_reader.reset();
                proof {
                    assert(frame =~= rdata + rem.take(k));
                    assert(rr_complete(frame));
                    assert(!rr_err(frame));
                    assert(valid_utf8(frame));
                    assert(self.raw_msg_queue.deep_view() =~~= msgs_before.push(
                        decode_utf8(frame),
                    ));
                    assert(self.raw_msg_queue.deep_view().take(q0.len() as int) =~~= q0);
                    assert(spec_drain(rdata, rem) == drain_prepend(
                        seq![decode_utf8(frame)],
                        spec_drain(Seq::<u8>::empty(), rem.skip(k)),
                    ));
                    assert(self.raw_msg_queue.deep_view().skip(q0.len() as int)
                        =~~= msgs_before.skip(q0.len() as int) + seq![decode_utf8(frame)]);
                    lemma_drain_prepend_assoc(
                        msgs_before.skip(q0.len() as int),
                        seq![decode_utf8(frame)],
                        spec_drain(Seq::<u8>::empty(), rem.skip(k)),
                    );
                }
            } else {
                proof {
                    assert(!rr_complete(rdata + rem.take(k)));
                    assert(!rr_err(rdata + rem.take(k)));
                    assert(k == rem.len());
                    assert(bytes_read == buff_bytes);
                    assert(spec_drain(rdata, rem) == DrainRes::Done {
                        msgs: Seq::<Seq<char>>::empty(),
                        rest: self.resp_buff_reader.data@,
                    });
                    assert(input.skip(bytes_read as int) =~= Seq::<u8>::empty());
                    let done = self.raw_msg_queue.deep_view().skip(q0.len() as int);
                    assert(done + Seq::<Seq<char>>::empty() =~~= done);
                }
            }
        }
        proof {
            assert(input.skip(buff_bytes as int) =~= Seq::<u8>::empty());
            let msgs = self.raw_msg_queue.deep_view().skip(q0.len() as int);
            assert(spec_drain(old(self).resp_buff_reader.data@, input) == DrainRes::Done {
                msgs,
                rest: self.resp_buff_reader.data@,
            });
            assert(self.raw_msg_queue.deep_view() =~~= q0 + msgs);
        }
        Ok(())
    }
}

/// Prepending message lists one after the other is the same as prepending
/// their concatenation.
pub proof fn lemma_drain_prepend_assoc(a: Seq<Seq<char>>, b: Seq<Seq<char>>, res: DrainRes)
    ensures
        drain_prepend(a, drain_prepend(b, res)) == drain_prepend(a + b, res),
{
    match res {
        DrainRes::Done { msgs, rest } => {
            assert(a + (b + msgs) =~~= (a + b) + msgs);
        },
        DrainRes::Fail { msgs, err } => {
            assert(a + (b + msgs) =~~= (a + b) + msgs);
        },
    }
}

/// The listening server: the clients it has accepted.
pub struct TcpServer {
    pub redis_clients: Vec<TcpClient>,
}

impl TcpServer {
    pub fn new() -> (r: TcpServer)
        ensures
            r.redis_clients@ == Seq::<TcpClient>::empty(),
    {
        TcpServer { redis_clients: Vec::with_capacity(crate::constants::DEFAULT_CLIENT_SIZE) }
    }
}

} // verus!
