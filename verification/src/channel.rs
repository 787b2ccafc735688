//! One directional proxied stream.
//!
//! A `ProxyChannel` drives one pipe: each chunk read from the source is
//! logged according to the channel's mode and forwarded — always the
//! original bytes, unchanged, whatever the log mode and whatever the
//! framing state. The surrounding process performs the reads and writes;
//! the channel decides, for each chunk, what to write where.

use vstd::prelude::*;
use crate::frame::{
    lemma_fragmentation_invariance, lemma_run_feeds_from_snoc, parse_all, parse_step,
    run_feeds_from, step_body,
};
use crate::parser::LspMessageParser;
use crate::sink::{render_log_line, rendered_line, LogMode};
use crate::text::lossy_utf8_of;

verus! {

/// The log line structural mode appends for one message body.
pub open spec fn structural_record(body: Seq<u8>) -> Seq<char> {
    rendered_line(lossy_utf8_of(body))
}

/// One log line per extracted message body, in order.
pub open spec fn records_for(bodies: Seq<Seq<u8>>) -> Seq<Seq<char>> {
    bodies.map_values(|b: Seq<u8>| structural_record(b))
}

/// What one chunk contributes to the channel's log.
pub enum ChunkLog {
    /// Raw mode: the chunk itself, appended verbatim.
    Raw(Vec<u8>),
    /// Structural mode: one line per message this chunk completed.
    Lines(Vec<String>),
}

/// What the channel does with one chunk: the bytes to forward to the
/// destination — always the chunk itself — and what to append to the log.
pub struct ChunkOutcome {
    /// The bytes to write to the destination.
    pub forward: Vec<u8>,
    /// What to append to this channel's log.
    pub log: ChunkLog,
}

/// The log lines a chunk's log entry holds (none for a raw entry).
pub open spec fn chunk_lines(l: ChunkLog) -> Seq<Seq<char>> {
    match l {
        ChunkLog::Lines(ls) => ls.deep_view(),
        ChunkLog::Raw(_) => Seq::empty(),
    }
}

/// All log lines across a sequence of log entries, in order.
pub open spec fn all_lines(logs: Seq<ChunkLog>) -> Seq<Seq<char>> {
    logs.map_values(|l: ChunkLog| chunk_lines(l)).flatten()
}

/// The raw bytes a chunk's log entry holds (none for a line entry).
pub open spec fn chunk_raw(l: ChunkLog) -> Seq<u8> {
    match l {
        ChunkLog::Raw(b) => b@,
        ChunkLog::Lines(_) => Seq::empty(),
    }
}

/// All raw log bytes across a sequence of log entries, in order.
pub open spec fn all_raw(logs: Seq<ChunkLog>) -> Seq<u8> {
    logs.map_values(|l: ChunkLog| chunk_raw(l)).flatten()
}

/// State of one directional stream: its log mode and its framing buffer.
pub struct ProxyChannel {
    mode: LogMode,
    parser: LspMessageParser,
}

impl ProxyChannel {
    /// The channel's log mode, fixed at construction.
    pub closed spec fn mode_spec(&self) -> LogMode {
        self.mode
    }

    /// The bytes received but not yet resolved into a complete message.
    pub closed spec fn buffered(&self) -> Seq<u8> {
        self.parser@
    }

    /// A channel in the given mode with an empty buffer.
    pub fn new(mode: LogMode) -> (c: Self)
        ensures
            c.mode_spec() == mode,
            c.buffered() == Seq::<u8>::empty(),
    {
        ProxyChannel { mode, parser: LspMessageParser::new() }
    }

    /// Handles one chunk read from the source: what to forward is the
    /// chunk itself, unchanged; what to log is the chunk (raw mode) or
    /// one line per message the chunk completed (structural mode).
    #[verifier::loop_isolation(false)]
    pub fn handle_chunk(&mut self, data: &[u8]) -> (r: ChunkOutcome)
        ensures
            final(self).mode_spec() == old(self).mode_spec(),
            r.forward@ == data@,
            old(self).mode_spec() is Raw ==> {
                &&& final(self).buffered() == old(self).buffered()
                &&& r.log matches ChunkLog::Raw(b) && b@ == data@
            },
            old(self).mode_spec() is JsonLines ==> ({
                let run = parse_all(old(self).buffered() + data@);
                &&& final(self).buffered() == run.1
                &&& r.log matches ChunkLog::Lines(ls) && ls.deep_view() == records_for(run.0)
            }),
    {
        let forward = vstd::slice::slice_to_vec(data);
        match self.mode {
            LogMode::Raw => {
                let copy = vstd::slice::slice_to_vec(data);
                ChunkOutcome { forward, log: ChunkLog::Raw(copy) }
            },
            LogMode::JsonLines => {
                self.parser.add_data(data);
                let ghost start = self.parser@;
                let mut lines: Vec<String> = Vec::new();
                loop
                    invariant
                        self.mode == old(self).mode,
                        records_for(parse_all(start).0) == lines.deep_view() + records_for(
                            parse_all(self.parser@).0,
                        ),
                        parse_all(start).1 == parse_all(self.parser@).1,
                    decreases self.parser@.len(),
                {
                    let ghost prev = self.parser@;
                    let m = self.parser.try_parse_message();
                    match m {
                        Some(pair) => {
                            proof {
                                assert(parse_step(prev) is Some);
                            }
                            let ghost hn = parse_step(prev)->Some_0;
                            let ghost body = step_body(prev, hn.0, hn.1);
                            let line = render_log_line(pair.1.as_str());
                            proof {
                                assert(line@ == structural_record(body));
                            }
                            lines.push(line);
                            proof {
                                assert(lines.deep_view() =~= lines.deep_view().drop_last().push(
                                    line@,
                                ));
                                assert(records_for(parse_all(prev).0) =~= seq![
                                    structural_record(body),
                                ] + records_for(parse_all(self.parser@).0));
                                assert(lines.deep_view().drop_last() + (seq![
                                    structural_record(body),
                                ] + records_for(parse_all(self.parser@).0)) =~= lines.deep_view()
                                    + records_for(parse_all(self.parser@).0));
                            }
                        },
                        None => {
                            break;
                        },
                    }
                }
                proof {
                    assert(records_for(parse_all(self.parser@).0) =~= Seq::<Seq<char>>::empty());
                    assert(lines.deep_view() + Seq::<Seq<char>>::empty() =~= lines.deep_view());
                }
                ChunkOutcome { forward, log: ChunkLog::Lines(lines) }
            },
        }
    }
}

/// Law: structural logging appends exactly one log line per extracted
/// message, in the order the messages were extracted.
pub proof fn lemma_one_record_per_message(bodies: Seq<Seq<u8>>)
    ensures
        records_for(bodies).len() == bodies.len(),
        forall|i: int|
            0 <= i < bodies.len() ==> #[trigger] records_for(bodies)[i] == structural_record(
                bodies[i],
            ),
{
}

/// The characters of `[LSP stderr] `, the tag put before each echoed
/// diagnostic line.
pub open spec fn echo_prefix_chars() -> Seq<char> {
    seq!['[', 'L', 'S', 'P', ' ', 's', 't', 'd', 'e', 'r', 'r', ']', ' ']
}

/// The diagnostic echo for one line of the child's stderr: the tag, then
/// the line exactly as read.
pub fn stderr_echo_line(line: &str) -> (r: String)
    ensures
        r@ == echo_prefix_chars() + line@,
{
    let mut out = String::from_str("[LSP stderr] ");
    proof {
        reveal_strlit("[LSP stderr] ");
        assert(out@ =~= echo_prefix_chars());
    }
    out.append(line);
    out
}

/// Drives one channel over a whole sequence of reads, as the read loop
/// does chunk by chunk. Forwarding is lossless: the bytes forwarded are
/// exactly the bytes read, in order, whatever the log mode and whatever
/// the framing state. In structural mode the log holds exactly one line
/// per message of the concatenated stream, however the reads were
/// fragmented; in raw mode it holds exactly the bytes read.
#[verifier::loop_isolation(false)]
pub fn relay_chunks(mode: LogMode, chunks: &Vec<Vec<u8>>) -> (r: (Vec<u8>, Vec<ChunkLog>))
    ensures
        r.0@ == chunks.deep_view().flatten(),
        r.1@.len() == chunks@.len(),
        mode is Raw ==> all_raw(r.1@) == chunks.deep_view().flatten(),
        mode is JsonLines ==> all_lines(r.1@) == records_for(
            parse_all(chunks.deep_view().flatten()).0,
        ),
{
    let ghost cs = chunks.deep_view();
    let mut ch = ProxyChannel::new(mode);
    let mut out: Vec<u8> = Vec::new();
    let mut logs: Vec<ChunkLog> = Vec::new();
    let mut i: usize = 0;
    while i < chunks.len()
        invariant
            i <= chunks.len(),
            ch.mode_spec() == mode,
            out@ == cs.take(i as int).flatten(),
            logs@.len() == i,
            mode is Raw ==> ch.buffered() == Seq::<u8>::empty() && all_raw(logs@) == cs.take(
                i as int,
            ).flatten(),
            mode is JsonLines ==> ({
                let run = run_feeds_from(Seq::empty(), cs.take(i as int));
                ch.buffered() == run.1 && all_lines(logs@) == records_for(run.0)
            }),
        decreases chunks.len() - i,
    {
        let ghost taken = cs.take(i as int);
        let ghost c = cs[i as int];
        proof {
            assert(chunks@[i as int]@ =~= c);
            assert(cs.take(i + 1) =~= taken.push(c));
            Seq::lemma_flatten_push(taken, c);
        }
        let outcome = ch.handle_chunk(chunks[i].as_slice());
        let mut fwd = outcome.forward;
        let lg = outcome.log;
        out.append(&mut fwd);
        proof {
            assert(out@ == cs.take(i + 1).flatten());
        }
        let ghost old_logs = logs@;
        logs.push(lg);
        proof {
            let f_lines = |l: ChunkLog| chunk_lines(l);
            let f_raw = |l: ChunkLog| chunk_raw(l);
            assert(logs@.map_values(f_lines) =~= old_logs.map_values(f_lines).push(
                chunk_lines(lg),
            ));
            assert(logs@.map_values(f_raw) =~= old_logs.map_values(f_raw).push(chunk_raw(lg)));
            Seq::lemma_flatten_push(old_logs.map_values(f_lines), chunk_lines(lg));
            Seq::lemma_flatten_push(old_logs.map_values(f_raw), chunk_raw(lg));
            if mode is JsonLines {
                lemma_run_feeds_from_snoc(Seq::empty(), taken, c);
                let run = run_feeds_from(Seq::empty(), taken);
                let pa = parse_all(run.1 + c);
                assert(records_for(run.0 + pa.0) =~= records_for(run.0) + records_for(pa.0));
            }
        }
        i = i + 1;
    }
    proof {
        assert(cs.take(chunks@.len() as int) =~= cs);
        if mode is JsonLines {
            lemma_fragmentation_invariance(cs);
        }
    }
    (out, logs)
}

} // verus!
