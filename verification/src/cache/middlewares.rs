//! The interception pipeline around the handler. The chain runs its
//! middlewares outer to inner on the request path — logging, the
//! write-ahead-log tap, the replication tap — and then the terminal
//! handler. Each tap enqueues mutating commands for its background
//! sink before the store changes, so the log is always a superset of
//! what the store reflects; an enqueue that cannot succeed fails the
//! request instead of dropping the record silently.
//!
//! The sinks' workers live outside the library: they drain the
//! queues with [`WriteLog::take_pending`] and
//! [`Replicator::take_pending`] and do the file and socket writes.

use vstd::prelude::*;

use crate::proto::{
    spec_is_mutating, spec_command_unit, spec_frame_unit, CmdModel, FrameModel, RequestCommand,
    VERSION,
};
use crate::cache::{spec_apply, spec_apply_all, spec_payload, CacheServer, Cache, StoreModel};

verus! {

/// Why the chain refused a request: the sink whose queue can no
/// longer accept records.
#[derive(Debug, Clone, Copy, PartialEq, Eq, Structural)]
pub enum ChainError {
    WalUnavailable,
    ReplicatorUnavailable,
}

impl ChainError {
    /// The error payload sent to the client: the error class, as
    /// bytes of the ASCII text `sink-unavailable`.
    pub fn message(&self) -> (m: Vec<u8>)
        ensures
            m@ == spec_sink_error_message(),
    {
        let mut m: Vec<u8> = Vec::new();
        m.push(115);
        m.push(105);
        m.push(110);
        m.push(107);
        m.push(45);
        m.push(117);
        m.push(110);
        m.push(97);
        m.push(118);
        m.push(97);
        m.push(105);
        m.push(108);
        m.push(97);
        m.push(98);
        m.push(108);
        m.push(101);
        proof {
            assert(m@ =~= spec_sink_error_message());
        }
        m
    }
}

/// The bytes of the ASCII text `sink-unavailable`.
pub open spec fn spec_sink_error_message() -> Seq<u8> {
    seq![115u8, 105u8, 110u8, 107u8, 45u8, 117u8, 110u8, 97u8, 118u8, 97u8, 105u8, 108u8, 97u8,
        98u8, 108u8, 101u8]
}

/// The frame a mutation is wrapped in for replication: the server's
/// version and a fixed id, because replication is fire-and-forget
/// and the original client's id is not preserved.
pub open spec fn spec_replication_frame(c: CmdModel) -> FrameModel {
    FrameModel { version: VERSION, id: 1u64, command: c }
}

/// One middleware: it may observe the command and its own state, may
/// enqueue a record, and either admits the request onward or refuses
/// it with an error. A middleware never answers the request itself.
pub trait Middleware: Sized {
    /// Whether this middleware lets `f` proceed.
    spec fn admits(&self, f: CmdModel) -> bool;

    /// How a successful step changes this middleware's state.
    spec fn step_ok(&self, f: CmdModel, post: &Self) -> bool;

    /// The error this middleware refuses with.
    spec fn refusal(&self) -> ChainError;

    /// Runs this middleware's request-path action: `Ok` admits the
    /// request onward, `Err` fails it, and a refusal changes
    /// nothing.
    fn on_request(&mut self, f: &RequestCommand) -> (r: Result<(), ChainError>)
        ensures
            r is Ok <==> old(self).admits(f@),
            r is Ok ==> old(self).step_ok(f@, final(self)),
            r is Err ==> *final(self) == *old(self) && r == Err::<(), ChainError>(
                old(self).refusal(),
            ),
    ;
}

/// The logging middleware. It wraps the whole pipeline and never
/// fails; the wall-clock timing and the writing of the log line
/// happen outside the library, gated on `verbose`.
#[derive(Debug)]
pub struct Logger {
    pub verbose: bool,
}

impl Logger {
    pub fn new(verbose: bool) -> (l: Logger)
        ensures
            l.verbose == verbose,
    {
        Logger { verbose }
    }
}

impl Middleware for Logger {
    open spec fn admits(&self, f: CmdModel) -> bool {
        true
    }

    open spec fn step_ok(&self, f: CmdModel, post: &Self) -> bool {
        *post == *self
    }

    open spec fn refusal(&self) -> ChainError {
        ChainError::WalUnavailable
    }

    fn on_request(&mut self, f: &RequestCommand) -> (r: Result<(), ChainError>) {
        Ok(())
    }
}

/// The write-ahead-log tap and its queue. The reactor side enqueues
/// complete length-prefixed records of mutating commands; the sink
/// worker outside the library drains them with [`Self::take_pending`]
/// and appends them to the file at `path`. A worker that hit a write
/// failure calls [`Self::close`], after which every mutating request
/// is refused.
pub struct WriteLog {
    queue: Vec<Vec<u8>>,
    accepting: bool,
    pub path: String,
}

impl WriteLog {
    /// The records enqueued and not yet drained, oldest first.
    pub closed spec fn pending(&self) -> Seq<Seq<u8>> {
        self.queue@.map_values(|r: Vec<u8>| r@)
    }

    /// Whether the sink still accepts records.
    pub closed spec fn is_open(&self) -> bool {
        self.accepting
    }

    /// The path of the log file this sink appends to.
    pub closed spec fn spec_path(&self) -> Seq<char> {
        self.path@
    }

    /// A fresh sink for the log file at `path`: empty queue, open.
    pub fn new(path: &str) -> (w: WriteLog)
        ensures
            w.pending() == Seq::<Seq<u8>>::empty(),
            w.is_open(),
            w.spec_path() == path@,
    {
        let w = WriteLog { queue: Vec::new(), accepting: true, path: path.to_owned() };
        proof {
            assert(w.pending() =~= Seq::<Seq<u8>>::empty());
        }
        w
    }

    /// Hands every pending record to the sink worker, oldest first,
    /// leaving the queue empty.
    pub fn take_pending(&mut self) -> (r: Vec<Vec<u8>>)
        ensures
            r@.map_values(|v: Vec<u8>| v@) == old(self).pending(),
            final(self).pending() == Seq::<Seq<u8>>::empty(),
            final(self).is_open() == old(self).is_open(),
            final(self).spec_path() == old(self).spec_path(),
    {
        let r = self.queue.split_off(0);
        proof {
            assert(r@ =~= old(self).queue@);
            assert(self.pending() =~= Seq::<Seq<u8>>::empty());
        }
        r
    }

    /// Marks the sink terminated: the worker can no longer write, so
    /// every later mutating request must fail rather than lose its
    /// record silently.
    pub fn close(&mut self)
        ensures
            !final(self).is_open(),
            final(self).pending() == old(self).pending(),
            final(self).spec_path() == old(self).spec_path(),
    {
        self.accepting = false;
    }

    /// Replays a write-ahead log, read from disk by the caller, into
    /// a fresh store: decodes length-prefixed records and applies
    /// each command directly to the handler, bypassing the chain, so
    /// replay neither re-logs nor re-replicates. A truncated or
    /// malformed trailing record ends the replay silently. Returns
    /// how many records were applied.
    pub fn preload<C: CacheServer>(&self, wal_bytes: &Vec<u8>, cache: &mut C) -> (count: usize)
        requires
            old(cache).inv(),
        ensures
            final(cache).inv(),
            final(cache).model() == spec_apply_all(
                old(cache).model(),
                spec_wal_commands(wal_bytes@),
            ),
            count == spec_wal_commands(wal_bytes@).len(),
    {
        let mut pos: usize = 0;
        let mut count: usize = 0;
        let total = wal_bytes.len();
        proof {
            assert(wal_bytes@.subrange(0, total as int) =~= wal_bytes@);
        }
        loop
            invariant
                cache.inv(),
                total == wal_bytes@.len(),
                0 <= pos <= total,
                8 * count <= pos,
                spec_apply_all(old(cache).model(), spec_wal_commands(wal_bytes@))
                    == spec_apply_all(
                    cache.model(),
                    spec_wal_commands(wal_bytes@.subrange(pos as int, total as int)),
                ),
                spec_wal_commands(wal_bytes@).len() == count + spec_wal_commands(
                    wal_bytes@.subrange(pos as int, total as int),
                ).len(),
            decreases total - pos,
        {
            let ghost rest = wal_bytes@.subrange(pos as int, total as int);
            if total - pos < 8 {
                proof {
                    assert(crate::proto::spec_unit_len(rest) is None);
                    assert(spec_wal_commands(rest).len() == 0);
                }
                return count;
            }
            let len_slice = vstd::slice::slice_subrange(wal_bytes.as_slice(), pos, pos + 8);
            proof {
                assert(len_slice@ =~= rest.subrange(0, 8));
            }
            let n64 = vstd::bytes::u64_from_le_bytes(len_slice);
            if n64 > (total - pos - 8) as u64 {
                proof {
                    assert(crate::proto::spec_unit_len(rest) is None);
                    assert(spec_wal_commands(rest).len() == 0);
                }
                return count;
            }
            let n = n64 as usize;
            let body = vstd::slice::slice_subrange(wal_bytes.as_slice(), pos + 8, pos + 8 + n);
            proof {
                assert(body@ =~= rest.subrange(8, 8 + n64 as int));
                assert(crate::proto::spec_unit_len(rest) == Some(8 + n64 as int));
            }
            match crate::proto::deserialize_command(body) {
                Some(command) => {
                    let ghost pre_model = cache.model();
                    cache.on_request(&command);
                    proof {
                        let tail = wal_bytes@.subrange((pos + 8 + n) as int, total as int);
                        assert(rest.subrange(8 + n64 as int, rest.len() as int) =~= tail);
                        assert(spec_wal_commands(rest) =~= seq![command@] + spec_wal_commands(
                            tail,
                        ));
                        lemma_apply_all_cons(pre_model, command@, spec_wal_commands(tail));
                        assert((seq![command@] + spec_wal_commands(tail)).subrange(
                            1,
                            (seq![command@] + spec_wal_commands(tail)).len() as int,
                        ) =~= spec_wal_commands(tail));
                    }
                    pos = pos + 8 + n;
                    count = count + 1;
                },
                None => {
                    proof {
                        assert(spec_wal_commands(rest).len() == 0);
                    }
                    return count;
                },
            }
        }
    }
}

/// Folding one command and then a sequence equals folding the
/// sequence with the command at its head.
proof fn lemma_apply_all_cons(s: StoreModel, c: CmdModel, cs: Seq<CmdModel>)
    ensures
        spec_apply_all(s, seq![c] + cs) == spec_apply_all(spec_apply(s, c), cs),
{
    let whole = seq![c] + cs;
    assert(whole[0] == c);
    assert(whole.subrange(1, whole.len() as int) =~= cs);
}

/// The commands a write-ahead log holds: length-prefixed records
/// decoded front to back. A truncated or malformed trailing record
/// and everything after it are discarded.
pub open spec fn spec_wal_commands(b: Seq<u8>) -> Seq<CmdModel>
    decreases b.len(),
{
    match crate::proto::spec_unit_len(b) {
        Some(n) => match crate::proto::spec_decode_command(b.subrange(8, n)) {
            Some(c) => seq![c] + spec_wal_commands(b.subrange(n, b.len() as int)),
            None => Seq::empty(),
        },
        None => Seq::empty(),
    }
}

impl Middleware for WriteLog {
    /// Mutating commands need the sink open; everything else passes.
    open spec fn admits(&self, f: CmdModel) -> bool {
        spec_is_mutating(f) ==> self.is_open()
    }

    /// A mutating command leaves its record at the back of the
    /// queue; nothing else changes.
    open spec fn step_ok(&self, f: CmdModel, post: &Self) -> bool {
        &&& post.pending() == if spec_is_mutating(f) {
            self.pending().push(spec_command_unit(f))
        } else {
            self.pending()
        }
        &&& post.is_open() == self.is_open()
        &&& post.spec_path() == self.spec_path()
    }

    open spec fn refusal(&self) -> ChainError {
        ChainError::WalUnavailable
    }

    fn on_request(&mut self, f: &RequestCommand) -> (r: Result<(), ChainError>) {
        if crate::proto::is_mutating(f) {
            if !self.accepting {
                return Err(ChainError::WalUnavailable);
            }
            let record = crate::proto::encode_command_vec(f);
            self.queue.push(record);
            proof {
                assert(self.pending() =~= old(self).pending().push(spec_command_unit(f@)));
            }
        }
        Ok(())
    }
}

/// The replication tap and its queue. The reactor side enqueues
/// complete encoded frames; the sink worker outside the library
/// drains them and writes each to every peer socket in insertion
/// order. Replication is one-way: no acknowledgment comes back.
pub struct Replicator {
    queue: Vec<Vec<u8>>,
    accepting: bool,
    pub addrs: Vec<String>,
}

impl Replicator {
    /// The frames enqueued and not yet drained, oldest first.
    pub closed spec fn pending(&self) -> Seq<Seq<u8>> {
        self.queue@.map_values(|r: Vec<u8>| r@)
    }

    /// Whether the sink still accepts frames.
    pub closed spec fn is_open(&self) -> bool {
        self.accepting
    }

    /// The configured peer addresses, in fan-out order.
    pub closed spec fn spec_addrs(&self) -> Seq<Seq<char>> {
        self.addrs@.map_values(|s: String| s@)
    }

    /// A fresh sink for the given peers: empty queue, open. The
    /// caller connects the peer sockets eagerly at startup and
    /// treats a connection failure as fatal.
    pub fn new(addrs: Vec<String>) -> (r: Replicator)
        ensures
            r.pending() == Seq::<Seq<u8>>::empty(),
            r.is_open(),
            r.spec_addrs() == addrs@.map_values(|s: String| s@),
    {
        let r = Replicator { queue: Vec::new(), accepting: true, addrs };
        proof {
            assert(r.pending() =~= Seq::<Seq<u8>>::empty());
        }
        r
    }

    /// Hands every pending frame to the sink worker, oldest first,
    /// leaving the queue empty.
    pub fn take_pending(&mut self) -> (r: Vec<Vec<u8>>)
        ensures
            r@.map_values(|v: Vec<u8>| v@) == old(self).pending(),
            final(self).pending() == Seq::<Seq<u8>>::empty(),
            final(self).is_open() == old(self).is_open(),
            final(self).spec_addrs() == old(self).spec_addrs(),
    {
        let r = self.queue.split_off(0);
        proof {
            assert(r@ =~= old(self).queue@);
            assert(self.pending() =~= Seq::<Seq<u8>>::empty());
        }
        r
    }

    /// Marks the sink terminated; every later mutating request must
    /// fail rather than lose its frame silently.
    pub fn close(&mut self)
        ensures
            !final(self).is_open(),
            final(self).pending() == old(self).pending(),
            final(self).spec_addrs() == old(self).spec_addrs(),
    {
        self.accepting = false;
    }
}

impl Middleware for Replicator {
    /// Mutating commands need the sink open; everything else passes.
    open spec fn admits(&self, f: CmdModel) -> bool {
        spec_is_mutating(f) ==> self.is_open()
    }

    /// A mutating command leaves its replication frame at the back
    /// of the queue; nothing else changes.
    open spec fn step_ok(&self, f: CmdModel, post: &Self) -> bool {
        &&& post.pending() == if spec_is_mutating(f) {
            self.pending().push(spec_frame_unit(spec_replication_frame(f)))
        } else {
            self.pending()
        }
        &&& post.is_open() == self.is_open()
        &&& post.spec_addrs() == self.spec_addrs()
    }

    open spec fn refusal(&self) -> ChainError {
        ChainError::ReplicatorUnavailable
    }

    fn on_request(&mut self, f: &RequestCommand) -> (r: Result<(), ChainError>) {
        if crate::proto::is_mutating(f) {
            if !self.accepting {
                return Err(ChainError::ReplicatorUnavailable);
            }
            let record = crate::proto::encode_frame_parts(VERSION, 1, f);
            self.queue.push(record);
            proof {
                assert(self.pending() =~= old(self).pending().push(
                    spec_frame_unit(spec_replication_frame(f@)),
                ));
            }
        }
        Ok(())
    }
}

/// Observable state of the whole pipeline: the middlewares' state
/// and the store behind them.
pub struct ChainModel {
    pub verbose: bool,
    pub wal_open: bool,
    pub repl_open: bool,
    pub wal_pending: Seq<Seq<u8>>,
    pub repl_pending: Seq<Seq<u8>>,
    pub store: StoreModel,
}

/// Whether the chain admits `c`: a mutating command needs both sinks
/// open; anything else always succeeds.
pub open spec fn chain_admits(m: ChainModel, c: CmdModel) -> bool {
    spec_is_mutating(c) ==> (m.wal_open && m.repl_open)
}

/// How an admitted command changes the pipeline: its record reaches
/// both queues if it mutates, and the store steps by the handler's
/// semantics.
pub open spec fn chain_apply(m: ChainModel, c: CmdModel) -> ChainModel {
    ChainModel {
        verbose: m.verbose,
        wal_open: m.wal_open,
        repl_open: m.repl_open,
        wal_pending: if spec_is_mutating(c) {
            m.wal_pending.push(spec_command_unit(c))
        } else {
            m.wal_pending
        },
        repl_pending: if spec_is_mutating(c) {
            m.repl_pending.push(spec_frame_unit(spec_replication_frame(c)))
        } else {
            m.repl_pending
        },
        store: spec_apply(m.store, c),
    }
}

/// How a refused command leaves the pipeline, and with which error.
/// The taps run in order, so a record may already sit in the
/// write-ahead-log queue when the replication tap refuses: the log
/// stays a superset of the store.
pub open spec fn chain_refuse(m: ChainModel, c: CmdModel) -> (ChainModel, ChainError) {
    if !m.wal_open {
        (m, ChainError::WalUnavailable)
    } else {
        (
            ChainModel {
                verbose: m.verbose,
                wal_open: m.wal_open,
                repl_open: m.repl_open,
                wal_pending: m.wal_pending.push(spec_command_unit(c)),
                repl_pending: m.repl_pending,
                store: m.store,
            },
            ChainError::ReplicatorUnavailable,
        )
    }
}

/// A pipeline folded over a sequence of commands it admits, in
/// order: the run of a server that acknowledged every one of them.
pub open spec fn chain_apply_all(m: ChainModel, cs: Seq<CmdModel>) -> ChainModel
    decreases cs.len(),
{
    if cs.len() == 0 {
        m
    } else {
        chain_apply_all(chain_apply(m, cs[0]), cs.subrange(1, cs.len() as int))
    }
}

/// The write-ahead-log records a run of acknowledged commands
/// enqueues: one complete record per mutating command, in order.
pub open spec fn spec_wal_records_of(cs: Seq<CmdModel>) -> Seq<Seq<u8>>
    decreases cs.len(),
{
    if cs.len() == 0 {
        Seq::empty()
    } else {
        (if spec_is_mutating(cs[0]) {
            seq![spec_command_unit(cs[0])]
        } else {
            Seq::<Seq<u8>>::empty()
        }) + spec_wal_records_of(cs.subrange(1, cs.len() as int))
    }
}

/// The frames a run of acknowledged commands enqueues for
/// replication: one complete encoded frame per mutating command, in
/// order.
pub open spec fn spec_repl_records_of(cs: Seq<CmdModel>) -> Seq<Seq<u8>>
    decreases cs.len(),
{
    if cs.len() == 0 {
        Seq::empty()
    } else {
        (if spec_is_mutating(cs[0]) {
            seq![spec_frame_unit(spec_replication_frame(cs[0]))]
        } else {
            Seq::<Seq<u8>>::empty()
        }) + spec_repl_records_of(cs.subrange(1, cs.len() as int))
    }
}

/// Every mutation a run acknowledged is offered to the peers: its
/// frame stands in the replication queue in the order of
/// acknowledgment, behind whatever the queue already held.
pub proof fn lemma_replication_complete(m: ChainModel, cs: Seq<CmdModel>)
    ensures
        chain_apply_all(m, cs).repl_pending == m.repl_pending + spec_repl_records_of(cs),
    decreases cs.len(),
{
    if cs.len() == 0 {
        assert(m.repl_pending + spec_repl_records_of(cs) =~= m.repl_pending);
    } else {
        let rest = cs.subrange(1, cs.len() as int);
        lemma_replication_complete(chain_apply(m, cs[0]), rest);
        assert(chain_apply(m, cs[0]).repl_pending + spec_repl_records_of(rest) =~= m.repl_pending
            + spec_repl_records_of(cs));
    }
}

/// The mutating commands of a run, in order.
pub open spec fn spec_muts(cs: Seq<CmdModel>) -> Seq<CmdModel>
    decreases cs.len(),
{
    if cs.len() == 0 {
        Seq::empty()
    } else {
        (if spec_is_mutating(cs[0]) {
            seq![cs[0]]
        } else {
            Seq::<CmdModel>::empty()
        }) + spec_muts(cs.subrange(1, cs.len() as int))
    }
}

/// A sequence of records laid end to end: the bytes the sink worker
/// appends to the log file.
pub open spec fn spec_concat(rs: Seq<Seq<u8>>) -> Seq<u8>
    decreases rs.len(),
{
    if rs.len() == 0 {
        Seq::empty()
    } else {
        rs[0] + spec_concat(rs.subrange(1, rs.len() as int))
    }
}

/// The file image of a command sequence: each command as a complete
/// length-prefixed record, end to end.
pub open spec fn spec_wal_image(cs: Seq<CmdModel>) -> Seq<u8>
    decreases cs.len(),
{
    if cs.len() == 0 {
        Seq::empty()
    } else {
        spec_command_unit(cs[0]) + spec_wal_image(cs.subrange(1, cs.len() as int))
    }
}

/// For every mutating command a run acknowledged, its record stands
/// in the write-ahead-log queue, in the order of acknowledgment,
/// behind whatever the queue already held.
pub proof fn lemma_wal_log_complete(m: ChainModel, cs: Seq<CmdModel>)
    ensures
        chain_apply_all(m, cs).wal_pending == m.wal_pending + spec_wal_records_of(cs),
    decreases cs.len(),
{
    if cs.len() == 0 {
        assert(m.wal_pending + spec_wal_records_of(cs) =~= m.wal_pending);
    } else {
        let rest = cs.subrange(1, cs.len() as int);
        lemma_wal_log_complete(chain_apply(m, cs[0]), rest);
        assert(chain_apply(m, cs[0]).wal_pending + spec_wal_records_of(rest) =~= m.wal_pending
            + spec_wal_records_of(cs));
    }
}

/// A run's store only sees the commands themselves: the pipeline's
/// taps do not touch it.
pub proof fn lemma_chain_run_store(m: ChainModel, cs: Seq<CmdModel>)
    ensures
        chain_apply_all(m, cs).store == spec_apply_all(m.store, cs),
        chain_apply_all(m, cs).wal_open == m.wal_open,
        chain_apply_all(m, cs).repl_open == m.repl_open,
    decreases cs.len(),
{
    if cs.len() > 0 {
        lemma_chain_run_store(chain_apply(m, cs[0]), cs.subrange(1, cs.len() as int));
    }
}

/// Non-mutating commands leave the store alone, so replaying only
/// the mutations of a run rebuilds exactly the run's store.
pub proof fn lemma_muts_apply(s: StoreModel, cs: Seq<CmdModel>)
    ensures
        spec_apply_all(s, spec_muts(cs)) == spec_apply_all(s, cs),
    decreases cs.len(),
{
    if cs.len() > 0 {
        let rest = cs.subrange(1, cs.len() as int);
        if spec_is_mutating(cs[0]) {
            assert(spec_muts(cs)[0] == cs[0]);
            assert(spec_muts(cs).subrange(1, spec_muts(cs).len() as int) =~= spec_muts(rest));
            lemma_muts_apply(spec_apply(s, cs[0]), rest);
        } else {
            assert(spec_muts(cs) =~= spec_muts(rest));
            assert(spec_apply(s, cs[0]) == s);
            lemma_muts_apply(s, rest);
        }
    }
}

/// A complete record in front of further bytes parses as exactly
/// its command, and parsing continues behind it.
proof fn lemma_wal_commands_cons(c: CmdModel, rest: Seq<u8>)
    requires
        crate::proto::cmd_wf(c),
        crate::proto::spec_encode_command(c).len() <= u64::MAX,
    ensures
        spec_wal_commands(spec_command_unit(c) + rest) == seq![c] + spec_wal_commands(rest),
{
    vstd::bytes::lemma_auto_spec_u64_to_from_le_bytes();
    let body = crate::proto::spec_encode_command(c);
    let whole = spec_command_unit(c) + rest;
    let n = 8 + body.len() as int;
    assert(whole.subrange(0, 8) =~= vstd::bytes::spec_u64_to_le_bytes(body.len() as u64));
    assert(vstd::bytes::spec_u64_from_le_bytes(whole.subrange(0, 8)) == body.len());
    assert(crate::proto::spec_unit_len(whole) == Some(n));
    assert(whole.subrange(8, n) =~= body);
    crate::proto::lemma_command_round_trip(c);
    assert(whole.subrange(n, whole.len() as int) =~= rest);
}

/// The file image of a command sequence parses back to exactly that
/// sequence: nothing is lost, reordered, or invented.
pub proof fn lemma_wal_image_decodes(cs: Seq<CmdModel>)
    requires
        forall|i: int|
            0 <= i < cs.len() ==> crate::proto::cmd_wf(#[trigger] cs[i])
                && crate::proto::spec_encode_command(cs[i]).len() <= u64::MAX,
    ensures
        spec_wal_commands(spec_wal_image(cs)) == cs,
    decreases cs.len(),
{
    if cs.len() == 0 {
        assert(crate::proto::spec_unit_len(spec_wal_image(cs)) is None);
    } else {
        let rest = cs.subrange(1, cs.len() as int);
        lemma_wal_commands_cons(cs[0], spec_wal_image(rest));
        lemma_wal_image_decodes(rest);
        assert(seq![cs[0]] + rest =~= cs);
    }
}

/// A truncated trailing record is discarded: the image of a command
/// sequence followed by an incomplete unit parses back to exactly
/// the sequence, so recovery completes and reports its count.
pub proof fn lemma_truncated_tail_discarded(cs: Seq<CmdModel>, partial: Seq<u8>)
    requires
        forall|i: int|
            0 <= i < cs.len() ==> crate::proto::cmd_wf(#[trigger] cs[i])
                && crate::proto::spec_encode_command(cs[i]).len() <= u64::MAX,
        crate::proto::spec_unit_len(partial) is None,
    ensures
        spec_wal_commands(spec_wal_image(cs) + partial) == cs,
    decreases cs.len(),
{
    if cs.len() == 0 {
        assert(spec_wal_image(cs) + partial =~= partial);
    } else {
        let rest = cs.subrange(1, cs.len() as int);
        lemma_truncated_tail_discarded(rest, partial);
        lemma_wal_commands_cons(cs[0], spec_wal_image(rest) + partial);
        assert(spec_wal_image(cs) + partial =~= spec_command_unit(cs[0]) + (spec_wal_image(rest)
            + partial));
        assert(seq![cs[0]] + rest =~= cs);
    }
}

/// Laying a run's queued records end to end gives the file image of
/// the run's mutations.
pub proof fn lemma_records_concat(cs: Seq<CmdModel>)
    ensures
        spec_concat(spec_wal_records_of(cs)) == spec_wal_image(spec_muts(cs)),
    decreases cs.len(),
{
    if cs.len() == 0 {
    } else {
        let rest = cs.subrange(1, cs.len() as int);
        lemma_records_concat(rest);
        if spec_is_mutating(cs[0]) {
            assert(spec_wal_records_of(cs)[0] == spec_command_unit(cs[0]));
            assert(spec_wal_records_of(cs).subrange(1, spec_wal_records_of(cs).len() as int)
                =~= spec_wal_records_of(rest));
            assert(spec_muts(cs)[0] == cs[0]);
            assert(spec_muts(cs).subrange(1, spec_muts(cs).len() as int) =~= spec_muts(rest));
        } else {
            assert(spec_wal_records_of(cs) =~= spec_wal_records_of(rest));
            assert(spec_muts(cs) =~= spec_muts(rest));
        }
    }
}

/// Every mutation of a run is itself one of the run's commands, so
/// it inherits their well-formedness.
proof fn lemma_muts_wf(cs: Seq<CmdModel>)
    requires
        forall|i: int|
            0 <= i < cs.len() ==> crate::proto::cmd_wf(#[trigger] cs[i])
                && crate::proto::spec_encode_command(cs[i]).len() <= u64::MAX,
    ensures
        forall|i: int|
            0 <= i < spec_muts(cs).len() ==> crate::proto::cmd_wf(#[trigger] spec_muts(cs)[i])
                && crate::proto::spec_encode_command(spec_muts(cs)[i]).len() <= u64::MAX,
    decreases cs.len(),
{
    if cs.len() > 0 {
        let rest = cs.subrange(1, cs.len() as int);
        lemma_muts_wf(rest);
        if spec_is_mutating(cs[0]) {
            assert forall|i: int| 0 <= i < spec_muts(cs).len() implies crate::proto::cmd_wf(
                #[trigger] spec_muts(cs)[i],
            ) && crate::proto::spec_encode_command(spec_muts(cs)[i]).len() <= u64::MAX by {
                if i == 0 {
                    assert(spec_muts(cs)[0] == cs[0]);
                } else {
                    assert(spec_muts(cs)[i] == spec_muts(rest)[i - 1]);
                }
            }
        } else {
            assert(spec_muts(cs) =~= spec_muts(rest));
        }
    }
}

/// Run any sequence of commands through a fresh pipeline and let the
/// sink write its queue to disk: replaying that file into a fresh
/// store rebuilds exactly the store the run produced.
pub proof fn lemma_recovery_equivalence(m: ChainModel, cs: Seq<CmdModel>)
    requires
        m.wal_pending == Seq::<Seq<u8>>::empty(),
        m.store == (StoreModel { map: Map::<Seq<u8>, Seq<u8>>::empty(), order: Seq::empty() }),
        forall|i: int|
            0 <= i < cs.len() ==> crate::proto::cmd_wf(#[trigger] cs[i])
                && crate::proto::spec_encode_command(cs[i]).len() <= u64::MAX,
    ensures
        crate::cache::spec_replayed(spec_wal_commands(spec_concat(chain_apply_all(m, cs).wal_pending)))
            == chain_apply_all(m, cs).store,
{
    let empty_store = StoreModel { map: Map::<Seq<u8>, Seq<u8>>::empty(), order: Seq::empty() };
    lemma_wal_log_complete(m, cs);
    assert(chain_apply_all(m, cs).wal_pending =~= spec_wal_records_of(cs));
    lemma_records_concat(cs);
    lemma_muts_wf(cs);
    lemma_wal_image_decodes(spec_muts(cs));
    lemma_muts_apply(empty_store, cs);
    lemma_chain_run_store(m, cs);
}

/// The assembled pipeline: the middlewares in their request-path
/// order around the terminal handler. Trait objects and first-class
/// continuations are beyond the verifier, so the chain owns its
/// stages; the composition and its order are fixed here, as the
/// contract of [`Self::on_request`] states.
pub struct MiddlewareNext {
    pub logger: Logger,
    pub wal: WriteLog,
    pub replicator: Replicator,
    pub cache: Cache,
}

impl View for MiddlewareNext {
    type V = ChainModel;

    open spec fn view(&self) -> ChainModel {
        ChainModel {
            verbose: self.logger.verbose,
            wal_open: self.wal.is_open(),
            repl_open: self.replicator.is_open(),
            wal_pending: self.wal.pending(),
            repl_pending: self.replicator.pending(),
            store: self.cache@,
        }
    }
}

impl MiddlewareNext {
    /// The store's internal consistency, carried through the chain.
    pub open spec fn inv(&self) -> bool {
        self.cache.wf()
    }

    /// Assembles the pipeline around the handler.
    pub fn new(logger: Logger, wal: WriteLog, replicator: Replicator, cache: Cache) -> (c:
        MiddlewareNext)
        ensures
            c.logger == logger,
            c.wal == wal,
            c.replicator == replicator,
            c.cache == cache,
    {
        MiddlewareNext { logger, wal, replicator, cache }
    }

    /// Runs one request through the pipeline: logger, write-ahead-log
    /// tap, replication tap, handler, each exactly once, outer to
    /// inner. `Ok` carries the handler's payload; `Err` names the
    /// sink that could not accept the mutation, and the store is
    /// then untouched.
    pub fn on_request(&mut self, request: &RequestCommand) -> (r: Result<Vec<u8>, ChainError>)
        requires
            old(self).inv(),
        ensures
            final(self).inv(),
            match r {
                Ok(payload) => {
                    &&& chain_admits(old(self)@, request@)
                    &&& final(self)@ == chain_apply(old(self)@, request@)
                    &&& payload@ == spec_payload(old(self)@.store, request@)
                },
                Err(e) => {
                    &&& !chain_admits(old(self)@, request@)
                    &&& final(self)@ == chain_refuse(old(self)@, request@).0
                    &&& e == chain_refuse(old(self)@, request@).1
                },
            },
    {
        match self.logger.on_request(request) {
            Ok(()) => (),
            Err(e) => {
                return Err(e);
            },
        }
        match self.wal.on_request(request) {
            Ok(()) => (),
            Err(e) => {
                return Err(e);
            },
        }
        match self.replicator.on_request(request) {
            Ok(()) => (),
            Err(e) => {
                return Err(e);
            },
        }
        let payload = self.cache.on_request(request);
        Ok(payload)
    }
}

} // verus!
