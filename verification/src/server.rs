//! The reactor's verified core: per-connection framing and request
//! processing, token allocation, and the connection table.
//!
//! The operating-system side of the reactor — the poller, the
//! listening socket, the non-blocking reads and writes — lives
//! outside the library. It hands each connection's freshly read
//! bytes to [`ServerCore::on_readable`] and writes back the bytes it
//! returns; everything between those two edges is verified: partial
//! frames wait in the connection's buffer, complete frames run
//! through the middleware chain in arrival order, and every response
//! preserves the request's version and correlation id.

use vstd::prelude::*;

use crate::cache::middlewares::{
    chain_admits, chain_apply, chain_refuse, spec_sink_error_message, ChainModel, MiddlewareNext,
};
use crate::cache::spec_payload;
use crate::proto::{
    spec_decode_frame, spec_frame_unit, spec_unit_len, CmdModel, DecodeResult, FrameModel,
    RequestCommand, VERSION,
};

verus! {

/// A readiness token: the opaque identifier that associates a
/// poller event with one registered socket.
#[derive(Debug, Clone, Copy, PartialEq, Eq, Structural)]
pub struct Token(pub usize);

/// Allocates the next token: returns the current one and advances
/// the allocator.
pub fn next(current: &mut Token) -> (t: Token)
    requires
        old(current).0 < usize::MAX,
    ensures
        t == *old(current),
        final(current).0 == old(current).0 + 1,
{
    let t = current.0;
    current.0 = current.0 + 1;
    Token(t)
}

/// One accepted connection: its token and the bytes read off its
/// socket that do not yet form a complete frame.
pub struct Connection {
    pub token: Token,
    buffer: Vec<u8>,
}

impl Connection {
    /// The bytes waiting for the rest of their frame.
    pub closed spec fn spec_buffer(&self) -> Seq<u8> {
        self.buffer@
    }

    /// This connection's token.
    pub closed spec fn spec_token(&self) -> Token {
        self.token
    }

    /// A freshly accepted connection: nothing buffered yet.
    pub fn new(token: Token) -> (c: Connection)
        ensures
            c.spec_token() == token,
            c.spec_buffer() == Seq::<u8>::empty(),
    {
        Connection { token, buffer: Vec::new() }
    }
}

/// What draining one connection's buffer leaves behind: the pipeline
/// afterwards, the response bytes to write back, the bytes still
/// waiting for the rest of their frame, and whether the connection
/// is to be closed.
pub struct DrainResult {
    pub chain: ChainModel,
    pub out: Seq<u8>,
    pub leftover: Seq<u8>,
    pub close: bool,
}

/// The response frame to a request frame: same version, same id,
/// the payload wrapped in `Recv`.
pub open spec fn spec_response_frame(f: FrameModel, payload: Seq<u8>) -> FrameModel {
    FrameModel { version: f.version, id: f.id, command: CmdModel::Recv { payload } }
}

/// The error frame a refused request is answered with: same version
/// and id, the error class as an `Error` command.
pub open spec fn spec_refusal_frame(f: FrameModel) -> FrameModel {
    FrameModel {
        version: f.version,
        id: f.id,
        command: CmdModel::Error { message: spec_sink_error_message() },
    }
}

/// How one readiness event processes a connection's buffered bytes,
/// front to back:
/// - an incomplete unit waits for more bytes;
/// - a unit whose body is not a well-formed frame closes the
///   connection with no response;
/// - a frame of a foreign protocol version closes the connection
///   with no response;
/// - a frame the chain refuses is answered with an `Error` response
///   and closes the connection;
/// - every other frame is answered with a `Recv` response carrying
///   the handler's payload, and processing continues behind it.
pub open spec fn spec_drain(m: ChainModel, buf: Seq<u8>) -> DrainResult
    decreases buf.len(),
{
    match spec_unit_len(buf) {
        None => DrainResult { chain: m, out: Seq::empty(), leftover: buf, close: false },
        Some(n) => {
            let body = buf.subrange(8, n);
            let rest = buf.subrange(n, buf.len() as int);
            match spec_decode_frame(body) {
                None => DrainResult { chain: m, out: Seq::empty(), leftover: buf, close: true },
                Some(f) => {
                    if f.version != VERSION {
                        DrainResult { chain: m, out: Seq::empty(), leftover: rest, close: true }
                    } else if chain_admits(m, f.command) {
                        let stepped = chain_apply(m, f.command);
                        let resp = spec_frame_unit(
                            spec_response_frame(f, spec_payload(m.store, f.command)),
                        );
                        let d = spec_drain(stepped, rest);
                        DrainResult {
                            chain: d.chain,
                            out: resp + d.out,
                            leftover: d.leftover,
                            close: d.close,
                        }
                    } else {
                        DrainResult {
                            chain: chain_refuse(m, f.command).0,
                            out: spec_frame_unit(spec_refusal_frame(f)),
                            leftover: rest,
                            close: true,
                        }
                    }
                },
            }
        },
    }
}

/// Handles one readiness event on a connection: appends the freshly
/// read bytes to its buffer, processes every complete frame in
/// arrival order, and returns the response bytes and whether the
/// connection is done. Responses preserve each request's version
/// and id and come back in request order.
pub fn handle_connection_event(conn: &mut Connection, chain: &mut MiddlewareNext, input: &[u8])
    -> (r: (Vec<u8>, bool))
    requires
        old(chain).inv(),
    ensures
        final(chain).inv(),
        final(conn).spec_token() == old(conn).spec_token(),
        ({
            let d = spec_drain(old(chain)@, old(conn).spec_buffer() + input@);
            &&& final(chain)@ == d.chain
            &&& r.0@ == d.out
            &&& final(conn).spec_buffer() == d.leftover
            &&& r.1 == d.close
        }),
{
    conn.buffer.extend_from_slice(input);
    let ghost start_m = chain@;
    let ghost start_buf = conn.buffer@;
    let ghost d = spec_drain(start_m, start_buf);
    let mut out: Vec<u8> = Vec::new();
    proof {
        assert(old(conn).spec_buffer() + input@ =~= start_buf);
    }
    loop
        invariant
            chain.inv(),
            conn.spec_token() == old(conn).spec_token(),
            d == spec_drain(old(chain)@, old(conn).spec_buffer() + input@),
            ({
                let now = spec_drain(chain@, conn.spec_buffer());
                &&& d.chain == now.chain
                &&& d.out == out@ + now.out
                &&& d.leftover == now.leftover
                &&& d.close == now.close
            }),
        decreases conn.spec_buffer().len(),
    {
        let ghost loop_m = chain@;
        let ghost loop_buf = conn.buffer@;
        match crate::proto::decode(&conn.buffer) {
            DecodeResult::NeedMore => {
                proof {
                    assert(d.out =~= out@);
                }
                return (out, false);
            },
            DecodeResult::Malformed => {
                proof {
                    assert(d.out =~= out@);
                }
                return (out, true);
            },
            DecodeResult::Decoded(f, used) => {
                let tail = conn.buffer.split_off(used);
                conn.buffer = tail;
                proof {
                    assert(conn.buffer@ =~= loop_buf.subrange(used as int, loop_buf.len() as int));
                }
                if f.version != VERSION {
                    proof {
                        assert(d.out =~= out@);
                    }
                    return (out, true);
                }
                match chain.on_request(&f.command) {
                    Ok(payload) => {
                        let mut resp = crate::proto::encode_frame_parts(
                            f.version,
                            f.id,
                            &RequestCommand::Recv(payload),
                        );
                        proof {
                            let now = spec_drain(loop_m, loop_buf);
                            assert(resp@ == spec_frame_unit(
                                spec_response_frame(f@, spec_payload(loop_m.store, f@.command)),
                            ));
                            assert(now.out =~= resp@ + spec_drain(chain@, conn.buffer@).out);
                            assert(d.out =~= (out@ + resp@) + spec_drain(chain@, conn.buffer@).out);
                        }
                        out.append(&mut resp);
                    },
                    Err(e) => {
                        let message = e.message();
                        let mut resp = crate::proto::encode_frame_parts(
                            f.version,
                            f.id,
                            &RequestCommand::Error(message),
                        );
                        proof {
                            assert(resp@ == spec_frame_unit(spec_refusal_frame(f@)));
                            assert(d.out =~= out@ + resp@);
                        }
                        out.append(&mut resp);
                        return (out, true);
                    },
                }
            },
        }
    }
}


// ---------------------------------------------------------------------------
// Per-connection ordering.
// ---------------------------------------------------------------------------

/// A sequence of request frames laid end to end on the wire, each a
/// complete length-prefixed unit.
pub open spec fn spec_frames_image(fs: Seq<FrameModel>) -> Seq<u8>
    decreases fs.len(),
{
    if fs.len() == 0 {
        Seq::empty()
    } else {
        spec_frame_unit(fs[0]) + spec_frames_image(fs.subrange(1, fs.len() as int))
    }
}

/// The response stream to a sequence of requests, in request order:
/// the i-th response carries the i-th request's version and id and
/// the payload of its command against the store as the i-1 earlier
/// requests left it.
pub open spec fn spec_fifo_responses(m: ChainModel, fs: Seq<FrameModel>) -> Seq<u8>
    decreases fs.len(),
{
    if fs.len() == 0 {
        Seq::empty()
    } else {
        spec_frame_unit(spec_response_frame(fs[0], spec_payload(m.store, fs[0].command)))
            + spec_fifo_responses(
            chain_apply(m, fs[0].command),
            fs.subrange(1, fs.len() as int),
        )
    }
}

/// A complete on-wire unit in front of further bytes is recognised
/// whole: its body parses to its frame and parsing continues behind
/// it.
proof fn lemma_frame_unit_cons(f: FrameModel, rest: Seq<u8>)
    requires
        crate::proto::frame_wf(f),
    ensures
        spec_unit_len(spec_frame_unit(f) + rest) == Some(spec_frame_unit(f).len() as int),
        (spec_frame_unit(f) + rest).subrange(8, spec_frame_unit(f).len() as int)
            == crate::proto::spec_encode_frame(f),
        spec_decode_frame(
            (spec_frame_unit(f) + rest).subrange(8, spec_frame_unit(f).len() as int),
        ) == Some(f),
        (spec_frame_unit(f) + rest).subrange(
            spec_frame_unit(f).len() as int,
            (spec_frame_unit(f) + rest).len() as int,
        ) == rest,
{
    vstd::bytes::lemma_auto_spec_u64_to_from_le_bytes();
    let body = crate::proto::spec_encode_frame(f);
    let whole = spec_frame_unit(f) + rest;
    let n = 8 + body.len() as int;
    assert(whole.subrange(0, 8) =~= vstd::bytes::spec_u64_to_le_bytes(body.len() as u64));
    assert(vstd::bytes::spec_u64_from_le_bytes(whole.subrange(0, 8)) == body.len());
    assert(whole.subrange(8, n) =~= body);
    crate::proto::lemma_frame_round_trip(f);
    assert(whole.subrange(n, whole.len() as int) =~= rest);
}

/// Per-connection FIFO: a client that sends requests R1 … Rn on one
/// connection, all well-formed and of the current version, against
/// a server whose sinks are open, receives responses S1 … Sn in the
/// same order, where Si answers Ri and carries Ri's id and version;
/// the connection stays open and nothing is left unconsumed.
pub proof fn lemma_per_connection_fifo(m: ChainModel, fs: Seq<FrameModel>)
    requires
        m.wal_open,
        m.repl_open,
        forall|i: int|
            0 <= i < fs.len() ==> crate::proto::frame_wf(#[trigger] fs[i]) && fs[i].version
                == VERSION,
    ensures
        ({
            let d = spec_drain(m, spec_frames_image(fs));
            &&& d.out == spec_fifo_responses(m, fs)
            &&& d.chain == crate::cache::middlewares::chain_apply_all(
                m,
                fs.map_values(|f: FrameModel| f.command),
            )
            &&& d.leftover == Seq::<u8>::empty()
            &&& d.close == false
        }),
    decreases fs.len(),
{
    let d = spec_drain(m, spec_frames_image(fs));
    if fs.len() == 0 {
        assert(spec_unit_len(spec_frames_image(fs)) is None);
        assert(fs.map_values(|f: FrameModel| f.command) =~= Seq::<CmdModel>::empty());
    } else {
        let rest = fs.subrange(1, fs.len() as int);
        lemma_frame_unit_cons(fs[0], spec_frames_image(rest));
        let stepped = chain_apply(m, fs[0].command);
        lemma_per_connection_fifo(stepped, rest);
        assert(fs.map_values(|f: FrameModel| f.command).subrange(
            1,
            fs.map_values(|f: FrameModel| f.command).len() as int,
        ) =~= rest.map_values(|f: FrameModel| f.command));
        assert(fs.map_values(|f: FrameModel| f.command)[0] == fs[0].command);
    }
}

// ---------------------------------------------------------------------------
// The connection table.
// ---------------------------------------------------------------------------

/// Whether some connection in the table carries this token.
pub open spec fn has_token(s: Seq<Connection>, t: Token) -> bool {
    exists|i: int| 0 <= i < s.len() && s[i].spec_token() == t
}

/// The position of the connection carrying this token, unique under
/// [`tokens_distinct`].
pub open spec fn token_index(s: Seq<Connection>, t: Token) -> int {
    choose|i: int| 0 <= i < s.len() && s[i].spec_token() == t
}

/// The buffered bytes of the connection carrying this token.
pub open spec fn buffer_of(s: Seq<Connection>, t: Token) -> Seq<u8> {
    s[token_index(s, t)].spec_buffer()
}

/// Tokens in the table are pairwise distinct.
pub open spec fn tokens_distinct(s: Seq<Connection>) -> bool {
    forall|i: int, j: int|
        0 <= i < j < s.len() ==> s[i].spec_token() != s[j].spec_token()
}

/// Removing the connection at `idx` removes exactly its token: every
/// other token keeps its buffer, and distinctness survives.
proof fn lemma_table_remove(pre: Seq<Connection>, idx: int)
    requires
        tokens_distinct(pre),
        0 <= idx < pre.len(),
    ensures
        tokens_distinct(pre.remove(idx)),
        !has_token(pre.remove(idx), pre[idx].spec_token()),
        forall|u: Token|
            u != pre[idx].spec_token() ==> #[trigger] has_token(pre.remove(idx), u) == has_token(
                pre,
                u,
            ),
        forall|u: Token|
            u != pre[idx].spec_token() && has_token(pre, u) ==> #[trigger] buffer_of(
                pre.remove(idx),
                u,
            ) == buffer_of(pre, u),
{
    let t = pre[idx].spec_token();
    let post = pre.remove(idx);
    assert forall|a: int, b: int| 0 <= a < b < post.len() implies post[a].spec_token()
        != post[b].spec_token() by {
        let pa = if a < idx { a } else { a + 1 };
        let pb = if b < idx { b } else { b + 1 };
        assert(post[a] == pre[pa]);
        assert(post[b] == pre[pb]);
    }
    assert(!has_token(post, t)) by {
        if has_token(post, t) {
            let i = token_index(post, t);
            let p = if i < idx { i } else { i + 1 };
            assert(post[i] == pre[p]);
            assert(p != idx);
            assert(false);
        }
    }
    assert forall|u: Token| u != t implies #[trigger] has_token(post, u) == has_token(pre, u) by {
        if has_token(post, u) {
            let i = token_index(post, u);
            let p = if i < idx { i } else { i + 1 };
            assert(post[i] == pre[p]);
            assert(pre[p].spec_token() == u);
        }
        if has_token(pre, u) {
            let i = token_index(pre, u);
            assert(pre[i].spec_token() == u);
            assert(i != idx);
            if i < idx {
                assert(post[i] == pre[i]);
            } else {
                assert(post[i - 1] == pre[i]);
            }
        }
    }
    assert forall|u: Token| u != t && has_token(pre, u) implies #[trigger] buffer_of(post, u)
        == buffer_of(pre, u) by {
        assert(has_token(post, u));
        let i = token_index(post, u);
        assert(0 <= i < post.len() && post[i].spec_token() == u);
        let p = if i < idx { i } else { i + 1 };
        assert(post[i] == pre[p]);
        let j = token_index(pre, u);
        assert(0 <= j < pre.len() && pre[j].spec_token() == u);
        if j != p {
            assert(false);
        }
    }
}

/// Appending a connection with a fresh token leaves every other
/// token's buffer alone, and distinctness survives.
proof fn lemma_table_push(s: Seq<Connection>, c: Connection)
    requires
        tokens_distinct(s),
        !has_token(s, c.spec_token()),
    ensures
        tokens_distinct(s.push(c)),
        has_token(s.push(c), c.spec_token()),
        buffer_of(s.push(c), c.spec_token()) == c.spec_buffer(),
        forall|u: Token|
            u != c.spec_token() ==> #[trigger] has_token(s.push(c), u) == has_token(s, u),
        forall|u: Token|
            u != c.spec_token() && has_token(s, u) ==> #[trigger] buffer_of(s.push(c), u)
                == buffer_of(s, u),
{
    let t = c.spec_token();
    let post = s.push(c);
    assert(post[s.len() as int] == c);
    assert forall|a: int, b: int| 0 <= a < b < post.len() implies post[a].spec_token()
        != post[b].spec_token() by {
        if b < s.len() as int {
            assert(post[a] == s[a]);
            assert(post[b] == s[b]);
        } else {
            assert(post[a] == s[a]);
            assert(post[b] == c);
        }
    }
    assert(buffer_of(post, t) == c.spec_buffer()) by {
        let i = token_index(post, t);
        assert(0 <= i < post.len() && post[i].spec_token() == t);
        if i != s.len() as int {
            assert(post[i] == s[i]);
            assert(false);
        }
    }
    assert forall|u: Token| u != t implies #[trigger] has_token(post, u) == has_token(s, u) by {
        if has_token(post, u) {
            let i = token_index(post, u);
            assert(i < s.len() as int);
            assert(post[i] == s[i]);
        }
        if has_token(s, u) {
            let i = token_index(s, u);
            assert(post[i] == s[i]);
        }
    }
    assert forall|u: Token| u != t && has_token(s, u) implies #[trigger] buffer_of(post, u)
        == buffer_of(s, u) by {
        assert(has_token(post, u));
        let i = token_index(post, u);
        assert(0 <= i < post.len() && post[i].spec_token() == u);
        assert(i < s.len() as int);
        assert(post[i] == s[i]);
        let j = token_index(s, u);
        if j != i {
            assert(false);
        }
    }
}

/// The server's verified state: the middleware pipeline around the
/// store, the table of live connections, and the token allocator.
/// The listener itself holds the distinguished first token; every
/// accepted connection gets a fresh one after it.
pub struct ServerCore {
    pub chain: MiddlewareNext,
    connections: Vec<Connection>,
    next_token: Token,
}

impl ServerCore {
    /// Tokens in the table are pairwise distinct and below the
    /// allocator, so a fresh token can never collide.
    pub closed spec fn conns_ok(&self) -> bool {
        &&& tokens_distinct(self.connections@)
        &&& forall|i: int|
            0 <= i < self.connections@.len() ==> (#[trigger] self.connections@[i].spec_token()).0
                < self.next_token.0
    }

    /// The server's invariant: the store is consistent and the
    /// connection table is sound.
    pub closed spec fn inv(&self) -> bool {
        self.chain.inv() && self.conns_ok()
    }

    /// The observable state of the pipeline inside this server.
    pub closed spec fn chain_model(&self) -> ChainModel {
        self.chain@
    }

    /// Whether a connection with this token is live.
    pub closed spec fn has_conn(&self, t: Token) -> bool {
        has_token(self.connections@, t)
    }

    /// The buffered bytes of the live connection with this token.
    pub closed spec fn conn_buffer(&self, t: Token) -> Seq<u8> {
        buffer_of(self.connections@, t)
    }

    /// The token the next accepted connection will get.
    pub closed spec fn spec_next_token(&self) -> Token {
        self.next_token
    }

    /// A fresh server around its pipeline: no connections; client
    /// tokens start just past the listener's.
    pub fn new(chain: MiddlewareNext, listener: Token) -> (s: ServerCore)
        requires
            listener.0 < usize::MAX,
        ensures
            s.inv() == chain.inv(),
            s.chain_model() == chain@,
            s.spec_next_token().0 == listener.0 + 1,
            forall|t: Token| !s.has_conn(t),
    {
        ServerCore { chain, connections: Vec::new(), next_token: Token(listener.0 + 1) }
    }

    /// Admits one accepted connection: allocates a fresh token,
    /// registers an empty connection under it, and returns it. The
    /// fresh token collides with no live one.
    pub fn accept_connection(&mut self) -> (t: Token)
        requires
            old(self).inv(),
            old(self).spec_next_token().0 < usize::MAX,
        ensures
            final(self).inv(),
            final(self).chain_model() == old(self).chain_model(),
            t == old(self).spec_next_token(),
            !old(self).has_conn(t),
            final(self).has_conn(t),
            final(self).conn_buffer(t) == Seq::<u8>::empty(),
            final(self).spec_next_token().0 == t.0 + 1,
            forall|u: Token| u != t ==> final(self).has_conn(u) == old(self).has_conn(u),
            forall|u: Token|
                u != t && old(self).has_conn(u) ==> final(self).conn_buffer(u) == old(
                    self,
                ).conn_buffer(u),
    {
        let ghost pre = self.connections@;
        let t = next(&mut self.next_token);
        let conn = Connection::new(t);
        proof {
            assert(!has_token(pre, t)) by {
                if has_token(pre, t) {
                    let i = token_index(pre, t);
                    assert(pre[i].spec_token() == t);
                }
            }
            lemma_table_push(pre, conn);
        }
        self.connections.push(conn);
        t
    }

    /// The position of the live connection with this token in the
    /// table, if any.
    fn find_conn(&self, token: Token) -> (r: Option<usize>)
        requires
            self.conns_ok(),
        ensures
            match r {
                Some(i) => {
                    &&& 0 <= i < self.connections@.len()
                    &&& self.connections@[i as int].spec_token() == token
                    &&& self.has_conn(token)
                },
                None => !self.has_conn(token),
            },
    {
        let n = self.connections.len();
        let mut i: usize = 0;
        while i < n
            invariant
                n == self.connections@.len(),
                0 <= i <= n,
                self.conns_ok(),
                forall|j: int| 0 <= j < i ==> self.connections@[j].spec_token() != token,
            decreases n - i,
        {
            if self.connections[i].token.0 == token.0 {
                proof {
                    assert(self.connections@[i as int].spec_token() == token);
                }
                return Some(i);
            }
            i = i + 1;
        }
        None
    }

    /// Handles a readiness event for this token: drains the
    /// connection's buffer through the pipeline and returns the
    /// response bytes and whether the connection was closed and
    /// dropped from the table. An event for a token with no live
    /// connection is sporadic and is ignored. Other connections are
    /// never touched.
    pub fn on_readable(&mut self, token: Token, input: &[u8]) -> (r: (Vec<u8>, bool))
        requires
            old(self).inv(),
        ensures
            final(self).inv(),
            final(self).spec_next_token() == old(self).spec_next_token(),
            forall|u: Token| u != token ==> final(self).has_conn(u) == old(self).has_conn(u),
            forall|u: Token|
                u != token && old(self).has_conn(u) ==> final(self).conn_buffer(u) == old(
                    self,
                ).conn_buffer(u),
            if old(self).has_conn(token) {
                let d = spec_drain(
                    old(self).chain_model(),
                    old(self).conn_buffer(token) + input@,
                );
                &&& final(self).chain_model() == d.chain
                &&& r.0@ == d.out
                &&& r.1 == d.close
                &&& final(self).has_conn(token) == !d.close
                &&& !d.close ==> final(self).conn_buffer(token) == d.leftover
            } else {
                &&& *final(self) == *old(self)
                &&& r.0@ == Seq::<u8>::empty()
                &&& r.1 == false
            },
    {
        let idx = match self.find_conn(token) {
            Some(i) => i,
            None => {
                return (Vec::new(), false);
            },
        };
        let ghost pre = self.connections@;
        proof {
            assert(token_index(pre, token) == idx as int) by {
                let w = token_index(pre, token);
                assert(0 <= w < pre.len() && pre[w].spec_token() == token);
                if w != idx as int {
                    assert(false);
                }
            }
            lemma_table_remove(pre, idx as int);
        }
        let mut conn = self.connections.remove(idx);
        let (out, close) = handle_connection_event(&mut conn, &mut self.chain, input);
        if close {
            (out, true)
        } else {
            proof {
                lemma_table_push(self.connections@, conn);
            }
            self.connections.push(conn);
            (out, false)
        }
    }

    /// Drops the connection with this token from the table: the
    /// peer closed its end or a write on it failed. Dropping an
    /// unknown token changes nothing.
    pub fn remove_connection(&mut self, token: Token)
        requires
            old(self).inv(),
        ensures
            final(self).inv(),
            final(self).chain_model() == old(self).chain_model(),
            final(self).spec_next_token() == old(self).spec_next_token(),
            !final(self).has_conn(token),
            forall|u: Token| u != token ==> final(self).has_conn(u) == old(self).has_conn(u),
            forall|u: Token|
                u != token && old(self).has_conn(u) ==> final(self).conn_buffer(u) == old(
                    self,
                ).conn_buffer(u),
    {
        let idx = match self.find_conn(token) {
            Some(i) => i,
            None => {
                return ;
            },
        };
        let ghost pre = self.connections@;
        proof {
            lemma_table_remove(pre, idx as int);
            assert(token_index(pre, token) == idx as int) by {
                let w = token_index(pre, token);
                assert(0 <= w < pre.len() && pre[w].spec_token() == token);
                if w != idx as int {
                    assert(false);
                }
            }
        }
        let _ = self.connections.remove(idx);
    }
}

} // verus!
