//! The wire protocol: a tagged command, a frame envelope around it,
//! and the length-prefixed binary encoding both peers speak.
//!
//! Every on-wire unit is an 8-byte little-endian length followed by a
//! frame body. A body is the version byte, the 8-byte little-endian
//! correlation id, a 4-byte little-endian command tag, and the
//! command's fields; variable-length fields carry their own 8-byte
//! little-endian length. The write-ahead log stores bare commands in
//! the same shape, without the frame envelope.

use vstd::prelude::*;
use vstd::bytes::*;
use vstd::slice::{slice_index_get, slice_subrange, slice_to_vec};

verus! {

/// The protocol version this peer emits and accepts.
pub const VERSION: u8 = 1;

/// Mathematical model of a command: the same variants over `Seq<u8>`.
pub enum CmdModel {
    Empty,
    Get { key: Seq<u8> },
    Put { key: Seq<u8>, value: Seq<u8> },
    Delete { key: Seq<u8> },
    Keys { take: u64, skip: u64 },
    Error { message: Seq<u8> },
    Recv { payload: Seq<u8> },
}

/// A request or response operation. Keys and values are opaque byte
/// strings; `Keys` pages over the key set; `Error` and `Recv` flow
/// from server to client only.
///
/// `Put` is the protocol's SET operation; the natural variant name
/// collides with `vstd::prelude::Set`, so the variant is called `Put`.
#[derive(Debug, Clone, PartialEq)]
pub enum RequestCommand {
    Empty,
    Get(Vec<u8>),
    Put(Vec<u8>, Vec<u8>),
    Delete(Vec<u8>),
    Keys(usize, usize),
    Error(Vec<u8>),
    Recv(Vec<u8>),
}

impl View for RequestCommand {
    type V = CmdModel;

    open spec fn view(&self) -> CmdModel {
        match self {
            RequestCommand::Empty => CmdModel::Empty,
            RequestCommand::Get(key) => CmdModel::Get { key: key@ },
            RequestCommand::Put(key, value) => CmdModel::Put { key: key@, value: value@ },
            RequestCommand::Delete(key) => CmdModel::Delete { key: key@ },
            RequestCommand::Keys(take, skip) => CmdModel::Keys {
                take: *take as u64,
                skip: *skip as u64,
            },
            RequestCommand::Error(message) => CmdModel::Error { message: message@ },
            RequestCommand::Recv(payload) => CmdModel::Recv { payload: payload@ },
        }
    }
}

impl Default for RequestCommand {
    /// The default command is the no-op.
    fn default() -> (r: Self)
        ensures
            r@ == CmdModel::Empty,
    {
        RequestCommand::Empty
    }
}

/// A command is mutating iff it is `Put` or `Delete`; only those flow
/// to the write-ahead log and to replication.
pub open spec fn spec_is_mutating(c: CmdModel) -> bool {
    c is Put || c is Delete
}

/// Executable test for [`spec_is_mutating`].
pub fn is_mutating(c: &RequestCommand) -> (r: bool)
    ensures
        r == spec_is_mutating(c@),
{
    match c {
        RequestCommand::Put(_, _) => true,
        RequestCommand::Delete(_) => true,
        _ => false,
    }
}

/// Mathematical model of a frame.
pub struct FrameModel {
    pub version: u8,
    pub id: u64,
    pub command: CmdModel,
}

/// The protocol envelope: a version byte, a correlation id chosen by
/// the sender and echoed on the response, and the command.
#[derive(Debug, Clone, PartialEq)]
pub struct Frame {
    pub version: u8,
    pub id: u64,
    pub command: RequestCommand,
}

impl View for Frame {
    type V = FrameModel;

    open spec fn view(&self) -> FrameModel {
        FrameModel { version: self.version, id: self.id, command: self.command@ }
    }
}

impl Frame {
    /// Wraps a command in a fresh request envelope: current version,
    /// fixed correlation id 1.
    pub fn new(command: RequestCommand) -> (f: Frame)
        ensures
            f@ == (FrameModel { version: VERSION, id: 1u64, command: command@ }),
    {
        Frame { version: VERSION, id: 1, command }
    }

    /// Builds the response envelope to this frame: the request's
    /// version and id are preserved, only the command is replaced.
    pub fn to_response(&self, command: RequestCommand) -> (f: Frame)
        ensures
            f@ == (FrameModel { version: self@.version, id: self@.id, command: command@ }),
    {
        Frame { version: self.version, id: self.id, command }
    }
}

// ---------------------------------------------------------------------------
// Encoding, at the specification level.
// ---------------------------------------------------------------------------

/// A variable-length field: 8-byte little-endian length, then the bytes.
pub open spec fn spec_len_field(b: Seq<u8>) -> Seq<u8> {
    spec_u64_to_le_bytes(b.len() as u64) + b
}

/// Command tags, 4-byte little-endian, in declaration order of the variants.
pub open spec fn spec_tag(c: CmdModel) -> u32 {
    match c {
        CmdModel::Empty => 0u32,
        CmdModel::Get { .. } => 1u32,
        CmdModel::Put { .. } => 2u32,
        CmdModel::Delete { .. } => 3u32,
        CmdModel::Keys { .. } => 4u32,
        CmdModel::Error { .. } => 5u32,
        CmdModel::Recv { .. } => 6u32,
    }
}

/// The serialized form of a command: tag, then its fields.
pub open spec fn spec_encode_command(c: CmdModel) -> Seq<u8> {
    spec_u32_to_le_bytes(spec_tag(c)) + match c {
        CmdModel::Empty => Seq::<u8>::empty(),
        CmdModel::Get { key } => spec_len_field(key),
        CmdModel::Put { key, value } => spec_len_field(key) + spec_len_field(value),
        CmdModel::Delete { key } => spec_len_field(key),
        CmdModel::Keys { take, skip } => spec_u64_to_le_bytes(take) + spec_u64_to_le_bytes(skip),
        CmdModel::Error { message } => spec_len_field(message),
        CmdModel::Recv { payload } => spec_len_field(payload),
    }
}

/// The serialized form of a frame body: version, id, command.
pub open spec fn spec_encode_frame(f: FrameModel) -> Seq<u8> {
    seq![f.version] + spec_u64_to_le_bytes(f.id) + spec_encode_command(f.command)
}

/// A complete on-wire unit: the frame body behind its length prefix.
pub open spec fn spec_frame_unit(f: FrameModel) -> Seq<u8> {
    spec_len_field(spec_encode_frame(f))
}

/// A complete write-ahead-log record: a bare command behind its
/// length prefix.
pub open spec fn spec_command_unit(c: CmdModel) -> Seq<u8> {
    spec_len_field(spec_encode_command(c))
}

/// Every variable-length field of the command fits its 8-byte length
/// prefix. True of every command built from executable values.
pub open spec fn cmd_wf(c: CmdModel) -> bool {
    match c {
        CmdModel::Empty => true,
        CmdModel::Get { key } => key.len() <= u64::MAX,
        CmdModel::Put { key, value } => key.len() <= u64::MAX && value.len() <= u64::MAX,
        CmdModel::Delete { key } => key.len() <= u64::MAX,
        CmdModel::Keys { take, skip } => take <= usize::MAX as u64 && skip <= usize::MAX as u64,
        CmdModel::Error { message } => message.len() <= u64::MAX,
        CmdModel::Recv { payload } => payload.len() <= u64::MAX,
    }
}

/// The command fits, and so does the whole frame body behind the
/// outer length prefix.
pub open spec fn frame_wf(f: FrameModel) -> bool {
    cmd_wf(f.command) && spec_encode_frame(f).len() <= u64::MAX
}

// ---------------------------------------------------------------------------
// Encoding, executable.
// ---------------------------------------------------------------------------

/// Appends a length-prefixed field to `out`.
fn push_len_field(out: &mut Vec<u8>, b: &Vec<u8>)
    ensures
        final(out)@ == old(out)@ + spec_len_field(b@),
{
    let mut len_bytes = u64_to_le_bytes(b.len() as u64);
    out.append(&mut len_bytes);
    out.extend_from_slice(b.as_slice());
}

/// Appends the 4-byte little-endian tag to `out`.
fn push_tag(out: &mut Vec<u8>, tag: u32)
    ensures
        final(out)@ == old(out)@ + spec_u32_to_le_bytes(tag),
{
    let mut tag_bytes = u32_to_le_bytes(tag);
    out.append(&mut tag_bytes);
}

/// Serializes a bare command: its tag, then its fields.
pub fn encode_command(c: &RequestCommand) -> (out: Vec<u8>)
    ensures
        out@ == spec_encode_command(c@),
{
    let mut out: Vec<u8> = Vec::new();
    match c {
        RequestCommand::Empty => {
            push_tag(&mut out, 0);
        },
        RequestCommand::Get(key) => {
            push_tag(&mut out, 1);
            push_len_field(&mut out, key);
        },
        RequestCommand::Put(key, value) => {
            push_tag(&mut out, 2);
            push_len_field(&mut out, key);
            push_len_field(&mut out, value);
        },
        RequestCommand::Delete(key) => {
            push_tag(&mut out, 3);
            push_len_field(&mut out, key);
        },
        RequestCommand::Keys(take, skip) => {
            push_tag(&mut out, 4);
            let mut take_bytes = u64_to_le_bytes(*take as u64);
            out.append(&mut take_bytes);
            let mut skip_bytes = u64_to_le_bytes(*skip as u64);
            out.append(&mut skip_bytes);
        },
        RequestCommand::Error(message) => {
            push_tag(&mut out, 5);
            push_len_field(&mut out, message);
        },
        RequestCommand::Recv(payload) => {
            push_tag(&mut out, 6);
            push_len_field(&mut out, payload);
        },
    }
    assert(out@ =~= spec_encode_command(c@));
    out
}

/// Serializes a frame body: version, id, command.
pub fn serialize(f: &Frame) -> (out: Vec<u8>)
    ensures
        out@ == spec_encode_frame(f@),
{
    let mut out: Vec<u8> = Vec::new();
    out.push(f.version);
    let mut id_bytes = u64_to_le_bytes(f.id);
    out.append(&mut id_bytes);
    let mut cmd_bytes = encode_command(&f.command);
    out.append(&mut cmd_bytes);
    assert(out@ =~= spec_encode_frame(f@));
    out
}

/// Encodes a frame into a complete on-wire unit: length prefix, then
/// the body, in one buffer, so a single write never leaves a length
/// without its body on the wire.
pub fn encode_vec(f: &Frame) -> (out: Vec<u8>)
    ensures
        out@ == spec_frame_unit(f@),
{
    let mut body = serialize(f);
    let mut out = u64_to_le_bytes(body.len() as u64);
    out.append(&mut body);
    out
}

/// Encodes a frame given by its parts into a complete on-wire unit,
/// without taking ownership of the command.
pub fn encode_frame_parts(version: u8, id: u64, c: &RequestCommand) -> (out: Vec<u8>)
    ensures
        out@ == spec_frame_unit(FrameModel { version, id, command: c@ }),
{
    let mut body: Vec<u8> = Vec::new();
    body.push(version);
    let mut id_bytes = u64_to_le_bytes(id);
    body.append(&mut id_bytes);
    let mut cmd_bytes = encode_command(c);
    body.append(&mut cmd_bytes);
    assert(body@ =~= spec_encode_frame(FrameModel { version, id, command: c@ }));
    let mut out = u64_to_le_bytes(body.len() as u64);
    out.append(&mut body);
    out
}

/// Encodes a bare command into a complete write-ahead-log record:
/// length prefix, then the serialized command.
pub fn encode_command_vec(c: &RequestCommand) -> (out: Vec<u8>)
    ensures
        out@ == spec_command_unit(c@),
{
    let mut body = encode_command(c);
    let mut out = u64_to_le_bytes(body.len() as u64);
    out.append(&mut body);
    out
}

// ---------------------------------------------------------------------------
// Decoding, at the specification level.
// ---------------------------------------------------------------------------

/// Reads one length-prefixed field off the front of `b`: the field
/// and what follows it, or `None` if `b` is too short.
pub open spec fn spec_decode_field(b: Seq<u8>) -> Option<(Seq<u8>, Seq<u8>)> {
    if b.len() < 8 {
        None
    } else {
        let n = spec_u64_from_le_bytes(b.subrange(0, 8)) as int;
        if b.len() - 8 < n {
            None
        } else {
            Some((b.subrange(8, 8 + n), b.subrange(8 + n, b.len() as int)))
        }
    }
}

/// Parses a serialized command. The parse fails on a short buffer, an
/// unknown tag, a field that overruns the buffer, trailing bytes, or
/// a `Keys` count beyond the machine word.
pub open spec fn spec_decode_command(b: Seq<u8>) -> Option<CmdModel> {
    if b.len() < 4 {
        None
    } else {
        let tag = spec_u32_from_le_bytes(b.subrange(0, 4));
        let rest = b.subrange(4, b.len() as int);
        if tag == 0 {
            if rest.len() == 0 {
                Some(CmdModel::Empty)
            } else {
                None
            }
        } else if tag == 1 {
            match spec_decode_field(rest) {
                Some(p) => if p.1.len() == 0 {
                    Some(CmdModel::Get { key: p.0 })
                } else {
                    None
                },
                None => None,
            }
        } else if tag == 2 {
            match spec_decode_field(rest) {
                Some(p) => match spec_decode_field(p.1) {
                    Some(q) => if q.1.len() == 0 {
                        Some(CmdModel::Put { key: p.0, value: q.0 })
                    } else {
                        None
                    },
                    None => None,
                },
                None => None,
            }
        } else if tag == 3 {
            match spec_decode_field(rest) {
                Some(p) => if p.1.len() == 0 {
                    Some(CmdModel::Delete { key: p.0 })
                } else {
                    None
                },
                None => None,
            }
        } else if tag == 4 {
            if rest.len() == 16 {
                let take = spec_u64_from_le_bytes(rest.subrange(0, 8));
                let skip = spec_u64_from_le_bytes(rest.subrange(8, 16));
                if take <= usize::MAX as u64 && skip <= usize::MAX as u64 {
                    Some(CmdModel::Keys { take, skip })
                } else {
                    None
                }
            } else {
                None
            }
        } else if tag == 5 {
            match spec_decode_field(rest) {
                Some(p) => if p.1.len() == 0 {
                    Some(CmdModel::Error { message: p.0 })
                } else {
                    None
                },
                None => None,
            }
        } else if tag == 6 {
            match spec_decode_field(rest) {
                Some(p) => if p.1.len() == 0 {
                    Some(CmdModel::Recv { payload: p.0 })
                } else {
                    None
                },
                None => None,
            }
        } else {
            None
        }
    }
}

/// Parses a serialized frame body: version, id, command.
pub open spec fn spec_decode_frame(b: Seq<u8>) -> Option<FrameModel> {
    if b.len() < 9 {
        None
    } else {
        let version = b[0];
        let id = spec_u64_from_le_bytes(b.subrange(1, 9));
        match spec_decode_command(b.subrange(9, b.len() as int)) {
            Some(c) => Some(FrameModel { version, id, command: c }),
            None => None,
        }
    }
}

/// The total size of the first complete on-wire unit in `b` (its
/// 8-byte length prefix plus the prefixed length), or `None` while
/// the unit is still incomplete.
pub open spec fn spec_unit_len(b: Seq<u8>) -> Option<int> {
    if b.len() < 8 {
        None
    } else {
        let n = spec_u64_from_le_bytes(b.subrange(0, 8)) as int;
        if b.len() - 8 < n {
            None
        } else {
            Some(8 + n)
        }
    }
}

// ---------------------------------------------------------------------------
// Decoding, executable.
// ---------------------------------------------------------------------------

/// Reads one length-prefixed field of `body` starting at `pos`;
/// returns the field and the position just past it.
fn parse_field(body: &[u8], pos: usize) -> (r: Option<(Vec<u8>, usize)>)
    requires
        pos <= body@.len(),
    ensures
        match r {
            Some(p) => {
                &&& pos <= p.1 <= body@.len()
                &&& spec_decode_field(body@.subrange(pos as int, body@.len() as int))
                    == Some((p.0@, body@.subrange(p.1 as int, body@.len() as int)))
            },
            None => spec_decode_field(body@.subrange(pos as int, body@.len() as int)) is None,
        },
{
    let total = body.len();
    let ghost b = body@.subrange(pos as int, body@.len() as int);
    if total - pos < 8 {
        return None;
    }
    let len_slice = slice_subrange(body, pos, pos + 8);
    assert(len_slice@ =~= b.subrange(0, 8));
    let n64 = u64_from_le_bytes(len_slice);
    let rem = total - pos - 8;
    if n64 > rem as u64 {
        return None;
    }
    let n = n64 as usize;
    let data = slice_to_vec(slice_subrange(body, pos + 8, pos + 8 + n));
    assert(data@ =~= b.subrange(8, 8 + n64 as int));
    assert(body@.subrange((pos + 8 + n) as int, body@.len() as int)
        =~= b.subrange(8 + n64 as int, b.len() as int));
    Some((data, pos + 8 + n))
}

/// Parses the serialized command that fills `body` from `pos` to its
/// end.
fn parse_command(body: &[u8], pos: usize) -> (r: Option<RequestCommand>)
    requires
        pos <= body@.len(),
    ensures
        match r {
            Some(c) => spec_decode_command(body@.subrange(pos as int, body@.len() as int))
                == Some(c@),
            None => spec_decode_command(body@.subrange(pos as int, body@.len() as int)) is None,
        },
{
    let total = body.len();
    let ghost b = body@.subrange(pos as int, body@.len() as int);
    if total - pos < 4 {
        return None;
    }
    let tag_slice = slice_subrange(body, pos, pos + 4);
    assert(tag_slice@ =~= b.subrange(0, 4));
    let tag = u32_from_le_bytes(tag_slice);
    let ghost rest = b.subrange(4, b.len() as int);
    assert(rest =~= body@.subrange((pos + 4) as int, body@.len() as int));
    if tag == 0 {
        if total - pos == 4 {
            Some(RequestCommand::Empty)
        } else {
            None
        }
    } else if tag == 1 {
        match parse_field(body, pos + 4) {
            Some(p) => {
                if p.1 == total {
                    Some(RequestCommand::Get(p.0))
                } else {
                    None
                }
            },
            None => None,
        }
    } else if tag == 2 {
        match parse_field(body, pos + 4) {
            Some(p) => {
                match parse_field(body, p.1) {
                    Some(q) => {
                        if q.1 == total {
                            Some(RequestCommand::Put(p.0, q.0))
                        } else {
                            None
                        }
                    },
                    None => None,
                }
            },
            None => None,
        }
    } else if tag == 3 {
        match parse_field(body, pos + 4) {
            Some(p) => {
                if p.1 == total {
                    Some(RequestCommand::Delete(p.0))
                } else {
                    None
                }
            },
            None => None,
        }
    } else if tag == 4 {
        if total - pos != 20 {
            return None;
        }
        let take_slice = slice_subrange(body, pos + 4, pos + 12);
        assert(take_slice@ =~= rest.subrange(0, 8));
        let take64 = u64_from_le_bytes(take_slice);
        let skip_slice = slice_subrange(body, pos + 12, pos + 20);
        assert(skip_slice@ =~= rest.subrange(8, 16));
        let skip64 = u64_from_le_bytes(skip_slice);
        if take64 <= usize::MAX as u64 && skip64 <= usize::MAX as u64 {
            Some(RequestCommand::Keys(take64 as usize, skip64 as usize))
        } else {
            None
        }
    } else if tag == 5 {
        match parse_field(body, pos + 4) {
            Some(p) => {
                if p.1 == total {
                    Some(RequestCommand::Error(p.0))
                } else {
                    None
                }
            },
            None => None,
        }
    } else if tag == 6 {
        match parse_field(body, pos + 4) {
            Some(p) => {
                if p.1 == total {
                    Some(RequestCommand::Recv(p.0))
                } else {
                    None
                }
            },
            None => None,
        }
    } else {
        None
    }
}

/// Parses a complete serialized command, as stored in a
/// write-ahead-log record.
pub fn deserialize_command(body: &[u8]) -> (r: Option<RequestCommand>)
    ensures
        match r {
            Some(c) => spec_decode_command(body@) == Some(c@),
            None => spec_decode_command(body@) is None,
        },
{
    let ghost whole = body@.subrange(0, body@.len() as int);
    assert(whole =~= body@);
    parse_command(body, 0)
}

/// Parses a complete serialized frame body, the payload of one
/// on-wire unit.
pub fn deserialize(body: &[u8]) -> (r: Option<Frame>)
    ensures
        match r {
            Some(f) => spec_decode_frame(body@) == Some(f@),
            None => spec_decode_frame(body@) is None,
        },
{
    if body.len() < 9 {
        return None;
    }
    let version = *slice_index_get(body, 0);
    let id_slice = slice_subrange(body, 1, 9);
    assert(id_slice@ =~= body@.subrange(1, 9));
    let id = u64_from_le_bytes(id_slice);
    match parse_command(body, 9) {
        Some(command) => Some(Frame { version, id, command }),
        None => None,
    }
}

/// The outcome of one attempt to take a frame off the front of a
/// connection's read buffer.
pub enum DecodeResult {
    /// The buffer does not yet hold a complete length-prefixed unit.
    NeedMore,
    /// A complete unit is present but its body is not a well-formed
    /// frame.
    Malformed,
    /// A frame, and how many buffer bytes its unit occupied.
    Decoded(Frame, usize),
}

/// Takes the first complete on-wire unit off the front of `buf` and
/// parses it. Consumes nothing by itself: the caller drops the
/// reported number of bytes.
pub fn decode(buf: &Vec<u8>) -> (r: DecodeResult)
    ensures
        match r {
            DecodeResult::NeedMore => spec_unit_len(buf@) is None,
            DecodeResult::Malformed => {
                &&& spec_unit_len(buf@) is Some
                &&& spec_decode_frame(buf@.subrange(8, spec_unit_len(buf@)->Some_0)) is None
            },
            DecodeResult::Decoded(f, used) => {
                &&& spec_unit_len(buf@) == Some(used as int)
                &&& 8 <= used <= buf@.len()
                &&& spec_decode_frame(buf@.subrange(8, used as int)) == Some(f@)
            },
        },
{
    let total = buf.len();
    if total < 8 {
        return DecodeResult::NeedMore;
    }
    let len_slice = slice_subrange(buf.as_slice(), 0, 8);
    assert(len_slice@ =~= buf@.subrange(0, 8));
    let n64 = u64_from_le_bytes(len_slice);
    if n64 > (total - 8) as u64 {
        return DecodeResult::NeedMore;
    }
    let n = n64 as usize;
    let body = slice_subrange(buf.as_slice(), 8, 8 + n);
    assert(body@ =~= buf@.subrange(8, 8 + n64 as int));
    match deserialize(body) {
        Some(f) => DecodeResult::Decoded(f, 8 + n),
        None => DecodeResult::Malformed,
    }
}

// ---------------------------------------------------------------------------
// Round trips.
// ---------------------------------------------------------------------------

/// Decoding undoes encoding on one length-prefixed field.
proof fn lemma_field_round_trip(b: Seq<u8>, rest: Seq<u8>)
    requires
        b.len() <= u64::MAX,
    ensures
        spec_decode_field(spec_len_field(b) + rest) == Some((b, rest)),
{
    lemma_auto_spec_u64_to_from_le_bytes();
    let e = spec_len_field(b) + rest;
    assert(e.subrange(0, 8) =~= spec_u64_to_le_bytes(b.len() as u64));
    assert(spec_u64_from_le_bytes(e.subrange(0, 8)) == b.len());
    assert(e.subrange(8, 8 + b.len() as int) =~= b);
    assert(e.subrange(8 + b.len() as int, e.len() as int) =~= rest);
}

/// Decoding undoes encoding on a serialized command: for every
/// well-formed command, the parse of its encoding gives it back.
pub proof fn lemma_command_round_trip(c: CmdModel)
    requires
        cmd_wf(c),
    ensures
        spec_decode_command(spec_encode_command(c)) == Some(c),
{
    lemma_auto_spec_u32_to_from_le_bytes();
    lemma_auto_spec_u64_to_from_le_bytes();
    let e = spec_encode_command(c);
    assert(e.subrange(0, 4) =~= spec_u32_to_le_bytes(spec_tag(c)));
    assert(spec_u32_from_le_bytes(e.subrange(0, 4)) == spec_tag(c));
    let rest = e.subrange(4, e.len() as int);
    match c {
        CmdModel::Empty => {
            assert(rest.len() == 0);
        },
        CmdModel::Get { key } => {
            assert(rest =~= spec_len_field(key) + Seq::<u8>::empty());
            lemma_field_round_trip(key, Seq::<u8>::empty());
        },
        CmdModel::Put { key, value } => {
            assert(rest =~= spec_len_field(key) + (spec_len_field(value) + Seq::<u8>::empty()));
            lemma_field_round_trip(key, spec_len_field(value) + Seq::<u8>::empty());
            lemma_field_round_trip(value, Seq::<u8>::empty());
        },
        CmdModel::Delete { key } => {
            assert(rest =~= spec_len_field(key) + Seq::<u8>::empty());
            lemma_field_round_trip(key, Seq::<u8>::empty());
        },
        CmdModel::Keys { take, skip } => {
            assert(rest.len() == 16);
            assert(rest.subrange(0, 8) =~= spec_u64_to_le_bytes(take));
            assert(rest.subrange(8, 16) =~= spec_u64_to_le_bytes(skip));
        },
        CmdModel::Error { message } => {
            assert(rest =~= spec_len_field(message) + Seq::<u8>::empty());
            lemma_field_round_trip(message, Seq::<u8>::empty());
        },
        CmdModel::Recv { payload } => {
            assert(rest =~= spec_len_field(payload) + Seq::<u8>::empty());
            lemma_field_round_trip(payload, Seq::<u8>::empty());
        },
    }
}

/// Decoding undoes encoding on a frame body: `decode(encode(f))`
/// gives back `f` for every well-formed frame.
pub proof fn lemma_frame_round_trip(f: FrameModel)
    requires
        frame_wf(f),
    ensures
        spec_decode_frame(spec_encode_frame(f)) == Some(f),
{
    lemma_auto_spec_u32_to_from_le_bytes();
    lemma_auto_spec_u64_to_from_le_bytes();
    let e = spec_encode_frame(f);
    assert(e.len() >= 13);
    assert(e[0] == f.version);
    assert(e.subrange(1, 9) =~= spec_u64_to_le_bytes(f.id));
    assert(spec_u64_from_le_bytes(e.subrange(1, 9)) == f.id);
    assert(e.subrange(9, e.len() as int) =~= spec_encode_command(f.command));
    lemma_command_round_trip(f.command);
}

/// A complete on-wire unit is recognised whole: its prefix announces
/// exactly the unit's extent, and the body parses back to the frame.
pub proof fn lemma_unit_round_trip(f: FrameModel)
    requires
        frame_wf(f),
    ensures
        spec_unit_len(spec_frame_unit(f)) == Some(spec_frame_unit(f).len() as int),
        spec_decode_frame(spec_frame_unit(f).subrange(8, spec_frame_unit(f).len() as int))
            == Some(f),
{
    lemma_auto_spec_u64_to_from_le_bytes();
    let body = spec_encode_frame(f);
    let u = spec_frame_unit(f);
    assert(u.subrange(0, 8) =~= spec_u64_to_le_bytes(body.len() as u64));
    assert(spec_u64_from_le_bytes(u.subrange(0, 8)) == body.len());
    assert(u.subrange(8, u.len() as int) =~= body);
    lemma_frame_round_trip(f);
}

} // verus!
