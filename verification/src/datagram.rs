//! The wire codec for whole datagrams.
//!
//! A datagram is a protocol header, an optional checksum and one or more
//! commands, the last of which ends where the datagram ends.

use vstd::prelude::*;
use crate::bytes::{
    be16, be16_at, be32, be32_at, high_byte, lemma_join16_of_bytes, lemma_join32_of_bytes,
    push_be16, push_be32, read_be16, read_be32,
};
use crate::checksum::{spec_checksum, spec_header_length, spec_sealed};
use crate::wire::{
    lemma_bytes_len, lemma_parse_inverts_bytes, parse_command, Command, CommandView, DecodeError,
};

verus! {

/// Bit of the header field that says a sent time follows.
pub const HEADER_FLAG_SENT_TIME: u16 = 0x8000;

/// Bit of the header field that says the commands are compressed.
pub const HEADER_FLAG_COMPRESSED: u16 = 0x4000;

/// The header every datagram starts with.
#[derive(Debug, Clone, Copy, PartialEq, Eq)]
pub struct ProtocolHeader {
    /// The receiver's slot as the sender knows it; at most `0xFFF`.
    pub peer_id: u16,
    /// The session the datagram belongs to; at most 3.
    pub session_id: u8,
    /// The low 16 bits of the sender's clock, where it sent them.
    pub sent_time: Option<u16>,
}

/// What a datagram holds.
#[derive(Debug, Clone, PartialEq, Eq)]
pub struct Datagram {
    pub header: ProtocolHeader,
    /// The checksum field, where the host is configured to carry one.
    pub checksum: Option<u32>,
    pub commands: Vec<Command>,
}

/// The mathematical value of a [`Datagram`].
pub struct DatagramView {
    pub header: ProtocolHeader,
    pub checksum: Option<u32>,
    pub commands: Seq<CommandView>,
}

/// Why a byte string is not a datagram.
#[derive(Debug, Clone, Copy, PartialEq, Eq)]
pub enum DatagramError {
    /// The bytes end before the header and checksum do.
    TooShort,
    /// The header says the commands are compressed.
    Compressed,
    /// The byte string holds no command.
    Empty,
    /// One of the commands is malformed.
    Command(DecodeError),
}

/// The views of a sequence of commands.
pub open spec fn command_views(commands: Seq<Command>) -> Seq<CommandView> {
    commands.map_values(|c: Command| c@)
}

impl View for Datagram {
    type V = DatagramView;

    open spec fn view(&self) -> DatagramView {
        DatagramView {
            header: self.header,
            checksum: self.checksum,
            commands: command_views(self.commands@),
        }
    }
}

impl ProtocolHeader {
    /// Whether the fields fit the bits the wire gives them.
    pub open spec fn wf(self) -> bool {
        self.peer_id <= 0xFFF && self.session_id <= 3
    }

    /// The 16-bit field that packs the peer, the session and the flags.
    pub open spec fn field(self) -> u16 {
        (self.peer_id + self.session_id * 0x1000 + (if self.sent_time is Some {
            0x8000int
        } else {
            0
        })) as u16
    }

    /// The header as it stands on the wire.
    pub open spec fn bytes(self) -> Seq<u8> {
        match self.sent_time {
            Some(t) => be16(self.field()) + be16(t),
            None => be16(self.field()),
        }
    }

    /// Whether the fields fit the bits the wire gives them.
    pub fn is_well_formed(&self) -> (r: bool)
        ensures
            r == self.wf(),
    {
        self.peer_id <= 0xFFF && self.session_id <= 3
    }

    /// Appends the header to `out` as it stands on the wire.
    pub fn encode(&self, out: &mut Vec<u8>)
        requires
            self.wf(),
        ensures
            final(out)@ == old(out)@ + self.bytes(),
    {
        let session: u16 = self.session_id as u16;
        let mut field: u16 = self.peer_id + session * 0x1000;
        match self.sent_time {
            Some(t) => {
                field = field + 0x8000;
                push_be16(out, field);
                push_be16(out, t);
                assert(out@ =~= old(out)@ + self.bytes());
            },
            None => {
                push_be16(out, field);
            },
        }
    }
}

/// The header that starts at `s[0]` with the position behind it, or the
/// reason why there is none.
pub open spec fn parse_header(s: Seq<u8>) -> Result<(ProtocolHeader, int), DatagramError> {
    if s.len() < 2 {
        Err(DatagramError::TooShort)
    } else {
        let field = be16_at(s, 0);
        if (field / 0x4000) % 2 == 1 {
            Err(DatagramError::Compressed)
        } else if field / 0x8000 == 1 {
            if s.len() < 4 {
                Err(DatagramError::TooShort)
            } else {
                Ok(
                    (
                        ProtocolHeader {
                            peer_id: field % 0x1000,
                            session_id: ((field / 0x1000) % 4) as u8,
                            sent_time: Some(be16_at(s, 2)),
                        },
                        4,
                    ),
                )
            }
        } else {
            Ok(
                (
                    ProtocolHeader {
                        peer_id: field % 0x1000,
                        session_id: ((field / 0x1000) % 4) as u8,
                        sent_time: None,
                    },
                    2,
                ),
            )
        }
    }
}

/// The commands that fill `s` from `s[at]` to its end, or the error of the
/// first one that is malformed.
pub open spec fn parse_commands(s: Seq<u8>, at: int) -> Result<Seq<CommandView>, DecodeError>
    decreases s.len() - at,
{
    if at >= s.len() {
        Ok(Seq::empty())
    } else {
        match parse_command(s, at) {
            Err(e) => Err(e),
            Ok((c, end)) => if end <= at || end > s.len() {
                Err(DecodeError::Truncated)
            } else {
                match parse_commands(s, end) {
                    Err(e) => Err(e),
                    Ok(rest) => Ok(seq![c] + rest),
                }
            },
        }
    }
}

/// The datagram that `s` holds, or the reason why it holds none. With
/// `with_checksum` the four bytes behind the header are the checksum field.
pub open spec fn parse_datagram(s: Seq<u8>, with_checksum: bool) -> Result<
    DatagramView,
    DatagramError,
> {
    match parse_header(s) {
        Err(e) => Err(e),
        Ok((header, at)) => {
            let start = if with_checksum {
                at + 4
            } else {
                at
            };
            if s.len() < start {
                Err(DatagramError::TooShort)
            } else if s.len() == start {
                Err(DatagramError::Empty)
            } else {
                match parse_commands(s, start) {
                    Err(e) => Err(DatagramError::Command(e)),
                    Ok(commands) => Ok(
                        DatagramView {
                            header,
                            checksum: if with_checksum {
                                Some(be32_at(s, at))
                            } else {
                                None
                            },
                            commands,
                        },
                    ),
                }
            }
        },
    }
}

/// The bytes of a sequence of commands, one behind the other.
pub open spec fn commands_bytes(commands: Seq<CommandView>) -> Seq<u8>
    decreases commands.len(),
{
    if commands.len() == 0 {
        Seq::empty()
    } else {
        commands[0].bytes() + commands_bytes(commands.drop_first())
    }
}

/// Whether every command of the sequence can be written.
pub open spec fn commands_wf(commands: Seq<CommandView>) -> bool {
    forall|i: int| 0 <= i < commands.len() ==> (#[trigger] commands[i]).wf()
}

impl DatagramView {
    /// Whether the datagram can be written: a header that fits its bits and
    /// at least one command, each of them writable.
    pub open spec fn wf(self) -> bool {
        &&& self.header.wf()
        &&& self.commands.len() > 0
        &&& commands_wf(self.commands)
    }

    /// The datagram as it stands on the wire.
    pub open spec fn bytes(self) -> Seq<u8> {
        self.header.bytes() + (match self.checksum {
            Some(sum) => be32(sum),
            None => Seq::empty(),
        }) + commands_bytes(self.commands)
    }
}

/// Parsing a string of commands from `at` is parsing its first command and
/// then the rest.
proof fn lemma_parse_commands_step(s: Seq<u8>, at: int)
    requires
        0 <= at < s.len(),
    ensures
        parse_command(s, at) is Err ==> parse_commands(s, at) == Err::<
            Seq<CommandView>,
            DecodeError,
        >(parse_command(s, at)->Err_0),
        parse_command(s, at) is Ok ==> ({
            let (c, end) = parse_command(s, at)->Ok_0;
            &&& end >= at + 4
            &&& end <= s.len()
            &&& parse_commands(s, at) == match parse_commands(s, end) {
                Err(e) => Err::<Seq<CommandView>, DecodeError>(e),
                Ok(rest) => Ok(seq![c] + rest),
            }
        }),
{
    reveal(parse_command);
}

impl Datagram {
    /// Whether the datagram can be written.
    pub fn is_well_formed(&self) -> (r: bool)
        ensures
            r == self@.wf(),
    {
        if !self.header.is_well_formed() || self.commands.len() == 0 {
            return false;
        }
        let mut i: usize = 0;
        while i < self.commands.len()
            invariant
                i <= self.commands@.len(),
                forall|j: int| 0 <= j < i ==> (#[trigger] self@.commands[j]).wf(),
            decreases self.commands@.len() - i,
        {
            if !self.commands[i].is_well_formed() {
                assert(!self@.commands[i as int].wf());
                return false;
            }
            i = i + 1;
        }
        true
    }

    /// The datagram as it stands on the wire.
    pub fn encode(&self) -> (out: Vec<u8>)
        requires
            self@.wf(),
        ensures
            out@ == self@.bytes(),
    {
        let mut out: Vec<u8> = Vec::new();
        self.header.encode(&mut out);
        match self.checksum {
            Some(sum) => {
                push_be32(&mut out, sum);
            },
            None => {},
        }
        let ghost head = out@;
        assert(self@.commands.skip(0) =~= self@.commands);
        let mut i: usize = 0;
        while i < self.commands.len()
            invariant
                i <= self.commands@.len(),
                self@.wf(),
                out@ + commands_bytes(self@.commands.skip(i as int)) == head + commands_bytes(
                    self@.commands,
                ),
            decreases self.commands@.len() - i,
        {
            let ghost rest = self@.commands.skip(i as int);
            assert(rest[0] == self@.commands[i as int]);
            assert(rest.drop_first() =~= self@.commands.skip(i + 1));
            let ghost before = out@;
            self.commands[i].encode(&mut out);
            assert(out@ + commands_bytes(self@.commands.skip(i + 1)) =~= before + commands_bytes(
                rest,
            ));
            i = i + 1;
        }
        assert(commands_bytes(self@.commands.skip(i as int)) =~= Seq::<u8>::empty());
        assert(out@ =~= head + commands_bytes(self@.commands));
        out
    }

    /// Reads the datagram that `bytes` holds, or says why it holds none.
    /// With `with_checksum` the four bytes behind the header are taken as
    /// the checksum field.
    pub fn decode(bytes: &[u8], with_checksum: bool) -> (r: Result<Datagram, DatagramError>)
        ensures
            match r {
                Ok(d) => parse_datagram(bytes@, with_checksum) == Ok::<DatagramView, DatagramError>(
                    d@,
                ),
                Err(e) => parse_datagram(bytes@, with_checksum) == Err::<
                    DatagramView,
                    DatagramError,
                >(e),
            },
    {
        let len = bytes.len();
        if len < 2 {
            return Err(DatagramError::TooShort);
        }
        let field = read_be16(bytes, 0);
        if (field / 0x4000) % 2 == 1 {
            return Err(DatagramError::Compressed);
        }
        let mut at: usize = 2;
        let mut sent_time: Option<u16> = None;
        if field / 0x8000 == 1 {
            if len < 4 {
                return Err(DatagramError::TooShort);
            }
            sent_time = Some(read_be16(bytes, 2));
            at = 4;
        }
        let header = ProtocolHeader {
            peer_id: field % 0x1000,
            session_id: ((field / 0x1000) % 4) as u8,
            sent_time,
        };
        let mut checksum: Option<u32> = None;
        if with_checksum {
            if len - at < 4 {
                return Err(DatagramError::TooShort);
            }
            checksum = Some(read_be32(bytes, at));
            at = at + 4;
        }
        if len == at {
            return Err(DatagramError::Empty);
        }
        let ghost start = at as int;
        let mut commands: Vec<Command> = Vec::new();
        while at < len
            invariant
                start <= at <= len,
                len == bytes@.len(),
                parse_datagram(bytes@, with_checksum) == match parse_commands(bytes@, start) {
                    Err(e) => Err::<DatagramView, DatagramError>(DatagramError::Command(e)),
                    Ok(all) => Ok(DatagramView { header, checksum, commands: all }),
                },
                parse_commands(bytes@, start) == match parse_commands(bytes@, at as int) {
                    Err(e) => Err::<Seq<CommandView>, DecodeError>(e),
                    Ok(rest) => Ok(command_views(commands@) + rest),
                },
            decreases len - at,
        {
            proof {
                lemma_parse_commands_step(bytes@, at as int);
            }
            match Command::decode(bytes, at) {
                Err(e) => {
                    return Err(DatagramError::Command(e));
                },
                Ok((command, end)) => {
                    let ghost before = command_views(commands@);
                    commands.push(command);
                    assert(command_views(commands@) =~= before + seq![command@]);
                    assert forall|rest: Seq<CommandView>|
                        before + (seq![command@] + rest) == command_views(commands@)
                            + rest by {
                        assert(before + (seq![command@] + rest) =~= command_views(commands@)
                            + rest);
                    }
                    at = end;
                },
            }
        }
        assert(command_views(commands@) + Seq::<CommandView>::empty() =~= command_views(
            commands@,
        ));
        Ok(Datagram { header, checksum, commands })
    }
}

/// A header that was written at the start of a string is read back from
/// there.
pub proof fn lemma_parse_header_inverts_bytes(header: ProtocolHeader, rest: Seq<u8>)
    requires
        header.wf(),
    ensures
        parse_header(header.bytes() + rest) == Ok::<(ProtocolHeader, int), DatagramError>(
            (header, header.bytes().len() as int),
        ),
{
    let s = header.bytes() + rest;
    let field = header.field();
    assert(s[0] == be16(field)[0] && s[1] == be16(field)[1]);
    lemma_join16_of_bytes(field);
    assert(be16_at(s, 0) == field);
    match header.sent_time {
        Some(t) => {
            assert(s[2] == be16(t)[0] && s[3] == be16(t)[1]);
            lemma_join16_of_bytes(t);
            assert(be16_at(s, 2) == t);
        },
        None => {},
    }
}

/// The bytes of a sequence of commands are as long as the commands together,
/// and no command is shorter than its header.
pub proof fn lemma_commands_bytes_len(commands: Seq<CommandView>)
    ensures
        commands_bytes(commands).len() >= 4 * commands.len(),
    decreases commands.len(),
{
    if commands.len() > 0 {
        lemma_bytes_len(commands[0]);
        lemma_commands_bytes_len(commands.drop_first());
    }
}

/// A sequence of well-formed commands that was written behind a prefix is
/// read back from there.
pub proof fn lemma_parse_commands_inverts_bytes(prefix: Seq<u8>, commands: Seq<CommandView>)
    requires
        commands_wf(commands),
    ensures
        parse_commands(prefix + commands_bytes(commands), prefix.len() as int) == Ok::<
            Seq<CommandView>,
            DecodeError,
        >(commands),
    decreases commands.len(),
{
    let s = prefix + commands_bytes(commands);
    let at = prefix.len() as int;
    if commands.len() == 0 {
        assert(s.len() == at);
        assert(commands =~= Seq::<CommandView>::empty());
    } else {
        let first = commands[0];
        let rest = commands.drop_first();
        let tail = commands_bytes(rest);
        let end = at + first.size();
        assert(first.wf());
        lemma_bytes_len(first);
        assert(s =~= prefix + first.bytes() + tail);
        lemma_parse_inverts_bytes(first, prefix, tail);
        assert(parse_command(s, at) == Ok::<(CommandView, int), DecodeError>((first, end)));
        assert(commands_wf(rest)) by {
            assert forall|i: int| 0 <= i < rest.len() implies (#[trigger] rest[i]).wf() by {
                assert(rest[i] == commands[i + 1]);
            }
        }
        assert(s =~= (prefix + first.bytes()) + tail);
        lemma_parse_commands_inverts_bytes(prefix + first.bytes(), rest);
        assert(parse_commands(s, end) == Ok::<Seq<CommandView>, DecodeError>(rest));
        lemma_parse_commands_step(s, at);
        assert(seq![first] + rest =~= commands);
    }
}

/// Decoding inverts encoding: the bytes of a well-formed datagram parse as
/// that datagram.
pub proof fn lemma_parse_datagram_inverts_bytes(d: DatagramView)
    requires
        d.wf(),
    ensures
        parse_datagram(d.bytes(), d.checksum is Some) == Ok::<DatagramView, DatagramError>(d),
{
    let head = d.header.bytes();
    let sum = match d.checksum {
        Some(sum) => be32(sum),
        None => Seq::<u8>::empty(),
    };
    let body = commands_bytes(d.commands);
    let s = d.bytes();
    assert(s =~= head + (sum + body));
    lemma_parse_header_inverts_bytes(d.header, sum + body);
    lemma_commands_bytes_len(d.commands);
    lemma_parse_commands_inverts_bytes(head + sum, d.commands);
    match d.checksum {
        Some(x) => {
            let at = head.len() as int;
            assert(s[at] == be32(x)[0] && s[at + 1] == be32(x)[1] && s[at + 2] == be32(x)[2]
                && s[at + 3] == be32(x)[3]);
            lemma_join32_of_bytes(x);
            assert(be32_at(s, at) == x);
        },
        None => {},
    }
}

/// The bytes of a sequence of commands with one more behind it are the
/// bytes of the sequence with those of the command behind them.
pub proof fn lemma_commands_bytes_push(commands: Seq<CommandView>, c: CommandView)
    ensures
        commands_bytes(commands.push(c)) == commands_bytes(commands) + c.bytes(),
    decreases commands.len(),
{
    if commands.len() == 0 {
        let rest = commands.push(c).drop_first();
        assert(rest.len() == 0);
        assert(commands_bytes(rest) =~= Seq::<u8>::empty());
        assert(commands.push(c)[0] == c);
        assert(commands_bytes(commands) =~= Seq::<u8>::empty());
        assert(commands_bytes(commands.push(c)) =~= commands_bytes(commands) + c.bytes());
    } else {
        lemma_commands_bytes_push(commands.drop_first(), c);
        assert(commands.push(c).drop_first() =~= commands.drop_first().push(c));
        assert(commands_bytes(commands.push(c)) =~= commands_bytes(commands) + c.bytes());
    }
}

/// The protocol header of a datagram is as long as its first byte says.
pub proof fn lemma_header_length(header: ProtocolHeader, rest: Seq<u8>)
    requires
        header.wf(),
    ensures
        spec_header_length(header.bytes() + rest) == header.bytes().len(),
{
    reveal(high_byte);
    let s = header.bytes() + rest;
    assert(s[0] == be16(header.field())[0]);
}

/// Sealing a datagram puts its checksum into the checksum field: the bytes
/// of a datagram without checksum, once sealed, are the bytes of the same
/// datagram with its checksum, and parse as that.
pub proof fn lemma_sealed_datagram(d: DatagramView)
    requires
        d.wf(),
        d.checksum is None,
    ensures
        ({
            let sum = spec_checksum(d.bytes(), d.header.bytes().len() as int);
            let with_sum = DatagramView { checksum: Some(sum), ..d };
            &&& spec_sealed(d.bytes()) == with_sum.bytes()
            &&& parse_datagram(spec_sealed(d.bytes()), true) == Ok::<DatagramView, DatagramError>(
                with_sum,
            )
        }),
{
    let head = d.header.bytes();
    let body = commands_bytes(d.commands);
    let plain = d.bytes();
    assert(plain =~= head + body);
    lemma_header_length(d.header, body);
    let at = head.len() as int;
    let sum = spec_checksum(plain, at);
    let with_sum = DatagramView { checksum: Some(sum), ..d };
    assert(plain.subrange(0, at) =~= head);
    assert(plain.subrange(at, plain.len() as int) =~= body);
    assert(spec_sealed(plain) =~= with_sum.bytes());
    lemma_parse_datagram_inverts_bytes(with_sum);
}

/// A datagram holds at least one command: bytes that parse as a datagram
/// parse as one with a command.
pub proof fn lemma_parsed_datagram_has_commands(s: Seq<u8>, with_checksum: bool)
    requires
        parse_datagram(s, with_checksum) is Ok,
    ensures
        parse_datagram(s, with_checksum)->Ok_0.commands.len() > 0,
{
    let at = parse_header(s)->Ok_0.1;
    let start = if with_checksum {
        at + 4
    } else {
        at
    };
    lemma_parse_commands_step(s, start);
}

} // verus!
