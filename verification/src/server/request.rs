//! Decoding requests: a request is an array of bulk strings,
//! `*<n>\r\n` followed by `n` times `$<size>\r\n<size bytes>\r\n`.
//!
//! The bytes received so far are held by a [`Request`]; the caller appends what
//! arrives and marks the end of the stream. A line ends at a line feed, and its
//! last two bytes (the `\r\n`) are dropped; an empty line ends the session.
use vstd::prelude::*;
use crate::{Command, CommandView};
use crate::codec::{
    ascii_bytes, decimal, hex_chars, lemma_decimal_digits, lemma_decimal_roundtrip,
    lemma_hex_roundtrip,
    atoi_usize, digits_value, hex_decode, hex_decoded, is_digit, leading_digits, leading_number,
    leading_number_fits,
};

verus! {

// ---------------------------------------------------------------------------
// The grammar, over the bytes received
// ---------------------------------------------------------------------------

/// The index of the first line feed at or after `i`.
pub open spec fn find_newline(s: Seq<u8>, i: int) -> Option<int>
    decreases s.len() - i,
{
    if i < 0 || i >= s.len() {
        None
    } else if s[i] == 10 {
        Some(i)
    } else {
        find_newline(s, i + 1)
    }
}

/// A raw line without its last two bytes (the line terminator).
pub open spec fn trim_line(raw: Seq<u8>) -> Seq<u8> {
    if raw.len() >= 2 {
        raw.take(raw.len() - 2)
    } else {
        Seq::empty()
    }
}

/// The line that starts at `pos`, trimmed, and where the next one starts; `None`
/// where the line has not been received whole yet. At the end of the stream the
/// line runs to the end of the bytes.
pub open spec fn line_at(s: Seq<u8>, pos: int, eof: bool) -> Option<(Seq<u8>, int)> {
    match find_newline(s, pos) {
        Some(i) => Some((trim_line(s.subrange(pos, i + 1)), i + 1)),
        None => if eof {
            Some((trim_line(s.subrange(pos, s.len() as int)), s.len() as int))
        } else {
            None
        },
    }
}

/// The outcome of reading one bulk string.
pub enum Bulk {
    /// The string, and where the bytes after it start.
    Arg(Seq<u8>, int),
    /// Not a bulk string; reading stopped at the given position.
    Malformed(int),
    /// More bytes are needed.
    Incomplete,
    /// The declared size does not fit in a `usize` together with the terminator.
    Overflow,
}

/// Reads the bulk string that starts at `pos`: a line `$<size>`, then `size`
/// bytes and two more that are skipped.
pub open spec fn bulk_at(s: Seq<u8>, pos: int, eof: bool) -> Bulk {
    match line_at(s, pos, eof) {
        None => Bulk::Incomplete,
        Some((line, next)) => if line.len() == 0 || line[0] != 36 {
            Bulk::Malformed(next)
        } else {
            match leading_number(line.drop_first()) {
                None => Bulk::Malformed(next),
                Some(size) => if size + 2 > usize::MAX {
                    Bulk::Overflow
                } else if next + size + 2 <= s.len() {
                    Bulk::Arg(s.subrange(next, next + size), next + size + 2)
                } else if eof {
                    Bulk::Malformed(s.len() as int)
                } else {
                    Bulk::Incomplete
                },
            }
        },
    }
}

/// The outcome of reading several bulk strings.
pub enum Args {
    Read(Seq<Seq<u8>>, int),
    Malformed(int),
    Incomplete,
    Overflow,
}

/// Reads `n` bulk strings, one after the other, from `pos`.
pub open spec fn args_at(s: Seq<u8>, pos: int, eof: bool, n: nat) -> Args
    decreases n,
{
    if n == 0 {
        Args::Read(Seq::empty(), pos)
    } else {
        match args_at(s, pos, eof, (n - 1) as nat) {
            Args::Read(args, p) => match bulk_at(s, p, eof) {
                Bulk::Arg(a, q) => Args::Read(args.push(a), q),
                Bulk::Malformed(q) => Args::Malformed(q),
                Bulk::Incomplete => Args::Incomplete,
                Bulk::Overflow => Args::Overflow,
            },
            other => other,
        }
    }
}

/// The outcome of reading one request frame.
pub enum Frame {
    /// An array of bulk strings.
    Array(Seq<Seq<u8>>),
    /// An empty line: the session ends.
    End,
    /// The first line does not start with `*`.
    NotArray,
    Malformed,
    Incomplete,
    Overflow,
}

/// Reads the frame at the start of `s`; answers also how many bytes it took
/// (none where more bytes are needed).
pub open spec fn frame_of(s: Seq<u8>, eof: bool) -> (Frame, int) {
    match line_at(s, 0, eof) {
        None => (Frame::Incomplete, 0),
        Some((line, next)) => if line.len() == 0 {
            (Frame::End, next)
        } else if line[0] != 42 {
            (Frame::NotArray, next)
        } else if line.len() < 2 || !is_digit(line[1]) {
            (Frame::Malformed, next)
        } else {
            match args_at(s, next, eof, (line[1] - 48) as nat) {
                Args::Read(args, q) => (Frame::Array(args), q),
                Args::Malformed(q) => (Frame::Malformed, q),
                Args::Incomplete => (Frame::Incomplete, 0),
                Args::Overflow => (Frame::Overflow, 0),
            }
        },
    }
}

/// The contents of decoded arguments.
pub open spec fn args_view(args: Seq<Vec<u8>>) -> Seq<Seq<u8>> {
    args.map_values(|v: Vec<u8>| v@)
}

pub open spec fn word_ping() -> Seq<u8> {
    seq![80u8, 73, 78, 71]
}

pub open spec fn word_set() -> Seq<u8> {
    seq![83u8, 69, 84]
}

pub open spec fn word_get() -> Seq<u8> {
    seq![71u8, 69, 84]
}

/// The arguments name a command and hold every argument that it takes by position:
/// the first, and for `SET` the third, for `GET` the second.
pub open spec fn args_complete(args: Seq<Seq<u8>>) -> bool {
    &&& args.len() >= 1
    &&& args[0] == word_set() ==> args.len() != 2
    &&& args[0] == word_get() ==> args.len() >= 2
}

/// The command that complete arguments make; `None` where they are malformed
/// (`SET` with one argument, `GET` with a digest that is not hexadecimal).
pub open spec fn command_of(args: Seq<Seq<u8>>) -> Option<CommandView> {
    if args[0] == word_ping() {
        Some(CommandView::Ping)
    } else if args[0] == word_set() {
        if args.len() < 2 {
            None
        } else {
            Some(CommandView::Store(args[2]))
        }
    } else if args[0] == word_get() {
        match hex_decoded(args[1]) {
            Some(h) => Some(CommandView::Fetch(h)),
            None => None,
        }
    } else {
        Some(CommandView::NotSupported)
    }
}

/// Decoding these bytes cannot be carried out: a declared size overflows, or a
/// frame lacks an argument that its command takes by position.
pub open spec fn decode_fails_hard(s: Seq<u8>, eof: bool) -> bool {
    match frame_of(s, eof).0 {
        Frame::Overflow => true,
        Frame::Array(args) => !args_complete(args),
        _ => false,
    }
}

// ---------------------------------------------------------------------------
// The decoder
// ---------------------------------------------------------------------------

/// Why a request could not be decoded.
#[derive(Debug, Clone, Copy, PartialEq, Eq)]
pub enum DecodeError {
    /// The first line of the frame does not start with `*`.
    NotAnArray,
    /// The frame does not follow the grammar.
    Malformed,
    /// The frame has not been received whole yet; nothing was consumed.
    Incomplete,
}

/// The bytes of a client's stream received and not yet decoded.
pub struct Request {
    pending: Vec<u8>,
    eof: bool,
}

impl Request {
    /// The bytes received and not yet decoded.
    pub closed spec fn pending(&self) -> Seq<u8> {
        self.pending@
    }

    /// Whether the stream has ended.
    pub closed spec fn at_end(&self) -> bool {
        self.eof
    }

    /// The bytes held never outnumber what a `usize` counts.
    pub proof fn lemma_pending_bounded(&self)
        ensures
            self.pending().len() <= usize::MAX,
    {
        assert(self.pending.len() == self.pending@.len());
    }

    /// A request with nothing received yet.
    pub fn new() -> (r: Request)
        ensures
            r.pending() == Seq::<u8>::empty(),
            !r.at_end(),
    {
        Request { pending: Vec::new(), eof: false }
    }

    /// Appends bytes received from the stream.
    pub fn feed(&mut self, bytes: &[u8])
        ensures
            final(self).pending() == old(self).pending() + bytes@,
            final(self).at_end() == old(self).at_end(),
    {
        let ghost before = self.pending@;
        let mut i: usize = 0;
        while i < bytes.len()
            invariant
                i <= bytes.len(),
                self.pending@ == before + bytes@.take(i as int),
                self.eof == old(self).eof,
            decreases bytes.len() - i,
        {
            self.pending.push(bytes[i]);
            i = i + 1;
            assert(self.pending@ =~= before + bytes@.take(i as int));
        }
        assert(bytes@.take(i as int) =~= bytes@);
    }

    /// Marks the end of the stream: no more bytes will arrive.
    pub fn close(&mut self)
        ensures
            final(self).pending() == old(self).pending(),
            final(self).at_end(),
    {
        self.eof = true;
    }

    /// Whether decoding the bytes received so far cannot be carried out; `decode`
    /// may be called only where this is false.
    pub fn would_panic(&self) -> (b: bool)
        ensures
            b == decode_fails_hard(self.pending(), self.at_end()),
    {
        match read_frame(self.pending.as_slice(), self.eof) {
            FrameRead::Overflow => true,
            FrameRead::Array(args, _) => !args_are_complete(&args),
            _ => false,
        }
    }

    /// Decodes the next request: `Ok(None)` where the session ends (an empty line),
    /// and otherwise the command, or why there is none. The bytes of the frame are
    /// consumed, except where it is incomplete. At the end of the stream a frame is
    /// never incomplete.
    pub fn decode(&mut self) -> (res: Result<Option<Command>, DecodeError>)
        requires
            !decode_fails_hard(old(self).pending(), old(self).at_end()),
        ensures
            final(self).at_end() == old(self).at_end(),
            ({
                let (frame, used) = frame_of(old(self).pending(), old(self).at_end());
                &&& final(self).pending() == old(self).pending().skip(used)
                &&& match frame {
                    Frame::Array(args) => match command_of(args) {
                        Some(c) => res matches Ok(Some(cmd)) && cmd@ == c,
                        None => res == Err::<Option<Command>, DecodeError>(DecodeError::Malformed),
                    },
                    Frame::End => res matches Ok(None),
                    Frame::NotArray => res == Err::<Option<Command>, DecodeError>(
                        DecodeError::NotAnArray,
                    ),
                    Frame::Malformed => res == Err::<Option<Command>, DecodeError>(
                        DecodeError::Malformed,
                    ),
                    Frame::Incomplete => res == Err::<Option<Command>, DecodeError>(
                        DecodeError::Incomplete,
                    ),
                    Frame::Overflow => false,
                }
            }),
            old(self).at_end() ==> res != Err::<Option<Command>, DecodeError>(
                DecodeError::Incomplete,
            ),
    {
        proof {
            lemma_frame_complete_at_end(self.pending@, self.eof);
        }
        let frame = read_frame(self.pending.as_slice(), self.eof);
        match frame {
            FrameRead::Incomplete => {
                assert(self.pending@.skip(0) =~= self.pending@);
                Err(DecodeError::Incomplete)
            },
            FrameRead::Overflow => {
                assert(false);
                Err(DecodeError::Malformed)
            },
            FrameRead::End(used) => {
                self.consume(used);
                Ok(None)
            },
            FrameRead::NotArray(used) => {
                self.consume(used);
                Err(DecodeError::NotAnArray)
            },
            FrameRead::Malformed(used) => {
                self.consume(used);
                Err(DecodeError::Malformed)
            },
            FrameRead::Array(args, used) => {
                self.consume(used);
                match command_from_args(args) {
                    Ok(cmd) => Ok(Some(cmd)),
                    Err(e) => Err(e),
                }
            },
        }
    }

    /// Drops the first `used` bytes received.
    fn consume(&mut self, used: usize)
        requires
            used <= old(self).pending@.len(),
        ensures
            final(self).pending@ == old(self).pending@.skip(used as int),
            final(self).eof == old(self).eof,
    {
        let rest = copy_range(self.pending.as_slice(), used, self.pending.len());
        assert(rest@ =~= self.pending@.skip(used as int));
        self.pending = rest;
    }
}

/// The command that complete arguments make, as `command_of` says.
pub fn command_from_args(args: Vec<Vec<u8>>) -> (res: Result<Command, DecodeError>)
    requires
        args_complete(args_view(args@)),
    ensures
        match command_of(args_view(args@)) {
            Some(c) => res matches Ok(cmd) && cmd@ == c,
            None => res == Err::<Command, DecodeError>(DecodeError::Malformed),
        },
{
    let ghost view = args_view(args@);
    assert(args@[0]@ == view[0]);
    let mut args = args;
    if is_word(&args[0], &[80u8, 73, 78, 71]) {
        Ok(Command::PING)
    } else if is_word(&args[0], &[83u8, 69, 84]) {
        if args.len() < 2 {
            return Err(DecodeError::Malformed);
        }
        assert(view[2] == args@[2]@);
        let value = args.swap_remove(2);
        Ok(Command::SET(value))
    } else if is_word(&args[0], &[71u8, 69, 84]) {
        assert(view[1] == args@[1]@);
        match hex_decode(args[1].as_slice()) {
            Ok(hash) => Ok(Command::GET(hash)),
            Err(_) => Err(DecodeError::Malformed),
        }
    } else {
        Ok(Command::NOTSUPPORTED)
    }
}

/// Whether the arguments are complete, as `args_complete` says.
pub fn args_are_complete(args: &Vec<Vec<u8>>) -> (b: bool)
    ensures
        b == args_complete(args_view(args@)),
{
    if args.len() == 0 {
        return false;
    }
    let ghost view = args_view(args@);
    assert(args@[0]@ == view[0]);
    if is_word(&args[0], &[83u8, 69, 84]) && args.len() == 2 {
        return false;
    }
    if is_word(&args[0], &[71u8, 69, 84]) && args.len() < 2 {
        return false;
    }
    true
}

/// Whether `arg` is exactly `word`.
fn is_word(arg: &Vec<u8>, word: &[u8]) -> (b: bool)
    ensures
        b == (arg@ == word@),
{
    if arg.len() != word.len() {
        return false;
    }
    let mut i: usize = 0;
    while i < word.len()
        invariant
            i <= word.len(),
            arg@.len() == word@.len(),
            forall|j: int| 0 <= j < i ==> arg@[j] == word@[j],
        decreases word.len() - i,
    {
        if arg[i] != word[i] {
            return false;
        }
        i = i + 1;
    }
    assert(arg@ =~= word@);
    true
}

/// The bytes of `buf` from `from` to `to`.
fn copy_range(buf: &[u8], from: usize, to: usize) -> (v: Vec<u8>)
    requires
        from <= to <= buf@.len(),
    ensures
        v@ == buf@.subrange(from as int, to as int),
{
    let mut v: Vec<u8> = Vec::new();
    let mut i: usize = from;
    while i < to
        invariant
            from <= i <= to,
            to <= buf@.len(),
            v@ == buf@.subrange(from as int, i as int),
        decreases to - i,
    {
        v.push(buf[i]);
        i = i + 1;
        assert(v@ =~= buf@.subrange(from as int, i as int));
    }
    v
}

/// Reads the line at `pos` (`read_until` a line feed, then two bytes dropped).
fn read_line(buf: &[u8], pos: usize, eof: bool) -> (res: Option<(Vec<u8>, usize)>)
    requires
        pos <= buf@.len(),
    ensures
        match res {
            Some((line, next)) => line_at(buf@, pos as int, eof) == Some((line@, next as int)),
            None => line_at(buf@, pos as int, eof) is None,
        },
{
    let mut i: usize = pos;
    while i < buf.len() && buf[i] != 10
        invariant
            pos <= i <= buf@.len(),
            find_newline(buf@, pos as int) == find_newline(buf@, i as int),
        decreases buf.len() - i,
    {
        i = i + 1;
    }
    let end = if i < buf.len() {
        i + 1
    } else if eof {
        buf.len()
    } else {
        return None;
    };
    let line = if end - pos >= 2 {
        copy_range(buf, pos, end - 2)
    } else {
        Vec::new()
    };
    assert(line@ =~= trim_line(buf@.subrange(pos as int, end as int)));
    Some((line, end))
}

/// The outcome of reading a bulk string, as `bulk_at` says.
enum BulkRead {
    Arg(Vec<u8>, usize),
    Malformed(usize),
    Incomplete,
    Overflow,
}

/// Reads the bulk string at `pos` (its length line, then `read_exact` of the
/// value and its terminator).
fn read_bulk(buf: &[u8], pos: usize, eof: bool) -> (res: BulkRead)
    requires
        pos <= buf@.len(),
    ensures
        match (res, bulk_at(buf@, pos as int, eof)) {
            (BulkRead::Arg(a, q), Bulk::Arg(sa, sq)) => a@ == sa && q as int == sq && q <= buf@.len(),
            (BulkRead::Malformed(q), Bulk::Malformed(sq)) => q as int == sq && q <= buf@.len(),
            (BulkRead::Incomplete, Bulk::Incomplete) => true,
            (BulkRead::Overflow, Bulk::Overflow) => true,
            _ => false,
        },
{
    let (line, next) = match read_line(buf, pos, eof) {
        None => return BulkRead::Incomplete,
        Some(l) => l,
    };
    proof {
        lemma_line_next_bounded(buf@, pos as int, eof);
    }
    if line.len() == 0 || line[0] != 36 {
        return BulkRead::Malformed(next);
    }
    let digits = copy_range(line.as_slice(), 1, line.len());
    assert(digits@ =~= line@.drop_first());
    if !leading_number_fits(digits.as_slice()) {
        return BulkRead::Overflow;
    }
    let size = match atoi_usize(digits.as_slice()) {
        None => return BulkRead::Malformed(next),
        Some(size) => size,
    };
    if size > usize::MAX - 2 {
        return BulkRead::Overflow;
    }
    let needed = size + 2;
    if next <= buf.len() && needed <= buf.len() - next {
        let value = copy_range(buf, next, next + size);
        BulkRead::Arg(value, next + needed)
    } else if eof {
        BulkRead::Malformed(buf.len())
    } else {
        BulkRead::Incomplete
    }
}

/// The outcome of reading several bulk strings, as `args_at` says.
enum ArgsRead {
    Read(Vec<Vec<u8>>, usize),
    Malformed(usize),
    Incomplete,
    Overflow,
}

/// Reads `n` bulk strings from `pos`.
fn read_args(buf: &[u8], pos: usize, eof: bool, n: u8) -> (res: ArgsRead)
    requires
        pos <= buf@.len(),
    ensures
        match (res, args_at(buf@, pos as int, eof, n as nat)) {
            (ArgsRead::Read(a, q), Args::Read(sa, sq)) => args_view(a@) == sa && q as int == sq && q
                <= buf@.len(),
            (ArgsRead::Malformed(q), Args::Malformed(sq)) => q as int == sq && q <= buf@.len(),
            (ArgsRead::Incomplete, Args::Incomplete) => true,
            (ArgsRead::Overflow, Args::Overflow) => true,
            _ => false,
        },
{
    let mut args: Vec<Vec<u8>> = Vec::new();
    let mut p = pos;
    let mut k: u8 = 0;
    assert(args_view(args@) =~= Seq::<Seq<u8>>::empty());
    while k < n
        invariant
            k <= n,
            p <= buf@.len(),
            args_at(buf@, pos as int, eof, k as nat) == Args::Read(args_view(args@), p as int),
        decreases n - k,
    {
        let ghost before = args_view(args@);
        match read_bulk(buf, p, eof) {
            BulkRead::Arg(a, q) => {
                args.push(a);
                assert(args_view(args@) =~= before.push(a@));
                p = q;
            },
            BulkRead::Malformed(q) => {
                proof {
                    lemma_args_stop(buf@, pos as int, eof, (k + 1) as nat, n as nat);
                }
                return ArgsRead::Malformed(q);
            },
            BulkRead::Incomplete => {
                proof {
                    lemma_args_stop(buf@, pos as int, eof, (k + 1) as nat, n as nat);
                }
                return ArgsRead::Incomplete;
            },
            BulkRead::Overflow => {
                proof {
                    lemma_args_stop(buf@, pos as int, eof, (k + 1) as nat, n as nat);
                }
                return ArgsRead::Overflow;
            },
        }
        k = k + 1;
    }
    ArgsRead::Read(args, p)
}

/// The outcome of reading a frame, as `frame_of` says.
enum FrameRead {
    Array(Vec<Vec<u8>>, usize),
    End(usize),
    NotArray(usize),
    Malformed(usize),
    Incomplete,
    Overflow,
}

/// Reads the frame at the start of `buf`.
fn read_frame(buf: &[u8], eof: bool) -> (res: FrameRead)
    ensures
        match (res, frame_of(buf@, eof)) {
            (FrameRead::Array(a, q), (Frame::Array(sa), sq)) => args_view(a@) == sa && q as int
                == sq && q <= buf@.len(),
            (FrameRead::End(q), (Frame::End, sq)) => q as int == sq && q <= buf@.len(),
            (FrameRead::NotArray(q), (Frame::NotArray, sq)) => q as int == sq && q <= buf@.len(),
            (FrameRead::Malformed(q), (Frame::Malformed, sq)) => q as int == sq && q <= buf@.len(),
            (FrameRead::Incomplete, (Frame::Incomplete, sq)) => sq == 0,
            (FrameRead::Overflow, (Frame::Overflow, _)) => true,
            _ => false,
        },
{
    let (line, next) = match read_line(buf, 0, eof) {
        None => return FrameRead::Incomplete,
        Some(l) => l,
    };
    proof {
        lemma_line_next_bounded(buf@, 0, eof);
    }
    if line.len() == 0 {
        return FrameRead::End(next);
    }
    if line[0] != 42 {
        return FrameRead::NotArray(next);
    }
    if line.len() < 2 {
        return FrameRead::Malformed(next);
    }
    let first = [line[1]];
    assert(first@ =~= seq![line@[1]]);
    proof {
        lemma_single_digit(line@[1]);
    }
    let argc = match atoi_usize(&first) {
        None => return FrameRead::Malformed(next),
        Some(n) => n,
    };
    match read_args(buf, next, eof, argc as u8) {
        ArgsRead::Read(args, q) => FrameRead::Array(args, q),
        ArgsRead::Malformed(q) => FrameRead::Malformed(q),
        ArgsRead::Incomplete => FrameRead::Incomplete,
        ArgsRead::Overflow => FrameRead::Overflow,
    }
}

// ---------------------------------------------------------------------------
// Lemmas
// ---------------------------------------------------------------------------

proof fn lemma_find_newline_bounded(s: Seq<u8>, i: int)
    ensures
        find_newline(s, i) matches Some(j) ==> 0 <= i <= j < s.len() && s[j] == 10,
    decreases s.len() - i,
{
    if 0 <= i < s.len() && s[i] != 10 {
        lemma_find_newline_bounded(s, i + 1);
    }
}

proof fn lemma_line_next_bounded(s: Seq<u8>, pos: int, eof: bool)
    requires
        0 <= pos <= s.len(),
    ensures
        line_at(s, pos, eof) matches Some((_, next)) ==> pos <= next <= s.len(),
{
    lemma_find_newline_bounded(s, pos);
}

/// What `atoi` reads from a single byte: the digit's value, if it is a digit.
proof fn lemma_single_digit(b: u8)
    ensures
        leading_number(seq![b]) == if is_digit(b) {
            Some((b - 48) as nat)
        } else {
            None::<nat>
        },
{
    let s = seq![b];
    assert(s.drop_first() =~= Seq::<u8>::empty());
    assert(leading_digits(s.drop_first()) == 0);
    if is_digit(b) {
        assert(leading_digits(s) == 1);
        assert(s.take(1) =~= s);
        assert(s.drop_last() =~= Seq::<u8>::empty());
        assert(digits_value(s.drop_last()) == 0);
        assert(s.last() == b);
        assert(digits_value(s) == digits_value(s.drop_last()) * 10 + (s.last() - 48) as nat);
    } else {
        assert(leading_digits(s) == 0);
    }
}

/// Once reading the `k`-th string stops, reading more strings stops the same way.
proof fn lemma_args_stop(s: Seq<u8>, pos: int, eof: bool, k: nat, n: nat)
    requires
        k <= n,
        !(args_at(s, pos, eof, k) is Read),
    ensures
        args_at(s, pos, eof, n) == args_at(s, pos, eof, k),
    decreases n - k,
{
    if k < n {
        lemma_args_stop(s, pos, eof, k, (n - 1) as nat);
    }
}

/// At the end of the stream nothing is missing: a frame is never incomplete.
proof fn lemma_frame_complete_at_end(s: Seq<u8>, eof: bool)
    ensures
        eof ==> !(frame_of(s, eof).0 is Incomplete),
{
    if eof {
        if let Some((line, next)) = line_at(s, 0, eof) {
            lemma_line_next_bounded(s, 0, eof);
            if line.len() >= 2 && line[0] == 42 && is_digit(line[1]) {
                lemma_args_complete_at_end(s, next, (line[1] - 48) as nat);
            }
        }
    }
}

proof fn lemma_args_complete_at_end(s: Seq<u8>, pos: int, n: nat)
    ensures
        !(args_at(s, pos, true, n) is Incomplete),
    decreases n,
{
    if n > 0 {
        lemma_args_complete_at_end(s, pos, (n - 1) as nat);
    }
}

// ---------------------------------------------------------------------------
// Laws of the grammar
// ---------------------------------------------------------------------------

/// `$<size>\r\n<arg>\r\n`: a bulk string as a client writes it.
pub open spec fn bulk_encoding(arg: Seq<u8>) -> Seq<u8> {
    seq![36u8] + decimal(arg.len()) + seq![13u8, 10] + arg + seq![13u8, 10]
}

/// The bulk strings of `args`, one after the other.
pub open spec fn bulks_encoding(args: Seq<Seq<u8>>) -> Seq<u8>
    decreases args.len(),
{
    if args.len() == 0 {
        Seq::empty()
    } else {
        bulks_encoding(args.drop_last()) + bulk_encoding(args.last())
    }
}

/// `*<n>\r\n` and `n` bulk strings: a request of at most nine arguments as a client
/// writes it.
pub open spec fn frame_encoding(args: Seq<Seq<u8>>) -> Seq<u8> {
    seq![42u8, (args.len() + 48) as u8, 13, 10] + bulks_encoding(args)
}

proof fn lemma_find_newline_at(s: Seq<u8>, pos: int, k: int)
    requires
        0 <= pos,
        0 <= k,
        pos + k < s.len(),
        s[pos + k] == 10,
        forall|j: int| pos <= j < pos + k ==> s[j] != 10,
    ensures
        find_newline(s, pos) == Some(pos + k),
    decreases k,
{
    if k > 0 {
        lemma_find_newline_at(s, pos + 1, k - 1);
    }
}

/// A bulk string written as a client writes it is read back whole, whatever
/// precedes or follows it.
pub proof fn lemma_bulk_roundtrip(prefix: Seq<u8>, arg: Seq<u8>, rest: Seq<u8>, eof: bool)
    requires
        arg.len() + 2 <= usize::MAX,
    ensures
        bulk_at(prefix + bulk_encoding(arg) + rest, prefix.len() as int, eof) == Bulk::Arg(
            arg,
            prefix.len() + bulk_encoding(arg).len() as int,
        ),
{
    let s = prefix + bulk_encoding(arg) + rest;
    let pos = prefix.len() as int;
    let d = decimal(arg.len());
    lemma_decimal_digits(arg.len());
    let k = d.len() + 2int;
    assert forall|j: int| pos <= j < pos + k implies s[j] != 10 by {
        if j == pos {
            assert(s[j] == 36);
        } else if j < pos + 1 + d.len() {
            assert(s[j] == d[j - pos - 1]);
            assert(is_digit(d[j - pos - 1]));
        } else {
            assert(s[j] == 13);
        }
    }
    assert(s[pos + k] == 10);
    lemma_find_newline_at(s, pos, k);
    let line = trim_line(s.subrange(pos, pos + k + 1));
    assert(line =~= seq![36u8] + d);
    assert(line.drop_first() =~= d + Seq::<u8>::empty());
    lemma_decimal_roundtrip(arg.len(), Seq::empty());
    let next = pos + k + 1;
    assert(s.subrange(next, next + arg.len()) =~= arg);
}

/// Bulk strings written one after the other are read back in order.
proof fn lemma_bulks_roundtrip(prefix: Seq<u8>, args: Seq<Seq<u8>>, rest: Seq<u8>, eof: bool)
    requires
        forall|i: int| 0 <= i < args.len() ==> (#[trigger] args[i]).len() + 2 <= usize::MAX,
    ensures
        args_at(prefix + bulks_encoding(args) + rest, prefix.len() as int, eof, args.len())
            == Args::Read(args, prefix.len() + bulks_encoding(args).len() as int),
    decreases args.len(),
{
    if args.len() == 0 {
        assert(args =~= Seq::<Seq<u8>>::empty());
    } else {
        let init = args.drop_last();
        let last = args.last();
        let s = prefix + bulks_encoding(args) + rest;
        assert(s =~= prefix + bulks_encoding(init) + (bulk_encoding(last) + rest));
        lemma_bulks_roundtrip(prefix, init, bulk_encoding(last) + rest, eof);
        assert(s =~= (prefix + bulks_encoding(init)) + bulk_encoding(last) + rest);
        lemma_bulk_roundtrip(prefix + bulks_encoding(init), last, rest, eof);
        assert(init.push(last) =~= args);
    }
}

/// Each argument is shorter than the bulk strings that hold it.
proof fn lemma_bulks_len(args: Seq<Seq<u8>>, i: int)
    requires
        0 <= i < args.len(),
    ensures
        args[i].len() + 5 <= bulks_encoding(args).len(),
    decreases args.len(),
{
    if i < args.len() - 1 {
        lemma_bulks_len(args.drop_last(), i);
    }
}

/// A request written as a client writes it is decoded to its arguments, whatever
/// follows it and whether or not the stream has ended, and exactly its bytes are
/// consumed. Any bytes a `Request` holds count no more than a `usize` can
/// (`Request::lemma_pending_bounded`), so the bound below holds of them.
pub proof fn lemma_frame_roundtrip(args: Seq<Seq<u8>>, rest: Seq<u8>, eof: bool)
    requires
        args.len() <= 9,
        (frame_encoding(args) + rest).len() <= usize::MAX,
    ensures
        frame_of(frame_encoding(args) + rest, eof) == (
            Frame::Array(args),
            frame_encoding(args).len() as int,
        ),
{
    let s = frame_encoding(args) + rest;
    let header = seq![42u8, (args.len() + 48) as u8, 13, 10];
    assert(s[3] == 10);
    lemma_find_newline_at(s, 0, 3);
    let line = trim_line(s.subrange(0, 4));
    assert(line =~= seq![42u8, (args.len() + 48) as u8]);
    assert(s =~= header + bulks_encoding(args) + rest);
    assert forall|i: int| 0 <= i < args.len() implies (#[trigger] args[i]).len() + 2
        <= usize::MAX by {
        lemma_bulks_len(args, i);
    }
    lemma_bulks_roundtrip(header, args, rest, eof);
    assert(((args.len() + 48) as u8 - 48) as nat == args.len());
}

/// The requests of a session, one after the other, as a client writes them.
pub open spec fn frames_encoding(frames: Seq<Seq<Seq<u8>>>) -> Seq<u8>
    decreases frames.len(),
{
    if frames.len() == 0 {
        Seq::empty()
    } else {
        frame_encoding(frames[0]) + frames_encoding(frames.drop_first())
    }
}

/// A session decodes in order: where a client has sent several requests, the next
/// decode gives the first of them and leaves exactly the others (and whatever
/// follows them) to decode; once nothing is left and the stream has ended, the
/// session ends. With the contract of `Request::decode`, which consumes what this
/// says, the commands come out one by one in the order they were sent.
pub proof fn lemma_session_in_order(frames: Seq<Seq<Seq<u8>>>, rest: Seq<u8>, eof: bool)
    requires
        frames.len() > 0,
        forall|k: int| 0 <= k < frames.len() ==> (#[trigger] frames[k]).len() <= 9,
        (frames_encoding(frames) + rest).len() <= usize::MAX,
    ensures
        frame_of(frames_encoding(frames) + rest, eof) == (
            Frame::Array(frames[0]),
            frame_encoding(frames[0]).len() as int,
        ),
        (frames_encoding(frames) + rest).skip(frame_encoding(frames[0]).len() as int)
            == frames_encoding(frames.drop_first()) + rest,
        frame_of(Seq::<u8>::empty(), true) == (Frame::End, 0int),
{
    let first = frame_encoding(frames[0]);
    let others = frames_encoding(frames.drop_first()) + rest;
    assert(frames_encoding(frames) + rest =~= first + others);
    lemma_frame_roundtrip(frames[0], others, eof);
    assert((first + others).skip(first.len() as int) =~= others);
    let empty = Seq::<u8>::empty();
    assert(find_newline(empty, 0) is None);
    assert(trim_line(empty.subrange(0, 0)) =~= Seq::<u8>::empty());
}

/// `PING` is answered whatever follows it: any arguments whose first is `PING`
/// are complete and make the command `PING`.
pub proof fn lemma_ping_whatever_follows(args: Seq<Seq<u8>>)
    requires
        args.len() >= 1,
        args[0] == seq![80u8, 73, 78, 71],
    ensures
        args_complete(args),
        command_of(args) == Some(CommandView::Ping),
{
    assert(args[0] != seq![83u8, 69, 84]);
    assert(args[0] != seq![71u8, 69, 84]);
}

/// `SET` stores its third argument, whole and unchanged, whatever its length or
/// contents; such arguments are always complete.
pub proof fn lemma_set_stores_third_argument(args: Seq<Seq<u8>>)
    requires
        args.len() >= 3,
        args[0] == seq![83u8, 69, 84],
    ensures
        args_complete(args),
        command_of(args) == Some(CommandView::Store(args[2])),
{
    assert(args[0] != seq![80u8, 73, 78, 71]);
    assert(args[0] != seq![71u8, 69, 84]);
}

/// `GET` fetches by the bytes that its second argument, as hexadecimal, stands
/// for, exactly; such arguments are always complete.
pub proof fn lemma_get_fetches_decoded_digest(args: Seq<Seq<u8>>, digest: Seq<u8>)
    requires
        args.len() >= 2,
        args[0] == seq![71u8, 69, 84],
        hex_decoded(args[1]) == Some(digest),
    ensures
        args_complete(args),
        command_of(args) == Some(CommandView::Fetch(digest)),
{
    assert(args[0] != seq![80u8, 73, 78, 71]);
    assert(args[0] != seq![83u8, 69, 84]);
}

/// A command other than `PING`, `SET` and `GET` is complete with any arguments
/// and is not supported, whatever follows it.
pub proof fn lemma_other_commands_not_supported(args: Seq<Seq<u8>>)
    requires
        args.len() >= 1,
        args[0] != seq![80u8, 73, 78, 71],
        args[0] != seq![83u8, 69, 84],
        args[0] != seq![71u8, 69, 84],
    ensures
        args_complete(args),
        command_of(args) == Some(CommandView::NotSupported),
{
}

/// `SET` with no value, or `GET` with text that is not an even number of
/// hexadecimal digits, is malformed.
pub proof fn lemma_malformed_arguments(args: Seq<Seq<u8>>)
    ensures
        args.len() == 1 && args[0] == seq![83u8, 69, 84] ==> args_complete(args) && command_of(args)
            is None,
        args.len() >= 2 && args[0] == seq![71u8, 69, 84] && hex_decoded(args[1]) is None
            ==> args_complete(args) && command_of(args) is None,
{
    if args.len() >= 1 {
        assert(seq![83u8, 69, 84] != seq![80u8, 73, 78, 71]);
        assert(seq![71u8, 69, 84] != seq![80u8, 73, 78, 71]);
        assert(seq![71u8, 69, 84] != seq![83u8, 69, 84]);
    }
}

/// A `SET` request as a client writes it, `SET key value`, decodes to storing
/// `value`, all of it, for a value of any length and contents, and can always be
/// decoded.
pub proof fn lemma_set_request_decodes(key: Seq<u8>, value: Seq<u8>, rest: Seq<u8>, eof: bool)
    requires
        (frame_encoding(seq![seq![83u8, 69, 84], key, value]) + rest).len() <= usize::MAX,
    ensures
        ({
            let args = seq![seq![83u8, 69, 84], key, value];
            let s = frame_encoding(args) + rest;
            &&& frame_of(s, eof) == (Frame::Array(args), frame_encoding(args).len() as int)
            &&& !decode_fails_hard(s, eof)
            &&& command_of(args) == Some(CommandView::Store(value))
        }),
{
    let args = seq![seq![83u8, 69, 84], key, value];
    lemma_frame_roundtrip(args, rest, eof);
    lemma_set_stores_third_argument(args);
}

/// A `GET` request for the key of a digest (its lowercase hexadecimal text)
/// decodes to fetching that digest, exactly, and can always be decoded.
pub proof fn lemma_get_request_decodes(digest: Seq<u8>, rest: Seq<u8>, eof: bool)
    requires
        (frame_encoding(seq![seq![71u8, 69, 84], ascii_bytes(hex_chars(digest))]) + rest).len()
            <= usize::MAX,
    ensures
        ({
            let args = seq![seq![71u8, 69, 84], ascii_bytes(hex_chars(digest))];
            let s = frame_encoding(args) + rest;
            &&& frame_of(s, eof) == (Frame::Array(args), frame_encoding(args).len() as int)
            &&& !decode_fails_hard(s, eof)
            &&& command_of(args) == Some(CommandView::Fetch(digest))
        }),
{
    let args = seq![seq![71u8, 69, 84], ascii_bytes(hex_chars(digest))];
    lemma_frame_roundtrip(args, rest, eof);
    lemma_hex_roundtrip(digest);
    lemma_get_fetches_decoded_digest(args, digest);
}

proof fn lemma_find_newline_extend(s: Seq<u8>, more: Seq<u8>, pos: int)
    requires
        find_newline(s, pos) is Some,
    ensures
        find_newline(s + more, pos) == find_newline(s, pos),
    decreases s.len() - pos,
{
    if 0 <= pos < s.len() && s[pos] != 10 {
        lemma_find_newline_extend(s, more, pos + 1);
    }
}

proof fn lemma_line_extend(s: Seq<u8>, more: Seq<u8>, pos: int, eof: bool)
    requires
        0 <= pos <= s.len(),
        line_at(s, pos, false) is Some,
    ensures
        line_at(s + more, pos, eof) == line_at(s, pos, false),
{
    lemma_find_newline_extend(s, more, pos);
    lemma_find_newline_bounded(s, pos);
    let i = find_newline(s, pos)->0;
    assert((s + more).subrange(pos, i + 1) =~= s.subrange(pos, i + 1));
}

proof fn lemma_bulk_extend(s: Seq<u8>, more: Seq<u8>, pos: int, eof: bool)
    requires
        0 <= pos <= s.len(),
        !(bulk_at(s, pos, false) is Incomplete),
    ensures
        bulk_at(s + more, pos, eof) == bulk_at(s, pos, false),
{
    lemma_line_extend(s, more, pos, eof);
    lemma_line_next_bounded(s, pos, false);
    if let Bulk::Arg(a, q) = bulk_at(s, pos, false) {
        let (_, next) = line_at(s, pos, false)->0;
        let size = a.len() as int;
        assert((s + more).subrange(next, next + size) =~= s.subrange(next, next + size));
    }
}

proof fn lemma_bulk_bounded(s: Seq<u8>, pos: int, eof: bool)
    requires
        0 <= pos <= s.len(),
    ensures
        bulk_at(s, pos, eof) matches Bulk::Arg(_, q) ==> pos <= q <= s.len(),
        bulk_at(s, pos, eof) matches Bulk::Malformed(q) ==> pos <= q <= s.len(),
{
    lemma_line_next_bounded(s, pos, eof);
}

proof fn lemma_args_extend(s: Seq<u8>, more: Seq<u8>, pos: int, eof: bool, n: nat)
    requires
        0 <= pos <= s.len(),
        !(args_at(s, pos, false, n) is Incomplete),
    ensures
        args_at(s + more, pos, eof, n) == args_at(s, pos, false, n),
        args_at(s, pos, false, n) matches Args::Read(_, q) ==> pos <= q <= s.len(),
    decreases n,
{
    if n > 0 {
        let m = (n - 1) as nat;
        if args_at(s, pos, false, m) is Incomplete {
            assert(args_at(s, pos, false, n) is Incomplete);
        }
        lemma_args_extend(s, more, pos, eof, m);
        if let Args::Read(_, p) = args_at(s, pos, false, m) {
            lemma_bulk_extend(s, more, p, eof);
            lemma_bulk_bounded(s, p, false);
        }
    }
}

/// Decoding does not run ahead of the bytes received: where the bytes received so
/// far decide a frame, more bytes, or the end of the stream, leave it as it is.
/// So waiting for more input where a frame is incomplete loses nothing.
pub proof fn lemma_decode_prefix_stable(s: Seq<u8>, more: Seq<u8>, eof: bool)
    requires
        !(frame_of(s, false).0 is Incomplete),
    ensures
        frame_of(s + more, eof) == frame_of(s, false),
{
    lemma_line_extend(s, more, 0, eof);
    lemma_line_next_bounded(s, 0, false);
    let (line, next) = line_at(s, 0, false)->0;
    if line.len() >= 2 && line[0] == 42 && is_digit(line[1]) {
        lemma_args_extend(s, more, next, eof, (line[1] - 48) as nat);
    }
}

} // verus!
