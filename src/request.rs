//! Requests, and the incremental parser that assembles one from the bytes
//! of a connection, whatever the boundaries of the reads.
use vstd::prelude::*;
use vstd::utf8::{decode_utf8, encode_utf8, valid_utf8};
use crate::{method_named, HttpMethod, HttpVersion};
use crate::header::{crlf_bytes, header_bytes, separator_bytes, Header, HeaderPair, HeaderSet};
use crate::response::headers_bytes;
use crate::text::{append_bytes, append_chars, chars_of, decode_chunk, slice_bytes, slice_chars, string_of};

verus! {

/// What is wrong with a malformed request line.
#[derive(Debug, Clone, Copy, PartialEq, Eq, Structural)]
pub enum RequestLineFault {
    /// The line holds a method token alone: the path is missing.
    MissingPath,
    /// The line holds a method and a path: the version is missing.
    MissingVersion,
    /// More than three space-separated tokens.
    ExtraToken,
    /// The first token names no known method.
    UnknownMethod,
}

/// Why a connection's bytes could not be made into a request.
#[derive(Debug, Clone, Copy, PartialEq, Eq, Structural)]
pub enum RequestError {
    /// The stream ended before a request line was read.
    Unfinished,
    /// Reading from the connection failed.
    SocketReadError,
    /// A line, or what is left after the last line, is not UTF-8.
    InvalidUtf8,
    /// The path token is empty.
    BadPath,
    /// The version token is not `HTTP/1.1`.
    BadVersion,
    /// A header line has no `: ` separator.
    BadHeader,
    /// The request line is malformed.
    RlParseError(RequestLineFault),
}

/// The method of a request: one of the nine methods.
pub type RequestMethod = HttpMethod;

/// The parser's position in the message.
#[derive(Debug, Clone, Copy, PartialEq, Eq, Structural)]
pub enum Phase {
    RequestLine,
    Headers,
    Body,
}

/// What a request holds, as mathematical values.
pub struct RequestView {
    pub method: HttpMethod,
    pub path: Seq<char>,
    pub version: HttpVersion,
    pub headers: Set<HeaderPair>,
    pub body: Seq<char>,
}

/// What the parser has gathered from the complete lines seen so far.
pub struct Progress {
    pub phase: Phase,
    pub line: Option<(HttpMethod, Seq<char>, HttpVersion)>,
    pub headers: Set<HeaderPair>,
    pub body: Seq<char>,
}

/// The parser's state: the bytes after the last line terminator, not yet
/// decoded, and the progress made on the lines before it.
pub type ParserState = (Seq<u8>, Progress);

pub open spec fn initial_progress() -> Progress {
    Progress { phase: Phase::RequestLine, line: None, headers: Set::empty(), body: Seq::empty() }
}

pub open spec fn initial_state() -> ParserState {
    (Seq::empty(), initial_progress())
}

// ---------------------------------------------------------------------------
// Lines
//
// Lines are cut on bytes: the bytes of `\r` and `\n` never occur inside the
// UTF-8 encoding of another character, so a read may end anywhere, even
// inside a character, and the bytes wait for the rest of their line.

/// A line terminator starts at `i`.
pub open spec fn crlf_at(s: Seq<u8>, i: int) -> bool {
    0 <= i && i + 1 < s.len() && s[i] == 13u8 && s[i + 1] == 10u8
}

/// The first line terminator at or after `i`.
pub open spec fn crlf_from(s: Seq<u8>, i: int) -> Option<int>
    decreases s.len() - i,
{
    if i < 0 || i + 1 >= s.len() {
        None
    } else if crlf_at(s, i) {
        Some(i)
    } else {
        crlf_from(s, i + 1)
    }
}

/// The first line terminator of `s`.
pub open spec fn first_crlf(s: Seq<u8>) -> Option<int> {
    crlf_from(s, 0)
}

proof fn lemma_crlf_from_bounds(s: Seq<u8>, i: int)
    ensures
        crlf_from(s, i) matches Some(k) ==> i <= k && crlf_at(s, k),
    decreases s.len() - i,
{
    if !(i < 0 || i + 1 >= s.len()) && !crlf_at(s, i) {
        lemma_crlf_from_bounds(s, i + 1);
    }
}

/// A terminator found within `s` is found at the same place in `s + u`.
proof fn lemma_crlf_from_extend(s: Seq<u8>, u: Seq<u8>, i: int)
    requires
        crlf_from(s, i) is Some,
    ensures
        crlf_from(s + u, i) == crlf_from(s, i),
    decreases s.len() - i,
{
    let t = s + u;
    assert(t[i] == s[i]);
    assert(t[i + 1] == s[i + 1]);
    if !crlf_at(s, i) {
        lemma_crlf_from_extend(s, u, i + 1);
    }
}

// ---------------------------------------------------------------------------
// Tokens

/// `s` cut at every `c`; an empty text gives one empty piece.
pub open spec fn split_on(s: Seq<char>, c: char) -> Seq<Seq<char>>
    decreases s.len(),
{
    if s.len() == 0 {
        seq![Seq::<char>::empty()]
    } else {
        let t = split_on(s.drop_last(), c);
        if s.last() == c {
            t.push(Seq::<char>::empty())
        } else {
            t.update(t.len() - 1, t.last().push(s.last()))
        }
    }
}

pub proof fn lemma_split_on_nonempty(s: Seq<char>, c: char)
    ensures
        split_on(s, c).len() >= 1,
    decreases s.len(),
{
    if s.len() > 0 {
        lemma_split_on_nonempty(s.drop_last(), c);
    }
}

/// The non-empty pieces of `ts`, in order.
pub open spec fn nonempty_pieces(ts: Seq<Seq<char>>) -> Seq<Seq<char>>
    decreases ts.len(),
{
    if ts.len() == 0 {
        Seq::empty()
    } else {
        let r = nonempty_pieces(ts.drop_last());
        if ts.last().len() > 0 {
            r.push(ts.last())
        } else {
            r
        }
    }
}

/// The segments of a path: the non-empty pieces between slashes.
pub open spec fn path_segments(path: Seq<char>) -> Seq<Seq<char>> {
    nonempty_pieces(split_on(path, '/'))
}

/// The request line: method, path and version, separated by single spaces.
pub open spec fn parse_request_line(line: Seq<char>) -> Result<
    (HttpMethod, Seq<char>, HttpVersion),
    RequestError,
> {
    let t = split_on(line, ' ');
    if t.len() < 2 {
        Err(RequestError::RlParseError(RequestLineFault::MissingPath))
    } else if t.len() < 3 {
        Err(RequestError::RlParseError(RequestLineFault::MissingVersion))
    } else if t.len() > 3 {
        Err(RequestError::RlParseError(RequestLineFault::ExtraToken))
    } else {
        match method_named(t[0]) {
            None => Err(RequestError::RlParseError(RequestLineFault::UnknownMethod)),
            Some(m) => if t[1].len() == 0 {
                Err(RequestError::BadPath)
            } else if t[2] != HttpVersion::OnePointOne.name() {
                Err(RequestError::BadVersion)
            } else {
                Ok((m, t[1], HttpVersion::OnePointOne))
            },
        }
    }
}

/// A `: ` separator starts at `i`.
pub open spec fn sep_at(s: Seq<char>, i: int) -> bool {
    0 <= i && i + 1 < s.len() && s[i] == ':' && s[i + 1] == ' '
}

/// The last separator that starts below `i`.
pub open spec fn last_sep_below(s: Seq<char>, i: int) -> Option<int>
    decreases i,
{
    if i <= 0 {
        None
    } else if sep_at(s, i - 1) {
        Some(i - 1)
    } else {
        last_sep_below(s, i - 1)
    }
}

proof fn lemma_last_sep_below_bounds(s: Seq<char>, i: int)
    ensures
        last_sep_below(s, i) matches Some(k) ==> k < i && sep_at(s, k),
        last_sep_below(s, i) is None ==> forall|k: int| 0 <= k < i ==> !sep_at(s, k),
    decreases i,
{
    if i > 0 && !sep_at(s, i - 1) {
        lemma_last_sep_below_bounds(s, i - 1);
    }
}

/// A header line, split at the last `: ` into name and value.
pub open spec fn parse_header_line(line: Seq<char>) -> Option<HeaderPair> {
    match last_sep_below(line, line.len() as int) {
        Some(i) => Some((line.subrange(0, i), line.subrange(i + 2, line.len() as int))),
        None => None,
    }
}

// ---------------------------------------------------------------------------
// The state machine

/// Handles the text of one complete line.
pub open spec fn step_text(p: Progress, line: Seq<char>) -> Result<Progress, RequestError> {
    match p.phase {
        Phase::RequestLine => match parse_request_line(line) {
            Ok(rl) => Ok(Progress { phase: Phase::Headers, line: Some(rl), ..p }),
            Err(e) => Err(e),
        },
        Phase::Headers => if line.len() == 0 {
            Ok(Progress { phase: Phase::Body, ..p })
        } else {
            match parse_header_line(line) {
                Some(h) => Ok(Progress { headers: p.headers.insert(h), ..p }),
                None => Err(RequestError::BadHeader),
            }
        },
        Phase::Body => Ok(Progress { body: p.body + line, ..p }),
    }
}

/// Handles the bytes of one complete line: they must be UTF-8.
pub open spec fn step(p: Progress, line: Seq<u8>) -> Result<Progress, RequestError> {
    if valid_utf8(line) {
        step_text(p, decode_utf8(line))
    } else {
        Err(RequestError::InvalidUtf8)
    }
}

/// Handles every complete line of `carry`, keeping what follows the last
/// terminator.
pub open spec fn drain(carry: Seq<u8>, p: Progress) -> Result<ParserState, RequestError>
    decreases carry.len(),
{
    match first_crlf(carry) {
        None => Ok((carry, p)),
        Some(i) => if 0 <= i && i + 2 <= carry.len() {
            match step(p, carry.subrange(0, i)) {
                Ok(q) => drain(carry.subrange(i + 2, carry.len() as int), q),
                Err(e) => Err(e),
            }
        } else {
            Ok((carry, p))
        },
    }
}

/// The state after one read.
pub open spec fn feed_spec(st: ParserState, chunk: Seq<u8>) -> Result<ParserState, RequestError> {
    drain(st.0 + chunk, st.1)
}

/// The state after a sequence of reads, from the start.
pub open spec fn run_chunks(chunks: Seq<Seq<u8>>) -> Result<ParserState, RequestError>
    decreases chunks.len(),
{
    if chunks.len() == 0 {
        Ok(initial_state())
    } else {
        match run_chunks(chunks.drop_last()) {
            Ok(st) => feed_spec(st, chunks.last()),
            Err(e) => Err(e),
        }
    }
}

/// All the chunks, one after the other.
pub open spec fn concat_chunks(chunks: Seq<Seq<u8>>) -> Seq<u8>
    decreases chunks.len(),
{
    if chunks.len() == 0 {
        Seq::empty()
    } else {
        concat_chunks(chunks.drop_last()) + chunks.last()
    }
}

/// The request made from what the parser gathered.
pub open spec fn finish(p: Progress) -> Result<RequestView, RequestError> {
    match p.line {
        None => Err(RequestError::Unfinished),
        Some((m, path, v)) => Ok(
            RequestView { method: m, path: path, version: v, headers: p.headers, body: p.body },
        ),
    }
}

/// The request at the end of the stream: bytes left after the last line
/// terminator must still be UTF-8, else a character was cut off.
pub open spec fn finish_state(st: ParserState) -> Result<RequestView, RequestError> {
    if valid_utf8(st.0) {
        finish(st.1)
    } else {
        Err(RequestError::InvalidUtf8)
    }
}

/// The outcome of parsing a stream delivered in the given reads.
pub open spec fn parse_spec(chunks: Seq<Seq<u8>>) -> Result<RequestView, RequestError> {
    match run_chunks(chunks) {
        Ok(st) => finish_state(st),
        Err(e) => Err(e),
    }
}

/// Handling `c` and then more bytes `t` is handling `c + t`.
proof fn lemma_drain_append(c: Seq<u8>, t: Seq<u8>, p: Progress)
    ensures
        drain(c + t, p) == match drain(c, p) {
            Ok(st) => drain(st.0 + t, st.1),
            Err(e) => Err(e),
        },
    decreases c.len(),
{
    lemma_crlf_from_bounds(c, 0);
    match first_crlf(c) {
        None => {},
        Some(i) => {
            lemma_crlf_from_extend(c, t, 0);
            let ct = c + t;
            assert(ct.subrange(0, i) =~= c.subrange(0, i));
            assert(ct.subrange(i + 2, ct.len() as int) =~= c.subrange(i + 2, c.len() as int) + t);
            match step(p, c.subrange(0, i)) {
                Ok(q) => {
                    lemma_drain_append(c.subrange(i + 2, c.len() as int), t, q);
                },
                Err(e) => {},
            }
        },
    }
}

proof fn lemma_encode_concat(x: Seq<char>, y: Seq<char>)
    ensures
        encode_utf8(x + y) == encode_utf8(x) + encode_utf8(y),
    decreases x.len(),
{
    if x.len() == 0 {
        assert(x + y =~= y);
    } else {
        assert((x + y).drop_first() =~= x.drop_first() + y);
        lemma_encode_concat(x.drop_first(), y);
        assert(encode_utf8(x + y) =~= encode_utf8(x) + encode_utf8(y));
    }
}

/// Where the reads of a stream end does not matter: any split of the same
/// bytes into reads, even inside a line or inside a character, leaves the
/// parser in the same state as the bytes in a single read, and so gives the
/// same request or the same error.
pub proof fn lemma_chunk_boundaries(chunks: Seq<Seq<u8>>)
    ensures
        run_chunks(chunks) == run_chunks(seq![concat_chunks(chunks)]),
        parse_spec(chunks) == parse_spec(seq![concat_chunks(chunks)]),
    decreases chunks.len(),
{
    let one = seq![concat_chunks(chunks)];
    assert(one.drop_last() =~= Seq::<Seq<u8>>::empty());
    assert(run_chunks(one.drop_last()) == Ok::<ParserState, RequestError>(initial_state()));
    if chunks.len() == 0 {
        assert(Seq::<u8>::empty() + Seq::<u8>::empty() =~= Seq::<u8>::empty());
        assert(first_crlf(Seq::<u8>::empty()) is None);
        assert(drain(Seq::<u8>::empty(), initial_progress()) == Ok::<ParserState, RequestError>(initial_state()));
    } else {
        let front = chunks.drop_last();
        let x = chunks.last();
        let a = concat_chunks(front);
        lemma_chunk_boundaries(front);
        let front_one = seq![a];
        assert(front_one.drop_last() =~= Seq::<Seq<u8>>::empty());
        assert(Seq::<u8>::empty() + a =~= a);
        assert(Seq::<u8>::empty() + (a + x) =~= a + x);
        lemma_drain_append(a, x, initial_progress());
        assert(concat_chunks(chunks) == a + x);
        assert(run_chunks(front_one.drop_last()) == Ok::<ParserState, RequestError>(initial_state()));
        assert(run_chunks(front_one) == drain(a, initial_progress()));
        assert(run_chunks(one) == drain(a + x, initial_progress()));
    }
}

// ---------------------------------------------------------------------------
// Header lines

/// A header's line, without its terminator.
pub open spec fn header_line(h: HeaderPair) -> Seq<char> {
    h.0 + seq![':', ' '] + h.1
}

/// The header's encoded line holds no terminator, and its value no `: `, so
/// that the line reads back as the same header.
pub open spec fn header_reads_back(h: HeaderPair) -> bool {
    &&& forall|i: int| !crlf_at(encode_utf8(header_line(h)), i)
    &&& forall|i: int| !sep_at(h.1, i)
}

proof fn lemma_crlf_from_found(s: Seq<u8>, i: int, k: int)
    requires
        0 <= i <= k,
        crlf_at(s, k),
        forall|j: int| i <= j < k ==> !crlf_at(s, j),
    ensures
        crlf_from(s, i) == Some(k),
    decreases k - i,
{
    if i < k {
        lemma_crlf_from_found(s, i + 1, k);
    }
}

proof fn lemma_last_sep_found(s: Seq<char>, i: int, k: int)
    requires
        0 <= k < i,
        sep_at(s, k),
        forall|j: int| k < j < i ==> !sep_at(s, j),
    ensures
        last_sep_below(s, i) == Some(k),
    decreases i - k,
{
    if k < i - 1 {
        lemma_last_sep_found(s, i - 1, k);
    }
}

proof fn lemma_header_line_parses(h: HeaderPair)
    requires
        header_reads_back(h),
    ensures
        parse_header_line(header_line(h)) == Some(h),
{
    let line = header_line(h);
    let n = h.0.len() as int;
    assert(sep_at(line, n));
    assert forall|j: int| n < j < line.len() implies !sep_at(line, j) by {
        if j >= n + 2 && sep_at(line, j) {
            assert(sep_at(h.1, j - n - 2));
        }
    }
    lemma_last_sep_found(line, line.len() as int, n);
    assert(line.subrange(0, n) =~= h.0);
    assert(line.subrange(n + 2, line.len() as int) =~= h.1);
}

proof fn lemma_ascii_encode(c: Seq<char>, b: Seq<u8>)
    requires
        vstd::utf8::is_ascii_chars(c),
        c.len() == b.len(),
        forall|i: int| 0 <= i < c.len() ==> c[i] as u8 == b[i],
    ensures
        encode_utf8(c) == b,
{
    vstd::utf8::is_ascii_chars_encode_utf8(c);
    assert(encode_utf8(c) =~= b);
}

/// A header's wire form is its encoded line and a terminator.
proof fn lemma_header_bytes_line(h: HeaderPair)
    ensures
        header_bytes(h) == encode_utf8(header_line(h)) + crlf_bytes(),
{
    let sep = seq![':', ' '];
    lemma_ascii_encode(sep, separator_bytes());
    lemma_encode_concat(h.0, sep);
    lemma_encode_concat(h.0 + sep, h.1);
    assert(header_bytes(h) =~= encode_utf8(header_line(h)) + crlf_bytes());
}

/// A header's wire form, in the header block, adds the header.
proof fn lemma_drain_header_line(h: HeaderPair, p: Progress)
    requires
        header_reads_back(h),
        p.phase == Phase::Headers,
    ensures
        drain(header_bytes(h), p) == Ok::<ParserState, RequestError>(
            (Seq::empty(), Progress { headers: p.headers.insert(h), ..p }),
        ),
{
    lemma_header_bytes_line(h);
    let line = encode_utf8(header_line(h));
    let s = header_bytes(h);
    let k = line.len() as int;
    assert(crlf_at(s, k));
    assert forall|j: int| 0 <= j < k implies !crlf_at(s, j) by {
        if j + 1 < k {
            if crlf_at(s, j) {
                assert(crlf_at(line, j));
            }
        } else {
            assert(s[j + 1] == 13u8);
        }
    }
    lemma_crlf_from_found(s, 0, k);
    assert(s.subrange(0, k) =~= line);
    vstd::utf8::encode_utf8_valid_utf8(header_line(h));
    vstd::utf8::encode_utf8_decode_utf8(header_line(h));
    lemma_header_line_parses(h);
    assert(header_line(h).len() > 0);
    assert(s.subrange(k + 2, s.len() as int) =~= Seq::<u8>::empty());
    let q = Progress { headers: p.headers.insert(h), ..p };
    assert(drain(Seq::<u8>::empty(), q) == Ok::<ParserState, RequestError>((Seq::empty(), q)));
}

proof fn lemma_drain_headers(hs: Seq<HeaderPair>, p: Progress)
    requires
        p.phase == Phase::Headers,
        forall|i: int| 0 <= i < hs.len() ==> header_reads_back(#[trigger] hs[i]),
    ensures
        drain(headers_bytes(hs), p) == Ok::<ParserState, RequestError>(
            (Seq::empty(), Progress { headers: p.headers + hs.to_set(), ..p }),
        ),
    decreases hs.len(),
{
    if hs.len() == 0 {
        assert(p.headers + hs.to_set() =~= p.headers);
        assert(drain(Seq::<u8>::empty(), p) == Ok::<ParserState, RequestError>((Seq::empty(), p)));
    } else {
        let front = hs.drop_last();
        let h = hs.last();
        assert forall|i: int| 0 <= i < front.len() implies header_reads_back(#[trigger] front[i]) by {
            assert(front[i] == hs[i]);
        }
        assert(header_reads_back(hs[hs.len() - 1]));
        lemma_drain_headers(front, p);
        let mid = Progress { headers: p.headers + front.to_set(), ..p };
        lemma_drain_append(headers_bytes(front), header_bytes(h), p);
        assert(Seq::<u8>::empty() + header_bytes(h) =~= header_bytes(h));
        lemma_drain_header_line(h, mid);
        assert(mid.headers.insert(h) =~= p.headers + hs.to_set()) by {
            assert forall|x: HeaderPair| hs.to_set().contains(x) <==> (front.to_set().contains(x) || x == h) by {
                if hs.to_set().contains(x) {
                    let i = choose|i: int| 0 <= i < hs.len() && hs[i] == x;
                    if i < front.len() {
                        assert(front[i] == x);
                    }
                }
                if front.to_set().contains(x) {
                    let i = choose|i: int| 0 <= i < front.len() && front[i] == x;
                    assert(hs[i] == x);
                }
                if x == h {
                    assert(hs[hs.len() - 1] == x);
                }
            }
        }
    }
}

/// Header lines read back as the headers they were written from: the wire
/// form of a sequence of headers, read in the header block, adds exactly
/// those headers and leaves nothing over.
pub proof fn lemma_headers_round_trip(hs: Seq<HeaderPair>, p: Progress)
    requires
        p.phase == Phase::Headers,
        forall|i: int| 0 <= i < hs.len() ==> header_reads_back(#[trigger] hs[i]),
    ensures
        feed_spec((Seq::empty(), p), headers_bytes(hs)) == Ok::<ParserState, RequestError>(
            (Seq::empty(), Progress { headers: p.headers + hs.to_set(), ..p }),
        ),
{
    assert(Seq::<u8>::empty() + headers_bytes(hs) =~= headers_bytes(hs));
    lemma_drain_headers(hs, p);
}

/// The headers of a set, written out and read back in the header block of
/// an empty parse, give the same set.
pub proof fn lemma_header_set_round_trip(set: HeaderSet, p: Progress)
    requires
        p.phase == Phase::Headers,
        p.headers == Set::<HeaderPair>::empty(),
        forall|i: int| 0 <= i < set.pairs().len() ==> header_reads_back(#[trigger] set.pairs()[i]),
    ensures
        feed_spec((Seq::empty(), p), headers_bytes(set.pairs())) matches Ok(st) && st.1.headers
            == set.contents(),
{
    lemma_headers_round_trip(set.pairs(), p);
    set.lemma_contents_pairs();
    assert(Set::<HeaderPair>::empty() + set.pairs().to_set() =~= set.pairs().to_set());
}

// ---------------------------------------------------------------------------
// Executable parsing

/// The first line terminator of `s`.
pub fn find_crlf(s: &[u8]) -> (r: Option<usize>)
    ensures
        r matches Some(i) ==> first_crlf(s@) == Some(i as int),
        r is None ==> first_crlf(s@) is None,
{
    let mut i: usize = 0;
    while i < s.len() && i + 1 < s.len()
        invariant
            0 <= i <= s@.len(),
            crlf_from(s@, 0) == crlf_from(s@, i as int),
        decreases s@.len() - i,
    {
        if s[i] == 13u8 && s[i + 1] == 10u8 {
            return Some(i);
        }
        i = i + 1;
    }
    None
}

/// `s` cut at every `c`.
pub fn split_chars(s: &[char], c: char) -> (r: Vec<Vec<char>>)
    ensures
        r@.map_values(|v: Vec<char>| v@) == split_on(s@, c),
{
    let mut toks: Vec<Vec<char>> = Vec::new();
    let mut cur: Vec<char> = Vec::new();
    let mut i: usize = 0;
    assert(s@.subrange(0, 0) =~= Seq::<char>::empty());
    assert(toks@.map_values(|v: Vec<char>| v@).push(cur@) =~= seq![Seq::<char>::empty()]);
    while i < s.len()
        invariant
            0 <= i <= s@.len(),
            toks@.map_values(|v: Vec<char>| v@).push(cur@) == split_on(s@.subrange(0, i as int), c),
        decreases s@.len() - i,
    {
        let ghost prev = s@.subrange(0, i as int);
        let ghost next = s@.subrange(0, i + 1);
        assert(next.drop_last() =~= prev);
        assert(next.last() == s@[i as int]);
        let ghost old_toks = toks@.map_values(|v: Vec<char>| v@);
        if s[i] == c {
            let done = cur;
            toks.push(done);
            cur = Vec::new();
            assert(toks@.map_values(|v: Vec<char>| v@).push(cur@) =~= old_toks.push(done@).push(
                Seq::<char>::empty(),
            ));
        } else {
            cur.push(s[i]);
            assert(toks@.map_values(|v: Vec<char>| v@).push(cur@) =~= old_toks.push(cur@));
            assert(old_toks.push(cur@) =~= split_on(prev, c).update(
                split_on(prev, c).len() - 1,
                split_on(prev, c).last().push(s@[i as int]),
            ));
        }
        i = i + 1;
    }
    assert(s@.subrange(0, i as int) =~= s@);
    toks.push(cur);
    toks
}

/// The non-empty pieces between slashes of a path.
pub fn segments_of(path: &[char]) -> (r: Vec<Vec<char>>)
    ensures
        r@.map_values(|v: Vec<char>| v@) == path_segments(path@),
{
    let pieces = split_chars(path, '/');
    let ghost ps = pieces@.map_values(|v: Vec<char>| v@);
    let mut r: Vec<Vec<char>> = Vec::new();
    let mut i: usize = 0;
    assert(ps.subrange(0, 0) =~= Seq::<Seq<char>>::empty());
    assert(r@.map_values(|v: Vec<char>| v@) =~= Seq::<Seq<char>>::empty());
    while i < pieces.len()
        invariant
            0 <= i <= pieces@.len(),
            ps == pieces@.map_values(|v: Vec<char>| v@),
            r@.map_values(|v: Vec<char>| v@) == nonempty_pieces(ps.subrange(0, i as int)),
        decreases pieces@.len() - i,
    {
        assert(ps.subrange(0, i + 1).drop_last() =~= ps.subrange(0, i as int));
        assert(ps.subrange(0, i + 1).last() == ps[i as int]);
        let ghost before = r@.map_values(|v: Vec<char>| v@);
        if pieces[i].len() > 0 {
            let piece = slice_chars(pieces[i].as_slice(), 0, pieces[i].len());
            assert(piece@ =~= ps[i as int]);
            r.push(piece);
            assert(r@.map_values(|v: Vec<char>| v@) =~= before.push(ps[i as int]));
        }
        i = i + 1;
    }
    assert(ps.subrange(0, i as int) =~= ps);
    r
}

/// The last `: ` separator of `s`.
fn last_separator(s: &[char]) -> (r: Option<usize>)
    ensures
        r matches Some(i) ==> last_sep_below(s@, s@.len() as int) == Some(i as int),
        r is None ==> last_sep_below(s@, s@.len() as int) is None,
{
    let mut i: usize = s.len();
    while i > 0
        invariant
            0 <= i <= s@.len(),
            last_sep_below(s@, s@.len() as int) == last_sep_below(s@, i as int),
        decreases i,
    {
        if i < s.len() && s[i - 1] == ':' && s[i] == ' ' {
            return Some(i - 1);
        }
        i = i - 1;
    }
    None
}

/// Splits a header line at its last `: `.
pub fn header_from_line(line: &[char]) -> (r: Option<Header>)
    ensures
        r matches Some(h) ==> parse_header_line(line@) == Some(h@),
        r is None ==> parse_header_line(line@) is None,
{
    match last_separator(line) {
        None => None,
        Some(i) => {
            proof {
                lemma_last_sep_below_bounds(line@, line@.len() as int);
                assert(sep_at(line@, i as int));
            }
            let n = line.len();
            let name = slice_chars(line, 0, i);
            let value = slice_chars(line, i + 2, n);
            Some(Header::new(string_of(name.as_slice()), string_of(value.as_slice())))
        },
    }
}

/// Reads the request line.
pub fn request_line_from(line: &[char]) -> (r: Result<(HttpMethod, Vec<char>, HttpVersion), RequestError>)
    ensures
        match parse_request_line(line@) {
            Ok((m, p, v)) => r matches Ok(t) && t.0 == m && t.1@ == p && t.2 == v,
            Err(e) => r == Err::<(HttpMethod, Vec<char>, HttpVersion), RequestError>(e),
        },
{
    let toks = split_chars(line, ' ');
    let ghost ts = toks@.map_values(|v: Vec<char>| v@);
    if toks.len() < 2 {
        return Err(RequestError::RlParseError(RequestLineFault::MissingPath));
    }
    if toks.len() < 3 {
        return Err(RequestError::RlParseError(RequestLineFault::MissingVersion));
    }
    if toks.len() > 3 {
        return Err(RequestError::RlParseError(RequestLineFault::ExtraToken));
    }
    assert(ts[0] == toks@[0]@);
    assert(ts[1] == toks@[1]@);
    assert(ts[2] == toks@[2]@);
    match HttpMethod::from_chars(toks[0].as_slice()) {
        None => Err(RequestError::RlParseError(RequestLineFault::UnknownMethod)),
        Some(m) => {
            if toks[1].len() == 0 {
                return Err(RequestError::BadPath);
            }
            let version = HttpVersion::OnePointOne.name_chars();
            if !crate::chars_equal(toks[2].as_slice(), version.as_slice()) {
                return Err(RequestError::BadVersion);
            }
            let path = slice_chars(toks[1].as_slice(), 0, toks[1].len());
            assert(path@ =~= ts[1]);
            Ok((m, path, HttpVersion::OnePointOne))
        },
    }
}

// ---------------------------------------------------------------------------
// Requests

/// A parsed request. Its parts cannot change once it is made.
#[derive(Debug, Clone)]
pub struct Request {
    method: HttpMethod,
    path: String,
    version: HttpVersion,
    headers: HeaderSet,
    body: String,
}

impl View for Request {
    type V = RequestView;

    closed spec fn view(&self) -> RequestView {
        RequestView {
            method: self.method,
            path: self.path@,
            version: self.version,
            headers: self.headers.contents(),
            body: self.body@,
        }
    }
}

impl Request {
    pub fn new(method: HttpMethod, path: String, version: HttpVersion, headers: HeaderSet, body: String) -> (r: Request)
        ensures
            r@ == (RequestView {
                method: method,
                path: path@,
                version: version,
                headers: headers.contents(),
                body: body@,
            }),
    {
        Request { method, path, version, headers, body }
    }

    pub fn method(&self) -> (r: HttpMethod)
        ensures
            r == self@.method,
    {
        self.method
    }

    /// The path as it stood on the request line.
    pub fn get_path(&self) -> (r: String)
        ensures
            r@ == self@.path,
    {
        self.path.clone()
    }

    pub fn version(&self) -> (r: HttpVersion)
        ensures
            r == self@.version,
    {
        self.version
    }

    pub fn headers(&self) -> (r: &HeaderSet)
        ensures
            r.contents() == self@.headers,
    {
        &self.headers
    }

    pub fn body(&self) -> (r: &String)
        ensures
            r@ == self@.body,
    {
        &self.body
    }

    /// The headers in their sorted order.
    pub closed spec fn header_pairs(&self) -> Seq<HeaderPair> {
        self.headers.pairs()
    }

    /// The request as text, for logs.
    pub fn to_text(&self) -> (r: String)
        ensures
            r@ == request_text(self@.method, self@.path, self@.version, self.header_pairs(), self@.body),
    {
        let mut out: Vec<char> = Vec::new();
        let m = self.method.name_chars();
        append_chars(&mut out, m.as_slice());
        out.push(' ');
        let p = chars_of(self.path.as_str());
        append_chars(&mut out, p.as_slice());
        out.push(' ');
        let v = self.version.name_chars();
        append_chars(&mut out, v.as_slice());
        out.push('\n');
        let ghost head = out@;
        let hs = self.headers.as_slice();
        let ghost pairs = self.headers.pairs();
        let mut i: usize = 0;
        assert(pairs.subrange(0, 0) =~= Seq::<HeaderPair>::empty());
        assert(out@ =~= head + header_lines_text(pairs.subrange(0, 0)));
        while i < hs.len()
            invariant
                0 <= i <= hs@.len(),
                hs@.map_values(|h: Header| h@) == pairs,
                out@ == head + header_lines_text(pairs.subrange(0, i as int)),
            decreases hs@.len() - i,
        {
            assert(pairs.subrange(0, i + 1).drop_last() =~= pairs.subrange(0, i as int));
            assert(pairs.subrange(0, i + 1).last() == hs@[i as int]@);
            let n = chars_of(hs[i].name.as_str());
            append_chars(&mut out, n.as_slice());
            out.push(':');
            out.push(' ');
            let val = chars_of(hs[i].value.as_str());
            append_chars(&mut out, val.as_slice());
            out.push('\n');
            assert(out@ =~= head + header_lines_text(pairs.subrange(0, i + 1)));
            i = i + 1;
        }
        assert(pairs.subrange(0, i as int) =~= pairs);
        out.push('\n');
        out.push('\n');
        let b = chars_of(self.body.as_str());
        append_chars(&mut out, b.as_slice());
        assert(out@ =~= request_text(self@.method, self@.path, self@.version, self.header_pairs(), self@.body));
        string_of(out.as_slice())
    }

    /// The segments of the path, which routing walks.
    pub fn path_segments(&self) -> (r: Vec<Vec<char>>)
        ensures
            r@.map_values(|v: Vec<char>| v@) == path_segments(self@.path),
    {
        let p = chars_of(self.path.as_str());
        segments_of(p.as_slice())
    }
}

/// The header lines of a request's text form: `name: value` each, with a
/// line feed.
pub open spec fn header_lines_text(hs: Seq<HeaderPair>) -> Seq<char>
    decreases hs.len(),
{
    if hs.len() == 0 {
        Seq::empty()
    } else {
        header_lines_text(hs.drop_last()) + hs.last().0 + seq![':', ' '] + hs.last().1 + seq!['\n']
    }
}

/// A request's text form: the request line, a line per header, a blank
/// line, and the body.
pub open spec fn request_text(
    method: HttpMethod,
    path: Seq<char>,
    version: HttpVersion,
    hs: Seq<HeaderPair>,
    body: Seq<char>,
) -> Seq<char> {
    method.name() + seq![' '] + path + seq![' '] + version.name() + seq!['\n'] + header_lines_text(hs)
        + seq!['\n', '\n'] + body
}

/// The size of the buffer that each read of a connection fills.
pub const BUF_SIZE: usize = 2048;

/// Once the reads so far have failed, all later ones fail the same way.
proof fn lemma_run_chunks_error_stays(cs: Seq<Seq<u8>>, k: int, e: RequestError)
    requires
        0 <= k <= cs.len(),
        run_chunks(cs.subrange(0, k)) == Err::<ParserState, RequestError>(e),
    ensures
        run_chunks(cs) == Err::<ParserState, RequestError>(e),
    decreases cs.len() - k,
{
    if k == cs.len() {
        assert(cs.subrange(0, k) =~= cs);
    } else {
        assert(cs.subrange(0, k + 1).drop_last() =~= cs.subrange(0, k));
        lemma_run_chunks_error_stays(cs, k + 1, e);
    }
}

/// Assembles a request from the reads of a connection.
pub struct RequestParser {
    carry: Vec<u8>,
    phase: Phase,
    line: Option<(HttpMethod, Vec<char>, HttpVersion)>,
    headers: HeaderSet,
    body: Vec<char>,
}

impl RequestParser {
    /// What the parser holds: the unfinished line and the progress made.
    pub closed spec fn state(&self) -> ParserState {
        (
            self.carry@,
            Progress {
                phase: self.phase,
                line: match self.line {
                    Some((m, p, v)) => Some((m, p@, v)),
                    None => None,
                },
                headers: self.headers.contents(),
                body: self.body@,
            },
        )
    }

    pub closed spec fn wf(&self) -> bool {
        self.headers.wf()
    }

    pub fn new() -> (r: RequestParser)
        ensures
            r.wf(),
            r.state() == initial_state(),
    {
        let r = RequestParser {
            carry: Vec::new(),
            phase: Phase::RequestLine,
            line: None,
            headers: HeaderSet::new(),
            body: Vec::new(),
        };
        assert(r.state().0 =~= initial_state().0);
        assert(r.state().1.body =~= initial_state().1.body);
        r
    }

    /// Handles the line that ends at `idx` and drops it from the carryover.
    fn parse_chunk(&mut self, idx: usize) -> (r: Result<(), RequestError>)
        requires
            old(self).wf(),
            crlf_at(old(self).state().0, idx as int),
        ensures
            match step(old(self).state().1, old(self).state().0.subrange(0, idx as int)) {
                Ok(q) => r is Ok && final(self).wf() && final(self).state() == (
                    old(self).state().0.subrange(idx + 2, old(self).state().0.len() as int),
                    q,
                ),
                Err(e) => r == Err::<(), RequestError>(e),
            },
    {
        let n = self.carry.len();
        let bytes = slice_bytes(self.carry.as_slice(), 0, idx);
        let rest = slice_bytes(self.carry.as_slice(), idx + 2, n);
        let line = match decode_chunk(bytes.as_slice()) {
            Some(t) => t,
            None => {
                return Err(RequestError::InvalidUtf8);
            },
        };
        match self.phase {
            Phase::RequestLine => {
                match request_line_from(line.as_slice()) {
                    Ok(rl) => {
                        self.line = Some(rl);
                        self.phase = Phase::Headers;
                    },
                    Err(e) => {
                        return Err(e);
                    },
                }
            },
            Phase::Headers => {
                if line.len() == 0 {
                    self.phase = Phase::Body;
                } else {
                    match header_from_line(line.as_slice()) {
                        Some(h) => {
                            self.headers.insert(h);
                        },
                        None => {
                            return Err(RequestError::BadHeader);
                        },
                    }
                }
            },
            Phase::Body => {
                append_chars(&mut self.body, line.as_slice());
            },
        }
        self.carry = rest;
        Ok(())
    }

    /// Takes the bytes of one read and handles every line they complete.
    pub fn feed(&mut self, chunk: &[u8]) -> (r: Result<(), RequestError>)
        requires
            old(self).wf(),
        ensures
            match feed_spec(old(self).state(), chunk@) {
                Ok(st) => r is Ok && final(self).wf() && final(self).state() == st,
                Err(e) => r == Err::<(), RequestError>(e),
            },
    {
        let ghost target = drain(old(self).state().0 + chunk@, old(self).state().1);
        append_bytes(&mut self.carry, chunk);
        assert(target == feed_spec(old(self).state(), chunk@));
        loop
            invariant
                self.wf(),
                drain(self.state().0, self.state().1) == target,
                target == feed_spec(old(self).state(), chunk@),
            decreases self.state().0.len(),
        {
            proof {
                lemma_crlf_from_bounds(self.state().0, 0);
            }
            match find_crlf(self.carry.as_slice()) {
                None => {
                    assert(drain(self.state().0, self.state().1) == Ok::<ParserState, RequestError>(self.state()));
                    return Ok(());
                },
                Some(i) => {
                    match self.parse_chunk(i) {
                        Ok(()) => {},
                        Err(e) => {
                            return Err(e);
                        },
                    }
                },
            }
        }
    }

    /// Takes the outcome of one read of a connection whose reads fill
    /// buffers of `capacity` bytes: the bytes read, or none where the read
    /// failed. Says whether more reads are to come, which is so when this
    /// one filled its buffer.
    pub fn on_read(&mut self, read: Option<&[u8]>, capacity: usize) -> (r: Result<bool, RequestError>)
        requires
            old(self).wf(),
        ensures
            match read {
                None => r == Err::<bool, RequestError>(RequestError::SocketReadError),
                Some(chunk) => match feed_spec(old(self).state(), chunk@) {
                    Ok(st) => r == Ok::<bool, RequestError>(chunk@.len() == capacity) && final(self).wf()
                        && final(self).state() == st,
                    Err(e) => r == Err::<bool, RequestError>(e),
                },
            },
    {
        match read {
            None => Err(RequestError::SocketReadError),
            Some(chunk) => match self.feed(chunk) {
                Ok(()) => Ok(chunk.len() == capacity),
                Err(e) => Err(e),
            },
        }
    }

    /// The request, once the stream has ended.
    pub fn to_request(self) -> (r: Result<Request, RequestError>)
        requires
            self.wf(),
        ensures
            match finish_state(self.state()) {
                Ok(v) => r matches Ok(q) && q@ == v,
                Err(e) => r == Err::<Request, RequestError>(e),
            },
    {
        if decode_chunk(self.carry.as_slice()).is_none() {
            return Err(RequestError::InvalidUtf8);
        }
        match self.line {
            None => Err(RequestError::Unfinished),
            Some((m, p, v)) => {
                let path = string_of(p.as_slice());
                let body = string_of(self.body.as_slice());
                Ok(Request::new(m, path, v, self.headers, body))
            },
        }
    }

    /// Parses a whole stream given as the sequence of its reads.
    pub fn parse_chunks(chunks: &Vec<Vec<u8>>) -> (r: Result<Request, RequestError>)
        ensures
            match parse_spec(chunks@.map_values(|c: Vec<u8>| c@)) {
                Ok(v) => r matches Ok(q) && q@ == v,
                Err(e) => r == Err::<Request, RequestError>(e),
            },
    {
        let ghost cs = chunks@.map_values(|c: Vec<u8>| c@);
        let mut parser = RequestParser::new();
        let mut i: usize = 0;
        assert(cs.subrange(0, 0) =~= Seq::<Seq<u8>>::empty());
        while i < chunks.len()
            invariant
                0 <= i <= chunks@.len(),
                cs == chunks@.map_values(|c: Vec<u8>| c@),
                parser.wf(),
                run_chunks(cs.subrange(0, i as int)) == Ok::<ParserState, RequestError>(parser.state()),
            decreases chunks@.len() - i,
        {
            assert(cs.subrange(0, i + 1).drop_last() =~= cs.subrange(0, i as int));
            assert(cs.subrange(0, i + 1).last() == chunks@[i as int]@);
            match parser.feed(chunks[i].as_slice()) {
                Ok(()) => {},
                Err(e) => {
                    proof {
                        lemma_run_chunks_error_stays(cs, i + 1, e);
                    }
                    return Err(e);
                },
            }
            i = i + 1;
        }
        assert(cs.subrange(0, i as int) =~= cs);
        parser.to_request()
    }
}

} // verus!
