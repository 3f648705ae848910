//! Responses and their wire form.
use vstd::prelude::*;
use vstd::utf8::encode_utf8;
use crate::{ascii_bytes, chars_equal, HttpVersion};
use crate::header::{crlf_bytes, header_bytes, HeaderPair, HeaderSet};
use crate::text::{append_bytes, chars_of};

verus! {

/// The status of a response.
#[derive(Debug, Clone, Copy, PartialEq, Eq, Structural)]
pub enum StatusCode {
    Success,
    ServerError,
}

impl StatusCode {
    /// The status text that follows the version on the status line.
    pub open spec fn text(self) -> Seq<char> {
        match self {
            StatusCode::Success => seq!['2', '0', '0', ' ', 'S', 'U', 'C', 'C', 'E', 'S', 'S'],
            StatusCode::ServerError => seq![
                '4', '0', '0', ' ', 'I', 'N', 'T', 'E', 'R', 'N', 'A', 'L', ' ', 'S', 'E', 'R', 'V',
                'E', 'R', ' ', 'E', 'R', 'R', 'O', 'R',
            ],
        }
    }

    pub fn display(&self) -> (r: &'static str)
        ensures
            r@ == self.text(),
    {
        match self {
            StatusCode::Success => {
                proof { reveal_strlit("200 SUCCESS"); }
                "200 SUCCESS"
            },
            StatusCode::ServerError => {
                proof { reveal_strlit("400 INTERNAL SERVER ERROR"); }
                "400 INTERNAL SERVER ERROR"
            },
        }
    }

    pub fn as_bytes(self) -> (r: &'static [u8])
        ensures
            r@ == ascii_bytes(self.text()),
    {
        let s = self.display();
        proof { broadcast use vstd::string::is_ascii_spec_bytes; }
        assert(vstd::string::is_ascii(s));
        s.as_bytes()
    }
}

/// The name of the header that gives the body's length.
pub open spec fn content_length_name() -> Seq<char> {
    seq!['c', 'o', 'n', 't', 'e', 'n', 't', '-', 'l', 'e', 'n', 'g', 't', 'h']
}

/// The decimal digits of `n`, as ASCII bytes.
pub open spec fn decimal(n: nat) -> Seq<u8>
    decreases n,
{
    if n < 10 {
        seq![(48 + n) as u8]
    } else {
        decimal(n / 10) + seq![(48 + n % 10) as u8]
    }
}

/// The wire form of the headers, in order.
pub open spec fn headers_bytes(hs: Seq<HeaderPair>) -> Seq<u8>
    decreases hs.len(),
{
    if hs.len() == 0 {
        Seq::empty()
    } else {
        headers_bytes(hs.drop_last()) + header_bytes(hs.last())
    }
}

/// Some header is named `content-length`.
pub open spec fn has_content_length(hs: Seq<HeaderPair>) -> bool {
    exists|i: int| 0 <= i < hs.len() && (#[trigger] hs[i]).0 == content_length_name()
}

/// The wire form of a response: status line, headers, a `content-length`
/// header where none was given, a blank line and the body.
pub open spec fn response_bytes(
    version: HttpVersion,
    code: StatusCode,
    hs: Seq<HeaderPair>,
    body: Seq<char>,
) -> Seq<u8> {
    ascii_bytes(version.name()) + seq![32u8] + ascii_bytes(code.text()) + crlf_bytes() + headers_bytes(hs)
        + (if has_content_length(hs) {
        Seq::empty()
    } else {
        ascii_bytes(content_length_name()) + seq![58u8, 32u8] + decimal(encode_utf8(body).len())
            + crlf_bytes()
    }) + crlf_bytes() + encode_utf8(body)
}

/// The decimal digits of `n`, as ASCII bytes.
pub fn decimal_bytes(n: usize) -> (r: Vec<u8>)
    ensures
        r@ == decimal(n as nat),
    decreases n,
{
    if n < 10 {
        let d = (48 + n) as u8;
        let r = vec![d];
        assert(r@ =~= decimal(n as nat));
        r
    } else {
        let mut r = decimal_bytes(n / 10);
        let d = (48 + n % 10) as u8;
        r.push(d);
        assert(r@ =~= decimal(n as nat));
        r
    }
}

/// A response: version, status, headers and body.
#[derive(Debug, Clone)]
pub struct Response {
    pub version: HttpVersion,
    pub code: StatusCode,
    pub headers: HeaderSet,
    pub body: String,
}

impl Response {
    /// The response sent when no handler serves a request.
    pub fn not_found() -> (r: Response)
        ensures
            r.version == HttpVersion::OnePointOne,
            r.code == StatusCode::ServerError,
            r.headers.wf(),
            r.headers.contents() == Set::<HeaderPair>::empty(),
            r.body@ == Seq::<char>::empty(),
    {
        Response {
            version: HttpVersion::OnePointOne,
            code: StatusCode::ServerError,
            headers: HeaderSet::new(),
            body: String::new(),
        }
    }

    /// The response's wire form.
    pub fn as_bytes(self) -> (r: Vec<u8>)
        ensures
            r@ == response_bytes(self.version, self.code, self.headers.pairs(), self.body@),
    {
        let mut resp: Vec<u8> = Vec::new();
        append_bytes(&mut resp, self.version.as_bytes());
        resp.push(32u8);
        append_bytes(&mut resp, self.code.as_bytes());
        let end = vec![13u8, 10u8];
        append_bytes(&mut resp, end.as_slice());
        let ghost head = resp@;
        let hs = self.headers.as_slice();
        let ghost pairs = self.headers.pairs();
        let cl = content_length_chars();
        let mut content_length = false;
        let mut i: usize = 0;
        assert(pairs.subrange(0, 0) =~= Seq::<HeaderPair>::empty());
        assert(resp@ =~= head + headers_bytes(pairs.subrange(0, 0)));
        while i < hs.len()
            invariant
                0 <= i <= hs@.len(),
                hs@.map_values(|h: crate::header::Header| h@) == pairs,
                cl@ == content_length_name(),
                end@ == crlf_bytes(),
                resp@ == head + headers_bytes(pairs.subrange(0, i as int)),
                content_length == has_content_length(pairs.subrange(0, i as int)),
            decreases hs@.len() - i,
        {
            let ghost sub = pairs.subrange(0, i as int);
            let ghost next = pairs.subrange(0, i + 1);
            assert(next.drop_last() =~= sub);
            assert(next.last() == hs@[i as int]@);
            let name = chars_of(hs[i].name.as_str());
            if chars_equal(name.as_slice(), cl.as_slice()) {
                content_length = true;
                assert(next[i as int].0 == content_length_name());
            }
            proof {
                if has_content_length(sub) {
                    let k = choose|k: int| 0 <= k < sub.len() && (#[trigger] sub[k]).0 == content_length_name();
                    assert(next[k] == sub[k]);
                }
                if has_content_length(next) {
                    let k = choose|k: int| 0 <= k < next.len() && (#[trigger] next[k]).0 == content_length_name();
                    if k < i {
                        assert(sub[k] == next[k]);
                    }
                }
            }
            let line = hs[i].as_bytes();
            append_bytes(&mut resp, line.as_slice());
            assert(resp@ =~= head + headers_bytes(next));
            i = i + 1;
        }
        assert(pairs.subrange(0, i as int) =~= pairs);
        let ghost mid = resp@;
        if !content_length {
            let prefix = content_length_prefix();
            append_bytes(&mut resp, prefix.as_slice());
            let n = self.body.as_str().as_bytes().len();
            let digits = decimal_bytes(n);
            append_bytes(&mut resp, digits.as_slice());
            append_bytes(&mut resp, end.as_slice());
            assert(resp@ =~= mid + (ascii_bytes(content_length_name()) + seq![58u8, 32u8] + decimal(
                encode_utf8(self.body@).len(),
            ) + crlf_bytes()));
        } else {
            assert(resp@ =~= mid + Seq::<u8>::empty());
        }
        let ghost mid2 = resp@;
        append_bytes(&mut resp, end.as_slice());
        append_bytes(&mut resp, self.body.as_str().as_bytes());
        assert(resp@ =~= response_bytes(self.version, self.code, self.headers.pairs(), self.body@));
        resp
    }
}

fn content_length_chars() -> (r: Vec<char>)
    ensures
        r@ == content_length_name(),
{
    let r = vec!['c', 'o', 'n', 't', 'e', 'n', 't', '-', 'l', 'e', 'n', 'g', 't', 'h'];
    assert(r@ =~= content_length_name());
    r
}

fn content_length_prefix() -> (r: Vec<u8>)
    ensures
        r@ == ascii_bytes(content_length_name()) + seq![58u8, 32u8],
{
    let r = vec![99u8, 111, 110, 116, 101, 110, 116, 45, 108, 101, 110, 103, 116, 104, 58, 32];
    assert(r@ =~= ascii_bytes(content_length_name()) + seq![58u8, 32u8]);
    r
}

} // verus!
