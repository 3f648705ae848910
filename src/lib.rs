//! A small HTTP/1.1 server core: an incremental request parser, a routing
//! tree with per-node method dispatch and middleware, and response
//! serialization.
use vstd::prelude::*;

pub mod header;
pub mod middleware;
pub mod request;
pub mod response;
pub mod route;
pub mod router;
pub mod text;

pub use header::{Header, HeaderSet};
pub use request::Request;
pub use response::Response;
pub use route::Route;
pub use router::Router;

verus! {

/// A request method. Each method owns one bit of a method mask.
#[derive(Debug, Clone, Copy, PartialEq, Eq, Structural)]
pub enum HttpMethod {
    Head,
    Get,
    Post,
    Put,
    Delete,
    Connect,
    Options,
    Trace,
    Patch,
}

impl HttpMethod {
    /// The method's token as it stands on the request line.
    pub open spec fn name(self) -> Seq<char> {
        match self {
            HttpMethod::Head => seq!['H', 'E', 'A', 'D'],
            HttpMethod::Get => seq!['G', 'E', 'T'],
            HttpMethod::Post => seq!['P', 'O', 'S', 'T'],
            HttpMethod::Put => seq!['P', 'U', 'T'],
            HttpMethod::Delete => seq!['D', 'E', 'L', 'E', 'T', 'E'],
            HttpMethod::Connect => seq!['C', 'O', 'N', 'N', 'E', 'C', 'T'],
            HttpMethod::Options => seq!['O', 'P', 'T', 'I', 'O', 'N', 'S'],
            HttpMethod::Trace => seq!['T', 'R', 'A', 'C', 'E'],
            HttpMethod::Patch => seq!['P', 'A', 'T', 'C', 'H'],
        }
    }

    /// The bit that stands for this method in a method mask.
    pub open spec fn spec_bit(self) -> u16 {
        match self {
            HttpMethod::Head => 1,
            HttpMethod::Get => 2,
            HttpMethod::Post => 4,
            HttpMethod::Put => 8,
            HttpMethod::Delete => 16,
            HttpMethod::Connect => 32,
            HttpMethod::Options => 64,
            HttpMethod::Trace => 128,
            HttpMethod::Patch => 256,
        }
    }

    #[verifier::when_used_as_spec(spec_bit)]
    pub fn bit(self) -> (r: u16)
        ensures
            r == self.spec_bit(),
    {
        match self {
            HttpMethod::Head => 1,
            HttpMethod::Get => 2,
            HttpMethod::Post => 4,
            HttpMethod::Put => 8,
            HttpMethod::Delete => 16,
            HttpMethod::Connect => 32,
            HttpMethod::Options => 64,
            HttpMethod::Trace => 128,
            HttpMethod::Patch => 256,
        }
    }

    /// The characters of the method's token.
    pub fn name_chars(self) -> (r: Vec<char>)
        ensures
            r@ == self.name(),
    {
        let r = match self {
            HttpMethod::Head => vec!['H', 'E', 'A', 'D'],
            HttpMethod::Get => vec!['G', 'E', 'T'],
            HttpMethod::Post => vec!['P', 'O', 'S', 'T'],
            HttpMethod::Put => vec!['P', 'U', 'T'],
            HttpMethod::Delete => vec!['D', 'E', 'L', 'E', 'T', 'E'],
            HttpMethod::Connect => vec!['C', 'O', 'N', 'N', 'E', 'C', 'T'],
            HttpMethod::Options => vec!['O', 'P', 'T', 'I', 'O', 'N', 'S'],
            HttpMethod::Trace => vec!['T', 'R', 'A', 'C', 'E'],
            HttpMethod::Patch => vec!['P', 'A', 'T', 'C', 'H'],
        };
        assert(r@ =~= self.name());
        r
    }

    pub fn display(&self) -> (r: &'static str)
        ensures
            r@ == self.name(),
    {
        match self {
            HttpMethod::Head => {
                proof { reveal_strlit("HEAD"); }
                "HEAD"
            },
            HttpMethod::Get => {
                proof { reveal_strlit("GET"); }
                "GET"
            },
            HttpMethod::Post => {
                proof { reveal_strlit("POST"); }
                "POST"
            },
            HttpMethod::Put => {
                proof { reveal_strlit("PUT"); }
                "PUT"
            },
            HttpMethod::Delete => {
                proof { reveal_strlit("DELETE"); }
                "DELETE"
            },
            HttpMethod::Connect => {
                proof { reveal_strlit("CONNECT"); }
                "CONNECT"
            },
            HttpMethod::Options => {
                proof { reveal_strlit("OPTIONS"); }
                "OPTIONS"
            },
            HttpMethod::Trace => {
                proof { reveal_strlit("TRACE"); }
                "TRACE"
            },
            HttpMethod::Patch => {
                proof { reveal_strlit("PATCH"); }
                "PATCH"
            },
        }
    }

    pub fn as_bytes(self) -> (r: &'static [u8])
        ensures
            r@ == ascii_bytes(self.name()),
    {
        let s = self.display();
        proof { broadcast use vstd::string::is_ascii_spec_bytes; }
        assert(vstd::string::is_ascii(s));
        s.as_bytes()
    }

    /// The method whose token the characters spell.
    pub fn from_chars(t: &[char]) -> (r: Option<HttpMethod>)
        ensures
            r == method_named(t@),
    {
        let ms = all_methods();
        let mut i: usize = 0;
        while i < ms.len()
            invariant
                ms@ == all_methods_seq(),
                0 <= i <= ms@.len(),
                forall|j: int| 0 <= j < i ==> t@ != #[trigger] ms@[j].name(),
            decreases ms@.len() - i,
        {
            let m = ms[i];
            let n = m.name_chars();
            if chars_equal(n.as_slice(), t) {
                return Some(m);
            }
            i = i + 1;
        }
        None
    }

    /// The method whose token the bytes spell.
    pub fn from_bytes(buf: &[u8]) -> (r: Option<HttpMethod>)
        ensures
            r matches Some(m) ==> buf@ == ascii_bytes(m.name()),
            r is None ==> forall|m: HttpMethod| buf@ != #[trigger] ascii_bytes(m.name()),
    {
        let ms = all_methods();
        let mut i: usize = 0;
        while i < ms.len()
            invariant
                ms@ == all_methods_seq(),
                0 <= i <= ms@.len(),
                forall|j: int| 0 <= j < i ==> buf@ != #[trigger] ascii_bytes(ms@[j].name()),
            decreases ms@.len() - i,
        {
            let m = ms[i];
            if bytes_equal(m.as_bytes(), buf) {
                return Some(m);
            }
            i = i + 1;
        }
        assert forall|m: HttpMethod| buf@ != #[trigger] ascii_bytes(m.name()) by {
            assert(ms@.contains(m)) by {
                match m {
                    HttpMethod::Head => assert(ms@[0] == m),
                    HttpMethod::Get => assert(ms@[1] == m),
                    HttpMethod::Post => assert(ms@[2] == m),
                    HttpMethod::Put => assert(ms@[3] == m),
                    HttpMethod::Delete => assert(ms@[4] == m),
                    HttpMethod::Connect => assert(ms@[5] == m),
                    HttpMethod::Options => assert(ms@[6] == m),
                    HttpMethod::Trace => assert(ms@[7] == m),
                    HttpMethod::Patch => assert(ms@[8] == m),
                }
            }
        }
        None
    }
}

/// The protocol version of a message. Only HTTP/1.1 is supported.
#[derive(Debug, Clone, Copy, PartialEq, Eq, Structural)]
pub enum HttpVersion {
    OnePointOne,
}

impl HttpVersion {
    /// The version's token.
    pub open spec fn name(self) -> Seq<char> {
        seq!['H', 'T', 'T', 'P', '/', '1', '.', '1']
    }

    pub fn display(&self) -> (r: &'static str)
        ensures
            r@ == self.name(),
    {
        proof { reveal_strlit("HTTP/1.1"); }
        "HTTP/1.1"
    }

    /// The characters of the version's token.
    pub fn name_chars(self) -> (r: Vec<char>)
        ensures
            r@ == self.name(),
    {
        let r = vec!['H', 'T', 'T', 'P', '/', '1', '.', '1'];
        assert(r@ =~= self.name());
        r
    }

    pub fn as_bytes(self) -> (r: &'static [u8])
        ensures
            r@ == ascii_bytes(self.name()),
    {
        let s = self.display();
        proof { broadcast use vstd::string::is_ascii_spec_bytes; }
        assert(vstd::string::is_ascii(s));
        s.as_bytes()
    }
}

/// The method whose token is `t`, if any.
pub open spec fn method_named(t: Seq<char>) -> Option<HttpMethod> {
    if t == HttpMethod::Head.name() {
        Some(HttpMethod::Head)
    } else if t == HttpMethod::Get.name() {
        Some(HttpMethod::Get)
    } else if t == HttpMethod::Post.name() {
        Some(HttpMethod::Post)
    } else if t == HttpMethod::Put.name() {
        Some(HttpMethod::Put)
    } else if t == HttpMethod::Delete.name() {
        Some(HttpMethod::Delete)
    } else if t == HttpMethod::Connect.name() {
        Some(HttpMethod::Connect)
    } else if t == HttpMethod::Options.name() {
        Some(HttpMethod::Options)
    } else if t == HttpMethod::Trace.name() {
        Some(HttpMethod::Trace)
    } else if t == HttpMethod::Patch.name() {
        Some(HttpMethod::Patch)
    } else {
        None
    }
}

/// The nine methods, in the order of their bits.
pub fn all_methods() -> (r: Vec<HttpMethod>)
    ensures
        r@ == all_methods_seq(),
{
    let r = vec![
        HttpMethod::Head,
        HttpMethod::Get,
        HttpMethod::Post,
        HttpMethod::Put,
        HttpMethod::Delete,
        HttpMethod::Connect,
        HttpMethod::Options,
        HttpMethod::Trace,
        HttpMethod::Patch,
    ];
    assert(r@ =~= all_methods_seq());
    r
}

pub open spec fn all_methods_seq() -> Seq<HttpMethod> {
    seq![
        HttpMethod::Head,
        HttpMethod::Get,
        HttpMethod::Post,
        HttpMethod::Put,
        HttpMethod::Delete,
        HttpMethod::Connect,
        HttpMethod::Options,
        HttpMethod::Trace,
        HttpMethod::Patch,
    ]
}

/// Whether two character slices hold the same characters.
pub fn chars_equal(a: &[char], b: &[char]) -> (r: bool)
    ensures
        r == (a@ == b@),
{
    if a.len() != b.len() {
        return false;
    }
    let mut i: usize = 0;
    while i < a.len()
        invariant
            a@.len() == b@.len(),
            0 <= i <= a@.len(),
            a@.subrange(0, i as int) == b@.subrange(0, i as int),
        decreases a@.len() - i,
    {
        if a[i] != b[i] {
            assert(a@[i as int] != b@[i as int]);
            return false;
        }
        assert(a@.subrange(0, i + 1) =~= a@.subrange(0, i as int).push(a@[i as int]));
        assert(b@.subrange(0, i + 1) =~= b@.subrange(0, i as int).push(b@[i as int]));
        i = i + 1;
    }
    assert(a@ =~= a@.subrange(0, i as int));
    assert(b@ =~= b@.subrange(0, i as int));
    true
}

/// Whether two byte slices hold the same bytes.
pub fn bytes_equal(a: &[u8], b: &[u8]) -> (r: bool)
    ensures
        r == (a@ == b@),
{
    if a.len() != b.len() {
        return false;
    }
    let mut i: usize = 0;
    while i < a.len()
        invariant
            a@.len() == b@.len(),
            0 <= i <= a@.len(),
            a@.subrange(0, i as int) == b@.subrange(0, i as int),
        decreases a@.len() - i,
    {
        if a[i] != b[i] {
            assert(a@[i as int] != b@[i as int]);
            return false;
        }
        assert(a@.subrange(0, i + 1) =~= a@.subrange(0, i as int).push(a@[i as int]));
        assert(b@.subrange(0, i + 1) =~= b@.subrange(0, i as int).push(b@[i as int]));
        i = i + 1;
    }
    assert(a@ =~= a@.subrange(0, i as int));
    assert(b@ =~= b@.subrange(0, i as int));
    true
}

/// The bytes of a text whose characters are all ASCII.
pub open spec fn ascii_bytes(s: Seq<char>) -> Seq<u8> {
    Seq::new(s.len(), |i: int| s[i] as u8)
}

} // verus!
