//! Headers and the sorted, duplicate-free set that a message holds.
use vstd::prelude::*;
use crate::text::{append_bytes, chars_of, compare_text, text_lt};
use crate::text::{lemma_text_lt_irreflexive, lemma_text_lt_total, lemma_text_lt_transitive};

verus! {

/// One header: a name and a value.
#[derive(Debug, Clone)]
pub struct Header {
    pub name: String,
    pub value: String,
}

/// The name and value of a header.
pub type HeaderPair = (Seq<char>, Seq<char>);

/// Strict order on headers: by name, then by value.
pub open spec fn pair_lt(x: HeaderPair, y: HeaderPair) -> bool {
    text_lt(x.0, y.0) || (x.0 == y.0 && text_lt(x.1, y.1))
}

pub proof fn lemma_pair_lt_irreflexive(x: HeaderPair)
    ensures
        !pair_lt(x, x),
{
    lemma_text_lt_irreflexive(x.0);
    lemma_text_lt_irreflexive(x.1);
}

pub proof fn lemma_pair_lt_transitive(x: HeaderPair, y: HeaderPair, z: HeaderPair)
    requires
        pair_lt(x, y),
        pair_lt(y, z),
    ensures
        pair_lt(x, z),
{
    if text_lt(x.0, y.0) && text_lt(y.0, z.0) {
        lemma_text_lt_transitive(x.0, y.0, z.0);
    } else if text_lt(x.0, y.0) {
    } else if text_lt(y.0, z.0) {
    } else {
        lemma_text_lt_transitive(x.1, y.1, z.1);
    }
}

pub proof fn lemma_pair_lt_total(x: HeaderPair, y: HeaderPair)
    requires
        x != y,
    ensures
        pair_lt(x, y) || pair_lt(y, x),
{
    if x.0 != y.0 {
        lemma_text_lt_total(x.0, y.0);
    } else {
        assert(x.1 != y.1);
        lemma_text_lt_total(x.1, y.1);
    }
}

/// The bytes of `: `.
pub open spec fn separator_bytes() -> Seq<u8> {
    seq![58u8, 32u8]
}

/// The bytes of the line terminator.
pub open spec fn crlf_bytes() -> Seq<u8> {
    seq![13u8, 10u8]
}

/// The wire form of a header: `name: value` and the line terminator.
pub open spec fn header_bytes(h: HeaderPair) -> Seq<u8> {
    vstd::utf8::encode_utf8(h.0) + separator_bytes() + vstd::utf8::encode_utf8(h.1) + crlf_bytes()
}

impl View for Header {
    type V = HeaderPair;

    open spec fn view(&self) -> HeaderPair {
        (self.name@, self.value@)
    }
}

impl Header {
    pub fn new(name: String, value: String) -> (r: Header)
        ensures
            r@ == (name@, value@),
    {
        Header { name, value }
    }

    /// The header as it stands on the wire.
    pub fn as_bytes(&self) -> (r: Vec<u8>)
        ensures
            r@ == header_bytes(self@),
    {
        let mut r: Vec<u8> = Vec::new();
        append_bytes(&mut r, self.name.as_str().as_bytes());
        let sep = vec![58u8, 32u8];
        append_bytes(&mut r, sep.as_slice());
        append_bytes(&mut r, self.value.as_str().as_bytes());
        let end = vec![13u8, 10u8];
        append_bytes(&mut r, end.as_slice());
        assert(r@ =~= header_bytes(self@));
        r
    }
}

/// Compares two headers by name, then by value.
fn compare_headers(a: &Header, b: &Header) -> (r: i8)
    ensures
        (r < 0) == pair_lt(a@, b@),
        (r == 0) == (a@ == b@),
        (r > 0) == pair_lt(b@, a@),
{
    let an = chars_of(a.name.as_str());
    let bn = chars_of(b.name.as_str());
    let c = compare_text(an.as_slice(), bn.as_slice());
    if c != 0 {
        proof {
            if c < 0 {
                lemma_text_lt_irreflexive(b@.0);
                if text_lt(b@.0, a@.0) {
                    lemma_text_lt_transitive(a@.0, b@.0, a@.0);
                    lemma_text_lt_irreflexive(a@.0);
                }
            } else {
                if text_lt(a@.0, b@.0) {
                    lemma_text_lt_transitive(a@.0, b@.0, a@.0);
                    lemma_text_lt_irreflexive(a@.0);
                }
            }
        }
        return c;
    }
    let av = chars_of(a.value.as_str());
    let bv = chars_of(b.value.as_str());
    let d = compare_text(av.as_slice(), bv.as_slice());
    proof {
        lemma_text_lt_irreflexive(a@.0);
    }
    d
}

/// A set of headers, kept sorted by name and value, each pair at most once.
///
/// The pairs live in a `Vec` kept in strictly increasing order: vstd
/// specifies std's ordered sets only for keys whose order it knows, which
/// excludes a pair of `String`s, so the order is stated and proved here.
#[derive(Debug, Clone)]
pub struct HeaderSet {
    items: Vec<Header>,
}

impl HeaderSet {
    /// The headers in order.
    pub closed spec fn pairs(&self) -> Seq<HeaderPair> {
        self.items@.map_values(|h: Header| h@)
    }

    /// The headers as a set of pairs.
    pub closed spec fn contents(&self) -> Set<HeaderPair> {
        self.pairs().to_set()
    }

    /// The headers stand in strictly increasing order.
    pub closed spec fn wf(&self) -> bool {
        forall|i: int, j: int|
            0 <= i < j < self.items@.len() ==> pair_lt(#[trigger] self.pairs()[i], #[trigger] self.pairs()[j])
    }

    /// The headers stand in strictly increasing order, so each pair at most
    /// once.
    pub proof fn lemma_sorted(&self)
        requires
            self.wf(),
        ensures
            forall|i: int, j: int|
                0 <= i < j < self.pairs().len() ==> pair_lt(#[trigger] self.pairs()[i], #[trigger] self.pairs()[j]),
            forall|i: int, j: int|
                0 <= i < j < self.pairs().len() ==> #[trigger] self.pairs()[i] != #[trigger] self.pairs()[j],
    {
        assert forall|i: int, j: int| 0 <= i < j < self.pairs().len() implies #[trigger] self.pairs()[i]
            != #[trigger] self.pairs()[j] by {
            lemma_pair_lt_irreflexive(self.pairs()[i]);
        }
    }

    pub proof fn lemma_contents_pairs(&self)
        ensures
            self.contents() == self.pairs().to_set(),
    {
    }

    pub fn new() -> (r: HeaderSet)
        ensures
            r.wf(),
            r.pairs() == Seq::<HeaderPair>::empty(),
            r.contents() == Set::<HeaderPair>::empty(),
    {
        let r = HeaderSet { items: Vec::new() };
        assert(r.pairs() =~= Seq::<HeaderPair>::empty());
        assert(r.contents() =~= Set::<HeaderPair>::empty());
        r
    }

    pub fn len(&self) -> (r: usize)
        ensures
            r == self.pairs().len(),
    {
        self.items.len()
    }

    /// The headers, sorted by name and value.
    pub fn as_slice(&self) -> (r: &[Header])
        ensures
            r@.map_values(|h: Header| h@) == self.pairs(),
    {
        self.items.as_slice()
    }

    /// Adds a header; a pair that is present already is not added twice.
    pub fn insert(&mut self, h: Header)
        requires
            old(self).wf(),
        ensures
            final(self).wf(),
            final(self).contents() == old(self).contents().insert(h@),
            old(self).contents().contains(h@) ==> final(self).pairs() == old(self).pairs(),
    {
        let mut p: usize = 0;
        let mut c: i8 = -1;
        while p < self.items.len() && c < 0
            invariant
                self.wf(),
                0 <= p <= self.items@.len(),
                forall|i: int| 0 <= i < p ==> pair_lt(#[trigger] self.pairs()[i], h@),
                c >= 0 ==> p < self.items@.len() && (c == 0) == (self.pairs()[p as int] == h@)
                    && !pair_lt(self.pairs()[p as int], h@),
            decreases self.items@.len() - p, (if c < 0 { 1int } else { 0int }),
        {
            c = compare_headers(&self.items[p], &h);
            if c < 0 {
                p = p + 1;
            }
        }
        let ghost before = self.pairs();
        if c == 0 {
            proof {
                assert(before[p as int] == h@);
                assert(self.contents().contains(h@));
                assert(self.contents().insert(h@) =~= self.contents());
            }
            return;
        }
        proof {
            assert forall|k: int| 0 <= k < before.len() implies before[k] != h@ by {
                if k < p {
                    lemma_pair_lt_irreflexive(h@);
                } else {
                    if k > p {
                        assert(pair_lt(before[p as int], before[k]));
                    }
                }
            }
            if p < before.len() {
                lemma_pair_lt_total(before[p as int], h@);
            }
        }
        self.items.insert(p, h);
        proof {
            let after = self.pairs();
            assert(after =~= before.insert(p as int, h@));
            assert forall|i: int, j: int| 0 <= i < j < after.len() implies pair_lt(
                #[trigger] after[i],
                #[trigger] after[j],
            ) by {
                if j < p {
                } else if j == p {
                } else if i < p {
                    assert(pair_lt(before[i], h@));
                    assert(pair_lt(h@, before[p as int]));
                    if j - 1 > p {
                        lemma_pair_lt_transitive(h@, before[p as int], before[j - 1]);
                    }
                    lemma_pair_lt_transitive(before[i], h@, before[j - 1]);
                } else if i == p {
                    if j - 1 > p {
                        lemma_pair_lt_transitive(h@, before[p as int], before[j - 1]);
                    }
                } else {
                }
            }
            assert(after.to_set() =~= before.to_set().insert(h@)) by {
                assert forall|x: HeaderPair| after.to_set().contains(x) <==> before.to_set().insert(h@).contains(x) by {
                    if after.to_set().contains(x) {
                        let k = choose|k: int| 0 <= k < after.len() && after[k] == x;
                        if k < p {
                            assert(before[k] == x);
                        } else if k > p {
                            assert(before[k - 1] == x);
                        }
                    }
                    if before.to_set().contains(x) {
                        let k = choose|k: int| 0 <= k < before.len() && before[k] == x;
                        if k < p {
                            assert(after[k] == x);
                        } else {
                            assert(after[k + 1] == x);
                        }
                    }
                    if x == h@ {
                        assert(after[p as int] == x);
                    }
                }
            }
        }
    }
}

} // verus!
