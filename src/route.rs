//! The routing tree: nodes joined by named and wildcard edges, handlers
//! registered per node under method masks, and middleware per node.
use vstd::prelude::*;
use crate::{chars_equal, HttpMethod};
use crate::middleware::{PostHook, PostMiddleware, PreHook, PreMiddleware};
use crate::request::Request;
use crate::response::Response;

verus! {

/// The names of the methods of a mask, in the order of their bits, each
/// followed by `, `.
pub open spec fn mask_text(mask: u16, ms: Seq<HttpMethod>) -> Seq<char>
    decreases ms.len(),
{
    if ms.len() == 0 {
        Seq::empty()
    } else {
        mask_text(mask, ms.drop_last()) + if mask & ms.last().spec_bit() != 0 {
            ms.last().name() + seq![',', ' ']
        } else {
            Seq::empty()
        }
    }
}

/// The methods of a mask as text, for logs.
pub fn methods_text(mask: u16) -> (r: String)
    ensures
        r@ == mask_text(mask, crate::all_methods_seq()),
{
    let ms = crate::all_methods();
    let mut out: Vec<char> = Vec::new();
    let mut i: usize = 0;
    assert(ms@.subrange(0, 0) =~= Seq::<HttpMethod>::empty());
    while i < ms.len()
        invariant
            0 <= i <= ms@.len(),
            ms@ == crate::all_methods_seq(),
            out@ == mask_text(mask, ms@.subrange(0, i as int)),
        decreases ms@.len() - i,
    {
        assert(ms@.subrange(0, i + 1).drop_last() =~= ms@.subrange(0, i as int));
        assert(ms@.subrange(0, i + 1).last() == ms@[i as int]);
        let ghost before = out@;
        let m = ms[i];
        if mask & m.bit() != 0 {
            let n = m.name_chars();
            crate::text::append_chars(&mut out, n.as_slice());
            out.push(',');
            out.push(' ');
            assert(out@ =~= before + (m.name() + seq![',', ' ']));
        } else {
            assert(out@ =~= before + Seq::<char>::empty());
        }
        i = i + 1;
    }
    assert(ms@.subrange(0, i as int) =~= ms@);
    crate::text::string_of(out.as_slice())
}

/// Why a handler could not serve a request.
#[derive(Debug, Clone, Copy, PartialEq, Eq, Structural)]
pub enum HandlerError {
    NotFound,
}

/// What a handler, and so routing, yields.
pub type ResponseResult = Result<Response, HandlerError>;

/// Serves the requests that routing hands it.
pub trait Handle {
    /// What the handler answers to a request.
    spec fn spec_call(&self, req: Request) -> ResponseResult;

    fn call(&self, req: Request) -> (r: ResponseResult)
        ensures
            r == self.spec_call(req),
    ;
}

/// One segment of a route pattern.
#[derive(Debug, Clone)]
pub enum Segment {
    /// Matches exactly this text.
    Named(Vec<char>),
    /// Matches any single segment.
    Wild,
}

/// A pattern segment as a mathematical value.
pub enum SegmentView {
    Named(Seq<char>),
    Wild,
}

impl View for Segment {
    type V = SegmentView;

    open spec fn view(&self) -> SegmentView {
        match self {
            Segment::Named(v) => SegmentView::Named(v@),
            Segment::Wild => SegmentView::Wild,
        }
    }
}

/// An edge of the tree: from a parent node, along a segment, to a child.
pub struct EdgeView {
    pub parent: int,
    pub seg: SegmentView,
    pub child: int,
}

struct Edge {
    parent: usize,
    seg: Segment,
    child: usize,
}

impl View for Edge {
    type V = EdgeView;

    closed spec fn view(&self) -> EdgeView {
        EdgeView { parent: self.parent as int, seg: self.seg@, child: self.child as int }
    }
}

/// A handler with the node it belongs to and the methods it serves.
pub struct Handler<H> {
    node: usize,
    method: u16,
    handle: H,
}

impl<H> Handler<H> {
    /// The node and the method mask.
    pub closed spec fn key(&self) -> (int, u16) {
        (self.node as int, self.method)
    }

    pub closed spec fn handle(&self) -> H {
        self.handle
    }

    /// The methods that the handler serves, as text.
    pub fn methods(&self) -> (r: String)
        ensures
            r@ == mask_text(self.key().1, crate::all_methods_seq()),
    {
        methods_text(self.method)
    }
}

// ---------------------------------------------------------------------------
// The tree as mathematics. The root is node 0.

/// The child reached from `node` along `seg`, by the first such edge at or
/// after `k`.
pub open spec fn child_from(es: Seq<EdgeView>, node: int, seg: SegmentView, k: int) -> Option<int>
    decreases es.len() - k,
{
    if k < 0 || k >= es.len() {
        None
    } else if es[k].parent == node && es[k].seg == seg {
        Some(es[k].child)
    } else {
        child_from(es, node, seg, k + 1)
    }
}

/// The child reached from `node` along `seg`.
pub open spec fn child_of(es: Seq<EdgeView>, node: int, seg: SegmentView) -> Option<int> {
    child_from(es, node, seg, 0)
}

/// The node that a pattern names, if the tree has it.
pub open spec fn pattern_node(es: Seq<EdgeView>, pat: Seq<SegmentView>) -> Option<int>
    decreases pat.len(),
{
    if pat.len() == 0 {
        Some(0)
    } else {
        match pattern_node(es, pat.drop_last()) {
            Some(n) => child_of(es, n, pat.last()),
            None => None,
        }
    }
}

/// Where a request segment leads from `node`: the child of that name, else
/// the wildcard child.
pub open spec fn step_to(es: Seq<EdgeView>, node: int, s: Seq<char>) -> Option<int> {
    match child_of(es, node, SegmentView::Named(s)) {
        Some(c) => Some(c),
        None => child_of(es, node, SegmentView::Wild),
    }
}

/// The node that a request path leads to, if any.
pub open spec fn descend(es: Seq<EdgeView>, segs: Seq<Seq<char>>) -> Option<int>
    decreases segs.len(),
{
    if segs.len() == 0 {
        Some(0)
    } else {
        match descend(es, segs.drop_last()) {
            Some(n) => step_to(es, n, segs.last()),
            None => None,
        }
    }
}

/// The first handler at or after `k` that belongs to `node` and serves the
/// method whose bit is `bit`.
pub open spec fn handler_from(hs: Seq<(int, u16)>, node: int, bit: u16, k: int) -> Option<int>
    decreases hs.len() - k,
{
    if k < 0 || k >= hs.len() {
        None
    } else if hs[k].0 == node && hs[k].1 & bit != 0 {
        Some(k)
    } else {
        handler_from(hs, node, bit, k + 1)
    }
}

/// The handler of `node` that serves `method`.
pub open spec fn handler_for(hs: Seq<(int, u16)>, node: int, method: HttpMethod) -> Option<int> {
    handler_from(hs, node, method.spec_bit(), 0)
}

/// The handler that a request with this method and these path segments
/// reaches.
pub open spec fn resolve_spec(
    es: Seq<EdgeView>,
    hs: Seq<(int, u16)>,
    method: HttpMethod,
    segs: Seq<Seq<char>>,
) -> Option<int> {
    match descend(es, segs) {
        Some(n) => handler_for(hs, n, method),
        None => None,
    }
}

/// Some handler of `node` serves a method of `mask`.
pub open spec fn collides(hs: Seq<(int, u16)>, node: int, mask: u16) -> bool {
    exists|k: int| 0 <= k < hs.len() && (#[trigger] hs[k]).0 == node && hs[k].1 & mask != 0
}

/// A handler for `mask` is registered at the node of `pat`.
pub open spec fn registered(es: Seq<EdgeView>, hs: Seq<(int, u16)>, pat: Seq<SegmentView>, mask: u16) -> bool {
    pattern_node(es, pat) matches Some(n) && exists|k: int|
        0 <= k < hs.len() && #[trigger] hs[k] == (n, mask)
}

/// Registering `mask` at `pat` would claim a method that is taken there.
pub open spec fn blocked(es: Seq<EdgeView>, hs: Seq<(int, u16)>, pat: Seq<SegmentView>, mask: u16) -> bool {
    pattern_node(es, pat) matches Some(n) && collides(hs, n, mask)
}

proof fn lemma_child_from_extend(es: Seq<EdgeView>, more: Seq<EdgeView>, node: int, seg: SegmentView, k: int)
    requires
        0 <= k,
        child_from(es, node, seg, k) is Some,
    ensures
        child_from(es + more, node, seg, k) == child_from(es, node, seg, k),
    decreases es.len() - k,
{
    let all = es + more;
    assert(all[k] == es[k]);
    if !(es[k].parent == node && es[k].seg == seg) {
        lemma_child_from_extend(es, more, node, seg, k + 1);
    }
}

proof fn lemma_child_from_push_new(es: Seq<EdgeView>, e: EdgeView, k: int)
    requires
        0 <= k <= es.len(),
        child_from(es, e.parent, e.seg, k) is None,
    ensures
        child_from(es.push(e), e.parent, e.seg, k) == Some(e.child),
    decreases es.len() - k,
{
    let all = es.push(e);
    if k < es.len() {
        assert(all[k] == es[k]);
        lemma_child_from_push_new(es, e, k + 1);
    } else {
        assert(all[k] == e);
    }
}

/// Adding edges keeps every node that a pattern named.
proof fn lemma_pattern_node_extend(es: Seq<EdgeView>, more: Seq<EdgeView>, pat: Seq<SegmentView>)
    requires
        pattern_node(es, pat) is Some,
    ensures
        pattern_node(es + more, pat) == pattern_node(es, pat),
    decreases pat.len(),
{
    if pat.len() > 0 {
        lemma_pattern_node_extend(es, more, pat.drop_last());
        let n = pattern_node(es, pat.drop_last()).unwrap();
        lemma_child_from_extend(es, more, n, pat.last(), 0);
    }
}

/// A handler registered at a pattern claims its methods there: registering
/// a mask that shares a method with it, at the same pattern, is refused.
pub proof fn lemma_overlap_refused(
    es: Seq<EdgeView>,
    hs: Seq<(int, u16)>,
    pat: Seq<SegmentView>,
    first: u16,
    second: u16,
)
    requires
        registered(es, hs, pat, first),
        first & second != 0,
    ensures
        blocked(es, hs, pat, second),
{
    let n = pattern_node(es, pat).unwrap();
    let k = choose|k: int| 0 <= k < hs.len() && #[trigger] hs[k] == (n, first);
    assert(hs[k].0 == n && hs[k].1 & second != 0);
}

/// The pattern that spells these segments literally.
pub open spec fn literal(segs: Seq<Seq<char>>) -> Seq<SegmentView> {
    segs.map_values(|s: Seq<char>| SegmentView::Named(s))
}

/// A request whose path spells a pattern of the tree literally reaches that
/// pattern's node, and there the handler that serves its method.
pub proof fn lemma_literal_route(es: Seq<EdgeView>, hs: Seq<(int, u16)>, method: HttpMethod, segs: Seq<Seq<char>>)
    requires
        pattern_node(es, literal(segs)) is Some,
    ensures
        descend(es, segs) == pattern_node(es, literal(segs)),
        resolve_spec(es, hs, method, segs) == handler_for(hs, pattern_node(es, literal(segs)).unwrap(), method),
    decreases segs.len(),
{
    if segs.len() > 0 {
        assert(literal(segs).drop_last() =~= literal(segs.drop_last()));
        assert(literal(segs).last() == SegmentView::Named(segs.last()));
        lemma_literal_route(es, hs, method, segs.drop_last());
    }
}

/// Below a node with no child of either name, two segments lead to the same
/// place, the wildcard child, and so to the same handler.
pub proof fn lemma_wildcard_alike(
    es: Seq<EdgeView>,
    hs: Seq<(int, u16)>,
    method: HttpMethod,
    prefix: Seq<Seq<char>>,
    x: Seq<char>,
    y: Seq<char>,
)
    requires
        descend(es, prefix) matches Some(n) && child_of(es, n, SegmentView::Named(x)) is None && child_of(
            es,
            n,
            SegmentView::Named(y),
        ) is None,
    ensures
        descend(es, prefix.push(x)) == descend(es, prefix.push(y)),
        resolve_spec(es, hs, method, prefix.push(x)) == resolve_spec(es, hs, method, prefix.push(y)),
{
    assert(prefix.push(x).drop_last() =~= prefix);
    assert(prefix.push(y).drop_last() =~= prefix);
}

/// The edge is a step of the pattern: it leaves the node of a prefix of the
/// pattern along the segment that follows that prefix.
pub open spec fn along_pattern(es: Seq<EdgeView>, pat: Seq<SegmentView>, e: EdgeView) -> bool {
    exists|d: int|
        0 <= d < pat.len() && pattern_node(es, pat.subrange(0, d)) == Some(e.parent) && e.seg == #[trigger] pat[d]
}

/// No two edges leave one node along the same segment: sibling names are
/// distinct and a node has at most one wildcard child.
pub open spec fn siblings_distinct(es: Seq<EdgeView>) -> bool {
    forall|i: int, j: int|
        0 <= i < j < es.len() ==> !((#[trigger] es[i]).parent == (#[trigger] es[j]).parent && es[i].seg
            == es[j].seg)
}

/// No two handlers of one node share a method.
pub open spec fn masks_disjoint(hs: Seq<(int, u16)>) -> bool {
    forall|i: int, j: int|
        0 <= i < j < hs.len() && (#[trigger] hs[i]).0 == (#[trigger] hs[j]).0 ==> hs[i].1 & hs[j].1 == 0
}

/// The nodes that routing visits along a request path, the root first; it
/// stops where no child matches.
pub open spec fn visited(es: Seq<EdgeView>, segs: Seq<Seq<char>>) -> Seq<int>
    decreases segs.len(),
{
    if segs.len() == 0 {
        seq![0]
    } else {
        match descend(es, segs) {
            Some(n) => visited(es, segs.drop_last()).push(n),
            None => visited(es, segs.drop_last()),
        }
    }
}

/// The request after the pre-request hooks attached to `node`, in the order
/// they were attached.
pub open spec fn pre_at<P: PreHook>(pre: Seq<(int, P)>, node: int, req: Request) -> Request
    decreases pre.len(),
{
    if pre.len() == 0 {
        req
    } else {
        let r = pre_at(pre.drop_last(), node, req);
        if pre.last().0 == node {
            pre.last().1.spec_apply(r)
        } else {
            r
        }
    }
}

/// The request after the pre-request hooks of each node in turn.
pub open spec fn pre_along<P: PreHook>(pre: Seq<(int, P)>, nodes: Seq<int>, req: Request) -> Request
    decreases nodes.len(),
{
    if nodes.len() == 0 {
        req
    } else {
        pre_at(pre, nodes.last(), pre_along(pre, nodes.drop_last(), req))
    }
}

/// The result after the post-response hooks attached to `node`, in the
/// order they were attached.
pub open spec fn post_at<Q: PostHook>(post: Seq<(int, Q)>, node: int, res: ResponseResult) -> ResponseResult
    decreases post.len(),
{
    if post.len() == 0 {
        res
    } else {
        let r = post_at(post.drop_last(), node, res);
        if post.last().0 == node {
            post.last().1.spec_apply(r)
        } else {
            r
        }
    }
}

/// The result after the post-response hooks of each node, from the last
/// node back to the first.
pub open spec fn post_along<Q: PostHook>(post: Seq<(int, Q)>, nodes: Seq<int>, res: ResponseResult) -> ResponseResult
    decreases nodes.len(),
{
    if nodes.len() == 0 {
        res
    } else {
        post_along(post, nodes.drop_last(), post_at(post, nodes.last(), res))
    }
}

proof fn lemma_no_pre_hooks<P: PreHook>(pre: Seq<(int, P)>, nodes: Seq<int>, req: Request)
    requires
        pre.len() == 0,
    ensures
        pre_along(pre, nodes, req) == req,
    decreases nodes.len(),
{
    if nodes.len() > 0 {
        lemma_no_pre_hooks(pre, nodes.drop_last(), req);
    }
}

proof fn lemma_no_post_hooks<Q: PostHook>(post: Seq<(int, Q)>, nodes: Seq<int>, res: ResponseResult)
    requires
        post.len() == 0,
    ensures
        post_along(post, nodes, res) == res,
    decreases nodes.len(),
{
    if nodes.len() > 0 {
        lemma_no_post_hooks(post, nodes.drop_last(), res);
    }
}

proof fn lemma_visited_none_stays(es: Seq<EdgeView>, ss: Seq<Seq<char>>, k: int)
    requires
        0 <= k <= ss.len(),
        descend(es, ss.subrange(0, k)) is None,
    ensures
        visited(es, ss) == visited(es, ss.subrange(0, k)),
    decreases ss.len() - k,
{
    if k == ss.len() {
        assert(ss.subrange(0, k) =~= ss);
    } else {
        assert(ss.subrange(0, k + 1).drop_last() =~= ss.subrange(0, k));
        lemma_visited_none_stays(es, ss, k + 1);
    }
}

proof fn lemma_child_from_none(es: Seq<EdgeView>, node: int, seg: SegmentView, j: int)
    requires
        0 <= j,
        child_from(es, node, seg, j) is None,
    ensures
        forall|k: int| j <= k < es.len() ==> !((#[trigger] es[k]).parent == node && es[k].seg == seg),
    decreases es.len() - j,
{
    if j < es.len() {
        lemma_child_from_none(es, node, seg, j + 1);
    }
}

// ---------------------------------------------------------------------------
// The tree

/// The routing tree with its handlers and middleware.
pub struct Route<H, P, Q> {
    edges: Vec<Edge>,
    handlers: Vec<Handler<H>>,
    pre_middleware: Vec<(usize, PreMiddleware<P>)>,
    post_middleware: Vec<(usize, PostMiddleware<Q>)>,
}

impl<H, P, Q> Route<H, P, Q> {
    /// The edges, in the order they were made.
    pub closed spec fn edges_view(&self) -> Seq<EdgeView> {
        self.edges@.map_values(|e: Edge| e@)
    }

    /// The handlers' nodes and masks, in the order they were registered.
    pub closed spec fn handlers_view(&self) -> Seq<(int, u16)> {
        self.handlers@.map_values(|h: Handler<H>| h.key())
    }

    /// The handler with index `k`.
    pub closed spec fn handle_at(&self, k: int) -> H {
        self.handlers@[k].handle
    }

    /// The number of nodes: the root and one per edge.
    pub open spec fn node_count(&self) -> int {
        self.edges_view().len() + 1int
    }

    /// No post-response hook is attached anywhere.
    pub open spec fn post_free(&self) -> bool {
        self.post_list().len() == 0
    }

    /// The pre-request hooks with their nodes, in the order attached.
    pub closed spec fn pre_list(&self) -> Seq<(int, P)> {
        self.pre_middleware@.map_values(|e: (usize, PreMiddleware<P>)| (e.0 as int, e.1.hook()))
    }

    /// The post-response hooks with their nodes, in the order attached.
    pub closed spec fn post_list(&self) -> Seq<(int, Q)> {
        self.post_middleware@.map_values(|e: (usize, PostMiddleware<Q>)| (e.0 as int, e.1.hook()))
    }

    /// No middleware is attached anywhere.
    pub open spec fn hook_free(&self) -> bool {
        self.pre_list().len() == 0 && self.post_list().len() == 0
    }

    /// Each edge leads from an older node to the node it made; no two edges
    /// leave a node along one segment; no two handlers of a node share a
    /// method; handlers and middleware belong to existing nodes.
    pub closed spec fn wf(&self) -> bool {
        &&& siblings_distinct(self.edges_view())
        &&& masks_disjoint(self.handlers_view())
        &&& forall|i: int|
            0 <= i < self.edges@.len() ==> {
                &&& (#[trigger] self.edges@[i]).child == i + 1
                &&& self.edges@[i].parent < self.edges@[i].child
            }
        &&& forall|k: int| 0 <= k < self.handlers@.len() ==> (#[trigger] self.handlers@[k]).node < self.node_count()
        &&& forall|k: int|
            0 <= k < self.pre_middleware@.len() ==> (#[trigger] self.pre_middleware@[k]).0 < self.node_count()
        &&& forall|k: int|
            0 <= k < self.post_middleware@.len() ==> (#[trigger] self.post_middleware@[k]).0 < self.node_count()
    }

    /// A well-formed tree keeps the invariants of the data model.
    pub proof fn lemma_tree_invariants(&self)
        requires
            self.wf(),
        ensures
            siblings_distinct(self.edges_view()),
            masks_disjoint(self.handlers_view()),
    {
    }

    /// A tree with the root alone.
    pub fn new() -> (r: Self)
        ensures
            r.wf(),
            r.hook_free(),
            r.edges_view() == Seq::<EdgeView>::empty(),
            r.handlers_view() == Seq::<(int, u16)>::empty(),
    {
        let r = Route {
            edges: Vec::new(),
            handlers: Vec::new(),
            pre_middleware: Vec::new(),
            post_middleware: Vec::new(),
        };
        assert(r.edges_view() =~= Seq::<EdgeView>::empty());
        assert(r.handlers_view() =~= Seq::<(int, u16)>::empty());
        r
    }

    /// The methods of the handler with index `k`, as text.
    pub fn handler_methods(&self, k: usize) -> (r: String)
        requires
            k < self.handlers_view().len(),
        ensures
            r@ == mask_text(self.handlers_view()[k as int].1, crate::all_methods_seq()),
    {
        self.handlers[k].methods()
    }

    pub fn handler_count(&self) -> (r: usize)
        ensures
            r == self.handlers_view().len(),
    {
        self.handlers.len()
    }

    pub fn edge_count(&self) -> (r: usize)
        ensures
            r == self.edges_view().len(),
    {
        self.edges.len()
    }

    /// The child reached from `node` along `seg`.
    fn find_child(&self, node: usize, seg: &Segment) -> (r: Option<usize>)
        requires
            self.wf(),
        ensures
            r matches Some(c) ==> child_of(self.edges_view(), node as int, seg@) == Some(c as int),
            r is None ==> child_of(self.edges_view(), node as int, seg@) is None,
    {
        let ghost es = self.edges_view();
        let mut k: usize = 0;
        while k < self.edges.len()
            invariant
                0 <= k <= self.edges@.len(),
                es == self.edges_view(),
                child_of(es, node as int, seg@) == child_from(es, node as int, seg@, k as int),
            decreases self.edges@.len() - k,
        {
            let e = &self.edges[k];
            assert(es[k as int] == e@);
            if e.parent == node {
                let same = match (&e.seg, seg) {
                    (Segment::Named(a), Segment::Named(b)) => chars_equal(a.as_slice(), b.as_slice()),
                    (Segment::Wild, Segment::Wild) => true,
                    _ => false,
                };
                if same {
                    return Some(e.child);
                }
            }
            k = k + 1;
        }
        None
    }

    /// Where a request segment leads from `node`.
    fn find_step(&self, node: usize, s: &Vec<char>) -> (r: Option<usize>)
        requires
            self.wf(),
        ensures
            r matches Some(c) ==> step_to(self.edges_view(), node as int, s@) == Some(c as int),
            r is None ==> step_to(self.edges_view(), node as int, s@) is None,
    {
        let named = Segment::Named(slice_all(s));
        match self.find_child(node, &named) {
            Some(c) => Some(c),
            None => self.find_child(node, &Segment::Wild),
        }
    }

    /// The node that a request path leads to.
    pub fn descend_to(&self, segs: &[Vec<char>]) -> (r: Option<usize>)
        requires
            self.wf(),
        ensures
            r matches Some(n) ==> descend(self.edges_view(), segs@.map_values(|v: Vec<char>| v@)) == Some(
                n as int,
            ),
            r is None ==> descend(self.edges_view(), segs@.map_values(|v: Vec<char>| v@)) is None,
    {
        let ghost ss = segs@.map_values(|v: Vec<char>| v@);
        let mut node: usize = 0;
        let mut i: usize = 0;
        assert(ss.subrange(0, 0) =~= Seq::<Seq<char>>::empty());
        while i < segs.len()
            invariant
                self.wf(),
                0 <= i <= segs@.len(),
                ss == segs@.map_values(|v: Vec<char>| v@),
                descend(self.edges_view(), ss.subrange(0, i as int)) == Some(node as int),
            decreases segs@.len() - i,
        {
            assert(ss.subrange(0, i + 1).drop_last() =~= ss.subrange(0, i as int));
            assert(ss.subrange(0, i + 1).last() == segs@[i as int]@);
            match self.find_step(node, &segs[i]) {
                Some(c) => {
                    node = c;
                },
                None => {
                    proof {
                        lemma_descend_none_stays(self.edges_view(), ss, i + 1);
                    }
                    return None;
                },
            }
            i = i + 1;
        }
        assert(ss.subrange(0, i as int) =~= ss);
        Some(node)
    }

    /// The handler of `node` that serves `method`.
    pub fn find_handler(&self, node: usize, method: HttpMethod) -> (r: Option<usize>)
        ensures
            r matches Some(k) ==> handler_for(self.handlers_view(), node as int, method) == Some(k as int),
            r is None ==> handler_for(self.handlers_view(), node as int, method) is None,
    {
        let ghost hs = self.handlers_view();
        let bit = method.bit();
        let mut k: usize = 0;
        while k < self.handlers.len()
            invariant
                0 <= k <= self.handlers@.len(),
                hs == self.handlers_view(),
                bit == method.spec_bit(),
                handler_for(hs, node as int, method) == handler_from(hs, node as int, bit, k as int),
            decreases self.handlers@.len() - k,
        {
            assert(hs[k as int] == self.handlers@[k as int].key());
            if self.handlers[k].node == node && self.handlers[k].method & bit != 0 {
                return Some(k);
            }
            k = k + 1;
        }
        None
    }

    /// The handler that a request with this method and these path segments
    /// reaches, if the tree has one.
    pub fn resolve(&self, method: HttpMethod, segs: &[Vec<char>]) -> (r: Option<usize>)
        requires
            self.wf(),
        ensures
            r matches Some(k) ==> resolve_spec(
                self.edges_view(),
                self.handlers_view(),
                method,
                segs@.map_values(|v: Vec<char>| v@),
            ) == Some(k as int),
            r is None ==> resolve_spec(
                self.edges_view(),
                self.handlers_view(),
                method,
                segs@.map_values(|v: Vec<char>| v@),
            ) is None,
    {
        match self.descend_to(segs) {
            Some(n) => self.find_handler(n, method),
            None => None,
        }
    }

    /// Whether some handler of `node` serves a method of `mask`.
    fn has_collision(&self, node: usize, mask: u16) -> (r: bool)
        ensures
            r == collides(self.handlers_view(), node as int, mask),
    {
        let ghost hs = self.handlers_view();
        let mut k: usize = 0;
        while k < self.handlers.len()
            invariant
                0 <= k <= self.handlers@.len(),
                hs == self.handlers_view(),
                forall|j: int| 0 <= j < k ==> !((#[trigger] hs[j]).0 == node && hs[j].1 & mask != 0),
            decreases self.handlers@.len() - k,
        {
            assert(hs[k as int] == self.handlers@[k as int].key());
            if self.handlers[k].node == node && self.handlers[k].method & mask != 0 {
                return true;
            }
            k = k + 1;
        }
        false
    }

    /// Registers `handle` for the methods of `mask` at the node that `pat`
    /// names, making the nodes that are missing. Fails, changing nothing,
    /// where a handler there serves a method of `mask` already.
    pub fn insert(&mut self, method: u16, pat: &[Segment], handle: H) -> (r: Result<(), HandlerCollision>)
        requires
            old(self).wf(),
            old(self).edges_view().len() + pat@.len() < usize::MAX,
        ensures
            final(self).wf(),
            final(self).hook_free() == old(self).hook_free(),
            r is Err <==> blocked(
                old(self).edges_view(),
                old(self).handlers_view(),
                pat@.map_values(|s: Segment| s@),
                method,
            ),
            r is Err ==> *final(self) == *old(self),
            r is Ok ==> {
                &&& pattern_node(final(self).edges_view(), pat@.map_values(|s: Segment| s@)) matches Some(n)
                &&& final(self).handlers_view() == old(self).handlers_view().push((n, method))
                &&& final(self).handle_at(old(self).handlers_view().len() as int) == handle
            },
            final(self).edges_view().subrange(0, old(self).edges_view().len() as int)
                == old(self).edges_view(),
            final(self).edges_view().len() <= old(self).edges_view().len() + pat@.len(),
            pattern_node(old(self).edges_view(), pat@.map_values(|s: Segment| s@)) is Some
                ==> final(self).edges_view() == old(self).edges_view(),
            forall|k: int|
                old(self).edges_view().len() <= k < final(self).edges_view().len() ==> along_pattern(
                    final(self).edges_view(),
                    pat@.map_values(|s: Segment| s@),
                    #[trigger] final(self).edges_view()[k],
                ),
            siblings_distinct(final(self).edges_view()),
            masks_disjoint(final(self).handlers_view()),
            final(self).pre_list() == old(self).pre_list(),
            final(self).post_list() == old(self).post_list(),
            forall|p: Seq<SegmentView>, m: u16|
                registered(old(self).edges_view(), old(self).handlers_view(), p, m) ==> registered(
                    final(self).edges_view(),
                    final(self).handlers_view(),
                    p,
                    m,
                ),
    {
        let ghost ps = pat@.map_values(|s: Segment| s@);
        let ghost old_es = self.edges_view();
        let ghost old_hs = self.handlers_view();
        let mut node: usize = 0;
        let mut i: usize = 0;
        let mut made = false;
        assert(ps.subrange(0, 0) =~= Seq::<SegmentView>::empty());
        while i < pat.len()
            invariant
                self.wf(),
                0 <= i <= pat@.len(),
                ps == pat@.map_values(|s: Segment| s@),
                self.handlers_view() == old_hs,
                self.hook_free() == old(self).hook_free(),
                self.pre_middleware@ == old(self).pre_middleware@,
                self.post_middleware@ == old(self).post_middleware@,
                self.handlers@ == old(self).handlers@,
                self.edges_view().subrange(0, old_es.len() as int) == old_es,
                self.edges_view().len() <= old_es.len() + i,
                old_es.len() + pat@.len() < usize::MAX,
                pattern_node(self.edges_view(), ps.subrange(0, i as int)) == Some(node as int),
                node < self.node_count(),
                self.edges_view().len() >= old_es.len(),
                forall|k: int|
                    0 <= k < self.handlers@.len() ==> (#[trigger] self.handlers@[k]).node <= old_es.len(),
                !made ==> self.edges_view() == old_es,
                !made ==> *self == *old(self),
                forall|k: int|
                    old_es.len() <= k < self.edges_view().len() ==> along_pattern(
                        self.edges_view(),
                        ps,
                        #[trigger] self.edges_view()[k],
                    ),
                made ==> pattern_node(old_es, ps.subrange(0, i as int)) is None,
                made ==> node > old_es.len(),
            decreases pat@.len() - i,
        {
            let ghost es = self.edges_view();
            assert(ps.subrange(0, i + 1).drop_last() =~= ps.subrange(0, i as int));
            assert(ps.subrange(0, i + 1).last() == pat@[i as int]@);
            match self.find_child(node, &pat[i]) {
                Some(c) => {
                    proof {
                        if made {
                            assert(pattern_node(old_es, ps.subrange(0, i + 1)) is None);
                        }
                    }
                    proof {
                        lemma_child_from_edge(es, node as int, pat@[i as int]@, 0);
                        let k = choose|k: int|
                            0 <= k < es.len() && (#[trigger] es[k]).parent == node as int && es[k].child == c as int;
                        assert(es[k] == self.edges@[k]@);
                    }
                    node = c;
                },
                None => {
                    let fresh = self.edges.len() + 1;
                    let seg = copy_segment(&pat[i]);
                    let ghost e = EdgeView { parent: node as int, seg: seg@, child: fresh as int };
                    proof {
                        assert(pattern_node(old_es, ps.subrange(0, i + 1)) is None);
                        lemma_child_from_none(es, node as int, seg@, 0);
                    }
                    self.edges.push(Edge { parent: node, seg, child: fresh });
                    proof {
                        assert(self.edges_view() =~= es.push(e));
                        assert(siblings_distinct(self.edges_view()));
                        let es2 = self.edges_view();
                        lemma_pattern_node_extend(es, seq![e], ps.subrange(0, i as int));
                        assert(es + seq![e] =~= es2);
                        assert forall|k: int| old_es.len() <= k < es2.len() implies along_pattern(
                            es2,
                            ps,
                            #[trigger] es2[k],
                        ) by {
                            if k < es.len() {
                                assert(es2[k] == es[k]);
                                assert(along_pattern(es, ps, es[k]));
                                let d = choose|d: int|
                                    0 <= d < ps.len() && pattern_node(es, ps.subrange(0, d)) == Some(es[k].parent)
                                        && es[k].seg == #[trigger] ps[d];
                                lemma_pattern_node_extend(es, seq![e], ps.subrange(0, d));
                                assert(ps[d] == es2[k].seg);
                                assert(pattern_node(es2, ps.subrange(0, d)) == Some(es2[k].parent));
                            } else {
                                assert(es2[k] == e);
                                assert(ps[i as int] == e.seg);
                                assert(pattern_node(es2, ps.subrange(0, i as int)) == Some(e.parent));
                            }
                        }
                        lemma_child_from_push_new(es, e, 0);
                        lemma_pattern_node_extend(es, seq![e], ps.subrange(0, i as int));
                        assert(es + seq![e] =~= es.push(e));
                        assert(self.edges_view().subrange(0, old_es.len() as int) =~= es.subrange(
                            0,
                            old_es.len() as int,
                        ));
                    }
                    node = fresh;
                    made = true;
                },
            }
            i = i + 1;
        }
        assert(ps.subrange(0, i as int) =~= ps);
        if self.has_collision(node, method) {
            proof {
                if made {
                    let hs = self.handlers_view();
                    let k = choose|k: int| 0 <= k < hs.len() && (#[trigger] hs[k]).0 == node && hs[k].1 & method != 0;
                    assert(hs[k] == self.handlers@[k].key());
                    assert(false);
                }
            }
            return Err(HandlerCollision);
        }
        let ghost es_now = self.edges_view();
        proof {
            if made {
                assert(pattern_node(old_es, ps) is None);
            } else {
                assert(es_now == old_es);
            }
        }
        self.handlers.push(Handler { node, method, handle });
        proof {
            assert(self.handlers_view() =~= old_hs.push((node as int, method)));
            assert forall|p: Seq<SegmentView>, m: u16|
                registered(old_es, old_hs, p, m) implies registered(self.edges_view(), self.handlers_view(), p, m) by {
                let n = pattern_node(old_es, p).unwrap();
                assert(es_now =~= old_es + es_now.subrange(old_es.len() as int, es_now.len() as int));
                lemma_pattern_node_extend(old_es, es_now.subrange(old_es.len() as int, es_now.len() as int), p);
                let k = choose|k: int| 0 <= k < old_hs.len() && #[trigger] old_hs[k] == (n, m);
                assert(self.handlers_view()[k] == (n, m));
            }
        }
        Ok(())
    }

    /// Attaches a hook to run on requests at `node`.
    pub fn add_pre(&mut self, node: usize, mw: PreMiddleware<P>)
        requires
            old(self).wf(),
            node < old(self).node_count(),
        ensures
            final(self).wf(),
            final(self).pre_list() == old(self).pre_list().push((node as int, mw.hook())),
            final(self).post_list() == old(self).post_list(),
            final(self).edges_view() == old(self).edges_view(),
            final(self).handlers_view() == old(self).handlers_view(),
    {
        self.pre_middleware.push((node, mw));
        assert(self.pre_list() =~= old(self).pre_list().push((node as int, mw.hook())));
    }

    /// Attaches a hook to run on results at `node`.
    pub fn add_post(&mut self, node: usize, mw: PostMiddleware<Q>)
        requires
            old(self).wf(),
            node < old(self).node_count(),
        ensures
            final(self).wf(),
            final(self).post_list() == old(self).post_list().push((node as int, mw.hook())),
            final(self).pre_list() == old(self).pre_list(),
            final(self).edges_view() == old(self).edges_view(),
            final(self).handlers_view() == old(self).handlers_view(),
    {
        self.post_middleware.push((node, mw));
        assert(self.post_list() =~= old(self).post_list().push((node as int, mw.hook())));
    }
}

impl<H: Handle, P: PreHook, Q: PostHook> Route<H, P, Q> {
    /// What the serving node's handler answers, after the pre-request hooks
    /// of the visited nodes rewrote the request; not found where the path
    /// leads nowhere or no handler there serves the rewritten method.
    pub open spec fn served(&self, req: Request, segs: Seq<Seq<char>>) -> ResponseResult {
        let r = pre_along(self.pre_list(), visited(self.edges_view(), segs), req);
        match descend(self.edges_view(), segs) {
            Some(n) => match handler_for(self.handlers_view(), n, r@.method) {
                Some(k) => self.handle_at(k).spec_call(r),
                None => Err(HandlerError::NotFound),
            },
            None => Err(HandlerError::NotFound),
        }
    }

    /// The outcome of routing: what was served, after the post-response
    /// hooks of the visited nodes, from the last node back to the root.
    pub open spec fn route_spec(&self, req: Request, segs: Seq<Seq<char>>) -> ResponseResult {
        post_along(self.post_list(), visited(self.edges_view(), segs), self.served(req, segs))
    }

    /// Without middleware, routing answers with the handler that the
    /// request's method and path resolve to, called on the request itself,
    /// and with not found where none does.
    pub proof fn lemma_hook_free_route(&self, req: Request, segs: Seq<Seq<char>>)
        requires
            self.hook_free(),
        ensures
            self.route_spec(req, segs) == match resolve_spec(
                self.edges_view(),
                self.handlers_view(),
                req@.method,
                segs,
            ) {
                Some(k) => self.handle_at(k).spec_call(req),
                None => Err(HandlerError::NotFound),
            },
    {
        lemma_no_pre_hooks(self.pre_list(), visited(self.edges_view(), segs), req);
        lemma_no_post_hooks(self.post_list(), visited(self.edges_view(), segs), self.served(req, segs));
    }

    /// Without middleware, two requests with one method whose paths differ
    /// only in a last segment that no named child below the same node
    /// matches reach the same handler through the wildcard child, each
    /// called on its own unchanged request.
    pub proof fn lemma_wildcard_route(
        &self,
        req1: Request,
        req2: Request,
        prefix: Seq<Seq<char>>,
        x: Seq<char>,
        y: Seq<char>,
    )
        requires
            self.hook_free(),
            req1@.method == req2@.method,
            descend(self.edges_view(), prefix) matches Some(n) && child_of(
                self.edges_view(),
                n,
                SegmentView::Named(x),
            ) is None && child_of(self.edges_view(), n, SegmentView::Named(y)) is None,
        ensures
            match resolve_spec(self.edges_view(), self.handlers_view(), req1@.method, prefix.push(x)) {
                Some(k) => {
                    &&& self.route_spec(req1, prefix.push(x)) == self.handle_at(k).spec_call(req1)
                    &&& self.route_spec(req2, prefix.push(y)) == self.handle_at(k).spec_call(req2)
                },
                None => {
                    &&& self.route_spec(req1, prefix.push(x)) == Err::<Response, HandlerError>(
                        HandlerError::NotFound,
                    )
                    &&& self.route_spec(req2, prefix.push(y)) == Err::<Response, HandlerError>(
                        HandlerError::NotFound,
                    )
                },
            },
    {
        lemma_wildcard_alike(self.edges_view(), self.handlers_view(), req1@.method, prefix, x, y);
        self.lemma_hook_free_route(req1, prefix.push(x));
        self.lemma_hook_free_route(req2, prefix.push(y));
    }

    /// Runs the hooks attached to `node` on a request, in the order they
    /// were attached.
    fn apply_pre(&self, node: usize, req: Request) -> (r: Request)
        ensures
            r == pre_at(self.pre_list(), node as int, req),
    {
        let ghost pre = self.pre_list();
        let mut req = req;
        let ghost first = req;
        let mut k: usize = 0;
        assert(pre.subrange(0, 0) =~= Seq::<(int, P)>::empty());
        while k < self.pre_middleware.len()
            invariant
                0 <= k <= self.pre_middleware@.len(),
                pre == self.pre_list(),
                req == pre_at(pre.subrange(0, k as int), node as int, first),
            decreases self.pre_middleware@.len() - k,
        {
            assert(pre.subrange(0, k + 1).drop_last() =~= pre.subrange(0, k as int));
            assert(pre.subrange(0, k + 1).last() == pre[k as int]);
            if self.pre_middleware[k].0 == node {
                req = self.pre_middleware[k].1.use_mw(req);
            }
            k = k + 1;
        }
        assert(pre.subrange(0, k as int) =~= pre);
        req
    }

    /// Runs the hooks attached to `node` on a result, in the order they
    /// were attached.
    fn apply_post(&self, node: usize, res: ResponseResult) -> (r: ResponseResult)
        ensures
            r == post_at(self.post_list(), node as int, res),
    {
        let ghost post = self.post_list();
        let mut res = res;
        let ghost first = res;
        let mut k: usize = 0;
        assert(post.subrange(0, 0) =~= Seq::<(int, Q)>::empty());
        while k < self.post_middleware.len()
            invariant
                0 <= k <= self.post_middleware@.len(),
                post == self.post_list(),
                res == post_at(post.subrange(0, k as int), node as int, first),
            decreases self.post_middleware@.len() - k,
        {
            assert(post.subrange(0, k + 1).drop_last() =~= post.subrange(0, k as int));
            assert(post.subrange(0, k + 1).last() == post[k as int]);
            if self.post_middleware[k].0 == node {
                res = self.post_middleware[k].1.use_mw(res);
            }
            k = k + 1;
        }
        assert(post.subrange(0, k as int) =~= post);
        res
    }

    /// Hands the request to the handler of `node` that serves its method.
    pub fn serve(&self, node: usize, req: Request) -> (r: ResponseResult)
        ensures
            r == match handler_for(self.handlers_view(), node as int, req@.method) {
                Some(k) => self.handle_at(k).spec_call(req),
                None => Err(HandlerError::NotFound),
            },
    {
        match self.find_handler(node, req.method()) {
            Some(k) => {
                proof {
                    lemma_handler_from_bounds(self.handlers_view(), node as int, req@.method.spec_bit(), 0);
                }
                self.handlers[k].handle.call(req)
            },
            None => Err(HandlerError::NotFound),
        }
    }

    /// Routes a request along its path segments. At each node on the way,
    /// the root included, the node's pre-request hooks run on the request
    /// before the next step is decided; a segment leads to the child of
    /// that name, else to the wildcard child. At the end the handler of the
    /// last node that serves the (rewritten) request's method is called.
    /// Then the post-response hooks of the nodes on the way run on the
    /// result, from the last node back to the root.
    pub fn route(&self, req: Request, segs: &[Vec<char>]) -> (r: ResponseResult)
        requires
            self.wf(),
        ensures
            r == self.route_spec(req, segs@.map_values(|v: Vec<char>| v@)),
    {
        let ghost ss = segs@.map_values(|v: Vec<char>| v@);
        let ghost es = self.edges_view();
        let ghost pre = self.pre_list();
        let ghost first = req;
        let mut visited_nodes: Vec<usize> = Vec::new();
        let mut node: usize = 0;
        visited_nodes.push(0);
        let mut req = self.apply_pre(0, req);
        let mut reached = true;
        let mut i: usize = 0;
        assert(ss.subrange(0, 0) =~= Seq::<Seq<char>>::empty());
        assert(visited_nodes@.map_values(|x: usize| x as int) =~= seq![0int]);
        assert(seq![0int].drop_last() =~= Seq::<int>::empty());
        assert(pre_along(pre, Seq::<int>::empty(), first) == first);
        assert(seq![0int].last() == 0);
        assert(pre_along(pre, seq![0int], first) == pre_at(pre, 0, first));
        assert(visited(es, Seq::<Seq<char>>::empty()) == seq![0int]);
        while i < segs.len() && reached
            invariant
                self.wf(),
                0 <= i <= segs@.len(),
                ss == segs@.map_values(|v: Vec<char>| v@),
                es == self.edges_view(),
                pre == self.pre_list(),
                req == pre_along(pre, visited_nodes@.map_values(|x: usize| x as int), first),
                reached ==> descend(es, ss.subrange(0, i as int)) == Some(node as int),
                reached ==> visited_nodes@.map_values(|x: usize| x as int) == visited(es, ss.subrange(0, i as int)),
                !reached ==> descend(es, ss) is None,
                !reached ==> visited_nodes@.map_values(|x: usize| x as int) == visited(es, ss),
            decreases segs@.len() - i, (if reached { 1int } else { 0int }),
        {
            let ghost vis = visited_nodes@.map_values(|x: usize| x as int);
            assert(ss.subrange(0, i + 1).drop_last() =~= ss.subrange(0, i as int));
            assert(ss.subrange(0, i + 1).last() == segs@[i as int]@);
            match self.find_step(node, &segs[i]) {
                Some(c) => {
                    node = c;
                    visited_nodes.push(c);
                    proof {
                        assert(visited_nodes@.map_values(|x: usize| x as int) =~= vis.push(c as int));
                        assert(vis.push(c as int).drop_last() =~= vis);
                    }
                    req = self.apply_pre(c, req);
                    i = i + 1;
                },
                None => {
                    proof {
                        lemma_descend_none_stays(es, ss, i + 1);
                        lemma_visited_none_stays(es, ss, i + 1);
                    }
                    reached = false;
                },
            }
        }
        if reached {
            assert(ss.subrange(0, i as int) =~= ss);
        }
        let ghost vis = visited_nodes@.map_values(|x: usize| x as int);
        let mut res = if reached {
            self.serve(node, req)
        } else {
            Err(HandlerError::NotFound)
        };
        assert(res == self.served(first, ss));
        let ghost post = self.post_list();
        let mut j: usize = visited_nodes.len();
        assert(vis.subrange(0, j as int) =~= vis);
        while j > 0
            invariant
                0 <= j <= visited_nodes@.len(),
                vis == visited_nodes@.map_values(|x: usize| x as int),
                vis == visited(es, ss),
                post == self.post_list(),
                post_along(post, vis.subrange(0, j as int), res) == self.route_spec(first, ss),
            decreases j,
        {
            assert(vis.subrange(0, j as int).drop_last() =~= vis.subrange(0, j - 1));
            assert(vis.subrange(0, j as int).last() == visited_nodes@[j - 1] as int);
            res = self.apply_post(visited_nodes[j - 1], res);
            j = j - 1;
        }
        assert(vis.subrange(0, 0) =~= Seq::<int>::empty());
        res
    }
}

/// A second handler claimed a method that a handler at the same node serves.
#[derive(Debug, Clone, Copy, PartialEq, Eq, Structural)]
pub struct HandlerCollision;

fn slice_all(v: &Vec<char>) -> (r: Vec<char>)
    ensures
        r@ == v@,
{
    crate::text::slice_chars(v.as_slice(), 0, v.len())
}

fn copy_segment(s: &Segment) -> (r: Segment)
    ensures
        r@ == s@,
{
    match s {
        Segment::Named(v) => Segment::Named(slice_all(v)),
        Segment::Wild => Segment::Wild,
    }
}

proof fn lemma_descend_none_stays(es: Seq<EdgeView>, ss: Seq<Seq<char>>, k: int)
    requires
        0 <= k <= ss.len(),
        descend(es, ss.subrange(0, k)) is None,
    ensures
        descend(es, ss) is None,
    decreases ss.len() - k,
{
    if k == ss.len() {
        assert(ss.subrange(0, k) =~= ss);
    } else {
        assert(ss.subrange(0, k + 1).drop_last() =~= ss.subrange(0, k));
        lemma_descend_none_stays(es, ss, k + 1);
    }
}

proof fn lemma_handler_from_bounds(hs: Seq<(int, u16)>, node: int, bit: u16, j: int)
    ensures
        handler_from(hs, node, bit, j) matches Some(k) ==> 0 <= k < hs.len(),
    decreases hs.len() - j,
{
    if 0 <= j < hs.len() && !(hs[j].0 == node && hs[j].1 & bit != 0) {
        lemma_handler_from_bounds(hs, node, bit, j + 1);
    }
}

proof fn lemma_child_from_edge(es: Seq<EdgeView>, node: int, seg: SegmentView, j: int)
    ensures
        child_from(es, node, seg, j) matches Some(c) ==> exists|k: int|
            0 <= k < es.len() && (#[trigger] es[k]).parent == node && es[k].child == c,
    decreases es.len() - j,
{
    if 0 <= j < es.len() && !(es[j].parent == node && es[j].seg == seg) {
        lemma_child_from_edge(es, node, seg, j + 1);
    }
}

} // verus!
