//! The facade: a builder that registers routes and middleware, and the
//! immutable router it yields.
use vstd::prelude::*;
use std::sync::Arc;
use crate::HttpMethod;
use crate::middleware::{PostHook, PostMiddleware, PreHook, PreMiddleware};
use crate::request::{lemma_split_on_nonempty, path_segments, split_chars, split_on, Request};
use crate::response::{Response, StatusCode};
use crate::route::{blocked, descend, pattern_node, resolve_spec, Handle, Route, Segment, SegmentView};
use crate::text::{chars_of, slice_chars};

verus! {

/// Why a router could not be built.
#[derive(Debug, Clone, Copy, PartialEq, Eq, Structural)]
pub enum BuildError {
    /// A path pattern does not start with `/`.
    BadPattern,
    /// Two handlers at one node claim a common method.
    MethodCollision,
    /// The tree has outgrown the machine's index range.
    TooManyRoutes,
}

/// The pattern segment that a piece of a path pattern stands for: `_` is
/// the wildcard.
pub open spec fn segment_of(t: Seq<char>) -> SegmentView {
    if t == seq!['_'] {
        SegmentView::Wild
    } else {
        SegmentView::Named(t)
    }
}

/// The pattern of the pieces, up to the first empty one.
pub open spec fn pattern_from(pieces: Seq<Seq<char>>) -> Seq<SegmentView>
    decreases pieces.len(),
{
    if pieces.len() == 0 || pieces[0].len() == 0 {
        Seq::empty()
    } else {
        seq![segment_of(pieces[0])] + pattern_from(pieces.drop_first())
    }
}

/// The pattern of a path such as `/items/_`; none where the path does not
/// start with `/`.
pub open spec fn route_pattern(path: Seq<char>) -> Option<Seq<SegmentView>> {
    let ps = split_on(path, '/');
    if ps.len() > 0 && ps[0].len() == 0 {
        Some(pattern_from(ps.drop_first()))
    } else {
        None
    }
}

/// Reads a path pattern.
pub fn pattern_of_path(path: &str) -> (r: Option<Vec<Segment>>)
    ensures
        match route_pattern(path@) {
            Some(p) => r matches Some(v) && v@.map_values(|s: Segment| s@) == p,
            None => r is None,
        },
{
    let text = chars_of(path);
    let pieces = split_chars(text.as_slice(), '/');
    let ghost ps = pieces@.map_values(|v: Vec<char>| v@);
    proof {
        lemma_split_on_nonempty(path@, '/');
    }
    assert(ps[0] == pieces@[0]@);
    if pieces[0].len() != 0 {
        return None;
    }
    let mut out: Vec<Segment> = Vec::new();
    let mut i: usize = 1;
    let mut open = true;
    let ghost tail = ps.drop_first();
    assert(ps.subrange(1, ps.len() as int) =~= tail);
    assert(out@.map_values(|s: Segment| s@) =~= Seq::<SegmentView>::empty());
    while i < pieces.len() && open
        invariant
            1 <= i <= pieces@.len(),
            ps == pieces@.map_values(|v: Vec<char>| v@),
            tail == ps.drop_first(),
            open ==> out@.map_values(|s: Segment| s@) + pattern_from(ps.subrange(i as int, ps.len() as int))
                == pattern_from(tail),
            !open ==> out@.map_values(|s: Segment| s@) == pattern_from(tail),
        decreases pieces@.len() - i, (if open { 1int } else { 0int }),
    {
        let ghost rest = ps.subrange(i as int, ps.len() as int);
        assert(rest[0] == pieces@[i as int]@);
        assert(rest.drop_first() =~= ps.subrange(i + 1, ps.len() as int));
        let ghost before = out@.map_values(|s: Segment| s@);
        if pieces[i].len() == 0 {
            assert(pattern_from(rest) =~= Seq::<SegmentView>::empty());
            assert(before + Seq::<SegmentView>::empty() =~= before);
            open = false;
        } else {
            let underscore = vec!['_'];
            let seg = if crate::chars_equal(pieces[i].as_slice(), underscore.as_slice()) {
                assert(underscore@ =~= seq!['_']);
                Segment::Wild
            } else {
                assert(underscore@ =~= seq!['_']);
                let t = slice_chars(pieces[i].as_slice(), 0, pieces[i].len());
                assert(t@ =~= rest[0]);
                Segment::Named(t)
            };
            assert(seg@ == segment_of(rest[0]));
            out.push(seg);
            assert(out@.map_values(|s: Segment| s@) =~= before.push(seg@));
            assert(before.push(seg@) + pattern_from(rest.drop_first()) =~= before + (seq![seg@]
                + pattern_from(rest.drop_first())));
            i = i + 1;
        }
    }
    if open {
        assert(ps.subrange(i as int, ps.len() as int) =~= Seq::<Seq<char>>::empty());
        assert(out@.map_values(|s: Segment| s@) + Seq::<SegmentView>::empty() =~= out@.map_values(
            |s: Segment| s@,
        ));
    }
    Some(out)
}

/// The response is the one sent where no handler serves a request.
pub open spec fn is_not_found(r: Response) -> bool {
    &&& r.version == crate::HttpVersion::OnePointOne
    &&& r.code == StatusCode::ServerError
    &&& r.headers.contents() == Set::<crate::header::HeaderPair>::empty()
    &&& r.body@ == Seq::<char>::empty()
}

/// A built routing tree. Nothing changes it, so any number of callers may
/// share it.
pub struct Router<H, P, Q> {
    index: Route<H, P, Q>,
}

impl<H, P, Q> Router<H, P, Q> {
    pub closed spec fn tree(&self) -> Route<H, P, Q> {
        self.index
    }

    pub closed spec fn wf(&self) -> bool {
        self.index.wf()
    }

    pub fn builder() -> (r: RouterBuilder<H, P, Q>)
        ensures
            r.wf(),
            r.error() is None,
            r.tree().hook_free(),
            r.tree().edges_view().len() == 0,
            r.tree().handlers_view().len() == 0,
    {
        RouterBuilder::new()
    }
}

impl<H: Handle, P: PreHook, Q: PostHook> Router<H, P, Q> {
    /// Routes a request; where routing ends in an error, the not-found
    /// response is returned.
    pub fn route(&self, req: Request) -> (r: Response)
        requires
            self.wf(),
        ensures
            match self.tree().route_spec(req, path_segments(req@.path)) {
                Ok(x) => r == x,
                Err(_) => is_not_found(r),
            },
    {
        let segs = req.path_segments();
        match self.index.route(req, segs.as_slice()) {
            Ok(r) => r,
            Err(_e) => Response::not_found(),
        }
    }
}

/// Collects routes and middleware, then yields a router.
pub struct RouterBuilder<H, P, Q> {
    index: Route<H, P, Q>,
    error: Option<BuildError>,
}

impl<H, P, Q> RouterBuilder<H, P, Q> {
    pub closed spec fn tree(&self) -> Route<H, P, Q> {
        self.index
    }

    /// The first error met, which `build` reports.
    pub closed spec fn error(&self) -> Option<BuildError> {
        self.error
    }

    pub closed spec fn wf(&self) -> bool {
        self.index.wf()
    }

    pub fn new() -> (r: Self)
        ensures
            r.wf(),
            r.error() is None,
            r.tree().hook_free(),
            r.tree().edges_view().len() == 0,
            r.tree().handlers_view().len() == 0,
    {
        RouterBuilder { index: Route::new(), error: None }
    }

    /// Registers `handle` for the methods of the mask `methods` at the path
    /// pattern `path`. Once an error was met, registration stops.
    pub fn on(self, methods: u16, path: &str, handle: H) -> (r: Self)
        requires
            self.wf(),
        ensures
            r.wf(),
            self.error() is Some ==> r.error() == self.error() && r.tree() == self.tree(),
            self.error() is None ==> match route_pattern(path@) {
                None => r.error() == Some(BuildError::BadPattern) && r.tree() == self.tree(),
                Some(p) => if self.tree().edges_view().len() + p.len() >= usize::MAX {
                    r.error() == Some(BuildError::TooManyRoutes) && r.tree() == self.tree()
                } else if blocked(self.tree().edges_view(), self.tree().handlers_view(), p, methods) {
                    r.error() == Some(BuildError::MethodCollision) && r.tree() == self.tree()
                } else {
                    &&& r.error() is None
                    &&& pattern_node(self.tree().edges_view(), p) is Some ==> r.tree().edges_view()
                        == self.tree().edges_view()
                    &&& pattern_node(r.tree().edges_view(), p) matches Some(n)
                    &&& r.tree().handlers_view() == self.tree().handlers_view().push((n, methods))
                },
            },
            r.tree().pre_list() == self.tree().pre_list(),
            r.tree().post_list() == self.tree().post_list(),
            forall|p: Seq<SegmentView>, m: u16|
                crate::route::registered(self.tree().edges_view(), self.tree().handlers_view(), p, m)
                    ==> crate::route::registered(r.tree().edges_view(), r.tree().handlers_view(), p, m),
    {
        let mut b = self;
        if b.error.is_some() {
            return b;
        }
        let pat = match pattern_of_path(path) {
            Some(p) => p,
            None => {
                b.error = Some(BuildError::BadPattern);
                return b;
            },
        };
        if b.index.edge_count() >= usize::MAX - pat.len() {
            b.error = Some(BuildError::TooManyRoutes);
            return b;
        }
        match b.index.insert(methods, pat.as_slice(), handle) {
            Ok(()) => {},
            Err(_c) => {
                b.error = Some(BuildError::MethodCollision);
            },
        }
        b
    }

    /// Registers `handle` for `GET` at the path pattern `path`.
    pub fn get(self, path: &str, handle: H) -> (r: Self)
        requires
            self.wf(),
        ensures
            r.wf(),
            self.error() is Some ==> r.error() == self.error() && r.tree() == self.tree(),
            self.error() is None ==> match route_pattern(path@) {
                None => r.error() == Some(BuildError::BadPattern) && r.tree() == self.tree(),
                Some(p) => if self.tree().edges_view().len() + p.len() >= usize::MAX {
                    r.error() == Some(BuildError::TooManyRoutes) && r.tree() == self.tree()
                } else if blocked(
                    self.tree().edges_view(),
                    self.tree().handlers_view(),
                    p,
                    HttpMethod::Get.spec_bit(),
                ) {
                    r.error() == Some(BuildError::MethodCollision) && r.tree() == self.tree()
                } else {
                    &&& r.error() is None
                    &&& pattern_node(self.tree().edges_view(), p) is Some ==> r.tree().edges_view()
                        == self.tree().edges_view()
                    &&& pattern_node(r.tree().edges_view(), p) matches Some(n)
                    &&& r.tree().handlers_view() == self.tree().handlers_view().push(
                        (n, HttpMethod::Get.spec_bit()),
                    )
                },
            },
            r.tree().pre_list() == self.tree().pre_list(),
            r.tree().post_list() == self.tree().post_list(),
            forall|p: Seq<SegmentView>, m: u16|
                crate::route::registered(self.tree().edges_view(), self.tree().handlers_view(), p, m)
                    ==> crate::route::registered(r.tree().edges_view(), r.tree().handlers_view(), p, m),
    {
        self.on(HttpMethod::Get.bit(), path, handle)
    }

    /// Attaches a hook that runs on every request, at the root.
    pub fn premiddleware(self, handle: P) -> (r: Self)
        requires
            self.wf(),
        ensures
            r.wf(),
            r.error() == self.error(),
            r.tree().edges_view() == self.tree().edges_view(),
            r.tree().handlers_view() == self.tree().handlers_view(),
            r.tree().pre_list() == self.tree().pre_list().push((0int, handle)),
            r.tree().post_list() == self.tree().post_list(),
    {
        let mut b = self;
        b.index.add_pre(0, PreMiddleware::new(handle));
        b
    }

    /// Attaches a hook that runs on every result, at the root.
    pub fn postmiddleware(self, handle: Q) -> (r: Self)
        requires
            self.wf(),
        ensures
            r.wf(),
            r.error() == self.error(),
            r.tree().edges_view() == self.tree().edges_view(),
            r.tree().handlers_view() == self.tree().handlers_view(),
            r.tree().post_list() == self.tree().post_list().push((0int, handle)),
            r.tree().pre_list() == self.tree().pre_list(),
    {
        let mut b = self;
        b.index.add_post(0, PostMiddleware::new(handle));
        b
    }

    /// The router, or the first error met while registering.
    pub fn build(self) -> (r: Result<Arc<Router<H, P, Q>>, BuildError>)
        requires
            self.wf(),
        ensures
            match self.error() {
                Some(e) => r == Err::<Arc<Router<H, P, Q>>, BuildError>(e),
                None => r matches Ok(rt) && rt.tree() == self.tree() && rt.wf(),
            },
    {
        match self.error {
            Some(e) => Err(e),
            None => Ok(Arc::new(Router { index: self.index })),
        }
    }
}

} // verus!
