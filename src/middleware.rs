//! Hooks that rewrite a request before it is routed, or a result after it
//! was served.
use vstd::prelude::*;
use crate::request::Request;
use crate::route::ResponseResult;

verus! {

/// A transformation of requests, applied before routing decides.
pub trait PreHook {
    /// What the hook makes of a request.
    spec fn spec_apply(&self, req: Request) -> Request;

    fn apply(&self, req: Request) -> (r: Request)
        ensures
            r == self.spec_apply(req),
    ;
}

/// A transformation of results, applied after a request was served.
pub trait PostHook {
    /// What the hook makes of a result.
    spec fn spec_apply(&self, res: ResponseResult) -> ResponseResult;

    fn apply(&self, res: ResponseResult) -> (r: ResponseResult)
        ensures
            r == self.spec_apply(res),
    ;
}

/// A hook that leaves its input as it is.
#[derive(Debug, Clone, Copy)]
pub struct Identity;

impl PreHook for Identity {
    open spec fn spec_apply(&self, req: Request) -> Request {
        req
    }

    fn apply(&self, req: Request) -> Request {
        req
    }
}

impl PostHook for Identity {
    open spec fn spec_apply(&self, res: ResponseResult) -> ResponseResult {
        res
    }

    fn apply(&self, res: ResponseResult) -> ResponseResult {
        res
    }
}

/// A hook run on each request before routing decides.
pub struct PreMiddleware<F> {
    handle: F,
}

impl<F> PreMiddleware<F> {
    pub closed spec fn hook(&self) -> F {
        self.handle
    }

    pub fn new(handle: F) -> (r: Self)
        ensures
            r.hook() == handle,
    {
        PreMiddleware { handle }
    }
}

impl<F: PreHook> PreMiddleware<F> {
    pub fn use_mw(&self, req: Request) -> (r: Request)
        ensures
            r == self.hook().spec_apply(req),
    {
        self.handle.apply(req)
    }
}

/// A hook run on each result after a request was served.
pub struct PostMiddleware<F> {
    handle: F,
}

impl<F> PostMiddleware<F> {
    pub closed spec fn hook(&self) -> F {
        self.handle
    }

    pub fn new(handle: F) -> (r: Self)
        ensures
            r.hook() == handle,
    {
        PostMiddleware { handle }
    }
}

impl<F: PostHook> PostMiddleware<F> {
    pub fn use_mw(&self, res: ResponseResult) -> (r: ResponseResult)
        ensures
            r == self.hook().spec_apply(res),
    {
        self.handle.apply(res)
    }
}

} // verus!
