use vstd::prelude::*;

verus! {

/// A slot that first holds a request and, once processed, its response.
pub enum ReqRes<Req, Res> {
    Request(Req),
    Response(Res),
}

impl<Req, Res> ReqRes<Req, Res> {
    /// A new pending request.
    pub fn new(req: Req) -> (r: Self)
        ensures
            r == ReqRes::<Req, Res>::Request(req),
    {
        ReqRes::Request(req)
    }

    /// Whether this still holds the request.
    pub fn is_request(&self) -> (b: bool)
        ensures
            b <==> self is Request,
    {
        match self {
            ReqRes::Request(_) => true,
            ReqRes::Response(_) => false,
        }
    }

    /// Whether this holds the response.
    pub fn is_response(&self) -> (b: bool)
        ensures
            b <==> self is Response,
    {
        match self {
            ReqRes::Request(_) => false,
            ReqRes::Response(_) => true,
        }
    }

    /// Replace the request by the response `f` computes from it.
    pub fn process<F: FnOnce(Req) -> Res>(self, f: F) -> (r: Self)
        requires
            self is Request,
            f.requires((self->Request_0,)),
        ensures
            r is Response,
            f.ensures((self->Request_0,), r->Response_0),
    {
        match self {
            ReqRes::Request(req) => ReqRes::Response(f(req)),
            ReqRes::Response(_) => vstd::pervasive::unreached(),
        }
    }

    /// The response; the request must have been processed.
    pub fn unwrap(self) -> (res: Res)
        requires
            self is Response,
        ensures
            res == self->Response_0,
    {
        match self {
            ReqRes::Request(_) => vstd::pervasive::unreached(),
            ReqRes::Response(res) => res,
        }
    }
}

} // verus!
