//! How the responses the fast path serves are laid out for the kernel.
//!
//! Every route's responses are rendered ahead of time and placed one behind the
//! other in an arena that the eBPF program shares with user space. The program
//! finds a route by the path of a request, and its responses by the offsets in
//! the route's entry.

use vstd::prelude::*;

use crate::fast_path;
use crate::frame;
use crate::wire;

verus! {

/// The number of routes the eBPF program has room for.
pub const MAX_ROUTES: usize = 16;

/// The longest path a route can be found by.
pub const MAX_ROUTE_PATH: usize = 64;

/// The largest response the eBPF program can serve: 14 chunks of 32768 bytes.
pub const MAX_ROUTE_BODY: usize = 458752;

/// The most frames a response may be made of.
pub const MAX_SID_OFFS: usize = 32;

/// The most connections the fast path can run on at once.
pub const MAX_DUMMIES: usize = 16384;

/// The unit an arena is sized in.
pub const PAGE_SIZE: usize = 4096;

/// Why the fast path cannot be attached.
#[derive(Clone, Copy, Debug, PartialEq, Eq, Structural)]
pub enum AttachError {
    /// The number of connections to run on is not one the fast path can run on.
    Dummies { requested: usize },
    /// There are more routes than there is room for.
    TooManyRoutes { configured: usize },
    /// The path of this route is too long, plain or Huffman coded.
    PathTooLong { route: usize },
    /// The file of this route could not be read.
    Unreadable { route: usize },
    /// The server does not listen on an IPv4 address.
    NotIpv4,
}

/// A file to serve from the fast path.
pub struct Asset {
    /// The request path to serve it under.
    pub path: String,
    /// Where it is on disk.
    pub file: Vec<u8>,
    /// What is in it, unless it could not be read.
    pub body: Option<Vec<u8>>,
}

/// A file to serve from the fast path.
#[verifier::ext_equal]
pub struct AssetView {
    pub path: Seq<char>,
    pub file: Seq<u8>,
    pub body: Option<Seq<u8>>,
}

impl View for Asset {
    type V = AssetView;

    open spec fn view(&self) -> AssetView {
        AssetView {
            path: self.path@,
            file: self.file@,
            body: match self.body {
                Some(body) => Some(body@),
                None => None,
            },
        }
    }
}

/// The HTTP/2 rendering of a response, along with the offsets of the stream ids
/// in its frame headers and the one it is placed at in the arena.
pub struct H2Response {
    pub body: Vec<u8>,
    pub off: usize,
    pub sid_offs: Vec<u32>,
    pub data_len: usize,
}

/// The HTTP/2 rendering of a response.
#[verifier::ext_equal]
pub struct H2View {
    pub body: Seq<u8>,
    pub off: int,
    pub sid_offs: Seq<u32>,
    pub data_len: int,
}

impl View for H2Response {
    type V = H2View;

    open spec fn view(&self) -> H2View {
        H2View {
            body: self.body@,
            off: self.off as int,
            sid_offs: self.sid_offs@,
            data_len: self.data_len as int,
        }
    }
}

/// A response rendered for every protocol the fast path can answer it on, ready
/// to be loaded into the eBPF program.
pub struct PreparedRoute {
    /// The request path as HTTP/1.1 spells it.
    pub path: Vec<u8>,
    /// The request path as HTTP/2 puts it on the wire.
    pub coded: Vec<u8>,
    /// The HTTP/1.1 rendering.
    pub body: Vec<u8>,
    pub body_off: usize,
    pub h2: Option<H2Response>,
}

/// A response rendered for every protocol the fast path can answer it on.
#[verifier::ext_equal]
pub struct RouteView {
    pub path: Seq<u8>,
    pub coded: Seq<u8>,
    pub body: Seq<u8>,
    pub body_off: int,
    pub h2: Option<H2View>,
}

impl View for PreparedRoute {
    type V = RouteView;

    open spec fn view(&self) -> RouteView {
        RouteView {
            path: self.path@,
            coded: self.coded@,
            body: self.body@,
            body_off: self.body_off as int,
            h2: match self.h2 {
                Some(h2) => Some(h2@),
                None => None,
            },
        }
    }
}

/// What the eBPF program is loaded with.
pub struct Plan {
    pub routes: Vec<PreparedRoute>,
    pub arena_len: usize,
}

/// What the eBPF program is loaded with.
#[verifier::ext_equal]
pub struct PlanView {
    pub routes: Seq<RouteView>,
    pub arena_len: int,
}

impl View for Plan {
    type V = PlanView;

    open spec fn view(&self) -> PlanView {
        PlanView {
            routes: self.routes@.map_values(|r: PreparedRoute| r@),
            arena_len: self.arena_len as int,
        }
    }
}

/// A plan without routes.
pub open spec fn empty_plan() -> PlanView {
    PlanView { routes: Seq::empty(), arena_len: 0 }
}

/// Whether the HTTP/2 rendering of a response fits. It carries a frame header
/// every [`fast_path::MAX_FRAME_SIZE`] bytes, so it can outgrow the HTTP/1.1 one
/// by enough to no longer do so.
pub open spec fn fits_h2(file: Seq<u8>, body: Seq<u8>) -> bool {
    let frames = fast_path::h2_frames(file, body);
    frame::concat(frames).len() <= MAX_ROUTE_BODY && frames.len() <= MAX_SID_OFFS
}

/// The HTTP/2 rendering of a response, placed at `off`.
pub open spec fn h2_view(file: Seq<u8>, body: Seq<u8>, off: int) -> H2View {
    let frames = fast_path::h2_frames(file, body);
    H2View {
        body: frame::concat(frames),
        off,
        sid_offs: fast_path::stream_id_offsets(frames),
        data_len: body.len() as int,
    }
}

/// A route whose responses are placed at `off`.
pub open spec fn route_view(
    path: Seq<u8>,
    coded: Seq<u8>,
    file: Seq<u8>,
    body: Seq<u8>,
    off: int,
) -> RouteView {
    let h1 = fast_path::response(file, body);
    RouteView {
        path,
        coded,
        body: h1,
        body_off: off,
        h2: if fits_h2(file, body) {
            Some(h2_view(file, body, off + h1.len()))
        } else {
            None
        },
    }
}

/// The bytes a route takes up in the arena.
pub open spec fn route_image(route: RouteView) -> Seq<u8> {
    match route.h2 {
        Some(h2) => route.body + h2.body,
        None => route.body,
    }
}

/// The bytes `routes` take up in the arena, one behind the other.
pub open spec fn image(routes: Seq<RouteView>) -> Seq<u8>
    decreases routes.len(),
{
    if routes.len() == 0 {
        Seq::empty()
    } else {
        image(routes.drop_last()) + route_image(routes.last())
    }
}

/// The plan that serves the contents `body` of the file at `file` as well, behind
/// the routes of `plan`.
///
/// A response too large to pre-render is left to the server rather than refused:
/// a path the fast path does not know is one it passes on, which is exactly what
/// should happen to it.
pub open spec fn place(
    plan: PlanView,
    path: Seq<u8>,
    coded: Seq<u8>,
    file: Seq<u8>,
    body: Seq<u8>,
) -> PlanView {
    if fast_path::response(file, body).len() > MAX_ROUTE_BODY {
        plan
    } else {
        let route = route_view(path, coded, file, body, plan.arena_len);
        PlanView {
            routes: plan.routes.push(route),
            arena_len: plan.arena_len + route_image(route).len(),
        }
    }
}

/// Whether a fast path can run on `dummies` connections and have `configured`
/// routes.
pub open spec fn limits(dummies: usize, configured: int) -> Result<(), AttachError> {
    if dummies == 0 || dummies > MAX_DUMMIES {
        Err(AttachError::Dummies { requested: dummies })
    } else if configured > MAX_ROUTES {
        Err(AttachError::TooManyRoutes { configured: configured as usize })
    } else {
        Ok(())
    }
}

/// Whether the `i`th route can be found by its path, which is reachable as plain
/// text as well as under the Huffman code h2 puts on the wire.
pub open spec fn path_fits(i: int, path: Seq<u8>, coded: Seq<u8>) -> Result<(), AttachError> {
    if path.len() > MAX_ROUTE_PATH || coded.len() > MAX_ROUTE_PATH {
        Err(AttachError::PathTooLong { route: i as usize })
    } else {
        Ok(())
    }
}

/// Returns whether a fast path can run on `dummies` connections and have
/// `configured` routes.
pub fn check_limits(dummies: usize, configured: usize) -> (r: Result<(), AttachError>)
    ensures
        r == limits(dummies, configured as int),
{
    if dummies == 0 || dummies > MAX_DUMMIES {
        return Err(AttachError::Dummies { requested: dummies });
    }
    if configured > MAX_ROUTES {
        return Err(AttachError::TooManyRoutes { configured });
    }
    Ok(())
}

/// Returns whether the `route`th route can be found by its path, whose Huffman
/// code is `coded`.
pub fn check_path(route: usize, path: &[u8], coded: &[u8]) -> (r: Result<(), AttachError>)
    ensures
        r == path_fits(route as int, path@, coded@),
{
    if path.len() > MAX_ROUTE_PATH || coded.len() > MAX_ROUTE_PATH {
        return Err(AttachError::PathTooLong { route });
    }
    Ok(())
}

/// What comes of adding the `i`th route to a plan.
pub open spec fn add_route(
    plan: PlanView,
    i: int,
    path: Seq<u8>,
    coded: Seq<u8>,
    file: Seq<u8>,
    body: Option<Seq<u8>>,
) -> Result<PlanView, AttachError> {
    match path_fits(i, path, coded) {
        Ok(_) => match body {
            Some(body) => Ok(place(plan, path, coded, file, body)),
            None => Err(AttachError::Unreadable { route: i as usize }),
        },
        Err(e) => Err(e),
    }
}

/// The plan that serves `assets`, or the error of the first one that cannot be
/// served.
pub open spec fn planned(assets: Seq<AssetView>) -> Result<PlanView, AttachError>
    decreases assets.len(),
{
    if assets.len() == 0 {
        Ok(empty_plan())
    } else {
        let asset = assets.last();
        let path = fast_path::utf8(asset.path);
        match planned(assets.drop_last()) {
            Ok(plan) => add_route(
                plan,
                assets.len() - 1,
                path,
                fast_path::huffman_code(path),
                asset.file,
                asset.body,
            ),
            Err(e) => Err(e),
        }
    }
}

/// The plan for a fast path that runs on `dummies` connections and serves
/// `assets`.
pub open spec fn attach_plan(dummies: usize, assets: Seq<AssetView>) -> Result<
    PlanView,
    AttachError,
> {
    match limits(dummies, assets.len() as int) {
        Ok(_) => planned(assets),
        Err(e) => Err(e),
    }
}

/// What is in a route fits the places it is loaded into.
pub open spec fn route_fits(route: RouteView) -> bool {
    &&& route.path.len() <= MAX_ROUTE_PATH
    &&& route.coded.len() <= MAX_ROUTE_PATH
    &&& route.body.len() <= MAX_ROUTE_BODY
    &&& route.h2 matches Some(h2) ==> {
        &&& h2.body.len() <= MAX_ROUTE_BODY
        &&& h2.sid_offs.len() <= MAX_SID_OFFS
        &&& 0 <= h2.data_len <= MAX_ROUTE_BODY
    }
}

/// The `i`th route is placed where the ones in front of it end.
pub open spec fn route_placed(routes: Seq<RouteView>, i: int) -> bool {
    let route = routes[i];
    &&& route.body_off == image(routes.take(i)).len()
    &&& route.h2 matches Some(h2) ==> h2.off == route.body_off + route.body.len()
}

impl PlanView {
    /// The routes' responses are placed one behind the other, and fit.
    pub open spec fn laid_out(self) -> bool {
        &&& self.routes.len() <= MAX_ROUTES
        &&& self.arena_len == image(self.routes).len()
        &&& forall|i: int| 0 <= i < self.routes.len() ==> route_fits(#[trigger] self.routes[i])
        &&& forall|i: int|
            0 <= i < self.routes.len() ==> #[trigger] route_placed(self.routes, i)
    }
}

proof fn lemma_image_push(routes: Seq<RouteView>, route: RouteView)
    ensures
        image(routes.push(route)) == image(routes) + route_image(route),
{
    assert(routes.push(route).drop_last() =~= routes);
}

proof fn lemma_image_len(routes: Seq<RouteView>)
    requires
        forall|i: int| 0 <= i < routes.len() ==> route_fits(#[trigger] routes[i]),
    ensures
        image(routes).len() <= routes.len() * 2 * MAX_ROUTE_BODY,
    decreases routes.len(),
{
    if routes.len() > 0 {
        let front = routes.drop_last();
        assert(forall|i: int| 0 <= i < front.len() ==> #[trigger] front[i] == routes[i]);
        lemma_image_len(front);
        assert(route_fits(routes[routes.len() - 1]));
    }
}

/// Adding a route keeps a plan laid out.
pub proof fn law_laid_out(
    plan: PlanView,
    path: Seq<u8>,
    coded: Seq<u8>,
    file: Seq<u8>,
    body: Seq<u8>,
)
    requires
        plan.laid_out(),
        plan.routes.len() < MAX_ROUTES,
        path.len() <= MAX_ROUTE_PATH,
        coded.len() <= MAX_ROUTE_PATH,
    ensures
        place(plan, path, coded, file, body).laid_out(),
{
    let route = route_view(path, coded, file, body, plan.arena_len);
    let after = place(plan, path, coded, file, body);
    if fast_path::response(file, body).len() <= MAX_ROUTE_BODY {
        let n = plan.routes.len() as int;
        lemma_image_push(plan.routes, route);
        assert(route_fits(route));
        assert(after.routes.take(n) =~= plan.routes);
        assert forall|i: int| 0 <= i < after.routes.len() implies #[trigger] route_placed(
            after.routes,
            i,
        ) by {
            if i < n {
                assert(route_placed(plan.routes, i));
                assert(after.routes.take(i) =~= plan.routes.take(i));
            }
        }
    }
}

impl Plan {
    pub open spec fn wf(self) -> bool {
        self@.laid_out()
    }

    /// A plan without routes.
    pub fn new() -> (plan: Plan)
        ensures
            plan.wf(),
            plan@ == empty_plan(),
    {
        let plan = Plan { routes: Vec::new(), arena_len: 0 };
        assert(plan@ =~= empty_plan());
        plan
    }

    /// Renders the contents `body` of the file at `file` for the request path
    /// `path`, whose Huffman code is `coded`, and places what fits behind the
    /// routes there are.
    pub fn place(&mut self, path: &[u8], coded: &[u8], file: &[u8], body: &[u8])
        requires
            old(self).wf(),
            old(self).routes@.len() < MAX_ROUTES,
            path@.len() <= MAX_ROUTE_PATH,
            coded@.len() <= MAX_ROUTE_PATH,
        ensures
            final(self).wf(),
            final(self)@ == place(old(self)@, path@, coded@, file@, body@),
    {
        proof {
            law_laid_out(self@, path@, coded@, file@, body@);
            lemma_image_len(self@.routes);
        }
        let h1: Vec<u8> = fast_path::render_response(file, body);
        if h1.len() > MAX_ROUTE_BODY {
            return;
        }
        let body_off: usize = self.arena_len;
        let h2_off: usize = body_off + h1.len();
        let (h2_body, sid_offs, data_len) = fast_path::render_h2_response(file, body);
        let fits: bool = h2_body.len() <= MAX_ROUTE_BODY && sid_offs.len() <= MAX_SID_OFFS;
        let mut plain: Vec<u8> = Vec::new();
        wire::append(&mut plain, path);
        let mut code: Vec<u8> = Vec::new();
        wire::append(&mut code, coded);
        assert(plain@ =~= path@);
        assert(code@ =~= coded@);
        let mut end: usize = h2_off;
        let h2: Option<H2Response> = if fits {
            end = h2_off + h2_body.len();
            Some(H2Response { body: h2_body, off: h2_off, sid_offs, data_len })
        } else {
            None
        };
        let route = PreparedRoute { path: plain, coded: code, body: h1, body_off, h2 };
        let ghost view = route_view(path@, coded@, file@, body@, old(self)@.arena_len);
        assert(route@ == view);
        self.routes.push(route);
        self.arena_len = end;
        assert(self@.routes =~= old(self)@.routes.push(view));
    }

    /// Adds the `route`th route: the file at `file` with the contents `body`,
    /// unless it could not be read, under the request path `path`, whose Huffman
    /// code is `coded`.
    ///
    /// A route is reachable under its plain text path as well as under the
    /// Huffman coded one h2 puts on the wire, so both have to fit.
    pub fn add_route(
        &mut self,
        route: usize,
        path: &[u8],
        coded: &[u8],
        file: &[u8],
        body: &Option<Vec<u8>>,
    ) -> (r: Result<(), AttachError>)
        requires
            old(self).wf(),
            old(self).routes@.len() < MAX_ROUTES,
        ensures
            final(self).wf(),
            ({
                let contents = match *body {
                    Some(b) => Some(b@),
                    None => None,
                };
                match add_route(old(self)@, route as int, path@, coded@, file@, contents) {
                    Ok(plan) => r is Ok && final(self)@ == plan,
                    Err(e) => r == Err::<(), AttachError>(e) && final(self)@ == old(self)@,
                }
            }),
    {
        if let Err(e) = check_path(route, path, coded) {
            return Err(e);
        }
        match body {
            Some(b) => {
                self.place(path, coded, file, b.as_slice());
                Ok(())
            },
            None => Err(AttachError::Unreadable { route }),
        }
    }

    /// Plans a fast path that runs on `dummies` connections at once and serves
    /// `assets`.
    pub fn prepare(dummies: usize, assets: &Vec<Asset>) -> (r: Result<Plan, AttachError>)
        ensures
            match attach_plan(dummies, assets@.map_values(|a: Asset| a@)) {
                Ok(plan) => r matches Ok(p) && p.wf() && p@ == plan,
                Err(e) => r matches Err(f) && f == e,
            },
    {
        let ghost views = assets@.map_values(|a: Asset| a@);
        if let Err(e) = check_limits(dummies, assets.len()) {
            return Err(e);
        }
        let mut plan = Plan::new();
        let n: usize = assets.len();
        assert(views.take(0) =~= Seq::<AssetView>::empty());
        for i in 0..n
            invariant
                n == assets@.len(),
                n <= MAX_ROUTES,
                views == assets@.map_values(|a: Asset| a@),
                plan.wf(),
                plan.routes@.len() <= i,
                planned(views.take(i as int)) == Ok::<PlanView, AttachError>(plan@),
                0 < dummies <= MAX_DUMMIES,
        {
            let asset = &assets[i];
            let coded: Vec<u8> = fast_path::huffman_encode(asset.path.as_str());
            proof {
                assert(views[i as int] == asset@);
                assert(views.take(i + 1).drop_last() =~= views.take(i as int));
                assert(views.take(i + 1).last() == asset@);
                assert(plan@.routes.len() == plan.routes@.len());
            }
            match plan.add_route(
                i,
                asset.path.as_str().as_bytes(),
                &coded,
                &asset.file,
                &asset.body,
            ) {
                Ok(()) => {
                    assert(plan@.routes.len() == plan.routes@.len());
                },
                Err(e) => {
                    proof {
                        lemma_planned_error(views, i + 1, e);
                    }
                    return Err(e);
                },
            }
        }
        assert(views.take(n as int) =~= views);
        Ok(plan)
    }
}

proof fn lemma_planned_error(assets: Seq<AssetView>, n: int, e: AttachError)
    requires
        0 <= n <= assets.len(),
        planned(assets.take(n)) == Err::<PlanView, AttachError>(e),
    ensures
        planned(assets) == Err::<PlanView, AttachError>(e),
    decreases assets.len() - n,
{
    if n < assets.len() {
        assert(assets.take(n + 1).drop_last() =~= assets.take(n));
        lemma_planned_error(assets, n + 1, e);
    } else {
        assert(assets.take(n) =~= assets);
    }
}

/// The number of pages an arena of `len` bytes takes up, at least one.
pub open spec fn page_count(len: int) -> int {
    if len <= 0 {
        1
    } else {
        (len + PAGE_SIZE - 1) / (PAGE_SIZE as int)
    }
}

/// `arena` with the responses of `plan` written to it.
pub open spec fn written(plan: PlanView, arena: Seq<u8>) -> Seq<u8> {
    image(plan.routes) + arena.skip(plan.arena_len)
}

/// Where a route's responses are found in the arena, as the eBPF program reads
/// it.
pub struct RouteEntry {
    pub body_off: u32,
    pub body_len: u32,
    pub h2_body_off: u32,
    pub h2_body_len: u32,
    pub h2_sid_offs: [u32; MAX_SID_OFFS],
    pub h2_sid_count: u32,
    pub h2_data_len: u32,
}

impl RouteEntry {
    /// Whether this is the entry of `route`. What there is no HTTP/2 rendering
    /// to fill in with is zero.
    pub open spec fn describes(self, route: RouteView) -> bool {
        &&& self.body_off == route.body_off
        &&& self.body_len == route.body.len()
        &&& match route.h2 {
            Some(h2) => {
                &&& self.h2_body_off == h2.off
                &&& self.h2_body_len == h2.body.len()
                &&& self.h2_sid_offs@ == h2.sid_offs + Seq::new(
                    (MAX_SID_OFFS - h2.sid_offs.len()) as nat,
                    |i: int| 0u32,
                )
                &&& self.h2_sid_count == h2.sid_offs.len()
                &&& self.h2_data_len == h2.data_len
            },
            None => {
                &&& self.h2_body_off == 0
                &&& self.h2_body_len == 0
                &&& self.h2_sid_offs@ == Seq::new(MAX_SID_OFFS as nat, |i: int| 0u32)
                &&& self.h2_sid_count == 0
                &&& self.h2_data_len == 0
            },
        }
    }
}

/// A path that a route is found by, padded with zeros.
pub struct IndexEntry {
    pub key: [u8; MAX_ROUTE_PATH],
    pub route: u8,
}

/// `path` as the route index holds it.
pub open spec fn padded(path: Seq<u8>) -> Seq<u8> {
    path + Seq::new((MAX_ROUTE_PATH - path.len()) as nat, |i: int| 0u8)
}

/// Whether `entries` lead to the `i`th route by both of its paths.
pub open spec fn indexed(entries: Seq<IndexEntry>, routes: Seq<RouteView>, i: int) -> bool {
    &&& entries[2 * i].key@ == padded(routes[i].path)
    &&& entries[2 * i].route == i
    &&& entries[2 * i + 1].key@ == padded(routes[i].coded)
    &&& entries[2 * i + 1].route == i
}

/// Whether `entries` lead to every one of `routes`, and nowhere else.
pub open spec fn is_index(entries: Seq<IndexEntry>, routes: Seq<RouteView>) -> bool {
    &&& entries.len() == 2 * routes.len()
    &&& forall|i: int| 0 <= i < routes.len() ==> #[trigger] indexed(entries, routes, i)
}

/// Pads `path` with zeros.
fn pad(path: &[u8]) -> (key: [u8; MAX_ROUTE_PATH])
    requires
        path@.len() <= MAX_ROUTE_PATH,
    ensures
        key@ == padded(path@),
{
    let mut key: [u8; MAX_ROUTE_PATH] = [0; MAX_ROUTE_PATH];
    let n: usize = path.len();
    for i in 0..n
        invariant
            n == path@.len(),
            n <= MAX_ROUTE_PATH,
            forall|j: int| 0 <= j < i ==> key@[j] == path@[j],
            forall|j: int| i <= j < MAX_ROUTE_PATH ==> key@[j] == 0,
    {
        key[i] = path[i];
    }
    assert(key@ =~= padded(path@));
    key
}

/// Copies `src` into `dst`, from its `at`th byte on.
fn copy_into(dst: &mut [u8], at: usize, src: &[u8])
    requires
        at + src@.len() <= old(dst)@.len(),
    ensures
        final(dst)@ == old(dst)@.take(at as int) + src@ + old(dst)@.skip(
            (at + src@.len()) as int,
        ),
{
    let n: usize = src.len();
    let room: usize = dst.len();
    for i in 0..n
        invariant
            n == src@.len(),
            at + n <= room,
            room == old(dst)@.len(),
            dst@ == old(dst)@.take(at as int) + src@.take(i as int) + old(dst)@.skip(at + i),
    {
        dst[at + i] = src[i];
        assert(dst@ =~= old(dst)@.take(at as int) + src@.take(i + 1) + old(dst)@.skip(at + i + 1));
    }
    assert(dst@ =~= old(dst)@.take(at as int) + src@ + old(dst)@.skip((at + src@.len()) as int));
}

/// An image that has been written to the front of an arena goes on with what is
/// written behind it.
proof fn lemma_arena_step(arena: Seq<u8>, front: Seq<u8>, src: Seq<u8>, now: Seq<u8>)
    requires
        front.len() + src.len() <= arena.len(),
        now == front + arena.skip(front.len() as int),
    ensures
        now.take(front.len() as int) + src + now.skip((front.len() + src.len()) as int) == (front
            + src) + arena.skip((front + src).len() as int),
{
    assert(now.take(front.len() as int) + src + now.skip((front.len() + src.len()) as int) =~= (
    front + src) + arena.skip((front + src).len() as int));
}

proof fn lemma_image_take(routes: Seq<RouteView>, i: int)
    requires
        0 <= i < routes.len(),
    ensures
        image(routes.take(i + 1)) == image(routes.take(i)) + route_image(routes[i]),
        image(routes.take(i + 1)).len() <= image(routes).len(),
    decreases routes.len() - i,
{
    assert(routes.take(i + 1) =~= routes.take(i).push(routes[i]));
    lemma_image_push(routes.take(i), routes[i]);
    if i + 1 < routes.len() {
        lemma_image_take(routes, i + 1);
    } else {
        assert(routes.take(i + 1) =~= routes);
    }
}

impl Plan {
    /// Returns the number of pages the arena has to be made of. An arena is
    /// sized in pages, and only the ones the responses reach are ever backed by
    /// memory.
    pub fn pages(&self) -> (pages: usize)
        requires
            self.wf(),
        ensures
            pages == page_count(self@.arena_len),
            pages * PAGE_SIZE >= self@.arena_len,
    {
        proof {
            lemma_image_len(self@.routes);
        }
        if self.arena_len == 0 {
            1
        } else {
            (self.arena_len + PAGE_SIZE - 1) / PAGE_SIZE
        }
    }

    /// Returns where the responses of the `i`th route are found.
    pub fn route_entry(&self, i: usize) -> (entry: RouteEntry)
        requires
            self.wf(),
            i < self.routes@.len(),
        ensures
            entry.describes(self@.routes[i as int]),
    {
        let route = &self.routes[i];
        proof {
            lemma_image_len(self@.routes);
            lemma_image_take(self@.routes, i as int);
            assert(self@.routes[i as int] == route@);
            assert(route_fits(self@.routes[i as int]));
            assert(route_placed(self@.routes, i as int));
        }
        let mut entry = RouteEntry {
            body_off: route.body_off as u32,
            body_len: route.body.len() as u32,
            h2_body_off: 0,
            h2_body_len: 0,
            h2_sid_offs: [0; MAX_SID_OFFS],
            h2_sid_count: 0,
            h2_data_len: 0,
        };
        assert(entry.h2_sid_offs@ =~= Seq::new(MAX_SID_OFFS as nat, |j: int| 0u32));
        if let Some(h2) = &route.h2 {
            let n: usize = h2.sid_offs.len();
            let mut offs: [u32; MAX_SID_OFFS] = [0; MAX_SID_OFFS];
            for j in 0..n
                invariant
                    n == h2.sid_offs@.len(),
                    n <= MAX_SID_OFFS,
                    forall|k: int| 0 <= k < j ==> offs@[k] == h2.sid_offs@[k],
                    forall|k: int| j <= k < MAX_SID_OFFS ==> offs@[k] == 0,
            {
                offs[j] = h2.sid_offs[j];
            }
            assert(offs@ =~= h2.sid_offs@ + Seq::new(
                (MAX_SID_OFFS - h2.sid_offs@.len()) as nat,
                |k: int| 0u32,
            ));
            entry.h2_body_off = h2.off as u32;
            entry.h2_body_len = h2.body.len() as u32;
            entry.h2_sid_offs = offs;
            entry.h2_sid_count = n as u32;
            entry.h2_data_len = h2.data_len as u32;
        }
        entry
    }

    /// Writes the responses to where the routes' entries say they are found.
    pub fn write_arena(&self, arena: &mut [u8])
        requires
            self.wf(),
            self@.arena_len <= old(arena)@.len(),
        ensures
            final(arena)@ == written(self@, old(arena)@),
    {
        let n: usize = self.routes.len();
        let ghost views = self@.routes;
        let ghost start = arena@;
        assert(views.take(0) =~= Seq::<RouteView>::empty());
        assert(arena@ =~= image(views.take(0)) + start.skip(0));
        for i in 0..n
            invariant
                self.wf(),
                n == self.routes@.len(),
                views == self@.routes,
                self@.arena_len <= start.len(),
                arena@ == image(views.take(i as int)) + start.skip(
                    image(views.take(i as int)).len() as int,
                ),
        {
            let route = &self.routes[i];
            let ghost front = image(views.take(i as int));
            proof {
                assert(views[i as int] == route@);
                lemma_image_take(views, i as int);
                assert(route_placed(views, i as int));
                assert(arena@.len() == start.len());
                lemma_arena_step(start, front, route.body@, arena@);
            }
            copy_into(arena, route.body_off, &route.body);
            if let Some(h2) = &route.h2 {
                proof {
                    lemma_arena_step(start, front + route.body@, h2.body@, arena@);
                    assert(front + route.body@ + h2.body@ =~= front + (route.body@ + h2.body@));
                }
                copy_into(arena, h2.off, &h2.body);
            }
        }
        assert(views.take(n as int) =~= views);
    }

    /// Returns the paths the routes are found by: the plain text one and the
    /// Huffman coded one of each.
    pub fn index(&self) -> (entries: Vec<IndexEntry>)
        requires
            self.wf(),
        ensures
            is_index(entries@, self@.routes),
    {
        let n: usize = self.routes.len();
        let mut entries: Vec<IndexEntry> = Vec::new();
        for i in 0..n
            invariant
                self.wf(),
                n == self.routes@.len(),
                entries@.len() == 2 * i,
                forall|j: int| 0 <= j < i ==> #[trigger] indexed(entries@, self@.routes, j),
        {
            let route = &self.routes[i];
            assert(self@.routes[i as int] == route@);
            assert(route_fits(self@.routes[i as int]));
            let ghost before = entries@;
            entries.push(IndexEntry { key: pad(&route.path), route: i as u8 });
            entries.push(IndexEntry { key: pad(&route.coded), route: i as u8 });
            assert forall|j: int| 0 <= j < i + 1 implies #[trigger] indexed(
                entries@,
                self@.routes,
                j,
            ) by {
                if j < i {
                    assert(indexed(before, self@.routes, j));
                }
            }
        }
        entries
    }
}

proof fn lemma_route_end(routes: Seq<RouteView>, i: int, j: int)
    requires
        0 <= i < j <= routes.len(),
    ensures
        image(routes.take(i)).len() + route_image(routes[i]).len() <= image(routes.take(j)).len(),
        image(routes.take(j)).len() <= image(routes).len(),
    decreases j - i,
{
    lemma_image_take(routes, i);
    if i + 1 < j {
        lemma_route_end(routes, i, j - 1);
        lemma_image_take(routes, j - 1);
    }
}

proof fn lemma_image_slice(routes: Seq<RouteView>, i: int)
    requires
        0 <= i < routes.len(),
    ensures
        ({
            let start = image(routes.take(i)).len() as int;
            let end = start + route_image(routes[i]).len();
            end <= image(routes).len() && image(routes).subrange(start, end) == route_image(
                routes[i],
            )
        }),
    decreases routes.len(),
{
    let front = routes.drop_last();
    let last = routes.last();
    let start = image(routes.take(i)).len() as int;
    let end = start + route_image(routes[i]).len();
    if i == front.len() {
        assert(routes.take(i) =~= front);
        assert(image(routes).subrange(start, end) =~= route_image(last));
    } else {
        lemma_image_slice(front, i);
        assert(front.take(i) =~= routes.take(i));
        assert(image(routes).subrange(start, end) =~= image(front).subrange(start, end));
    }
}

/// Once the arena is written, every route's responses are found in it, at the
/// offsets and with the lengths of its entry.
pub proof fn law_arena(plan: PlanView, i: int, rest: Seq<u8>)
    requires
        plan.laid_out(),
        0 <= i < plan.routes.len(),
    ensures
        ({
            let arena = image(plan.routes) + rest;
            let route = plan.routes[i];
            &&& 0 <= route.body_off
            &&& route.body_off + route_image(route).len() <= plan.arena_len
            &&& arena.subrange(route.body_off, route.body_off + route.body.len()) == route.body
            &&& route.h2 matches Some(h2) ==> arena.subrange(h2.off, h2.off + h2.body.len())
                == h2.body
        }),
{
    let arena = image(plan.routes) + rest;
    let route = plan.routes[i];
    let start = route.body_off;
    let whole = route_image(route);
    assert(route_placed(plan.routes, i));
    lemma_image_slice(plan.routes, i);
    assert(arena.subrange(start, start + whole.len()) =~= whole);
    assert(arena.subrange(start, start + route.body.len()) =~= whole.subrange(
        0,
        route.body.len() as int,
    ));
    assert(whole.subrange(0, route.body.len() as int) =~= route.body);
    if let Some(h2) = route.h2 {
        assert(arena.subrange(h2.off, h2.off + h2.body.len()) =~= whole.subrange(
            route.body.len() as int,
            whole.len() as int,
        ));
        assert(whole.subrange(route.body.len() as int, whole.len() as int) =~= h2.body);
    }
}

/// No two responses share a byte of the arena, and all of them are inside it.
pub proof fn law_disjoint(plan: PlanView, i: int, j: int)
    requires
        plan.laid_out(),
        0 <= i < j < plan.routes.len(),
    ensures
        ({
            let a = plan.routes[i];
            let b = plan.routes[j];
            &&& 0 <= a.body_off
            &&& a.body_off + route_image(a).len() <= b.body_off
            &&& b.body_off + route_image(b).len() <= plan.arena_len
            &&& a.h2 matches Some(h2) ==> h2.off == a.body_off + a.body.len()
        }),
{
    assert(route_placed(plan.routes, i));
    assert(route_placed(plan.routes, j));
    lemma_route_end(plan.routes, i, j);
    lemma_image_take(plan.routes, j);
}

/// Whether a request for `asset` is answered by `route`, under both spellings of
/// its path.
pub open spec fn serves(route: RouteView, asset: AssetView) -> bool {
    let path = fast_path::utf8(asset.path);
    &&& asset.body matches Some(body) && route == route_view(
        path,
        fast_path::huffman_code(path),
        asset.file,
        body,
        route.body_off,
    )
}

/// Whether the response for `asset` is small enough to be rendered ahead of time.
pub open spec fn small(asset: AssetView) -> bool {
    asset.body matches Some(body) && fast_path::response(asset.file, body).len() <= MAX_ROUTE_BODY
}

/// Every asset with a response that is small enough is served.
pub proof fn law_served(assets: Seq<AssetView>, i: int)
    requires
        planned(assets) is Ok,
        0 <= i < assets.len(),
    ensures
        small(assets[i]) ==> exists|j: int|
            0 <= j < planned(assets)->Ok_0.routes.len() && #[trigger] serves(
                planned(assets)->Ok_0.routes[j],
                assets[i],
            ),
    decreases assets.len(),
{
    let front = assets.drop_last();
    let before = planned(front)->Ok_0.routes;
    let after = planned(assets)->Ok_0.routes;
    if small(assets[i]) {
        if i < front.len() {
            law_served(front, i);
            assert(front[i] == assets[i]);
            let j = choose|j: int|
                0 <= j < before.len() && #[trigger] serves(before[j], assets[i]);
            assert(after[j] == before[j]);
            assert(serves(after[j], assets[i]));
        } else {
            assert(after.len() == before.len() + 1);
            assert(serves(after[before.len() as int], assets[i]));
        }
    }
}

/// Nothing but the assets is served.
pub proof fn law_only_assets(assets: Seq<AssetView>, j: int)
    requires
        planned(assets) is Ok,
        0 <= j < planned(assets)->Ok_0.routes.len(),
    ensures
        exists|i: int|
            0 <= i < assets.len() && small(assets[i]) && #[trigger] serves(
                planned(assets)->Ok_0.routes[j],
                assets[i],
            ),
    decreases assets.len(),
{
    let front = assets.drop_last();
    let before = planned(front)->Ok_0.routes;
    let after = planned(assets)->Ok_0.routes;
    if j < before.len() {
        law_only_assets(front, j);
        let i = choose|i: int|
            0 <= i < front.len() && small(front[i]) && #[trigger] serves(before[j], front[i]);
        assert(front[i] == assets[i]);
        assert(after[j] == before[j]);
        assert(serves(after[j], assets[i]));
    } else {
        assert(serves(after[j], assets[assets.len() - 1]));
    }
}

} // verus!
