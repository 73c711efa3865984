//! What holds of what the eBPF program is loaded with.

use vstd::prelude::*;

use crate::fast_path;
use crate::frame;
use crate::plan;
use crate::plan::{AssetView, AttachError, IndexEntry, PlanView, RouteEntry};
use crate::render_laws;

verus! {

/// The fast path runs on 1 to 16384 connections and has up to 16 routes, and refuses
/// everything else, the number of connections first.
pub proof fn law_limits(dummies: usize, configured: int)
    requires
        0 <= configured,
    ensures
        ({
            let r = plan::limits(dummies, configured);
            &&& r is Ok <==> 1 <= dummies <= 16384 && configured <= 16
            &&& (dummies < 1 || dummies > 16384) ==> r == Err::<(), AttachError>(
                AttachError::Dummies { requested: dummies },
            )
            &&& 1 <= dummies <= 16384 && configured > 16 ==> r == Err::<(), AttachError>(
                AttachError::TooManyRoutes { configured: configured as usize },
            )
        }),
{
}

/// A route is refused if either spelling of its path takes up more than 64 bytes, and
/// only then.
pub proof fn law_path_fits(route: int, path: Seq<u8>, coded: Seq<u8>)
    ensures
        plan::path_fits(route, path, coded) == if path.len() <= 64 && coded.len() <= 64 {
            Ok(())
        } else {
            Err::<(), AttachError>(AttachError::PathTooLong { route: route as usize })
        },
{
}

/// What the fast path cannot run with is refused before any asset is looked at.
pub proof fn law_attach(dummies: usize, assets: Seq<AssetView>)
    ensures
        ({
            let r = plan::attach_plan(dummies, assets);
            &&& 1 <= dummies <= 16384 && assets.len() <= 16 ==> r == plan::planned(assets)
            &&& (dummies < 1 || dummies > 16384) ==> r == Err::<PlanView, AttachError>(
                AttachError::Dummies { requested: dummies },
            )
            &&& 1 <= dummies <= 16384 && assets.len() > 16 ==> r == Err::<PlanView, AttachError>(
                AttachError::TooManyRoutes { configured: assets.len() as usize },
            )
        }),
{
}

/// Every plan starts from nothing, and what is refused stays refused.
pub proof fn law_planned(assets: Seq<AssetView>, asset: AssetView)
    ensures
        plan::planned(Seq::empty()) is Ok,
        plan::planned(Seq::empty())->Ok_0.routes.len() == 0,
        plan::planned(Seq::empty())->Ok_0.arena_len == 0,
        plan::planned(assets) is Err ==> plan::planned(assets.push(asset)) == plan::planned(assets),
{
    assert(assets.push(asset).drop_last() =~= assets);
}

/// One more asset is refused if its path is too long or if it could not be read. It
/// leaves a plan as it is if its response takes up more than 458752 bytes. Otherwise it
/// adds one route, behind the others, to both spellings of its path and to all of its
/// HTTP/1.1 response, and to its HTTP/2 response as well if that takes up no more than
/// 458752 bytes and 32 frames.
pub proof fn law_one_more(assets: Seq<AssetView>, asset: AssetView)
    requires
        plan::planned(assets) is Ok,
    ensures
        ({
            let before = plan::planned(assets)->Ok_0;
            let r = plan::planned(assets.push(asset));
            let path = fast_path::utf8(asset.path);
            let coded = fast_path::huffman_code(path);
            let n = assets.len() as usize;
            if path.len() > 64 || coded.len() > 64 {
                r == Err::<PlanView, AttachError>(AttachError::PathTooLong { route: n })
            } else if asset.body is None {
                r == Err::<PlanView, AttachError>(AttachError::Unreadable { route: n })
            } else {
                let body = asset.body->Some_0;
                let resp = fast_path::response(asset.file, body);
                let frames = fast_path::h2_frames(asset.file, body);
                let bytes = frame::concat(frames);
                let after = r->Ok_0;
                let route = after.routes.last();
                &&& r is Ok
                &&& resp.len() > 458752 ==> after == before
                &&& resp.len() <= 458752 ==> {
                    &&& after.routes.len() == before.routes.len() + 1
                    &&& after.routes.drop_last() == before.routes
                    &&& route.path == path
                    &&& route.coded == coded
                    &&& route.body == resp
                    &&& route.body_off == before.arena_len
                    &&& route.h2 is Some <==> bytes.len() <= 458752 && frames.len() <= 32
                    &&& route.h2 is None ==> after.arena_len == before.arena_len + resp.len()
                    &&& route.h2 matches Some(h2) ==> {
                        &&& h2.body == bytes
                        &&& h2.off == before.arena_len + resp.len()
                        &&& h2.sid_offs == fast_path::stream_id_offsets(frames)
                        &&& h2.data_len == render_laws::payloads(frames.skip(1)).len()
                        &&& after.arena_len == before.arena_len + resp.len() + bytes.len()
                    }
                }
            }
        }),
{
    assert(assets.push(asset).drop_last() =~= assets);
    if asset.body is Some {
        let body = asset.body->Some_0;
        let before = plan::planned(assets)->Ok_0;
        render_laws::law_flow_controlled(asset.file, body);
        assert(plan::planned(assets.push(asset)) is Ok ==> fast_path::response(
            asset.file,
            body,
        ).len() <= 458752 ==> plan::planned(assets.push(asset))->Ok_0.routes.drop_last()
            =~= before.routes);
    }
}

/// Everything that is planned fits the places it is loaded into.
pub proof fn law_planned_laid_out(assets: Seq<AssetView>)
    requires
        plan::planned(assets) is Ok,
        assets.len() <= 16,
    ensures
        plan::planned(assets)->Ok_0.laid_out(),
        plan::planned(assets)->Ok_0.routes.len() <= assets.len(),
    decreases assets.len(),
{
    if assets.len() > 0 {
        let front = assets.drop_last();
        let asset = assets.last();
        let path = fast_path::utf8(asset.path);
        law_planned_laid_out(front);
        plan::law_laid_out(
            plan::planned(front)->Ok_0,
            path,
            fast_path::huffman_code(path),
            asset.file,
            asset.body->Some_0,
        );
    }
}

/// What the eBPF program finds by a route's entry is what the route is for. Where the
/// entry says, the written arena holds all of the HTTP/1.1 response. Where it says for
/// HTTP/2, patching a stream id into all the places it gives puts every frame of the
/// response on that stream, and what it says to be flow controlled is what the DATA
/// frames carry. Without an HTTP/2 response, it gives none. The arena is left alone
/// behind the responses.
pub proof fn law_entry(
    plan: PlanView,
    i: int,
    entry: RouteEntry,
    asset: AssetView,
    arena: Seq<u8>,
    id: Seq<u8>,
)
    requires
        plan.laid_out(),
        0 <= i < plan.routes.len(),
        plan::serves(plan.routes[i], asset),
        entry.describes(plan.routes[i]),
        plan.arena_len <= arena.len(),
        id.len() == 4,
    ensures
        ({
            let a = plan::written(plan, arena);
            let body = asset.body->Some_0;
            let frames = fast_path::h2_frames(asset.file, body);
            let bytes = frame::concat(frames);
            let h2_off = entry.h2_body_off as int;
            let h2_end = h2_off + entry.h2_body_len;
            &&& a.len() == arena.len()
            &&& a.skip(plan.arena_len) == arena.skip(plan.arena_len)
            &&& entry.body_off + entry.body_len <= plan.arena_len
            &&& a.subrange(entry.body_off as int, entry.body_off + entry.body_len)
                == fast_path::response(asset.file, body)
            &&& bytes.len() <= 458752 && frames.len() <= 32 ==> {
                &&& h2_end <= plan.arena_len
                &&& a.subrange(h2_off, h2_end) == bytes
                &&& entry.h2_sid_count == frames.len()
                &&& render_laws::patch(
                    a.subrange(h2_off, h2_end),
                    entry.h2_sid_offs@.take(entry.h2_sid_count as int),
                    id,
                ) == frame::concat(render_laws::on_stream(frames, id))
                &&& entry.h2_data_len == render_laws::payloads(frames.skip(1)).len()
            }
            &&& forall|k: int|
                entry.h2_sid_count <= k < 32 ==> #[trigger] entry.h2_sid_offs@[k] == 0
            &&& bytes.len() > 458752 || frames.len() > 32 ==> {
                &&& entry.h2_body_off == 0
                &&& entry.h2_body_len == 0
                &&& entry.h2_sid_count == 0
                &&& entry.h2_data_len == 0
            }
        }),
{
    let a = plan::written(plan, arena);
    let body = asset.body->Some_0;
    let frames = fast_path::h2_frames(asset.file, body);
    let bytes = frame::concat(frames);
    plan::law_arena(plan, i, arena.skip(plan.arena_len));
    assert(a.skip(plan.arena_len) =~= arena.skip(plan.arena_len));
    render_laws::law_flow_controlled(asset.file, body);
    if bytes.len() <= 458752 && frames.len() <= 32 {
        assert forall|k: int| 0 <= k < frames.len() implies (#[trigger] frames[k]).stream.len()
            == 4 by {
            render_laws::law_h2_frames(asset.file, body, k);
        }
        render_laws::law_patch(frames, id);
        assert(entry.h2_sid_offs@.take(entry.h2_sid_count as int)
            =~= fast_path::stream_id_offsets(frames));
        assert(plan::route_placed(plan.routes, i));
    }
}

/// Whether `entry` is found by `path`: it holds the path, and zeros behind it.
pub open spec fn found_by(entry: IndexEntry, path: Seq<u8>) -> bool {
    &&& entry.key@.len() == 64
    &&& entry.key@.take(path.len() as int) == path
    &&& forall|k: int| path.len() <= k < 64 ==> #[trigger] entry.key@[k] == 0
}

/// Every route is found by both spellings of its path.
pub proof fn law_found(plan: PlanView, entries: Seq<IndexEntry>, i: int)
    requires
        plan.laid_out(),
        plan::is_index(entries, plan.routes),
        0 <= i < plan.routes.len(),
    ensures
        exists|k: int|
            0 <= k < entries.len() && entries[k].route == i && #[trigger] found_by(
                entries[k],
                plan.routes[i].path,
            ),
        exists|k: int|
            0 <= k < entries.len() && entries[k].route == i && #[trigger] found_by(
                entries[k],
                plan.routes[i].coded,
            ),
{
    let route = plan.routes[i];
    assert(plan::route_fits(route));
    assert(plan::indexed(entries, plan.routes, i));
    assert(plan::padded(route.path).take(route.path.len() as int) =~= route.path);
    assert(plan::padded(route.coded).take(route.coded.len() as int) =~= route.coded);
    assert(found_by(entries[2 * i], route.path));
    assert(found_by(entries[2 * i + 1], route.coded));
}

/// Whatever is in the index leads to a route, by a spelling of its path.
pub proof fn law_nothing_else_found(plan: PlanView, entries: Seq<IndexEntry>, k: int)
    requires
        plan.laid_out(),
        plan::is_index(entries, plan.routes),
        0 <= k < entries.len(),
    ensures
        entries[k].route < plan.routes.len(),
        ({
            let route = plan.routes[entries[k].route as int];
            found_by(entries[k], route.path) || found_by(entries[k], route.coded)
        }),
{
    let i = k / 2;
    let route = plan.routes[i];
    assert(plan::route_fits(route));
    assert(plan::indexed(entries, plan.routes, i));
    assert(plan::padded(route.path).take(route.path.len() as int) =~= route.path);
    assert(plan::padded(route.coded).take(route.coded.len() as int) =~= route.coded);
    assert(k == 2 * i || k == 2 * i + 1);
}

/// An arena has room for all of the responses, with less than a page to spare, and at
/// least one page.
pub proof fn law_pages(len: int)
    requires
        0 <= len,
    ensures
        plan::page_count(len) >= 1,
        plan::page_count(len) * 4096 >= len,
        len > 0 ==> plan::page_count(len) * 4096 - len < 4096,
        len == 0 ==> plan::page_count(len) == 1,
{
}

} // verus!
