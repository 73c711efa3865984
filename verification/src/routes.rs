//! The assets of the file server that the fast path serves.

use vstd::prelude::*;

use crate::wire;

verus! {

/// The paths of the assets that are served with the fast path.
pub open spec fn asset_paths() -> Seq<Seq<char>> {
    seq![
        "/1KB.txt"@,
        "/8KB.txt"@,
        "/16KB.txt"@,
        "/32KB.txt"@,
        "/48KB.txt"@,
        "/64KB.txt"@,
        "/128KB.txt"@,
    ]
}

/// The path that the `i`th asset is requested by, and the file it is in.
pub open spec fn asset_route(assets_dir: Seq<char>, i: int) -> (Seq<char>, Seq<char>) {
    (asset_paths()[i], assets_dir + asset_paths()[i])
}

/// An asset is in the directory of the assets, under the path that it is requested by.
pub proof fn law_asset_route(assets_dir: Seq<char>, i: int)
    ensures
        ({
            let (path, file) = asset_route(assets_dir, i);
            &&& path == asset_paths()[i]
            &&& file.len() == assets_dir.len() + path.len()
            &&& file.take(assets_dir.len() as int) == assets_dir
            &&& file.skip(assets_dir.len() as int) == path
        }),
{
    let (path, file) = asset_route(assets_dir, i);
    assert(file.take(assets_dir.len() as int) =~= assets_dir);
    assert(file.skip(assets_dir.len() as int) =~= path);
}

/// Adds the route from `path` to the asset of that name.
fn add_asset(routes: &mut Vec<(String, String)>, assets_dir: &str, path: &str)
    ensures
        final(routes)@.len() == old(routes)@.len() + 1,
        final(routes)@.drop_last() == old(routes)@,
        final(routes)@.last().0@ == path@,
        final(routes)@.last().1@ == assets_dir@ + path@,
{
    let mut file: String = String::from_str(assets_dir);
    file.append(path);
    routes.push((String::from_str(path), file));
    assert(routes@.drop_last() =~= old(routes)@);
}

/// Returns all assets that are served with the fast path, by the path they are
/// requested by and the file they are in.
pub fn fastpath_routes(assets_dir: &str) -> (routes: Vec<(String, String)>)
    ensures
        routes@.len() == asset_paths().len(),
        forall|i: int|
            0 <= i < routes@.len() ==> ((#[trigger] routes@[i]).0@, routes@[i].1@) == asset_route(
                assets_dir@,
                i,
            ),
{
    let paths: [&str; 7] = [
        "/1KB.txt",
        "/8KB.txt",
        "/16KB.txt",
        "/32KB.txt",
        "/48KB.txt",
        "/64KB.txt",
        "/128KB.txt",
    ];
    let mut routes: Vec<(String, String)> = Vec::new();
    for n in 0..7usize
        invariant
            paths@.len() == asset_paths().len(),
            forall|i: int| 0 <= i < paths@.len() ==> (#[trigger] paths@[i])@ == asset_paths()[i],
            routes@.len() == n,
            forall|i: int|
                0 <= i < routes@.len() ==> {
                    &&& (#[trigger] routes@[i]).0@ == asset_paths()[i]
                    &&& routes@[i].1@ == assets_dir@ + asset_paths()[i]
                },
    {
        let ghost before = routes@;
        add_asset(&mut routes, assets_dir, paths[n]);
        assert(paths@[n as int]@ == asset_paths()[n as int]);
        assert forall|i: int| 0 <= i < n implies #[trigger] routes@[i] == before[i] by {
            assert(routes@.drop_last()[i] == before[i]);
        }
    }
    routes
}

/// No two assets are requested by the same path.
pub proof fn law_routes_distinct(i: int, j: int)
    requires
        0 <= i < j < asset_paths().len(),
    ensures
        asset_paths()[i] != asset_paths()[j],
{
    reveal_strlit("/1KB.txt");
    reveal_strlit("/8KB.txt");
    reveal_strlit("/16KB.txt");
    reveal_strlit("/32KB.txt");
    reveal_strlit("/48KB.txt");
    reveal_strlit("/64KB.txt");
    reveal_strlit("/128KB.txt");
    assert(asset_paths()[i][1] != asset_paths()[j][1] || asset_paths()[i][2]
        != asset_paths()[j][2] || asset_paths()[i].len() != asset_paths()[j].len());
}

/// The size in KB of the `i`th asset.
pub open spec fn asset_size(i: int) -> nat {
    if i == 0 {
        1
    } else if i == 1 {
        8
    } else if i == 2 {
        16
    } else if i == 3 {
        32
    } else if i == 4 {
        48
    } else if i == 5 {
        64
    } else {
        128
    }
}

/// There are seven assets, which are named by their sizes.
pub proof fn law_asset_paths(i: int)
    requires
        0 <= i < 7,
    ensures
        asset_paths().len() == 7,
        asset_paths()[i] == "/"@ + wire::decimal(asset_size(i)) + "KB.txt"@,
{
    reveal_strlit("/");
    reveal_strlit("KB.txt");
    reveal_strlit("/1KB.txt");
    reveal_strlit("/8KB.txt");
    reveal_strlit("/16KB.txt");
    reveal_strlit("/32KB.txt");
    reveal_strlit("/48KB.txt");
    reveal_strlit("/64KB.txt");
    reveal_strlit("/128KB.txt");
    reveal_with_fuel(wire::decimal, 4);
    assert(asset_paths()[i] =~= "/"@ + wire::decimal(asset_size(i)) + "KB.txt"@);
}

} // verus!
