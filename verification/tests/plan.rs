//! How responses are laid out for the kernel.

use hyper_fast_path::fast_path::{huffman_encode, render_h2_response, render_response};
use hyper_fast_path::plan::{check_limits, check_path, Asset, AttachError, Plan};
use hyper_fast_path::routes::fastpath_routes;

fn asset(path: &str, body: Option<Vec<u8>>) -> Asset {
    Asset {
        path: path.to_string(),
        file: format!("assets{path}").into_bytes(),
        body,
    }
}

fn error(dummies: usize, assets: Vec<Asset>) -> AttachError {
    match Plan::prepare(dummies, &assets) {
        Ok(_) => panic!("there is nothing wrong with this"),
        Err(e) => e,
    }
}

#[test]
fn refuses_a_number_of_connections_it_cannot_run_on() {
    assert_eq!(error(0, vec![]), AttachError::Dummies { requested: 0 });
    assert_eq!(error(16385, vec![]), AttachError::Dummies { requested: 16385 });
    assert!(Plan::prepare(1, &vec![]).is_ok());
    assert!(Plan::prepare(16384, &vec![]).is_ok());
}

#[test]
fn tells_what_it_refuses_before_a_file_is_read() {
    assert_eq!(check_limits(1, 16), Ok(()));
    assert_eq!(check_limits(16384, 0), Ok(()));
    assert_eq!(check_limits(0, 17), Err(AttachError::Dummies { requested: 0 }));
    assert_eq!(check_limits(16385, 1), Err(AttachError::Dummies { requested: 16385 }));
    assert_eq!(check_limits(1, 17), Err(AttachError::TooManyRoutes { configured: 17 }));

    assert_eq!(check_path(3, &[b'a'; 64], &[0; 64]), Ok(()));
    assert_eq!(check_path(3, &[b'a'; 65], &[]), Err(AttachError::PathTooLong { route: 3 }));
    assert_eq!(check_path(3, &[], &[0; 65]), Err(AttachError::PathTooLong { route: 3 }));
}

#[test]
fn refuses_too_many_routes() {
    let assets = |n: usize| -> Vec<Asset> {
        (0..n).map(|i| asset(&format!("/{i}"), Some(vec![0; i]))).collect()
    };
    assert_eq!(error(1, assets(17)), AttachError::TooManyRoutes { configured: 17 });
    let Ok(plan) = Plan::prepare(1, &assets(16)) else {
        panic!("there is room for these");
    };
    assert_eq!(plan.routes.len(), 16);
}

#[test]
fn refuses_a_path_that_is_too_long() {
    let fits = "/".repeat(64);
    assert!(Plan::prepare(1, &vec![asset(&fits, Some(vec![]))]).is_ok());
    let long = "/".repeat(65);
    assert_eq!(
        error(1, vec![asset("/a", Some(vec![])), asset(&long, Some(vec![]))]),
        AttachError::PathTooLong { route: 1 }
    );
    // a path may be short enough as it is spelled out and too long once coded
    let coded = "{".repeat(40);
    assert!(huffman_encode(&coded).len() > 64);
    assert_eq!(
        error(1, vec![asset(&coded, Some(vec![]))]),
        AttachError::PathTooLong { route: 0 }
    );
}

#[test]
fn refuses_a_file_that_cannot_be_read() {
    assert_eq!(error(1, vec![asset("/a", None)]), AttachError::Unreadable { route: 0 });
    // the first one that cannot be served is the one that counts
    let long = "/".repeat(65);
    assert_eq!(
        error(1, vec![asset("/a", Some(vec![])), asset("/b", None), asset(&long, None)]),
        AttachError::Unreadable { route: 1 }
    );
    assert_eq!(
        error(1, vec![asset(&long, None), asset("/b", None)]),
        AttachError::PathTooLong { route: 0 }
    );
}

#[test]
fn leaves_a_response_that_is_too_large_to_the_server() {
    let head = render_response(b"assets/a", &vec![0; 400_000]).len() - 400_000;
    let most = 458752 - head;
    let Ok(plan) = Plan::prepare(
        1,
        &vec![
            asset("/a", Some(vec![1; most + 1])),
            asset("/b", Some(vec![2; most])),
            asset("/c", Some(b"small".to_vec())),
        ],
    ) else {
        panic!("nothing is refused");
    };
    assert_eq!(plan.routes.len(), 2);
    assert_eq!(plan.routes[0].path, b"/b".to_vec());
    assert_eq!(plan.routes[0].body.len(), 458752);
    // the frame headers make the HTTP/2 rendering outgrow the HTTP/1.1 one
    assert!(plan.routes[0].h2.is_none());
    assert_eq!(plan.routes[1].path, b"/c".to_vec());
    assert!(plan.routes[1].h2.is_some());

    let entry = plan.route_entry(0);
    assert_eq!((entry.body_off, entry.body_len), (0, 458752));
    assert_eq!((entry.h2_body_off, entry.h2_body_len), (0, 0));
    assert_eq!((entry.h2_sid_count, entry.h2_data_len), (0, 0));
    assert_eq!(entry.h2_sid_offs, [0; 32]);
    assert_eq!(plan.route_entry(1).body_off, 458752);
}

#[test]
fn every_response_is_found_where_its_entry_says() {
    let assets = vec![
        asset("/a.css", Some(b"body{}".to_vec())),
        asset("/b.js", Some(vec![b'x'; 40000])),
        asset("/c", Some(Vec::new())),
    ];
    let Ok(plan) = Plan::prepare(1024, &assets) else {
        panic!("all of these can be served");
    };
    let mut arena = vec![0xEE; plan.pages() * 4096];
    plan.write_arena(&mut arena);

    let mut end = 0;
    for (i, asset) in assets.iter().enumerate() {
        let entry = plan.route_entry(i);
        let body = asset.body.as_ref().unwrap();
        let (h2, offs, len) = render_h2_response(&asset.file, body);

        let off = entry.body_off as usize;
        assert_eq!(off, end);
        assert_eq!(
            arena[off..off + entry.body_len as usize],
            render_response(&asset.file, body)[..]
        );
        end += entry.body_len as usize;

        let off = entry.h2_body_off as usize;
        assert_eq!(off, end);
        assert_eq!(arena[off..off + entry.h2_body_len as usize], h2[..]);
        assert_eq!(entry.h2_sid_count as usize, offs.len());
        assert_eq!(entry.h2_sid_offs[..offs.len()], offs[..]);
        assert!(entry.h2_sid_offs[offs.len()..].iter().all(|off| *off == 0));
        assert_eq!(entry.h2_data_len as usize, len);
        end += entry.h2_body_len as usize;
    }
    assert_eq!(end, plan.arena_len);
    assert!(arena[end..].iter().all(|b| *b == 0xEE));
}

#[test]
fn sizes_the_arena_in_pages() {
    let Ok(plan) = Plan::prepare(1, &vec![]) else {
        panic!("there is nothing to refuse");
    };
    assert_eq!(plan.pages(), 1);

    // one response of 4096 bytes in HTTP/1.1, and some more in HTTP/2
    let head = render_response(b"assets/a", &vec![0; 4000]).len() - 4000;
    let Ok(plan) = Plan::prepare(1, &vec![asset("/a", Some(vec![0; 4096 - head]))]) else {
        panic!("it can be served");
    };
    assert_eq!(plan.routes[0].body.len(), 4096);
    assert_eq!(plan.pages(), plan.arena_len.div_ceil(4096));
    assert_eq!(plan.pages(), 2);
}

#[test]
fn indexes_a_route_by_both_of_its_paths() {
    let Ok(plan) = Plan::prepare(
        1,
        &vec![asset("/a", Some(vec![])), asset("/index.html", Some(vec![]))],
    ) else {
        panic!("both can be served");
    };
    let entries = plan.index();
    assert_eq!(entries.len(), 4);
    for (i, path) in ["/a", "/index.html"].iter().enumerate() {
        let mut plain = [0; 64];
        plain[..path.len()].copy_from_slice(path.as_bytes());
        assert_eq!(entries[2 * i].key, plain);
        assert_eq!(entries[2 * i].route, i as u8);

        let code = huffman_encode(path);
        let mut coded = [0; 64];
        coded[..code.len()].copy_from_slice(&code);
        assert_eq!(entries[2 * i + 1].key, coded);
        assert_eq!(entries[2 * i + 1].route, i as u8);
    }
}

#[test]
fn lists_the_assets_of_the_file_server() {
    let routes = fastpath_routes("/srv/assets");
    let expected = [
        ("/1KB.txt", "/srv/assets/1KB.txt"),
        ("/8KB.txt", "/srv/assets/8KB.txt"),
        ("/16KB.txt", "/srv/assets/16KB.txt"),
        ("/32KB.txt", "/srv/assets/32KB.txt"),
        ("/48KB.txt", "/srv/assets/48KB.txt"),
        ("/64KB.txt", "/srv/assets/64KB.txt"),
        ("/128KB.txt", "/srv/assets/128KB.txt"),
    ];
    assert_eq!(routes.len(), expected.len());
    for ((path, file), (expected_path, expected_file)) in routes.iter().zip(expected) {
        assert_eq!(path, expected_path);
        assert_eq!(file, expected_file);
    }
}
