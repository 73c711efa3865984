//! The pool of dummies, and how the kernel knows them.

use hyper_fast_path::dummies::{
    fds_needed, raise_fd_limit, DummyError, DummyPool, FdLimit, Outcome, Reset, ResetStep,
    QUARANTINE,
};
use hyper_fast_path::net::{
    conn_key, conn_key_in, listen_address, listen_address_in, order_of, read_u32, write_u32,
    Address, ByteOrder,
};
use hyper_fast_path::parser_map::{
    find_maps, find_parsers, LinkInfo, MapSearch, ProgInfo, SearchStep, DYNAMIC_TABLE_INFO,
};
use hyper_fast_path::plan::AttachError;

const LOCAL: Address = Address::V4 { ip: [127, 0, 0, 1], port: 8080 };
const REMOTE: Address = Address::V4 { ip: [10, 1, 2, 3], port: 54321 };

#[test]
fn lays_a_number_out_in_both_orders() {
    assert_eq!(write_u32(ByteOrder::Little, 0x01020304), [4, 3, 2, 1]);
    assert_eq!(write_u32(ByteOrder::Big, 0x01020304), [1, 2, 3, 4]);
    for v in [0, 1, 255, 256, 0xDEADBEEF, u32::MAX] {
        assert_eq!(write_u32(ByteOrder::Little, v), v.to_le_bytes());
        assert_eq!(write_u32(ByteOrder::Big, v), v.to_be_bytes());
        for order in [ByteOrder::Little, ByteOrder::Big] {
            assert_eq!(read_u32(order, write_u32(order, v)), v);
        }
    }
}

#[test]
fn tells_the_byte_order_by_the_layout_of_one() {
    assert_eq!(order_of(1u32.to_le_bytes()), ByteOrder::Little);
    assert_eq!(order_of(1u32.to_be_bytes()), ByteOrder::Big);
    let order = order_of(1u32.to_ne_bytes());
    assert_eq!(write_u32(order, 0x01020304), 0x01020304u32.to_ne_bytes());
}

#[test]
fn keys_a_connection_the_way_the_kernel_does() {
    let mut expected = [0; 16];
    expected[0..4].copy_from_slice(&[127, 0, 0, 1]);
    expected[4..8].copy_from_slice(&8080u32.to_ne_bytes());
    expected[8..12].copy_from_slice(&[10, 1, 2, 3]);
    expected[12..16].copy_from_slice(&54321u32.to_ne_bytes());
    assert_eq!(conn_key(LOCAL, REMOTE), Some(expected));

    assert_eq!(
        conn_key_in(ByteOrder::Little, LOCAL, REMOTE),
        Some([127, 0, 0, 1, 0x90, 0x1f, 0, 0, 10, 1, 2, 3, 0x31, 0xd4, 0, 0])
    );
    assert_eq!(
        conn_key_in(ByteOrder::Big, LOCAL, REMOTE),
        Some([127, 0, 0, 1, 0, 0, 0x1f, 0x90, 10, 1, 2, 3, 0, 0, 0xd4, 0x31])
    );
    assert_eq!(conn_key(LOCAL, Address::V6), None);
    assert_eq!(conn_key(Address::V6, REMOTE), None);
}

#[test]
fn tells_the_kernel_where_the_server_listens() {
    assert_eq!(listen_address(LOCAL), Ok((u32::from_ne_bytes([127, 0, 0, 1]), 8080)));
    assert_eq!(listen_address_in(ByteOrder::Little, LOCAL), Ok((0x0100007f, 8080)));
    assert_eq!(listen_address_in(ByteOrder::Big, LOCAL), Ok((0x7f000001, 8080)));
    assert_eq!(listen_address(Address::V6), Err(AttachError::NotIpv4));
}

#[test]
fn raises_the_limit_on_open_files_only_if_it_has_to() {
    assert_eq!(fds_needed(1024), 3072);
    assert_eq!(raise_fd_limit(3072, 4096, 3072), FdLimit::Enough);
    assert_eq!(raise_fd_limit(3071, 4096, 3072), FdLimit::Raise { soft: 4096 });
    assert_eq!(raise_fd_limit(1024, 3072, 3072), FdLimit::Raise { soft: 3072 });
    assert_eq!(raise_fd_limit(1024, 3071, 3072), FdLimit::TooLow { hard: 3071 });
}

#[test]
fn registers_dummies_one_after_the_other() {
    let mut pool = DummyPool::new();
    let first = pool.register(LOCAL, REMOTE);
    let second = pool.register(REMOTE, LOCAL);
    let (Ok(first), Ok(second)) = (first, second) else {
        panic!("both are IPv4");
    };
    assert_eq!((first.idx, second.idx), (0, 1));
    assert_eq!(first.slot, 0u32.to_ne_bytes());
    assert_eq!(second.slot, 1u32.to_ne_bytes());
    assert_eq!(Some(first.key), conn_key(LOCAL, REMOTE));
    assert_eq!(Some(second.key), conn_key(REMOTE, LOCAL));
    assert!(matches!(pool.register(Address::V6, LOCAL), Err(DummyError::NotIpv4)));
    assert_eq!(pool.keys, vec![first.key, second.key]);
}

#[test]
fn leaves_a_released_dummy_alone_for_a_while() {
    let mut pool = DummyPool::new();
    pool.release(&7u32.to_ne_bytes(), 1_000);
    pool.release(&3u32.to_ne_bytes(), 2_000);
    pool.release(b"not an index", 2_000);
    pool.release(b"", 2_000);

    assert_eq!(QUARANTINE, 100_000_000);
    assert_eq!(pool.next_due(500), None);
    assert_eq!(pool.next_due(1_000 + QUARANTINE - 1), None);
    assert_eq!(pool.next_due(1_000 + QUARANTINE), Some(7));
    assert_eq!(pool.next_due(1_000 + QUARANTINE), None);
    assert_eq!(pool.next_due(2_000 + QUARANTINE), Some(3));
    assert_eq!(pool.next_due(u64::MAX), None);
}

#[test]
fn reads_records_in_the_order_of_the_machine() {
    for (order, expected) in [(ByteOrder::Little, 0x0400_0001), (ByteOrder::Big, 0x0100_0004)] {
        let mut pool = DummyPool::with_order(order);
        pool.release(&[1, 0, 0, 4], 0);
        assert_eq!(pool.next_due(QUARANTINE), Some(expected));
    }
}

fn started() -> Reset {
    let mut pool = DummyPool::new();
    assert!(pool.register(LOCAL, REMOTE).is_ok());
    assert!(pool.register(REMOTE, LOCAL).is_ok());
    let Ok(reset) = pool.reset(1) else {
        panic!("there is such a dummy");
    };
    assert_eq!(reset.idx, 1);
    assert_eq!(reset.slot, 1u32.to_ne_bytes());
    assert_eq!(Some(reset.key), conn_key(REMOTE, LOCAL));
    assert_eq!(reset.step, ResetStep::Withdraw);
    assert!(matches!(pool.reset(2), Err(DummyError::NoSuchDummy { idx: 2 })));
    reset
}

#[test]
fn resets_a_dummy_step_by_step() {
    let steps = [
        ResetStep::ClearError,
        ResetStep::Reinsert,
        ResetStep::ForgetTable,
        ResetStep::Free,
        ResetStep::Done,
        ResetStep::Done,
    ];
    let mut reset = started();
    for step in steps {
        assert_eq!(reset.advance(Outcome::Success), step);
    }

    // the parser need not have an entry for the connection
    let mut reset = started();
    for _ in 0..3 {
        reset.advance(Outcome::Success);
    }
    assert_eq!(reset.advance(Outcome::NotFound), ResetStep::Free);
    assert_eq!(reset.advance(Outcome::Success), ResetStep::Done);
}

#[test]
fn a_dummy_that_cannot_be_reset_is_lost() {
    for outcome in [Outcome::Failed, Outcome::NotFound] {
        for failing in 0..5 {
            if failing == 3 && outcome == Outcome::NotFound {
                continue;
            }
            let mut reset = started();
            for _ in 0..failing {
                reset.advance(Outcome::Success);
            }
            assert_eq!(reset.advance(outcome), ResetStep::Lost);
            assert_eq!(reset.advance(Outcome::Success), ResetStep::Lost);
        }
    }
}

fn linked() -> (Vec<LinkInfo>, Vec<ProgInfo>) {
    let links = vec![
        LinkInfo { prog_id: 10, target: Some(5) },
        LinkInfo { prog_id: 11, target: None },
        LinkInfo { prog_id: 12, target: Some(6) },
        LinkInfo { prog_id: 13, target: Some(5) },
    ];
    let progs = vec![
        ProgInfo { id: 13, map_ids: vec![100, 101] },
        ProgInfo { id: 12, map_ids: vec![102] },
        ProgInfo { id: 11, map_ids: vec![103] },
        ProgInfo { id: 10, map_ids: vec![104] },
    ];
    (links, progs)
}

#[test]
fn looks_for_the_map_among_those_of_the_parsers() {
    let (links, progs) = linked();
    assert_eq!(find_parsers(&links, 5), vec![10, 13]);
    assert_eq!(find_parsers(&links, 7), Vec::<u32>::new());
    assert_eq!(find_maps(&progs, &[10, 13]), vec![100, 101, 104]);
    assert_eq!(find_maps(&progs, &[]), Vec::<u32>::new());

    let mut search = MapSearch::new(&links, &progs, 5);
    assert_eq!(search.step, SearchStep::Open { id: 100 });
    assert_eq!(search.look(b"dynamic_table"), SearchStep::Open { id: 101 });
    assert_eq!(search.look(b"dynamic_table_i"), SearchStep::Found { id: 101 });
    assert_eq!(search.look(b"whatever"), SearchStep::Found { id: 101 });

    let mut search = MapSearch::new(&links, &progs, 5);
    for id in [101, 104] {
        assert_eq!(search.look(b"dynamic_table_info"), SearchStep::Open { id });
    }
    assert_eq!(search.look(b"dynamic_table_info"), SearchStep::NotFound);

    assert_eq!(MapSearch::new(&links, &progs, 7).step, SearchStep::NotFound);
    assert_eq!(&DYNAMIC_TABLE_INFO, b"dynamic_table_i");
}
