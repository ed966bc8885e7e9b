use bytes::BytesMut;
use ifprobe::netlink::{build_dump_request, drain_datagram, serialize_request};
use netlink_sys::constants::NETLINK_ROUTE;
use netlink_sys::{Socket, SocketAddr};

#[test]
fn test_interfaces_netlink() {
    let socket = Socket::new(NETLINK_ROUTE).unwrap();
    let req = build_dump_request(1);
    let buf = serialize_request(&req);
    let addr = SocketAddr::new(0, 0);
    let n = socket.send_to(&buf, &addr, 0).unwrap();
    assert_eq!(n, req.header.length as usize);
    let mut rx = BytesMut::with_capacity(4096);
    // the kernel answers a dump promptly; the bound keeps a silent peer from
    // hanging the test
    for _ in 0..1024 {
        let (_n, _addr) = socket.recv_from(&mut rx, 0).unwrap();
        let outcome = drain_datagram(&rx).unwrap();
        println!("{} records", outcome.records.len());
        rx.clear();
        if outcome.done {
            return;
        }
    }
    panic!("no Done marker within the receive bound");
}
