use superworm::addr::{SocketAddr, SocketAddrV4, SocketAddrV6};

fn v4(ip: u32, port: u16) -> SocketAddr {
    SocketAddr::V4(SocketAddrV4 { ip, port })
}

fn v6(ip: u128, port: u16, scope_id: u32) -> SocketAddr {
    SocketAddr::V6(SocketAddrV6 { ip, port, flowinfo: 0, scope_id })
}

fn groups(gs: [u16; 8]) -> u128 {
    let mut ip: u128 = 0;
    for g in gs {
        ip = ip * 65536 + g as u128;
    }
    ip
}

#[test]
fn ipv4_is_dotted() {
    assert_eq!(v4(0x7f00_0001, 8080).to_text(), "127.0.0.1:8080");
    assert_eq!(v4(0, 0).to_text(), "0.0.0.0:0");
    assert_eq!(v4(0xffff_ffff, 65535).to_text(), "255.255.255.255:65535");
    assert_eq!(v4(0xc0a8_0a64, 22).to_text(), "192.168.10.100:22");
}

#[test]
fn ipv6_elides_the_longest_run_of_zeros() {
    assert_eq!(v6(0, 80, 0).to_text(), "[::]:80");
    assert_eq!(v6(1, 80, 0).to_text(), "[::1]:80");
    assert_eq!(v6(groups([0x2001, 0xdb8, 0, 0, 0, 0, 0, 1]), 443, 0).to_text(), "[2001:db8::1]:443");
    assert_eq!(v6(groups([1, 0, 0, 2, 0, 0, 0, 3]), 1, 0).to_text(), "[1:0:0:2::3]:1");
    assert_eq!(v6(groups([1, 0, 0, 0, 0, 0, 0, 0]), 1, 0).to_text(), "[1::]:1");
}

#[test]
fn ipv6_elides_the_first_of_equal_runs() {
    assert_eq!(v6(groups([1, 0, 0, 2, 0, 0, 3, 4]), 1, 0).to_text(), "[1::2:0:0:3:4]:1");
}

#[test]
fn ipv6_keeps_a_single_zero() {
    assert_eq!(v6(groups([1, 0, 2, 3, 4, 5, 6, 7]), 1, 0).to_text(), "[1:0:2:3:4:5:6:7]:1");
    assert_eq!(
        v6(groups([0xabcd, 1, 2, 3, 4, 5, 6, 0xef01]), 1, 0).to_text(),
        "[abcd:1:2:3:4:5:6:ef01]:1"
    );
}

#[test]
fn ipv6_shows_a_mapped_ipv4() {
    assert_eq!(
        v6(groups([0, 0, 0, 0, 0, 0xffff, 0xc000, 0x0280]), 9, 0).to_text(),
        "[::ffff:192.0.2.128]:9"
    );
}

#[test]
fn ipv6_shows_a_scope() {
    assert_eq!(v6(groups([0xfe80, 0, 0, 0, 0, 0, 0, 1]), 9, 5).to_text(), "[fe80::1%5]:9");
}
