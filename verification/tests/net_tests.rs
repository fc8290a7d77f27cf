use tun2proxy::error::Error;
use tun2proxy::http_response::{content_length, find_header, read_head, read_text, status_error, Header};
use tun2proxy::net::{IpAddr, Ipv4Addr, Ipv6Addr, SocketAddr, SocketAddrV6};

fn text(ip: IpAddr, port: u16) -> String {
    SocketAddr::new(ip, port).to_text()
}

fn v6(groups: [u16; 8]) -> IpAddr {
    let [a, b, c, d, e, f, g, h] = groups;
    IpAddr::V6(Ipv6Addr::new(a, b, c, d, e, f, g, h))
}

#[test]
fn ipv4_addresses_are_written() {
    assert_eq!(text(IpAddr::V4(Ipv4Addr::new(0, 0, 0, 0)), 0), "0.0.0.0:0");
    assert_eq!(text(IpAddr::V4(Ipv4Addr::new(192, 168, 10, 255)), 65535), "192.168.10.255:65535");
    assert_eq!(Ipv4Addr::new(1, 2, 3, 4).octets(), [1, 2, 3, 4]);
}

#[test]
fn ipv6_addresses_are_written() {
    for (groups, expected) in [
        ([0, 0, 0, 0, 0, 0, 0, 0], "[::]:80"),
        ([0, 0, 0, 0, 0, 0, 0, 1], "[::1]:80"),
        ([1, 0, 0, 0, 0, 0, 0, 0], "[1::]:80"),
        ([0x2001, 0xdb8, 0, 0, 0, 0, 0, 1], "[2001:db8::1]:80"),
        ([0x2001, 0xdb8, 0, 1, 1, 1, 1, 1], "[2001:db8:0:1:1:1:1:1]:80"),
        ([1, 0, 0, 2, 0, 0, 0, 3], "[1:0:0:2::3]:80"),
        ([1, 0, 0, 2, 0, 0, 3, 4], "[1::2:0:0:3:4]:80"),
        ([0xfe80, 0, 0, 0, 0xabcd, 0, 0, 0xff], "[fe80::abcd:0:0:ff]:80"),
        ([0, 0, 0, 0, 0, 0xffff, 0x0102, 0x0304], "[::ffff:1.2.3.4]:80"),
        ([0, 0, 0, 0, 0, 0, 0x0102, 0x0304], "[::102:304]:80"),
        ([1, 2, 3, 4, 5, 6, 7, 8], "[1:2:3:4:5:6:7:8]:80"),
    ] {
        assert_eq!(text(v6(groups), 80), expected);
    }
    assert_eq!(Ipv6Addr::new(1, 2, 3, 4, 5, 6, 7, 8).segments(), [1, 2, 3, 4, 5, 6, 7, 8]);
}

#[test]
fn scopes_are_written() {
    let ip = Ipv6Addr::new(0xfe80, 0, 0, 0, 0, 0, 0, 1);
    let addr = SocketAddr::V6(SocketAddrV6 { ip, port: 5, flowinfo: 7, scope_id: 12 });
    assert_eq!(addr.to_text(), "[fe80::1%12]:5");
}

#[test]
fn address_can_be_replaced() {
    let v4 = SocketAddr::new(IpAddr::V4(Ipv4Addr::new(1, 2, 3, 4)), 53);
    let other = v4.with_ip(IpAddr::V4(Ipv4Addr::new(8, 8, 8, 8)));
    assert_eq!(other.to_text(), "8.8.8.8:53");
    assert_eq!(v4.with_ip(v6([0, 0, 0, 0, 0, 0, 0, 1])).to_text(), "[::1]:53");
    let scoped = SocketAddr::V6(SocketAddrV6 {
        ip: Ipv6Addr::new(0xfe80, 0, 0, 0, 0, 0, 0, 1),
        port: 5,
        flowinfo: 7,
        scope_id: 12,
    });
    // Within a family the rest stays.
    assert_eq!(scoped.with_ip(v6([0, 0, 0, 0, 0, 0, 0, 2])).to_text(), "[::2%12]:5");
}

#[test]
fn texts_of_errors() {
    assert_eq!(Error::text("x").message(), "x");
    assert_eq!(Error::Socks("y".to_string()).message(), "y");
    assert_eq!(Error::Utf8.message(), "invalid utf-8 sequence");
    assert_eq!(Error::ParseInt.message(), "invalid number");
}

#[test]
fn text_must_be_utf8() {
    assert_eq!(read_text("aé€".as_bytes()).unwrap(), "aé€");
    assert!(matches!(read_text(b"a\xff"), Err(Error::Utf8)));
    assert!(matches!(read_text(b"\xc3"), Err(Error::Utf8)));
}

#[test]
fn heads_are_read() {
    let head = read_head(b"HTTP/1.0 404 Not Found\r\nA: b\r\nc:d\r\n\r\nbody").unwrap().unwrap();
    assert_eq!(head.len, 37);
    assert_eq!(head.code, 404);
    assert_eq!(head.version, 0);
    assert_eq!(head.reason, "Not Found");
    assert_eq!(head.headers.len(), 2);
    assert_eq!(head.headers[0].name, "A");
    assert_eq!(head.headers[1].value, b"d");
    assert!(read_head(b"HTTP/1.1 200 OK\r\nA: b\r\n").unwrap().is_none());
    assert!(matches!(read_head(b"HTTP/3.0 200 OK\r\n\r\n"), Err(Error::HttpParse(_))));
    assert_eq!(status_error(head.code, &head.reason).message(), "HTTP 404 [Not Found]");
}

#[test]
fn headers_are_found_in_any_case() {
    let field = |name: &str, value: &str| Header { name: name.to_string(), value: value.as_bytes().to_vec() };
    let headers = vec![field("Content-Length", "1"), field("X", "2"), field("CONTENT-length", "3")];
    assert_eq!(find_header(&headers, "content-LENGTH").map(|v| v.as_slice()), Some(&b"3"[..]));
    assert!(find_header(&headers, "Content-Lengt").is_none());
}

#[test]
fn lengths_are_read() {
    for (value, expected) in [("0", 0), ("+7", 7), ("007", 7), ("5,5", 5), ("5,+5,05", 5)] {
        assert_eq!(content_length(&value.as_bytes().to_vec()).unwrap(), expected, "{value}");
    }
    assert_eq!(content_length(&usize::MAX.to_string().into_bytes()).unwrap(), usize::MAX);
    for value in ["", "a", "-1", "5,", ",5", "5, 5", "99999999999999999999999", "5,x,6"] {
        assert!(matches!(content_length(&value.as_bytes().to_vec()), Err(Error::ParseInt)), "{value}");
    }
    assert_eq!(content_length(&b"5,6,x".to_vec()).unwrap_err().message(), "Malformed response");
    assert!(matches!(content_length(&vec![0xff]), Err(Error::Utf8)));
}
