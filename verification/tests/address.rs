use hoster::address::IpAddress;
use hoster::text::chars_of;
fn v4(a: u8, b: u8, c: u8, d: u8) -> Option<IpAddress> {
    Some(IpAddress::V4(a, b, c, d))
}

fn v6(g: [u16; 8]) -> Option<IpAddress> {
    Some(IpAddress::V6(g[0], g[1], g[2], g[3], g[4], g[5], g[6], g[7]))
}

#[test]
fn texts_that_are_no_address() {
    let texts = [
        "",
        "256.0.0.1",
        "1.2.3",
        "1.2.3.4.5",
        "1.2.3.",
        ".1.2.3",
        "1..2.3",
        "01.2.3.4",
        "1.02.3.4",
        "0.0.0.00",
        "1.2.3.4 ",
        " 1.2.3.4",
        "1.2.3.a",
        "1.2.3.-4",
        "1.2.3.+4",
        "1234.1.1.1",
        "999.1.1.1",
        "1.2.3.4x",
        "١.٢.٣.٤",
        ":::",
        "::::",
        ":",
        "1:",
        ":1",
        "1:2",
        "1:2:3:4:5:6:7:8:9",
        "1:2:3:4:5:6:7",
        "1:2:3:4:5:6:7:",
        ":1:2:3:4:5:6:7",
        "1:2:3:4:5:6:7:8::",
        "::1:2:3:4:5:6:7:8",
        "1:2:3:4::5:6:7:8",
        "1::2::3",
        "1:::2",
        "00000::1",
        "12345::",
        "::12345",
        "::g",
        "g::",
        "1:2:3:4:5:6:7:1.2.3.4",
        "1:2:3:4:5:1.2.3.4",
        "1:2:3:4:5:6::1.2.3.4",
        "1.2.3.4::",
        "1.2.3.4::1",
        "1.2.3.4:1:2:3:4:5:6",
        "::1.2.3.4:5",
        "::1.2.3",
        "::1.2.3.4.5",
        "::1.2.3.256",
        "::01.2.3.4",
        "::1.2.3.4x",
        "localhost",
        "1",
        "1.2.3.4/24",
        "[::1]",
        "::1%eth0",
        "::1 ",
        "1:2:3:4:5:6:7:8 ",
        "é",
        "1.2.3.é",
        "::é",
    ];
    for text in texts {
        assert_eq!(IpAddress::parse(text), None, "{:?}", text);
    }
}

#[test]
fn texts_of_addresses_and_what_they_denote() {
    let cases = [
        ("0.0.0.0", v4(0, 0, 0, 0)),
        ("127.0.0.1", v4(127, 0, 0, 1)),
        ("255.255.255.255", v4(255, 255, 255, 255)),
        ("10.200.99.100", v4(10, 200, 99, 100)),
        ("::", v6([0, 0, 0, 0, 0, 0, 0, 0])),
        ("::1", v6([0, 0, 0, 0, 0, 0, 0, 1])),
        ("1::", v6([1, 0, 0, 0, 0, 0, 0, 0])),
        ("1:2:3:4:5:6:7:8", v6([1, 2, 3, 4, 5, 6, 7, 8])),
        ("1:2:3:4:5:6:7::", v6([1, 2, 3, 4, 5, 6, 7, 0])),
        ("::1:2:3:4:5:6:7", v6([0, 1, 2, 3, 4, 5, 6, 7])),
        ("1::2:3:4:5:6:7", v6([1, 0, 2, 3, 4, 5, 6, 7])),
        ("1:2:3:4::5:6:7", v6([1, 2, 3, 4, 0, 5, 6, 7])),
        ("fe00::0", v6([0xfe00, 0, 0, 0, 0, 0, 0, 0])),
        ("FE00::0", v6([0xfe00, 0, 0, 0, 0, 0, 0, 0])),
        ("fE80::AbCd", v6([0xfe80, 0, 0, 0, 0, 0, 0, 0xabcd])),
        ("0000:0000:0000:0000:0000:0000:0000:0001", v6([0, 0, 0, 0, 0, 0, 0, 1])),
        ("::ffff:1.2.3.4", v6([0, 0, 0, 0, 0, 0xffff, 0x0102, 0x0304])),
        ("::ffff:0102:0304", v6([0, 0, 0, 0, 0, 0xffff, 0x0102, 0x0304])),
        ("::1.2.3.4", v6([0, 0, 0, 0, 0, 0, 0x0102, 0x0304])),
        ("::0.0.0.1", v6([0, 0, 0, 0, 0, 0, 0, 1])),
        ("1:2:3:4:5:6:1.2.3.4", v6([1, 2, 3, 4, 5, 6, 0x0102, 0x0304])),
        ("1:2:3:4:5::1.2.3.4", v6([1, 2, 3, 4, 5, 0, 0x0102, 0x0304])),
        ("64:ff9b::192.0.2.33", v6([0x64, 0xff9b, 0, 0, 0, 0, 0xc000, 0x0221])),
        ("2001:db8::1", v6([0x2001, 0xdb8, 0, 0, 0, 0, 0, 1])),
        ("2001:0db8:0000:0000:0000:0000:0000:0000", v6([0x2001, 0xdb8, 0, 0, 0, 0, 0, 0])),
        (
            "ffff:ffff:ffff:ffff:ffff:ffff:ffff:ffff",
            v6([0xffff, 0xffff, 0xffff, 0xffff, 0xffff, 0xffff, 0xffff, 0xffff]),
        ),
        ("::ffff:255.255.255.255", v6([0, 0, 0, 0, 0, 0xffff, 0xffff, 0xffff])),
    ];
    for (text, address) in cases {
        assert_eq!(IpAddress::parse(text), address, "{:?}", text);
    }
}

#[test]
fn addresses_and_how_they_are_written() {
    let cases = [
        (v6([1, 0, 0, 2, 0, 0, 0, 3]), "1:0:0:2::3"),
        (v6([1, 0, 0, 0, 2, 0, 0, 3]), "1::2:0:0:3"),
        (v6([1, 0, 2, 0, 3, 0, 4, 0]), "1:0:2:0:3:0:4:0"),
        (v6([0, 1, 0, 1, 0, 1, 0, 1]), "0:1:0:1:0:1:0:1"),
        (v6([0, 0, 1, 0, 0, 1, 0, 0]), "::1:0:0:1:0:0"),
        (v6([1, 0, 0, 1, 0, 0, 1, 1]), "1::1:0:0:1:1"),
        (v6([0, 0, 0, 0, 0, 0, 0, 0]), "::"),
        (v6([0, 0, 0, 0, 0, 0, 0, 1]), "::1"),
        (v6([1, 0, 0, 0, 0, 0, 0, 0]), "1::"),
        (v6([0, 0, 0, 0, 0, 0xffff, 0, 0]), "::ffff:0.0.0.0"),
        (v6([0, 0, 0, 0, 0, 0xffff, 0x640a, 0x0100]), "::ffff:100.10.1.0"),
        (v6([0, 0, 0, 0, 0, 0xfffe, 0x102, 0x304]), "::fffe:102:304"),
        (v6([0, 0, 0, 0, 1, 0xffff, 0x102, 0x304]), "::1:ffff:102:304"),
        (v6([0xa, 0xb, 0xc, 0xd, 0xe, 0xf, 0, 1]), "a:b:c:d:e:f:0:1"),
        (v6([0xa0, 0xb00, 0xc000, 0xd, 0xe, 0xf, 0x10, 0x100]), "a0:b00:c000:d:e:f:10:100"),
        (v6([0x2001, 0xdb8, 0, 0, 1, 0, 0, 1]), "2001:db8::1:0:0:1"),
        (v4(1, 20, 255, 0), "1.20.255.0"),
        (v4(9, 10, 99, 100), "9.10.99.100"),
    ];
    for (address, text) in cases {
        let address = address.unwrap();
        assert_eq!(address.to_text(), text);
        assert_eq!(IpAddress::parse(text), Some(address));
    }
}

#[test]
fn what_is_written_is_read_back() {
    for n in 0..=255u8 {
        let address = IpAddress::V4(n, 255 - n, n / 2, 0);
        assert_eq!(address.to_text(), format!("{}.{}.{}.0", n, 255 - n, n / 2));
        assert_eq!(IpAddress::parse(&address.to_text()), Some(address));
    }
    let mut g: u16 = 0;
    for _ in 0..2000 {
        g = g.wrapping_mul(31).wrapping_add(7);
        let address = IpAddress::V6(g, 0, 0, g >> 4, g >> 8, g >> 12, 0, g & 1);
        assert_eq!(IpAddress::parse(&address.to_text()), Some(address));
    }
    for bits in 0..256u16 {
        let s = |i: u16| if bits & (1 << i) != 0 { 0x1a } else { 0 };
        let address = IpAddress::V6(s(0), s(1), s(2), s(3), s(4), s(5), s(6), s(7));
        let text = address.to_text();
        assert_eq!(IpAddress::parse(&text), Some(address));
        assert!(!text.contains(":::"));
        assert!(text.matches("::").count() <= 1);
    }
}

#[test]
fn dotted_texts() {
    assert_eq!(IpAddress::parse("127.0.0.1"), Some(IpAddress::V4(127, 0, 0, 1)));
    assert_eq!(IpAddress::parse("192.168.0.17"), Some(IpAddress::V4(192, 168, 0, 17)));
    assert_eq!(IpAddress::parse("255.255.255.255"), Some(IpAddress::V4(255, 255, 255, 255)));
    assert_eq!(IpAddress::parse("0.0.0.0"), Some(IpAddress::V4(0, 0, 0, 0)));
    assert_eq!(IpAddress::parse("256.0.0.0"), None);
    assert_eq!(IpAddress::parse("01.0.0.0"), None);
    assert_eq!(IpAddress::parse("1.0.0"), None);
    assert_eq!(IpAddress::parse("1.0.0.0.0"), None);
    assert_eq!(IpAddress::parse("1.0..0"), None);
    assert_eq!(IpAddress::parse(""), None);
    assert_eq!(IpAddress::parse("localhost"), None);
}

#[test]
fn colon_texts() {
    assert_eq!(IpAddress::parse("::1"), Some(IpAddress::V6(0, 0, 0, 0, 0, 0, 0, 1)));
    assert_eq!(IpAddress::parse("::"), Some(IpAddress::V6(0, 0, 0, 0, 0, 0, 0, 0)));
    assert_eq!(IpAddress::parse("fe00::0"), Some(IpAddress::V6(0xfe00, 0, 0, 0, 0, 0, 0, 0)));
    assert_eq!(
        IpAddress::parse("1:2:3:4:5:6:7:8"),
        Some(IpAddress::V6(1, 2, 3, 4, 5, 6, 7, 8))
    );
    assert_eq!(
        IpAddress::parse("2001:DB8::ab:0"),
        Some(IpAddress::V6(0x2001, 0xdb8, 0, 0, 0, 0, 0xab, 0))
    );
    assert_eq!(
        IpAddress::parse("::ffff:1.2.3.4"),
        Some(IpAddress::V6(0, 0, 0, 0, 0, 0xffff, 0x0102, 0x0304))
    );
    assert_eq!(
        IpAddress::parse("1:2:3:4:5:6:10.11.12.13"),
        Some(IpAddress::V6(1, 2, 3, 4, 5, 6, 0x0a0b, 0x0c0d))
    );
    assert_eq!(IpAddress::parse("1:2:3:4:5:6:7"), None);
    assert_eq!(IpAddress::parse("1:2:3:4:5:6:7::"), Some(IpAddress::V6(1, 2, 3, 4, 5, 6, 7, 0)));
    assert_eq!(IpAddress::parse("1:2:3:4::5:6:7:8"), None);
    assert_eq!(IpAddress::parse("1::2::3"), None);
    assert_eq!(IpAddress::parse("12345::"), None);
    assert_eq!(IpAddress::parse("1.2.3.4::"), None);
}

#[test]
fn texts_of_addresses() {
    assert_eq!(IpAddress::V4(127, 0, 0, 1).to_text(), "127.0.0.1");
    assert_eq!(IpAddress::V4(0, 10, 100, 255).to_text(), "0.10.100.255");
    assert_eq!(IpAddress::V6(0, 0, 0, 0, 0, 0, 0, 0).to_text(), "::");
    assert_eq!(IpAddress::V6(0, 0, 0, 0, 0, 0, 0, 1).to_text(), "::1");
    assert_eq!(IpAddress::V6(0xfe00, 0, 0, 0, 0, 0, 0, 0).to_text(), "fe00::");
    assert_eq!(IpAddress::V6(1, 0, 0, 2, 0, 0, 0, 3).to_text(), "1:0:0:2::3");
    assert_eq!(IpAddress::V6(1, 0, 0, 2, 0, 0, 3, 4).to_text(), "1::2:0:0:3:4");
    assert_eq!(IpAddress::V6(1, 0, 2, 0, 3, 0, 4, 0).to_text(), "1:0:2:0:3:0:4:0");
    assert_eq!(IpAddress::V6(0x2001, 0xdb8, 0, 0, 0, 0, 0xab, 0).to_text(), "2001:db8::ab:0");
    assert_eq!(IpAddress::V6(0, 0, 0, 0, 0, 0xffff, 0x0102, 0x0304).to_text(), "::ffff:1.2.3.4");
    assert_eq!(IpAddress::V6(0, 0, 0, 0, 0, 0, 0x0102, 0x0304).to_text(), "::102:304");
    assert_eq!(
        IpAddress::V6(0xffff, 0xfff, 0xff, 0xf, 0x1000, 0x100, 0x10, 0x1).to_text(),
        "ffff:fff:ff:f:1000:100:10:1"
    );
}

#[test]
fn the_characters_of_a_text() {
    assert_eq!(chars_of("aé\n"), vec!['a', 'é', '\n']);
    assert_eq!(chars_of(""), Vec::<char>::new());
}
