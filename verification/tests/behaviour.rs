use switch_fw::{
    atoi_hex, byte_to_html, cmd_compare, cmd_tokenize, execute_config, flash_find_mark,
    gpio_pin_test, is_url_word_x, isletter, itoa_html, itohex, parse_i16, parse_short, port,
    sfr_data_to_html, CmdArgs, Flash, ERR,
};

#[test]
fn port_reads_the_documented_bits() {
    assert_eq!(port([0x00, 0x00]), 0);
    assert_eq!(port([0xc0, 0x00]), 3);
    assert_eq!(port([0x40, 0x02]), 9);
    assert_eq!(port([0x3f, 0xfc]), 0);
    assert_eq!(port([0xff, 0xff]), 15);
}

#[test]
fn port_decodes_every_status_encoding() {
    for n in 0u8..16 {
        let data = [((n & 3) << 6) | 0x3f, ((n >> 2) & 3) | 0xfc];
        assert_eq!(port(data), n);
    }
}

#[test]
fn isletter_edges() {
    assert!(!isletter(b'@'));
    assert!(!isletter(b'['));
    assert!(!isletter(b'`'));
    assert!(!isletter(b'{'));
    assert!(isletter(b'm'));
    assert!(!isletter(0xc1));
    assert!(!isletter(0));
}

#[test]
fn parse_i16_edges() {
    assert_eq!(parse_i16(0), 0);
    assert_eq!(parse_i16(0xffff), -1);
    assert_eq!(parse_i16(0x8001), -32767);
    for x in [-32768i16, -1234, -1, 0, 1, 4321, 32767] {
        assert_eq!(parse_i16(x as u16), x);
    }
}

#[test]
fn gpio_pin_reads_its_bit() {
    assert_eq!(gpio_pin_test(0, 1), 0x80);
    assert_eq!(gpio_pin_test(1, 1), 0);
    assert_eq!(gpio_pin_test(30, 1 << 31), 0);
    assert_eq!(gpio_pin_test(39, 1 << 39), 0x80);
    assert_eq!(gpio_pin_test(63, 1 << 63), 0x80);
    // pins past 63 wrap within the upper half
    assert_eq!(gpio_pin_test(64, 1 << 32), 0x80);
}

#[test]
fn itohex_uses_the_low_nibble() {
    assert_eq!(itohex(0xab), b'b');
    assert_eq!(itohex(0x3c), b'c');
    assert_eq!(itohex(0xf9), b'9');
}

#[test]
fn html_appends_to_what_is_there() {
    let mut out = b"x=".to_vec();
    byte_to_html(0xa5, &mut out);
    itoa_html(42, &mut out);
    sfr_data_to_html([0, 0, 0x01, 0x0f], &mut out);
    assert_eq!(&out, b"x=a54210f");
}

#[test]
fn itoa_then_parse_short_roundtrip() {
    for v in 0u8..=255 {
        let mut out = vec![];
        itoa_html(v, &mut out);
        let mut data = 7;
        assert!(!parse_short(&out, &mut data));
        assert_eq!(data, v as u16);
    }
}

#[test]
fn parse_short_stops_at_a_non_digit() {
    let mut data = 9;
    assert!(parse_short(b"/5", &mut data));
    assert_eq!(data, 0);
    assert!(!parse_short(b"65535", &mut data));
    assert_eq!(data, 65535);
    assert!(!parse_short(b"007 x", &mut data));
    assert_eq!(data, 7);
}

#[test]
fn byte_html_then_atoi_hex_roundtrip() {
    for b in 0u8..=255 {
        let mut out = vec![];
        byte_to_html(b, &mut out);
        out.push(0);
        let mut hv = [9, 8, 7, 6];
        assert_eq!(atoi_hex(0, &out, &mut hv), 1);
        assert_eq!(hv, [b, 8, 7, 6]);
    }
}

#[test]
fn sfr_html_then_atoi_hex_roundtrip() {
    for d in [
        [0u8, 0, 0, 0],
        [0, 0, 0, 5],
        [0, 0, 0x12, 0x34],
        [0, 0x01, 0x23, 0x45],
        [0x12, 0x34, 0x56, 0x78],
        [0x0f, 0xff, 0xff, 0xff],
        [0xff, 0, 0, 0],
    ] {
        let mut out = vec![];
        sfr_data_to_html(d, &mut out);
        out.push(0);
        let mut hv = [0xaa; 4];
        let r = atoi_hex(0, &out, &mut hv);
        assert!((1..=4).contains(&r));
        assert_eq!(&hv[..r], &d[4 - r..]);
    }
}

#[test]
fn atoi_hex_edges() {
    let mut hv = [1, 2, 3, 4];
    // an empty number
    assert_eq!(atoi_hex(0, b" 12\0", &mut hv), 0);
    assert_eq!(hv, [1, 2, 3, 4]);
    // eight digits fill all four bytes
    assert_eq!(atoi_hex(0, b"deadBEEF \0", &mut hv), 4);
    assert_eq!(hv, [0xde, 0xad, 0xbe, 0xef]);
    // a number broken off by a byte that is no digit keeps what was stored
    assert_eq!(atoi_hex(0, b"12345g\0", &mut hv), 0);
    assert_eq!(hv, [0x12, 0x34, 0x05, 0xef]);
    // an odd count of digits shifts the whole word by a nibble
    let mut hv = [0, 0, 0, 0x70];
    assert_eq!(atoi_hex(2, b"..abc\0", &mut hv), 2);
    assert_eq!(hv, [0x0a, 0xbc, 0x00, 0x07]);
}

#[test]
fn url_word_cases() {
    assert!(is_url_word_x(b"a\0", b"a\t"));
    assert!(is_url_word_x(b"a\0", b"a:"));
    assert!(is_url_word_x(b"a\0", b"a="));
    assert!(is_url_word_x(b"a\0", b"a\r"));
    assert!(is_url_word_x(b"a\0", b"a\n"));
    assert!(!is_url_word_x(b"a\0", b"ab\0"));
    assert!(!is_url_word_x(b"ab\0", b"a\0"));
    assert!(!is_url_word_x(b"a\0", b"%6\0"));
    assert!(!is_url_word_x(b"a\0", b"%62\0"));
    assert!(is_url_word_x(b"%\0", b"%25 "));
    assert!(is_url_word_x(b"\0", b"?x"));
    // a mismatch is found before the end of an unterminated word
    assert!(!is_url_word_x(b"xy", b"z\0"));
}

#[test]
fn url_word_percent_encoded_from_byte_html() {
    let word = b"Hello, w\xc3\xb6rld";
    let mut inp = vec![];
    for &b in word {
        inp.push(b'%');
        byte_to_html(b, &mut inp);
    }
    inp.push(b'?');
    let mut buf = word.to_vec();
    buf.push(0);
    assert!(is_url_word_x(&buf, &inp));
}

#[test]
fn cmd_args_from_slice_and_back() {
    let a = CmdArgs::from_slice(&[1, 2, 3]).unwrap();
    assert_eq!(a.as_slice(), &[1, 2, 3]);
    let full: Vec<u8> = (0..16).collect();
    assert_eq!(CmdArgs::from_slice(&full).unwrap().as_slice(), &full[..]);
    let too_many: Vec<u8> = (0..17).collect();
    assert!(CmdArgs::from_slice(&too_many).is_none());
    assert!(CmdArgs::from_slice(&[0; 300]).is_none());
    assert_eq!(CmdArgs::default().as_slice(), &[] as &[u8]);
}

#[test]
fn tokenize_then_compare_each_word() {
    let mut buf = [0u8; 128];
    let line = b"  set  port 12 on\0";
    buf[..line.len()].copy_from_slice(line);
    let mut args = CmdArgs::default();
    let mut err = ERR::CmdTooLong;
    assert_eq!(cmd_tokenize(&buf, &mut args, &mut err), 0);
    assert_eq!(err, ERR::NoError);
    assert_eq!(args.as_slice(), &[2, 7, 12, 15]);
    let words: [&[u8]; 4] = [b"set\0", b"port\0", b"12\0", b"on\0"];
    for (i, w) in words.iter().enumerate() {
        assert_eq!(cmd_compare(i as u8, w, &buf, &args), 1);
    }
    assert_eq!(cmd_compare(0, b"se\0", &buf, &args), 0);
    assert_eq!(cmd_compare(3, b"onx\0", &buf, &args), 0);
    assert_eq!(cmd_compare(4, b"on\0", &buf, &args), 0);
}

#[test]
fn tokenize_errors() {
    let mut buf = [b'x'; 128];
    let mut args = CmdArgs::from_slice(&[5]).unwrap();
    let mut err = ERR::NoError;
    assert_eq!(cmd_tokenize(&buf, &mut args, &mut err), 1);
    assert_eq!(err, ERR::CmdTooLong);
    assert_eq!(args.as_slice(), &[] as &[u8]);
    buf[127] = 0;
    assert_eq!(cmd_tokenize(&buf, &mut args, &mut err), 0);
    assert_eq!(err, ERR::NoError);
    assert_eq!(args.as_slice(), &[0]);
    let line = b"a b c d e f g h i j k l m n o p\0";
    buf[..line.len()].copy_from_slice(line);
    assert_eq!(cmd_tokenize(&buf, &mut args, &mut err), 1);
    assert_eq!(err, ERR::TooManyArgs);
    assert_eq!(args.as_slice(), &[] as &[u8]);
}

#[test]
fn execute_config_cases() {
    assert_eq!(execute_config(&[b'a'; 255]), ERR::NoError);
    assert_eq!(execute_config(&[b'a'; 256]), ERR::CmdTooLong);
    let mut buf = [b'a'; 300];
    buf[126] = 0;
    assert_eq!(execute_config(&buf), ERR::NoError);
    let mut buf = [b'\n'; 256];
    assert_eq!(execute_config(&buf), ERR::CmdTooLong);
    buf[0] = 0;
    assert_eq!(execute_config(&buf), ERR::NoError);
}

#[test]
fn flash_find_mark_cases() {
    let zeros = [0u8; 256];
    let mut f = Flash::new(&zeros, 0);
    assert_eq!(flash_find_mark(&mut f, b"#{\0", 256), 0xffff);

    let mut f = Flash::new(b"14309231j#{asdasdadads", 0);
    assert_eq!(flash_find_mark(&mut f, b"#{\0", 22), 11);

    let mut f = Flash::new(b"#{asdasdadads14309231j", 0);
    assert_eq!(flash_find_mark(&mut f, b"#{\0", 22), 2);

    let mut f = Flash::new(b"a#{asdasdadads14309231j", 0);
    assert_eq!(flash_find_mark(&mut f, b"#{\0", 22), 3);

    let mut f = Flash::new(b"#{asdasdadads14309231j", 0);
    assert_eq!(flash_find_mark(&mut f, b"#{a\0", 22), 3);

    let mut f = Flash::new(b"asdasdadads1430923#{aaaa", 0);
    assert_eq!(flash_find_mark(&mut f, b"#{a\0", 24), 21);

    let long = b"asdasdadads14309aaaaaaaaaaaaaaaaaaaaaaaaaasdsadsad3e3ddfadasdaedsdf3rwafef21fwgfwa23#{aaaa";
    let mut f = Flash::new(long, 0);
    assert_eq!(flash_find_mark(&mut f, b"#{a\0", 90), 87);

    let zeros = [0u8; 0x1000];
    let mut f = Flash::new(&zeros, 0);
    assert_eq!(flash_find_mark(&mut f, b"#{a\0", 90), 0xffff);
}

#[test]
fn flash_find_mark_continues_from_the_read_address() {
    let text = b"ip 192.1\ngw 123018391\ngw 123018391\n";
    let mut f = Flash::new(text, 0);
    assert_eq!(flash_find_mark(&mut f, b"\n\0", 24), 9);
    // the second search starts just past the first mark, at byte 9
    assert_eq!(flash_find_mark(&mut f, b"\n\0", 24), 13);
    // the first search finds the mark again from the start
    let mut f = Flash::new(text, 0);
    assert_eq!(flash_find_mark(&mut f, b"gw\0", 24), 11);
    assert_eq!(flash_find_mark(&mut f, b"gw\0", 24), 13);
    // with no match the address moves past every word read
    let mut f = Flash::new(text, 0);
    assert_eq!(flash_find_mark(&mut f, b"zz\0", 8), 0xffff);
    assert_eq!(flash_find_mark(&mut f, b"gw\0", 12), 3);
}

#[test]
fn flash_find_mark_edges() {
    // an empty mark matches at once
    let mut f = Flash::new(b"abcd", 0);
    assert_eq!(flash_find_mark(&mut f, b"\0", 4), 0);
    // the position of a match that ends on a word boundary is computed as
    // the start of the word in which it ends
    let mut f = Flash::new(b"abcdabcdabcd", 0);
    assert_eq!(flash_find_mark(&mut f, b"bcda\0", 12), 5);
    let mut f = Flash::new(b"abcdefgh", 0);
    assert_eq!(flash_find_mark(&mut f, b"efgh\0", 8), 4);
    // a failed attempt inside one 16-byte block steps back
    let mut f = Flash::new(b"xxxxxxxxxxxxxx#a#{zzzzzzzz", 0);
    assert_eq!(flash_find_mark(&mut f, b"#{\0", 26), 18);
    // a mark of twelve bytes or more is refused without reading
    let mut f = Flash::new(b"", 0);
    assert_eq!(flash_find_mark(&mut f, b"abcdefghijkl\0", 4), 0xffff);
    // bytes past `len` in the last word read as zero
    let mut f = Flash::new(b"abcd", 0);
    assert_eq!(flash_find_mark(&mut f, b"ab\0", 0), 0xffff);
    let mut f = Flash::new(b"abcd", 0);
    assert_eq!(flash_find_mark(&mut f, b"ab\0", 1), 2);
}

#[test]
fn gpio_pin_reports_its_own_bit() {
    for pin in 0u8..64 {
        assert_eq!(gpio_pin_test(pin, 1u64 << pin), 0x80);
        assert_eq!(gpio_pin_test(pin, !(1u64 << pin)), 0);
    }
}

#[test]
fn sfr_html_is_the_hex_of_the_value() {
    for v in [0u32, 1, 0xf, 0x10, 0xabc, 0x1000_0000, 0x0102_0304, u32::MAX, 0x8000_0001] {
        let mut out = vec![];
        sfr_data_to_html(v.to_be_bytes(), &mut out);
        assert_eq!(out, format!("{:x}", v).into_bytes());
    }
}

#[test]
fn atoi_hex_gives_the_big_endian_value() {
    for v in [0u32, 0x5, 0xab, 0xabc, 0x1234, 0x12345, 0xdead_beef, 0x0fff_ffff] {
        let text = format!("{:X} ", v);
        let digits = text.len() - 1;
        let mut hv = [0x55; 4];
        let r = atoi_hex(0, text.as_bytes(), &mut hv);
        assert_eq!(r, (digits + 1) / 2);
        assert_eq!(&hv[..r], &v.to_be_bytes()[4 - r..]);
    }
}
