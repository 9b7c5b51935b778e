use switch_fw::{
    atoi_hex, byte_to_html, gpio_pin_test, cmd_compare, cmd_tokenize, execute_config, isletter, itoa_html,
    itohex, parse_i16, parse_short, port, sfr_data_to_html, is_url_word_x, CmdArgs, ERR,
    CMD_BUF_SIZE,
};

#[test]
fn test_config_read() {
    let mut cmd_buffer = [0; 512];
    assert_eq!(execute_config(&cmd_buffer), ERR::NoError);

    for idx in &mut cmd_buffer[0..126] {
        *idx = b'b';
    }
    assert_eq!(execute_config(&cmd_buffer), ERR::NoError);

    for idx in &mut cmd_buffer[0..127] {
        *idx = b'b';
    }
    assert_eq!(execute_config(&cmd_buffer), ERR::CmdTooLong);

    const BAD_CONFIG: &[u8] = b"ip 192.168.10.247
gw 192.168.10.1
netmask 255.255.255.0
aaaaaaaaaaaaaaaaaaaaaaaaaaaaaaaaaaaaaaaaaaaaaaaaaaaaaaaaaaaaaaaaaaaaaaaaaaaaaaaaaaaaaaaaaaaaaaaaaaaaaaaaaaaaaaaaaaaaaaaaaaaaaaaaa
eee status\0";
    cmd_buffer[0..BAD_CONFIG.len()]
        .copy_from_slice(BAD_CONFIG);
    assert_eq!(execute_config(&cmd_buffer), ERR::CmdTooLong);
}

#[test]
fn cmd_compare_test() {
    let mut cmd_buffer = [0; CMD_BUF_SIZE as usize];
    let mut word_buf = CmdArgs::default();

    // Empty buffer
    assert_eq!(cmd_compare(0, b"test\0", &cmd_buffer, &word_buf), 0);
    assert_eq!(cmd_compare(255, b"fake\0", &cmd_buffer, &word_buf), 0);

    const GOOD_CONFIG_1: &[u8] = b"ip 192.168.10.247\0";
    cmd_buffer[0..GOOD_CONFIG_1.len()]
        .copy_from_slice(GOOD_CONFIG_1);

    word_buf = CmdArgs::from_slice(&[0, 3]).unwrap();
    assert_eq!(cmd_compare(0, b"ip\0", &cmd_buffer, &word_buf), 1);
    assert_eq!(cmd_compare(1, b"192.168.10.247\0", &cmd_buffer, &word_buf), 1);
    assert_eq!(cmd_compare(1, b"192.168.10.24\0", &cmd_buffer, &word_buf), 0);
    assert_eq!(cmd_compare(2, b"fake\0", &cmd_buffer, &word_buf), 0);

    const GOOD_CONFIG_2: &[u8] = b"long gggggggggggggggggggggggggggggggggggggggggggggggggggggggggggggggggggggggggggggggggggggggggggggggggggggggggggggggggggg test\0";
    cmd_buffer[0..GOOD_CONFIG_2.len()]
        .copy_from_slice(GOOD_CONFIG_2);

    assert_eq!(GOOD_CONFIG_2.len(), 127);

    word_buf = CmdArgs::from_slice(&[0, 5, 122]).unwrap();
    assert_eq!(cmd_compare(0, b"long\0", &cmd_buffer, &word_buf), 1);
    assert_eq!(cmd_compare(2, b"test\0", &cmd_buffer, &word_buf), 1);
    assert_eq!(cmd_compare(2, b"test long\0", &cmd_buffer, &word_buf), 0);

    const GOOD_CONFIG_3: &[u8] = b"long ggggggggggggggggggggggggggggggggggggggggggggggggggggggggggggggggggggggggggggggggggggggggggggggggggggggggggggggggggggg test\0";
    cmd_buffer[0..GOOD_CONFIG_3.len()]
        .copy_from_slice(GOOD_CONFIG_3);

    assert_eq!(GOOD_CONFIG_3.len(), 128);

    word_buf = CmdArgs::from_slice(&[0, 5, 123]).unwrap();
    assert_eq!(cmd_compare(0, b"long\0", &cmd_buffer, &word_buf), 1);
    assert_eq!(cmd_compare(2, b"test\0", &cmd_buffer, &word_buf), 1);
    assert_eq!(cmd_compare(2, b"test long\0", &cmd_buffer, &word_buf), 0);
}

#[test]
fn cmd_tokenize_test() {
    let mut cmd_buffer = [0; CMD_BUF_SIZE as usize];
    let mut word_buf = CmdArgs::default();
    let mut err_status: ERR = ERR::NoError;

    // Empty buffer
    assert_eq!(cmd_tokenize(&cmd_buffer, &mut word_buf, &mut err_status), 0);
    assert_eq!(err_status, ERR::NoError);
    assert_eq!(word_buf.as_slice(), &[]);

    // Corrupted, only spaces
    cmd_buffer.iter_mut().for_each(|val| *val = b' ');
    assert_eq!(cmd_tokenize(&cmd_buffer, &mut word_buf, &mut err_status), 1);
    assert_eq!(err_status, ERR::CmdTooLong);
    assert_eq!(word_buf.as_slice(), &[]);

    // Valid command
    const GOOD_CONFIG_1: &[u8] = b"ip 192.168.10.247\0";
    cmd_buffer[0..GOOD_CONFIG_1.len()]
        .copy_from_slice(GOOD_CONFIG_1);

    assert_eq!(cmd_tokenize(&cmd_buffer, &mut word_buf, &mut err_status), 0);
    assert_eq!(err_status, ERR::NoError);
    assert_eq!(word_buf.as_slice(), &[0, 3]);

    // Valid command
    const GOOD_CONFIG_2: &[u8] = b"vlan 1 2t\0";
    cmd_buffer[0..GOOD_CONFIG_2.len()]
        .copy_from_slice(GOOD_CONFIG_2);

    assert_eq!(cmd_tokenize(&cmd_buffer, &mut word_buf, &mut err_status), 0);
    assert_eq!(err_status, ERR::NoError);
    assert_eq!(word_buf.as_slice(), &[0, 5, 7]);

    // Valid command
    const GOOD_CONFIG_3: &[u8] = b"port\0";
    cmd_buffer[0..GOOD_CONFIG_3.len()]
        .copy_from_slice(GOOD_CONFIG_3);

    assert_eq!(cmd_tokenize(&cmd_buffer, &mut word_buf, &mut err_status), 0);
    assert_eq!(err_status, ERR::NoError);
    assert_eq!(word_buf.as_slice(), &[0]);

    // Valid Max size
    const GOOD_CONFIG_4: &[u8] = b"long ggggggggggggggggggggggggggggggggggggggggggggggggggggggggggggggggggggggggggggggggggggggggggggggggggggggggggggggggggggg test\0";
    cmd_buffer[0..GOOD_CONFIG_4.len()]
        .copy_from_slice(GOOD_CONFIG_4);
    assert_eq!(cmd_tokenize(&cmd_buffer, &mut word_buf, &mut err_status), 0);
    assert_eq!(err_status, ERR::NoError);
    assert_eq!(word_buf.as_slice(), &[0, 5, 123]);

    // Too Many Words
    const BAD_CONFIG_5: &[u8] = b"1 2 3 4 5 6 7 8 9 0 1 2 3 4 5 6 7\0";
    cmd_buffer[0..BAD_CONFIG_5.len()]
        .copy_from_slice(BAD_CONFIG_5);
    assert_eq!(cmd_tokenize(&cmd_buffer, &mut word_buf, &mut err_status), 1);
    assert_eq!(err_status, ERR::TooManyArgs);
    assert_eq!(word_buf.as_slice(), &[]);

    // Valid Max Words
    const GOOD_CONFIG_6: &[u8] = b"1 2 3 4 5 6 7 8 9 0 1 2 3 4 5\0";
    cmd_buffer[0..GOOD_CONFIG_6.len()]
        .copy_from_slice(GOOD_CONFIG_6);
    assert_eq!(cmd_tokenize(&cmd_buffer, &mut word_buf, &mut err_status), 0);
    assert_eq!(err_status, ERR::NoError);
    assert_eq!(
        word_buf.as_slice(),
        &[0, 2, 4, 6, 8, 10, 12, 14, 16, 18, 20, 22, 24, 26, 28]
    );
}

#[test]
fn parser_i16_test() {
    assert_eq!(parse_i16(0x7FFF), 0x7FFF);
    assert_eq!(parse_i16((-1_i16) as u16), -1);
    assert_eq!(parse_i16(0x8000), i16::MIN);
}

#[test]
fn isletter_test() {
    assert!(isletter(b'a'));
    assert!(isletter(b'A'));
    assert!(isletter(b'Z'));
    assert!(isletter(b'z'));

    assert!(!isletter(b'0'));
    assert!(!isletter(b'?'));
    assert!(!isletter(b'.'));
}

#[test]
fn to_hex() {
    assert_eq!(itohex(0), b'0');
    assert_eq!(itohex(1), b'1');
    assert_eq!(itohex(9), b'9');
    assert_eq!(itohex(10), b'a');
    assert_eq!(itohex(15), b'f');
    assert_eq!(itohex(16), b'0');
}

#[test]
fn atio_hex_test() {
    let mut hex_value = [0; 4];
    assert_eq!(atoi_hex(0, b"1\0", &mut hex_value), 1);
    assert_eq!(hex_value[0], 1);

    assert_eq!(atoi_hex(0, b"12\0", &mut hex_value), 1);
    assert_eq!(hex_value[0], 0x12);

    assert_eq!(atoi_hex(0, b"FF\0", &mut hex_value), 1);
    assert_eq!(hex_value[0], 0xFF);

    assert_eq!(atoi_hex(1, b"FF\0", &mut hex_value), 1);
    assert_eq!(hex_value[0], 0xF);

    assert_eq!(atoi_hex(0, b"AeFba3\0", &mut hex_value), 3);
    assert_eq!(hex_value[0], 0xAE);
    assert_eq!(hex_value[1], 0xFB);
    assert_eq!(hex_value[2], 0xA3);

    assert_eq!(atoi_hex(1, b"AeFba3\0", &mut hex_value), 3);
    assert_eq!(hex_value[0], 0x0e);
    assert_eq!(hex_value[1], 0xfb);
    assert_eq!(hex_value[2], 0xA3);

    assert_eq!(atoi_hex(0, b"AABBC\0", &mut hex_value), 3);
    assert_eq!(hex_value[0], 0x0A);
    assert_eq!(hex_value[1], 0xAB);
    assert_eq!(hex_value[2], 0xBC);
    assert_eq!(hex_value[3], 0x0);

    assert_eq!(atoi_hex(1, b"AqeFba\0", &mut hex_value), 0);
}

#[test]
fn hextohtml_test() {
    let mut out = vec![];

    out.clear();
    byte_to_html(0, &mut out);
    assert_eq!(&out, b"00");

    out.clear();
    byte_to_html(1, &mut out);
    assert_eq!(&out, b"01");

    out.clear();
    byte_to_html(10, &mut out);
    assert_eq!(&out, b"0a");

    out.clear();
    byte_to_html(99, &mut out);
    assert_eq!(&out, b"63");

    out.clear();
    byte_to_html(100, &mut out);
    assert_eq!(&out, b"64");

    out.clear();
    byte_to_html(255, &mut out);
    assert_eq!(&out, b"ff");
}

#[test]
fn itohtml_test() {
    let mut out = vec![];

    out.clear();
    itoa_html(0, &mut out);
    assert_eq!(&out, b"0");

    out.clear();
    itoa_html(1, &mut out);
    assert_eq!(&out, b"1");

    out.clear();
    itoa_html(10, &mut out);
    assert_eq!(&out, b"10");

    out.clear();
    itoa_html(100, &mut out);
    assert_eq!(&out, b"100");

    out.clear();
    itoa_html(255, &mut out);
    assert_eq!(&out, b"255");
}

#[test]
fn sfr_print_test() {
    let mut out = vec![];

    out.clear();
    sfr_data_to_html(0_u32.to_be_bytes(), &mut out);
    assert_eq!(&out, b"0");

    out.clear();
    sfr_data_to_html([0x12, 0xAA, 0xBB, 0x78], &mut out);
    assert_eq!(&out, b"12aabb78");

    out.clear();
    sfr_data_to_html([0x02, 0xAA, 0xBB, 0x78], &mut out);
    assert_eq!(&out, b"2aabb78");

    out.clear();
    sfr_data_to_html(0xF_u32.to_be_bytes(), &mut out);
    assert_eq!(&out, b"f");

    out.clear();
    sfr_data_to_html(0x12_u32.to_be_bytes(), &mut out);
    assert_eq!(&out, b"12");

    out.clear();
    sfr_data_to_html(0x123_u32.to_be_bytes(), &mut out);
    assert_eq!(&out, b"123");

    out.clear();
    sfr_data_to_html(0x12345678_u32.to_be_bytes(), &mut out);
    assert_eq!(&out, b"12345678");

    out.clear();
    sfr_data_to_html(u32::MAX.to_be_bytes(), &mut out);
    assert_eq!(&out, b"ffffffff");
}

#[test]
fn short_test() {
    let mut data = 0;
    assert!(!parse_short(b"112", &mut data));
    assert_eq!(data, 112);

    assert!(parse_short(b"", &mut data));
    assert_eq!(data, 0);

    assert!(!parse_short(b"12345", &mut data));
    assert_eq!(data, 12345);

    assert!(!parse_short(b"123a45", &mut data));
    assert_eq!(data, 123);
}

#[test]
fn port_test() {
    for port_num in 0_u8..16 {
        let data: [u8; 2] = [
            (port_num & 0x3).rotate_right(2) | 0x3f,
            ((port_num >> 2) & 0x3) | 0xFC,
        ];
        println!("port: {port_num}, data: {data:02x?}");
        assert_eq!(port(data), port_num);
    }
}

#[test]
fn is_url_word_test() {
    assert!(is_url_word_x(
        b"test\0",
        b"test\0"
    ));

    assert!(is_url_word_x(
        b"test!\0",
        b"test%21\0"
    ));

    assert!(is_url_word_x(
        b"test0\0",
        b"test%30\0"
    ));

    assert!(is_url_word_x(
        b"testJ\0",
        b"test%4A\0"
    ));

    assert!(is_url_word_x(
        b"testj\0",
        b"test%6A\0"
    ));

    assert!(is_url_word_x(
        b"test\xc3\xa9\0",
        b"test%C3%A9\0"
    ));

    assert!(is_url_word_x(
        b"test\xc3\xa9\0",
        b"test%c3%a9\0"
    ));

    assert!(!is_url_word_x(
        b"teste\0",
        b"test%C\0"
    ));

    assert!(!is_url_word_x(
        b"teste\0",
        b"test%zz\0"
    ));

    assert!(is_url_word_x(
        b"teste\0",
        b"teste?\0"
    ));
}

#[test]
fn gpio_read_test() {
    let data: u64 = 1 << 30;
    assert_eq!(gpio_pin_test(30, data), 0x80);
}
