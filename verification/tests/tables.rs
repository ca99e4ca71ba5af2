use minilsof::tables::decode_hex_port;
use minilsof::text::{chars_of, decimal_chars, split_fields, split_lines, trim_string};
use minilsof::{GetFileInfo, LsofData, SocketTables};

fn strings(v: Vec<Vec<char>>) -> Vec<String> {
    v.into_iter().map(|l| l.into_iter().collect()).collect()
}

#[test]
fn hex_ports_decode() {
    assert_eq!(decode_hex_port("0050"), Some(80));
    assert_eq!(decode_hex_port("01BB"), Some(443));
    assert_eq!(decode_hex_port("01bb"), Some(443));
    assert_eq!(decode_hex_port("0"), Some(0));
    assert_eq!(decode_hex_port("FFFF"), Some(65535));
    assert_eq!(decode_hex_port("0000FFFF"), Some(65535));
    assert_eq!(decode_hex_port("+1F"), Some(31));
}

#[test]
fn bad_hex_ports_are_rejected() {
    assert_eq!(decode_hex_port(""), None);
    assert_eq!(decode_hex_port("+"), None);
    assert_eq!(decode_hex_port("10000"), None);
    assert_eq!(decode_hex_port("00G0"), None);
    assert_eq!(decode_hex_port("-1"), None);
    assert_eq!(decode_hex_port(" 50"), None);
}

#[test]
fn hex_ports_agree_with_std() {
    for s in ["0050", "01BB", "ffff", "10000", "", "+", "+0", "abcd", "xyz", "12345"] {
        assert_eq!(decode_hex_port(s), u16::from_str_radix(s, 16).ok());
    }
}

#[test]
fn decimal_notation() {
    for n in [0u16, 7, 10, 80, 443, 9999, 10000, 65535] {
        let s: String = decimal_chars(n).into_iter().collect();
        assert_eq!(s, n.to_string());
    }
}

#[test]
fn lines_as_std_splits_them() {
    for text in ["", "a", "a\n", "a\nb", "a\r\nb\r\n", "\n", "\n\n", "a\rb\n", "x\r", "\r\n", "a\n\nb"] {
        let want: Vec<String> = text.lines().map(|l| l.to_string()).collect();
        assert_eq!(strings(split_lines(&chars_of(text))), want);
    }
}

#[test]
fn fields_as_std_splits_them() {
    for text in ["", "  ", "a", " a  b\tc ", "one\u{3000}two\u{a0}three", "x\u{2003}y", "tail "] {
        let want: Vec<String> = text.split_whitespace().map(|l| l.to_string()).collect();
        assert_eq!(strings(split_fields(&chars_of(text))), want);
    }
}

#[test]
fn trimming_as_std_does() {
    for text in ["", "   ", "a", "  a b  ", "\tName\u{a0}", "x ", " y"] {
        let v = chars_of(text);
        assert_eq!(trim_string(&v, 0, v.len()), text.trim());
    }
    let v = chars_of("ab  cd  ef");
    assert_eq!(trim_string(&v, 2, 8), "cd");
}

#[test]
fn socket_table_yields_targets_of_the_port() {
    let d = LsofData::new();
    let table = "header line with 0050 in it 00000000:0050 x x x x x x 1\n\
                 0: 00000000:0050 00000000:0000 0A 0:0 00:0 0 0 0 1234 1\n\
                 1: 0100007F:1F90 00000000:0000 0A 0:0 00:0 0 0 0 77 1\n\
                 2: 0100007F:0050 00000000:0000 0A 0:0 00:0 0 0 0 88\r\n\
                 3: 0100007F:0050 too short\n\
                 4: 0100007F0050 00000000:0000 0A 0:0 00:0 0 0 0 99 1\n\
                 5: 0100007F:zz50 00000000:0000 0A 0:0 00:0 0 0 0 99 1\n";
    assert_eq!(
        d.parse_socket_file(table, "80"),
        vec!["socket:[1234]".to_string(), "socket:[88]".to_string()]
    );
    assert_eq!(d.parse_socket_file(table, "8080"), vec!["socket:[77]".to_string()]);
    assert_eq!(d.parse_socket_file(table, "81"), Vec::<String>::new());
    assert_eq!(d.parse_socket_file(table, "0080"), Vec::<String>::new());
    assert_eq!(d.parse_socket_file("", "80"), Vec::<String>::new());
}

#[test]
fn header_line_is_never_a_match() {
    let d = LsofData::new();
    let table = "0: 00000000:0050 00000000:0000 0A 0:0 00:0 0 0 0 1234 1\n";
    assert_eq!(d.parse_socket_file(table, "80"), Vec::<String>::new());
}

#[test]
fn port_info_joins_the_four_tables() {
    let d = LsofData::new();
    let line = |inode: &str| {
        format!("h\n0: 00000000:0035 00000000:0000 0A 0:0 00:0 0 0 0 {} 1\n", inode)
    };
    let tables = SocketTables {
        tcp: Some(line("1")),
        tcp6: None,
        udp: Some(line("3")),
        udp6: Some(line("4")),
    };
    assert_eq!(
        d.get_port_info(&tables, "53"),
        Some(vec!["socket:[1]".to_string(), "socket:[3]".to_string(), "socket:[4]".to_string()])
    );
    assert_eq!(d.get_port_info(&tables, "54"), None);
}

#[test]
fn memory_map_yields_last_fields() {
    let d = LsofData::new();
    let maps = "55d0-55d1 r--p 00000000 08:01 123   /sbin/init\n\
                7f00-7f01 rw-p 00000000 00:00 0\n\
                \n\
                7ffd-7ffe rw-p 00000000 00:00 0    [stack]\n\
                7ffd-7ffe rw-p 00000000 00:00 0    /a path/with space\n";
    assert_eq!(
        d.get_mem_info(maps),
        vec!["/sbin/init".to_string(), "[stack]".to_string(), "space".to_string()]
    );
    assert_eq!(d.get_mem_info(""), Vec::<String>::new());
}

#[test]
fn status_text_yields_trimmed_pairs() {
    let d = LsofData::new();
    let status = "Name:\tcat\nno colon\n  Key with space :  a: b  \n:\nState:\tR (running)\n";
    assert_eq!(
        d.get_pid_info(status),
        vec![
            ("Name".to_string(), "cat".to_string()),
            ("Key with space".to_string(), "a: b".to_string()),
            ("".to_string(), "".to_string()),
            ("State".to_string(), "R (running)".to_string()),
        ]
    );
    assert_eq!(d.get_pid_info(""), Vec::<(String, String)>::new());
}
