use minilsof::engine::is_pid_name;
use minilsof::filesync::{Error, LsofSync};
use minilsof::{Fdinfo, LsofData, ProcEntry, Snapshot, SocketTables};

const HEADER: &str = "  sl  local_address rem_address   st tx_queue rx_queue tr tm->when retrnsmt   uid  timeout inode\n";

fn entry(name: &str, status: &str, maps: &str, links: &[&str]) -> ProcEntry {
    ProcEntry {
        name: name.to_string(),
        status: status.to_string(),
        maps: maps.to_string(),
        links: links.iter().map(|l| l.to_string()).collect(),
    }
}

fn row(slot: u32, local: &str, inode: &str) -> String {
    format!(
        "{:4}: {} 00000000:0000 0A 00000000:00000000 00:00000000 00000000     0        0 {} 1 0000000000000000 100 0 0 10 0\n",
        slot, local, inode
    )
}

fn processes() -> Vec<ProcEntry> {
    vec![
        entry(
            "1",
            "Name:\tinit\nUmask:\t0022\nState:\tS (sleeping)\n",
            "55d0-55d1 r--p 00000000 08:01 123   /sbin/init\n7f00-7f01 rw-p 00000000 00:00 0\n7ffd-7ffe rw-p 00000000 00:00 0    [stack]\n",
            &["/dev/null", "socket:[1234]", "/dev/null"],
        ),
        entry("self", "Name:\tnobody\n", "", &["/etc/passwd"]),
        entry("net", "", "", &[]),
        entry(
            "42",
            "Name:   sshd  \nno colon here\n",
            "7f10-7f11 r--p 00000000 08:01 77 /usr/lib/libc.so\n",
            &["socket:[5678]", "/etc/passwd", "socket:[4321]"],
        ),
        entry("7", "", "", &["/etc/passwd", "pipe:[5]"]),
    ]
}

fn tables() -> SocketTables {
    SocketTables {
        tcp: Some(format!(
            "{}{}{}{}",
            HEADER,
            row(0, "00000000:0050", "1234"),
            row(1, "0100007F:01BB", "5678"),
            "   2: broken line\n"
        )),
        tcp6: Some(format!(
            "{}{}",
            HEADER,
            row(0, "00000000000000000000000000000000:01BB", "4321")
        )),
        udp: Some(format!("{}{}", HEADER, row(0, "00000000:0035", "9000"))),
        udp6: None,
    }
}

fn snapshot() -> Snapshot {
    Snapshot { procs: Some(processes()), sockets: tables() }
}

fn no_root() -> Snapshot {
    Snapshot { procs: None, sockets: tables() }
}

fn pids(list: &[Fdinfo]) -> Vec<String> {
    let mut v: Vec<String> = list.iter().map(|i| i.pid.clone()).collect();
    v.sort();
    v
}

fn links(info: &Fdinfo) -> Vec<String> {
    let mut v = info.link.clone();
    v.sort();
    v
}

fn find<'a>(list: &'a [Fdinfo], pid: &str) -> &'a Fdinfo {
    list.iter().find(|i| i.pid == pid).unwrap()
}

#[test]
fn test_lsall() {
    let mut d = LsofData::new();
    let result = d.file_ls(&snapshot());
    assert_ne!(result, None);
}

#[test]
fn test_target_file() {
    let filepath = "/etc/passwd".to_string();
    let mut d = LsofData::new();
    let result = d.target_file_ls(filepath, true, &snapshot());
    assert!(result.is_some() || result.is_none());
}

#[test]
fn test_port() {
    let mut d = LsofData::new();
    let result = d.port_ls("80".to_string(), &snapshot());
    assert!(result.is_some() || result.is_none());
}

#[test]
fn test_sync_file_ls() {
    let mut lsof = LsofSync::new();
    let result = lsof.file_ls(&snapshot());
    assert!(result.is_ok());
}

#[test]
fn test_sync_target_file() {
    let mut lsof = LsofSync::new();
    let result = lsof.target_file_ls("/etc/passwd", true, &snapshot());
    if let Ok(processes) = &result {
        println!("Found {} processes using /etc/passwd", processes.len());
    }
}

#[test]
fn list_all_keeps_numeric_entries_once() {
    let mut d = LsofData::new();
    let list = d.file_ls(&snapshot()).unwrap();
    assert_eq!(pids(&list), vec!["1", "42", "7"]);
    for info in &list {
        assert!(info.pid.parse::<u64>().is_ok());
        assert_eq!(list.iter().filter(|o| o.pid == info.pid).count(), 1);
    }
}

#[test]
fn list_all_reads_names_maps_and_links() {
    let mut d = LsofData::new();
    let list = d.file_ls(&snapshot()).unwrap();
    let init = find(&list, "1");
    assert_eq!(init.name, Some("init".to_string()));
    assert_eq!(links(init), vec!["/dev/null", "/sbin/init", "[stack]", "socket:[1234]"]);
    let sshd = find(&list, "42");
    assert_eq!(sshd.name, Some("sshd".to_string()));
    assert_eq!(
        links(sshd),
        vec!["/etc/passwd", "/usr/lib/libc.so", "socket:[4321]", "socket:[5678]"]
    );
    let bare = find(&list, "7");
    assert_eq!(bare.name, None);
    assert_eq!(links(bare), vec!["/etc/passwd", "pipe:[5]"]);
}

#[test]
fn list_all_fails_without_root() {
    let mut d = LsofData::new();
    assert_eq!(d.file_ls(&no_root()), None);
    let mut s = LsofSync::new();
    assert_eq!(s.file_ls(&no_root()), Err(Error::EnumerationFailed));
}

#[test]
fn list_all_twice_gives_the_same_index() {
    let mut d = LsofData::new();
    let snap = snapshot();
    let first = d.file_ls(&snap).unwrap();
    let second = d.file_ls(&snap).unwrap();
    assert_eq!(first, second);
    assert_eq!(pids(&first), pids(&second));
}

#[test]
fn list_all_forgets_the_previous_scan() {
    let mut d = LsofData::new();
    d.file_ls(&snapshot()).unwrap();
    let small = Snapshot { procs: Some(vec![entry("9", "", "", &[])]), sockets: tables() };
    let list = d.file_ls(&small).unwrap();
    assert_eq!(pids(&list), vec!["9"]);
}

#[test]
fn later_entry_replaces_earlier_of_same_name() {
    let mut d = LsofData::new();
    let snap = Snapshot {
        procs: Some(vec![
            entry("5", "Name: a\n", "", &["/x"]),
            entry("6", "Name: b\n", "", &[]),
            entry("5", "Name: c\n", "", &["/y"]),
        ]),
        sockets: tables(),
    };
    let list = d.file_ls(&snap).unwrap();
    assert_eq!(list.len(), 2);
    assert_eq!(find(&list, "5").name, Some("c".to_string()));
    assert_eq!(find(&list, "5").link, vec!["/y".to_string()]);
}

#[test]
fn find_by_file_missing_path_is_not_found() {
    let mut d = LsofData::new();
    assert_eq!(d.target_file_ls("/no/such".to_string(), false, &snapshot()), None);
    let mut s = LsofSync::new();
    assert_eq!(s.target_file_ls("/no/such", false, &snapshot()), Err(Error::NotFound));
    assert_eq!(s.target_file_ls("/no/such", false, &no_root()), Err(Error::NotFound));
}

#[test]
fn find_by_file_lists_holders() {
    let mut d = LsofData::new();
    let list = d.target_file_ls("/etc/passwd".to_string(), true, &snapshot()).unwrap();
    assert_eq!(pids(&list), vec!["42", "7"]);
    assert_eq!(find(&list, "42").name, Some("sshd".to_string()));
    let mut s = LsofSync::new();
    let list = s.target_file_ls("/etc/passwd", true, &snapshot()).unwrap();
    assert_eq!(pids(&list), vec!["42", "7"]);
}

#[test]
fn find_by_file_sees_mappings() {
    let mut d = LsofData::new();
    let list = d.target_file_ls("/sbin/init".to_string(), true, &snapshot()).unwrap();
    assert_eq!(pids(&list), vec!["1"]);
}

#[test]
fn find_by_file_without_holder_is_not_found() {
    let mut d = LsofData::new();
    assert_eq!(d.target_file_ls("/etc/hosts".to_string(), true, &snapshot()), None);
    let mut s = LsofSync::new();
    assert_eq!(s.target_file_ls("/etc/hosts", true, &snapshot()), Err(Error::NotFound));
    assert_eq!(s.target_file_ls("", true, &snapshot()), Err(Error::NotFound));
}

#[test]
fn find_by_file_fails_without_root() {
    let mut d = LsofData::new();
    assert_eq!(d.target_file_ls("/etc/passwd".to_string(), true, &no_root()), None);
    let mut s = LsofSync::new();
    assert_eq!(s.target_file_ls("/etc/passwd", true, &no_root()), Err(Error::EnumerationFailed));
}

#[test]
fn find_by_port_lists_the_holder() {
    let mut d = LsofData::new();
    let list = d.port_ls("80".to_string(), &snapshot()).unwrap();
    assert_eq!(pids(&list), vec!["1"]);
    assert_eq!(find(&list, "1").name, Some("init".to_string()));
    assert_eq!(links(find(&list, "1")), vec!["/dev/null", "socket:[1234]"]);
}

#[test]
fn find_by_port_reports_a_process_once() {
    let mut d = LsofData::new();
    let list = d.port_ls("443".to_string(), &snapshot()).unwrap();
    assert_eq!(pids(&list), vec!["42"]);
    let mut s = LsofSync::new();
    let list = s.port_ls("443", &snapshot()).unwrap();
    assert_eq!(list.len(), 1);
    assert_eq!(list[0].pid, "42");
}

#[test]
fn find_by_port_unbound_is_not_found() {
    let mut d = LsofData::new();
    assert_eq!(d.port_ls("8080".to_string(), &snapshot()), None);
    let mut s = LsofSync::new();
    assert_eq!(s.port_ls("8080", &snapshot()), Err(Error::NotFound));
    assert_eq!(s.port_ls("080", &snapshot()), Err(Error::NotFound));
    assert_eq!(s.port_ls("8080", &no_root()), Err(Error::NotFound));
}

#[test]
fn find_by_port_without_holder_is_not_found() {
    let mut d = LsofData::new();
    assert_eq!(d.port_ls("53".to_string(), &snapshot()), None);
    let mut s = LsofSync::new();
    assert_eq!(s.port_ls("53", &snapshot()), Err(Error::NotFound));
}

#[test]
fn find_by_port_fails_without_tables_or_root() {
    let none = SocketTables { tcp: None, tcp6: None, udp: None, udp6: None };
    let snap = Snapshot { procs: Some(processes()), sockets: none };
    let mut s = LsofSync::new();
    assert_eq!(s.port_ls("80", &snap), Err(Error::EnumerationFailed));
    assert_eq!(s.port_ls("80", &no_root()), Err(Error::EnumerationFailed));
    let mut d = LsofData::new();
    assert_eq!(d.port_ls("80".to_string(), &snap), None);
    assert_eq!(d.port_ls("80".to_string(), &no_root()), None);
}

#[test]
fn process_names_are_unsigned_decimals() {
    assert!(is_pid_name("0"));
    assert!(is_pid_name("1234"));
    assert!(is_pid_name("007"));
    assert!(is_pid_name("+5"));
    assert!(is_pid_name("18446744073709551615"));
    assert!(!is_pid_name("18446744073709551616"));
    assert!(!is_pid_name(""));
    assert!(!is_pid_name("+"));
    assert!(!is_pid_name("-1"));
    assert!(!is_pid_name("self"));
    assert!(!is_pid_name("12a"));
    assert!(!is_pid_name("1 "));
}

#[test]
fn records_start_empty_and_copy_whole() {
    let fresh = Fdinfo::new("12".to_string());
    assert_eq!(fresh.pid, "12");
    assert_eq!(fresh.name, None);
    assert!(fresh.link.is_empty());
    let blank = Fdinfo::default();
    assert_eq!(blank.pid, "");
    assert_eq!(blank.name, None);
    assert!(blank.link.is_empty());
    let full = Fdinfo {
        pid: "3".to_string(),
        name: Some("cat".to_string()),
        link: vec!["/a".to_string(), "/b".to_string()],
    };
    let copy = full.clone();
    assert_eq!(copy, full);
    assert_eq!(copy.link, vec!["/a".to_string(), "/b".to_string()]);
}

#[test]
fn fresh_engines_answer_alike() {
    let snap = snapshot();
    let mut a = LsofData::new();
    let mut b = LsofData::default();
    assert_eq!(a.file_ls(&snap), b.file_ls(&snap));
    let mut s = LsofSync::default();
    assert_eq!(s.file_ls(&snap).ok(), a.file_ls(&snap));
}

#[test]
fn queries_do_not_leak_into_each_other() {
    let snap = snapshot();
    let mut d = LsofData::new();
    let by_port = d.port_ls("80".to_string(), &snap).unwrap();
    assert_eq!(pids(&by_port), vec!["1"]);
    let by_file = d.target_file_ls("/etc/passwd".to_string(), true, &snap).unwrap();
    assert_eq!(pids(&by_file), vec!["42", "7"]);
    let all = d.file_ls(&snap).unwrap();
    assert_eq!(pids(&all), vec!["1", "42", "7"]);
    let again = d.port_ls("80".to_string(), &snap).unwrap();
    assert_eq!(again, by_port);
}
