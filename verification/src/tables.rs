//! Readers of the kernel's text tables: the protocol tables, a process's memory map and
//! its status text.
use vstd::prelude::*;
use crate::model::{opt_view, LsofData, SocketTables};
use crate::text::{
    append_chars, chars_of, decimal, decimal_chars, fields, find_char, find_last_char, hex_port,
    index_of, last_index_of, lemma_index_of_absent, lines, parse_unsigned, pick, same_chars,
    split_fields, split_lines,
    string_of, strs, trim_string, trimmed, views,
};

verus! {

/// The text that every synthetic socket target starts with.
pub open spec fn socket_prefix() -> Seq<char> {
    "socket:["@
}

/// The synthetic target `socket:[<inode>]`.
pub open spec fn socket_target(inode: Seq<char>) -> Seq<char> {
    (socket_prefix() + inode).push(']')
}

/// The port that a local address `address:port` names: the hexadecimal number after the
/// last colon.
pub open spec fn address_port(addr: Seq<char>) -> Option<nat> {
    let colon = last_index_of(addr, ':', addr.len() as int);
    if 0 <= colon < addr.len() {
        hex_port(addr.skip(colon + 1))
    } else {
        None
    }
}

/// The synthetic target of a protocol-table line, where the line has at least ten fields
/// and its local port, written in decimal, is `port`.
pub open spec fn line_target(line: Seq<char>, port: Seq<char>) -> Option<Seq<char>> {
    let parts = fields(line);
    if parts.len() < 10 {
        None
    } else {
        match address_port(parts[1]) {
            Some(n) => if decimal(n) == port {
                Some(socket_target(parts[9]))
            } else {
                None
            },
            None => None,
        }
    }
}

/// The synthetic targets of the given table lines for `port`, in line order.
pub open spec fn lines_targets(ls: Seq<Seq<char>>, port: Seq<char>) -> Seq<Seq<char>> {
    pick(ls, |l: Seq<char>| line_target(l, port))
}

/// The synthetic targets that a protocol table holds for `port`; its first line is a header.
pub open spec fn socket_targets(content: Seq<char>, port: Seq<char>) -> Seq<Seq<char>> {
    let ls = lines(content);
    if ls.len() == 0 {
        Seq::empty()
    } else {
        lines_targets(ls.subrange(1, ls.len() as int), port)
    }
}

/// The synthetic targets of a table that may be missing.
pub open spec fn table_targets(table: Option<String>, port: Seq<char>) -> Seq<Seq<char>> {
    match table {
        Some(content) => socket_targets(content@, port),
        None => Seq::empty(),
    }
}

/// The synthetic targets for `port` over the four protocol tables, in the order TCP over
/// IPv4, TCP over IPv6, UDP over IPv4, UDP over IPv6.
pub open spec fn port_targets(tables: SocketTables, port: Seq<char>) -> Seq<Seq<char>> {
    table_targets(tables.tcp, port) + table_targets(tables.tcp6, port) + table_targets(
        tables.udp,
        port,
    ) + table_targets(tables.udp6, port)
}

/// The target that a memory-map line names: its last field, where it has at least six.
pub open spec fn mapped_target(line: Seq<char>) -> Option<Seq<char>> {
    let parts = fields(line);
    if parts.len() >= 6 {
        Some(parts.last())
    } else {
        None
    }
}

/// The targets that the given memory-map lines name, in line order.
pub open spec fn lines_mapped(ls: Seq<Seq<char>>) -> Seq<Seq<char>> {
    pick(ls, |l: Seq<char>| mapped_target(l))
}

/// The targets that a memory-map text names.
pub open spec fn mapped_targets(content: Seq<char>) -> Seq<Seq<char>> {
    lines_mapped(lines(content))
}

/// The key and the value of a status line: what stands before and after its first colon,
/// both trimmed.
pub open spec fn status_pair(line: Seq<char>) -> Option<(Seq<char>, Seq<char>)> {
    let colon = index_of(line, ':', 0);
    if 0 <= colon < line.len() {
        Some(
            (
                trimmed(line.subrange(0, colon)),
                trimmed(line.subrange(colon + 1, line.len() as int)),
            ),
        )
    } else {
        None
    }
}

/// The pairs of the given status lines, in line order.
pub open spec fn lines_pairs(ls: Seq<Seq<char>>) -> Seq<(Seq<char>, Seq<char>)> {
    pick(ls, |l: Seq<char>| status_pair(l))
}

/// The `key: value` pairs of a status text.
pub open spec fn status_pairs(content: Seq<char>) -> Seq<(Seq<char>, Seq<char>)> {
    lines_pairs(lines(content))
}

/// The value of the last pair with the given key.
pub open spec fn lookup(pairs: Seq<(Seq<char>, Seq<char>)>, key: Seq<char>) -> Option<Seq<char>>
    decreases pairs.len(),
{
    if pairs.len() == 0 {
        None
    } else if pairs.last().0 == key {
        Some(pairs.last().1)
    } else {
        lookup(pairs.drop_last(), key)
    }
}

/// The process name that a status text gives: the value of its `Name` key.
pub open spec fn status_name(content: Seq<char>) -> Option<Seq<char>> {
    lookup(status_pairs(content), "Name"@)
}

/// The views of a vector of string pairs.
pub open spec fn pair_views(v: Seq<(String, String)>) -> Seq<(Seq<char>, Seq<char>)> {
    v.map_values(|p: (String, String)| (p.0@, p.1@))
}

/// A protocol-table line with fewer than ten fields adds no target, whatever stands
/// before it.
pub proof fn lemma_short_table_line_is_skipped(ls: Seq<Seq<char>>, line: Seq<char>, port: Seq<char>)
    requires
        fields(line).len() < 10,
    ensures
        lines_targets(ls.push(line), port) == lines_targets(ls, port),
{
    assert(ls.push(line).drop_last() =~= ls);
}

/// A protocol-table line whose local port is no hexadecimal 16-bit number adds no target.
pub proof fn lemma_bad_port_line_is_skipped(ls: Seq<Seq<char>>, line: Seq<char>, port: Seq<char>)
    requires
        fields(line).len() >= 10,
        address_port(fields(line)[1]) is None,
    ensures
        lines_targets(ls.push(line), port) == lines_targets(ls, port),
{
    assert(ls.push(line).drop_last() =~= ls);
}

/// A memory-map line with fewer than six fields adds no target, whatever stands
/// before it.
pub proof fn lemma_short_map_line_is_skipped(ls: Seq<Seq<char>>, line: Seq<char>)
    requires
        fields(line).len() < 6,
    ensures
        lines_mapped(ls.push(line)) == lines_mapped(ls),
{
    assert(ls.push(line).drop_last() =~= ls);
}

/// A status line without a colon adds no pair, whatever stands before it.
pub proof fn lemma_status_line_without_colon_is_skipped(ls: Seq<Seq<char>>, line: Seq<char>)
    requires
        !line.contains(':'),
    ensures
        lines_pairs(ls.push(line)) == lines_pairs(ls),
{
    assert(ls.push(line).drop_last() =~= ls);
    lemma_index_of_absent(line, ':', 0);
}

/// Decodes a port written in hexadecimal.
pub fn decode_hex_port(s: &str) -> (r: Option<u16>)
    ensures
        match r {
            Some(n) => hex_port(s@) == Some(n as nat),
            None => hex_port(s@) is None,
        },
{
    let v = chars_of(s);
    assert(v@.skip(0) =~= v@);
    match parse_unsigned(&v, 0, true, 0xffff) {
        Some(n) => Some(n as u16),
        None => None,
    }
}

/// Reads one line of a protocol table.
fn line_target_of(line: &Vec<char>, want: &Vec<char>) -> (r: Option<String>)
    ensures
        opt_view(r) == line_target(line@, want@),
{
    let parts = split_fields(line);
    if parts.len() < 10 {
        return None;
    }
    assert(views(parts@)[1] == parts@[1]@);
    assert(views(parts@)[9] == parts@[9]@);
    let addr = &parts[1];
    match find_last_char(addr, ':') {
        None => None,
        Some(colon) => match parse_unsigned(addr, colon + 1, true, 0xffff) {
            None => None,
            Some(n) => {
                let digits = decimal_chars(n as u16);
                if same_chars(&digits, want) {
                    let mut target = String::from_str("socket:[");
                    append_chars(&mut target, &parts[9]);
                    target.push(']');
                    Some(target)
                } else {
                    None
                }
            },
        },
    }
}

/// Reads one line of a memory map.
fn mapped_target_of(line: &Vec<char>) -> (r: Option<String>)
    ensures
        opt_view(r) == mapped_target(line@),
{
    let parts = split_fields(line);
    if parts.len() >= 6 {
        let last = &parts[parts.len() - 1];
        assert(views(parts@).last() == last@);
        assert(last@.subrange(0, last@.len() as int) =~= last@);
        Some(string_of(last, 0, last.len()))
    } else {
        None
    }
}

/// Reads one line of a status text.
fn status_pair_of(line: &Vec<char>) -> (r: Option<(String, String)>)
    ensures
        match r {
            Some(p) => status_pair(line@) == Some((p.0@, p.1@)),
            None => status_pair(line@) is None,
        },
{
    let colon = find_char(line, ':', 0);
    if colon < line.len() {
        let key = trim_string(line, 0, colon);
        let value = trim_string(line, colon + 1, line.len());
        Some((key, value))
    } else {
        None
    }
}

/// The readers of the kernel's texts that a scan relies on.
pub trait GetFileInfo {
    /// Reads a status text as `key: value` lines. Lines without a colon are left out.
    fn get_pid_info(&self, content: &str) -> (out: Vec<(String, String)>)
        ensures
            pair_views(out@) == status_pairs(content@),
    ;

    /// Reads a memory-map text: the last field of each line that has at least six fields.
    fn get_mem_info(&self, content: &str) -> (out: Vec<String>)
        ensures
            strs(out@) == mapped_targets(content@),
    ;

    /// The synthetic targets for `port` over the protocol tables that could be read, or
    /// `None` where there is none.
    fn get_port_info(&self, tables: &SocketTables, port: &str) -> (r: Option<Vec<String>>)
        ensures
            match r {
                Some(found) => strs(found@) == port_targets(*tables, port@) && found@.len() > 0,
                None => port_targets(*tables, port@).len() == 0,
            },
    ;
}

impl GetFileInfo for LsofData {
    /// Reads a status text as `key: value` lines. Lines without a colon are left out.
    fn get_pid_info(&self, content: &str) -> (out: Vec<(String, String)>) {
        let text = chars_of(content);
        let ls = split_lines(&text);
        let mut out: Vec<(String, String)> = Vec::new();
        let mut i: usize = 0;
        assert(pair_views(out@) =~= lines_pairs(views(ls@).take(0)));
        while i < ls.len()
            invariant
                i <= ls@.len(),
                pair_views(out@) == lines_pairs(views(ls@).take(i as int)),
            decreases ls@.len() - i,
        {
            let found = status_pair_of(&ls[i]);
            proof {
                let next = views(ls@).take(i + 1);
                assert(next.drop_last() =~= views(ls@).take(i as int));
                assert(next.last() == ls@[i as int]@);
            }
            if let Some(p) = found {
                let ghost before = pair_views(out@);
                let ghost pv = (p.0@, p.1@);
                out.push(p);
                assert(pair_views(out@) =~= before.push(pv));
            }
            i = i + 1;
        }
        assert(views(ls@).take(ls@.len() as int) =~= views(ls@));
        out
    }

    /// Reads a memory-map text: the last field of each line that has at least six fields.
    fn get_mem_info(&self, content: &str) -> (out: Vec<String>) {
        let text = chars_of(content);
        let ls = split_lines(&text);
        let mut out: Vec<String> = Vec::new();
        let mut i: usize = 0;
        assert(strs(out@) =~= lines_mapped(views(ls@).take(0)));
        while i < ls.len()
            invariant
                i <= ls@.len(),
                strs(out@) == lines_mapped(views(ls@).take(i as int)),
            decreases ls@.len() - i,
        {
            let found = mapped_target_of(&ls[i]);
            proof {
                let next = views(ls@).take(i + 1);
                assert(next.drop_last() =~= views(ls@).take(i as int));
                assert(next.last() == ls@[i as int]@);
            }
            if let Some(t) = found {
                let ghost before = strs(out@);
                let ghost tv = t@;
                out.push(t);
                assert(strs(out@) =~= before.push(tv));
            }
            i = i + 1;
        }
        assert(views(ls@).take(ls@.len() as int) =~= views(ls@));
        out
    }

    /// The synthetic targets for `port` over the protocol tables that could be read, or
    /// `None` where there is none.
    fn get_port_info(&self, tables: &SocketTables, port: &str) -> (r: Option<Vec<String>>) {
        let mut found: Vec<String> = Vec::new();
        assert(strs(found@) =~= Seq::empty());
        self.extend_with_table(&mut found, &tables.tcp, port);
        self.extend_with_table(&mut found, &tables.tcp6, port);
        self.extend_with_table(&mut found, &tables.udp, port);
        self.extend_with_table(&mut found, &tables.udp6, port);
        assert(strs(found@) =~= port_targets(*tables, port@));
        if found.len() == 0 {
            None
        } else {
            Some(found)
        }
    }
}

impl LsofData {
    /// Reads a protocol table: the synthetic target of each line after the header whose
    /// local port is `port`.
    pub fn parse_socket_file(&self, content: &str, port: &str) -> (results: Vec<String>)
        ensures
            strs(results@) == socket_targets(content@, port@),
    {
        let text = chars_of(content);
        let want = chars_of(port);
        let ls = split_lines(&text);
        let mut results: Vec<String> = Vec::new();
        if ls.len() == 0 {
            assert(strs(results@) =~= Seq::empty());
            return results;
        }
        let mut i: usize = 1;
        assert(strs(results@) =~= lines_targets(views(ls@).subrange(1, 1), port@));
        while i < ls.len()
            invariant
                1 <= i <= ls@.len(),
                want@ == port@,
                strs(results@) == lines_targets(views(ls@).subrange(1, i as int), port@),
            decreases ls@.len() - i,
        {
            let found = line_target_of(&ls[i], &want);
            proof {
                let next = views(ls@).subrange(1, i + 1);
                assert(next.drop_last() =~= views(ls@).subrange(1, i as int));
                assert(next.last() == ls@[i as int]@);
            }
            if let Some(t) = found {
                let ghost before = strs(results@);
                let ghost tv = t@;
                results.push(t);
                assert(strs(results@) =~= before.push(tv));
            }
            i = i + 1;
        }
        results
    }

    /// Appends to `found` the targets that one table holds for `port`.
    fn extend_with_table(&self, found: &mut Vec<String>, table: &Option<String>, port: &str)
        ensures
            strs(final(found)@) == strs(old(found)@) + table_targets(*table, port@),
    {
        match table {
            Some(content) => {
                let mut more = self.parse_socket_file(content.as_str(), port);
                let ghost added = strs(more@);
                found.append(&mut more);
                assert(strs(found@) =~= strs(old(found)@) + added);
            },
            None => {
                assert(strs(found@) =~= strs(old(found)@) + Seq::<Seq<char>>::empty());
            },
        }
    }
}

} // verus!
