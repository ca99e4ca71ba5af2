//! The correlation engine: one pass over a process table builds the process index and the
//! set of processes that hold the active target; the three queries are built on it.
use vstd::prelude::*;
use crate::model::{
    entries, opt_view, Fdinfo, FdinfoView, LsofData, LsofFiletype, ProcEntry, ProcEntryView,
    Snapshot,
};
use crate::tables::{
    lookup, mapped_targets, pair_views, port_targets, status_name, GetFileInfo,
};
use crate::text::{chars_of, is_pid, parse_unsigned, strs};

verus! {

/// Whether a scan with this target type reads the memory maps.
pub open spec fn reads_maps(filetype: Option<LsofFiletype>) -> bool {
    filetype == Some(LsofFiletype::Mem) || filetype == Some(LsofFiletype::All)
}

/// The targets that a scan sees of one process, in the order in which it sees them.
pub open spec fn entry_targets(e: ProcEntryView, with_maps: bool) -> Seq<Seq<char>> {
    if with_maps {
        mapped_targets(e.maps) + e.links
    } else {
        e.links
    }
}

/// What a scan records of one process.
pub open spec fn entry_info(e: ProcEntryView, with_maps: bool) -> FdinfoView {
    FdinfoView {
        pid: e.name,
        name: status_name(e.status),
        link: entry_targets(e, with_maps).to_set(),
    }
}

/// Whether a process holds the target. The empty target stands for "no target".
pub open spec fn holds(e: ProcEntryView, with_maps: bool, target: Seq<char>) -> bool {
    target.len() > 0 && entry_targets(e, with_maps).contains(target)
}

/// The process index after a pass over `es`: every entry whose name is a process
/// identifier, keyed by that name; of two entries with one name the later stays.
pub open spec fn scan_index(es: Seq<ProcEntryView>, with_maps: bool) -> Map<
    Seq<char>,
    FdinfoView,
>
    decreases es.len(),
{
    if es.len() == 0 {
        Map::empty()
    } else {
        let prev = scan_index(es.drop_last(), with_maps);
        if is_pid(es.last().name) {
            prev.insert(es.last().name, entry_info(es.last(), with_maps))
        } else {
            prev
        }
    }
}

/// The identifiers of the processes among `es` that hold `target`.
pub open spec fn scan_holders(es: Seq<ProcEntryView>, with_maps: bool, target: Seq<char>) -> Set<
    Seq<char>,
>
    decreases es.len(),
{
    if es.len() == 0 {
        Set::empty()
    } else {
        let prev = scan_holders(es.drop_last(), with_maps, target);
        if is_pid(es.last().name) && holds(es.last(), with_maps, target) {
            prev.insert(es.last().name)
        } else {
            prev
        }
    }
}

/// The identifiers of the processes that hold one of `targets` as a descriptor.
pub open spec fn port_holders(es: Seq<ProcEntryView>, targets: Seq<Seq<char>>) -> Set<Seq<char>>
    decreases targets.len(),
{
    if targets.len() == 0 {
        Set::empty()
    } else {
        port_holders(es, targets.drop_last()).union(scan_holders(es, false, targets.last()))
    }
}

/// No process identifier stands twice in the list.
pub open spec fn distinct_pids(list: Seq<Fdinfo>) -> bool {
    forall|i: int, j: int|
        0 <= i < j < list.len() ==> (#[trigger] list[i]).pid@ != (#[trigger] list[j]).pid@
}

/// A list of records that can stand for an index: no identifier twice, and no target
/// twice within a record.
pub open spec fn valid_index(list: Seq<Fdinfo>) -> bool {
    &&& distinct_pids(list)
    &&& forall|i: int| 0 <= i < list.len() ==> (#[trigger] list[i]).wf()
}

/// The index that a list of records stands for: each record under its identifier.
pub open spec fn index_view(list: Seq<Fdinfo>) -> Map<Seq<char>, FdinfoView>
    decreases list.len(),
{
    if list.len() == 0 {
        Map::empty()
    } else {
        index_view(list.drop_last()).insert(list.last().pid@, list.last()@)
    }
}

/// What `list-all` answers on a process table.
pub open spec fn all_index(procs: Seq<ProcEntry>) -> Map<Seq<char>, FdinfoView> {
    scan_index(entries(procs), true)
}

/// What `find-by-file` finds on a process table: the records of the holders of `path`.
pub open spec fn file_index(procs: Seq<ProcEntry>, path: Seq<char>) -> Map<
    Seq<char>,
    FdinfoView,
> {
    scan_index(entries(procs), true).restrict(scan_holders(entries(procs), true, path))
}

/// What `find-by-port` finds in a snapshot: the records of the processes that hold a
/// socket bound to `port`.
pub open spec fn port_index(snapshot: Snapshot, port: Seq<char>) -> Map<Seq<char>, FdinfoView> {
    match snapshot.procs {
        Some(procs) => scan_index(entries(procs@), false).restrict(
            port_holders(entries(procs@), port_targets(snapshot.sockets, port)),
        ),
        None => Map::empty(),
    }
}

/// In a list without repeated identifiers, the index holds exactly the list's records.
pub proof fn lemma_index_view(list: Seq<Fdinfo>)
    requires
        distinct_pids(list),
    ensures
        forall|i: int|
            0 <= i < list.len() ==> index_view(list).dom().contains((#[trigger] list[i]).pid@)
                && index_view(list)[list[i].pid@] == list[i]@,
        forall|p: Seq<char>| #[trigger]
            index_view(list).dom().contains(p) ==> exists|i: int|
                0 <= i < list.len() && (#[trigger] list[i]).pid@ == p,
    decreases list.len(),
{
    if list.len() > 0 {
        let front = list.drop_last();
        assert(distinct_pids(front)) by {
            assert forall|i: int, j: int| 0 <= i < j < front.len() implies (#[trigger] front[i]).pid@
                != (#[trigger] front[j]).pid@ by {
                assert(front[i] == list[i] && front[j] == list[j]);
            }
        }
        lemma_index_view(front);
        assert forall|i: int| 0 <= i < list.len() implies index_view(list).dom().contains(
            (#[trigger] list[i]).pid@,
        ) && index_view(list)[list[i].pid@] == list[i]@ by {
            if i < list.len() - 1 {
                assert(front[i] == list[i]);
                assert(list[i].pid@ != list[list.len() - 1].pid@);
            }
        }
        assert forall|p: Seq<char>| #[trigger]
            index_view(list).dom().contains(p) implies exists|i: int|
            0 <= i < list.len() && (#[trigger] list[i]).pid@ == p by {
            if p == list.last().pid@ {
                assert(list[list.len() - 1].pid@ == p);
            } else {
                assert(index_view(front).dom().contains(p));
                let i = choose|i: int| 0 <= i < front.len() && (#[trigger] front[i]).pid@ == p;
                assert(list[i].pid@ == p);
            }
        }
    }
}

/// Every process that a pass finds holding the target is a key of the index of that pass.
pub proof fn lemma_holders_are_indexed(es: Seq<ProcEntryView>, with_maps: bool, target: Seq<char>)
    ensures
        scan_holders(es, with_maps, target).subset_of(scan_index(es, with_maps).dom()),
    decreases es.len(),
{
    if es.len() > 0 {
        lemma_holders_are_indexed(es.drop_last(), with_maps, target);
    }
}

/// Every key of the index of a pass is a process identifier.
pub proof fn lemma_index_keys_are_pids(es: Seq<ProcEntryView>, with_maps: bool)
    ensures
        forall|p: Seq<char>| #[trigger] scan_index(es, with_maps).dom().contains(p) ==> is_pid(p),
        forall|p: Seq<char>| #[trigger]
            scan_index(es, with_maps).dom().contains(p) ==> scan_index(es, with_maps)[p].pid == p,
    decreases es.len(),
{
    if es.len() > 0 {
        lemma_index_keys_are_pids(es.drop_last(), with_maps);
    }
}

/// A process is among the holders of a target exactly if one of the entries with its
/// name, a process identifier, holds the target.
pub proof fn lemma_holders(es: Seq<ProcEntryView>, with_maps: bool, target: Seq<char>)
    ensures
        forall|p: Seq<char>| #[trigger]
            scan_holders(es, with_maps, target).contains(p) <==> is_pid(p) && exists|i: int|
                0 <= i < es.len() && (#[trigger] es[i]).name == p && holds(
                    es[i],
                    with_maps,
                    target,
                ),
    decreases es.len(),
{
    if es.len() > 0 {
        let front = es.drop_last();
        lemma_holders(front, with_maps, target);
        assert forall|p: Seq<char>| #[trigger]
            scan_holders(es, with_maps, target).contains(p) <==> is_pid(p) && exists|i: int|
                0 <= i < es.len() && (#[trigger] es[i]).name == p && holds(
                    es[i],
                    with_maps,
                    target,
                ) by {
            if scan_holders(es, with_maps, target).contains(p) {
                if scan_holders(front, with_maps, target).contains(p) {
                    let i = choose|i: int|
                        0 <= i < front.len() && (#[trigger] front[i]).name == p && holds(
                            front[i],
                            with_maps,
                            target,
                        );
                    assert(es[i] == front[i]);
                    assert(is_pid(p) && es[i].name == p && holds(es[i], with_maps, target));
                } else {
                    let n = es.len() - 1;
                    assert(es.last() == es[n]);
                    assert(is_pid(p) && es[n].name == p && holds(es[n], with_maps, target));
                }
            }
            if is_pid(p) && exists|i: int|
                0 <= i < es.len() && (#[trigger] es[i]).name == p && holds(
                    es[i],
                    with_maps,
                    target,
                ) {
                let i = choose|i: int|
                    0 <= i < es.len() && (#[trigger] es[i]).name == p && holds(
                        es[i],
                        with_maps,
                        target,
                    );
                if i < es.len() - 1 {
                    assert(front[i] == es[i]);
                    assert(scan_holders(front, with_maps, target).contains(p));
                } else {
                    assert(es.last() == es[i]);
                }
                assert(scan_holders(es, with_maps, target).contains(p));
            }
        }
    }
}

/// The keys of the index of a pass are the names among the entries that are process
/// identifiers.
pub proof fn lemma_index_keys(es: Seq<ProcEntryView>, with_maps: bool)
    ensures
        forall|p: Seq<char>| #[trigger]
            scan_index(es, with_maps).dom().contains(p) <==> is_pid(p) && exists|i: int|
                0 <= i < es.len() && (#[trigger] es[i]).name == p,
    decreases es.len(),
{
    if es.len() > 0 {
        let front = es.drop_last();
        lemma_index_keys(front, with_maps);
        assert forall|p: Seq<char>| #[trigger]
            scan_index(es, with_maps).dom().contains(p) <==> is_pid(p) && exists|i: int|
                0 <= i < es.len() && (#[trigger] es[i]).name == p by {
            if scan_index(es, with_maps).dom().contains(p) {
                if scan_index(front, with_maps).dom().contains(p) {
                    let i = choose|i: int| 0 <= i < front.len() && (#[trigger] front[i]).name == p;
                    assert(es[i] == front[i]);
                    assert(is_pid(p) && es[i].name == p);
                } else {
                    let n = es.len() - 1;
                    assert(es.last() == es[n]);
                    assert(is_pid(p) && es[n].name == p);
                }
            }
            if is_pid(p) && exists|i: int| 0 <= i < es.len() && (#[trigger] es[i]).name == p {
                let i = choose|i: int| 0 <= i < es.len() && (#[trigger] es[i]).name == p;
                if i < es.len() - 1 {
                    assert(front[i] == es[i]);
                    assert(scan_index(front, with_maps).dom().contains(p));
                } else {
                    assert(es.last() == es[i]);
                }
                assert(scan_index(es, with_maps).dom().contains(p));
            }
        }
    }
}

/// The index holds for a process what the last entry with its name shows.
pub proof fn lemma_index_value(es: Seq<ProcEntryView>, with_maps: bool, i: int)
    requires
        0 <= i < es.len(),
        is_pid(es[i].name),
        forall|j: int| i < j < es.len() ==> (#[trigger] es[j]).name != es[i].name,
    ensures
        scan_index(es, with_maps).dom().contains(es[i].name),
        scan_index(es, with_maps)[es[i].name] == entry_info(es[i], with_maps),
    decreases es.len(),
{
    let n = es.len() - 1;
    assert(es.last() == es[n]);
    if i < n {
        let front = es.drop_last();
        assert(front[i] == es[i]);
        assert forall|j: int| i < j < front.len() implies (#[trigger] front[j]).name
            != front[i].name by {
            assert(front[j] == es[j]);
        }
        lemma_index_value(front, with_maps, i);
        assert(es[n].name != es[i].name);
    }
}

/// Two answers to `list-all` on one process table hold the same records: every record
/// of the first is a record of the second, under the same identifier.
pub proof fn lemma_list_all_is_repeatable(
    first: Seq<Fdinfo>,
    second: Seq<Fdinfo>,
    procs: Seq<ProcEntry>,
)
    requires
        valid_index(first),
        valid_index(second),
        index_view(first) == all_index(procs),
        index_view(second) == all_index(procs),
    ensures
        index_view(first).dom() == index_view(second).dom(),
        forall|i: int|
            0 <= i < first.len() ==> exists|j: int|
                0 <= j < second.len() && (#[trigger] second[j])@ == (#[trigger] first[i])@,
{
    lemma_index_view(first);
    lemma_index_view(second);
    assert forall|i: int| 0 <= i < first.len() implies exists|j: int|
        0 <= j < second.len() && (#[trigger] second[j])@ == (#[trigger] first[i])@ by {
        let p = first[i].pid@;
        assert(index_view(second).dom().contains(p));
        let j = choose|j: int| 0 <= j < second.len() && (#[trigger] second[j]).pid@ == p;
        assert(second[j]@ == first[i]@);
    }
}

/// A process that holds several of the targets of a port is found once: the processes
/// found are those that hold at least one of the targets.
pub proof fn lemma_port_holders(es: Seq<ProcEntryView>, targets: Seq<Seq<char>>)
    ensures
        forall|p: Seq<char>| #[trigger]
            port_holders(es, targets).contains(p) <==> exists|k: int|
                0 <= k < targets.len() && scan_holders(es, false, #[trigger] targets[k]).contains(
                    p,
                ),
    decreases targets.len(),
{
    if targets.len() > 0 {
        let front = targets.drop_last();
        lemma_port_holders(es, front);
        assert forall|p: Seq<char>| #[trigger]
            port_holders(es, targets).contains(p) <==> exists|k: int|
                0 <= k < targets.len() && scan_holders(es, false, #[trigger] targets[k]).contains(
                    p,
                ) by {
            if port_holders(es, targets).contains(p) {
                if port_holders(es, front).contains(p) {
                    let k = choose|k: int|
                        0 <= k < front.len() && scan_holders(
                            es,
                            false,
                            #[trigger] front[k],
                        ).contains(p);
                    assert(targets[k] == front[k]);
                    assert(scan_holders(es, false, targets[k]).contains(p));
                } else {
                    let n = targets.len() - 1;
                    assert(targets.last() == targets[n]);
                    assert(scan_holders(es, false, targets[n]).contains(p));
                }
            }
            if exists|k: int|
                0 <= k < targets.len() && scan_holders(es, false, #[trigger] targets[k]).contains(
                    p,
                ) {
                let k = choose|k: int|
                    0 <= k < targets.len() && scan_holders(
                        es,
                        false,
                        #[trigger] targets[k],
                    ).contains(p);
                if k < targets.len() - 1 {
                    assert(front[k] == targets[k]);
                    assert(port_holders(es, front).contains(p));
                } else {
                    assert(targets.last() == targets[k]);
                }
                assert(port_holders(es, targets).contains(p));
            }
        }
    }
}

impl Default for LsofData {
    fn default() -> (r: LsofData)
        ensures
            r.wf(),
            r.index() == Map::<Seq<char>, FdinfoView>::empty(),
    {
        LsofData::new()
    }
}

/// Whether a directory name is a process identifier.
pub fn is_pid_name(name: &str) -> (r: bool)
    ensures
        r == is_pid(name@),
{
    let v = chars_of(name);
    assert(v@.skip(0) =~= v@);
    parse_unsigned(&v, 0, false, 0xffff_ffff_ffff_ffff).is_some()
}

/// Finds the record of `pid` in a list.
fn position(list: &Vec<Fdinfo>, pid: &String) -> (r: Option<usize>)
    ensures
        match r {
            Some(i) => i < list@.len() && list@[i as int].pid@ == pid@,
            None => forall|i: int| 0 <= i < list@.len() ==> (#[trigger] list@[i]).pid@ != pid@,
        },
{
    let mut i: usize = 0;
    while i < list.len()
        invariant
            i <= list@.len(),
            forall|j: int| 0 <= j < i ==> (#[trigger] list@[j]).pid@ != pid@,
        decreases list@.len() - i,
    {
        if list[i].pid == *pid {
            return Some(i);
        }
        i = i + 1;
    }
    None
}

/// Whether `s` is among the strings of a list.
fn has_string(list: &Vec<String>, s: &String) -> (r: bool)
    ensures
        r == strs(list@).contains(s@),
{
    let mut i: usize = 0;
    while i < list.len()
        invariant
            i <= list@.len(),
            forall|j: int| 0 <= j < i ==> strs(list@)[j] != s@,
        decreases list@.len() - i,
    {
        if list[i] == *s {
            assert(strs(list@)[i as int] == s@);
            return true;
        }
        i = i + 1;
    }
    false
}

/// Adds to `link` the targets of `more` that it does not hold yet, and tells whether
/// `target` is among `more`.
fn add_targets(link: &mut Vec<String>, more: &Vec<String>, target: &String) -> (hit: bool)
    requires
        strs(old(link)@).no_duplicates(),
    ensures
        strs(final(link)@).no_duplicates(),
        strs(final(link)@).to_set() == strs(old(link)@).to_set().union(strs(more@).to_set()),
        hit == (target@.len() > 0 && strs(more@).contains(target@)),
{
    let wanted = !target.as_str().is_empty();
    let mut hit = false;
    let mut k: usize = 0;
    assert(strs(more@).take(0) =~= Seq::empty());
    assert(strs(link@).to_set() =~= strs(old(link)@).to_set().union(
        Seq::<Seq<char>>::empty().to_set(),
    ));
    while k < more.len()
        invariant
            k <= more@.len(),
            wanted == (target@.len() > 0),
            strs(link@).no_duplicates(),
            strs(link@).to_set() == strs(old(link)@).to_set().union(
                strs(more@).take(k as int).to_set(),
            ),
            hit == (wanted && strs(more@).take(k as int).contains(target@)),
        decreases more@.len() - k,
    {
        let ghost seen = strs(more@).take(k as int);
        let ghost before = strs(link@);
        let t = &more[k];
        proof {
            assert(strs(more@).take(k + 1) =~= seen.push(t@));
            seen.lemma_push_to_set_commute(t@);
            vstd::seq_lib::lemma_seq_contains_after_push(seen, t@, target@);
        }
        if wanted && *t == *target {
            hit = true;
        }
        if !has_string(link, t) {
            link.push(t.clone());
            proof {
                assert(strs(link@) =~= before.push(t@));
                before.lemma_push_to_set_commute(t@);
            }
        } else {
            assert(before.to_set().insert(t@) =~= before.to_set());
        }
        k = k + 1;
        assert(strs(link@).to_set() =~= strs(old(link)@).to_set().union(
            strs(more@).take(k as int).to_set(),
        ));
    }
    assert(strs(more@).take(more@.len() as int) =~= strs(more@));
    hit
}

/// The value of the last pair whose key is `Name`.
fn name_of(pairs: &Vec<(String, String)>) -> (r: Option<String>)
    ensures
        opt_view(r) == lookup(pair_views(pairs@), "Name"@),
{
    let key = String::from_str("Name");
    let mut n: usize = pairs.len();
    assert(pair_views(pairs@).take(n as int) =~= pair_views(pairs@));
    while n > 0
        invariant
            n <= pairs@.len(),
            key@ == "Name"@,
            lookup(pair_views(pairs@).take(n as int), key@) == lookup(pair_views(pairs@), key@),
        decreases n,
    {
        proof {
            let cur = pair_views(pairs@).take(n as int);
            assert(cur.drop_last() =~= pair_views(pairs@).take(n - 1));
            assert(cur.last() == (pairs@[n - 1].0@, pairs@[n - 1].1@));
        }
        if pairs[n - 1].0 == key {
            return Some(pairs[n - 1].1.clone());
        }
        n = n - 1;
    }
    None
}

impl LsofData {
    /// The process index that the last scan built.
    pub closed spec fn index(&self) -> Map<Seq<char>, FdinfoView> {
        index_view(self.pidmap@)
    }

    /// The identifiers of the processes that the last scan found holding its target.
    pub closed spec fn holders(&self) -> Set<Seq<char>> {
        strs(self.targetmap@).to_set()
    }

    /// The target that a scan looks for; empty where it looks for none.
    pub closed spec fn target(&self) -> Seq<char> {
        self.target_filename@
    }

    /// The target type of the scans.
    pub closed spec fn filetype(&self) -> Option<LsofFiletype> {
        self.target_filetype
    }

    /// No identifier stands twice in the index, no target twice in a record, and every
    /// holder of the target is a key of the index.
    pub closed spec fn wf(&self) -> bool {
        &&& valid_index(self.pidmap@)
        &&& strs(self.targetmap@).no_duplicates()
        &&& strs(self.targetmap@).to_set().subset_of(index_view(self.pidmap@).dom())
    }

    /// An engine that has not scanned yet.
    pub fn new() -> (r: LsofData)
        ensures
            r.wf(),
            r.index() == Map::<Seq<char>, FdinfoView>::empty(),
            r.holders() == Set::<Seq<char>>::empty(),
            r.target() == Seq::<char>::empty(),
            r.filetype() is None,
    {
        let r = LsofData {
            target_filetype: None,
            pidmap: Vec::new(),
            targetmap: Vec::new(),
            target_filename: String::new(),
        };
        assert(strs(r.targetmap@).to_set() =~= Set::<Seq<char>>::empty());
        r
    }

    /// Records `pid` as a holder of the active target.
    fn target_map_insert(&mut self, pid: String)
        requires
            old(self).wf(),
            old(self).index().dom().contains(pid@),
        ensures
            final(self).wf(),
            final(self).holders() == old(self).holders().insert(pid@),
            final(self).index() == old(self).index(),
            final(self).target() == old(self).target(),
            final(self).filetype() == old(self).filetype(),
    {
        let ghost before = strs(self.targetmap@);
        if !has_string(&self.targetmap, &pid) {
            self.targetmap.push(pid);
            proof {
                assert(strs(self.targetmap@) =~= before.push(pid@));
                before.lemma_push_to_set_commute(pid@);
            }
        } else {
            assert(before.to_set().insert(pid@) =~= before.to_set());
        }
    }

    /// Puts a record into the index, in place of an earlier one for the same process.
    fn index_insert(&mut self, info: Fdinfo)
        requires
            old(self).wf(),
            info.wf(),
        ensures
            final(self).wf(),
            final(self).index() == old(self).index().insert(info.pid@, info@),
            final(self).holders() == old(self).holders(),
            final(self).target() == old(self).target(),
            final(self).filetype() == old(self).filetype(),
    {
        let ghost old_list = self.pidmap@;
        let ghost key = info.pid@;
        let ghost value = info@;
        match position(&self.pidmap, &info.pid) {
            Some(j) => {
                self.pidmap.set(j, info);
                proof {
                    let new_list = self.pidmap@;
                    assert(distinct_pids(new_list)) by {
                        assert forall|a: int, b: int| 0 <= a < b < new_list.len() implies (
                        #[trigger] new_list[a]).pid@ != (#[trigger] new_list[b]).pid@ by {
                            assert(old_list[a].pid@ != old_list[b].pid@);
                        }
                    }
                    assert forall|i: int| 0 <= i < new_list.len() implies (
                    #[trigger] new_list[i]).wf() by {
                        if i != j {
                            assert(old_list[i].wf());
                        }
                    }
                    lemma_index_view(old_list);
                    lemma_index_view(new_list);
                    assert forall|p: Seq<char>|
                        index_view(old_list).insert(key, value).dom().contains(
                            p,
                        ) implies #[trigger] index_view(new_list).dom().contains(p)
                        && index_view(new_list)[p] == index_view(old_list).insert(key, value)[p] by {
                        if p == key {
                            assert(new_list[j as int].pid@ == p);
                        } else {
                            let i = choose|i: int|
                                0 <= i < old_list.len() && (#[trigger] old_list[i]).pid@ == p;
                            assert(new_list[i] == old_list[i]);
                            assert(new_list[i].pid@ == p);
                        }
                    }
                    assert forall|p: Seq<char>| #[trigger]
                        index_view(new_list).dom().contains(p) implies index_view(old_list).insert(
                        key,
                        value,
                    ).dom().contains(p) by {
                        let i = choose|i: int|
                            0 <= i < new_list.len() && (#[trigger] new_list[i]).pid@ == p;
                        if i != j {
                            assert(old_list[i].pid@ == p);
                        }
                    }
                    assert(index_view(new_list) =~= index_view(old_list).insert(key, value));
                }
            },
            None => {
                self.pidmap.push(info);
                proof {
                    let new_list = self.pidmap@;
                    assert(new_list.drop_last() =~= old_list);
                    assert(distinct_pids(new_list)) by {
                        assert forall|a: int, b: int| 0 <= a < b < new_list.len() implies (
                        #[trigger] new_list[a]).pid@ != (#[trigger] new_list[b]).pid@ by {
                            assert(new_list[a] == old_list[a]);
                            if b < old_list.len() {
                                assert(new_list[b] == old_list[b]);
                            }
                        }
                    }
                    assert forall|i: int| 0 <= i < new_list.len() implies (
                    #[trigger] new_list[i]).wf() by {
                        if i < old_list.len() {
                            assert(old_list[i].wf());
                        }
                    }
                }
            },
        }
    }

    /// Reads one process: its record, and whether it holds `target`.
    fn scan_entry(&self, e: &ProcEntry, with_maps: bool, target: &String) -> (r: (Fdinfo, bool))
        ensures
            r.0.wf(),
            r.0@ == entry_info(e@, with_maps),
            r.1 == holds(e@, with_maps, target@),
    {
        let pairs = self.get_pid_info(e.status.as_str());
        let name = name_of(&pairs);
        let mut link: Vec<String> = Vec::new();
        let mut hit = false;
        let ghost mut seen: Seq<Seq<char>> = Seq::empty();
        assert(strs(link@).to_set() =~= seen.to_set());
        if with_maps {
            let mapped = self.get_mem_info(e.maps.as_str());
            hit = add_targets(&mut link, &mapped, target);
            proof {
                seen = strs(mapped@);
                assert(strs(link@).to_set() =~= seen.to_set());
            }
        }
        let hit_links = add_targets(&mut link, &e.links, target);
        proof {
            let all = entry_targets(e@, with_maps);
            assert(all =~= seen + strs(e.links@));
            assert forall|x: Seq<char>| all.contains(x) <==> seen.contains(x) || strs(
                e.links@,
            ).contains(x) by {
                vstd::seq_lib::lemma_seq_concat_contains_all_elements(seen, strs(e.links@), x);
            }
            assert(strs(link@).to_set() =~= all.to_set());
        }
        (Fdinfo { pid: e.name.clone(), name, link }, hit || hit_links)
    }

    /// One pass over the process table: rebuilds the index and the holders of the target.
    fn set_list_all(&mut self, procs: &Vec<ProcEntry>)
        ensures
            final(self).wf(),
            final(self).index() == scan_index(entries(procs@), reads_maps(old(self).filetype())),
            final(self).holders() == scan_holders(
                entries(procs@),
                reads_maps(old(self).filetype()),
                old(self).target(),
            ),
            final(self).target() == old(self).target(),
            final(self).filetype() == old(self).filetype(),
    {
        self.pidmap = Vec::new();
        self.targetmap = Vec::new();
        let with_maps = match self.target_filetype {
            Some(LsofFiletype::Mem) => true,
            Some(LsofFiletype::All) => true,
            _ => false,
        };
        let target = self.target_filename.clone();
        let mut i: usize = 0;
        proof {
            assert(strs(self.targetmap@).to_set() =~= Set::<Seq<char>>::empty());
            assert(entries(procs@).take(0) =~= Seq::empty());
        }
        while i < procs.len()
            invariant
                i <= procs@.len(),
                self.wf(),
                with_maps == reads_maps(old(self).filetype()),
                target@ == old(self).target(),
                self.target() == old(self).target(),
                self.filetype() == old(self).filetype(),
                self.index() == scan_index(entries(procs@).take(i as int), with_maps),
                self.holders() == scan_holders(entries(procs@).take(i as int), with_maps, target@),
            decreases procs@.len() - i,
        {
            let e = &procs[i];
            proof {
                let next = entries(procs@).take(i + 1);
                assert(next.drop_last() =~= entries(procs@).take(i as int));
                assert(next.last() == e@);
            }
            if is_pid_name(e.name.as_str()) {
                let (info, hit) = self.scan_entry(e, with_maps, &target);
                self.index_insert(info);
                if hit {
                    self.target_map_insert(e.name.clone());
                }
            }
            i = i + 1;
        }
        assert(entries(procs@).take(procs@.len() as int) =~= entries(procs@));
    }

    /// Adds to `result` the records of the holders of the target that it lacks.
    fn collect_holders(&self, result: &mut Vec<Fdinfo>)
        requires
            self.wf(),
            valid_index(old(result)@),
            index_view(old(result)@).submap_of(self.index()),
        ensures
            valid_index(final(result)@),
            index_view(final(result)@) == self.index().restrict(
                index_view(old(result)@).dom().union(self.holders()),
            ),
    {
        let ghost index = self.index();
        let ghost start = index_view(old(result)@).dom();
        let ghost pids = strs(self.targetmap@);
        let mut k: usize = 0;
        proof {
            lemma_index_view(self.pidmap@);
            assert(pids.take(0) =~= Seq::empty());
            assert(index_view(result@) =~= index.restrict(start.union(pids.take(0).to_set())));
        }
        while k < self.targetmap.len()
            invariant
                k <= self.targetmap@.len(),
                self.wf(),
                index == self.index(),
                pids == strs(self.targetmap@),
                valid_index(result@),
                index_view(result@) == index.restrict(start.union(pids.take(k as int).to_set())),
            decreases self.targetmap@.len() - k,
        {
            let pid = &self.targetmap[k];
            let ghost seen = pids.take(k as int);
            let ghost before = result@;
            proof {
                assert(pids[k as int] == pid@);
                assert(pids.contains(pid@));
                assert(index.dom().contains(pid@));
                assert(pids.take(k + 1) =~= seen.push(pid@));
                seen.lemma_push_to_set_commute(pid@);
                lemma_index_view(self.pidmap@);
                lemma_index_view(before);
            }
            match position(&self.pidmap, pid) {
                Some(j) => {
                    if position(result, pid).is_none() {
                        let info = self.pidmap[j].clone();
                        result.push(info);
                        proof {
                            let after = result@;
                            assert(after.drop_last() =~= before);
                            assert(after.last()@ == index[pid@]);
                            assert(distinct_pids(after)) by {
                                assert forall|a: int, b: int|
                                    0 <= a < b < after.len() implies (#[trigger] after[a]).pid@ != (
                                #[trigger] after[b]).pid@ by {
                                    assert(after[a] == before[a]);
                                    if b < before.len() {
                                        assert(after[b] == before[b]);
                                    }
                                }
                            }
                            assert forall|i: int| 0 <= i < after.len() implies (
                            #[trigger] after[i]).wf() by {
                                if i < before.len() {
                                    assert(before[i].wf());
                                } else {
                                    assert(self.pidmap@[j as int].wf());
                                }
                            }
                            assert(index_view(after) =~= index.restrict(
                                start.union(seen.to_set().insert(pid@)),
                            ));
                        }
                    } else {
                        proof {
                            assert(index_view(before).dom().contains(pid@));
                            assert(start.union(seen.to_set()).contains(pid@));
                            assert(start.union(seen.to_set().insert(pid@)) =~= start.union(
                                seen.to_set(),
                            ));
                        }
                    }
                },
                None => {
                    proof {
                        let i = choose|i: int|
                            0 <= i < self.pidmap@.len() && (#[trigger] self.pidmap@[i]).pid@
                                == pid@;
                        assert(self.pidmap@[i].pid@ != pid@);
                    }
                },
            }
            k = k + 1;
        }
        assert(pids.take(pids.len() as int) =~= pids);
    }

    /// A copy of the index, record by record.
    fn index_copy(&self) -> (list: Vec<Fdinfo>)
        requires
            self.wf(),
        ensures
            valid_index(list@),
            index_view(list@) == self.index(),
    {
        let mut list: Vec<Fdinfo> = Vec::new();
        let mut i: usize = 0;
        assert(self.pidmap@.take(0) =~= Seq::empty());
        while i < self.pidmap.len()
            invariant
                i <= self.pidmap@.len(),
                self.wf(),
                list@.len() == i,
                forall|j: int|
                    0 <= j < i ==> (#[trigger] list@[j]).pid@ == self.pidmap@[j].pid@ && list@[j].wf(),
                index_view(list@) == index_view(self.pidmap@.take(i as int)),
            decreases self.pidmap@.len() - i,
        {
            let info = self.pidmap[i].clone();
            let ghost before = list@;
            assert(self.pidmap@[i as int].wf());
            list.push(info);
            i = i + 1;
            proof {
                assert(list@.drop_last() =~= before);
                let part = self.pidmap@.take(i as int);
                assert(part.drop_last() =~= self.pidmap@.take(i - 1));
                assert(part.last() == self.pidmap@[i - 1]);
            }
        }
        proof {
            assert(self.pidmap@.take(i as int) =~= self.pidmap@);
            assert forall|a: int, b: int| 0 <= a < b < list@.len() implies (#[trigger] list@[a]).pid@
                != (#[trigger] list@[b]).pid@ by {
                assert(self.pidmap@[a].pid@ != self.pidmap@[b].pid@);
            }
        }
        list
    }

    /// Lists every process of the snapshot with what it holds open. Fails only where the
    /// process-table root could not be listed.
    pub fn file_ls(&mut self, snapshot: &Snapshot) -> (r: Option<Vec<Fdinfo>>)
        ensures
            match (r, snapshot.procs) {
                (Some(list), Some(procs)) => {
                    &&& valid_index(list@)
                    &&& index_view(list@) == all_index(procs@)
                    &&& forall|i: int| 0 <= i < list@.len() ==> is_pid((#[trigger] list@[i]).pid@)
                    &&& final(self).wf()
                    &&& final(self).index() == all_index(procs@)
                },
                (None, None) => true,
                _ => false,
            },
    {
        self.target_filetype = Some(LsofFiletype::All);
        self.target_filename = String::new();
        match &snapshot.procs {
            None => None,
            Some(procs) => {
                self.set_list_all(procs);
                let list = self.index_copy();
                proof {
                    lemma_index_view(list@);
                    lemma_index_keys_are_pids(entries(procs@), true);
                }
                Some(list)
            },
        }
    }

    /// One pass over the process table with `path` as the target: the records of the
    /// processes that hold it as a descriptor or as a mapping.
    pub fn scan_file(&mut self, path: String, procs: &Vec<ProcEntry>) -> (result: Vec<Fdinfo>)
        ensures
            valid_index(result@),
            index_view(result@) == file_index(procs@, path@),
            final(self).wf(),
            final(self).index() == all_index(procs@),
            final(self).holders() == scan_holders(entries(procs@), true, path@),
    {
        self.target_filetype = Some(LsofFiletype::All);
        self.target_filename = path;
        self.set_list_all(procs);
        let mut result: Vec<Fdinfo> = Vec::new();
        self.collect_holders(&mut result);
        proof {
            assert(index_view(result@) =~= file_index(procs@, path@));
        }
        result
    }

    /// Lists the processes that hold `path` open. `present` tells whether the path is
    /// there at all: where it is not, nothing is scanned.
    pub fn target_file_ls(&mut self, path: String, present: bool, snapshot: &Snapshot) -> (r:
        Option<Vec<Fdinfo>>)
        ensures
            match r {
                Some(list) => {
                    &&& present
                    &&& snapshot.procs is Some
                    &&& list@.len() > 0
                    &&& valid_index(list@)
                    &&& index_view(list@) == file_index(snapshot.procs->0@, path@)
                },
                None => !present || snapshot.procs is None || file_index(
                    snapshot.procs->0@,
                    path@,
                ) == Map::<Seq<char>, FdinfoView>::empty(),
            },
            !present ==> *final(self) == *old(self),
    {
        if !present {
            return None;
        }
        let procs = match &snapshot.procs {
            None => {
                return None;
            },
            Some(procs) => procs,
        };
        let result = self.scan_file(path, procs);
        if result.len() == 0 {
            None
        } else {
            Some(result)
        }
    }

    /// One pass per target over the process table: the records of the processes that hold
    /// one of the targets as a descriptor, each once.
    pub fn scan_targets(&mut self, targets: &Vec<String>, procs: &Vec<ProcEntry>) -> (result:
        Vec<Fdinfo>)
        ensures
            valid_index(result@),
            index_view(result@) == scan_index(entries(procs@), false).restrict(
                port_holders(entries(procs@), strs(targets@)),
            ),
    {
        self.target_filetype = Some(LsofFiletype::Socket);
        let ghost es = entries(procs@);
        let mut result: Vec<Fdinfo> = Vec::new();
        let mut k: usize = 0;
        proof {
            assert(strs(targets@).take(0) =~= Seq::empty());
            assert(index_view(result@) =~= scan_index(es, false).restrict(
                port_holders(es, strs(targets@).take(0)),
            ));
        }
        while k < targets.len()
            invariant
                k <= targets@.len(),
                es == entries(procs@),
                self.filetype() == Some(LsofFiletype::Socket),
                valid_index(result@),
                index_view(result@) == scan_index(es, false).restrict(
                    port_holders(es, strs(targets@).take(k as int)),
                ),
            decreases targets@.len() - k,
        {
            self.target_filename = targets[k].clone();
            self.set_list_all(procs);
            self.collect_holders(&mut result);
            proof {
                let part = strs(targets@).take(k + 1);
                assert(part.drop_last() =~= strs(targets@).take(k as int));
                assert(part.last() == targets@[k as int]@);
                assert(index_view(result@) =~= scan_index(es, false).restrict(
                    port_holders(es, part),
                ));
            }
            k = k + 1;
        }
        proof {
            assert(strs(targets@).take(targets@.len() as int) =~= strs(targets@));
        }
        result
    }

    /// Lists the processes that hold a socket bound to `port`, each once.
    pub fn port_ls(&mut self, port: String, snapshot: &Snapshot) -> (r: Option<Vec<Fdinfo>>)
        ensures
            match r {
                Some(list) => {
                    &&& list@.len() > 0
                    &&& valid_index(list@)
                    &&& index_view(list@) == port_index(*snapshot, port@)
                },
                None => port_index(*snapshot, port@) == Map::<Seq<char>, FdinfoView>::empty(),
            },
    {
        let procs = match &snapshot.procs {
            None => {
                return None;
            },
            Some(procs) => procs,
        };
        let targets = match self.get_port_info(&snapshot.sockets, port.as_str()) {
            None => {
                proof {
                    assert(port_targets(snapshot.sockets, port@) =~= Seq::empty());
                    assert(port_index(*snapshot, port@) =~= Map::empty());
                }
                return None;
            },
            Some(targets) => targets,
        };
        let result = self.scan_targets(&targets, procs);
        if result.len() == 0 {
            None
        } else {
            Some(result)
        }
    }
}

} // verus!
