//! The in-memory model of a decoded master file table, and the specification
//! of the ancestor-chain walk.
//!
//! Each record stores its name and a back-reference to its parent record,
//! never a full path. `ancestor_chain` is the mathematical account of the
//! walk: it follows parent references until the table's root sentinel, with a
//! fuel bound. Any chain that reaches the root visits pairwise distinct
//! records of the table, so a fuel equal to the table's record count decides
//! every resolvable chain; a chain still unfinished at that depth can only be
//! a parent-reference cycle and counts as unresolved.

use std::collections::HashMap;
use vstd::prelude::*;

use crate::path_spec::{join, names_of, path_from};

verus! {

broadcast use vstd::std_specs::hash::group_hash_axioms;

/// The volume a table was decoded from. Only its root path matters to path
/// resolution: it is the prefix of every resolved path.
pub struct Volume {
    pub path: String,
}

/// The best file-name attribute of a record: a display name and the
/// back-reference to the parent record.
pub struct FileNameAttribute {
    pub name: String,
    pub parent: u64,
}

/// One decoded attribute of a record, reduced to what the resolver reads:
/// standard-information carries the NTFS timestamps (100 ns ticks since
/// 1601-01-01), a data attribute carries its length, stored inline (resident)
/// or out of line (non-resident). Every other attribute kind is `Other`.
#[derive(Clone, Copy)]
pub enum NtfsAttribute {
    StandardInformation { creation_time: u64, access_time: u64, modification_time: u64 },
    ResidentData { value_length: u32 },
    NonResidentData { data_size: u64 },
    Other,
}

/// One record of the master file table.
pub struct NtfsFile {
    pub number: u64,
    pub sequence_value: u16,
    pub is_directory: bool,
    pub file_name: Option<FileNameAttribute>,
    pub attributes: Vec<NtfsAttribute>,
}

/// The decoded master file table: records addressable by record number, the
/// volume they came from, and the root sentinel. A parent reference equal to
/// `root_record` means "this record sits in the filesystem root".
pub struct Mft {
    pub records: HashMap<u64, NtfsFile>,
    pub volume: Volume,
    pub root_record: u64,
}

impl Mft {
    /// Every record number is addressable: the index-addressed cache stores a
    /// path at the index given by the record number.
    pub open spec fn wf(&self) -> bool {
        forall|n: u64| self.records@.contains_key(n) ==> n < usize::MAX as u64
    }

    /// `file` is the table's record for its own record number.
    pub open spec fn contains_record(&self, file: NtfsFile) -> bool {
        &&& self.records@.contains_key(file.number)
        &&& self.records@[file.number] == file
    }

    /// An empty table for the given volume and root sentinel.
    pub fn new(volume: Volume, root_record: u64) -> (mft: Mft)
        ensures
            mft.records@ == Map::<u64, NtfsFile>::empty(),
            mft.volume == volume,
            mft.root_record == root_record,
    {
        Mft { records: HashMap::new(), volume, root_record }
    }

    /// Adds (or replaces) the record stored under `file.number`.
    pub fn add_record(&mut self, file: NtfsFile)
        requires
            file.number < usize::MAX as u64,
        ensures
            final(self).records@ == old(self).records@.insert(file.number, file),
            final(self).volume == old(self).volume,
            final(self).root_record == old(self).root_record,
            old(self).wf() ==> final(self).wf(),
    {
        self.records.insert(file.number, file);
    }

    /// Random-access lookup of a record by record number.
    pub fn get_record(&self, number: u64) -> (r: Option<&NtfsFile>)
        ensures
            match r {
                Some(file) => self.records@.contains_key(number) && *file
                    == self.records@[number],
                None => !self.records@.contains_key(number),
            },
    {
        self.records.get(&number)
    }
}

/// The ancestor chain hanging off the parent reference `parent`: the entries
/// `(record number, name)` of every ancestor, outermost first, ending with
/// the record `parent` refers to. `None` when a referenced record is missing
/// from the table, has no name attribute, or the chain is still unfinished
/// when the fuel runs out.
pub open spec fn ancestor_chain(
    records: Map<u64, NtfsFile>,
    root: u64,
    parent: u64,
    fuel: nat,
) -> Option<Seq<(u64, Seq<char>)>>
    decreases fuel,
{
    if parent == root {
        Some(Seq::empty())
    } else if fuel == 0 {
        None
    } else if !records.contains_key(parent) {
        None
    } else {
        match records[parent].file_name {
            None => None,
            Some(att) => match ancestor_chain(records, root, att.parent, (fuel - 1) as nat) {
                None => None,
                Some(c) => Some(c.push((parent, att.name@))),
            },
        }
    }
}

/// A resolved chain stays the same under any larger fuel.
pub proof fn lemma_chain_fuel_monotonic(
    records: Map<u64, NtfsFile>,
    root: u64,
    parent: u64,
    f1: nat,
    f2: nat,
)
    requires
        ancestor_chain(records, root, parent, f1) is Some,
        f1 <= f2,
    ensures
        ancestor_chain(records, root, parent, f2) == ancestor_chain(records, root, parent, f1),
    decreases f1,
{
    if parent != root {
        let att = records[parent].file_name->0;
        lemma_chain_fuel_monotonic(records, root, att.parent, (f1 - 1) as nat, (f2 - 1) as nat);
    }
}

/// A resolved chain is already resolved by a fuel equal to its own length.
pub proof fn lemma_chain_min_fuel(records: Map<u64, NtfsFile>, root: u64, parent: u64, f: nat)
    requires
        ancestor_chain(records, root, parent, f) is Some,
    ensures
        ancestor_chain(records, root, parent, ancestor_chain(records, root, parent, f)->0.len())
            == ancestor_chain(records, root, parent, f),
    decreases f,
{
    if parent != root {
        let att = records[parent].file_name->0;
        lemma_chain_min_fuel(records, root, att.parent, (f - 1) as nat);
    }
}

/// A chain is never longer than the fuel that resolved it.
pub proof fn lemma_chain_len_le_fuel(records: Map<u64, NtfsFile>, root: u64, parent: u64, f: nat)
    requires
        ancestor_chain(records, root, parent, f) is Some,
    ensures
        ancestor_chain(records, root, parent, f)->0.len() <= f,
    decreases f,
{
    if parent != root {
        let att = records[parent].file_name->0;
        lemma_chain_len_le_fuel(records, root, att.parent, (f - 1) as nat);
    }
}

/// Every entry of a resolved chain is a named record of the table, distinct
/// from the root sentinel, and the chain up to and including that entry is
/// itself resolvable with fuel equal to its length.
pub proof fn lemma_chain_entry(
    records: Map<u64, NtfsFile>,
    root: u64,
    parent: u64,
    f: nat,
    i: int,
)
    requires
        ancestor_chain(records, root, parent, f) is Some,
        0 <= i < ancestor_chain(records, root, parent, f)->0.len(),
    ensures
        ({
            let c = ancestor_chain(records, root, parent, f)->0;
            &&& records.contains_key(c[i].0)
            &&& c[i].0 != root
            &&& records[c[i].0].file_name is Some
            &&& records[c[i].0].file_name->0.name@ == c[i].1
            &&& ancestor_chain(records, root, c[i].0, (i + 1) as nat) == Some(c.take(i + 1))
        }),
    decreases f,
{
    let c = ancestor_chain(records, root, parent, f)->0;
    let att = records[parent].file_name->0;
    let c0 = ancestor_chain(records, root, att.parent, (f - 1) as nat)->0;
    if i < c0.len() {
        lemma_chain_entry(records, root, att.parent, (f - 1) as nat, i);
        assert(c.take(i + 1) =~= c0.take(i + 1));
    } else {
        lemma_chain_min_fuel(records, root, parent, f);
        lemma_chain_len_le_fuel(records, root, att.parent, (f - 1) as nat);
        assert(c.take(i + 1) =~= c);
    }
}

/// The record numbers of a resolved chain are pairwise distinct: the walk is
/// deterministic, so a repeated record would cycle and never reach the root.
pub proof fn lemma_chain_no_duplicates(
    records: Map<u64, NtfsFile>,
    root: u64,
    parent: u64,
    f: nat,
)
    requires
        ancestor_chain(records, root, parent, f) is Some,
    ensures
        ({
            let c = ancestor_chain(records, root, parent, f)->0;
            forall|i: int, j: int| 0 <= i < j < c.len() ==> c[i].0 != c[j].0
        }),
{
    let c = ancestor_chain(records, root, parent, f)->0;
    assert forall|i: int, j: int| 0 <= i < j < c.len() implies c[i].0 != c[j].0 by {
        if c[i].0 == c[j].0 {
            lemma_chain_entry(records, root, parent, f, i);
            lemma_chain_entry(records, root, parent, f, j);
            lemma_chain_fuel_monotonic(records, root, c[i].0, (i + 1) as nat, (j + 1) as nat);
            assert(c.take(i + 1).len() == c.take(j + 1).len());
        }
    }
}

/// A resolved chain visits pairwise distinct records of the table, so it is
/// never longer than the table's record count.
pub proof fn lemma_chain_len_bound(records: Map<u64, NtfsFile>, root: u64, parent: u64, f: nat)
    requires
        ancestor_chain(records, root, parent, f) is Some,
        records.dom().finite(),
    ensures
        ancestor_chain(records, root, parent, f)->0.len() <= records.dom().len(),
{
    broadcast use vstd::seq_lib::seq_to_set_is_finite;

    let c = ancestor_chain(records, root, parent, f)->0;
    let nums = Seq::new(c.len(), |i: int| c[i].0);
    lemma_chain_no_duplicates(records, root, parent, f);
    assert(nums.no_duplicates());
    nums.unique_seq_to_set();
    assert forall|x: u64| nums.to_set().contains(x) implies records.dom().contains(x) by {
        let i = choose|i: int| 0 <= i < nums.len() && nums[i] == x;
        lemma_chain_entry(records, root, parent, f, i);
    }
    assert(nums.to_set().subset_of(records.dom()));
    vstd::set_lib::lemma_len_subset(nums.to_set(), records.dom());
}

/// The facts the executable walk gathers while it follows parent references
/// from `start`: `entries` are the records it visited (innermost first, so in
/// the reverse of chain order), each a named record of the table whose name
/// attribute points at the next visited record, and `next` is the parent
/// reference it stopped at.
pub open spec fn walk_links(
    records: Map<u64, NtfsFile>,
    root: u64,
    entries: Seq<(u64, Seq<char>)>,
    start: u64,
    next: u64,
) -> bool {
    &&& (if entries.len() == 0 {
        next == start
    } else {
        entries[0].0 == start
    })
    &&& forall|j: int|
        0 <= j < entries.len() ==> {
            let e = #[trigger] entries[j];
            &&& records.contains_key(e.0)
            &&& e.0 != root
            &&& records[e.0].file_name is Some
            &&& records[e.0].file_name->0.name@ == e.1
            &&& records[e.0].file_name->0.parent == (if j + 1 < entries.len() {
                entries[j + 1].0
            } else {
                next
            })
        }
}

/// Extends a resolved chain by a prefix of entries, or keeps a failure.
pub open spec fn opt_extend(
    prefix: Option<Seq<(u64, Seq<char>)>>,
    tail: Seq<(u64, Seq<char>)>,
) -> Option<Seq<(u64, Seq<char>)>> {
    match prefix {
        None => None,
        Some(c) => Some(c + tail),
    }
}

/// What the walk already gathered determines the chain from `start`: it is
/// the chain from the stopping point `next` (under the fuel that remains),
/// extended by the gathered entries in reverse.
pub proof fn lemma_walk_decompose(
    records: Map<u64, NtfsFile>,
    root: u64,
    entries: Seq<(u64, Seq<char>)>,
    start: u64,
    next: u64,
    f: nat,
)
    requires
        walk_links(records, root, entries, start, next),
        f >= entries.len(),
    ensures
        ancestor_chain(records, root, start, f) == opt_extend(
            ancestor_chain(records, root, next, (f - entries.len()) as nat),
            entries.reverse(),
        ),
    decreases entries.len(),
{
    if entries.len() == 0 {
        if let Some(c) = ancestor_chain(records, root, next, f) {
            assert(c + entries.reverse() =~= c);
        }
    } else {
        let first = entries[0];
        let p2 = if entries.len() > 1 {
            entries[1].0
        } else {
            next
        };
        assert(walk_links(records, root, entries.drop_first(), p2, next)) by {
            assert forall|j: int| 0 <= j < entries.drop_first().len() implies {
                let e = #[trigger] entries.drop_first()[j];
                &&& records.contains_key(e.0)
                &&& e.0 != root
                &&& records[e.0].file_name is Some
                &&& records[e.0].file_name->0.name@ == e.1
                &&& records[e.0].file_name->0.parent == (if j + 1 < entries.drop_first().len() {
                    entries.drop_first()[j + 1].0
                } else {
                    next
                })
            } by {
                assert(entries.drop_first()[j] == entries[j + 1]);
                assert(entries[j + 1] == entries[j + 1]);
            }
        }
        lemma_walk_decompose(records, root, entries.drop_first(), p2, next, (f - 1) as nat);
        match ancestor_chain(records, root, next, (f - entries.len()) as nat) {
            None => {},
            Some(cn) => {
                assert((cn + entries.drop_first().reverse()).push((first.0, first.1)) =~= cn
                    + entries.reverse());
                assert(first == (first.0, first.1));
            },
        }
    }
}

/// The other direction: a chain resolved at the stopping point composes with
/// the gathered entries into a resolved chain from `start`.
pub proof fn lemma_walk_compose(
    records: Map<u64, NtfsFile>,
    root: u64,
    entries: Seq<(u64, Seq<char>)>,
    start: u64,
    next: u64,
    f: nat,
)
    requires
        walk_links(records, root, entries, start, next),
        ancestor_chain(records, root, next, f) is Some,
    ensures
        ancestor_chain(records, root, start, (f + entries.len()) as nat) == Some(
            ancestor_chain(records, root, next, f)->0 + entries.reverse(),
        ),
    decreases entries.len(),
{
    let c = ancestor_chain(records, root, next, f)->0;
    if entries.len() == 0 {
        assert(c + entries.reverse() =~= c);
    } else {
        let last = entries.last();
        assert(walk_links(records, root, entries.drop_last(), start, last.0)) by {
            assert forall|j: int| 0 <= j < entries.drop_last().len() implies {
                let e = #[trigger] entries.drop_last()[j];
                &&& records.contains_key(e.0)
                &&& e.0 != root
                &&& records[e.0].file_name is Some
                &&& records[e.0].file_name->0.name@ == e.1
                &&& records[e.0].file_name->0.parent == (if j + 1 < entries.drop_last().len() {
                    entries.drop_last()[j + 1].0
                } else {
                    last.0
                })
            } by {
                assert(entries.drop_last()[j] == entries[j]);
                if j + 1 < entries.drop_last().len() {
                    assert(entries.drop_last()[j + 1] == entries[j + 1]);
                } else {
                    assert(entries[j + 1] == last);
                }
            }
        }
        assert(ancestor_chain(records, root, last.0, (f + 1) as nat) == Some(
            c.push((last.0, last.1)),
        )) by {
            assert(records[last.0].file_name->0.parent == next);
            assert(last == (last.0, last.1));
        }
        lemma_walk_compose(records, root, entries.drop_last(), start, last.0, (f + 1) as nat);
        assert(c.push((last.0, last.1)) + entries.drop_last().reverse() =~= c
            + entries.reverse());
    }
}

/// The display name resolution yields for a record: the name of its best
/// file-name attribute, or empty if it has none.
pub open spec fn resolved_name_of(file: NtfsFile) -> Seq<char> {
    match file.file_name {
        None => Seq::empty(),
        Some(att) => att.name@,
    }
}

/// The absolute path resolution yields for a record of the table whose
/// volume root path is `root_path` and whose root sentinel is `root`: the
/// root path, then every ancestor name outermost first, then the record's
/// own name — or empty when the record has no name attribute or its ancestor
/// chain does not resolve within the table's record count.
pub open spec fn resolved_path_of(
    records: Map<u64, NtfsFile>,
    root: u64,
    root_path: Seq<char>,
    file: NtfsFile,
) -> Seq<char> {
    match file.file_name {
        None => Seq::empty(),
        Some(att) => match ancestor_chain(records, root, att.parent, records.dom().len()) {
            None => Seq::empty(),
            Some(c) => join(path_from(root_path, names_of(c)), att.name@),
        },
    }
}

/// The path under which a record number is cached: the resolved path of the
/// table's record of that number, if it resolves.
pub open spec fn record_path(
    records: Map<u64, NtfsFile>,
    root: u64,
    root_path: Seq<char>,
    number: u64,
) -> Option<Seq<char>> {
    if !records.contains_key(number) {
        None
    } else {
        match records[number].file_name {
            None => None,
            Some(att) => match ancestor_chain(records, root, att.parent, records.dom().len()) {
                None => None,
                Some(c) => Some(join(path_from(root_path, names_of(c)), att.name@)),
            },
        }
    }
}

} // verus!
