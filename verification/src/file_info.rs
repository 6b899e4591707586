//! The resolved view of one file record: the 64-bit file identity, the
//! attribute scan, and the ancestor-chain walk that assembles the record's
//! absolute path, with and without a memoizing cache.

use vstd::prelude::*;
use vstd::string::StrSliceExecFns;
use vstd::string::StringExecFns;

use crate::cache::{cache_valid, FileInfoCache};
use crate::mft::{
    ancestor_chain, lemma_chain_entry, lemma_chain_len_bound, lemma_chain_min_fuel,
    lemma_chain_fuel_monotonic, lemma_walk_compose, lemma_walk_decompose, record_path,
    resolved_name_of, resolved_path_of, walk_links, Mft, NtfsAttribute, NtfsFile,
};
use crate::path_spec::{join, lemma_path_from_push, names_of, path_from};

verus! {

broadcast use vstd::std_specs::hash::group_hash_axioms;

/// The packed 64-bit identity of a file: the low 48 bits are the record
/// number, the high 16 bits the reuse-sequence number. This is the identity
/// format used by change-journal streams, so both subsystems can correlate
/// the same file.
pub open spec fn spec_file_id(record_number: u64, sequence_number: u16) -> u64 {
    (record_number & 0x0000_FFFF_FFFF_FFFF) | ((sequence_number as u64) << 48)
}

/// The timestamps of the last standard-information attribute in `attrs`
/// (creation, access, modification, in NTFS ticks), or nothing if no such
/// attribute occurs: a scan that overwrites on every hit keeps the last.
pub open spec fn spec_timestamps(attrs: Seq<NtfsAttribute>) -> Option<(u64, u64, u64)>
    decreases attrs.len(),
{
    if attrs.len() == 0 {
        None
    } else {
        match attrs.last() {
            NtfsAttribute::StandardInformation { creation_time, access_time, modification_time } =>
                Some((creation_time, access_time, modification_time)),
            _ => spec_timestamps(attrs.drop_last()),
        }
    }
}

/// The size carried by the last data attribute in `attrs` — its resident
/// value length or non-resident data size — or zero if no data attribute
/// occurs.
pub open spec fn spec_data_size(attrs: Seq<NtfsAttribute>) -> u64
    decreases attrs.len(),
{
    if attrs.len() == 0 {
        0
    } else {
        match attrs.last() {
            NtfsAttribute::ResidentData { value_length } => value_length as u64,
            NtfsAttribute::NonResidentData { data_size } => data_size,
            _ => spec_data_size(attrs.drop_last()),
        }
    }
}

/// An NTFS timestamp (100 ns ticks since 1601-01-01) as Unix seconds.
pub open spec fn spec_ntfs_to_unix_time(ntfs_time: u64) -> i64 {
    (ntfs_time as int / 10_000_000 - 11_644_473_600) as i64
}

/// Converts an NTFS timestamp in 100 ns ticks since 1601-01-01 into Unix
/// seconds (seconds since 1970-01-01, negative for earlier instants).
pub fn ntfs_to_unix_time(ntfs_time: u64) -> (unix: i64)
    ensures
        unix == spec_ntfs_to_unix_time(ntfs_time),
{
    let seconds = ntfs_time / 10_000_000;
    assert(seconds <= u64::MAX / 10_000_000) by (nonlinear_arith)
        requires
            seconds == ntfs_time / 10_000_000,
    ;
    (seconds as i64) - 11_644_473_600
}

/// The view of the component list the walk gathers: record numbers paired
/// with name views.
pub open spec fn entries_view(components: Seq<(u64, String)>) -> Seq<(u64, Seq<char>)> {
    Seq::new(components.len(), |i: int| (components[i].0, components[i].1@))
}

/// `info` carries the identity, directory flag, size and timestamps of
/// `file`, as the attribute scan reads them.
pub open spec fn describes_record(info: FileInfo, file: NtfsFile) -> bool {
    &&& info.file_id == spec_file_id(file.number, file.sequence_value)
    &&& info.is_directory == file.is_directory
    &&& info.size == spec_data_size(file.attributes@)
    &&& (match spec_timestamps(file.attributes@) {
        Some(t) => {
            &&& info.created == Some(spec_ntfs_to_unix_time(t.0))
            &&& info.accessed == Some(spec_ntfs_to_unix_time(t.1))
            &&& info.modified == Some(spec_ntfs_to_unix_time(t.2))
        },
        None => {
            &&& info.created is None
            &&& info.accessed is None
            &&& info.modified is None
        },
    })
}

/// What a cache-backed resolution of `file` leaves in the cache. On failure
/// the cache is unchanged. On success it holds an entry for the record
/// itself, and one for every ancestor the walk visited: every chain entry
/// below the deepest previously cached one (an entry can only be missing
/// where a cache hit at or above it cut the walk short). And it holds
/// nothing else: every key is an old key, an ancestor on the record's
/// chain, or the record itself.
pub open spec fn cache_covers_walk(
    records: Map<u64, NtfsFile>,
    root: u64,
    file: NtfsFile,
    before: Map<u64, Seq<char>>,
    after: Map<u64, Seq<char>>,
) -> bool {
    match file.file_name {
        None => after == before,
        Some(att) => match ancestor_chain(records, root, att.parent, records.dom().len()) {
            None => after == before,
            Some(c) => {
                &&& after.contains_key(file.number)
                &&& forall|i: int|
                    0 <= i < c.len() ==> after.contains_key(#[trigger] c[i].0) || exists|j: int|
                        i <= j < c.len() && before.contains_key(#[trigger] c[j].0)
                &&& forall|n: u64|
                    #[trigger] after.contains_key(n) ==> before.contains_key(n) || n
                        == file.number || exists|i: int| 0 <= i < c.len() && (#[trigger] c[i]).0
                        == n
            },
        },
    }
}

/// Joins one path component onto a base path with `'\\'`, without doubling
/// a separator the base already ends in.
fn join_path(base: &String, comp: &String) -> (r: String)
    ensures
        r@ == join(base@, comp@),
{
    let len = base.as_str().unicode_len();
    if len == 0 {
        comp.clone()
    } else {
        let last = base.as_str().get_char(len - 1);
        let mut r = base.clone();
        if last != '\\' {
            r.append("\\");
            proof {
                reveal_strlit("\\");
                assert(r@ =~= base@ + seq!['\\']);
            }
        }
        r.append(comp.as_str());
        proof {
            if last != '\\' {
                assert(r@ =~= base@ + seq!['\\'] + comp@);
            }
        }
        r
    }
}

/// Whether `s` begins with `prefix`, character by character: callers scan a
/// table and keep the records whose name carries a wanted prefix.
pub fn str_starts_with(s: &str, prefix: &str) -> (r: bool)
    ensures
        r == (prefix@.len() <= s@.len() && s@.take(prefix@.len() as int) == prefix@),
{
    let n = s.unicode_len();
    let m = prefix.unicode_len();
    if m > n {
        return false;
    }
    let mut i: usize = 0;
    while i < m
        invariant
            i <= m,
            m <= n,
            n == s@.len(),
            m == prefix@.len(),
            forall|j: int| 0 <= j < i ==> s@[j] == prefix@[j],
        decreases m - i,
    {
        if s.get_char(i) != prefix.get_char(i) {
            proof {
                assert(s@.take(m as int)[i as int] != prefix@[i as int]);
            }
            return false;
        }
        i = i + 1;
    }
    proof {
        assert(s@.take(m as int) =~= prefix@);
    }
    true
}

/// The resolved view of one record: identity, name and absolute path (both
/// empty if resolution failed), directory flag, size in bytes, and the
/// optional timestamps of the standard-information attribute, as Unix
/// seconds (absent if that attribute was not found).
#[derive(Debug)]
pub struct FileInfo {
    pub file_id: u64,
    pub name: String,
    pub path: String,
    pub is_directory: bool,
    pub size: u64,
    pub created: Option<i64>,
    pub accessed: Option<i64>,
    pub modified: Option<i64>,
}

impl FileInfo {
    /// Packs a record number (low 48 bits; higher bits are silently masked
    /// off) and a sequence number (high 16 bits) into one 64-bit identity.
    pub fn create_file_id(mft_record_number: u64, sequence_number: u16) -> (id: u64)
        ensures
            id == spec_file_id(mft_record_number, sequence_number),
    {
        let mft_number = mft_record_number & 0x0000_FFFF_FFFF_FFFF;
        let sequence = (sequence_number as u64) << 48;
        mft_number | sequence
    }

    /// Scans the record's attributes (a later attribute of the same kind
    /// overwrites an earlier one) and builds the record's view with an empty
    /// name and path.
    fn init_info(file: &NtfsFile) -> (info: FileInfo)
        ensures
            describes_record(info, *file),
            info.name@ == Seq::<char>::empty(),
            info.path@ == Seq::<char>::empty(),
    {
        let mut accessed: Option<i64> = None;
        let mut created: Option<i64> = None;
        let mut modified: Option<i64> = None;
        let mut size: u64 = 0;

        let mut i: usize = 0;
        while i < file.attributes.len()
            invariant
                i <= file.attributes@.len(),
                size == spec_data_size(file.attributes@.take(i as int)),
                (match spec_timestamps(file.attributes@.take(i as int)) {
                    Some(t) => {
                        &&& created == Some(spec_ntfs_to_unix_time(t.0))
                        &&& accessed == Some(spec_ntfs_to_unix_time(t.1))
                        &&& modified == Some(spec_ntfs_to_unix_time(t.2))
                    },
                    None => created is None && accessed is None && modified is None,
                }),
            decreases file.attributes@.len() - i,
        {
            let att = file.attributes[i];
            proof {
                assert(file.attributes@.take(i + 1).drop_last() =~= file.attributes@.take(
                    i as int,
                ));
                assert(file.attributes@.take(i + 1).last() == file.attributes@[i as int]);
            }
            match att {
                NtfsAttribute::StandardInformation {
                    creation_time,
                    access_time,
                    modification_time,
                } => {
                    accessed = Some(ntfs_to_unix_time(access_time));
                    created = Some(ntfs_to_unix_time(creation_time));
                    modified = Some(ntfs_to_unix_time(modification_time));
                },
                NtfsAttribute::ResidentData { value_length } => {
                    size = value_length as u64;
                },
                NtfsAttribute::NonResidentData { data_size } => {
                    size = data_size;
                },
                NtfsAttribute::Other => {},
            }
            i = i + 1;
        }
        proof {
            assert(file.attributes@.take(file.attributes@.len() as int) =~= file.attributes@);
        }

        let file_id = Self::create_file_id(file.number, file.sequence_value);
        FileInfo {
            file_id,
            name: String::new(),
            path: String::new(),
            is_directory: file.is_directory,
            size,
            created,
            accessed,
            modified,
        }
    }

    /// Walks the ancestor chain of `file` through the table and assembles
    /// its absolute path. On a missing name attribute, a missing ancestor
    /// record, or a parent-reference chain still unfinished after as many
    /// steps as the table has records (a cycle), the walk stops and the path
    /// stays empty; the record's own name, once found, is kept.
    #[verifier::loop_isolation(false)]
    fn compute_path(&mut self, mft: &Mft, file: &NtfsFile)
        requires
            old(self).name@ == Seq::<char>::empty(),
            old(self).path@ == Seq::<char>::empty(),
        ensures
            final(self).name@ == resolved_name_of(*file),
            final(self).path@ == resolved_path_of(
                mft.records@,
                mft.root_record,
                mft.volume.path@,
                *file,
            ),
            final(self).file_id == old(self).file_id,
            final(self).is_directory == old(self).is_directory,
            final(self).size == old(self).size,
            final(self).created == old(self).created,
            final(self).accessed == old(self).accessed,
            final(self).modified == old(self).modified,
    {
        let ghost m = mft.records@;
        let ghost root = mft.root_record;

        let name_att = match &file.file_name {
            None => {
                return ;
            },
            Some(att) => att,
        };
        self.name = name_att.name.clone();

        let ghost start_parent = name_att.parent;
        let mut next_parent: u64 = name_att.parent;
        let mut components: Vec<(u64, String)> = Vec::new();
        let fuel = mft.records.len();
        let mut steps: usize = 0;

        while next_parent != mft.root_record
            invariant
                steps <= fuel,
                steps == components@.len(),
                walk_links(m, root, entries_view(components@), start_parent, next_parent),
            decreases fuel - steps,
        {
            if steps == fuel {
                proof {
                    lemma_walk_decompose(
                        m,
                        root,
                        entries_view(components@),
                        start_parent,
                        next_parent,
                        fuel as nat,
                    );
                }
                return ;
            }
            let rec = match mft.get_record(next_parent) {
                None => {
                    proof {
                        lemma_walk_decompose(
                            m,
                            root,
                            entries_view(components@),
                            start_parent,
                            next_parent,
                            fuel as nat,
                        );
                    }
                    return ;
                },
                Some(r) => r,
            };
            let att = match &rec.file_name {
                None => {
                    proof {
                        lemma_walk_decompose(
                            m,
                            root,
                            entries_view(components@),
                            start_parent,
                            next_parent,
                            fuel as nat,
                        );
                    }
                    return ;
                },
                Some(a) => a,
            };
            let ghost pre = components@;
            components.push((next_parent, att.name.clone()));
            proof {
                assert(entries_view(components@) =~= entries_view(pre).push(
                    (next_parent, att.name@),
                ));
            }
            next_parent = att.parent;
            steps = steps + 1;
        }

        proof {
            lemma_walk_decompose(
                m,
                root,
                entries_view(components@),
                start_parent,
                next_parent,
                fuel as nat,
            );
        }
        let ghost full = entries_view(components@).reverse();
        let ghost base0 = mft.volume.path@;

        let mut path = mft.volume.path.clone();
        let mut i: usize = components.len();
        while i > 0
            invariant
                i <= components@.len(),
                full == entries_view(components@).reverse(),
                full.len() == components@.len(),
                path@ == path_from(base0, names_of(full.take(full.len() - i))),
            decreases i,
        {
            i = i - 1;
            let ghost j = full.len() - i - 1;
            path = join_path(&path, &components[i].1);
            proof {
                assert(full[j] == (components@[i as int].0, components@[i as int].1@));
                assert(names_of(full.take(j + 1)) =~= names_of(full.take(j)).push(
                    components@[i as int].1@,
                ));
                lemma_path_from_push(base0, names_of(full.take(j)), components@[i as int].1@);
            }
        }

        let resolved = join_path(&path, &self.name);
        proof {
            assert(full.take(full.len() as int) =~= full);
        }
        self.path = resolved;
    }

    /// Walks the ancestor chain of `file` as `compute_path` does, but stops
    /// early at any ancestor whose path the cache already holds, and inserts
    /// into the cache the cumulative path of every ancestor it visited, and
    /// of the record itself.
    #[verifier::rlimit(100)]
    fn compute_path_with_cache<C: FileInfoCache>(
        &mut self,
        mft: &Mft,
        file: &NtfsFile,
        cache: &mut C,
    )
        requires
            old(self).name@ == Seq::<char>::empty(),
            old(self).path@ == Seq::<char>::empty(),
            mft.wf(),
            mft.contains_record(*file),
            cache_valid(old(cache).cache_view(), mft.records@, mft.root_record, mft.volume.path@),
        ensures
            final(self).name@ == resolved_name_of(*file),
            final(self).path@ == resolved_path_of(
                mft.records@,
                mft.root_record,
                mft.volume.path@,
                *file,
            ),
            final(self).file_id == old(self).file_id,
            final(self).is_directory == old(self).is_directory,
            final(self).size == old(self).size,
            final(self).created == old(self).created,
            final(self).accessed == old(self).accessed,
            final(self).modified == old(self).modified,
            cache_valid(
                final(cache).cache_view(),
                mft.records@,
                mft.root_record,
                mft.volume.path@,
            ),
            old(cache).cache_view().dom().subset_of(final(cache).cache_view().dom()),
            cache_covers_walk(
                mft.records@,
                mft.root_record,
                *file,
                old(cache).cache_view(),
                final(cache).cache_view(),
            ),
    {
        let ghost m = mft.records@;
        let ghost root = mft.root_record;
        let ghost root_path = mft.volume.path@;

        let name_att = match &file.file_name {
            None => {
                return ;
            },
            Some(att) => att,
        };
        self.name = name_att.name.clone();

        let ghost start_parent = name_att.parent;
        let mut next_parent: u64 = name_att.parent;
        let mut components: Vec<(u64, String)> = Vec::new();
        let fuel = mft.records.len();
        let mut steps: usize = 0;
        let mut cached_path: Option<String> = None;

        loop
            invariant_except_break
                cached_path is None,
            invariant
                m == mft.records@,
                root == mft.root_record,
                root_path == mft.volume.path@,
                fuel == m.dom().len(),
                mft.wf(),
                mft.contains_record(*file),
                file.file_name is Some,
                start_parent == file.file_name->0.parent,
                *self == (FileInfo { name: file.file_name->0.name, ..*old(self) }),
                old(self).name@ == Seq::<char>::empty(),
                old(self).path@ == Seq::<char>::empty(),
                cache.cache_view() == old(cache).cache_view(),
                cache_valid(old(cache).cache_view(), m, root, root_path),
                steps <= fuel,
                steps == components@.len(),
                walk_links(m, root, entries_view(components@), start_parent, next_parent),
            ensures
                steps <= fuel,
                steps == components@.len(),
                walk_links(m, root, entries_view(components@), start_parent, next_parent),
                cache.cache_view() == old(cache).cache_view(),
                (match cached_path {
                    None => next_parent == root,
                    Some(cp) => {
                        &&& next_parent != root
                        &&& old(cache).cache_view().contains_key(next_parent)
                        &&& cp@ == old(cache).cache_view()[next_parent]
                    },
                }),
            decreases fuel - steps,
        {
            if next_parent == mft.root_record {
                break ;
            }
            if steps == fuel {
                proof {
                    lemma_walk_decompose(
                        m,
                        root,
                        entries_view(components@),
                        start_parent,
                        next_parent,
                        fuel as nat,
                    );
                }
                return ;
            }
            match cache.get(next_parent) {
                Some(p) => {
                    cached_path = Some(p.clone());
                    break ;
                },
                None => {},
            }
            let rec = match mft.get_record(next_parent) {
                None => {
                    proof {
                        lemma_walk_decompose(
                            m,
                            root,
                            entries_view(components@),
                            start_parent,
                            next_parent,
                            fuel as nat,
                        );
                    }
                    return ;
                },
                Some(r) => r,
            };
            let att = match &rec.file_name {
                None => {
                    proof {
                        lemma_walk_decompose(
                            m,
                            root,
                            entries_view(components@),
                            start_parent,
                            next_parent,
                            fuel as nat,
                        );
                    }
                    return ;
                },
                Some(a) => a,
            };
            let ghost pre = components@;
            components.push((next_parent, att.name.clone()));
            proof {
                assert(entries_view(components@) =~= entries_view(pre).push(
                    (next_parent, att.name@),
                ));
            }
            next_parent = att.parent;
            steps = steps + 1;
        }

        let ghost rev = entries_view(components@).reverse();
        let ghost full = if cached_path is Some {
            let atth = m[next_parent].file_name->0;
            ancestor_chain(m, root, atth.parent, m.dom().len())->0.push(
                (next_parent, atth.name@),
            ) + rev
        } else {
            rev
        };
        let ghost prefix_len = full.len() - components@.len();

        proof {
            if cached_path is Some {
                let atth = m[next_parent].file_name->0;
                let ca = ancestor_chain(m, root, atth.parent, m.dom().len())->0;
                lemma_chain_min_fuel(m, root, atth.parent, m.dom().len());
                assert(ancestor_chain(m, root, next_parent, (ca.len() + 1) as nat) == Some(
                    ca.push((next_parent, atth.name@)),
                ));
                lemma_walk_compose(
                    m,
                    root,
                    entries_view(components@),
                    start_parent,
                    next_parent,
                    (ca.len() + 1) as nat,
                );
                assert(ancestor_chain(m, root, start_parent, (ca.len() + 1 + steps) as nat)
                    == Some(full));
                lemma_chain_len_bound(m, root, start_parent, (ca.len() + 1 + steps) as nat);
                lemma_chain_min_fuel(m, root, start_parent, (ca.len() + 1 + steps) as nat);
                lemma_chain_fuel_monotonic(m, root, start_parent, full.len(), m.dom().len());
                assert(ancestor_chain(m, root, start_parent, m.dom().len()) == Some(full));
                lemma_path_from_push(root_path, names_of(ca), atth.name@);
                assert(names_of(ca.push((next_parent, atth.name@))) =~= names_of(ca).push(
                    atth.name@,
                ));
                assert(full.take(prefix_len) =~= ca.push((next_parent, atth.name@)));
                assert(full.skip(prefix_len) =~= rev);
            } else {
                lemma_walk_decompose(
                    m,
                    root,
                    entries_view(components@),
                    start_parent,
                    next_parent,
                    fuel as nat,
                );
                assert(ancestor_chain(m, root, start_parent, m.dom().len()) == Some(full));
                assert(full.take(prefix_len) =~= Seq::<(u64, Seq<char>)>::empty());
                assert(names_of(full.take(prefix_len)) =~= Seq::<Seq<char>>::empty());
                assert(full.skip(prefix_len) =~= rev);
            }
        }

        let mut path: String = match &cached_path {
            Some(cp) => cp.clone(),
            None => mft.volume.path.clone(),
        };
        proof {
            assert(path@ == path_from(root_path, names_of(full.take(prefix_len))));
        }

        let mut i: usize = components.len();
        while i > 0
            invariant
                m == mft.records@,
                root == mft.root_record,
                root_path == mft.volume.path@,
                mft.wf(),
                mft.contains_record(*file),
                file.file_name is Some,
                start_parent == file.file_name->0.parent,
                *self == (FileInfo { name: file.file_name->0.name, ..*old(self) }),
                old(self).path@ == Seq::<char>::empty(),
                ancestor_chain(m, root, start_parent, m.dom().len()) == Some(full),
                full.len() <= m.dom().len(),
                full.skip(prefix_len) == entries_view(components@).reverse(),
                prefix_len == full.len() - components@.len(),
                0 <= prefix_len,
                i <= components@.len(),
                path@ == path_from(
                    root_path,
                    names_of(full.take(prefix_len + (components@.len() - i))),
                ),
                cache_valid(cache.cache_view(), m, root, root_path),
                old(cache).cache_view().dom().subset_of(cache.cache_view().dom()),
                forall|t: int|
                    prefix_len <= t < prefix_len + (components@.len() - i)
                        ==> cache.cache_view().contains_key(#[trigger] full[t].0),
                forall|n: u64|
                    #[trigger] cache.cache_view().contains_key(n)
                        ==> old(cache).cache_view().contains_key(n) || exists|t: int|
                        prefix_len <= t < prefix_len + (components@.len() - i)
                            && (#[trigger] full[t]).0 == n,
            decreases i,
        {
            i = i - 1;
            let ghost t = prefix_len + (components@.len() - 1 - i);
            proof {
                assert(full[t] == full.skip(prefix_len)[t - prefix_len]);
                assert(full[t] == (components@[i as int].0, components@[i as int].1@));
            }
            path = join_path(&path, &components[i].1);
            proof {
                assert(names_of(full.take(t + 1)) =~= names_of(full.take(t)).push(
                    components@[i as int].1@,
                ));
                lemma_path_from_push(
                    root_path,
                    names_of(full.take(t)),
                    components@[i as int].1@,
                );
                lemma_chain_entry(m, root, start_parent, m.dom().len(), t);
                let att_t = m[full[t].0].file_name->0;
                let inner = ancestor_chain(m, root, att_t.parent, t as nat);
                assert(inner is Some);
                assert(inner->0.push((full[t].0, att_t.name@)) == full.take(t + 1));
                assert(inner->0 =~= full.take(t + 1).drop_last());
                assert(inner->0 =~= full.take(t));
                lemma_chain_fuel_monotonic(m, root, att_t.parent, t as nat, m.dom().len());
                assert(record_path(m, root, root_path, full[t].0) == Some(path@));
            }
            let ghost cv_pre = cache.cache_view();
            cache.insert(components[i].0, path.clone());
            proof {
                assert(cache.cache_view() == cv_pre.insert(full[t].0, path@));
                assert forall|n: u64| #[trigger] cache.cache_view().contains_key(n) implies
                    record_path(m, root, root_path, n) == Some(cache.cache_view()[n]) by {
                    if n != full[t].0 {
                        assert(cv_pre.contains_key(n));
                    }
                }
            }
        }

        proof {
            assert(full.take(prefix_len + components@.len()) =~= full);
        }
        let resolved = join_path(&path, &self.name);
        let ghost cv_pre = cache.cache_view();
        cache.insert(file.number, resolved.clone());
        proof {
            let att0 = file.file_name->0;
            assert(resolved@ == join(path_from(root_path, names_of(full)), att0.name@));
            assert(record_path(m, root, root_path, file.number) == Some(resolved@));
            assert(cache.cache_view() == cv_pre.insert(file.number, resolved@));
            assert forall|n: u64| #[trigger] cache.cache_view().contains_key(n) implies
                record_path(m, root, root_path, n) == Some(cache.cache_view()[n]) by {
                if n != file.number {
                    assert(cv_pre.contains_key(n));
                }
            }
            assert forall|idx: int| 0 <= idx < full.len() implies
                cache.cache_view().contains_key(#[trigger] full[idx].0) || exists|j: int|
                    idx <= j < full.len() && old(cache).cache_view().contains_key(
                        #[trigger] full[j].0,
                    ) by {
                if idx >= prefix_len {
                    assert(cv_pre.contains_key(full[idx].0));
                } else {
                    assert(old(cache).cache_view().contains_key(full[prefix_len - 1].0));
                    assert(idx <= prefix_len - 1 < full.len());
                }
            }
            assert forall|n: u64| #[trigger] cache.cache_view().contains_key(n) implies
                old(cache).cache_view().contains_key(n) || n == file.number || exists|idx: int|
                    0 <= idx < full.len() && (#[trigger] full[idx]).0 == n by {
                if n != file.number && !old(cache).cache_view().contains_key(n) {
                    assert(cv_pre.contains_key(n));
                    let t = choose|t: int|
                        prefix_len <= t < prefix_len + components@.len()
                            && (#[trigger] full[t]).0 == n;
                    assert(0 <= t < full.len() && full[t].0 == n);
                }
            }
        }
        self.path = resolved;
    }

    /// Resolves one record of the table: reads its identity and attributes
    /// and assembles its absolute path by walking its ancestor chain.
    pub fn new(mft: &Mft, file: &NtfsFile) -> (info: FileInfo)
        ensures
            describes_record(info, *file),
            info.name@ == resolved_name_of(*file),
            info.path@ == resolved_path_of(
                mft.records@,
                mft.root_record,
                mft.volume.path@,
                *file,
            ),
    {
        let mut info = Self::init_info(file);
        info.compute_path(mft, file);
        info
    }

    /// Resolves one record of the table as `new` does, but memoizes through
    /// `cache`: the walk stops early at any ancestor whose path is already
    /// cached, and every ancestor it does visit — and the record itself —
    /// is entered into the cache, keyed by record number.
    ///
    /// The cache must be valid for this table: every entry it already holds
    /// is the true resolved path of its record. The resolved path is then
    /// exactly the one `new` returns, and the cache is valid again
    /// afterwards, its entries only added to, never removed or changed.
    pub fn with_cache<C: FileInfoCache>(mft: &Mft, file: &NtfsFile, cache: &mut C) -> (info:
        FileInfo)
        requires
            mft.wf(),
            mft.contains_record(*file),
            cache_valid(old(cache).cache_view(), mft.records@, mft.root_record, mft.volume.path@),
        ensures
            describes_record(info, *file),
            info.name@ == resolved_name_of(*file),
            info.path@ == resolved_path_of(
                mft.records@,
                mft.root_record,
                mft.volume.path@,
                *file,
            ),
            cache_valid(
                final(cache).cache_view(),
                mft.records@,
                mft.root_record,
                mft.volume.path@,
            ),
            old(cache).cache_view().dom().subset_of(final(cache).cache_view().dom()),
            cache_covers_walk(
                mft.records@,
                mft.root_record,
                *file,
                old(cache).cache_view(),
                final(cache).cache_view(),
            ),
    {
        let mut info = Self::init_info(file);
        info.compute_path_with_cache(mft, file, cache);
        info
    }
}

/// Law: for a record whose ancestor chain resolves — it reaches the root
/// sentinel with every referenced record present and named — the resolved
/// path is the volume root path, joined with every ancestor name outermost
/// first, joined with the record's own name last.
pub proof fn lemma_resolved_path_shape(
    records: Map<u64, NtfsFile>,
    root: u64,
    root_path: Seq<char>,
    file: NtfsFile,
)
    requires
        file.file_name is Some,
        ancestor_chain(records, root, file.file_name->0.parent, records.dom().len()) is Some,
    ensures
        resolved_path_of(records, root, root_path, file) == join(
            path_from(
                root_path,
                names_of(
                    ancestor_chain(
                        records,
                        root,
                        file.file_name->0.parent,
                        records.dom().len(),
                    )->0,
                ),
            ),
            file.file_name->0.name@,
        ),
{
}

/// Law: cache-backed and uncached resolution agree. `FileInfo::new` and
/// `FileInfo::with_cache` both ensure that the resolved path equals
/// `resolved_path_of` for the record and table at hand, so two results for
/// the same record of the same table carry identical paths, whatever valid
/// cache the second started from.
pub proof fn lemma_cached_uncached_agree(
    records: Map<u64, NtfsFile>,
    root: u64,
    root_path: Seq<char>,
    file: NtfsFile,
    plain: FileInfo,
    cached: FileInfo,
)
    requires
        plain.path@ == resolved_path_of(records, root, root_path, file),
        cached.path@ == resolved_path_of(records, root, root_path, file),
    ensures
        plain.path@ == cached.path@,
{
}

/// Law: the identity encoding round-trips. For every record number below
/// 2^48 and every sequence number, masking the identity with the low 48 bits
/// gives back the record number, and shifting it right by 48 gives back the
/// sequence number.
pub proof fn lemma_file_id_round_trip(record_number: u64, sequence_number: u16)
    requires
        record_number < 0x1_0000_0000_0000,
    ensures
        spec_file_id(record_number, sequence_number) & 0x0000_FFFF_FFFF_FFFF == record_number,
        spec_file_id(record_number, sequence_number) >> 48 == sequence_number as u64,
{
    let s = sequence_number as u64;
    assert(s < 0x1_0000);
    assert(((record_number & 0x0000_FFFF_FFFF_FFFF) | (s << 48)) & 0x0000_FFFF_FFFF_FFFF
        == record_number && ((record_number & 0x0000_FFFF_FFFF_FFFF) | (s << 48)) >> 48 == s)
        by (bit_vector)
        requires
            record_number < 0x1_0000_0000_0000,
            s < 0x1_0000,
    ;
}

} // verus!
