//! How often, and when last, each file was opened.
use crate::text;
use crate::text_map::TextMap;
use vstd::prelude::*;

verus! {

/// The record of one file.
#[derive(Clone, Copy, Debug, PartialEq, Eq, Structural)]
pub struct UsageEntry {
    pub count: u32,
    pub last_ms: u64,
}

/// The records of all files, once they are loaded.
pub struct UsageStore {
    records: Option<TextMap<UsageEntry>>,
}

impl View for UsageStore {
    type V = Map<Seq<char>, UsageEntry>;

    closed spec fn view(&self) -> Map<Seq<char>, UsageEntry> {
        match self.records {
            Some(m) => m@,
            None => Map::empty(),
        }
    }
}

/// Milliseconds since the epoch: `std::time::SystemTime::now`, 0 where the clock
/// stands before the epoch. Nothing is claimed of the result, which is the time.
#[verifier::external_body]
pub fn epoch_ms() -> (r: u64) {
    std::time::SystemTime::now()
        .duration_since(std::time::UNIX_EPOCH)
        .map(|d| d.as_millis() as u64)
        .unwrap_or(0)
}

/// The record of a path, of a file never opened `(0, 0)`.
pub open spec fn usage_at(m: Map<Seq<char>, UsageEntry>, path: Seq<char>) -> (u32, u64) {
    if m.contains_key(path) {
        (m[path].count, m[path].last_ms)
    } else {
        (0, 0)
    }
}

/// `count + 1`, at most `u32::MAX`.
pub open spec fn one_more(count: u32) -> u32 {
    if count < u32::MAX {
        (count + 1) as u32
    } else {
        count
    }
}

/// The records after `path` was opened at `now`.
pub open spec fn opened_at(
    m: Map<Seq<char>, UsageEntry>,
    path: Seq<char>,
    now: u64,
) -> Map<Seq<char>, UsageEntry> {
    m.insert(path, UsageEntry { count: one_more(usage_at(m, path).0), last_ms: now })
}

impl UsageStore {
    /// The records are kept without a path twice.
    pub closed spec fn wf(&self) -> bool {
        match self.records {
            Some(m) => m.wf(),
            None => true,
        }
    }

    /// The records have been loaded, or something has been opened.
    pub closed spec fn loaded(&self) -> bool {
        self.records is Some
    }

    /// A store that holds nothing yet.
    pub fn new() -> (r: Self)
        ensures
            r.wf(),
            !r.loaded(),
            r@ == Map::<Seq<char>, UsageEntry>::empty(),
    {
        UsageStore { records: None }
    }

    /// The records, for writing them out.
    pub fn records(&self) -> (r: Option<&TextMap<UsageEntry>>)
        requires
            self.wf(),
        ensures
            match r {
                Some(m) => m.wf() && m@ == self@ && self.loaded(),
                None => !self.loaded() && self@ == Map::<Seq<char>, UsageEntry>::empty(),
            },
    {
        match &self.records {
            Some(m) => Some(m),
            None => None,
        }
    }
}

/// Takes the records of the file of the last session.
pub fn load_usage(store: &mut UsageStore, saved: TextMap<UsageEntry>)
    requires
        saved.wf(),
    ensures
        final(store).wf(),
        final(store).loaded(),
        final(store)@ == saved@,
{
    store.records = Some(saved);
}

/// Records that `path` was opened at `now`.
pub fn record_open_at(store: &mut UsageStore, path: &str, now: u64)
    requires
        old(store).wf(),
    ensures
        final(store).wf(),
        final(store).loaded(),
        final(store)@ == opened_at(old(store)@, path@, now),
{
    let mut records = match store.records.take() {
        Some(m) => m,
        None => TextMap::new(),
    };
    let count: u32 = match records.get(path) {
        Some(e) => e.count,
        None => 0,
    };
    let next: u32 = if count < u32::MAX {
        count + 1
    } else {
        count
    };
    records.insert(text::own(path), UsageEntry { count: next, last_ms: now });
    store.records = Some(records);
}

/// Records that `path` was opened now.
pub fn record_open(store: &mut UsageStore, path: &str)
    requires
        old(store).wf(),
    ensures
        final(store).wf(),
        final(store).loaded(),
        exists|now: u64| final(store)@ == #[trigger] opened_at(old(store)@, path@, now),
{
    let now: u64 = epoch_ms();
    record_open_at(store, path, now);
}

/// Drops the records of paths outside `keep` and returns how many were dropped.
pub fn prune_usage(store: &mut UsageStore, keep: &Vec<String>) -> (r: usize)
    requires
        old(store).wf(),
    ensures
        final(store).wf(),
        final(store).loaded() == old(store).loaded(),
        final(store)@ == old(store)@.restrict(
            Set::new(|k: Seq<char>| text::texts(keep@).contains(k)),
        ),
        old(store)@.dom().finite(),
        r == old(store)@.len() - final(store)@.len(),
{
    match store.records.take() {
        None => {
            proof {
                assert(old(store)@.restrict(Set::new(|k: Seq<char>| text::texts(keep@).contains(k)))
                    =~= Map::<Seq<char>, UsageEntry>::empty());
            }
            0
        },
        Some(mut m) => {
            let ghost m0 = m@;
            let before: usize = m.len();
            m.retain_keys(keep);
            let after: usize = m.len();
            proof {
                vstd::set_lib::lemma_len_subset(m@.dom(), m0.dom());
            }
            store.records = Some(m);
            before - after
        },
    }
}

/// How often `path` was opened, and when last.
pub fn usage_of(store: &UsageStore, path: &str) -> (r: (u32, u64))
    requires
        store.wf(),
    ensures
        r == usage_at(store@, path@),
{
    match &store.records {
        Some(m) => match m.get(path) {
            Some(e) => (e.count, e.last_ms),
            None => (0, 0),
        },
        None => (0, 0),
    }
}

/// Pruning forgets the files that are gone and no others: a file that is kept has
/// the record it had, and one that returns under an old name starts from nothing.
pub proof fn law_prune_forgets_only_the_gone(
    m: Map<Seq<char>, UsageEntry>,
    keep: Seq<Seq<char>>,
    path: Seq<char>,
)
    ensures
        usage_at(m.restrict(Set::new(|k: Seq<char>| keep.contains(k))), path) == if keep.contains(
            path,
        ) {
            usage_at(m, path)
        } else {
            (0u32, 0u64)
        },
{
}

/// Opening a file counts it once more, up to the greatest count, and notes the moment; the
/// records of other files stay.
pub proof fn law_opening_counts_once(
    m: Map<Seq<char>, UsageEntry>,
    path: Seq<char>,
    now: u64,
    other: Seq<char>,
)
    ensures
        ({
            let was = if m.contains_key(path) {
                m[path].count as int
            } else {
                0
            };
            let (count, last) = usage_at(opened_at(m, path, now), path);
            &&& last == now
            &&& was < u32::MAX ==> count == was + 1
            &&& was == u32::MAX ==> count == was
            &&& other != path ==> usage_at(opened_at(m, path, now), other) == usage_at(m, other)
            &&& !m.contains_key(other) ==> usage_at(m, other) == (0u32, 0u64)
            &&& m.contains_key(other) ==> usage_at(m, other) == (
                m[other].count,
                m[other].last_ms,
            )
        }),
{
}

} // verus!
