use vstd::prelude::*;
use crate::bytes::copy_bytes;
use crate::image::{
    checksum_holds, decode_image, encode_image, entries_model, image_of, lemma_model_loadable, loadable,
    loaded_entries,
};

verus! {

/// The blocks of a store as a map from id to contents, read off a list of
/// entries in which each id stands at most once.
pub open spec fn blocks_of(s: Seq<(u64, Vec<u8>)>) -> Map<u64, Seq<u8>>
    decreases s.len(),
{
    if s.len() == 0 {
        Map::empty()
    } else {
        blocks_of(s.drop_last()).insert(s.last().0, s.last().1@)
    }
}

/// No id stands twice in the list.
pub open spec fn ids_unique<T>(s: Seq<(u64, T)>) -> bool {
    forall|i: int, j: int| 0 <= i < s.len() && 0 <= j < s.len() && i != j ==> s[i].0 != s[j].0
}

/// Sum of the lengths of all block contents.
pub open spec fn total_len(s: Seq<(u64, Vec<u8>)>) -> nat
    decreases s.len(),
{
    if s.len() == 0 {
        0
    } else {
        total_len(s.drop_last()) + s.last().1@.len()
    }
}

/// One more than the largest id in the list, or 0 for an empty list.
pub open spec fn next_after<T>(s: Seq<(u64, T)>) -> int
    decreases s.len(),
{
    if s.len() == 0 {
        0
    } else {
        let m = next_after(s.drop_last());
        if s.last().0 as int + 1 > m {
            s.last().0 as int + 1
        } else {
            m
        }
    }
}

proof fn lemma_blocks_of(s: Seq<(u64, Vec<u8>)>)
    requires
        ids_unique(s),
    ensures
        forall|k: u64|
            blocks_of(s).contains_key(k) <==> exists|i: int| 0 <= i < s.len() && s[i].0 == k,
        forall|i: int| 0 <= i < s.len() ==> #[trigger] blocks_of(s)[s[i].0] == s[i].1@,
        blocks_of(s).dom().len() == s.len(),
        blocks_of(s).dom().finite(),
    decreases s.len(),
{
    if s.len() > 0 {
        let p = s.drop_last();
        assert(ids_unique(p));
        lemma_blocks_of(p);
        assert forall|k: u64|
            blocks_of(s).contains_key(k) implies exists|i: int| 0 <= i < s.len() && s[i].0 == k by {
            if k != s.last().0 {
                let i = choose|i: int| 0 <= i < p.len() && p[i].0 == k;
                assert(s[i].0 == k);
            } else {
                assert(s[s.len() - 1].0 == k);
            }
        }
        assert forall|k: u64|
            (exists|i: int| 0 <= i < s.len() && s[i].0 == k) implies blocks_of(s).contains_key(k) by {
            let i = choose|i: int| 0 <= i < s.len() && s[i].0 == k;
            if i < s.len() - 1 {
                assert(p[i].0 == k);
            }
        }
        assert forall|i: int| 0 <= i < s.len() implies #[trigger] blocks_of(s)[s[i].0] == s[i].1@ by {
            if i < s.len() - 1 {
                assert(p[i] == s[i]);
                assert(s[i].0 != s.last().0);
            }
        }
        assert(!blocks_of(p).contains_key(s.last().0)) by {
            if blocks_of(p).contains_key(s.last().0) {
                let i = choose|i: int| 0 <= i < p.len() && p[i].0 == s.last().0;
                assert(s[i].0 == s[s.len() - 1].0);
            }
        }
    }
}

pub proof fn lemma_next_after<T>(s: Seq<(u64, T)>)
    ensures
        forall|i: int| 0 <= i < s.len() ==> s[i].0 < next_after(s),
        0 <= next_after(s),
        s.len() > 0 ==> exists|i: int| 0 <= i < s.len() && next_after(s) == s[i].0 + 1,
    decreases s.len(),
{
    if s.len() > 0 {
        let p = s.drop_last();
        lemma_next_after(p);
        assert forall|i: int| 0 <= i < s.len() implies s[i].0 < next_after(s) by {
            if i < s.len() - 1 {
                assert(p[i] == s[i]);
            }
        }
        if s.last().0 as int + 1 <= next_after(p) {
            let i = choose|i: int| 0 <= i < p.len() && next_after(p) == p[i].0 + 1;
            assert(s[i] == p[i]);
        } else {
            assert(next_after(s) == s[s.len() - 1].0 + 1);
        }
    }
}

/// Entries with the same ids and contents hold the same blocks.
pub proof fn lemma_same_model_same_blocks(a: Seq<(u64, Vec<u8>)>, b: Seq<(u64, Vec<u8>)>)
    requires
        entries_model(a) == entries_model(b),
    ensures
        blocks_of(a) == blocks_of(b),
        total_len(a) == total_len(b),
    decreases a.len(),
{
    assert(a.len() == entries_model(a).len());
    assert(b.len() == entries_model(b).len());
    if a.len() > 0 {
        assert(entries_model(a.drop_last()) =~= entries_model(a).drop_last());
        assert(entries_model(b.drop_last()) =~= entries_model(b).drop_last());
        lemma_same_model_same_blocks(a.drop_last(), b.drop_last());
        assert(entries_model(a)[a.len() - 1] == entries_model(b)[b.len() - 1]);
    }
}

/// Block storage addressed by integer ids, with an allocation cursor.
///
/// The contents are kept as a list of entries in which each id stands once;
/// the list keeps the order in which ids were first written.
pub struct BlockStore {
    entries: Vec<(u64, Vec<u8>)>,
    next_block: u64,
}

impl BlockStore {
    pub closed spec fn entries_view(&self) -> Seq<(u64, Vec<u8>)> {
        self.entries@
    }

    /// The stored blocks.
    pub open spec fn blocks(&self) -> Map<u64, Seq<u8>> {
        blocks_of(self.entries_view())
    }

    /// The id that the next allocation hands out.
    pub closed spec fn cursor(&self) -> u64 {
        self.next_block
    }

    pub open spec fn wf(&self) -> bool {
        ids_unique(self.entries_view())
    }

    /// An empty store whose cursor is 0.
    pub fn new() -> (r: BlockStore)
        ensures
            r.wf(),
            r.blocks() == Map::<u64, Seq<u8>>::empty(),
            r.entries_view().len() == 0,
            r.cursor() == 0,
    {
        BlockStore { entries: Vec::new(), next_block: 0 }
    }

    /// A store holding the given entries, with the cursor one past the
    /// largest id.
    pub fn from_entries(entries: Vec<(u64, Vec<u8>)>) -> (r: BlockStore)
        requires
            ids_unique(entries@),
            next_after(entries@) <= u64::MAX,
        ensures
            r.wf(),
            r.entries_view() == entries@,
            r.cursor() == next_after(entries@),
    {
        let mut next: u64 = 0;
        let mut i: usize = 0;
        while i < entries.len()
            invariant
                i <= entries@.len(),
                next_after(entries@) <= u64::MAX,
                next == next_after(entries@.subrange(0, i as int)),
            decreases entries@.len() - i,
        {
            proof {
                let t = entries@.subrange(0, i as int + 1);
                assert(t.drop_last() =~= entries@.subrange(0, i as int));
                lemma_next_after(entries@);
                lemma_next_after(t);
                assert(t.last() == entries@[i as int]);
            }
            if entries[i].0 >= next {
                next = entries[i].0 + 1;
            }
            i = i + 1;
        }
        assert(entries@.subrange(0, i as int) =~= entries@);
        BlockStore { entries, next_block: next }
    }

    /// The entries in storage order, copied out.
    pub fn entries(&self) -> (r: Vec<(u64, Vec<u8>)>)
        ensures
            r@.len() == self.entries_view().len(),
            forall|i: int|
                0 <= i < r@.len() ==> #[trigger] r@[i].0 == self.entries_view()[i].0 && r@[i].1@
                    == self.entries_view()[i].1@,
    {
        let mut r: Vec<(u64, Vec<u8>)> = Vec::new();
        let mut i: usize = 0;
        while i < self.entries.len()
            invariant
                i <= self.entries@.len(),
                r@.len() == i,
                forall|k: int|
                    0 <= k < i ==> #[trigger] r@[k].0 == self.entries@[k].0 && r@[k].1@
                        == self.entries@[k].1@,
            decreases self.entries@.len() - i,
        {
            let id = self.entries[i].0;
            let data = copy_bytes(self.entries[i].1.as_slice());
            r.push((id, data));
            i = i + 1;
        }
        r
    }

    fn position(&self, id: u64) -> (r: Option<usize>)
        ensures
            match r {
                Some(i) => i < self.entries@.len() && self.entries@[i as int].0 == id,
                None => forall|i: int| 0 <= i < self.entries@.len() ==> self.entries@[i].0 != id,
            },
    {
        let mut i: usize = 0;
        while i < self.entries.len()
            invariant
                i <= self.entries@.len(),
                forall|k: int| 0 <= k < i ==> self.entries@[k].0 != id,
            decreases self.entries@.len() - i,
        {
            if self.entries[i].0 == id {
                return Some(i);
            }
            i = i + 1;
        }
        None
    }

    /// The contents of block `id`, if it was written and not freed since.
    pub fn read(&self, id: u64) -> (r: Option<Vec<u8>>)
        requires
            self.wf(),
        ensures
            match r {
                Some(v) => self.blocks().contains_key(id) && v@ == self.blocks()[id],
                None => !self.blocks().contains_key(id),
            },
    {
        proof {
            lemma_blocks_of(self.entries@);
        }
        match self.position(id) {
            Some(i) => Some(copy_bytes(self.entries[i].1.as_slice())),
            None => None,
        }
    }

    /// Sets the contents of block `id`, replacing what it held.
    pub fn write(&mut self, id: u64, data: &[u8])
        requires
            old(self).wf(),
        ensures
            final(self).wf(),
            final(self).blocks() == old(self).blocks().insert(id, data@),
            final(self).cursor() == old(self).cursor(),
    {
        proof {
            lemma_blocks_of(self.entries@);
        }
        let bytes = copy_bytes(data);
        match self.position(id) {
            Some(i) => {
                self.entries.set(i, (id, bytes));
                proof {
                    let s = self.entries@;
                    let o = old(self).entries@;
                    assert(ids_unique(s)) by {
                        assert forall|a: int, b: int|
                            0 <= a < s.len() && 0 <= b < s.len() && a != b implies s[a].0
                            != s[b].0 by {
                            assert(s[a].0 == o[a].0 && s[b].0 == o[b].0);
                        }
                    }
                    lemma_blocks_of(s);
                    lemma_blocks_of(o);
                    let m = old(self).blocks().insert(id, data@);
                    assert forall|k: u64| #[trigger] blocks_of(s).contains_key(k) <==> m.contains_key(k) by {
                        assert(s[i as int].0 == id);
                        if k != id && m.contains_key(k) {
                            assert(blocks_of(o).contains_key(k));
                            let j = choose|j: int| 0 <= j < o.len() && o[j].0 == k;
                            assert(s[j].0 == k);
                        }
                        if blocks_of(s).contains_key(k) && k != id {
                            let j = choose|j: int| 0 <= j < s.len() && s[j].0 == k;
                            assert(o[j].0 == k);
                            assert(blocks_of(o).contains_key(k));
                        }
                    }
                    assert forall|k: u64| #[trigger] blocks_of(s).contains_key(k) implies blocks_of(s)[k] == m[k] by {
                        let j = choose|j: int| 0 <= j < s.len() && s[j].0 == k;
                        assert(blocks_of(s)[s[j].0] == s[j].1@);
                        if j != i {
                            assert(blocks_of(o)[o[j].0] == o[j].1@);
                        }
                    }
                    assert(blocks_of(s) =~= m);
                }
            },
            None => {
                self.entries.push((id, bytes));
                proof {
                    let s = self.entries@;
                    let o = old(self).entries@;
                    assert(s.drop_last() =~= o);
                    assert(ids_unique(s)) by {
                        assert forall|a: int, b: int|
                            0 <= a < s.len() && 0 <= b < s.len() && a != b implies s[a].0
                            != s[b].0 by {
                            if a < o.len() && b < o.len() {
                                assert(s[a] == o[a] && s[b] == o[b]);
                            } else if a < o.len() {
                                assert(s[a] == o[a]);
                            } else {
                                assert(s[b] == o[b]);
                            }
                        }
                    }
                }
            },
        }
    }

    /// Hands out the current cursor and moves it one on.
    pub fn allocate(&mut self) -> (r: u64)
        requires
            old(self).cursor() < u64::MAX,
        ensures
            r == old(self).cursor(),
            final(self).cursor() == old(self).cursor() + 1,
            final(self).entries_view() == old(self).entries_view(),
    {
        let id = self.next_block;
        self.next_block = self.next_block + 1;
        id
    }

    /// Removes block `id`, if it is there.
    pub fn free(&mut self, id: u64)
        requires
            old(self).wf(),
        ensures
            final(self).wf(),
            final(self).blocks() == old(self).blocks().remove(id),
            final(self).cursor() == old(self).cursor(),
    {
        proof {
            lemma_blocks_of(self.entries@);
        }
        match self.position(id) {
            Some(i) => {
                self.entries.remove(i);
                proof {
                    let s = self.entries@;
                    let o = old(self).entries@;
                    assert(s =~= o.remove(i as int));
                    assert(ids_unique(s)) by {
                        assert forall|a: int, b: int|
                            0 <= a < s.len() && 0 <= b < s.len() && a != b implies s[a].0
                            != s[b].0 by {
                            let a2 = if a < i { a } else { a + 1 };
                            let b2 = if b < i { b } else { b + 1 };
                            assert(s[a] == o[a2] && s[b] == o[b2]);
                        }
                    }
                    lemma_blocks_of(s);
                    lemma_blocks_of(o);
                    let m = old(self).blocks().remove(id);
                    assert forall|k: u64| #[trigger] blocks_of(s).contains_key(k) <==> m.contains_key(k) by {
                        if m.contains_key(k) {
                            let j = choose|j: int| 0 <= j < o.len() && o[j].0 == k;
                            assert(j != i);
                            let j2 = if j < i { j } else { j - 1 };
                            assert(s[j2] == o[j]);
                            assert(s[j2].0 == k);
                            assert(blocks_of(s).contains_key(k));
                        }
                        if blocks_of(s).contains_key(k) {
                            let j = choose|j: int| 0 <= j < s.len() && s[j].0 == k;
                            let j2 = if j < i { j } else { j + 1 };
                            assert(s[j] == o[j2]);
                            assert(o[j2].0 == k);
                            assert(j2 != i);
                            assert(k != id);
                            assert(blocks_of(o).contains_key(k));
                        }
                    }
                    assert forall|k: u64| #[trigger] blocks_of(s).contains_key(k) implies blocks_of(s)[k] == m[k] by {
                        let j = choose|j: int| 0 <= j < s.len() && s[j].0 == k;
                        let j2 = if j < i { j } else { j + 1 };
                        assert(s[j] == o[j2]);
                        assert(blocks_of(s)[s[j].0] == s[j].1@);
                        assert(blocks_of(o)[o[j2].0] == o[j2].1@);
                    }
                    assert(blocks_of(s) =~= m);
                }
            },
            None => {
                assert(old(self).blocks().remove(id) =~= old(self).blocks());
            },
        }
    }

    /// Number of stored blocks.
    pub fn allocated_count(&self) -> (r: usize)
        requires
            self.wf(),
        ensures
            r == self.blocks().dom().len(),
    {
        proof {
            lemma_blocks_of(self.entries@);
        }
        self.entries.len()
    }

    /// Sum of the lengths of all stored blocks, saturating at `usize::MAX`.
    pub fn total_bytes(&self) -> (r: usize)
        ensures
            r == if total_len(self.entries_view()) <= usize::MAX {
                total_len(self.entries_view())
            } else {
                usize::MAX as nat
            },
    {
        let mut total: usize = 0;
        let mut i: usize = 0;
        while i < self.entries.len()
            invariant
                i <= self.entries@.len(),
                total == if total_len(self.entries@.subrange(0, i as int)) <= usize::MAX {
                    total_len(self.entries@.subrange(0, i as int))
                } else {
                    usize::MAX as nat
                },
            decreases self.entries@.len() - i,
        {
            proof {
                let t = self.entries@.subrange(0, i as int + 1);
                assert(t.drop_last() =~= self.entries@.subrange(0, i as int));
            }
            total = total.saturating_add(self.entries[i].1.len());
            i = i + 1;
        }
        assert(self.entries@.subrange(0, i as int) =~= self.entries@);
        total
    }

    /// Removes every block and puts the cursor back to 0.
    pub fn clear(&mut self)
        ensures
            final(self).wf(),
            final(self).blocks() == Map::<u64, Seq<u8>>::empty(),
            final(self).entries_view().len() == 0,
            final(self).cursor() == 0,
    {
        self.entries = Vec::new();
        self.next_block = 0;
    }
}


/// Block storage as the rest of the system sees it.
pub trait Disk {
    /// The stored blocks.
    spec fn blocks(&self) -> Map<u64, Seq<u8>>;

    /// The id that the next allocation hands out.
    spec fn cursor(&self) -> u64;

    /// Sum of the lengths of the stored blocks.
    spec fn total(&self) -> nat;

    spec fn inv(&self) -> bool;

    fn read_block(&self, block_id: u64) -> (r: Option<Vec<u8>>)
        requires
            self.inv(),
        ensures
            match r {
                Some(v) => self.blocks().contains_key(block_id) && v@ == self.blocks()[block_id],
                None => !self.blocks().contains_key(block_id),
            },
    ;

    fn write_block(&mut self, block_id: u64, data: &[u8])
        requires
            old(self).inv(),
        ensures
            final(self).inv(),
            final(self).blocks() == old(self).blocks().insert(block_id, data@),
            final(self).cursor() == old(self).cursor(),
    ;

    fn allocate_block(&mut self) -> (r: u64)
        requires
            old(self).inv(),
            old(self).cursor() < u64::MAX,
        ensures
            final(self).inv(),
            r == old(self).cursor(),
            final(self).cursor() == old(self).cursor() + 1,
            final(self).blocks() == old(self).blocks(),
    ;

    fn free_block(&mut self, block_id: u64)
        requires
            old(self).inv(),
        ensures
            final(self).inv(),
            final(self).blocks() == old(self).blocks().remove(block_id),
            final(self).cursor() == old(self).cursor(),
    ;

    fn get_allocated_blocks(&self) -> (r: usize)
        requires
            self.inv(),
        ensures
            r == self.blocks().dom().len(),
    ;

    fn get_total_size(&self) -> (r: usize)
        ensures
            r == if self.total() <= usize::MAX {
                self.total()
            } else {
                usize::MAX as nat
            },
    ;

    fn clear_all(&mut self)
        ensures
            final(self).inv(),
            final(self).blocks() == Map::<u64, Seq<u8>>::empty(),
            final(self).cursor() == 0,
    ;
}

/// A block store held in memory only.
pub struct RamDisk {
    store: BlockStore,
}

impl RamDisk {
    /// An empty disk whose first allocation is block 0.
    pub fn new() -> (r: RamDisk)
        ensures
            r.inv(),
            r.blocks() == Map::<u64, Seq<u8>>::empty(),
            r.total() == 0,
            r.cursor() == 0,
    {
        RamDisk { store: BlockStore::new() }
    }
}

impl Disk for RamDisk {
    closed spec fn blocks(&self) -> Map<u64, Seq<u8>> {
        self.store.blocks()
    }

    closed spec fn cursor(&self) -> u64 {
        self.store.cursor()
    }

    closed spec fn total(&self) -> nat {
        total_len(self.store.entries_view())
    }

    closed spec fn inv(&self) -> bool {
        self.store.wf()
    }

    fn read_block(&self, block_id: u64) -> (r: Option<Vec<u8>>) {
        self.store.read(block_id)
    }

    fn write_block(&mut self, block_id: u64, data: &[u8]) {
        self.store.write(block_id, data);
    }

    fn allocate_block(&mut self) -> (r: u64) {
        self.store.allocate()
    }

    fn free_block(&mut self, block_id: u64) {
        self.store.free(block_id);
    }

    fn get_allocated_blocks(&self) -> (r: usize) {
        self.store.allocated_count()
    }

    fn get_total_size(&self) -> (r: usize) {
        self.store.total_bytes()
    }

    fn clear_all(&mut self) {
        self.store.clear();
    }
}

/// A block store bound to a file. Its whole contents persist as one image:
/// `image` gives the bytes to write to the file after a change, and `load`
/// reads them back.
pub struct FileDisk {
    store: BlockStore,
    file_path: String,
}

impl FileDisk {
    /// An empty disk bound to `file_path`, as when no image exists yet.
    pub fn empty(file_path: &str) -> (r: FileDisk)
        ensures
            r.inv(),
            r.blocks() == Map::<u64, Seq<u8>>::empty(),
            r.total() == 0,
            r.cursor() == 0,
            r.path() == file_path@,
    {
        FileDisk { store: BlockStore::new(), file_path: file_path.to_string() }
    }

    /// A disk bound to `file_path` holding the blocks of `store`.
    pub fn with_store(file_path: &str, store: BlockStore) -> (r: FileDisk)
        requires
            store.wf(),
        ensures
            r.inv(),
            r.path() == file_path@,
            r.blocks() == store.blocks(),
            r.cursor() == store.cursor(),
    {
        FileDisk { store, file_path: file_path.to_string() }
    }

    /// A disk bound to `file_path` holding what `image` holds, as
    /// `decode_image` reads it.
    pub fn load(file_path: &str, image: &[u8]) -> (r: FileDisk)
        ensures
            r.inv(),
            r.path() == file_path@,
            entries_model(r.entries_view()) == loaded_entries(image@),
            r.cursor() == next_after(r.entries_view()),
            loaded_entries(image@).len() == 0 ==> r.blocks() == Map::<u64, Seq<u8>>::empty()
                && r.total() == 0 && r.cursor() == 0,
            !checksum_holds(image@) ==> r.blocks() == Map::<u64, Seq<u8>>::empty() && r.cursor()
                == 0,
            forall|m: Seq<(u64, Seq<u8>)>|
                #![trigger image_of(m)]
                image@ == image_of(m) && loadable(m) ==> entries_model(r.entries_view()) == m,
    {
        let store = decode_image(image);
        proof {
            assert(entries_model(store.entries_view()).len() == store.entries_view().len());
            if store.entries_view().len() == 0 {
                assert(blocks_of(store.entries_view()) =~= Map::<u64, Seq<u8>>::empty());
            }
        }
        FileDisk { store, file_path: file_path.to_string() }
    }

    /// The entries in storage order.
    pub closed spec fn entries_view(&self) -> Seq<(u64, Vec<u8>)> {
        self.store.entries_view()
    }

    /// The blocks are those of the entries.
    pub proof fn lemma_blocks_are_entries(&self)
        ensures
            self.blocks() == blocks_of(self.entries_view()),
            self.total() == total_len(self.entries_view()),
    {
    }

    /// A disk's own entries can be loaded back from its image unless it
    /// holds a block at `u64::MAX`: ids are distinct, and the cursor can
    /// stand one past the largest.
    pub proof fn lemma_own_entries_loadable(&self)
        requires
            self.inv(),
            !self.blocks().contains_key(u64::MAX),
        ensures
            ids_unique(self.entries_view()),
            loadable(entries_model(self.entries_view())),
    {
        let s = self.entries_view();
        lemma_blocks_of(s);
        lemma_next_after(s);
        if s.len() > 0 {
            let k = choose|k: int| 0 <= k < s.len() && next_after(s) == s[k].0 + 1;
            assert(self.blocks().contains_key(s[k].0));
        }
        lemma_model_loadable(s, entries_model(s));
    }

    /// Reloading a disk from the image of another gives back its blocks:
    /// `load` yields entries equal, as plain values, to those of the saved
    /// disk whenever they are loadable.
    pub proof fn lemma_reload_round_trip(saved: FileDisk, loaded: FileDisk)
        requires
            entries_model(loaded.entries_view()) == entries_model(saved.entries_view()),
        ensures
            loaded.blocks() == saved.blocks(),
            loaded.total() == saved.total(),
    {
        lemma_same_model_same_blocks(loaded.entries_view(), saved.entries_view());
    }

    /// The file this disk is bound to.
    pub closed spec fn path(&self) -> Seq<char> {
        self.file_path@
    }

    pub fn file_path(&self) -> (r: String)
        ensures
            r@ == self.path(),
    {
        self.file_path.clone()
    }

    /// The id that the next allocation hands out.
    pub fn next_block_id(&self) -> (r: u64)
        ensures
            r == self.cursor(),
    {
        self.store.next_block
    }

    /// The image that persists the current contents.
    pub fn image(&self) -> (r: Vec<u8>)
        ensures
            r@ == image_of(entries_model(self.entries_view())),
    {
        encode_image(&self.store)
    }
}

impl Disk for FileDisk {
    closed spec fn blocks(&self) -> Map<u64, Seq<u8>> {
        self.store.blocks()
    }

    closed spec fn cursor(&self) -> u64 {
        self.store.cursor()
    }

    closed spec fn total(&self) -> nat {
        total_len(self.store.entries_view())
    }

    closed spec fn inv(&self) -> bool {
        self.store.wf()
    }

    fn read_block(&self, block_id: u64) -> (r: Option<Vec<u8>>) {
        self.store.read(block_id)
    }

    fn write_block(&mut self, block_id: u64, data: &[u8]) {
        self.store.write(block_id, data);
    }

    fn allocate_block(&mut self) -> (r: u64) {
        self.store.allocate()
    }

    fn free_block(&mut self, block_id: u64) {
        self.store.free(block_id);
    }

    fn get_allocated_blocks(&self) -> (r: usize) {
        self.store.allocated_count()
    }

    fn get_total_size(&self) -> (r: usize) {
        self.store.total_bytes()
    }

    fn clear_all(&mut self) {
        self.store.clear();
    }
}

} // verus!
