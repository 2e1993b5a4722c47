//! The reassembly engine: rebuilding images that arrive split into chunks
//! over the unreliable transport, and the garbage collector that frees
//! entries which stopped making progress.
//!
//! Chunks may arrive out of order, duplicated, or not at all. An entry is
//! keyed by the image's content hash and holds one optional slot per
//! chunk; it completes exactly when every slot is filled, at which point
//! the slots are concatenated in index order and the entry is removed. An
//! out-of-bounds chunk index is rejected without touching anything.

use vstd::prelude::*;
use vstd::pervasive::VecAdditionalExecFns;
use crate::dedup::{spec_applies_image, spec_record_image, DedupState};
use crate::util::{bytes_eq, clone_bytes};
use crate::wire::{ChunkView, ImageChunkPacket};

verus! {

/// How long an entry may sit with no new chunk before a sweep frees it,
/// in seconds.
pub const STALE_SECS: u64 = 60;

/// Mathematical image of a reassembly entry.
#[verifier::ext_equal]
pub struct EntryView {
    pub hash: Seq<u8>,
    pub slots: Seq<Option<Seq<u8>>>,
    pub width: u64,
    pub height: u64,
    pub total_chunks: u32,
    pub last_touch: u64,
}

/// An in-progress image: one optional buffer per chunk, the image
/// dimensions, and the time a chunk last arrived.
pub struct ReassemblyEntry {
    pub hash: Vec<u8>,
    pub slots: Vec<Option<Vec<u8>>>,
    pub width: u64,
    pub height: u64,
    pub total_chunks: u32,
    pub last_touch: u64,
}

impl View for ReassemblyEntry {
    type V = EntryView;

    open spec fn view(&self) -> EntryView {
        EntryView {
            hash: self.hash@,
            slots: self.slots.deep_view(),
            width: self.width,
            height: self.height,
            total_chunks: self.total_chunks,
            last_touch: self.last_touch,
        }
    }
}

/// A slot array sized to the entry's chunk count, with at least one chunk.
pub open spec fn entry_wf(e: EntryView) -> bool {
    &&& e.slots.len() == e.total_chunks
    &&& e.total_chunks >= 1
}

/// The shared map from content hash to in-progress chunk set.
pub struct ReassemblyBuffer {
    entries: Vec<ReassemblyEntry>,
}

impl View for ReassemblyBuffer {
    type V = Seq<EntryView>;

    closed spec fn view(&self) -> Seq<EntryView> {
        Seq::new(self.entries@.len(), |i: int| self.entries@[i]@)
    }
}

/// Whether some entry carries this content hash.
pub open spec fn has_entry(s: Seq<EntryView>, h: Seq<u8>) -> bool {
    exists|i: int| 0 <= i < s.len() && s[i].hash == h
}

/// The position of the entry with this content hash; with well-formedness
/// there is at most one.
pub open spec fn entry_index(s: Seq<EntryView>, h: Seq<u8>) -> int {
    choose|i: int| 0 <= i < s.len() && s[i].hash == h
}

/// Whether every chunk of an entry has arrived.
pub open spec fn all_filled(slots: Seq<Option<Seq<u8>>>) -> bool {
    forall|i: int| 0 <= i < slots.len() ==> slots[i] is Some
}

/// The slots concatenated in index order; an empty slot contributes
/// nothing (completion only reads fully filled entries).
pub open spec fn concat_slots(slots: Seq<Option<Seq<u8>>>) -> Seq<u8>
    decreases slots.len(),
{
    if slots.len() == 0 {
        Seq::empty()
    } else {
        (match slots[0] {
            Some(b) => b,
            None => Seq::empty(),
        }) + concat_slots(slots.drop_first())
    }
}

/// The entry created on the first chunk for a hash: empty slots sized to
/// the announced chunk count, the packet's dimensions, touched now.
pub open spec fn spec_fresh_entry(p: ChunkView, now: u64) -> EntryView {
    EntryView {
        hash: p.hash,
        slots: Seq::new(p.total_chunks as nat, |i: int| None),
        width: p.width,
        height: p.height,
        total_chunks: p.total_chunks,
        last_touch: now,
    }
}

/// Storing one chunk: fill its slot and refresh the timestamp.
pub open spec fn spec_store(e: EntryView, idx: u32, data: Seq<u8>, now: u64) -> EntryView {
    EntryView {
        hash: e.hash,
        slots: e.slots.update(idx as int, Some(data)),
        width: e.width,
        height: e.height,
        total_chunks: e.total_chunks,
        last_touch: now,
    }
}

/// The chunk-count bound an arriving index is checked against: the
/// existing entry's, else the packet's own announcement.
pub open spec fn spec_cap(s: Seq<EntryView>, p: ChunkView) -> int {
    if has_entry(s, p.hash) {
        s[entry_index(s, p.hash)].total_chunks as int
    } else {
        p.total_chunks as int
    }
}

/// An arriving chunk is rejected exactly when its index is out of bounds
/// (which covers a zero announced chunk count).
pub open spec fn spec_rejects(s: Seq<EntryView>, p: ChunkView) -> bool {
    p.chunk_index >= spec_cap(s, p)
}

/// The located-or-created entry once an accepted chunk is stored.
pub open spec fn spec_entry_after(s: Seq<EntryView>, p: ChunkView, now: u64) -> EntryView {
    let e0 = if has_entry(s, p.hash) {
        s[entry_index(s, p.hash)]
    } else {
        spec_fresh_entry(p, now)
    };
    spec_store(e0, p.chunk_index, p.chunk_data, now)
}

/// Whether an accepted chunk completes its entry.
pub open spec fn spec_completes(s: Seq<EntryView>, p: ChunkView, now: u64) -> bool {
    all_filled(spec_entry_after(s, p, now).slots)
}

/// The buffer after a chunk arrives: untouched on rejection, the entry
/// gone on completion, else the stored entry kept (updated or appended).
pub open spec fn spec_buffer_after(s: Seq<EntryView>, p: ChunkView, now: u64) -> Seq<EntryView> {
    if spec_rejects(s, p) {
        s
    } else {
        let e1 = spec_entry_after(s, p, now);
        if spec_completes(s, p, now) {
            if has_entry(s, p.hash) {
                s.remove(entry_index(s, p.hash))
            } else {
                s
            }
        } else {
            if has_entry(s, p.hash) {
                s.update(entry_index(s, p.hash), e1)
            } else {
                s.push(e1)
            }
        }
    }
}

/// An entry with no new chunk for longer than the staleness window.
pub open spec fn spec_stale(e: EntryView, now: u64) -> bool {
    now - e.last_touch > STALE_SECS
}

/// The buffer after a garbage-collection sweep: stale entries dropped,
/// the rest kept in order.
pub open spec fn spec_sweep(s: Seq<EntryView>, now: u64) -> Seq<EntryView>
    decreases s.len(),
{
    if s.len() == 0 {
        Seq::empty()
    } else if spec_stale(s[0], now) {
        spec_sweep(s.drop_first(), now)
    } else {
        seq![s[0]] + spec_sweep(s.drop_first(), now)
    }
}

/// What an arriving chunk led to.
pub enum ChunkOutcome {
    OutOfBounds,
    Stored,
    Completed { width: u64, height: u64, bytes: Vec<u8> },
}

/// The element of a slot array's view is the slot's inner view.
proof fn lemma_slots_deep_index(v: &Vec<Option<Vec<u8>>>, i: int)
    requires
        0 <= i < v@.len(),
    ensures
        v.deep_view().len() == v@.len(),
        v.deep_view()[i] == match v@[i] {
            Some(b) => Some(b@),
            None => None::<Seq<u8>>,
        },
{
    assert(v.deep_view()[i] == v@[i].deep_view());
    match v@[i] {
        Some(b) => {
            assert(v@[i].deep_view() =~= Some(b@));
        },
        None => {
        },
    }
}

/// Appending one slot extends the concatenation by its contents.
proof fn lemma_concat_slots_push(s: Seq<Option<Seq<u8>>>, x: Option<Seq<u8>>)
    ensures
        concat_slots(s.push(x)) == concat_slots(s) + (match x {
            Some(b) => b,
            None => Seq::empty(),
        }),
    decreases s.len(),
{
    let xb = match x {
        Some(b) => b,
        None => Seq::<u8>::empty(),
    };
    if s.len() == 0 {
        let p = s.push(x);
        assert(p.drop_first() =~= Seq::<Option<Seq<u8>>>::empty());
        assert(concat_slots(p.drop_first()) == Seq::<u8>::empty());
        assert(p[0] == x);
        assert(xb + Seq::<u8>::empty() =~= xb);
        assert(Seq::<u8>::empty() + xb =~= xb);
    } else {
        assert(s.push(x).drop_first() =~= s.drop_first().push(x));
        assert(s.push(x)[0] == s[0]);
        lemma_concat_slots_push(s.drop_first(), x);
        let hb = match s[0] {
            Some(b) => b,
            None => Seq::<u8>::empty(),
        };
        assert(hb + (concat_slots(s.drop_first()) + xb) =~= (hb + concat_slots(s.drop_first()))
            + xb);
    }
}

impl ReassemblyBuffer {
    /// Every entry is well formed and no content hash is held twice.
    pub open spec fn wf(&self) -> bool {
        &&& forall|i: int| 0 <= i < self@.len() ==> entry_wf(#[trigger] self@[i])
        &&& forall|i: int, j: int|
            0 <= i < j < self@.len() ==> self@[i].hash != self@[j].hash
    }

    /// An empty buffer, as every node starts.
    pub fn new() -> (r: ReassemblyBuffer)
        ensures
            r@ == Seq::<EntryView>::empty(),
            r.wf(),
    {
        let r = ReassemblyBuffer { entries: Vec::new() };
        proof {
            assert(r@ =~= Seq::<EntryView>::empty());
        }
        r
    }

    /// How many reassemblies are in progress.
    pub fn len(&self) -> (n: usize)
        ensures
            n == self@.len(),
    {
        self.entries.len()
    }

    /// The position of the entry for a hash, if one exists.
    fn find_entry(&self, h: &Vec<u8>) -> (r: Option<usize>)
        ensures
            r matches Some(j) ==> 0 <= j < self@.len() && self@[j as int].hash == h@,
            r is None ==> forall|k: int| 0 <= k < self@.len() ==> self@[k].hash != h@,
    {
        let n = self.entries.len();
        let mut i: usize = 0;
        while i < n
            invariant
                n == self.entries@.len(),
                i <= n,
                forall|k: int| 0 <= k < i ==> self@[k].hash != h@,
            decreases n - i,
        {
            if bytes_eq(&self.entries[i].hash, h) {
                return Some(i);
            }
            i = i + 1;
        }
        None
    }

    /// Whether an entry for this hash exists; a fresh arrival after
    /// completion or eviction starts a new entry rather than reviving the
    /// old one.
    pub fn has_entry_for(&self, h: &Vec<u8>) -> (r: bool)
        ensures
            r == has_entry(self@, h@),
    {
        let r = self.find_entry(h);
        match r {
            Some(j) => {
                proof {
                    assert(0 <= j < self@.len() && self@[j as int].hash == h@);
                }
                true
            },
            None => {
                proof {
                    if has_entry(self@, h@) {
                        let i = entry_index(self@, h@);
                        assert(self@[i].hash != h@);
                    }
                }
                false
            },
        }
    }

    /// Accept one arriving chunk: locate or create the entry for its
    /// hash, reject an out-of-bounds index untouched, store the chunk and
    /// refresh the timestamp, and on the last missing chunk hand back the
    /// pixel bytes concatenated in index order, removing the entry.
    pub fn insert_chunk(&mut self, packet: &ImageChunkPacket, now: u64) -> (r: ChunkOutcome)
        requires
            old(self).wf(),
        ensures
            final(self).wf(),
            final(self)@ == spec_buffer_after(old(self)@, packet@, now),
            (r is OutOfBounds) == spec_rejects(old(self)@, packet@),
            r is OutOfBounds ==> final(self)@ == old(self)@,
            (r is Completed) == (!spec_rejects(old(self)@, packet@) && spec_completes(
                old(self)@,
                packet@,
                now,
            )),
            r matches ChunkOutcome::Completed { width, height, bytes } ==> ({
                let e1 = spec_entry_after(old(self)@, packet@, now);
                &&& width == e1.width
                &&& height == e1.height
                &&& bytes@ == concat_slots(e1.slots)
            }),
    {
        let ghost s = self@;
        let ghost p = packet@;
        let found = self.find_entry(&packet.hash);
        match found {
            Some(j) => {
                proof {
                    assert(has_entry(s, p.hash));
                    let k = entry_index(s, p.hash);
                    assert(s[k].hash == p.hash);
                    if k != j {
                        assert(s[k].hash != s[j as int].hash);
                    }
                    assert(entry_index(s, p.hash) == j);
                }
                let cap = self.entries[j].slots.len();
                proof {
                    assert(self@[j as int].slots.len() == cap);
                    assert(entry_wf(s[j as int]));
                }
                if packet.chunk_index as usize >= cap {
                    proof {
                        assert(spec_rejects(s, p));
                    }
                    return ChunkOutcome::OutOfBounds;
                }
                let mut e = self.entries.remove(j);
                let ghost e0 = s[j as int];
                proof {
                    assert(e@ == e0);
                    assert(self@ =~= s.remove(j as int));
                }
                let idx = packet.chunk_index as usize;
                let data = clone_bytes(&packet.chunk_data);
                let ghost old_slots = e.slots.deep_view();
                e.slots.set(idx, Some(data));
                e.last_touch = now;
                proof {
                    assert forall|i: int| 0 <= i < e.slots@.len() implies e.slots.deep_view()[i]
                        == old_slots.update(idx as int, Some(p.chunk_data))[i] by {
                        lemma_slots_deep_index(&e.slots, i);
                    }
                    assert(e.slots.deep_view() =~= old_slots.update(idx as int, Some(p.chunk_data)));
                    assert(e@ =~= spec_entry_after(s, p, now));
                }
                if Self::entry_filled(&e) {
                    let bytes = Self::concat_entry(&e);
                    proof {
                        assert(spec_completes(s, p, now));
                        assert(final(self)@ =~= spec_buffer_after(s, p, now));
                    }
                    ChunkOutcome::Completed { width: e.width, height: e.height, bytes }
                } else {
                    proof {
                        assert(!spec_completes(s, p, now));
                    }
                    let ghost e1 = e@;
                    self.entries.insert(j, e);
                    proof {
                        assert(self@ =~= s.update(j as int, e1));
                        assert(self@ =~= spec_buffer_after(s, p, now));
                        assert forall|a: int, b: int|
                            0 <= a < b < self@.len() implies self@[a].hash != self@[b].hash by {
                            assert(self@[a] == if a == j {
                                e1
                            } else {
                                s[a]
                            });
                            assert(self@[b] == if b == j {
                                e1
                            } else {
                                s[b]
                            });
                        }
                    }
                    ChunkOutcome::Stored
                }
            },
            None => {
                proof {
                    if has_entry(s, p.hash) {
                        let i = entry_index(s, p.hash);
                        assert(s[i].hash != p.hash);
                    }
                    assert(!has_entry(s, p.hash));
                }
                if packet.chunk_index >= packet.total_chunks {
                    proof {
                        assert(spec_rejects(s, p));
                    }
                    return ChunkOutcome::OutOfBounds;
                }
                let total = packet.total_chunks as usize;
                let mut slots: Vec<Option<Vec<u8>>> = Vec::new();
                let mut i: usize = 0;
                while i < total
                    invariant
                        i <= total,
                        slots@.len() == i,
                        forall|k: int| 0 <= k < i ==> slots@[k] is None,
                    decreases total - i,
                {
                    slots.push(None);
                    i = i + 1;
                }
                proof {
                    assert forall|k: int| 0 <= k < total implies slots.deep_view()[k] == None::<
                        Seq<u8>,
                    > by {
                        lemma_slots_deep_index(&slots, k);
                    }
                    assert(slots.deep_view() =~= Seq::new(
                        p.total_chunks as nat,
                        |i: int| None::<Seq<u8>>,
                    ));
                }
                let mut e = ReassemblyEntry {
                    hash: clone_bytes(&packet.hash),
                    slots,
                    width: packet.width,
                    height: packet.height,
                    total_chunks: packet.total_chunks,
                    last_touch: now,
                };
                proof {
                    assert(e@ =~= spec_fresh_entry(p, now));
                }
                let idx = packet.chunk_index as usize;
                let data = clone_bytes(&packet.chunk_data);
                let ghost fresh_slots = e.slots.deep_view();
                e.slots.set(idx, Some(data));
                proof {
                    assert forall|k: int| 0 <= k < e.slots@.len() implies e.slots.deep_view()[k]
                        == fresh_slots.update(idx as int, Some(p.chunk_data))[k] by {
                        lemma_slots_deep_index(&e.slots, k);
                    }
                    assert(e.slots.deep_view() =~= fresh_slots.update(
                        idx as int,
                        Some(p.chunk_data),
                    ));
                    assert(e@ =~= spec_entry_after(s, p, now));
                }
                if Self::entry_filled(&e) {
                    let bytes = Self::concat_entry(&e);
                    proof {
                        assert(spec_completes(s, p, now));
                        assert(final(self)@ =~= spec_buffer_after(s, p, now));
                    }
                    ChunkOutcome::Completed { width: e.width, height: e.height, bytes }
                } else {
                    let ghost e1 = e@;
                    self.entries.push(e);
                    proof {
                        assert(self@ =~= s.push(e1));
                        assert(self@ =~= spec_buffer_after(s, p, now));
                        assert forall|a: int, b: int|
                            0 <= a < b < self@.len() implies self@[a].hash != self@[b].hash by {
                            if b == self@.len() - 1 {
                                assert(self@[a] == s[a]);
                                assert(s[a].hash == self@[a].hash);
                            }
                        }
                    }
                    ChunkOutcome::Stored
                }
            },
        }
    }

    /// Whether every slot of an entry is filled.
    fn entry_filled(e: &ReassemblyEntry) -> (r: bool)
        ensures
            r == all_filled(e@.slots),
    {
        let n = e.slots.len();
        let mut i: usize = 0;
        while i < n
            invariant
                n == e.slots@.len(),
                i <= n,
                forall|k: int| 0 <= k < i ==> e@.slots[k] is Some,
            decreases n - i,
        {
            proof {
                lemma_slots_deep_index(&e.slots, i as int);
            }
            if e.slots[i].is_none() {
                proof {
                    assert(e@.slots[i as int] is None);
                }
                return false;
            }
            i = i + 1;
        }
        true
    }

    /// The pixel bytes of a fully filled entry, slots concatenated in
    /// index order.
    fn concat_entry(e: &ReassemblyEntry) -> (r: Vec<u8>)
        requires
            all_filled(e@.slots),
        ensures
            r@ == concat_slots(e@.slots),
    {
        let n = e.slots.len();
        let mut out: Vec<u8> = Vec::new();
        let mut i: usize = 0;
        proof {
            assert(e@.slots.take(0) =~= Seq::<Option<Seq<u8>>>::empty());
            assert(out@ =~= concat_slots(e@.slots.take(0)));
        }
        while i < n
            invariant
                n == e.slots@.len(),
                i <= n,
                all_filled(e@.slots),
                e@.slots.len() == n,
                out@ == concat_slots(e@.slots.take(i as int)),
            decreases n - i,
        {
            proof {
                lemma_slots_deep_index(&e.slots, i as int);
            }
            match &e.slots[i] {
                Some(b) => {
                    out.extend_from_slice(b.as_slice());
                    proof {
                        lemma_concat_slots_push(e@.slots.take(i as int), e@.slots[i as int]);
                        assert(e@.slots.take(i as int).push(e@.slots[i as int]) =~= e@.slots.take(
                            i + 1,
                        ));
                    }
                },
                None => {
                    proof {
                        assert(e@.slots[i as int] is Some);
                        assert(false);
                    }
                },
            }
            i = i + 1;
        }
        proof {
            assert(e@.slots.take(n as int) =~= e@.slots);
        }
        out
    }

    /// One garbage-collection sweep: evict every entry whose last chunk
    /// arrived longer than the staleness window before `now`, keeping the
    /// rest in order.
    pub fn cleanup_stale_chunks(&mut self, now: u64)
        requires
            old(self).wf(),
        ensures
            final(self).wf(),
            final(self)@ == spec_sweep(old(self)@, now),
    {
        let ghost orig = self@;
        let mut j: usize = 0;
        proof {
            assert(orig.take(0) =~= Seq::<EntryView>::empty());
            assert(orig.skip(0) =~= orig);
            assert(Seq::<EntryView>::empty() + spec_sweep(orig, now) =~= spec_sweep(orig, now));
        }
        while j < self.entries.len()
            invariant
                self.wf(),
                j <= self@.len(),
                self@.take(j as int) + spec_sweep(self@.skip(j as int), now) == spec_sweep(
                    orig,
                    now,
                ),
                forall|k: int| 0 <= k < j ==> !spec_stale(#[trigger] self@[k], now),
            decreases self@.len() - j,
        {
            let ghost cur = self@;
            let stale = now > self.entries[j].last_touch && now - self.entries[j].last_touch
                > STALE_SECS;
            proof {
                assert(stale == spec_stale(cur[j as int], now));
                assert(cur.skip(j as int)[0] == cur[j as int]);
                assert(cur.skip(j as int).drop_first() =~= cur.skip(j + 1));
            }
            if stale {
                self.entries.remove(j);
                proof {
                    assert(self@ =~= cur.remove(j as int));
                    assert(self@.take(j as int) =~= cur.take(j as int));
                    assert(self@.skip(j as int) =~= cur.skip(j + 1));
                }
            } else {
                proof {
                    assert(cur.take(j as int).push(cur[j as int]) =~= cur.take(j + 1));
                    assert(cur.take(j as int) + (seq![cur[j as int]] + spec_sweep(
                        cur.skip(j + 1),
                        now,
                    )) =~= cur.take(j + 1) + spec_sweep(cur.skip(j + 1), now));
                }
                j = j + 1;
            }
        }
        proof {
            assert(self@.skip(j as int).len() == 0);
            assert(spec_sweep(self@.skip(j as int), now) == Seq::<EntryView>::empty());
            assert(self@.take(j as int) =~= self@);
            assert(self@ + Seq::<EntryView>::empty() =~= self@);
        }
    }
}

/// Route one arriving image chunk: feed it to the reassembly buffer and,
/// when an image completes, consult the dedup state; the caller writes
/// the image to the clipboard exactly when `applied` is answered.
pub enum ChunkAction {
    OutOfBounds,
    Stored,
    Completed { applied: bool, width: u64, height: u64, bytes: Vec<u8> },
}

/// Handle one arriving image chunk end to end: reassembly plus the dedup
/// decision. A completed image whose hash matches the last-seen one is
/// our own echoed content: the entry is still freed, but nothing is
/// applied.
pub fn handle_incoming_img_chunk(
    buffer: &mut ReassemblyBuffer,
    dedup: &mut DedupState,
    packet: &ImageChunkPacket,
    now: u64,
) -> (r: ChunkAction)
    requires
        old(buffer).wf(),
    ensures
        final(buffer).wf(),
        final(buffer)@ == spec_buffer_after(old(buffer)@, packet@, now),
        (r is OutOfBounds) == spec_rejects(old(buffer)@, packet@),
        (r is Completed) == (!spec_rejects(old(buffer)@, packet@) && spec_completes(
            old(buffer)@,
            packet@,
            now,
        )),
        !(r is Completed) ==> final(dedup)@ == old(dedup)@,
        r matches ChunkAction::Completed { applied, width, height, bytes } ==> ({
            let e1 = spec_entry_after(old(buffer)@, packet@, now);
            &&& width == e1.width
            &&& height == e1.height
            &&& bytes@ == concat_slots(e1.slots)
            &&& applied == spec_applies_image(old(dedup)@, packet@.hash)
            &&& (applied ==> final(dedup)@ == spec_record_image(old(dedup)@, packet@.hash))
            &&& (!applied ==> final(dedup)@ == old(dedup)@)
        }),
{
    let outcome = buffer.insert_chunk(packet, now);
    match outcome {
        ChunkOutcome::OutOfBounds => ChunkAction::OutOfBounds,
        ChunkOutcome::Stored => ChunkAction::Stored,
        ChunkOutcome::Completed { width, height, bytes } => {
            let applied = dedup.note_remote_image(&packet.hash);
            ChunkAction::Completed { applied, width, height, bytes }
        },
    }
}

} // verus!
