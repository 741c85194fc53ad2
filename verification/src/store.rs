//! The log-structured engine: an in-memory index over a catalog of
//! append-only segments, with replay on open and compaction of stale
//! records.
//!
//! The store works on the catalog as plain bytes; the surrounding program
//! owns the directory, feeds the segment files in at open, and carries the
//! store's file operations back out to disk in order.

use vstd::prelude::*;
use crate::assoc::{
    assoc_del, assoc_distinct, assoc_get, assoc_map, assoc_put, Keyed, lemma_assoc_map_at,
    lemma_assoc_map_domain,
};
use crate::codec::{
    cmd_encodable, decode_cmd_at, encode_cmd, lemma_decode_depends_on_prefix, lemma_encode_decode,
    spec_decode, spec_encode, Cmd, CmdView,
};
use crate::error::{Error, ErrorKind};
use crate::replay::{
    apply_record, entry_pos, fold_catalog, fold_data, lemma_fold_catalog_entries,
    lemma_fold_catalog_prefix_none, lemma_fold_catalog_take_step, lemma_fold_data_append,
    lemma_fold_data_torn, pos_map, value_map, CmdPos, LiveEntry, Segment,
};
use crate::bytes::{push_bytes, vec_range};

verus! {

/// Bytes of stale records that trigger a compaction before the next append.
pub const COMPACTION_THRESHOLD: u64 = 1024 * 1024;

/// A directory action the surrounding program must mirror to disk, in
/// order, to keep the real segment files equal to the store's catalog.
#[derive(Debug, Clone)]
pub enum FileOp {
    /// Create the zero-byte `.kvs` marker: the directory is initialized.
    CreateMarker,
    /// Create the empty segment file `<id>.log`.
    CreateSegmentFile {
        /// The new segment's id.
        id: u64,
    },
    /// Append `bytes` to segment file `<id>.log` and flush it.
    AppendSegment {
        /// The segment appended to.
        id: u64,
        /// The bytes to append.
        bytes: Vec<u8>,
    },
    /// Delete segment file `<id>.log`.
    DeleteSegmentFile {
        /// The segment to delete.
        id: u64,
    },
    /// Create the zero-byte `.compact-lock` file.
    CreateCompactLock,
    /// Delete the `.compact-lock` file.
    DeleteCompactLock,
}

/// The catalog's shape at rest: a contiguous read-only prefix with ids
/// `1..=N`, then the active segment with id `N + 2`; the slot `N + 1` is
/// the reserved target of the next compaction.
pub open spec fn catalog_shape(segs: Seq<Segment>) -> bool {
    &&& segs.len() >= 1
    &&& forall|i: int| 0 <= i < segs.len() - 1 ==> (#[trigger] segs[i]).id as int == i + 1
    &&& segs.last().id as int == segs.len() + 1
}

/// A catalog the store accepts: well shaped, and every segment decodes
/// contiguously to its very end.
pub open spec fn catalog_valid(segs: Seq<Segment>) -> bool {
    &&& catalog_shape(segs)
    &&& fold_catalog(segs) is Some
}

/// The operation at `i` appends exactly `bytes` to segment `id`.
pub open spec fn append_op_at(ops: Seq<FileOp>, i: int, id: u64, bytes: Seq<u8>) -> bool {
    &&& 0 <= i < ops.len()
    &&& (ops[i] matches FileOp::AppendSegment { id: j, bytes: b } && j == id && b@ == bytes)
}

/// The six directory actions of one compaction of active segment `a`,
/// standing in order at `base`: mark, create the new active and the
/// output, write the output's bytes, delete the source, unmark.
pub open spec fn compaction_ops_at(ops: Seq<FileOp>, base: int, a: u64, out_data: Seq<u8>) -> bool {
    &&& 0 <= base
    &&& base + 6 <= ops.len()
    &&& ops[base] == FileOp::CreateCompactLock
    &&& ops[base + 1] == (FileOp::CreateSegmentFile { id: (a + 1) as u64 })
    &&& ops[base + 2] == (FileOp::CreateSegmentFile { id: (a - 1) as u64 })
    &&& (ops[base + 3] matches FileOp::AppendSegment { id, bytes } && id == (a - 1) as u64
        && bytes@ == out_data)
    &&& ops[base + 4] == (FileOp::DeleteSegmentFile { id: a })
    &&& ops[base + 5] == FileOp::DeleteCompactLock
}

/// In a well-shaped catalog, ids determine positions.
proof fn lemma_shape_ids_unique(segs: Seq<Segment>, i: int, j: int)
    requires
        catalog_shape(segs),
        0 <= i < segs.len(),
        0 <= j < segs.len(),
        segs[i].id == segs[j].id,
    ensures
        i == j,
{
}

/// How a last-action table `t` of one segment relates the mapping `m0`
/// before that segment to the mapping `m1` after it: a key whose last
/// record binds a value is live in `m1`, in this segment; a key whose last
/// record erases is dead; an untouched key keeps its `m0` entry.
pub open spec fn acts_describe(
    t: Map<Seq<char>, Option<String>>,
    m0: Map<Seq<char>, LiveEntry>,
    m1: Map<Seq<char>, LiveEntry>,
    id: u64,
) -> bool {
    &&& forall|k: Seq<char>|
        #[trigger] t.dom().contains(k) ==> match t[k] {
            Some(v) => m1.dom().contains(k) && m1[k].value == v@ && m1[k].id == id,
            None => !m1.dom().contains(k),
        }
    &&& forall|k: Seq<char>|
        !(#[trigger] t.dom().contains(k)) ==> {
            &&& m1.dom().contains(k) <==> m0.dom().contains(k)
            &&& m1.dom().contains(k) ==> m1[k] == m0[k]
        }
}

/// The total byte length of a catalog's segments.
pub open spec fn lens_sum(segs: Seq<Segment>) -> int
    decreases segs.len(),
{
    if segs.len() == 0 {
        0
    } else {
        lens_sum(segs.drop_last()) + segs.last().data@.len()
    }
}

/// The log-structured key-value store.
///
/// A store is well formed (`wf`) when its catalog is valid and its index
/// is exactly the position part of the catalog's replay; its view is the
/// value part: the mapping from live keys to their values.
#[derive(Debug)]
pub struct KvStore {
    segments: Vec<Segment>,
    index: Vec<Keyed<CmdPos>>,
    uncompacted: u64,
    pending: Vec<FileOp>,
}

impl View for KvStore {
    type V = Map<Seq<char>, Seq<char>>;

    closed spec fn view(&self) -> Map<Seq<char>, Seq<char>> {
        value_map(fold_catalog(self.segments@)->Some_0)
    }
}

impl KvStore {
    /// The store's segment catalog.
    pub closed spec fn catalog(&self) -> Seq<Segment> {
        self.segments@
    }

    /// The catalog's replay: every live key's position and value.
    pub closed spec fn live(&self) -> Map<Seq<char>, LiveEntry> {
        fold_catalog(self.segments@)->Some_0
    }

    /// The directory actions not yet carried to disk.
    pub closed spec fn pending_ops(&self) -> Seq<FileOp> {
        self.pending@
    }

    /// The byte count that triggers compaction when it reaches
    /// [`COMPACTION_THRESHOLD`].
    pub closed spec fn stale_bytes(&self) -> u64 {
        self.uncompacted
    }

    /// Well-formedness: valid catalog, and the index is the replay's
    /// position map.
    pub closed spec fn wf(&self) -> bool {
        &&& catalog_valid(self.segments@)
        &&& assoc_distinct(self.index@)
        &&& assoc_map(self.index@) == pos_map(self.live())
    }

    /// A fresh, empty store over a fresh directory: one empty active
    /// segment with id 2; id 1 stays reserved for the first compaction.
    pub fn new() -> (s: KvStore)
        ensures
            s.wf(),
            s@ == Map::<Seq<char>, Seq<char>>::empty(),
            s.catalog().len() == 1,
            s.catalog()[0].id == 2,
            s.catalog()[0].data@ == Seq::<u8>::empty(),
            s.stale_bytes() == 0,
            s.pending_ops() == seq![FileOp::CreateMarker, (FileOp::CreateSegmentFile { id: 2u64 })],
    {
        let mut pending: Vec<FileOp> = Vec::new();
        pending.push(FileOp::CreateMarker);
        pending.push(FileOp::CreateSegmentFile { id: 2 });
        let mut segments: Vec<Segment> = Vec::new();
        segments.push(Segment { id: 2, data: Vec::new() });
        let s = KvStore { segments, index: Vec::new(), uncompacted: 0, pending };
        proof {
            assert(s.segments@.drop_last() =~= Seq::<Segment>::empty());
            assert(fold_catalog(Seq::<Segment>::empty()) == Some(
                Map::<Seq<char>, LiveEntry>::empty(),
            ));
            assert(fold_catalog(s.segments@) == Some(Map::<Seq<char>, LiveEntry>::empty()));
            assert(assoc_map(s.index@) =~= pos_map(s.live()));
            assert(s@ =~= Map::<Seq<char>, Seq<char>>::empty());
            assert(s.pending@ =~= seq![
                FileOp::CreateMarker,
                (FileOp::CreateSegmentFile { id: 2u64 }),
            ]);
        }
        s
    }

    /// How many segment files the catalog holds.
    pub fn segment_count(&self) -> (r: usize)
        ensures
            r == self.catalog().len(),
    {
        self.segments.len()
    }

    /// The id of the active segment, the only one appended to.
    pub fn active_id(&self) -> (r: u64)
        requires
            self.wf(),
        ensures
            r as int == self.catalog().len() + 1,
    {
        self.segments[self.segments.len() - 1].id
    }

    /// Hand the not-yet-mirrored directory actions out, oldest first,
    /// leaving none behind. Nothing else about the store changes.
    pub fn take_pending(&mut self) -> (r: Vec<FileOp>)
        ensures
            r@ == old(self).pending_ops(),
            final(self).pending_ops() == Seq::<FileOp>::empty(),
            final(self).catalog() == old(self).catalog(),
            final(self)@ == old(self)@,
            final(self).stale_bytes() == old(self).stale_bytes(),
            old(self).wf() ==> final(self).wf(),
    {
        let mut r: Vec<FileOp> = Vec::new();
        r.append(&mut self.pending);
        proof {
            assert(r@ =~= old(self).pending@);
        }
        r
    }

    /// Give the catalog up, as on a clean close: the segment files a
    /// faithful directory holds at this moment.
    pub fn into_segments(self) -> (r: Vec<Segment>)
        ensures
            r@ == self.catalog(),
    {
        let KvStore { segments, index: _, uncompacted: _, pending: _ } = self;
        segments
    }

    /// Open a store over what the directory holds: `initialized` and
    /// `compact_lock` say whether the `.kvs` marker and the `.compact-lock`
    /// file exist, and `segments` are the `<id>.log` files, in ascending id
    /// order.
    ///
    /// An uninitialized directory yields a fresh store, refused only if a
    /// segment file with the initial active id is already there. An
    /// initialized one is replayed, and is refused as `CorruptState` when a
    /// compaction was interrupted, the id set is not a read-only prefix
    /// plus an active segment, or any segment holds a torn or corrupt
    /// record.
    pub fn open(initialized: bool, compact_lock: bool, segments: Vec<Segment>) -> (r: Result<
        KvStore,
        Error,
    >)
        ensures
            match r {
                Ok(s) => {
                    &&& s.wf()
                    &&& if initialized {
                        &&& !compact_lock
                        &&& catalog_valid(segments@)
                        &&& s.catalog() == segments@
                        &&& s@ == value_map(fold_catalog(segments@)->Some_0)
                        &&& s.pending_ops() == Seq::<FileOp>::empty()
                        &&& s.stale_bytes() as int == if lens_sum(
                            segments@.take(segments@.len() - 1),
                        ) <= u64::MAX {
                            lens_sum(segments@.take(segments@.len() - 1))
                        } else {
                            u64::MAX as int
                        }
                    } else {
                        &&& !(exists|i: int|
                            0 <= i < segments@.len() && (#[trigger] segments@[i]).id == 2)
                        &&& s@ == Map::<Seq<char>, Seq<char>>::empty()
                        &&& s.pending_ops() == seq![
                            FileOp::CreateMarker,
                            (FileOp::CreateSegmentFile { id: 2u64 }),
                        ]
                    }
                },
                Err(e) => {
                    &&& e.kind == ErrorKind::CorruptState
                    &&& if initialized {
                        compact_lock || !catalog_valid(segments@)
                    } else {
                        exists|i: int|
                            0 <= i < segments@.len() && (#[trigger] segments@[i]).id == 2
                    }
                },
            },
    {
        let n = segments.len();
        if !initialized {
            let mut i: usize = 0;
            while i < n
                invariant
                    !initialized,
                    i <= n,
                    n == segments@.len(),
                    forall|j: int| 0 <= j < i ==> (#[trigger] segments@[j]).id != 2,
                decreases n - i,
            {
                if segments[i].id == 2 {
                    proof {
                        assert((i as int) < segments@.len());
                        assert(segments@[i as int].id == 2);
                        assert(exists|j: int|
                            0 <= j < segments@.len() && (#[trigger] segments@[j]).id == 2);
                    }
                    return Err(Error::new(ErrorKind::CorruptState));
                }
                i = i + 1;
            }
            return Ok(KvStore::new());
        }
        if compact_lock {
            return Err(Error::new(ErrorKind::CorruptState));
        }
        if n == 0 {
            return Err(Error::new(ErrorKind::CorruptState));
        }
        // The id set must be 1..=N followed by the active id N + 2.
        let mut i: usize = 0;
        while i < n - 1
            invariant
                initialized,
                i <= n - 1,
                n == segments@.len(),
                n >= 1,
                forall|j: int| 0 <= j < i ==> (#[trigger] segments@[j]).id as int == j + 1,
            decreases n - i,
        {
            if segments[i].id != (i as u64) + 1 {
                proof {
                    assert(!catalog_shape(segments@));
                }
                return Err(Error::new(ErrorKind::CorruptState));
            }
            i = i + 1;
        }
        if n as u64 > u64::MAX - 1 {
            proof {
                assert(segments@.last().id as int <= u64::MAX);
                assert(!catalog_shape(segments@));
            }
            return Err(Error::new(ErrorKind::CorruptState));
        }
        if segments[n - 1].id != n as u64 + 1 {
            proof {
                assert(!catalog_shape(segments@));
            }
            return Err(Error::new(ErrorKind::CorruptState));
        }
        assert(catalog_shape(segments@));
        // Replay every segment, oldest first, folding records into the index.
        let mut index: Vec<Keyed<CmdPos>> = Vec::new();
        let ghost mut m = Map::<Seq<char>, LiveEntry>::empty();
        let mut si: usize = 0;
        proof {
            assert(segments@.take(0) =~= Seq::<Segment>::empty());
            assert(assoc_map(index@) =~= pos_map(m));
        }
        while si < n
            invariant
                initialized,
                si <= n,
                n == segments@.len(),
                fold_catalog(segments@.take(si as int)) == Some(m),
                assoc_distinct(index@),
                assoc_map(index@) == pos_map(m),
            decreases n - si,
        {
            let id = segments[si].id;
            let dlen = segments[si].data.len();
            let ghost m_enter = m;
            let mut off: usize = 0;
            while off < dlen
                invariant
                    initialized,
                    off <= dlen,
                    si < n,
                    n == segments@.len(),
                    id == segments@[si as int].id,
                    dlen == segments@[si as int].data@.len(),
                    fold_catalog(segments@.take(si as int)) == Some(m_enter),
                    fold_data(id, segments@[si as int].data@, off as int, m) == fold_data(
                        id,
                        segments@[si as int].data@,
                        0,
                        m_enter,
                    ),
                    assoc_distinct(index@),
                    assoc_map(index@) == pos_map(m),
                decreases dlen - off,
            {
                let ghost data = segments@[si as int].data@;
                match decode_cmd_at(&segments[si].data, off) {
                    Err(_) => {
                        proof {
                            assert(fold_data(id, data, off as int, m) is None);
                            lemma_fold_catalog_take_step(segments@, si as int);
                            lemma_fold_catalog_prefix_none(segments@, si as int + 1);
                        }
                        return Err(Error::new(ErrorKind::CorruptState));
                    },
                    Ok(p) => {
                        let (cmd, end) = p;
                        let ghost c = cmd@;
                        proof {
                            assert(spec_decode(data.skip(off as int)) == Some(
                                (c, end - off as int),
                            ));
                        }
                        match cmd {
                            Cmd::Put { key, value } => {
                                let ghost kv = key@;
                                let ghost vv = value@;
                                assoc_put(
                                    &mut index,
                                    key,
                                    CmdPos { id, pos: off as u64, len: (end - off) as u64 },
                                );
                                proof {
                                    m = apply_record(m, id, off as int, end - off as int, c);
                                }
                            },
                            Cmd::Rm { key } => {
                                assoc_del(&mut index, &key);
                                proof {
                                    m = apply_record(m, id, off as int, end - off as int, c);
                                }
                            },
                        }
                        proof {
                            assert(assoc_map(index@) =~= pos_map(m));
                        }
                        off = end;
                    },
                }
            }
            proof {
                lemma_fold_catalog_take_step(segments@, si as int);
                assert(segments@.take(si as int + 1).last() == segments@[si as int]);
            }
            si = si + 1;
        }
        proof {
            assert(segments@.take(n as int) =~= segments@);
        }
        // Stale-byte accounting: the bytes of every non-active segment.
        let mut unc: u64 = 0;
        let mut ui: usize = 0;
        proof {
            assert(lens_sum(segments@.take(0)) == 0) by {
                assert(segments@.take(0) =~= Seq::<Segment>::empty());
            }
        }
        while ui < n - 1
            invariant
                ui <= n - 1,
                n == segments@.len(),
                n >= 1,
                unc as int == if lens_sum(segments@.take(ui as int)) <= u64::MAX {
                    lens_sum(segments@.take(ui as int))
                } else {
                    u64::MAX as int
                },
            decreases n - ui,
        {
            let d = segments[ui].data.len() as u64;
            if unc <= u64::MAX - d {
                unc = unc + d;
            } else {
                unc = u64::MAX;
            }
            proof {
                assert(segments@.take(ui as int + 1).drop_last() =~= segments@.take(ui as int));
                assert(segments@.take(ui as int + 1).last() == segments@[ui as int]);
            }
            ui = ui + 1;
        }
        let s = KvStore { segments, index, uncompacted: unc, pending: Vec::new() };
        proof {
            assert(s.pending@ =~= Seq::<FileOp>::empty());
        }
        Ok(s)
    }

    /// Scan one segment's bytes into its last-action table: for each key
    /// touched, the value its last record binds, or `None` for a trailing
    /// erase.
    ///
    /// `acts_describe` ties the table to the segment's replay effect.
    fn scan_actions(
        data: &Vec<u8>,
        Ghost(id): Ghost<u64>,
        Ghost(m0): Ghost<Map<Seq<char>, LiveEntry>>,
    ) -> (r: Vec<Keyed<Option<String>>>)
        requires
            fold_data(id, data@, 0, m0) is Some,
        ensures
            assoc_distinct(r@),
            acts_describe(assoc_map(r@), m0, fold_data(id, data@, 0, m0)->Some_0, id),
    {
        let mut actions: Vec<Keyed<Option<String>>> = Vec::new();
        let ghost mut m = m0;
        let dlen = data.len();
        let mut off: usize = 0;
        proof {
            assert(acts_describe(assoc_map(actions@), m0, m, id));
        }
        while off < dlen
            invariant
                off <= dlen,
                dlen == data@.len(),
                fold_data(id, data@, off as int, m) == fold_data(id, data@, 0, m0),
                fold_data(id, data@, 0, m0) is Some,
                assoc_distinct(actions@),
                acts_describe(assoc_map(actions@), m0, m, id),
            decreases dlen - off,
        {
            match decode_cmd_at(data, off) {
                Err(_) => {
                    proof {
                        assert(false);
                    }
                },
                Ok(p) => {
                    let (cmd, end) = p;
                    let ghost c = cmd@;
                    match cmd {
                        Cmd::Put { key, value } => {
                            assoc_put(&mut actions, key, Some(value));
                        },
                        Cmd::Rm { key } => {
                            assoc_put(&mut actions, key, None);
                        },
                    }
                    proof {
                        m = apply_record(m, id, off as int, end - off as int, c);
                    }
                    off = end;
                },
            }
        }
        actions
    }

    /// Fold the records of the active segment down to its live entries.
    ///
    /// The active segment is first rotated: a fresh, empty active segment
    /// with the next id is created, so no new record lands in the one
    /// being compacted. Its live bindings are then rewritten into the
    /// reserved slot just below it, erases of keys dead in older segments
    /// are kept as tombstones, the index moves to the new positions, and
    /// the source segment is deleted. The store's contents are unchanged;
    /// the catalog keeps its shape with one segment more and no stale
    /// bytes counted.
    ///
    /// In the unreachable case that the id space is exhausted the store is
    /// left exactly as it was.
    pub fn compact(&mut self) -> (r: Result<(), Error>)
        requires
            old(self).wf(),
        ensures
            final(self).wf(),
            r is Ok,
            final(self)@ == old(self)@,
            old(self).catalog().last().id == u64::MAX ==> *final(self) == *old(self),
            final(self).pending_ops().subrange(0, old(self).pending_ops().len() as int) == old(
                self,
            ).pending_ops(),
            old(self).catalog().last().id < u64::MAX ==> ({
                let a = old(self).catalog().last().id;
                let base = old(self).pending_ops().len() as int;
                &&& final(self).catalog().len() == old(self).catalog().len() + 1
                &&& final(self).stale_bytes() == 0
                &&& final(self).catalog().last().data@ == Seq::<u8>::empty()
                &&& final(self).catalog().last().id as int == a as int + 1
                &&& final(self).catalog()[final(self).catalog().len() - 2].id as int == a as int
                    - 1
                &&& final(self).catalog().drop_last().drop_last() == old(
                    self,
                ).catalog().drop_last()
                &&& final(self).pending_ops().len() == base + 6
                &&& compaction_ops_at(
                    final(self).pending_ops(),
                    base,
                    a,
                    final(self).catalog()[final(self).catalog().len() - 2].data@,
                )
            }),
    {
        let n = self.segments.len();
        let a = self.segments[n - 1].id;
        if a == u64::MAX {
            proof {
                assert(final(self).pending_ops().subrange(0, old(self).pending_ops().len() as int)
                    =~= old(self).pending_ops());
            }
            return Ok(());
        }
        let ghost old_segs = old(self).segments@;
        let ghost m0 = fold_catalog(old_segs.drop_last())->Some_0;
        let ghost live_old = fold_catalog(old_segs)->Some_0;
        proof {
            assert(fold_catalog(old_segs) == fold_data(a, old_segs.last().data@, 0, m0));
        }
        // Rotate: a fresh active segment, so nothing lands in the source.
        self.pending.push(FileOp::CreateCompactLock);
        self.pending.push(FileOp::CreateSegmentFile { id: a + 1 });
        self.pending.push(FileOp::CreateSegmentFile { id: a - 1 });
        self.segments.push(Segment { id: a + 1, data: Vec::new() });
        self.uncompacted = 0;
        proof {
            assert(self.segments@.drop_last() =~= old_segs);
        }
        // The source segment's last-action table.
        let actions = Self::scan_actions(&self.segments[n - 1].data, Ghost(a), Ghost(m0));
        // Rewrite the live bindings and needed tombstones into the slot
        // below the source, moving the index as each record is placed.
        let mut out = Segment { id: a - 1, data: Vec::new() };
        let ghost mut m_out = m0;
        let mut t: usize = 0;
        proof {
            assert(assoc_map(actions@.take(0)) =~= Map::<Seq<char>, Option<String>>::empty()) by {
                assert(actions@.take(0) =~= Seq::<Keyed<Option<String>>>::empty());
            }
        }
        while t < actions.len()
            invariant
                t <= actions@.len(),
                n == old(self).segments@.len(),
                a as int == n + 1,
                a < u64::MAX,
                m0 == fold_catalog(old(self).segments@.drop_last())->Some_0,
                live_old == fold_catalog(old(self).segments@)->Some_0,
                fold_catalog(old(self).segments@) is Some,
                catalog_shape(old(self).segments@),
                assoc_distinct(actions@),
                acts_describe(assoc_map(actions@), m0, live_old, a),
                out.id as int == n,
                fold_data(out.id, out.data@, 0, m0) == Some(m_out),
                assoc_distinct(self.index@),
                self.segments@.len() == n + 1,
                self.segments@.drop_last() == old(self).segments@,
                self.segments@.last().id as int == a as int + 1,
                self.segments@.last().data@ == Seq::<u8>::empty(),
                self.uncompacted == 0,
                self.pending@ == old(self).pending@ + seq![
                    FileOp::CreateCompactLock,
                    (FileOp::CreateSegmentFile { id: (a + 1) as u64 }),
                    (FileOp::CreateSegmentFile { id: (a - 1) as u64 }),
                ],
                forall|k: Seq<char>|
                    #[trigger] assoc_map(actions@.take(t as int)).dom().contains(k) ==> match assoc_map(
                        actions@.take(t as int),
                    )[k] {
                        Some(v) => {
                            &&& m_out.dom().contains(k)
                            &&& m_out[k].value == v@
                            &&& m_out[k].id == out.id
                            &&& assoc_map(self.index@).dom().contains(k)
                            &&& assoc_map(self.index@)[k] == entry_pos(m_out[k])
                        },
                        None => !m_out.dom().contains(k) && !assoc_map(
                            self.index@,
                        ).dom().contains(k),
                    },
                forall|k: Seq<char>|
                    !(#[trigger] assoc_map(actions@.take(t as int)).dom().contains(k)) ==> {
                        &&& (m_out.dom().contains(k) <==> m0.dom().contains(k))
                        &&& (m_out.dom().contains(k) ==> m_out[k] == m0[k])
                        &&& (assoc_map(self.index@).dom().contains(k) <==> pos_map(
                            live_old,
                        ).dom().contains(k))
                        &&& (assoc_map(self.index@).dom().contains(k) ==> assoc_map(self.index@)[k]
                            == pos_map(live_old)[k])
                    },
            decreases actions@.len() - t,
        {
            proof {
                lemma_assoc_map_at(actions@, t as int);
                assert(actions@.take(t as int + 1).drop_last() =~= actions@.take(t as int));
                lemma_assoc_map_domain(actions@.take(t as int), actions@[t as int].key@);
                assert(forall|j: int|
                    0 <= j < t ==> (#[trigger] actions@.take(t as int)[j]) == actions@[j]);
                assert(!assoc_map(actions@.take(t as int)).dom().contains(
                    actions@[t as int].key@,
                ));
            }
            let ghost kv = actions@[t as int].key@;
            match &actions[t].v {
                Some(v) => {
                    proof {
                        assert(live_old.dom().contains(kv) && live_old[kv].value == v@
                            && live_old[kv].id == a);
                        assert(pos_map(live_old).dom().contains(kv));
                        assert(assoc_map(self.index@)[kv] == pos_map(live_old)[kv]);
                    }
                    match assoc_get(&self.index, &actions[t].key) {
                        Some(pr) => {
                            let p = *pr;
                            if p.id == a {
                                let cmd = Cmd::set(actions[t].key.clone(), v.clone());
                                let bytes = encode_cmd(&cmd);
                                proof {
                                    lemma_encode_decode(cmd@, Seq::<u8>::empty());
                                    assert(spec_encode(cmd@) + Seq::<u8>::empty() =~= spec_encode(
                                        cmd@,
                                    ));
                                }
                                let start = out.data.len();
                                let ghost out_before = out.data@;
                                push_bytes(&mut out.data, &bytes);
                                let end = out.data.len();
                                proof {
                                    lemma_fold_data_append(
                                        out.id,
                                        out_before,
                                        bytes@,
                                        cmd@,
                                        0,
                                        m0,
                                    );
                                    m_out = apply_record(
                                        m_out,
                                        out.id,
                                        start as int,
                                        end - start as int,
                                        cmd@,
                                    );
                                }
                                assoc_put(
                                    &mut self.index,
                                    actions[t].key.clone(),
                                    CmdPos {
                                        id: out.id,
                                        pos: start as u64,
                                        len: (end - start) as u64,
                                    },
                                );
                            } else {
                                proof {
                                    assert(false);
                                }
                            }
                        },
                        None => {
                            proof {
                                assert(false);
                            }
                        },
                    }
                },
                None => {
                    proof {
                        assert(!live_old.dom().contains(kv));
                        assert(!pos_map(live_old).dom().contains(kv));
                        assert(!assoc_map(self.index@).dom().contains(kv));
                    }
                    match assoc_get(&self.index, &actions[t].key) {
                        None => {
                            let cmd = Cmd::rm(actions[t].key.clone());
                            let bytes = encode_cmd(&cmd);
                            proof {
                                lemma_encode_decode(cmd@, Seq::<u8>::empty());
                                assert(spec_encode(cmd@) + Seq::<u8>::empty() =~= spec_encode(
                                    cmd@,
                                ));
                            }
                            let start = out.data.len();
                            let ghost out_before = out.data@;
                            push_bytes(&mut out.data, &bytes);
                            let end = out.data.len();
                            proof {
                                lemma_fold_data_append(out.id, out_before, bytes@, cmd@, 0, m0);
                                m_out = apply_record(
                                    m_out,
                                    out.id,
                                    start as int,
                                    end - start as int,
                                    cmd@,
                                );
                            }
                        },
                        Some(_) => {
                            proof {
                                assert(false);
                            }
                        },
                    }
                },
            }
            t = t + 1;
        }
        proof {
            assert(actions@.take(actions@.len() as int) =~= actions@);
        }
        // Retire the source: its live records now stand in the slot below.
        let out_bytes = vec_range(&out.data, 0, out.data.len());
        let active = match self.segments.pop() {
            Some(seg) => seg,
            None => {
                proof {
                    assert(false);
                }
                Segment { id: 0, data: Vec::new() }
            },
        };
        let _ = self.segments.pop();
        proof {
            assert(self.segments@ =~= old(self).segments@.drop_last());
        }
        self.segments.push(out);
        self.segments.push(active);
        self.pending.push(FileOp::AppendSegment { id: a - 1, bytes: out_bytes });
        self.pending.push(FileOp::DeleteSegmentFile { id: a });
        self.pending.push(FileOp::DeleteCompactLock);
        proof {
            let segs2 = self.segments@;
            assert(segs2.drop_last().drop_last() =~= old(self).segments@.drop_last());
            assert(fold_catalog(segs2.drop_last()) == Some(m_out));
            assert(segs2.last().data@ =~= Seq::<u8>::empty());
            assert(fold_catalog(segs2) == Some(m_out));
            assert(catalog_shape(segs2));
            let tm = assoc_map(actions@.take(actions@.len() as int));
            assert(tm == assoc_map(actions@));
            assert forall|k: Seq<char>| #[trigger] m_out.dom().contains(k) implies {
                &&& live_old.dom().contains(k)
                &&& m_out[k].value == live_old[k].value
            } by {
                if tm.dom().contains(k) {
                    assert(tm[k] is Some);
                } else {
                    assert(m_out[k] == m0[k]);
                    assert(live_old[k] == m0[k]);
                }
            }
            assert forall|k: Seq<char>| #[trigger] live_old.dom().contains(k) implies
                m_out.dom().contains(k) by {
                if tm.dom().contains(k) {
                    assert(!(tm[k] is None));
                } else {
                }
            }
            assert(value_map(m_out) =~= value_map(live_old));
            assert forall|k: Seq<char>| #[trigger] assoc_map(self.index@).dom().contains(k)
                implies {
                &&& m_out.dom().contains(k)
                &&& assoc_map(self.index@)[k] == entry_pos(m_out[k])
            } by {
                if tm.dom().contains(k) {
                    assert(tm[k] is Some);
                } else {
                    assert(pos_map(live_old).dom().contains(k));
                    assert(live_old[k] == m0[k] && m_out[k] == m0[k]);
                    assert(assoc_map(self.index@)[k] == pos_map(live_old)[k]);
                }
            }
            assert forall|k: Seq<char>| #[trigger] m_out.dom().contains(k) implies assoc_map(
                self.index@,
            ).dom().contains(k) by {
                if tm.dom().contains(k) {
                    assert(tm[k] is Some);
                } else {
                    assert(m_out[k] == m0[k]);
                    assert(live_old.dom().contains(k));
                    assert(pos_map(live_old).dom().contains(k));
                }
            }
            assert(assoc_map(self.index@) =~= pos_map(m_out));
            assert(final(self).pending_ops().subrange(0, old(self).pending_ops().len() as int)
                =~= old(self).pending_ops());
            assert(segs2.len() == old(self).segments@.len() + 1);
            assert(segs2.last().id as int == a as int + 1);
            assert(segs2[segs2.len() - 2].id as int == a as int - 1);
            assert(segs2[segs2.len() - 2].data@ == out_bytes@);
            assert(compaction_ops_at(
                self.pending@,
                old(self).pending@.len() as int,
                a,
                segs2[segs2.len() - 2].data@,
            ));
        }
        Ok(())
    }

    /// Append one encoded record to the active segment, leaving the index
    /// untouched: the caller linearizes the index change with the append.
    fn append_active(&mut self, bytes: Vec<u8>, Ghost(c): Ghost<CmdView>) -> (r: (u64, usize,
        usize))
        requires
            old(self).wf(),
            spec_decode(bytes@) == Some((c, bytes@.len() as int)),
            bytes@.len() >= 1,
        ensures
            ({
                let (id, start, end) = r;
                &&& catalog_valid(final(self).segments@)
                &&& fold_catalog(final(self).segments@) == Some(
                    apply_record(old(self).live(), id, start as int, end - start, c),
                )
                &&& id as int == old(self).catalog().len() + 1
                &&& start == old(self).catalog().last().data@.len()
                &&& end - start == bytes@.len()
                &&& final(self).catalog().len() == old(self).catalog().len()
                &&& final(self).segments@.drop_last() == old(self).segments@.drop_last()
                &&& final(self).segments@.last().id == old(self).segments@.last().id
                &&& final(self).segments@.last().data@ == old(self).segments@.last().data@
                    + bytes@
                &&& final(self).index@ == old(self).index@
                &&& final(self).stale_bytes() == old(self).stale_bytes()
                &&& final(self).pending_ops() == old(self).pending_ops().push(
                    (FileOp::AppendSegment { id, bytes: bytes }),
                )
            }),
    {
        let mut active = self.segments.pop().unwrap();
        let a_id = active.id;
        let start = active.data.len();
        push_bytes(&mut active.data, &bytes);
        let end = active.data.len();
        self.segments.push(active);
        proof {
            let old_segs = old(self).segments@;
            assert(self.segments@.drop_last() =~= old_segs.drop_last());
            assert(self.segments@.last().data@ == old_segs.last().data@ + bytes@);
            lemma_fold_data_append(
                a_id,
                old_segs.last().data@,
                bytes@,
                c,
                0,
                fold_catalog(old_segs.drop_last())->Some_0,
            );
        }
        self.pending.push(FileOp::AppendSegment { id: a_id, bytes });
        (a_id, start, end)
    }

    /// Record freshly written bytes toward the compaction trigger,
    /// saturating rather than wrapping.
    fn add_stale(&mut self, delta: u64)
        ensures
            final(self).stale_bytes() as int == if old(self).stale_bytes() + delta <= u64::MAX {
                old(self).stale_bytes() + delta
            } else {
                u64::MAX as int
            },
            final(self).segments@ == old(self).segments@,
            final(self).index@ == old(self).index@,
            final(self).pending_ops() == old(self).pending_ops(),
    {
        if self.uncompacted <= u64::MAX - delta {
            self.uncompacted = self.uncompacted + delta;
        } else {
            self.uncompacted = u64::MAX;
        }
    }

    /// Bind `key` to `value`, durably: the record is appended to the active
    /// segment and the index moves to it in the same step. When the stale
    /// bytes have reached the threshold, a compaction runs first.
    #[verifier::rlimit(60)]
    pub fn set(&mut self, key: String, value: String) -> (r: Result<(), Error>)
        requires
            old(self).wf(),
        ensures
            final(self).wf(),
            r is Ok,
            final(self)@ == old(self)@.insert(key@, value@),
            final(self).stale_bytes() as int == ({
                let base: int = if old(self).stale_bytes() >= COMPACTION_THRESHOLD && old(
                    self,
                ).catalog().last().id < u64::MAX {
                    0
                } else {
                    old(self).stale_bytes() as int
                };
                let d = spec_encode(CmdView::Put { key: key@, value: value@ }).len() as int;
                if base + d <= u64::MAX {
                    base + d
                } else {
                    u64::MAX as int
                }
            }),
            (old(self).stale_bytes() < COMPACTION_THRESHOLD || old(self).catalog().last().id
                == u64::MAX) ==> ({
                let enc = spec_encode(CmdView::Put { key: key@, value: value@ });
                let a0 = old(self).catalog().last().id;
                let base = old(self).pending_ops().len() as int;
                &&& final(self).catalog().len() == old(self).catalog().len()
                &&& final(self).catalog().drop_last() == old(self).catalog().drop_last()
                &&& final(self).catalog().last().id == a0
                &&& final(self).catalog().last().data@ == old(self).catalog().last().data@ + enc
                &&& final(self).pending_ops().len() == base + 1
                &&& final(self).pending_ops().subrange(0, base) == old(self).pending_ops()
                &&& append_op_at(final(self).pending_ops(), base, a0, enc)
            }),
            (old(self).stale_bytes() >= COMPACTION_THRESHOLD && old(self).catalog().last().id
                < u64::MAX) ==> ({
                let enc = spec_encode(CmdView::Put { key: key@, value: value@ });
                let a0 = old(self).catalog().last().id;
                let base = old(self).pending_ops().len() as int;
                &&& final(self).catalog().len() == old(self).catalog().len() + 1
                &&& final(self).catalog().drop_last().drop_last() == old(
                    self,
                ).catalog().drop_last()
                &&& final(self).catalog()[final(self).catalog().len() - 2].id as int == a0 as int
                    - 1
                &&& final(self).catalog().last().id as int == a0 as int + 1
                &&& final(self).catalog().last().data@ == enc
                &&& final(self).pending_ops().len() == base + 7
                &&& final(self).pending_ops().subrange(0, base) == old(self).pending_ops()
                &&& compaction_ops_at(
                    final(self).pending_ops(),
                    base,
                    a0,
                    final(self).catalog()[final(self).catalog().len() - 2].data@,
                )
                &&& append_op_at(
                    final(self).pending_ops(),
                    base + 6,
                    (a0 + 1) as u64,
                    enc,
                )
            }),
    {
        if self.uncompacted >= COMPACTION_THRESHOLD {
            match self.compact() {
                Ok(_) => {},
                Err(e) => {
                    proof {
                        assert(false);
                    }
                    return Err(e);
                },
            }
        }
        let ghost mid = *self;
        let cmd = Cmd::set(key.clone(), value.clone());
        let bytes = encode_cmd(&cmd);
        let ghost c: CmdView = cmd@;
        proof {
            lemma_encode_decode(c, Seq::<u8>::empty());
            assert(spec_encode(c) + Seq::<u8>::empty() =~= spec_encode(c));
        }
        let (id, start, end) = self.append_active(bytes, Ghost(c));
        self.add_stale((end - start) as u64);
        let pos = CmdPos { id, pos: start as u64, len: (end - start) as u64 };
        assoc_put(&mut self.index, key, pos);
        proof {
            let e = LiveEntry { id, start: start as int, len: (end - start) as int, value: value@ };
            assert(self.live() == mid.live().insert(key@, e));
            assert(pos == entry_pos(e));
            assert(assoc_map(self.index@) =~= pos_map(self.live()));
            assert(self@ =~= mid@.insert(key@, value@));
            assert(mid@ == old(self)@);
            let base = old(self).pending@.len() as int;
            if old(self).stale_bytes() < COMPACTION_THRESHOLD || old(
                self,
            ).catalog().last().id == u64::MAX {
                assert(mid == *old(self));
                assert(self.segments@.drop_last() == old(self).segments@.drop_last());
                assert(self.pending@.subrange(0, base) =~= old(self).pending@);
            } else {
                assert(self.segments@.drop_last().drop_last() =~= old(
                    self,
                ).segments@.drop_last());
                assert(self.segments@.len() == mid.segments@.len());
                assert(self.segments@.drop_last() == mid.segments@.drop_last());
                assert(self.segments@[self.segments@.len() - 2] == self.segments@.drop_last()[
                    self.segments@.len() - 2]);
                assert(mid.segments@[mid.segments@.len() - 2] == mid.segments@.drop_last()[
                    mid.segments@.len() - 2]);
                assert(self.segments@.last().data@ =~= spec_encode(
                    CmdView::Put { key: key@, value: value@ },
                ));
                assert(self.pending@.subrange(0, base) =~= old(self).pending@);
                assert(forall|i: int|
                    0 <= i < mid.pending@.len() ==> #[trigger] self.pending@[i]
                        == mid.pending@[i]);
                assert(compaction_ops_at(
                    self.pending@,
                    base,
                    old(self).catalog().last().id,
                    self.segments@[self.segments@.len() - 2].data@,
                ));
            }
        }
        Ok(())
    }

    /// Erase `key`. An absent key is refused with `NotFound` before
    /// anything is written.
    #[verifier::rlimit(60)]
    pub fn remove(&mut self, key: String) -> (r: Result<(), Error>)
        requires
            old(self).wf(),
        ensures
            final(self).wf(),
            old(self)@.dom().contains(key@) ==> r is Ok && final(self)@ == old(self)@.remove(
                key@,
            ),
            !old(self)@.dom().contains(key@) ==> (r matches Err(e) && e.kind
                == ErrorKind::NotFound && *final(self) == *old(self)),
            old(self)@.dom().contains(key@) ==> final(self).stale_bytes() as int == ({
                let base: int = if old(self).stale_bytes() >= COMPACTION_THRESHOLD && old(
                    self,
                ).catalog().last().id < u64::MAX {
                    0
                } else {
                    old(self).stale_bytes() as int
                };
                let d = spec_encode(CmdView::Rm { key: key@ }).len() as int;
                if base + d <= u64::MAX {
                    base + d
                } else {
                    u64::MAX as int
                }
            }),
            (old(self)@.dom().contains(key@) && (old(self).stale_bytes() < COMPACTION_THRESHOLD
                || old(self).catalog().last().id == u64::MAX)) ==> ({
                let enc = spec_encode(CmdView::Rm { key: key@ });
                let a0 = old(self).catalog().last().id;
                let base = old(self).pending_ops().len() as int;
                &&& final(self).catalog().len() == old(self).catalog().len()
                &&& final(self).catalog().drop_last() == old(self).catalog().drop_last()
                &&& final(self).catalog().last().id == a0
                &&& final(self).catalog().last().data@ == old(self).catalog().last().data@ + enc
                &&& final(self).pending_ops().len() == base + 1
                &&& final(self).pending_ops().subrange(0, base) == old(self).pending_ops()
                &&& append_op_at(final(self).pending_ops(), base, a0, enc)
            }),
            (old(self)@.dom().contains(key@) && old(self).stale_bytes() >= COMPACTION_THRESHOLD
                && old(self).catalog().last().id < u64::MAX) ==> ({
                let enc = spec_encode(CmdView::Rm { key: key@ });
                let a0 = old(self).catalog().last().id;
                let base = old(self).pending_ops().len() as int;
                &&& final(self).catalog().len() == old(self).catalog().len() + 1
                &&& final(self).catalog().drop_last().drop_last() == old(
                    self,
                ).catalog().drop_last()
                &&& final(self).catalog()[final(self).catalog().len() - 2].id as int == a0 as int
                    - 1
                &&& final(self).catalog().last().id as int == a0 as int + 1
                &&& final(self).catalog().last().data@ == enc
                &&& final(self).pending_ops().len() == base + 7
                &&& final(self).pending_ops().subrange(0, base) == old(self).pending_ops()
                &&& compaction_ops_at(
                    final(self).pending_ops(),
                    base,
                    a0,
                    final(self).catalog()[final(self).catalog().len() - 2].data@,
                )
                &&& append_op_at(
                    final(self).pending_ops(),
                    base + 6,
                    (a0 + 1) as u64,
                    enc,
                )
            }),
    {
        if assoc_get(&self.index, &key).is_none() {
            return Err(Error::new(ErrorKind::NotFound));
        }
        if self.uncompacted >= COMPACTION_THRESHOLD {
            match self.compact() {
                Ok(_) => {},
                Err(e) => {
                    proof {
                        assert(false);
                    }
                    return Err(e);
                },
            }
        }
        let ghost mid = *self;
        let cmd = Cmd::rm(key.clone());
        let bytes = encode_cmd(&cmd);
        let ghost c: CmdView = cmd@;
        proof {
            lemma_encode_decode(c, Seq::<u8>::empty());
            assert(spec_encode(c) + Seq::<u8>::empty() =~= spec_encode(c));
        }
        let appended = self.append_active(bytes, Ghost(c));
        self.add_stale((appended.2 - appended.1) as u64);
        assoc_del(&mut self.index, &key);
        proof {
            assert(self.live() == mid.live().remove(key@));
            assert(assoc_map(self.index@) =~= pos_map(self.live()));
            assert(self@ =~= mid@.remove(key@));
            assert(mid@ == old(self)@);
            let base = old(self).pending@.len() as int;
            if old(self).stale_bytes() < COMPACTION_THRESHOLD || old(
                self,
            ).catalog().last().id == u64::MAX {
                assert(mid == *old(self));
                assert(self.segments@.drop_last() == old(self).segments@.drop_last());
                assert(self.pending@.subrange(0, base) =~= old(self).pending@);
            } else {
                assert(self.segments@.drop_last().drop_last() =~= old(
                    self,
                ).segments@.drop_last());
                assert(self.segments@.len() == mid.segments@.len());
                assert(self.segments@.drop_last() == mid.segments@.drop_last());
                assert(self.segments@[self.segments@.len() - 2] == self.segments@.drop_last()[
                    self.segments@.len() - 2]);
                assert(mid.segments@[mid.segments@.len() - 2] == mid.segments@.drop_last()[
                    mid.segments@.len() - 2]);
                assert(self.segments@.last().data@ =~= spec_encode(CmdView::Rm { key: key@ }));
                assert(self.pending@.subrange(0, base) =~= old(self).pending@);
                assert(forall|i: int|
                    0 <= i < mid.pending@.len() ==> #[trigger] self.pending@[i]
                        == mid.pending@[i]);
                assert(compaction_ops_at(
                    self.pending@,
                    base,
                    old(self).catalog().last().id,
                    self.segments@[self.segments@.len() - 2].data@,
                ));
            }
        }
        Ok(())
    }

    /// Read the value bound to `key`, if any.
    pub fn get(&self, key: String) -> (r: Result<Option<String>, Error>)
        requires
            self.wf(),
        ensures
            match r {
                Ok(Some(v)) => self@.dom().contains(key@) && v@ == self@[key@],
                Ok(None) => !self@.dom().contains(key@),
                Err(_) => false,
            },
    {
        let posr = assoc_get(&self.index, &key);
        match posr {
            None => {
                proof {
                    assert(!self.live().dom().contains(key@));
                    assert(!self@.dom().contains(key@));
                }
                Ok(None)
            },
            Some(pr) => {
                let p = *pr;
                proof {
                    lemma_fold_catalog_entries(self.segments@);
                    assert(self.live().dom().contains(key@));
                    assert(p == entry_pos(self.live()[key@]));
                }
                let ghost e = self.live()[key@];
                let n = self.segments.len();
                let mut i: usize = 0;
                while i < n && self.segments[i].id != p.id
                    invariant
                        i <= n,
                        n == self.segments@.len(),
                        forall|j: int| 0 <= j < i ==> (#[trigger] self.segments@[j]).id != p.id,
                    decreases n - i,
                {
                    i = i + 1;
                }
                proof {
                    let w = choose|w: int|
                        {
                            &&& 0 <= w < self.segments@.len()
                            &&& (#[trigger] self.segments@[w]).id == e.id
                            &&& 0 <= e.start
                            &&& 1 <= e.len
                            &&& e.start + e.len <= self.segments@[w].data@.len()
                            &&& spec_decode(self.segments@[w].data@.skip(e.start)) == Some(
                                (CmdView::Put { key: key@, value: e.value }, e.len),
                            )
                        };
                    assert(self.segments@[w].id == p.id);
                    assert(i < n && self.segments@[i as int].id == p.id);
                    lemma_shape_ids_unique(self.segments@, w, i as int);
                    assert(0 <= e.start && 1 <= e.len && e.start + e.len
                        <= self.segments@[i as int].data@.len());
                }
                let seg = &self.segments[i];
                let dlen = seg.data.len();
                proof {
                    assert(e.start + e.len <= dlen && dlen <= usize::MAX);
                    assert(p.pos as int == e.start);
                    assert(p.len as int == e.len);
                }
                let start = p.pos as usize;
                let len = p.len as usize;
                let slice = vec_range(&seg.data, start, start + len);
                proof {
                    let s1 = seg.data@.skip(e.start);
                    assert(slice@ =~= s1.take(e.len));
                    assert(slice@.take(e.len) =~= s1.take(e.len));
                    lemma_decode_depends_on_prefix(s1, slice@);
                    assert(spec_decode(slice@) == Some(
                        (CmdView::Put { key: key@, value: e.value }, e.len),
                    ));
                }
                let dec = decode_cmd_at(&slice, 0);
                match dec {
                    Ok(p2) => {
                        match p2.0 {
                            Cmd::Put { key: k2, value } => {
                                proof {
                                    assert(value@ == e.value);
                                    assert(self@[key@] == e.value);
                                }
                                Ok(Some(value))
                            },
                            Cmd::Rm { .. } => {
                                proof {
                                    assert(false);
                                }
                                Err(Error::new(ErrorKind::CorruptState))
                            },
                        }
                    },
                    Err(_) => {
                        proof {
                            assert(false);
                        }
                        Err(Error::new(ErrorKind::CorruptState))
                    },
                }
            },
        }
    }
}

/// Point lookup: once `set(k, v)` has put `k ↦ v` into a store's contents,
/// `get(k)` answers `Some(v)` — `set` ensures the view becomes
/// `insert(k, v)`, and `get` answers from the view — until the binding is
/// overwritten or removed.
pub proof fn lemma_point_lookup(m: Map<Seq<char>, Seq<char>>, k: Seq<char>, v: Seq<char>)
    ensures
        m.insert(k, v).dom().contains(k),
        m.insert(k, v)[k] == v,
{
}

/// Overwrite: two binds of the same key leave the later value, so after
/// `set(k, v1); set(k, v2)` a `get(k)` answers `Some(v2)`.
pub proof fn lemma_overwrite(
    m: Map<Seq<char>, Seq<char>>,
    k: Seq<char>,
    v1: Seq<char>,
    v2: Seq<char>,
)
    ensures
        m.insert(k, v1).insert(k, v2) == m.insert(k, v2),
        m.insert(k, v1).insert(k, v2)[k] == v2,
{
    assert(m.insert(k, v1).insert(k, v2) =~= m.insert(k, v2));
}

/// Remove: after `set(k, v); remove(k)` the key is absent, so `get(k)`
/// answers `None` and a second `remove(k)` is refused with `NotFound` by
/// `remove`'s contract.
pub proof fn lemma_set_remove(m: Map<Seq<char>, Seq<char>>, k: Seq<char>, v: Seq<char>)
    ensures
        !m.insert(k, v).remove(k).dom().contains(k),
{
}

/// Keys do not interact: a bind or an erase of one key leaves every other
/// key's binding exactly as it was. Writers and readers working on
/// disjoint keys therefore never observe each other's values, however
/// their operations interleave.
pub proof fn lemma_disjoint_keys(
    m: Map<Seq<char>, Seq<char>>,
    k1: Seq<char>,
    k2: Seq<char>,
    v: Seq<char>,
)
    requires
        k1 != k2,
    ensures
        m.insert(k1, v).dom().contains(k2) <==> m.dom().contains(k2),
        m.dom().contains(k2) ==> m.insert(k1, v)[k2] == m[k2],
        m.remove(k1).dom().contains(k2) <==> m.dom().contains(k2),
        m.dom().contains(k2) ==> m.remove(k1)[k2] == m[k2],
{
}

/// One store mutation, taken abstractly by the key it touches.
pub enum StoreOp {
    /// A `set` of `key` to `value`.
    Bind {
        /// The key written.
        key: Seq<char>,
        /// The value bound.
        value: Seq<char>,
    },
    /// A successful `remove` of `key`.
    Erase {
        /// The key erased.
        key: Seq<char>,
    },
}

/// The key a mutation touches.
pub open spec fn op_key(op: StoreOp) -> Seq<char> {
    match op {
        StoreOp::Bind { key, .. } => key,
        StoreOp::Erase { key } => key,
    }
}

/// A mutation's effect on the store's contents — exactly what `set`'s and
/// `remove`'s contracts ensure of one call.
pub open spec fn apply_op(m: Map<Seq<char>, Seq<char>>, op: StoreOp) -> Map<Seq<char>, Seq<char>> {
    match op {
        StoreOp::Bind { key, value } => m.insert(key, value),
        StoreOp::Erase { key } => m.remove(key),
    }
}

/// The effect of a whole run of mutations, oldest first.
pub open spec fn apply_ops(m: Map<Seq<char>, Seq<char>>, ops: Seq<StoreOp>) -> Map<
    Seq<char>,
    Seq<char>,
>
    decreases ops.len(),
{
    if ops.len() == 0 {
        m
    } else {
        apply_op(apply_ops(m, ops.drop_last()), ops.last())
    }
}

/// However long a run of mutations, a key none of them touches keeps its
/// binding, so writers and readers working on disjoint keys never observe
/// one another, wherever their operations fall in the run's order.
pub proof fn lemma_untouched_key_stable(
    m: Map<Seq<char>, Seq<char>>,
    ops: Seq<StoreOp>,
    k: Seq<char>,
)
    requires
        forall|i: int| 0 <= i < ops.len() ==> op_key(#[trigger] ops[i]) != k,
    ensures
        apply_ops(m, ops).dom().contains(k) <==> m.dom().contains(k),
        m.dom().contains(k) ==> apply_ops(m, ops)[k] == m[k],
    decreases ops.len(),
{
    if ops.len() == 0 {
    } else {
        assert(forall|i: int|
            0 <= i < ops.drop_last().len() ==> op_key(#[trigger] ops.drop_last()[i]) != k);
        lemma_untouched_key_stable(m, ops.drop_last(), k);
        assert(op_key(ops.last()) != k);
    }
}

/// Durability: a well-formed store's catalog replays to exactly the
/// store's contents. With `open`'s contract this says that after any run
/// of successful mutations and a clean close, reopening the directory
/// yields a store whose answers agree with the state left behind.
pub proof fn lemma_durable(s: &KvStore)
    requires
        s.wf(),
    ensures
        catalog_valid(s.catalog()),
        value_map(fold_catalog(s.catalog())->Some_0) == s@,
{
}

/// Crash safety of a write: if a crash cuts an appended record at any
/// byte short of its end, the catalog no longer replays, so `open` refuses
/// it as `CorruptState`; a cut at the very start leaves the prior catalog,
/// and only a complete record changes the replayed contents. A torn value
/// is never served.
pub proof fn lemma_torn_write_detected(
    segs: Seq<Segment>,
    segs2: Seq<Segment>,
    c: CmdView,
    cut: int,
)
    requires
        catalog_valid(segs),
        cmd_encodable(c),
        0 < cut < spec_encode(c).len(),
        segs2.len() == segs.len(),
        segs2.drop_last() == segs.drop_last(),
        segs2.last().id == segs.last().id,
        segs2.last().data@ == segs.last().data@ + spec_encode(c).take(cut),
    ensures
        !catalog_valid(segs2),
{
    lemma_encode_decode(c, Seq::<u8>::empty());
    assert(spec_encode(c) + Seq::<u8>::empty() =~= spec_encode(c));
    let enc = spec_encode(c);
    let torn = enc.take(cut);
    assert(torn == enc.take(torn.len() as int));
    crate::codec::lemma_decode_strict_prefix(enc, torn);
    let m0 = fold_catalog(segs.drop_last())->Some_0;
    assert(fold_catalog(segs) == fold_data(segs.last().id, segs.last().data@, 0, m0));
    lemma_fold_data_torn(segs.last().id, segs.last().data@, torn, 0, m0);
    assert(fold_catalog(segs2) == fold_data(segs2.last().id, segs2.last().data@, 0, m0));
}

} // verus!
