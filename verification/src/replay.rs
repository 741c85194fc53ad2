//! The mathematical model of a segment catalog: folding its records, in
//! segment order, into the mapping of live keys.

use vstd::prelude::*;
use crate::codec::{
    spec_decode, spec_encode, CmdView, lemma_decode_bounds, lemma_decode_depends_on_prefix,
};

verus! {

/// One log segment: an id and the segment file's bytes.
#[derive(Debug)]
pub struct Segment {
    /// The positive integer the segment file is named by.
    pub id: u64,
    /// The segment file's contents: a concatenation of encoded records.
    pub data: Vec<u8>,
}

/// Where a record's bytes lie: segment id, byte offset, byte length.
#[derive(Clone, Copy, Debug, PartialEq, Eq, Structural)]
pub struct CmdPos {
    /// The id of the segment holding the record.
    pub id: u64,
    /// The offset of the record's first byte.
    pub pos: u64,
    /// The record's length in bytes.
    pub len: u64,
}

impl CmdPos {
    /// Build a position from its three coordinates.
    pub fn new(id: u64, pos: u64, len: u64) -> (r: CmdPos)
        ensures
            r == (CmdPos { id, pos, len }),
    {
        CmdPos { id, pos, len }
    }
}

/// What replay knows of a live key: where its binding record lies, and the
/// value that record carries.
pub struct LiveEntry {
    /// The id of the segment holding the record.
    pub id: u64,
    /// The offset of the record's first byte.
    pub start: int,
    /// The record's length in bytes.
    pub len: int,
    /// The bound value.
    pub value: Seq<char>,
}

/// The position triple of a live entry.
pub open spec fn entry_pos(e: LiveEntry) -> CmdPos {
    CmdPos { id: e.id, pos: e.start as u64, len: e.len as u64 }
}

/// The positions of every live key.
pub open spec fn pos_map(m: Map<Seq<char>, LiveEntry>) -> Map<Seq<char>, CmdPos> {
    m.map_values(|e: LiveEntry| entry_pos(e))
}

/// The values of every live key: the store's logical contents.
pub open spec fn value_map(m: Map<Seq<char>, LiveEntry>) -> Map<Seq<char>, Seq<char>> {
    m.map_values(|e: LiveEntry| e.value)
}

/// One record's effect on the live mapping.
pub open spec fn apply_record(
    m: Map<Seq<char>, LiveEntry>,
    id: u64,
    off: int,
    n: int,
    c: CmdView,
) -> Map<Seq<char>, LiveEntry> {
    match c {
        CmdView::Put { key, value } => m.insert(key, LiveEntry { id, start: off, len: n, value }),
        CmdView::Rm { key } => m.remove(key),
    }
}

/// Fold the records of one segment's bytes, from offset `off` on, into `m`.
/// `None` when the bytes do not decode contiguously to the very end.
pub open spec fn fold_data(id: u64, data: Seq<u8>, off: int, m: Map<Seq<char>, LiveEntry>) -> Option<
    Map<Seq<char>, LiveEntry>,
>
    decreases data.len() - off,
{
    if off == data.len() {
        Some(m)
    } else if !(0 <= off < data.len()) {
        None
    } else {
        match spec_decode(data.skip(off)) {
            Option::None => None,
            Option::Some((c, n)) => if n < 1 || off + n > data.len() {
                None
            } else {
                fold_data(id, data, off + n, apply_record(m, id, off, n, c))
            },
        }
    }
}

/// Fold a whole catalog, in order, starting from the empty mapping.
pub open spec fn fold_catalog(segs: Seq<Segment>) -> Option<Map<Seq<char>, LiveEntry>>
    decreases segs.len(),
{
    if segs.len() == 0 {
        Some(Map::empty())
    } else {
        match fold_catalog(segs.drop_last()) {
            Option::None => None,
            Option::Some(m) => fold_data(segs.last().id, segs.last().data@, 0, m),
        }
    }
}

/// The entry locates, inside some segment of the catalog, a record that
/// decodes to a `Put` of exactly this key and value.
pub open spec fn entry_ok(segs: Seq<Segment>, k: Seq<char>, e: LiveEntry) -> bool {
    exists|i: int|
        {
            &&& 0 <= i < segs.len()
            &&& (#[trigger] segs[i]).id == e.id
            &&& 0 <= e.start
            &&& 1 <= e.len
            &&& e.start + e.len <= segs[i].data@.len()
            &&& spec_decode(segs[i].data@.skip(e.start)) == Some(
                (CmdView::Put { key: k, value: e.value }, e.len),
            )
        }
}

/// Every entry a segment fold adds is well placed in a catalog holding that
/// segment.
pub proof fn lemma_fold_data_entries(
    id: u64,
    data: Seq<u8>,
    off: int,
    m: Map<Seq<char>, LiveEntry>,
    segs: Seq<Segment>,
    j: int,
)
    requires
        fold_data(id, data, off, m) is Some,
        0 <= j < segs.len(),
        segs[j].id == id,
        segs[j].data@ == data,
        forall|k: Seq<char>|
            #[trigger] m.dom().contains(k) ==> entry_ok(segs, k, m[k]),
    ensures
        forall|k: Seq<char>|
            #[trigger] fold_data(id, data, off, m)->Some_0.dom().contains(k) ==> entry_ok(
                segs,
                k,
                fold_data(id, data, off, m)->Some_0[k],
            ),
    decreases data.len() - off,
{
    if off == data.len() {
    } else {
        let s = data.skip(off);
        let (c, n) = spec_decode(s)->Some_0;
        lemma_decode_bounds(s);
        let m2 = apply_record(m, id, off, n, c);
        assert forall|k: Seq<char>| #[trigger] m2.dom().contains(k) implies entry_ok(
            segs,
            k,
            m2[k],
        ) by {
            match c {
                CmdView::Put { key, value } => {
                    if k == key {
                        assert(segs[j].id == id && segs[j].data@ == data);
                        assert(entry_ok(segs, k, m2[k]));
                    }
                },
                CmdView::Rm { .. } => {},
            }
        }
        lemma_fold_data_entries(id, data, off + n, m2, segs, j);
    }
}

/// Every entry of a catalog fold is well placed in the catalog.
pub proof fn lemma_fold_catalog_entries(segs: Seq<Segment>)
    requires
        fold_catalog(segs) is Some,
    ensures
        forall|k: Seq<char>|
            #[trigger] fold_catalog(segs)->Some_0.dom().contains(k) ==> entry_ok(
                segs,
                k,
                fold_catalog(segs)->Some_0[k],
            ),
    decreases segs.len(),
{
    if segs.len() == 0 {
    } else {
        let prefix = segs.drop_last();
        lemma_fold_catalog_entries(prefix);
        let m = fold_catalog(prefix)->Some_0;
        assert forall|k: Seq<char>| #[trigger] m.dom().contains(k) implies entry_ok(
            segs,
            k,
            m[k],
        ) by {
            let i = choose|i: int|
                {
                    &&& 0 <= i < prefix.len()
                    &&& (#[trigger] prefix[i]).id == m[k].id
                    &&& 0 <= m[k].start
                    &&& 1 <= m[k].len
                    &&& m[k].start + m[k].len <= prefix[i].data@.len()
                    &&& spec_decode(prefix[i].data@.skip(m[k].start)) == Some(
                        (CmdView::Put { key: k, value: m[k].value }, m[k].len),
                    )
                };
            assert(segs[i] == prefix[i]);
        }
        lemma_fold_data_entries(
            segs.last().id,
            segs.last().data@,
            0,
            m,
            segs,
            segs.len() - 1,
        );
    }
}

/// Extending a segment's bytes by one whole encoded record folds to the
/// record's effect on the segment's fold.
pub proof fn lemma_fold_data_append(
    id: u64,
    data: Seq<u8>,
    enc: Seq<u8>,
    c: CmdView,
    off: int,
    m: Map<Seq<char>, LiveEntry>,
)
    requires
        fold_data(id, data, off, m) is Some,
        spec_decode(enc) == Some((c, enc.len() as int)),
        enc.len() >= 1,
    ensures
        fold_data(id, data + enc, off, m) == Some(
            apply_record(
                fold_data(id, data, off, m)->Some_0,
                id,
                data.len() as int,
                enc.len() as int,
                c,
            ),
        ),
    decreases data.len() - off,
{
    if off == data.len() {
        assert((data + enc).skip(off) =~= enc);
        assert(fold_data(id, data + enc, off + enc.len(), apply_record(m, id, off, enc.len() as int, c))
            is Some);
    } else {
        let s1 = data.skip(off);
        let s2 = (data + enc).skip(off);
        let (c0, n0) = spec_decode(s1)->Some_0;
        lemma_decode_bounds(s1);
        assert(s2.take(n0) =~= s1.take(n0));
        lemma_decode_depends_on_prefix(s1, s2);
        lemma_fold_data_append(id, data, enc, c, off + n0, apply_record(m, id, off, n0, c0));
    }
}

/// A fold that fails from `off` fails however the accumulator is chosen,
/// and a fold that succeeds succeeds for every accumulator.
pub proof fn lemma_fold_data_success_independent(
    id1: u64,
    id2: u64,
    data: Seq<u8>,
    off: int,
    m1: Map<Seq<char>, LiveEntry>,
    m2: Map<Seq<char>, LiveEntry>,
)
    ensures
        fold_data(id1, data, off, m1) is Some <==> fold_data(id2, data, off, m2) is Some,
    decreases data.len() - off,
{
    if off == data.len() {
    } else if !(0 <= off < data.len()) {
    } else {
        match spec_decode(data.skip(off)) {
            Option::None => {},
            Option::Some((c, n)) => {
                if 1 <= n && off + n <= data.len() {
                    lemma_fold_data_success_independent(
                        id1,
                        id2,
                        data,
                        off + n,
                        apply_record(m1, id1, off, n, c),
                        apply_record(m2, id2, off, n, c),
                    );
                }
            },
        }
    }
}

/// A segment whose bytes end in a torn record folds to `None`: the tear is
/// detected, never misread.
pub proof fn lemma_fold_data_torn(
    id: u64,
    data: Seq<u8>,
    torn: Seq<u8>,
    off: int,
    m: Map<Seq<char>, LiveEntry>,
)
    requires
        fold_data(id, data, off, m) is Some,
        torn.len() >= 1,
        spec_decode(torn) is None,
    ensures
        fold_data(id, data + torn, off, m) is None,
    decreases data.len() - off,
{
    if off == data.len() {
        assert((data + torn).skip(off) =~= torn);
    } else {
        let s1 = data.skip(off);
        let s2 = (data + torn).skip(off);
        let (c0, n0) = spec_decode(s1)->Some_0;
        lemma_decode_bounds(s1);
        assert(s2.take(n0) =~= s1.take(n0));
        lemma_decode_depends_on_prefix(s1, s2);
        lemma_fold_data_torn(id, data, torn, off + n0, apply_record(m, id, off, n0, c0));
    }
}

/// Unrolling a catalog fold one segment at a time, from the left.
pub proof fn lemma_fold_catalog_take_step(segs: Seq<Segment>, i: int)
    requires
        0 <= i < segs.len(),
    ensures
        fold_catalog(segs.take(i + 1)) == (match fold_catalog(segs.take(i)) {
            Option::None => None,
            Option::Some(m) => fold_data(segs[i].id, segs[i].data@, 0, m),
        }),
{
    assert(segs.take(i + 1).drop_last() =~= segs.take(i));
    assert(segs.take(i + 1).last() == segs[i]);
}

/// Once some prefix of a catalog fails to fold, the whole catalog fails.
pub proof fn lemma_fold_catalog_prefix_none(segs: Seq<Segment>, i: int)
    requires
        0 <= i <= segs.len(),
        fold_catalog(segs.take(i)) is None,
    ensures
        fold_catalog(segs) is None,
    decreases segs.len() - i,
{
    if i == segs.len() {
        assert(segs.take(i) =~= segs);
    } else {
        lemma_fold_catalog_take_step(segs, i);
        lemma_fold_catalog_prefix_none(segs, i + 1);
    }
}

} // verus!
