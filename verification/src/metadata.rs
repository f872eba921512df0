//! Object manifests and the gateway's metadata store.
//!
//! A manifest lists the chunks of one object; the store maps object keys to
//! manifests. The store is a plain value: whoever shares it between requests
//! guards it with a lock of its own and holds that lock for one call.

use vstd::hash_map::StringHashMap;
use vstd::prelude::*;

verus! {

/// One chunk of an object: its position, its length in bytes, the identifier
/// it is stored under and the node that stores it.
pub struct ChunkMeta {
    pub index: usize,
    pub size: usize,
    pub chunk_id: String,
    pub node: String,
}

/// A `ChunkMeta` as the contracts see it.
pub struct ChunkMetaView {
    pub index: nat,
    pub size: nat,
    pub chunk_id: Seq<char>,
    pub node: Seq<char>,
}

impl View for ChunkMeta {
    type V = ChunkMetaView;

    open spec fn view(&self) -> ChunkMetaView {
        ChunkMetaView {
            index: self.index as nat,
            size: self.size as nat,
            chunk_id: self.chunk_id@,
            node: self.node@,
        }
    }
}

impl Clone for ChunkMeta {
    fn clone(&self) -> (copy: Self)
        ensures
            copy@ == self@,
    {
        ChunkMeta {
            index: self.index,
            size: self.size,
            chunk_id: self.chunk_id.clone(),
            node: self.node.clone(),
        }
    }
}

/// The manifest of one object: its total length and its chunks.
pub struct ObjectMeta {
    pub size: usize,
    pub chunks: Vec<ChunkMeta>,
}

/// An `ObjectMeta` as the contracts see it.
pub struct ObjectMetaView {
    pub size: nat,
    pub chunks: Seq<ChunkMetaView>,
}

/// The views of a list of chunks, in order.
pub open spec fn chunk_views(chunks: Seq<ChunkMeta>) -> Seq<ChunkMetaView> {
    chunks.map_values(|c: ChunkMeta| c@)
}

impl View for ObjectMeta {
    type V = ObjectMetaView;

    open spec fn view(&self) -> ObjectMetaView {
        ObjectMetaView { size: self.size as nat, chunks: chunk_views(self.chunks@) }
    }
}

/// The sum of the sizes of the given chunks.
pub open spec fn total_size(chunks: Seq<ChunkMetaView>) -> nat
    decreases chunks.len(),
{
    if chunks.len() == 0 {
        0
    } else {
        total_size(chunks.drop_last()) + chunks.last().size
    }
}

/// Whether the chunks stand in upload order: the chunk at position `i` has
/// index `i`.
pub open spec fn in_upload_order(chunks: Seq<ChunkMetaView>) -> bool {
    forall|i: int| 0 <= i < chunks.len() ==> (#[trigger] chunks[i]).index == i
}

/// Whether the chunks stand in ascending order of index.
pub open spec fn ordered_by_index(chunks: Seq<ChunkMetaView>) -> bool {
    forall|i: int, j: int|
        0 <= i <= j < chunks.len() ==> (#[trigger] chunks[i]).index <= (#[trigger] chunks[j]).index
}

/// The chunks that carry the index `index`, in the order in which they stand.
pub open spec fn with_index(chunks: Seq<ChunkMetaView>, index: nat) -> Seq<ChunkMetaView> {
    chunks.filter(|c: ChunkMetaView| c.index == index)
}

/// Whether `sorted` is `chunks` put in ascending order of index, chunks of
/// equal index keeping the order they had. At most one sequence is.
pub open spec fn is_stable_sort_of(sorted: Seq<ChunkMetaView>, chunks: Seq<ChunkMetaView>) -> bool {
    &&& sorted.len() == chunks.len()
    &&& ordered_by_index(sorted)
    &&& forall|index: nat| #[trigger] with_index(sorted, index) == with_index(chunks, index)
}

/// A manifest is sound when its size is the sum of its chunks' sizes.
pub open spec fn sound(meta: ObjectMetaView) -> bool {
    meta.size == total_size(meta.chunks)
}

/// A copy of the given chunks.
pub fn clone_chunks(chunks: &Vec<ChunkMeta>) -> (copy: Vec<ChunkMeta>)
    ensures
        chunk_views(copy@) == chunk_views(chunks@),
{
    let mut copy: Vec<ChunkMeta> = Vec::new();
    let mut i: usize = 0;
    while i < chunks.len()
        invariant
            i <= chunks.len(),
            copy@.len() == i,
            forall|j: int| 0 <= j < i ==> (#[trigger] copy@[j])@ == chunks@[j]@,
        decreases chunks.len() - i,
    {
        copy.push(chunks[i].clone());
        i += 1;
    }
    assert(chunk_views(copy@) =~= chunk_views(chunks@));
    copy
}

impl Clone for ObjectMeta {
    fn clone(&self) -> (copy: Self)
        ensures
            copy@ == self@,
    {
        ObjectMeta { size: self.size, chunks: clone_chunks(&self.chunks) }
    }
}

/// The chunks put in ascending order of index, for reassembly. Chunks of
/// equal index keep the order they had.
pub fn sort_by_index(chunks: &Vec<ChunkMeta>) -> (sorted: Vec<ChunkMeta>)
    ensures
        is_stable_sort_of(chunk_views(sorted@), chunk_views(chunks@)),
{
    let mut sorted: Vec<ChunkMeta> = Vec::new();
    let mut i: usize = 0;
    assert(chunk_views(chunks@).take(0) =~= Seq::<ChunkMetaView>::empty());
    assert(chunk_views(sorted@) =~= Seq::<ChunkMetaView>::empty());
    while i < chunks.len()
        invariant
            i <= chunks.len(),
            is_stable_sort_of(chunk_views(sorted@), chunk_views(chunks@).take(i as int)),
        decreases chunks.len() - i,
    {
        let item = chunks[i].clone();
        // the place behind every chunk whose index is not larger
        let mut at: usize = sorted.len();
        while at > 0 && sorted[at - 1].index > item.index
            invariant
                at <= sorted.len(),
                forall|j: int| at <= j < sorted.len() ==> (#[trigger] sorted@[j]).index > item.index,
            decreases at,
        {
            at -= 1;
        }
        proof {
            lemma_insert_keeps_stable_sort(
                chunk_views(sorted@),
                chunk_views(chunks@).take(i as int),
                item@,
                at as int,
            );
            assert(chunk_views(chunks@).take(i as int).push(item@) =~= chunk_views(chunks@).take(
                i + 1,
            ));
            assert(chunk_views(sorted@.insert(at as int, item)) =~= chunk_views(sorted@).insert(
                at as int,
                item@,
            ));
        }
        sorted.insert(at, item);
        i += 1;
    }
    assert(chunk_views(chunks@).take(i as int) =~= chunk_views(chunks@));
    sorted
}

/// Where no element passes the test, the filter keeps nothing.
proof fn lemma_filter_none(s: Seq<ChunkMetaView>, pred: spec_fn(ChunkMetaView) -> bool)
    requires
        forall|k: int| 0 <= k < s.len() ==> !pred(#[trigger] s[k]),
    ensures
        s.filter(pred) == Seq::<ChunkMetaView>::empty(),
    decreases s.len(),
{
    reveal(Seq::filter);
    if s.len() > 0 {
        assert forall|k: int| 0 <= k < s.drop_last().len() implies !pred(
            #[trigger] s.drop_last()[k],
        ) by {
            assert(s.drop_last()[k] == s[k]);
        }
        lemma_filter_none(s.drop_last(), pred);
    }
}

/// Putting a chunk behind the last one whose index is not larger keeps a
/// stable sort a stable sort, of the list with that chunk added at its end.
proof fn lemma_insert_keeps_stable_sort(
    sorted: Seq<ChunkMetaView>,
    chunks: Seq<ChunkMetaView>,
    item: ChunkMetaView,
    at: int,
)
    requires
        is_stable_sort_of(sorted, chunks),
        0 <= at <= sorted.len(),
        forall|j: int| at <= j < sorted.len() ==> (#[trigger] sorted[j]).index > item.index,
        at > 0 ==> sorted[at - 1].index <= item.index,
    ensures
        is_stable_sort_of(sorted.insert(at, item), chunks.push(item)),
{
    let grown = sorted.insert(at, item);
    let front = sorted.take(at);
    let back = sorted.skip(at);
    assert(grown =~= front + seq![item] + back);
    assert(sorted =~= front + back);
    assert forall|i: int, j: int| 0 <= i <= j < grown.len() implies (#[trigger] grown[i]).index <= (
    #[trigger] grown[j]).index by {
        if i < at && j == at && at > 0 {
            assert(sorted[i].index <= sorted[at - 1].index);
        }
        if i < at && j > at {
            assert(grown[j] == sorted[j - 1]);
            assert(sorted[i].index <= sorted[j - 1].index);
        }
        if i > at {
            assert(grown[i] == sorted[i - 1]);
            assert(grown[j] == sorted[j - 1]);
        }
        if i == at && j > at {
            assert(grown[j] == sorted[j - 1]);
        }
    }
    assert forall|index: nat| #[trigger]
        with_index(grown, index) == with_index(chunks.push(item), index) by {
        let pred = |c: ChunkMetaView| c.index == index;
        Seq::filter_distributes_over_add(front + seq![item], back, pred);
        Seq::filter_distributes_over_add(front, seq![item], pred);
        Seq::filter_distributes_over_add(front, back, pred);
        chunks.lemma_filter_push(item, pred);
        assert(with_index(sorted, index) == with_index(chunks, index));
        assert(seq![item] =~= Seq::<ChunkMetaView>::empty().push(item));
        Seq::<ChunkMetaView>::empty().lemma_filter_push(item, pred);
        assert(Seq::<ChunkMetaView>::empty().filter(pred) =~= Seq::<ChunkMetaView>::empty()) by {
            Seq::<ChunkMetaView>::empty().lemma_filter_len(pred);
        }
        if item.index == index {
            assert forall|k: int| 0 <= k < back.len() implies !pred(#[trigger] back[k]) by {
                assert(back[k] == sorted[at + k]);
            }
            lemma_filter_none(back, pred);
            assert(with_index(grown, index) =~= front.filter(pred).push(item));
            assert(with_index(sorted, index) =~= front.filter(pred));
        } else {
            assert(seq![item].filter(pred) =~= Seq::<ChunkMetaView>::empty());
            assert(with_index(grown, index) =~= front.filter(pred) + back.filter(pred));
        }
    }
}

/// The filter of a list that is not empty, by its last element.
proof fn lemma_filter_by_last(s: Seq<ChunkMetaView>, pred: spec_fn(ChunkMetaView) -> bool)
    requires
        s.len() > 0,
    ensures
        s.filter(pred) == if pred(s.last()) {
            s.drop_last().filter(pred).push(s.last())
        } else {
            s.drop_last().filter(pred)
        },
{
    reveal(Seq::filter);
}

/// Two ordered lists that agree, index by index, on the chunks they hold
/// and on the order of those chunks are one and the same list.
proof fn lemma_same_order(a: Seq<ChunkMetaView>, b: Seq<ChunkMetaView>)
    requires
        a.len() == b.len(),
        ordered_by_index(a),
        ordered_by_index(b),
        forall|index: nat| #[trigger] with_index(a, index) == with_index(b, index),
    ensures
        a == b,
    decreases a.len(),
{
    if a.len() == 0 {
        assert(a =~= b);
    } else {
        let x = a.last();
        let y = b.last();
        let front_a = a.drop_last();
        let front_b = b.drop_last();
        let pred_x = |c: ChunkMetaView| c.index == x.index;
        let pred_y = |c: ChunkMetaView| c.index == y.index;
        lemma_filter_by_last(a, pred_x);
        lemma_filter_by_last(b, pred_y);
        assert(with_index(a, x.index) == with_index(b, x.index));
        assert(with_index(a, y.index) == with_index(b, y.index));
        if y.index > x.index {
            assert forall|k: int| 0 <= k < a.len() implies !pred_y(#[trigger] a[k]) by {
                assert(a[k].index <= a[a.len() - 1].index);
            }
            lemma_filter_none(a, pred_y);
            assert(false);
        }
        if x.index > y.index {
            assert forall|k: int| 0 <= k < b.len() implies !pred_x(#[trigger] b[k]) by {
                assert(b[k].index <= b[b.len() - 1].index);
            }
            lemma_filter_none(b, pred_x);
            assert(false);
        }
        assert(pred_x == pred_y);
        assert(a.filter(pred_x).last() == x);
        assert(b.filter(pred_x).last() == y);
        assert(x == y);
        assert forall|index: nat| #[trigger]
            with_index(front_a, index) == with_index(front_b, index) by {
            let pred = |c: ChunkMetaView| c.index == index;
            lemma_filter_by_last(a, pred);
            lemma_filter_by_last(b, pred);
            assert(with_index(a, index) == with_index(b, index));
            if index == x.index {
                assert(front_a.filter(pred) =~= a.filter(pred).drop_last());
                assert(front_b.filter(pred) =~= b.filter(pred).drop_last());
            }
        }
        assert forall|i: int, j: int| 0 <= i <= j < front_a.len() implies (#[trigger] front_a[i]).index
            <= (#[trigger] front_a[j]).index by {
            assert(a[i].index <= a[j].index);
        }
        assert forall|i: int, j: int| 0 <= i <= j < front_b.len() implies (#[trigger] front_b[i]).index
            <= (#[trigger] front_b[j]).index by {
            assert(b[i].index <= b[j].index);
        }
        lemma_same_order(front_a, front_b);
        assert(a =~= front_a.push(x));
        assert(b =~= front_b.push(y));
    }
}

/// A list of chunks has one stable sort by index and no other.
pub proof fn lemma_stable_sort_is_unique(
    first: Seq<ChunkMetaView>,
    second: Seq<ChunkMetaView>,
    chunks: Seq<ChunkMetaView>,
)
    requires
        is_stable_sort_of(first, chunks),
        is_stable_sort_of(second, chunks),
    ensures
        first == second,
{
    assert forall|index: nat| #[trigger] with_index(first, index) == with_index(second, index) by {
        assert(with_index(first, index) == with_index(chunks, index));
        assert(with_index(second, index) == with_index(chunks, index));
    }
    lemma_same_order(first, second);
}

/// Sorting a manifest that stands in upload order changes nothing: the
/// chunks come out as they were put in.
pub proof fn lemma_sorting_keeps_upload_order(sorted: Seq<ChunkMetaView>, chunks: Seq<ChunkMetaView>)
    requires
        in_upload_order(chunks),
        is_stable_sort_of(sorted, chunks),
    ensures
        sorted == chunks,
{
    assert(ordered_by_index(chunks));
    assert(is_stable_sort_of(chunks, chunks));
    lemma_stable_sort_is_unique(sorted, chunks, chunks);
}

/// The gateway's map from object key to manifest.
pub struct MetadataStore {
    store: StringHashMap<ObjectMeta>,
}

impl View for MetadataStore {
    type V = Map<Seq<char>, ObjectMetaView>;

    closed spec fn view(&self) -> Map<Seq<char>, ObjectMetaView> {
        self.store@.map_values(|meta: ObjectMeta| meta@)
    }
}

impl MetadataStore {
    /// A store that knows no object.
    pub fn new() -> (store: Self)
        ensures
            store@ == Map::<Seq<char>, ObjectMetaView>::empty(),
    {
        let store = MetadataStore { store: StringHashMap::new() };
        assert(store@ =~= Map::<Seq<char>, ObjectMetaView>::empty());
        store
    }

    /// A copy of the manifest stored under `key`, or `None` where the key is
    /// unknown.
    pub fn get(&self, key: &str) -> (found: Option<ObjectMeta>)
        ensures
            match found {
                Some(meta) => self@.contains_key(key@) && meta@ == self@[key@],
                None => !self@.contains_key(key@),
            },
    {
        match self.store.get(key) {
            Some(meta) => Some(meta.clone()),
            None => None,
        }
    }

    /// Stores `meta` under `key`, in place of whatever stood there.
    pub fn set(&mut self, key: String, meta: ObjectMeta)
        ensures
            final(self)@ == old(self)@.insert(key@, meta@),
    {
        self.store.insert(key, meta);
        assert(self@ =~= old(self)@.insert(key@, meta@));
    }

    /// Forgets `key`. Nothing happens where the key is unknown.
    pub fn remove(&mut self, key: &str)
        ensures
            final(self)@ == old(self)@.remove(key@),
    {
        self.store.remove(key);
        assert(self@ =~= old(self)@.remove(key@));
    }
}

} // verus!
