//! The gateway's orchestration: what an upload, a download and a delete do
//! with the chunker, the placement, the transport and the metadata store.
//!
//! The gateway's owner reads bodies and talks to the nodes. The sessions here
//! decide what is sent where, what is recorded, and what the client is told.

use crate::buffer::frozen;
use crate::chunk_storage::MIN_CHUNK_ID_LEN;
use crate::chunker::accepted;
use crate::chunker::chunk_count;
use crate::chunker::ChunkerOp;
use crate::chunker::lemma_chunks_of_shape;
use crate::chunker::lemma_drained_chunker_emitted_the_body;
use crate::chunker::Phase;
use crate::chunker::run_output;
use crate::chunker::run_state;
use crate::fetcher::bytes_of;
use crate::fetcher::can_occur_in_turn;
use crate::fetcher::lemma_output_is_in_manifest_order;
use crate::fetcher::lemma_queues_carry_the_chunks;
use crate::fetcher::PollOutcome;
use crate::fetcher::QueueItem;
use crate::fetcher::reassemble;
use crate::metadata::chunk_views;
use crate::metadata::ChunkMeta;
use crate::metadata::ChunkMetaView;
use crate::metadata::in_upload_order;
use crate::metadata::is_stable_sort_of;
use crate::metadata::lemma_sorting_keeps_upload_order;
use crate::metadata::MetadataStore;
use crate::metadata::ObjectMeta;
use crate::metadata::ObjectMetaView;
use crate::metadata::sort_by_index;
use crate::metadata::sound;
use crate::metadata::total_size;
use crate::placement::DataNode;
use crate::placement::node_for_ticket;
use crate::placement::slot_of;
use crate::status::BAD_REQUEST;
use crate::status::CREATED;
use crate::status::INTERNAL_SERVER_ERROR;
use crate::status::NOT_FOUND;
use crate::status::OK;
use crate::transport::check_exchange;
use crate::transport::chunk_url;
use crate::transport::chunk_url_of;
use crate::transport::Exchange;
use crate::transport::verdict;
use bytes::Bytes;
use vstd::prelude::*;
use vstd::string::StringExecFns;

verus! {

/// The length of a UUID in its hyphenated form.
pub const UUID_TEXT_LEN: usize = 36;

/// Whether `c` is one of `0` to `9` or `a` to `f`.
pub open spec fn is_lower_hex(c: char) -> bool {
    ('0' <= c && c <= '9') || ('a' <= c && c <= 'f')
}

/// Whether `text` has the form of a hyphenated lower-case UUID: 36
/// characters, hyphens at the positions 8, 13, 18 and 23, and hexadecimal
/// digits everywhere else.
pub open spec fn is_uuid_text(text: Seq<char>) -> bool {
    &&& text.len() == UUID_TEXT_LEN
    &&& forall|i: int|
        0 <= i < text.len() ==> if i == 8 || i == 13 || i == 18 || i == 23 {
            #[trigger] text[i] == '-'
        } else {
            is_lower_hex(text[i])
        }
}

/// Whether `id` is an identifier for a chunk of the object `key`: the key, a
/// hyphen, and a UUID.
pub open spec fn is_chunk_id_for(key: Seq<char>, id: Seq<char>) -> bool {
    &&& id.len() == key.len() + 1 + UUID_TEXT_LEN
    &&& id.subrange(0, key.len() as int) == key
    &&& id[key.len() as int] == '-'
    &&& is_uuid_text(id.subrange(key.len() as int + 1, id.len() as int))
}

/// A fresh random UUID, written out. This calls `Uuid::new_v4` of the `uuid`
/// crate and formats the result with its `Display`, which writes the
/// hyphenated lower-case form. Which UUID comes back is not known; that it
/// has this form is taken from the crate's source and not proved. The crate
/// panics where the operating system hands out no random bytes.
#[verifier::external_body]
fn random_uuid_text() -> (text: String)
    ensures
        is_uuid_text(text@),
{
    uuid::Uuid::new_v4().to_string()
}

/// The identifier made of an object key and a UUID.
pub fn chunk_id_from(key: &str, uuid_text: &str) -> (id: String)
    ensures
        id@ == key@ + "-"@ + uuid_text@,
        is_uuid_text(uuid_text@) ==> is_chunk_id_for(key@, id@),
{
    let mut id = String::from_str(key);
    id.append("-");
    id.append(uuid_text);
    proof {
        reveal_strlit("-");
        assert(id@.subrange(0, key@.len() as int) =~= key@);
        assert(id@.subrange(key@.len() as int + 1, id@.len() as int) =~= uuid_text@);
    }
    id
}

/// A new identifier for a chunk of the object `key`. It has at least as many
/// characters as a datanode asks for.
pub fn new_chunk_id(key: &str) -> (id: String)
    ensures
        is_chunk_id_for(key@, id@),
        id@.len() >= MIN_CHUNK_ID_LEN,
{
    let uuid_text = random_uuid_text();
    chunk_id_from(key, uuid_text.as_str())
}

/// Where an upload stands.
#[derive(Clone, Copy, PartialEq, Eq, Structural, Debug)]
pub enum UploadState {
    /// Chunks are being sent.
    Open,
    /// The upload was given up; the client is told this status.
    Aborted(u16),
}

/// An upload as the contracts see it.
pub struct UploadView {
    pub key: Seq<char>,
    pub chunks: Seq<ChunkMetaView>,
    pub total_size: nat,
    pub state: UploadState,
}

/// One chunk on its way to a node: the manifest entry it will get, and the
/// address it is sent to.
pub struct ChunkTransfer {
    pub meta: ChunkMeta,
    pub url: String,
}

/// The upload of one object: the manifest so far.
pub struct UploadSession {
    key: String,
    chunks: Vec<ChunkMeta>,
    total_size: usize,
    state: UploadState,
}

impl View for UploadSession {
    type V = UploadView;

    closed spec fn view(&self) -> UploadView {
        UploadView {
            key: self.key@,
            chunks: chunk_views(self.chunks@),
            total_size: self.total_size as nat,
            state: self.state,
        }
    }
}

/// The upload after the chunk `meta` has been stored: the chunk is added at
/// the end of the manifest, under the next index. An upload that was given
/// up takes no more chunks.
pub open spec fn recorded(upload: UploadView, meta: ChunkMetaView) -> UploadView {
    if upload.state == UploadState::Open {
        UploadView {
            key: upload.key,
            chunks: upload.chunks.push(
                ChunkMetaView {
                    index: upload.chunks.len(),
                    size: meta.size,
                    chunk_id: meta.chunk_id,
                    node: meta.node,
                },
            ),
            total_size: upload.total_size + meta.size,
            state: upload.state,
        }
    } else {
        upload
    }
}

/// The upload after it was given up with `status`. The first status stands.
pub open spec fn aborted(upload: UploadView, status: u16) -> UploadView {
    if upload.state == UploadState::Open {
        UploadView {
            key: upload.key,
            chunks: upload.chunks,
            total_size: upload.total_size,
            state: UploadState::Aborted(status),
        }
    } else {
        upload
    }
}

/// The manifest that an upload commits.
pub open spec fn manifest_of(upload: UploadView) -> ObjectMetaView {
    ObjectMetaView { size: upload.total_size, chunks: upload.chunks }
}

/// Whether an upload's books are in order: its chunks stand in upload order
/// and its total is the sum of their sizes.
pub open spec fn consistent(upload: UploadView) -> bool {
    &&& in_upload_order(upload.chunks)
    &&& upload.total_size == total_size(upload.chunks)
}

/// An upload of the object `key` of which nothing has been sent.
pub open spec fn upload_start(key: Seq<char>) -> UploadView {
    UploadView { key, chunks: Seq::empty(), total_size: 0, state: UploadState::Open }
}

/// The upload of the object `key` after the chunks `metas` have been stored
/// and recorded, in this order.
pub open spec fn upload_of(key: Seq<char>, metas: Seq<ChunkMetaView>) -> UploadView
    decreases metas.len(),
{
    if metas.len() == 0 {
        upload_start(key)
    } else {
        recorded(upload_of(key, metas.drop_last()), metas.last())
    }
}

/// Recording a chunk and giving an upload up both keep its books in order.
pub proof fn lemma_upload_stays_consistent(upload: UploadView, meta: ChunkMetaView, status: u16)
    requires
        consistent(upload),
    ensures
        consistent(recorded(upload, meta)),
        consistent(aborted(upload, status)),
        consistent(upload_start(upload.key)),
{
    let after = recorded(upload, meta);
    if upload.state == UploadState::Open {
        assert(after.chunks.drop_last() =~= upload.chunks);
    }
    assert(upload_start(upload.key).chunks =~= Seq::<ChunkMetaView>::empty());
}

/// An upload that recorded the chunks `metas` holds them in that order, each
/// under its position as index and with its node, identifier and size, and
/// its total is the sum of their sizes.
pub proof fn lemma_upload_of(key: Seq<char>, metas: Seq<ChunkMetaView>)
    ensures
        ({
            let upload = upload_of(key, metas);
            &&& upload.key == key
            &&& upload.state == UploadState::Open
            &&& consistent(upload)
            &&& sound(manifest_of(upload))
            &&& upload.chunks.len() == metas.len()
            &&& forall|i: int|
                0 <= i < metas.len() ==> {
                    &&& (#[trigger] upload.chunks[i]).size == metas[i].size
                    &&& upload.chunks[i].node == metas[i].node
                    &&& upload.chunks[i].chunk_id == metas[i].chunk_id
                }
        }),
    decreases metas.len(),
{
    if metas.len() == 0 {
        assert(upload_start(key).chunks =~= Seq::<ChunkMetaView>::empty());
    } else {
        lemma_upload_of(key, metas.drop_last());
        lemma_upload_stays_consistent(upload_of(key, metas.drop_last()), metas.last(), 0);
    }
}

/// The sizes of chunks that are as long as the pieces `pieces` add up to the
/// length of the pieces joined.
pub proof fn lemma_sizes_add_up(chunks: Seq<ChunkMetaView>, pieces: Seq<Seq<u8>>)
    requires
        chunks.len() == pieces.len(),
        forall|i: int| 0 <= i < chunks.len() ==> (#[trigger] chunks[i]).size == pieces[i].len(),
    ensures
        total_size(chunks) == pieces.flatten().len(),
    decreases chunks.len(),
{
    if chunks.len() == 0 {
        assert(pieces.flatten() =~= Seq::<u8>::empty());
    } else {
        let front = pieces.drop_last();
        assert forall|i: int| 0 <= i < chunks.drop_last().len() implies (
        #[trigger] chunks.drop_last()[i]).size == front[i].len() by {
            assert(chunks.drop_last()[i] == chunks[i]);
        }
        lemma_sizes_add_up(chunks.drop_last(), front);
        assert(pieces =~= front.push(pieces.last()));
        front.lemma_flatten_push(pieces.last());
    }
}

/// The manifest of an uploaded object. The chunker has taken in the whole
/// body and handed out every chunk (`ops` tells what was done to it), and
/// each chunk was recorded with its length as size. Then the manifest lists
/// as many chunks as the length of the body divided by `limit`, rounded up
/// (none for an empty body), in upload order, and their sizes add up to the
/// length of the body, which is the manifest's size.
pub proof fn lemma_manifest_of_upload(
    key: Seq<char>,
    ops: Seq<ChunkerOp>,
    limit: nat,
    metas: Seq<ChunkMetaView>,
)
    requires
        limit > 0,
        run_state(ops, limit).phase == Phase::Ended,
        run_state(ops, limit).pending.len() == 0,
        metas.len() == run_output(ops, limit).len(),
        forall|i: int|
            0 <= i < metas.len() ==> (#[trigger] metas[i]).size == run_output(ops, limit)[i].len(),
    ensures
        ({
            let body = accepted(ops, limit);
            let manifest = manifest_of(upload_of(key, metas));
            &&& manifest.chunks.len() == chunk_count(body.len(), limit)
            &&& (manifest.chunks.len() == 0 <==> body.len() == 0)
            &&& in_upload_order(manifest.chunks)
            &&& total_size(manifest.chunks) == body.len()
            &&& manifest.size == body.len()
            &&& sound(manifest)
        }),
{
    let body = accepted(ops, limit);
    let upload = upload_of(key, metas);
    let pieces = run_output(ops, limit);
    lemma_drained_chunker_emitted_the_body(ops, limit);
    lemma_upload_of(key, metas);
    lemma_chunks_of_shape(body, limit);
    assert forall|i: int| 0 <= i < upload.chunks.len() implies (#[trigger] upload.chunks[i]).size
        == pieces[i].len() by {
        assert(metas[i].size == pieces[i].len());
    }
    lemma_sizes_add_up(upload.chunks, pieces);
    if body.len() == 0 {
        assert(pieces.len() == 0);
    } else {
        assert(pieces.len() > 0);
    }
}

/// Upload, then download, gives the object back byte for byte.
///
/// On the way in, the chunker takes in the whole body and hands out every
/// chunk (`ops` tells what was done to it); the chunks are stored, `stored`
/// telling what each node holds under each identifier, and recorded as
/// `metas`. On the way out, the manifest is sorted into `plan`; the chunk at
/// each position of the plan gets a queue, which carries the bytes stored
/// for that chunk in whatever fragments; and the sequencer is polled with
/// any outcomes that can occur, until every queue is drained without an
/// error. Then the bytes handed to the consumer are the body, in order.
pub proof fn lemma_round_trip(
    key: Seq<char>,
    ops: Seq<ChunkerOp>,
    limit: nat,
    metas: Seq<ChunkMetaView>,
    stored: Map<(Seq<char>, Seq<char>), Seq<u8>>,
    plan: Seq<ChunkMetaView>,
    queues: Seq<Seq<QueueItem>>,
    outcomes: Seq<PollOutcome>,
)
    requires
        limit > 0,
        run_state(ops, limit).phase == Phase::Ended,
        run_state(ops, limit).pending.len() == 0,
        metas.len() == run_output(ops, limit).len(),
        forall|i: int|
            0 <= i < metas.len() ==> stored[(#[trigger] metas[i].node, metas[i].chunk_id)]
                == run_output(ops, limit)[i],
        is_stable_sort_of(plan, manifest_of(upload_of(key, metas)).chunks),
        queues.len() == plan.len(),
        queues.len() <= usize::MAX,
        forall|i: int|
            0 <= i < plan.len() ==> bytes_of(#[trigger] queues[i]) == stored[(
                plan[i].node,
                plan[i].chunk_id,
            )],
        can_occur_in_turn(queues, outcomes),
        !reassemble(queues, outcomes).sequencer.failed,
        reassemble(queues, outcomes).sequencer.cursor == queues.len(),
    ensures
        bytes_of(reassemble(queues, outcomes).emitted) == accepted(ops, limit),
{
    let pieces = run_output(ops, limit);
    let manifest = manifest_of(upload_of(key, metas)).chunks;
    lemma_drained_chunker_emitted_the_body(ops, limit);
    lemma_upload_of(key, metas);
    lemma_sorting_keeps_upload_order(plan, manifest);
    assert forall|i: int| 0 <= i < queues.len() implies bytes_of(#[trigger] queues[i])
        == pieces[i] by {
        assert(plan[i].node == metas[i].node);
        assert(plan[i].chunk_id == metas[i].chunk_id);
        assert(stored[(metas[i].node, metas[i].chunk_id)] == pieces[i]);
    }
    lemma_queues_carry_the_chunks(queues, pieces);
    lemma_output_is_in_manifest_order(queues, outcomes);
}

impl UploadSession {
    /// An upload of the object `key` of which nothing has been sent.
    pub fn new(key: String) -> (session: Self)
        ensures
            session@ == (UploadView {
                key: key@,
                chunks: Seq::empty(),
                total_size: 0,
                state: UploadState::Open,
            }),
    {
        let session = UploadSession {
            key,
            chunks: Vec::new(),
            total_size: 0,
            state: UploadState::Open,
        };
        assert(chunk_views(session.chunks@) =~= Seq::<ChunkMetaView>::empty());
        session
    }

    /// Decides where the next chunk goes: it gets a fresh identifier, the
    /// node that the placement ticket `ticket` selects, the next index and
    /// its own length as size. The candidate list must not be empty.
    pub fn plan_chunk(&self, ticket: usize, nodes: &[DataNode], chunk: &Bytes) -> (transfer:
        ChunkTransfer)
        requires
            nodes@.len() > 0,
        ensures
            transfer.meta@.index == self@.chunks.len(),
            transfer.meta@.size == frozen(*chunk).len(),
            transfer.meta@.node == nodes@[slot_of(ticket as nat, nodes@.len()) as int].base_url@,
            is_chunk_id_for(self@.key, transfer.meta@.chunk_id),
            transfer.url@ == chunk_url_of(transfer.meta@.node, transfer.meta@.chunk_id),
    {
        let chunk_id = new_chunk_id(self.key.as_str());
        let node = node_for_ticket(nodes, ticket);
        let url = chunk_url(node.base_url.as_str(), chunk_id.as_str());
        let meta = ChunkMeta {
            index: self.chunks.len(),
            size: chunk.len(),
            chunk_id,
            node: node.base_url.clone(),
        };
        ChunkTransfer { meta, url }
    }

    /// Whether `record` may be called with a chunk of `size` bytes: the
    /// object's length must stay within what the machine can count.
    pub fn has_room_for(&self, size: usize) -> (room: bool)
        ensures
            room == (self@.total_size + size <= usize::MAX),
    {
        size <= usize::MAX - self.total_size
    }

    /// Enters a chunk that a node has stored into the manifest. The object's
    /// length must stay within what the machine can count.
    pub fn record(&mut self, meta: ChunkMeta)
        requires
            old(self)@.total_size + meta@.size <= usize::MAX,
        ensures
            final(self)@ == recorded(old(self)@, meta@),
    {
        match self.state {
            UploadState::Open => {
                let ghost before = chunk_views(self.chunks@);
                let entry = ChunkMeta {
                    index: self.chunks.len(),
                    size: meta.size,
                    chunk_id: meta.chunk_id,
                    node: meta.node,
                };
                proof {
                    assert(chunk_views(self.chunks@.push(entry)) =~= before.push(entry@));
                    assert(before.push(entry@).drop_last() =~= before);
                }
                self.total_size = self.total_size + entry.size;
                self.chunks.push(entry);
            },
            UploadState::Aborted(_) => {},
        }
    }

    /// Gives the upload up because the body could not be read: the client is
    /// told that its request was bad.
    pub fn on_body_failed(&mut self) -> (status: u16)
        ensures
            final(self)@ == aborted(old(self)@, BAD_REQUEST),
            final(self)@.state == UploadState::Aborted(status),
    {
        match self.state {
            UploadState::Open => {
                self.state = UploadState::Aborted(BAD_REQUEST);
                BAD_REQUEST
            },
            UploadState::Aborted(status) => status,
        }
    }

    /// Gives the upload up because a node did not store a chunk: the client
    /// is told of a server error.
    pub fn on_chunk_failed(&mut self) -> (status: u16)
        ensures
            final(self)@ == aborted(old(self)@, INTERNAL_SERVER_ERROR),
            final(self)@.state == UploadState::Aborted(status),
    {
        match self.state {
            UploadState::Open => {
                self.state = UploadState::Aborted(INTERNAL_SERVER_ERROR);
                INTERNAL_SERVER_ERROR
            },
            UploadState::Aborted(status) => status,
        }
    }

    /// Ends the upload. An upload that is still open commits its manifest to
    /// the store, in place of any earlier one for the key, and the client is
    /// told that the object was created. An upload that was given up leaves
    /// the store as it is and the client is told why.
    pub fn finish(self, store: &mut MetadataStore) -> (status: u16)
        ensures
            match self@.state {
                UploadState::Open => status == CREATED && final(store)@ == old(store)@.insert(
                    self@.key,
                    manifest_of(self@),
                ),
                UploadState::Aborted(given_up) => status == given_up && final(store)@ == old(
                    store,
                )@,
            },
    {
        match self.state {
            UploadState::Open => {
                store.set(self.key, ObjectMeta { size: self.total_size, chunks: self.chunks });
                CREATED
            },
            UploadState::Aborted(status) => status,
        }
    }
}

/// What a download needs: the chunks in the order in which their bytes make
/// up the object, and the object's length for the `Content-Length` header.
pub struct ReadPlan {
    pub chunks: Vec<ChunkMeta>,
    pub content_length: usize,
}

/// Opens a download of the object `key`: its chunks sorted by index, and its
/// length. An unknown key is answered as not found.
pub fn plan_read(store: &MetadataStore, key: &str) -> (plan: Result<ReadPlan, u16>)
    ensures
        match plan {
            Ok(plan) => {
                &&& store@.contains_key(key@)
                &&& is_stable_sort_of(chunk_views(plan.chunks@), store@[key@].chunks)
                &&& plan.content_length == store@[key@].size
            },
            Err(status) => !store@.contains_key(key@) && status == NOT_FOUND,
        },
{
    match store.get(key) {
        Some(meta) => {
            let chunks = sort_by_index(&meta.chunks);
            Ok(ReadPlan { chunks, content_length: meta.size })
        },
        None => Err(NOT_FOUND),
    }
}

/// A delete as the contracts see it.
pub struct DeleteView {
    pub key: Seq<char>,
    pub chunks: Seq<ChunkMetaView>,
    /// The number of chunks deleted so far.
    pub deleted: nat,
    pub failed: bool,
}

/// The delete of one object: its chunks are deleted one after the other, and
/// the manifest goes last.
pub struct DeleteSession {
    key: String,
    chunks: Vec<ChunkMeta>,
    deleted: usize,
    failed: bool,
}

impl View for DeleteSession {
    type V = DeleteView;

    closed spec fn view(&self) -> DeleteView {
        DeleteView {
            key: self.key@,
            chunks: chunk_views(self.chunks@),
            deleted: self.deleted as nat,
            failed: self.failed,
        }
    }
}

/// The address of the chunk that a delete turns to next, or `None` once a
/// chunk could not be deleted or none is left.
pub open spec fn next_target_of(delete: DeleteView) -> Option<Seq<char>> {
    if !delete.failed && delete.deleted < delete.chunks.len() {
        let chunk = delete.chunks[delete.deleted as int];
        Some(chunk_url_of(chunk.node, chunk.chunk_id))
    } else {
        None
    }
}

/// The delete after the node's answer about the chunk it had turned to: a
/// success moves it on to the next chunk, anything else stops it.
pub open spec fn after_answer(delete: DeleteView, exchange: Exchange) -> DeleteView {
    if next_target_of(delete) is None {
        delete
    } else if verdict(exchange) is Ok {
        DeleteView {
            key: delete.key,
            chunks: delete.chunks,
            deleted: delete.deleted + 1,
            failed: false,
        }
    } else {
        DeleteView {
            key: delete.key,
            chunks: delete.chunks,
            deleted: delete.deleted,
            failed: true,
        }
    }
}

/// Whether a delete has deleted every chunk.
pub open spec fn complete(delete: DeleteView) -> bool {
    !delete.failed && delete.deleted == delete.chunks.len()
}

/// The store after a delete has ended: the key is forgotten once every chunk
/// is deleted, and until then the store stays as it is.
pub open spec fn store_after(
    store: Map<Seq<char>, ObjectMetaView>,
    delete: DeleteView,
) -> Map<Seq<char>, ObjectMetaView> {
    if complete(delete) {
        store.remove(delete.key)
    } else {
        store
    }
}

/// The delete after the nodes' answers `exchanges`, in order, from `start`
/// on.
pub open spec fn delete_run(start: DeleteView, exchanges: Seq<Exchange>) -> DeleteView
    decreases exchanges.len(),
{
    if exchanges.len() == 0 {
        start
    } else {
        after_answer(delete_run(start, exchanges.drop_last()), exchanges.last())
    }
}

/// The addresses that a delete turned to while it took in the answers
/// `exchanges`: one before each answer, as long as it had one to turn to.
pub open spec fn asked(start: DeleteView, exchanges: Seq<Exchange>) -> Seq<Seq<char>>
    decreases exchanges.len(),
{
    if exchanges.len() == 0 {
        Seq::empty()
    } else {
        let before = asked(start, exchanges.drop_last());
        match next_target_of(delete_run(start, exchanges.drop_last())) {
            Some(url) => before.push(url),
            None => before,
        }
    }
}

/// The delete of the object `key` with the chunks `chunks`, before any chunk
/// has been deleted.
pub open spec fn delete_start(key: Seq<char>, chunks: Seq<ChunkMetaView>) -> DeleteView {
    DeleteView { key, chunks, deleted: 0, failed: false }
}

/// The addresses of the first `count` chunks, in order.
pub open spec fn urls_of(chunks: Seq<ChunkMetaView>, count: int) -> Seq<Seq<char>> {
    Seq::new(count as nat, |i: int| chunk_url_of(chunks[i].node, chunks[i].chunk_id))
}

/// As long as the nodes answer with success, a delete works through the
/// chunks in manifest order, one address per answer.
pub proof fn lemma_delete_advances(
    key: Seq<char>,
    chunks: Seq<ChunkMetaView>,
    exchanges: Seq<Exchange>,
)
    requires
        exchanges.len() <= chunks.len(),
        forall|k: int| 0 <= k < exchanges.len() ==> verdict(#[trigger] exchanges[k]) is Ok,
    ensures
        delete_run(delete_start(key, chunks), exchanges) == (DeleteView {
            key,
            chunks,
            deleted: exchanges.len(),
            failed: false,
        }),
        asked(delete_start(key, chunks), exchanges) == urls_of(chunks, exchanges.len() as int),
    decreases exchanges.len(),
{
    let start = delete_start(key, chunks);
    if exchanges.len() == 0 {
        assert(asked(start, exchanges) =~= urls_of(chunks, 0));
    } else {
        let front = exchanges.drop_last();
        assert forall|k: int| 0 <= k < front.len() implies verdict(#[trigger] front[k]) is Ok by {
            assert(front[k] == exchanges[k]);
        }
        lemma_delete_advances(key, chunks, front);
        assert(verdict(exchanges[exchanges.len() - 1]) is Ok);
        assert(asked(start, exchanges) =~= urls_of(chunks, exchanges.len() as int));
    }
}

/// Deleting a known object: where every node answers with success, each
/// chunk of the manifest has been asked to be deleted, in manifest order,
/// and the key is forgotten.
pub proof fn lemma_delete_removes_chunks_and_manifest(
    store: Map<Seq<char>, ObjectMetaView>,
    key: Seq<char>,
    exchanges: Seq<Exchange>,
)
    requires
        store.contains_key(key),
        exchanges.len() == store[key].chunks.len(),
        forall|k: int| 0 <= k < exchanges.len() ==> verdict(#[trigger] exchanges[k]) is Ok,
    ensures
        ({
            let start = delete_start(key, store[key].chunks);
            let end = delete_run(start, exchanges);
            &&& complete(end)
            &&& next_target_of(end) is None
            &&& asked(start, exchanges) == urls_of(store[key].chunks, store[key].chunks.len() as int)
            &&& store_after(store, end) == store.remove(key)
            &&& !store_after(store, end).contains_key(key)
        }),
{
    lemma_delete_advances(key, store[key].chunks, exchanges);
}

/// The chunks that the nodes hold, by address, after a delete has taken in
/// the answers `exchanges`: a node that answers with success has deleted the
/// chunk it was asked about, and nothing else changes.
pub open spec fn held_after(
    held: Map<Seq<char>, Seq<u8>>,
    start: DeleteView,
    exchanges: Seq<Exchange>,
) -> Map<Seq<char>, Seq<u8>>
    decreases exchanges.len(),
{
    if exchanges.len() == 0 {
        held
    } else {
        let before = held_after(held, start, exchanges.drop_last());
        match next_target_of(delete_run(start, exchanges.drop_last())) {
            Some(url) => if verdict(exchanges.last()) is Ok {
                before.remove(url)
            } else {
                before
            },
            None => before,
        }
    }
}

/// A delete that runs to its end leaves none of the object's chunks on the
/// nodes, and leaves every other chunk where it is.
pub proof fn lemma_delete_removes_every_chunk(
    held: Map<Seq<char>, Seq<u8>>,
    key: Seq<char>,
    chunks: Seq<ChunkMetaView>,
    exchanges: Seq<Exchange>,
)
    requires
        exchanges.len() <= chunks.len(),
        forall|k: int| 0 <= k < exchanges.len() ==> verdict(#[trigger] exchanges[k]) is Ok,
    ensures
        forall|url: Seq<char>|
            #[trigger] held_after(held, delete_start(key, chunks), exchanges).contains_key(url) <==> (
            held.contains_key(url) && !urls_of(chunks, exchanges.len() as int).contains(url)),
        forall|url: Seq<char>|
            #[trigger] held_after(held, delete_start(key, chunks), exchanges).contains_key(url)
                ==> held_after(held, delete_start(key, chunks), exchanges)[url] == held[url],
    decreases exchanges.len(),
{
    let start = delete_start(key, chunks);
    let n = exchanges.len() as int;
    if n > 0 {
        let front = exchanges.drop_last();
        assert forall|k: int| 0 <= k < front.len() implies verdict(#[trigger] front[k]) is Ok by {
            assert(front[k] == exchanges[k]);
        }
        lemma_delete_removes_every_chunk(held, key, chunks, front);
        lemma_delete_advances(key, chunks, front);
        assert(verdict(exchanges[n - 1]) is Ok);
        let gone = chunk_url_of(chunks[n - 1].node, chunks[n - 1].chunk_id);
        let fewer = urls_of(chunks, n - 1);
        let all = urls_of(chunks, n);
        assert(all =~= fewer.push(gone));
        let before = held_after(held, start, front);
        let after = held_after(held, start, exchanges);
        assert(next_target_of(delete_run(start, front)) == Some(gone));
        assert(after == before.remove(gone));
        assert forall|url: Seq<char>| #[trigger] after.contains_key(url) implies after[url]
            == held[url] by {
            assert(before.contains_key(url));
        }
        assert forall|url: Seq<char>| #[trigger]
            after.contains_key(url) <==> (held.contains_key(url) && !all.contains(url)) by {
            assert(before.contains_key(url) <==> (held.contains_key(url) && !fewer.contains(url)));
            if all.contains(url) {
                let i = choose|i: int| 0 <= i < all.len() && all[i] == url;
                if i < n - 1 {
                    assert(fewer[i] == url);
                }
            }
            if url == gone {
                assert(all[n - 1] == url);
            } else if fewer.contains(url) {
                let i = choose|i: int| 0 <= i < fewer.len() && fewer[i] == url;
                assert(all[i] == url);
            }
        }
    } else {
        assert(urls_of(chunks, 0) =~= Seq::<Seq<char>>::empty());
    }
}

/// A delete that fails midway leaves the manifest in place: where the node
/// does not answer with success for the chunk at position `k`, the chunks
/// before it have been asked to be deleted and that one as well, none
/// behind it, and the store is as it was, whatever is reported afterwards.
pub proof fn lemma_failed_delete_keeps_manifest(
    store: Map<Seq<char>, ObjectMetaView>,
    key: Seq<char>,
    exchanges: Seq<Exchange>,
    k: int,
)
    requires
        store.contains_key(key),
        0 <= k < exchanges.len(),
        k < store[key].chunks.len(),
        forall|j: int| 0 <= j < k ==> verdict(#[trigger] exchanges[j]) is Ok,
        verdict(exchanges[k]) is Err,
    ensures
        ({
            let start = delete_start(key, store[key].chunks);
            let end = delete_run(start, exchanges);
            &&& end.failed
            &&& end.deleted == k
            &&& !complete(end)
            &&& next_target_of(end) is None
            &&& asked(start, exchanges) == urls_of(store[key].chunks, k + 1)
            &&& store_after(store, end) == store
        }),
    decreases exchanges.len(),
{
    let chunks = store[key].chunks;
    let start = delete_start(key, chunks);
    let front = exchanges.drop_last();
    if k == exchanges.len() - 1 {
        assert forall|j: int| 0 <= j < front.len() implies verdict(#[trigger] front[j]) is Ok by {
            assert(front[j] == exchanges[j]);
        }
        lemma_delete_advances(key, chunks, front);
        assert(asked(start, exchanges) =~= urls_of(chunks, k + 1));
    } else {
        assert forall|j: int| 0 <= j < k implies verdict(#[trigger] front[j]) is Ok by {
            assert(front[j] == exchanges[j]);
        }
        assert(front[k] == exchanges[k]);
        lemma_failed_delete_keeps_manifest(store, key, front, k);
    }
}

impl DeleteSession {
    /// Opens a delete of the object `key`, or tells that the key is unknown,
    /// in which case the client is told not found and nothing is touched.
    pub fn begin(store: &MetadataStore, key: &str) -> (opened: Result<DeleteSession, u16>)
        ensures
            match opened {
                Ok(session) => store@.contains_key(key@) && session@ == (DeleteView {
                    key: key@,
                    chunks: store@[key@].chunks,
                    deleted: 0,
                    failed: false,
                }),
                Err(status) => !store@.contains_key(key@) && status == NOT_FOUND,
            },
    {
        match store.get(key) {
            Some(meta) => Ok(
                DeleteSession {
                    key: String::from_str(key),
                    chunks: meta.chunks,
                    deleted: 0,
                    failed: false,
                },
            ),
            None => Err(NOT_FOUND),
        }
    }

    /// The address of the chunk to delete next, or `None` where the delete
    /// has nothing more to ask of the nodes.
    pub fn next_target(&self) -> (target: Option<String>)
        ensures
            match target {
                Some(url) => next_target_of(self@) == Some(url@),
                None => next_target_of(self@) is None,
            },
    {
        if !self.failed && self.deleted < self.chunks.len() {
            let chunk = &self.chunks[self.deleted];
            Some(chunk_url(chunk.node.as_str(), chunk.chunk_id.as_str()))
        } else {
            None
        }
    }

    /// Takes in the node's answer about the chunk last turned to.
    pub fn on_answer(&mut self, exchange: Exchange)
        ensures
            final(self)@ == after_answer(old(self)@, exchange),
    {
        if !self.failed && self.deleted < self.chunks.len() {
            match check_exchange(exchange) {
                Ok(_) => {
                    self.deleted = self.deleted + 1;
                },
                Err(_) => {
                    self.failed = true;
                },
            }
        }
    }

    /// Ends the delete. Once every chunk is deleted the key is forgotten and
    /// the client is told so; as long as a chunk is left, the store stays as
    /// it is and the client is told of a server error.
    pub fn finish(self, store: &mut MetadataStore) -> (status: u16)
        ensures
            final(store)@ == store_after(old(store)@, self@),
            status == if complete(self@) {
                OK
            } else {
                INTERNAL_SERVER_ERROR
            },
    {
        if !self.failed && self.deleted == self.chunks.len() {
            store.remove(self.key.as_str());
            OK
        } else {
            INTERNAL_SERVER_ERROR
        }
    }
}

} // verus!
