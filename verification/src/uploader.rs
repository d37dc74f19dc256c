use vstd::prelude::*;

verus! {

use crate::digest::Digester;
use crate::digest::sha256_of;
use crate::text::hex_of;

/// The persisted resume state of one in-flight transfer: the remote session
/// handle and how many leading bytes the remote store has acknowledged.
/// Written after every acknowledged chunk, deleted on completion; found on
/// restart, it is the signal to resume rather than start over.
pub struct UploadSession {
    pub url: String,
    pub committed_offset: u64,
}

/// How a `publish` call starts.
#[derive(Clone, Copy, Debug, PartialEq, Eq, Structural)]
pub enum BeginAction {
    /// The destination object already exists: return its reference at once,
    /// transfer nothing.
    AlreadyExists,
    /// A session survives for this destination: reopen its handle and skip
    /// retransfer of the first `offset` bytes.
    Resume { offset: u64 },
    /// No object and no session: negotiate a new session, start at zero.
    Fresh,
}

/// Decide how to begin publishing toward a destination, from the remote
/// probe and the persisted session, if any. Probing first makes duplicate
/// runs idempotent: a completed but not yet cataloged transfer is never
/// uploaded again.
pub fn plan_begin(remote_exists: bool, session: Option<&UploadSession>) -> (r: BeginAction)
    ensures
        remote_exists ==> r == BeginAction::AlreadyExists,
        !remote_exists ==> match session {
            Some(s) => r == (BeginAction::Resume { offset: s.committed_offset }),
            None => r == BeginAction::Fresh,
        },
{
    if remote_exists {
        BeginAction::AlreadyExists
    } else {
        match session {
            Some(s) => BeginAction::Resume { offset: s.committed_offset },
            None => BeginAction::Fresh,
        }
    }
}

/// One chunked transfer in progress. The caller reads the local file from
/// byte zero in `next_chunk_len()` steps and hands every chunk, in file
/// order, to `apply_chunk`; the run decides which chunks still need the
/// wire, keeps the streaming digest, and says what to checkpoint.
pub struct UploadRun {
    /// Fixed transfer granularity, in bytes; tunable, never derived from
    /// the file size.
    pub chunk_size: u64,
    /// Total length of the local file.
    pub file_size: u64,
    /// Bytes already acknowledged by the remote store before this run, as
    /// the resumed session reported; zero for a fresh session.
    pub resume_offset: u64,
    /// Bytes of the file absorbed so far in this run.
    pub committed: u64,
    /// The streaming digest over every absorbed byte.
    pub digester: Digester,
}

impl UploadRun {
    /// The bytes this run has absorbed, in file order.
    pub open spec fn content(self) -> Seq<u8> {
        self.digester.bytes()
    }

    pub open spec fn wf(self) -> bool {
        &&& self.chunk_size > 0
        &&& self.committed <= self.file_size
        &&& self.resume_offset <= self.file_size
        &&& self.content().len() == self.committed
    }

    /// Begin a run over a file of `file_size` bytes. For a resumed session
    /// `resume_offset` is its committed offset; the whole file is still
    /// read and digested from byte zero, but chunks that end at or before
    /// the offset are absorbed locally, not retransferred.
    pub fn start(chunk_size: u64, file_size: u64, resume_offset: u64) -> (r: UploadRun)
        requires
            chunk_size > 0,
            resume_offset <= file_size,
        ensures
            r.wf(),
            r.chunk_size == chunk_size,
            r.file_size == file_size,
            r.resume_offset == resume_offset,
            r.committed == 0,
            r.content() == Seq::<u8>::empty(),
    {
        UploadRun { chunk_size, file_size, resume_offset, committed: 0, digester: Digester::new() }
    }

    /// How long the next chunk is: a full chunk, or the shorter tail.
    pub open spec fn spec_next_len(self) -> int {
        if self.file_size - self.committed < self.chunk_size {
            self.file_size - self.committed
        } else {
            self.chunk_size as int
        }
    }

    pub fn next_chunk_len(&self) -> (r: u64)
        requires
            self.committed <= self.file_size,
        ensures
            r == self.spec_next_len(),
    {
        let rem = self.file_size - self.committed;
        if rem < self.chunk_size {
            rem
        } else {
            self.chunk_size
        }
    }

    pub fn done(&self) -> (r: bool)
        ensures
            r <==> self.committed == self.file_size,
    {
        self.committed == self.file_size
    }

    /// Absorb the next chunk of the file, in order. Returns whether the
    /// chunk must go over the wire: true exactly when it begins at or past
    /// the resumed offset, so a resumed run retransfers nothing the remote
    /// store already acknowledged, yet digests every byte of the file.
    pub fn apply_chunk(&mut self, chunk: &[u8]) -> (transfer: bool)
        requires
            old(self).wf(),
            old(self).committed < old(self).file_size,
            chunk@.len() == old(self).spec_next_len(),
        ensures
            final (self).wf(),
            final (self).chunk_size == old(self).chunk_size,
            final (self).file_size == old(self).file_size,
            final (self).resume_offset == old(self).resume_offset,
            final (self).committed == old(self).committed + chunk@.len(),
            final (self).content() == old(self).content() + chunk@,
            transfer <==> old(self).committed >= old(self).resume_offset,
    {
        let transfer = self.committed >= self.resume_offset;
        self.digester.update(chunk);
        self.committed = self.committed + chunk.len() as u64;
        transfer
    }

    /// The session state to persist once the chunk just transferred has
    /// been acknowledged — never earlier, so the checkpoint stays behind
    /// the remote store's acknowledged progress.
    pub fn checkpoint(&self, url: &String) -> (r: UploadSession)
        ensures
            r.url@ == url@,
            r.committed_offset == self.committed,
    {
        UploadSession { url: url.clone(), committed_offset: self.committed }
    }

    /// Finish a completed run: the digest of exactly the file's bytes, as
    /// lower-case hexadecimal text. Every successful publish returns this
    /// value, so the returned digest always equals the hash of the full
    /// local file content.
    pub fn finish(self) -> (digest: String)
        requires
            self.wf(),
            self.committed == self.file_size,
        ensures
            digest@ == hex_of(sha256_of(self.content())),
            self.content().len() == self.file_size,
    {
        self.digester.finalize_hex()
    }
}

/// The file's bytes cut into chunks of `cs` bytes, the last one shorter
/// when the length is no multiple of `cs`.
pub open spec fn spec_chunks(content: Seq<u8>, cs: int) -> Seq<Seq<u8>>
    recommends
        cs > 0,
    decreases content.len(),
    when cs > 0
{
    if content.len() == 0 {
        Seq::<Seq<u8>>::empty()
    } else if content.len() <= cs {
        seq![content]
    } else {
        seq![content.take(cs)] + spec_chunks(content.skip(cs), cs)
    }
}

/// Chunking loses and reorders nothing: the chunks of a file, concatenated
/// in order, are the file.
pub proof fn lemma_chunks_concat(content: Seq<u8>, cs: int)
    requires
        cs > 0,
    ensures
        spec_chunks(content, cs).flatten() == content,
    decreases content.len(),
{
    reveal_with_fuel(Seq::<_>::flatten, 3);
    if content.len() == 0 {
        assert(spec_chunks(content, cs).flatten() =~= content);
    } else if content.len() <= cs {
        assert(spec_chunks(content, cs) == seq![content]);
        seq![content].lemma_flatten_one_element();
    } else {
        lemma_chunks_concat(content.skip(cs), cs);
        let rest = spec_chunks(content.skip(cs), cs);
        assert((seq![content.take(cs)] + rest).drop_first() =~= rest);
        assert((seq![content.take(cs)] + rest).first() == content.take(cs));
        assert((seq![content.take(cs)] + rest).flatten() == content.take(cs) + rest.flatten());
        assert(content.take(cs) + content.skip(cs) =~= content);
    }
}

/// A run interrupted at a chunk boundary and resumed digests the same byte
/// stream as an uninterrupted one: both absorb every chunk of the file in
/// order — the resumed run merely stops retransferring the committed
/// prefix — so the content fed is the file itself either way, and the two
/// final digests are the digest of the same sequence.
pub proof fn lemma_resume_yields_same_digest(
    interrupted: UploadRun,
    uninterrupted: UploadRun,
    content: Seq<u8>,
)
    requires
        interrupted.wf(),
        uninterrupted.wf(),
        interrupted.committed == interrupted.file_size,
        uninterrupted.committed == uninterrupted.file_size,
        interrupted.content() == content,
        uninterrupted.content() == content,
    ensures
        hex_of(sha256_of(interrupted.content())) == hex_of(sha256_of(uninterrupted.content())),
{
}

} // verus!
