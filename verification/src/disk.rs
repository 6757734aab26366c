//! The disk protocol, without the input and output.
//!
//! The manager turns each request into a command for the disk, which is queued, and takes
//! the answers. A command is a line of text; that of a write is followed by the raw
//! blocks. Reads and questions have an answer, writes have none. At most one answer is
//! outstanding at a time.

use vstd::prelude::*;
use vstd::string::StringExecFns;

use crate::block::chunk;
use crate::text::{decimal, parse_line, parsed, push_decimal, trimmed};

verus! {

/// One command: a line, and for a write the blocks that follow it.
pub struct DiskCommand {
    pub header: String,
    pub payload: Vec<u8>,
}

impl DeepView for DiskCommand {
    type V = (Seq<char>, Seq<u8>);

    open spec fn deep_view(&self) -> (Seq<char>, Seq<u8>) {
        (self.header@, self.payload@)
    }
}

/// What the manager waits for.
pub enum Link {
    /// Nothing.
    Idle,
    /// The contents of some blocks.
    AskedBlocks { start: u64, count: u64 },
    /// Nothing any more: the blocks have come and wait to be fetched.
    HasBlocks { start: u64, count: u64, data: Vec<u8> },
    /// The first block of a file.
    AskedStart { file_id: String },
    /// The number of blocks of a file.
    AskedSize { file_id: String },
    /// Nothing any more: the first block of the file is known and waits to be fetched.
    HasStart { file_id: String, answer: u64 },
    /// Nothing any more: the number of blocks of the file is known and waits to be fetched.
    HasSize { file_id: String, answer: u64 },
}

/// Where a file lies.
pub struct Place {
    pub start: int,
    pub blocks: int,
}

/// Something that is asked of the disk.
pub enum Request {
    Read { start: nat, count: nat },
    Write { start: nat, data: Seq<u8> },
    FileStart(Seq<char>),
    FileSize(Seq<char>),
}

/// The command that a request is sent as: a line, and the bytes that follow it.
pub open spec fn command(r: Request, block_size: nat) -> (Seq<char>, Seq<u8>) {
    match r {
        Request::Read { start, count } => (
            "get block "@ + decimal(start) + " "@ + decimal(count) + "\n"@,
            Seq::empty(),
        ),
        Request::Write { start, data } => (
            "put block "@ + decimal(start) + " "@ + decimal(data.len() / block_size) + "\n"@,
            data,
        ),
        Request::FileStart(id) => ("get file start-block "@ + id + "\n"@, Seq::empty()),
        Request::FileSize(id) => ("get file num-blocks "@ + id + "\n"@, Seq::empty()),
    }
}

/// What requests make of the blocks of a disk.
pub open spec fn replay(
    blocks: Map<int, Seq<u8>>,
    requests: Seq<Request>,
    block_size: nat,
) -> Map<int, Seq<u8>>
    decreases requests.len(),
{
    if requests.len() == 0 {
        blocks
    } else {
        let before = replay(blocks, requests.drop_last(), block_size);
        match requests.last() {
            Request::Write { start, data } => written(before, start as int, data, block_size),
            _ => before,
        }
    }
}

/// What the disk holds, as far as it can be told from outside: what it held at first, what
/// has been asked of it since, and what it holds now.
pub struct World {
    pub origin: Map<int, Seq<u8>>,
    pub requests: Seq<Request>,
    pub blocks: Map<int, Seq<u8>>,
    pub files: Map<Seq<char>, Place>,
    pub healthy: bool,
}

/// A disk as the operators see it: the size of its blocks, the first block that may be
/// written, the first that is still unused, and what it holds.
///
/// It is healthy as long as all files lie before the blocks that may be written, every
/// answer was what the disk holds, and the block numbers have not run out.
#[verifier::ext_equal]
pub struct DiskModel {
    pub block_size: nat,
    pub anon_start: int,
    pub next: int,
    pub blocks: Map<int, Seq<u8>>,
    pub files: Map<Seq<char>, Place>,
    pub healthy: bool,
}

/// The blocks after `data` has been written from block `start` on.
pub open spec fn written(
    blocks: Map<int, Seq<u8>>,
    start: int,
    data: Seq<u8>,
    block_size: nat,
) -> Map<int, Seq<u8>> {
    Map::total(
        |b: int|
            if start <= b < start + data.len() / block_size {
                chunk(data, b - start, block_size)
            } else {
                blocks[b]
            },
    )
}

/// `data` is what blocks `start` to `start + count` hold.
pub open spec fn agrees(
    data: Seq<u8>,
    blocks: Map<int, Seq<u8>>,
    start: int,
    count: nat,
    block_size: nat,
) -> bool {
    &&& data.len() == count * block_size
    &&& forall|i: int| 0 <= i < count ==> #[trigger] chunk(data, i, block_size) == blocks[start + i]
}

/// All files lie before the first block that may be written.
pub open spec fn files_apart(files: Map<Seq<char>, Place>, anon_start: int) -> bool {
    forall|id: Seq<char>|
        #[trigger] files.contains_key(id) ==> {
            &&& 0 <= files[id].start
            &&& 0 <= files[id].blocks
            &&& files[id].start + files[id].blocks <= anon_start
        }
}

/// So many blocks have been used that their numbers may run out with the next write.
pub open spec fn runs_short(d: DiskModel) -> bool {
    d.next + usize::MAX as int / (d.block_size as int) > u64::MAX
}

/// Between `old_` and `new` only blocks that were unused in `old_` have been written. The
/// disk stays healthy, unless the block numbers run out.
pub open spec fn grows(old_: DiskModel, new: DiskModel) -> bool {
    &&& new.block_size == old_.block_size
    &&& new.anon_start == old_.anon_start
    &&& new.files == old_.files
    &&& old_.next <= new.next
    &&& new.healthy ==> old_.healthy
    &&& old_.healthy && !new.healthy ==> runs_short(new)
    &&& forall|b: int| b < old_.next ==> #[trigger] new.blocks[b] == old_.blocks[b]
}

/// Since `before` the disk has been asked for nothing, or for some blocks, once.
pub open spec fn reads_at_most(before: &DiskManager, after: &DiskManager) -> bool {
    let (all, had) = (after.world@.requests, before.world@.requests);
    ||| all == had
    ||| all == had.push(all.last()) && all.last() is Read
}

/// The most blocks that the operators ask for at a time.
pub const MAX_REQUEST: u64 = 64;

/// Speaks the protocol of the disk.
pub struct DiskManager {
    /// Block size in bytes.
    pub block_size: usize,
    /// First block of the anonymous (writable) region.
    pub anon_start: u64,
    /// Next free anonymous block.
    pub next_anon_block: u64,
    /// Commands that have not been sent.
    pub outbox: Vec<DiskCommand>,
    pub link: Link,
    pub world: Ghost<World>,
}

impl View for DiskManager {
    type V = DiskModel;

    open spec fn view(&self) -> DiskModel {
        DiskModel {
            block_size: self.block_size as nat,
            anon_start: self.anon_start as int,
            next: self.next_anon_block as int,
            blocks: self.world@.blocks,
            files: self.world@.files,
            healthy: self.world@.healthy,
        }
    }
}

impl DiskManager {
    /// The commands that have not been sent are those of the last requests, and what the
    /// disk holds is what all requests make of what it held at first.
    pub open spec fn queued(&self) -> bool {
        let out = self.outbox.deep_view();
        let all = self.world@.requests;
        &&& out.len() <= all.len()
        &&& forall|i: int|
            0 <= i < out.len() ==> #[trigger] out[i] == command(
                all[all.len() - out.len() + i],
                self.block_size as nat,
            )
        &&& self.world@.blocks == replay(self.world@.origin, all, self.block_size as nat)
    }

    /// What is waited for is what was asked for last.
    pub open spec fn linked(&self) -> bool {
        let all = self.world@.requests;
        match self.link {
            Link::Idle => true,
            Link::AskedBlocks { start, count } => all.len() > 0 && all.last() == (Request::Read {
                start: start as nat,
                count: count as nat,
            }),
            Link::HasBlocks { start, count, data } => all.len() > 0 && all.last() == (
            Request::Read { start: start as nat, count: count as nat }),
            Link::AskedStart { file_id } => all.len() > 0 && all.last() == Request::FileStart(
                file_id@,
            ),
            Link::AskedSize { file_id } => all.len() > 0 && all.last() == Request::FileSize(
                file_id@,
            ),
            Link::HasStart { file_id, answer } => all.len() > 0 && all.last()
                == Request::FileStart(file_id@),
            Link::HasSize { file_id, answer } => all.len() > 0 && all.last()
                == Request::FileSize(file_id@),
        }
    }

    /// A request of the largest size has an answer that memory can address, the commands are
    /// those of the requests, and on a healthy disk what it has answered is true.
    pub open spec fn wf(&self) -> bool {
        &&& self.queued()
        &&& self.linked()
        &&& self.block_size * MAX_REQUEST <= usize::MAX
        &&& self.anon_start <= self.next_anon_block
        &&& match self.link {
            Link::AskedBlocks { start, count } => count * self.block_size <= usize::MAX,
            Link::HasBlocks { start, count, data } => {
                &&& data@.len() == count * self.block_size
                &&& self@.healthy ==> agrees(
                    data@,
                    self@.blocks,
                    start as int,
                    count as nat,
                    self.block_size as nat,
                )
            },
            Link::HasStart { file_id, answer } => self@.healthy ==> {
                &&& self@.files.contains_key(file_id@)
                &&& self@.files[file_id@].start == answer
            },
            Link::HasSize { file_id, answer } => self@.healthy ==> {
                &&& self@.files.contains_key(file_id@)
                &&& self@.files[file_id@].blocks == answer
            },
            _ => true,
        }
        &&& self@.healthy ==> files_apart(self@.files, self@.anon_start)
    }

    /// No answer is outstanding, and none waits to be fetched.
    pub open spec fn idle(&self) -> bool {
        self.link is Idle
    }

    /// The disk has been asked something and has not answered.
    pub open spec fn awaiting(&self) -> bool {
        match self.link {
            Link::AskedBlocks { .. } => true,
            Link::AskedStart { .. } => true,
            Link::AskedSize { .. } => true,
            _ => false,
        }
    }

    /// The answer to a question on a file waits to be fetched.
    pub open spec fn answered(&self) -> bool {
        self.link is HasStart || self.link is HasSize
    }

    /// The blocks that have been asked for, whether or not they have come.
    pub open spec fn asked(&self) -> Option<(u64, u64)> {
        match self.link {
            Link::AskedBlocks { start, count } => Some((start, count)),
            Link::HasBlocks { start, count, data } => Some((start, count)),
            _ => None,
        }
    }

    /// Since `other` no command has been sent, but some may have been queued behind those
    /// that were.
    pub open spec fn follows(&self, other: &DiskManager) -> bool {
        let (all, had) = (self.world@.requests, other.world@.requests);
        &&& self.world@.origin == other.world@.origin
        &&& had.len() <= all.len()
        &&& forall|i: int| 0 <= i < had.len() ==> #[trigger] all[i] == had[i]
        &&& all.len() - self.outbox@.len() == had.len() - other.outbox@.len()
    }

    // ── Starting ─────────────────────────────────────────────────────────────

    /// The question for the block size.
    pub fn query_block_size() -> (r: String)
        ensures
            r@ == "get block-size\n"@,
    {
        String::from_str("get block-size\n")
    }

    /// The question for the first anonymous block.
    pub fn query_anon_start() -> (r: String)
        ensures
            r@ == "get anon-start-block\n"@,
    {
        String::from_str("get anon-start-block\n")
    }

    /// A manager for a disk that has answered the two questions with the given lines.
    /// There is none where an answer is no number, or where a request of the largest size
    /// would have an answer that memory cannot address.
    pub fn new(block_size_line: &[u8], anon_start_line: &[u8]) -> (r: Option<DiskManager>)
        ensures
            r is Some <==> {
                &&& parsed(trimmed(block_size_line@)) matches Some(n)
                &&& n * MAX_REQUEST <= usize::MAX
                &&& parsed(trimmed(anon_start_line@)) is Some
            },
            r matches Some(d) ==> {
                &&& d.wf()
                &&& d.idle()
                &&& Some(d.block_size as u64) == parsed(trimmed(block_size_line@))
                &&& Some(d.anon_start) == parsed(trimmed(anon_start_line@))
                &&& d.next_anon_block == d.anon_start
                &&& d.outbox@.len() == 0
                &&& d@.healthy <==> files_apart(d@.files, d@.anon_start)
            },
    {
        let size = match parse_line(block_size_line) {
            Some(n) => n,
            None => return None,
        };
        let anon_start = match parse_line(anon_start_line) {
            Some(n) => n,
            None => return None,
        };
        if size > (usize::MAX as u64) / MAX_REQUEST {
            return None;
        }
        let ghost held: World = arbitrary();
        let world: Ghost<World> = Ghost(
            World {
                origin: held.blocks,
                requests: Seq::empty(),
                healthy: files_apart(held.files, anon_start as int),
                ..held
            },
        );
        let d = DiskManager {
            block_size: size as usize,
            anon_start,
            next_anon_block: anon_start,
            outbox: Vec::new(),
            link: Link::Idle,
            world,
        };
        Some(d)
    }

    // ── Requests ─────────────────────────────────────────────────────────────

    /// The block size in bytes.
    pub fn block_size(&self) -> (r: usize)
        ensures
            r == self.block_size,
    {
        self.block_size
    }

    /// The first block of the anonymous region.
    pub fn anon_start(&self) -> (r: u64)
        ensures
            r == self.anon_start,
    {
        self.anon_start
    }

    /// Queues the command of a request.
    fn send(&mut self, header: String, payload: Vec<u8>, Ghost(r): Ghost<Request>)
        requires
            old(self).queued(),
            (header@, payload@) == command(r, old(self).block_size as nat),
        ensures
            final(self).outbox.deep_view() == old(self).outbox.deep_view().push(
                (header@, payload@),
            ),
            *final(self) == (DiskManager {
                outbox: final(self).outbox,
                world: final(self).world,
                ..*old(self)
            }),
            final(self).world@ == (World {
                requests: old(self).world@.requests.push(r),
                blocks: match r {
                    Request::Write { start, data } => written(
                        old(self).world@.blocks,
                        start as int,
                        data,
                        old(self).block_size as nat,
                    ),
                    _ => old(self).world@.blocks,
                },
                ..old(self).world@
            }),
            final(self).queued(),
    {
        let ghost before = self.outbox.deep_view();
        let ghost all = self.world@.requests;
        let ghost block_size = self.block_size as nat;
        let c = DiskCommand { header, payload };
        self.outbox.push(c);
        self.world = Ghost(
            World {
                requests: all.push(r),
                blocks: match r {
                    Request::Write { start, data } => written(
                        self.world@.blocks,
                        start as int,
                        data,
                        block_size,
                    ),
                    _ => self.world@.blocks,
                },
                ..self.world@
            },
        );
        proof {
            let out = self.outbox.deep_view();
            assert(out =~= before.push(c.deep_view()));
            assert(all.push(r).drop_last() =~= all);
            assert forall|i: int| 0 <= i < out.len() implies #[trigger] out[i] == command(
                all.push(r)[all.len() + 1 - out.len() + i],
                block_size,
            ) by {
                if i < before.len() {
                    assert(out[i] == before[i]);
                }
            }
        }
    }

    /// Reads `num_blocks` consecutive blocks from `start_block` on: asks for them the
    /// first time, and hands them out when they have come.
    pub fn read_blocks(&mut self, start_block: u64, num_blocks: u64) -> (r: Option<Vec<u8>>)
        requires
            old(self).wf(),
            num_blocks * old(self).block_size <= usize::MAX,
            old(self).idle() || old(self).asked() == Some((start_block, num_blocks)),
        ensures
            final(self).wf(),
            final(self)@ == old(self)@,
            final(self).follows(old(self)),
            r is Some <==> old(self).link is HasBlocks,
            r matches Some(data) ==> {
                &&& final(self).idle()
                &&& final(self).outbox == old(self).outbox
                &&& data@ == old(self).link->data@
                &&& data@.len() == num_blocks * old(self).block_size
                &&& old(self)@.healthy ==> agrees(
                    data@,
                    old(self)@.blocks,
                    start_block as int,
                    num_blocks as nat,
                    old(self)@.block_size,
                )
            },
            r is None ==> final(self).asked() == Some((start_block, num_blocks)),
            r is None ==> final(self).awaiting(),
            final(self).world@.requests == if old(self).idle() {
                old(self).world@.requests.push(
                    (Request::Read { start: start_block as nat, count: num_blocks as nat }),
                )
            } else {
                old(self).world@.requests
            },
            r is None ==> final(self).outbox.deep_view() == if old(self).idle() {
                old(self).outbox.deep_view().push(
                    (
                        "get block "@ + decimal(start_block as nat) + " "@ + decimal(
                            num_blocks as nat,
                        ) + "\n"@,
                        Seq::<u8>::empty(),
                    ),
                )
            } else {
                old(self).outbox.deep_view()
            },
    {
        let mut link = Link::Idle;
        std::mem::swap(&mut link, &mut self.link);
        match link {
            Link::HasBlocks { start, count, data } => Some(data),
            Link::Idle => {
                let mut header = String::from_str("get block ");
                push_decimal(&mut header, start_block);
                header.append(" ");
                push_decimal(&mut header, num_blocks);
                header.append("\n");
                let ghost r = Request::Read {
                    start: start_block as nat,
                    count: num_blocks as nat,
                };
                self.send(header, Vec::new(), Ghost(r));
                self.link = Link::AskedBlocks { start: start_block, count: num_blocks };
                None
            },
            other => {
                self.link = other;
                None
            },
        }
    }

    /// Takes the blocks that have been asked for.
    pub fn deliver_blocks(&mut self, data: Vec<u8>)
        requires
            old(self).wf(),
            old(self).link matches Link::AskedBlocks { start, count } && data@.len() == count
                * old(self).block_size,
        ensures
            final(self).wf(),
            final(self).follows(old(self)),
            final(self).outbox == old(self).outbox,
            final(self).world@.requests == old(self).world@.requests,
            final(self).asked() == old(self).asked(),
            final(self).link matches Link::HasBlocks { data: d, .. } && d@ == data@,
            old(self).asked() matches Some((start, count)) ==> final(self)@ == (DiskModel {
                healthy: old(self)@.healthy && agrees(
                    data@,
                    old(self)@.blocks,
                    start as int,
                    count as nat,
                    old(self)@.block_size,
                ),
                ..old(self)@
            }),
    {
        let mut link = Link::Idle;
        std::mem::swap(&mut link, &mut self.link);
        match link {
            Link::AskedBlocks { start, count } => {
                let ghost true_answer = agrees(
                    data@,
                    self@.blocks,
                    start as int,
                    count as nat,
                    self@.block_size,
                );
                self.world = Ghost(
                    World { healthy: self.world@.healthy && true_answer, ..self.world@ },
                );
                self.link = Link::HasBlocks { start, count, data };
            },
            other => {
                self.link = other;
            },
        }
    }

    /// Writes `data` to disk from `start_block` on, which lies in the anonymous region.
    /// `data.len()` is an exact multiple of the block size. The header line and the raw
    /// bytes make one command, and no answer comes.
    pub fn write_blocks(&mut self, start_block: u64, data: Vec<u8>)
        requires
            old(self).wf(),
            old(self).idle(),
            old(self).block_size > 0,
            data@.len() % (old(self).block_size as nat) == 0,
            start_block >= old(self).anon_start,
        ensures
            final(self).wf(),
            final(self).idle(),
            final(self).follows(old(self)),
            final(self)@ == (DiskModel {
                blocks: written(
                    old(self)@.blocks,
                    start_block as int,
                    data@,
                    old(self)@.block_size,
                ),
                ..old(self)@
            }),
            final(self).outbox.deep_view() == old(self).outbox.deep_view().push(
                (
                    "put block "@ + decimal(start_block as nat) + " "@ + decimal(
                        data@.len() / (old(self).block_size as nat),
                    ) + "\n"@,
                    data@,
                ),
            ),
            final(self).world@.requests == old(self).world@.requests.push(
                (Request::Write { start: start_block as nat, data: data@ }),
            ),
    {
        let num_blocks = data.len() / self.block_size;
        let mut header = String::from_str("put block ");
        push_decimal(&mut header, start_block);
        header.append(" ");
        push_decimal(&mut header, num_blocks as u64);
        header.append("\n");
        let ghost r = Request::Write { start: start_block as nat, data: data@ };
        self.send(header, data, Ghost(r));
    }

    /// Allocates `count` consecutive anonymous blocks and gives the first. Blocks are
    /// never given back.
    pub fn alloc_anon_blocks(&mut self, count: u64) -> (start: u64)
        requires
            old(self).wf(),
            old(self).next_anon_block + count <= u64::MAX,
        ensures
            final(self).wf(),
            final(self).link == old(self).link,
            final(self).outbox == old(self).outbox,
            final(self).world == old(self).world,
            final(self).follows(old(self)),
            start == old(self).next_anon_block,
            final(self)@ == (DiskModel { next: old(self)@.next + count, ..old(self)@ }),
    {
        let start = self.next_anon_block;
        self.next_anon_block = self.next_anon_block + count;
        start
    }

    /// Writes whole blocks to a place of their own and gives the first block and their
    /// number. There is no such place only where the block numbers have run out.
    pub fn store(&mut self, data: Vec<u8>) -> (r: Option<(u64, u64)>)
        requires
            old(self).wf(),
            old(self).idle(),
            old(self).block_size > 0,
            data@.len() % (old(self).block_size as nat) == 0,
        ensures
            final(self).wf(),
            final(self).idle(),
            final(self).follows(old(self)),
            grows(old(self)@, final(self)@),
            match r {
                Some((start, count)) => {
                    &&& start == old(self)@.next
                    &&& count == data@.len() / (old(self)@.block_size)
                    &&& final(self)@ == (DiskModel {
                        next: old(self)@.next + count,
                        blocks: written(
                            old(self)@.blocks,
                            start as int,
                            data@,
                            old(self)@.block_size,
                        ),
                        ..old(self)@
                    })
                    &&& final(self).outbox.deep_view() == old(self).outbox.deep_view().push(
                        (
                            "put block "@ + decimal(start as nat) + " "@ + decimal(count as nat)
                                + "\n"@,
                            data@,
                        ),
                    )
                    &&& final(self).world@.requests == old(self).world@.requests.push(
                        (Request::Write { start: start as nat, data: data@ }),
                    )
                },
                None => {
                    &&& old(self)@.next + data@.len() / (old(self)@.block_size) > u64::MAX
                    &&& !final(self)@.healthy
                    &&& final(self).outbox == old(self).outbox
                    &&& final(self).world@.requests == old(self).world@.requests
                },
            },
    {
        let count: u64 = (data.len() / self.block_size) as u64;
        if count > u64::MAX - self.next_anon_block {
            self.world = Ghost(World { healthy: false, ..self.world@ });
            proof {
                vstd::arithmetic::div_mod::lemma_div_is_ordered(
                    data@.len() as int,
                    usize::MAX as int,
                    self.block_size as int,
                );
            }
            return None;
        }
        let start = self.alloc_anon_blocks(count);
        self.write_blocks(start, data);
        Some((start, count))
    }

    /// The first block of a named file. The call asks the disk; the next call on the same
    /// file fetches the answer, once it has come.
    pub fn get_file_start_block(&mut self, file_id: &String) -> (r: Option<u64>)
        requires
            old(self).wf(),
        ensures
            final(self).wf(),
            final(self)@ == old(self)@,
            final(self).follows(old(self)),
            match old(self).link {
                Link::HasStart { file_id: id, answer } => if id@ == file_id@ {
                    &&& r == Some(answer)
                    &&& *final(self) == (DiskManager { link: Link::Idle, ..*old(self) })
                    &&& old(self)@.healthy ==> {
                        &&& old(self)@.files.contains_key(file_id@)
                        &&& old(self)@.files[file_id@].start == answer
                    }
                } else {
                    r is None && *final(self) == *old(self)
                },
                Link::Idle => {
                    &&& r is None
                    &&& final(self).link matches Link::AskedStart { file_id: id } && id@ == file_id@
                    &&& final(self).outbox.deep_view() == old(self).outbox.deep_view().push(
                        ("get file start-block "@ + file_id@ + "\n"@, Seq::<u8>::empty()),
                    )
                    &&& final(self).world@.requests == old(self).world@.requests.push(
                        Request::FileStart(file_id@),
                    )
                },
                _ => r is None && *final(self) == *old(self),
            },
    {
        let mut link = Link::Idle;
        std::mem::swap(&mut link, &mut self.link);
        match link {
            Link::Idle => {
                let mut header = String::from_str("get file start-block ");
                header.append(file_id.as_str());
                header.append("\n");
                self.send(header, Vec::new(), Ghost(Request::FileStart(file_id@)));
                self.link = Link::AskedStart { file_id: file_id.clone() };
                None
            },
            Link::HasStart { file_id: id, answer } => {
                if id == *file_id {
                    return Some(answer);
                }
                self.link = Link::HasStart { file_id: id, answer };
                None
            },
            other => {
                self.link = other;
                None
            },
        }
    }

    /// The number of blocks that a named file spans. The call asks the disk; the next call on
    /// the same file fetches the answer, once it has come.
    pub fn get_file_num_blocks(&mut self, file_id: &String) -> (r: Option<u64>)
        requires
            old(self).wf(),
        ensures
            final(self).wf(),
            final(self)@ == old(self)@,
            final(self).follows(old(self)),
            match old(self).link {
                Link::HasSize { file_id: id, answer } => if id@ == file_id@ {
                    &&& r == Some(answer)
                    &&& *final(self) == (DiskManager { link: Link::Idle, ..*old(self) })
                    &&& old(self)@.healthy ==> {
                        &&& old(self)@.files.contains_key(file_id@)
                        &&& old(self)@.files[file_id@].blocks == answer
                    }
                } else {
                    r is None && *final(self) == *old(self)
                },
                Link::Idle => {
                    &&& r is None
                    &&& final(self).link matches Link::AskedSize { file_id: id } && id@ == file_id@
                    &&& final(self).outbox.deep_view() == old(self).outbox.deep_view().push(
                        ("get file num-blocks "@ + file_id@ + "\n"@, Seq::<u8>::empty()),
                    )
                    &&& final(self).world@.requests == old(self).world@.requests.push(
                        Request::FileSize(file_id@),
                    )
                },
                _ => r is None && *final(self) == *old(self),
            },
    {
        let mut link = Link::Idle;
        std::mem::swap(&mut link, &mut self.link);
        match link {
            Link::Idle => {
                let mut header = String::from_str("get file num-blocks ");
                header.append(file_id.as_str());
                header.append("\n");
                self.send(header, Vec::new(), Ghost(Request::FileSize(file_id@)));
                self.link = Link::AskedSize { file_id: file_id.clone() };
                None
            },
            Link::HasSize { file_id: id, answer } => {
                if id == *file_id {
                    return Some(answer);
                }
                self.link = Link::HasSize { file_id: id, answer };
                None
            },
            other => {
                self.link = other;
                None
            },
        }
    }

    /// Takes the line that answers a question on a file. Refuses one that is no number.
    pub fn deliver_line(&mut self, line: &[u8]) -> (ok: bool)
        requires
            old(self).wf(),
            old(self).link is AskedStart || old(self).link is AskedSize,
        ensures
            final(self).wf(),
            final(self).outbox == old(self).outbox,
            final(self).world@.requests == old(self).world@.requests,
            final(self).follows(old(self)),
            ok == parsed(trimmed(line@)) is Some,
            !ok ==> *final(self) == *old(self),
            ok ==> {
                let n = parsed(trimmed(line@))->0;
                match old(self).link {
                    Link::AskedStart { file_id } => {
                        let id = file_id@;
                        &&& final(self).link matches Link::HasStart { file_id: own, answer }
                            && own@ == id && answer == n
                        &&& final(self)@ == (DiskModel {
                            healthy: old(self)@.healthy && old(self)@.files.contains_key(id)
                                && old(self)@.files[id].start == n,
                            ..old(self)@
                        })
                    },
                    Link::AskedSize { file_id } => {
                        let id = file_id@;
                        &&& final(self).link matches Link::HasSize { file_id: own, answer }
                            && own@ == id && answer == n
                        &&& final(self)@ == (DiskModel {
                            healthy: old(self)@.healthy && old(self)@.files.contains_key(id)
                                && old(self)@.files[id].blocks == n,
                            ..old(self)@
                        })
                    },
                    _ => true,
                }
            },
    {
        let n = match parse_line(line) {
            Some(n) => n,
            None => return false,
        };
        let mut link = Link::Idle;
        std::mem::swap(&mut link, &mut self.link);
        match link {
            Link::AskedStart { file_id } => {
                let ghost id = file_id@;
                let ghost true_answer = self@.files.contains_key(id) && self@.files[id].start == n;
                self.world = Ghost(
                    World { healthy: self.world@.healthy && true_answer, ..self.world@ },
                );
                self.link = Link::HasStart { file_id, answer: n };
            },
            Link::AskedSize { file_id } => {
                let ghost id = file_id@;
                let ghost true_answer = self@.files.contains_key(id) && self@.files[id].blocks == n;
                self.world = Ghost(
                    World { healthy: self.world@.healthy && true_answer, ..self.world@ },
                );
                self.link = Link::HasSize { file_id, answer: n };
            },
            other => {
                self.link = other;
            },
        }
        true
    }

    // ── The outside ──────────────────────────────────────────────────────────

    /// Hands out the commands that have not been sent.
    pub fn take_commands(&mut self) -> (r: Vec<DiskCommand>)
        requires
            old(self).wf(),
        ensures
            final(self).wf(),
            r@ == old(self).outbox@,
            final(self).outbox@.len() == 0,
            *final(self) == (DiskManager { outbox: final(self).outbox, ..*old(self) }),
    {
        let mut r: Vec<DiskCommand> = Vec::new();
        std::mem::swap(&mut r, &mut self.outbox);
        r
    }

    /// How many bytes of blocks the disk has yet to answer with.
    pub fn awaited_bytes(&self) -> (r: Option<usize>)
        requires
            self.wf(),
        ensures
            match self.link {
                Link::AskedBlocks { start, count } => r matches Some(n) && n == count
                    * self.block_size,
                _ => r is None,
            },
    {
        match &self.link {
            Link::AskedBlocks { start, count } => {
                let count: u64 = *count;
                if self.block_size == 0 {
                    assert(count * self.block_size == 0) by (nonlinear_arith)
                        requires
                            self.block_size == 0,
                    ;
                    return Some(0);
                }
                proof {
                    assert(count <= usize::MAX) by (nonlinear_arith)
                        requires
                            count * self.block_size <= usize::MAX,
                            self.block_size >= 1,
                            0 <= count,
                    ;
                }
                Some((count as usize) * self.block_size)
            },
            _ => None,
        }
    }

    /// Whether the disk has yet to answer with a line.
    pub fn awaits_line(&self) -> (r: bool)
        ensures
            r == (self.link is AskedStart || self.link is AskedSize),
    {
        match &self.link {
            Link::AskedStart { .. } => true,
            Link::AskedSize { .. } => true,
            _ => false,
        }
    }
}

/// Blocks that are handed out one after the other do not overlap, and none of them is
/// a block of a file. `first` and `second` are the first blocks of two regions, handed out
/// of disks that hold `d` and, later, `e`.
pub proof fn lemma_regions_apart(
    d: DiskModel,
    first: int,
    count: nat,
    e: DiskModel,
    second: int,
    id: Seq<char>,
)
    requires
        files_apart(d.files, d.anon_start),
        d.anon_start <= d.next,
        d.files.contains_key(id),
        first == d.next,
        grows((DiskModel { next: d.next + count, ..d }), e),
        second == e.next,
    ensures
        first + count <= second,
        d.files[id].start + d.files[id].blocks <= first,
{
}

} // verus!
