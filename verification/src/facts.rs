//! What has been learned of the files on the disk.

use vstd::prelude::*;

use crate::disk::{DiskManager, DiskModel, Link, Request};

verus! {

/// The answer on a file that the list gives, if any.
pub open spec fn known(list: Seq<(Seq<char>, u64)>, id: Seq<char>) -> Option<u64>
    decreases list.len(),
{
    if list.len() == 0 {
        None
    } else if list.last().0 == id {
        Some(list.last().1)
    } else {
        known(list.drop_last(), id)
    }
}

fn look_up(list: &Vec<(String, u64)>, id: &String) -> (r: Option<u64>)
    ensures
        r == known(list.deep_view(), id@),
{
    let mut n: usize = list.len();
    proof {
        assert(list.deep_view().take(n as int) =~= list.deep_view());
    }
    while n > 0
        invariant
            n <= list.len(),
            known(list.deep_view(), id@) == known(list.deep_view().take(n as int), id@),
        decreases n,
    {
        let ghost front = list.deep_view().take(n as int);
        proof {
            assert(front.last() == (list[n - 1].0@, list[n - 1].1));
            assert(front.drop_last() =~= list.deep_view().take(n - 1));
        }
        if list[n - 1].0 == *id {
            return Some(list[n - 1].1);
        }
        n -= 1;
    }
    None
}

/// The answers of the disk on files.
pub struct FileFacts {
    /// First blocks of files.
    pub starts: Vec<(String, u64)>,
    /// Numbers of blocks of files.
    pub sizes: Vec<(String, u64)>,
}

/// The disk has been asked for the first block of the file.
pub open spec fn asks_start(before: &DiskManager, after: &DiskManager, id: Seq<char>) -> bool {
    &&& after.link matches Link::AskedStart { file_id } && file_id@ == id
    &&& after.outbox.deep_view() == before.outbox.deep_view().push(
        ("get file start-block "@ + id + "\n"@, Seq::<u8>::empty()),
    )
    &&& after.world@.requests == before.world@.requests.push(Request::FileStart(id))
}

/// The disk has been asked for the number of blocks of the file.
pub open spec fn asks_size(before: &DiskManager, after: &DiskManager, id: Seq<char>) -> bool {
    &&& after.link matches Link::AskedSize { file_id } && file_id@ == id
    &&& after.outbox.deep_view() == before.outbox.deep_view().push(
        ("get file num-blocks "@ + id + "\n"@, Seq::<u8>::empty()),
    )
    &&& after.world@.requests == before.world@.requests.push(Request::FileSize(id))
}

/// The disk has been asked the question, which is on a file, and nothing else.
pub open spec fn asks(before: &DiskManager, after: &DiskManager, question: Request) -> bool {
    match question {
        Request::FileStart(id) => asks_start(before, after, id),
        Request::FileSize(id) => asks_size(before, after, id),
        _ => false,
    }
}

/// The disk with the answer that waited, if any, fetched.
pub open spec fn freed(disk: DiskManager) -> DiskManager {
    if disk.answered() {
        DiskManager { link: Link::Idle, ..disk }
    } else {
        disk
    }
}

impl FileFacts {
    /// On a healthy disk the facts are true.
    pub open spec fn hold(&self, d: DiskModel) -> bool {
        d.healthy ==> {
            &&& forall|id: Seq<char>|
                (#[trigger] known(self.starts.deep_view(), id)) matches Some(n) ==> {
                    &&& d.files.contains_key(id)
                    &&& d.files[id].start == n
                }
            &&& forall|id: Seq<char>|
                (#[trigger] known(self.sizes.deep_view(), id)) matches Some(n) ==> {
                    &&& d.files.contains_key(id)
                    &&& d.files[id].blocks == n
                }
        }
    }

    /// The facts are those of `other`, and the answer that waited with the disk, if any.
    pub open spec fn extend(&self, other: &FileFacts, disk: &DiskManager) -> bool {
        match disk.link {
            Link::HasStart { file_id, answer } => {
                &&& self.starts.deep_view() == other.starts.deep_view().push((file_id@, answer))
                &&& self.sizes == other.sizes
            },
            Link::HasSize { file_id, answer } => {
                &&& self.starts == other.starts
                &&& self.sizes.deep_view() == other.sizes.deep_view().push((file_id@, answer))
            },
            _ => *self == *other,
        }
    }

    /// Nothing is known.
    pub fn new() -> (r: FileFacts)
        ensures
            r.starts@.len() == 0,
            r.sizes@.len() == 0,
            forall|d: DiskModel| #[trigger] r.hold(d),
    {
        FileFacts { starts: Vec::new(), sizes: Vec::new() }
    }

    /// The first block of a file, if it is known. Else the disk is asked.
    pub fn start_of(&self, file_id: &String, disk: &mut DiskManager) -> (r: Option<u64>)
        requires
            old(disk).wf(),
            old(disk).idle(),
        ensures
            final(disk).wf(),
            final(disk)@ == old(disk)@,
            final(disk).follows(old(disk)),
            r == known(self.starts.deep_view(), file_id@),
            r is Some ==> *final(disk) == *old(disk),
            r is None ==> asks_start(old(disk), final(disk), file_id@),
    {
        match look_up(&self.starts, file_id) {
            Some(n) => Some(n),
            None => disk.get_file_start_block(file_id),
        }
    }

    /// The number of blocks of a file, if it is known. Else the disk is asked.
    pub fn size_of(&self, file_id: &String, disk: &mut DiskManager) -> (r: Option<u64>)
        requires
            old(disk).wf(),
            old(disk).idle(),
        ensures
            final(disk).wf(),
            final(disk)@ == old(disk)@,
            final(disk).follows(old(disk)),
            r == known(self.sizes.deep_view(), file_id@),
            r is Some ==> *final(disk) == *old(disk),
            r is None ==> asks_size(old(disk), final(disk), file_id@),
    {
        match look_up(&self.sizes, file_id) {
            Some(n) => Some(n),
            None => disk.get_file_num_blocks(file_id),
        }
    }

    /// Fetches the answer that waits with the disk, if any.
    pub fn learn(&mut self, disk: &mut DiskManager)
        requires
            old(disk).wf(),
            old(self).hold(old(disk)@),
            old(disk).idle() || old(disk).answered(),
        ensures
            final(disk).wf(),
            *final(disk) == freed(*old(disk)),
            final(disk).idle(),
            final(self).extend(old(self), old(disk)),
            final(self).hold(final(disk)@),
    {
        let start: Option<String> = match &disk.link {
            Link::HasStart { file_id, .. } => Some(file_id.clone()),
            _ => None,
        };
        let size: Option<String> = match &disk.link {
            Link::HasSize { file_id, .. } => Some(file_id.clone()),
            _ => None,
        };
        if let Some(id) = start {
            let ghost before = self.starts.deep_view();
            if let Some(n) = disk.get_file_start_block(&id) {
                let ghost name = id@;
                self.starts.push((id, n));
                proof {
                    lemma_known_push(before, name, n);
                    assert(self.starts.deep_view() =~= before.push((name, n)));
                }
            }
        }
        if let Some(id) = size {
            let ghost before = self.sizes.deep_view();
            if let Some(n) = disk.get_file_num_blocks(&id) {
                let ghost name = id@;
                self.sizes.push((id, n));
                proof {
                    lemma_known_push(before, name, n);
                    assert(self.sizes.deep_view() =~= before.push((name, n)));
                }
            }
        }
    }
}

proof fn lemma_known_push(list: Seq<(Seq<char>, u64)>, id: Seq<char>, n: u64)
    ensures
        forall|other: Seq<char>| #[trigger]
            known(list.push((id, n)), other) == (if other == id {
                Some(n)
            } else {
                known(list, other)
            }),
{
    assert(list.push((id, n)).drop_last() =~= list);
}

} // verus!
