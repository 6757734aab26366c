//! What the disk is told, and what it gives back.

use vstd::prelude::*;

use crate::block::{chunk, lemma_chunk_bounds};
use crate::disk::{agrees, command, written, Request};
use crate::numberlaws::{lemma_signed_read, reads_as};
use crate::text::decimal;

verus! {

/// A line of two words and two numbers.
pub open spec fn says(line: Seq<char>, words: Seq<char>, a: int, b: int) -> bool {
    exists|x: Seq<char>, y: Seq<char>|
        #![trigger reads_as(x, a), reads_as(y, b)]
        {
            &&& reads_as(x, a)
            &&& reads_as(y, b)
            &&& line == words + seq![' '] + x + seq![' '] + y + seq!['\n']
        }
}

/// A request for blocks is a line with the first block and their number, and so is one to
/// write blocks, which the bytes follow. A question on a file is a line with its name.
pub proof fn lemma_commands_mean(r: Request, block_size: nat)
    requires
        block_size > 0,
    ensures
        match r {
            Request::Read { start, count } => {
                &&& says(command(r, block_size).0, "get block"@, start as int, count as int)
                &&& command(r, block_size).1.len() == 0
            },
            Request::Write { start, data } => {
                &&& says(
                    command(r, block_size).0,
                    "put block"@,
                    start as int,
                    data.len() as int / block_size as int,
                )
                &&& command(r, block_size).1 == data
            },
            Request::FileStart(id) => {
                &&& command(r, block_size).0 == "get file start-block"@ + seq![' '] + id + seq![
                    '\n',
                ]
                &&& command(r, block_size).1.len() == 0
            },
            Request::FileSize(id) => {
                &&& command(r, block_size).0 == "get file num-blocks"@ + seq![' '] + id + seq![
                    '\n',
                ]
                &&& command(r, block_size).1.len() == 0
            },
        },
{
    reveal_strlit("get block");
    reveal_strlit("get block ");
    reveal_strlit("put block");
    reveal_strlit("put block ");
    reveal_strlit("get file start-block");
    reveal_strlit("get file start-block ");
    reveal_strlit("get file num-blocks");
    reveal_strlit("get file num-blocks ");
    reveal_strlit(" ");
    reveal_strlit("\n");
    let line = command(r, block_size).0;
    match r {
        Request::Read { start, count } => {
            lemma_line(line, "get block"@, start, count);
        },
        Request::Write { start, data } => {
            assert(data.len() as int / block_size as int == (data.len() / block_size) as int);
            lemma_line(line, "put block"@, start, data.len() / block_size);
        },
        Request::FileStart(id) => {
            assert(line =~= "get file start-block"@ + seq![' '] + id + seq!['\n']);
        },
        Request::FileSize(id) => {
            assert(line =~= "get file num-blocks"@ + seq![' '] + id + seq!['\n']);
        },
    }
}

proof fn lemma_line(line: Seq<char>, words: Seq<char>, a: nat, b: nat)
    requires
        line =~= words + seq![' '] + decimal(a) + seq![' '] + decimal(b) + seq!['\n'],
    ensures
        says(line, words, a as int, b as int),
{
    lemma_signed_read(a as int);
    lemma_signed_read(b as int);
    assert(reads_as(decimal(a), a as int) && reads_as(decimal(b), b as int));
}

/// Whole blocks that have been written are read back as they were, and no other bytes are;
/// other blocks are as they were.
pub proof fn lemma_written_is_read(
    blocks: Map<int, Seq<u8>>,
    start: int,
    data: Seq<u8>,
    block_size: nat,
    back: Seq<u8>,
)
    requires
        block_size > 0,
        data.len() % block_size == 0,
    ensures
        agrees(
            back,
            written(blocks, start, data, block_size),
            start,
            data.len() / block_size,
            block_size,
        ) <==> back == data,
        forall|b: int|
            b < start || b >= start + data.len() / block_size ==> #[trigger] written(
                blocks,
                start,
                data,
                block_size,
            )[b] == blocks[b],
{
    let n = data.len() / block_size;
    let now = written(blocks, start, data, block_size);
    vstd::arithmetic::div_mod::lemma_fundamental_div_mod(data.len() as int, block_size as int);
    assert(n * block_size == data.len()) by (nonlinear_arith)
        requires
            data.len() == block_size * n + 0,
    ;
    assert forall|i: int| 0 <= i < n implies #[trigger] now[start + i] == chunk(
        data,
        i,
        block_size,
    ) by {}
    if agrees(back, now, start, n, block_size) {
        assert forall|x: int| 0 <= x < data.len() implies back[x] == data[x] by {
            let (i, k) = (x / (block_size as int), x % (block_size as int));
            vstd::arithmetic::div_mod::lemma_fundamental_div_mod(x, block_size as int);
            assert(0 <= i < n) by (nonlinear_arith)
                requires
                    x == block_size * i + k,
                    0 <= k < block_size,
                    0 <= x < n * block_size,
            ;
            assert(block_size * i == i * block_size) by (nonlinear_arith);
            lemma_chunk_bounds(i, n as int, block_size);
            assert(chunk(back, i, block_size) == now[start + i]);
            assert(chunk(back, i, block_size)[k] == back[x]);
            assert(chunk(data, i, block_size)[k] == data[x]);
        }
        assert(back =~= data);
    }
}

/// What is read of some blocks is their bytes, block after block.
pub proof fn lemma_read_means(
    data: Seq<u8>,
    blocks: Map<int, Seq<u8>>,
    start: int,
    count: nat,
    block_size: nat,
)
    requires
        agrees(data, blocks, start, count, block_size),
    ensures
        data == Seq::new(count, |i: int| blocks[start + i]).flatten(),
    decreases count,
{
    let all = Seq::new(count, |i: int| blocks[start + i]);
    if count == 0 {
        assert(all =~= Seq::<Seq<u8>>::empty());
        assert(data =~= all.flatten());
    } else {
        let m = (count - 1) as nat;
        assert(m * block_size + block_size == count * block_size) by (nonlinear_arith)
            requires
                count == m + 1,
        ;
        let front = data.take((m * block_size) as int);
        assert forall|i: int| 0 <= i < m implies #[trigger] chunk(front, i, block_size)
            == blocks[start + i] by {
            lemma_chunk_bounds(i, m as int, block_size);
            assert(chunk(data, i, block_size) == blocks[start + i]);
            assert(chunk(front, i, block_size) =~= chunk(data, i, block_size));
        }
        lemma_read_means(front, blocks, start, m, block_size);
        let before = Seq::new(m, |i: int| blocks[start + i]);
        assert(chunk(data, m as int, block_size) == blocks[start + m]);
        assert(all =~= before.push(blocks[start + m]));
        before.lemma_flatten_push(blocks[start + m]);
        assert(data =~= front + chunk(data, m as int, block_size));
    }
}

} // verus!
