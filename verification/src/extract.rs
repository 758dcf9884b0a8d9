//! Reading an archived file: the walk along an entry's chain of blocks.

use vstd::prelude::*;
use vstd::slice::slice_subrange;
use crate::codec::decode_block;
use crate::codec::outcome_of;
use crate::codec::spec_block_plain;
use crate::codec::spec_finish_block;
use crate::error::Error;
use crate::error::FormatError;
use crate::format::ArchiveView;
use crate::format::PSArc;

verus! {

/// Number of blocks of `mbs` bytes that `length` bytes fill, the last one
/// perhaps only in part: `length / mbs`, rounded up.
pub open spec fn block_count(length: nat, mbs: nat) -> nat {
    if length == 0 {
        0
    } else {
        ((length - 1) / (mbs as int) + 1) as nat
    }
}

/// Plaintext size of block `k` of an entry: a full block, or for the last
/// block what is left of the length.
pub open spec fn block_plain_len(length: nat, mbs: nat, k: nat) -> nat {
    if (k + 1) * mbs <= length {
        mbs
    } else {
        (length - k * mbs) as nat
    }
}

/// Number of archive bytes that a block occupies: its element of the
/// block-size table, or a full block where that element is zero.
pub open spec fn block_span(size: u64, mbs: nat) -> nat {
    if size == 0 {
        mbs
    } else {
        size as nat
    }
}

/// Number of blocks that a read decodes. Without a wanted length, all of
/// them. With one, blocks are decoded until that many bytes are there; the
/// first block is decoded in any case.
pub open spec fn blocks_wanted(length: nat, mbs: nat, amount: Option<u64>) -> nat {
    let count = block_count(length, mbs);
    match amount {
        None => count,
        Some(want) => {
            let needed = block_count(want as nat, mbs);
            if count == 0 {
                0
            } else if needed == 0 {
                1
            } else if needed < count {
                needed
            } else {
                count
            }
        },
    }
}

/// The element of the block-size table that belongs to block `k` of entry
/// `idx`.
pub open spec fn chain_size(a: ArchiveView, idx: int, k: int) -> u64 {
    a.block_sizes[a.entries[idx].block_index + k]
}

/// Where in the archive block `k` of entry `idx` begins: at the entry's
/// offset, plus the spans of the blocks before it.
pub open spec fn block_start(a: ArchiveView, idx: int, k: nat) -> nat
    decreases k,
{
    if k == 0 {
        a.entries[idx].offset as nat
    } else {
        block_start(a, idx, (k - 1) as nat) + block_span(
            chain_size(a, idx, k - 1),
            a.max_block_size(),
        )
    }
}

/// The plaintext of block `k` of entry `idx`.
///
/// It fails where the chain leaves the block-size table, where the archive
/// ends before the block does, where the decoder fails, and where the
/// plaintext has not the length that the entry asks of this block.
pub open spec fn block_plain_at(a: ArchiveView, data: Seq<u8>, idx: int, k: nat) -> Result<
    Seq<u8>,
    Error,
> {
    let e = a.entries[idx];
    let bi = e.block_index + k;
    if bi >= a.block_sizes.len() {
        Err(Error::Format(FormatError::BlockChain))
    } else {
        let size = chain_size(a, idx, k as int);
        let start = block_start(a, idx, k);
        let span = block_span(size, a.max_block_size());
        if start + span > data.len() {
            Err(Error::Io)
        } else {
            spec_finish_block(
                spec_block_plain(size, data.subrange(start as int, (start + span) as int)),
                block_plain_len(e.length as nat, a.max_block_size(), k),
                bi as u64,
            )
        }
    }
}

/// The plaintext of the first `n` blocks of entry `idx`, joined in order, or
/// the error of the first block that fails.
pub open spec fn entry_blocks(a: ArchiveView, data: Seq<u8>, idx: int, n: nat) -> Result<
    Seq<u8>,
    Error,
>
    decreases n,
{
    if n == 0 {
        Ok(Seq::empty())
    } else {
        match entry_blocks(a, data, idx, (n - 1) as nat) {
            Err(e) => Err(e),
            Ok(before) => match block_plain_at(a, data, idx, (n - 1) as nat) {
                Err(e) => Err(e),
                Ok(plain) => Ok(before + plain),
            },
        }
    }
}

/// What reading entry `idx` yields: the plaintext of as many of its blocks
/// as the wanted length asks for.
pub open spec fn entry_read(a: ArchiveView, data: Seq<u8>, idx: int, amount: Option<u64>) -> Result<
    Seq<u8>,
    Error,
> {
    entry_blocks(
        a,
        data,
        idx,
        blocks_wanted(a.entries[idx].length as nat, a.max_block_size(), amount),
    )
}

/// `length / mbs`, rounded up.
pub fn ceil_div(length: u64, mbs: u64) -> (n: u64)
    requires
        mbs > 0,
    ensures
        n == block_count(length as nat, mbs as nat),
{
    if length == 0 {
        0
    } else {
        (length - 1) / mbs + 1
    }
}

impl PSArc {
    /// Number of blocks that hold entry `index`.
    pub fn num_blocks(&self, index: usize) -> (n: u64)
        requires
            index < self.entries@.len(),
        ensures
            n == block_count(self@.entries[index as int].length as nat, self@.max_block_size()),
    {
        ceil_div(self.entries[index].length, self.header.block_size.get_bitcount())
    }

    /// Number of blocks that a read of entry `index` decodes.
    pub fn blocks_to_read(&self, index: usize, amount: Option<u64>) -> (n: u64)
        requires
            index < self.entries@.len(),
        ensures
            n == blocks_wanted(
                self@.entries[index as int].length as nat,
                self@.max_block_size(),
                amount,
            ),
    {
        let count: u64 = self.num_blocks(index);
        match amount {
            None => count,
            Some(want) => {
                let needed: u64 = ceil_div(want, self.header.block_size.get_bitcount());
                if count == 0 {
                    0
                } else if needed == 0 {
                    1
                } else if needed < count {
                    needed
                } else {
                    count
                }
            },
        }
    }

    /// Reads entry `index` from the archive bytes `data`: all of it, or with
    /// `amount` as many leading blocks as hold that many bytes.
    #[verifier::spinoff_prover]
    pub fn print_file(&self, data: &[u8], index: usize, amount: Option<u64>) -> (r: Result<
        Vec<u8>,
        Error,
    >)
        requires
            index < self.entries@.len(),
        ensures
            outcome_of(r) == entry_read(self@, data@, index as int, amount),
            amount is None && r is Ok ==> r->Ok_0@.len() == self@.entries[index as int].length,
    {
        let ghost a = self@;
        let ghost idx = index as int;
        let mbs: u64 = self.header.block_size.get_bitcount();
        let length: u64 = self.entries[index].length;
        let first: u32 = self.entries[index].block_index;
        let blocks: u64 = self.blocks_to_read(index, amount);
        let table_len: usize = self.block_sizes.len();
        let mut out: Vec<u8> = Vec::new();
        let mut pos: u64 = self.entries[index].offset;
        let mut k: u64 = 0;
        while k < blocks
            invariant
                a == self@,
                idx == index as int,
                index < self.entries@.len(),
                mbs == a.max_block_size(),
                mbs > 0,
                length == a.entries[idx].length,
                first == a.entries[idx].block_index,
                table_len == self.block_sizes@.len(),
                k <= blocks,
                blocks <= block_count(length as nat, mbs as nat),
                pos == block_start(a, idx, k as nat),
                k > 0 ==> pos <= data@.len(),
                entry_blocks(a, data@, idx, k as nat) == Ok::<Seq<u8>, Error>(out@),
                entry_read(a, data@, idx, amount) == entry_blocks(a, data@, idx, blocks as nat),
            decreases blocks - k,
        {
            proof {
                lemma_blocks_error_stays(a, data@, idx, (k + 1) as nat, blocks as nat);
                lemma_block_plain_len_bound(length as nat, mbs as nat, k as nat);
            }
            if k >= (table_len as u64) || (first as u64) >= (table_len as u64) - k {
                return Err(Error::Format(FormatError::BlockChain));
            }
            let bi: usize = (first as u64 + k) as usize;
            let size: u64 = self.block_sizes[bi];
            let span: u64 = if size == 0 {
                mbs
            } else {
                size
            };
            let total: u64 = data.len() as u64;
            if pos > total || span > total - pos {
                return Err(Error::Io);
            }
            let window = slice_subrange(data, pos as usize, (pos + span) as usize);
            let left: u64 = length - k * mbs;
            let expected: u64 = if left >= mbs {
                mbs
            } else {
                left
            };
            let mut plain = decode_block(size, window, expected, bi as u64)?;
            out.append(&mut plain);
            pos = pos + span;
            k = k + 1;
        }
        proof {
            if amount is None {
                lemma_full_read_length(a, data@, idx);
            }
        }
        Ok(out)
    }
}

/// Once a block of an entry fails, every longer read of the entry fails
/// with the same error.
pub proof fn lemma_blocks_error_stays(a: ArchiveView, data: Seq<u8>, idx: int, n: nat, m: nat)
    requires
        n <= m,
    ensures
        entry_blocks(a, data, idx, n) is Err ==> entry_blocks(a, data, idx, m) == entry_blocks(
            a,
            data,
            idx,
            n,
        ),
    decreases m,
{
    if n < m {
        lemma_blocks_error_stays(a, data, idx, n, (m - 1) as nat);
    }
}

/// Block `k` of an entry lies within the entry: its plaintext is at most a
/// full block and ends no later than the entry does.
pub proof fn lemma_block_plain_len_bound(length: nat, mbs: nat, k: nat)
    requires
        mbs > 0,
        k < block_count(length, mbs),
    ensures
        k * mbs < length,
        0 < block_plain_len(length, mbs, k) <= mbs,
        k * mbs + block_plain_len(length, mbs, k) <= length,
        k + 1 < block_count(length, mbs) ==> (k + 1) * mbs < length,
        k + 1 == block_count(length, mbs) ==> k * mbs + block_plain_len(length, mbs, k) == length,
{
    let count = block_count(length, mbs);
    let q = (length - 1) / (mbs as int);
    assert(length - 1 == q * mbs + (length - 1) % (mbs as int)) by (nonlinear_arith)
        requires
            mbs > 0,
            q == (length - 1) / (mbs as int),
    ;
    assert(0 <= (length - 1) % (mbs as int) < mbs);
    assert(k <= q);
    assert(k * mbs <= q * mbs) by (nonlinear_arith)
        requires
            k <= q,
            mbs > 0,
    ;
    assert((k + 1) * mbs == k * mbs + mbs) by (nonlinear_arith);
    if k + 1 < count {
        assert((k + 1) * mbs <= q * mbs) by (nonlinear_arith)
            requires
                k + 1 <= q,
                mbs > 0,
        ;
    }
}

/// The block count is the quotient rounded up: that many blocks hold the
/// length, and one fewer do not.
pub proof fn lemma_block_count_is_ceiling(length: nat, mbs: nat)
    requires
        mbs > 0,
    ensures
        block_count(length, mbs) * mbs >= length,
        length > 0 ==> (block_count(length, mbs) - 1) * mbs < length,
        length == 0 ==> block_count(length, mbs) == 0,
{
    if length > 0 {
        let q = (length - 1) / (mbs as int);
        assert(length - 1 == q * mbs + (length - 1) % (mbs as int)) by (nonlinear_arith)
            requires
                mbs > 0,
                q == (length - 1) / (mbs as int),
        ;
        assert((q + 1) * mbs == q * mbs + mbs) by (nonlinear_arith);
    }
}

/// The first `n` blocks of an entry hold `n` full blocks of plaintext, or
/// the whole entry where that is less.
pub proof fn lemma_entry_blocks_len(a: ArchiveView, data: Seq<u8>, idx: int, n: nat)
    requires
        n <= block_count(a.entries[idx].length as nat, a.max_block_size()),
        entry_blocks(a, data, idx, n) is Ok,
    ensures
        entry_blocks(a, data, idx, n)->Ok_0.len() == if n * a.max_block_size()
            <= a.entries[idx].length {
            n * a.max_block_size()
        } else {
            a.entries[idx].length as nat
        },
    decreases n,
{
    let mbs = a.max_block_size();
    let length = a.entries[idx].length as nat;
    if n > 0 {
        let k = (n - 1) as nat;
        lemma_entry_blocks_len(a, data, idx, k);
        lemma_block_plain_len_bound(length, mbs, k);
        assert(n * mbs == k * mbs + mbs) by (nonlinear_arith)
            requires
                n == k + 1,
        ;
    } else {
        assert(0 * mbs == 0);
    }
}

/// A shorter read of an entry succeeds where a longer one does, and yields
/// a prefix of what the longer one yields.
pub proof fn lemma_blocks_prefix(a: ArchiveView, data: Seq<u8>, idx: int, m: nat, n: nat)
    requires
        m <= n,
        entry_blocks(a, data, idx, n) is Ok,
    ensures
        entry_blocks(a, data, idx, m) is Ok,
        entry_blocks(a, data, idx, m)->Ok_0.is_prefix_of(entry_blocks(a, data, idx, n)->Ok_0),
    decreases n,
{
    if m < n {
        lemma_blocks_prefix(a, data, idx, m, (n - 1) as nat);
    }
}

/// Within a read of `n` blocks, block `k` is the `k`-th slice of the
/// plaintext: it starts after `k` full blocks and has the length that the
/// entry asks of it.
pub proof fn lemma_block_is_slice(a: ArchiveView, data: Seq<u8>, idx: int, n: nat, k: nat)
    requires
        k < n <= block_count(a.entries[idx].length as nat, a.max_block_size()),
        entry_blocks(a, data, idx, n) is Ok,
    ensures
        block_plain_at(a, data, idx, k) == Ok::<Seq<u8>, Error>(
            entry_blocks(a, data, idx, n)->Ok_0.subrange(
                (k * a.max_block_size()) as int,
                (k * a.max_block_size() + block_plain_len(
                    a.entries[idx].length as nat,
                    a.max_block_size(),
                    k,
                )) as int,
            ),
        ),
    decreases n,
{
    let mbs = a.max_block_size();
    let length = a.entries[idx].length as nat;
    let last = (n - 1) as nat;
    let whole = entry_blocks(a, data, idx, n)->Ok_0;
    let before = entry_blocks(a, data, idx, last)->Ok_0;
    let plain = block_plain_at(a, data, idx, last)->Ok_0;
    lemma_entry_blocks_len(a, data, idx, last);
    lemma_block_plain_len_bound(length, mbs, last);
    assert(before.len() == last * mbs);
    if k == last {
        assert(whole.subrange((k * mbs) as int, (k * mbs + plain.len()) as int) =~= plain);
    } else {
        lemma_block_is_slice(a, data, idx, last, k);
        lemma_block_plain_len_bound(length, mbs, k);
        assert((k + 1) * mbs <= last * mbs) by (nonlinear_arith)
            requires
                k + 1 <= last,
                mbs > 0,
        ;
        assert((k + 1) * mbs == k * mbs + mbs) by (nonlinear_arith);
        let len = block_plain_len(length, mbs, k);
        assert(whole.subrange((k * mbs) as int, (k * mbs + len) as int) =~= before.subrange(
            (k * mbs) as int,
            (k * mbs + len) as int,
        ));
    }
}

/// Reading an entry in full yields exactly as many bytes as the entry is
/// long.
pub proof fn lemma_full_read_length(a: ArchiveView, data: Seq<u8>, idx: int)
    requires
        entry_read(a, data, idx, None) is Ok,
    ensures
        entry_read(a, data, idx, None)->Ok_0.len() == a.entries[idx].length,
{
    let mbs = a.max_block_size();
    let length = a.entries[idx].length as nat;
    lemma_entry_blocks_len(a, data, idx, block_count(length, mbs));
    lemma_block_count_is_ceiling(length, mbs);
}

/// A read with a wanted length yields at least that many bytes, or the
/// whole entry where the entry is shorter.
pub proof fn lemma_read_covers_amount(a: ArchiveView, data: Seq<u8>, idx: int, want: u64)
    requires
        entry_read(a, data, idx, Some(want)) is Ok,
    ensures
        entry_read(a, data, idx, Some(want))->Ok_0.len() <= a.entries[idx].length,
        entry_read(a, data, idx, Some(want))->Ok_0.len() >= want || entry_read(
            a,
            data,
            idx,
            Some(want),
        )->Ok_0.len() == a.entries[idx].length,
{
    let mbs = a.max_block_size();
    let length = a.entries[idx].length as nat;
    let n = blocks_wanted(length, mbs, Some(want));
    lemma_entry_blocks_len(a, data, idx, n);
    lemma_block_count_is_ceiling(length, mbs);
    lemma_block_count_is_ceiling(want as nat, mbs);
    let needed = block_count(want as nat, mbs);
    if n == needed {
    } else if block_count(length, mbs) > 0 && needed == 0 {
        assert(n == 1);
        assert(1 * mbs == mbs);
    } else {
    }
}

/// A read with a wanted length stops after the first block at which that
/// many bytes are there: it decodes at least one block of an entry that has
/// any; after every block but the last that it decodes, fewer bytes than
/// wanted are there; and after the last, enough are there or the entry has
/// no more blocks.
pub proof fn lemma_blocks_wanted_is_least(length: nat, mbs: nat, want: u64, m: nat)
    requires
        mbs > 0,
        length > 0,
        1 <= m < blocks_wanted(length, mbs, Some(want)),
    ensures
        1 <= blocks_wanted(length, mbs, Some(want)) <= block_count(length, mbs),
        m * mbs < want,
        m * mbs < length,
        blocks_wanted(length, mbs, Some(want)) * mbs >= want || blocks_wanted(
            length,
            mbs,
            Some(want),
        ) == block_count(length, mbs),
{
    let n = blocks_wanted(length, mbs, Some(want));
    let count = block_count(length, mbs);
    let needed = block_count(want as nat, mbs);
    lemma_block_count_is_ceiling(length, mbs);
    lemma_block_count_is_ceiling(want as nat, mbs);
    assert(n <= needed);
    assert(m * mbs <= (needed - 1) * mbs) by (nonlinear_arith)
        requires
            m <= needed - 1,
            mbs > 0,
    ;
    assert(m * mbs <= (count - 1) * mbs) by (nonlinear_arith)
        requires
            m <= count - 1,
            mbs > 0,
    ;
}

/// A full read of an entry walks exactly the quotient of length and block
/// size, rounded up, in blocks, and all of them lie within the block-size
/// table, from the entry's first block on.
pub proof fn lemma_full_read_chain(a: ArchiveView, data: Seq<u8>, idx: int)
    requires
        entry_read(a, data, idx, None) is Ok,
    ensures
        blocks_wanted(a.entries[idx].length as nat, a.max_block_size(), None) == block_count(
            a.entries[idx].length as nat,
            a.max_block_size(),
        ),
        block_count(a.entries[idx].length as nat, a.max_block_size()) * a.max_block_size()
            >= a.entries[idx].length,
        a.entries[idx].length > 0 ==> (block_count(
            a.entries[idx].length as nat,
            a.max_block_size(),
        ) - 1) * a.max_block_size() < a.entries[idx].length,
        a.entries[idx].length > 0 ==> a.entries[idx].block_index + block_count(
            a.entries[idx].length as nat,
            a.max_block_size(),
        ) <= a.block_sizes.len(),
{
    let mbs = a.max_block_size();
    let length = a.entries[idx].length as nat;
    let count = block_count(length, mbs);
    lemma_block_count_is_ceiling(length, mbs);
    if count > 0 {
        assert(block_plain_at(a, data, idx, (count - 1) as nat) is Ok);
    }
}

/// Where the first `n` blocks of an entry are marked as stored, block `n`
/// starts `n` full blocks after the entry's offset.
pub proof fn lemma_stored_starts(a: ArchiveView, idx: int, n: nat)
    requires
        forall|k: int| 0 <= k < n ==> #[trigger] chain_size(a, idx, k) == 0,
    ensures
        block_start(a, idx, n) == a.entries[idx].offset + n * a.max_block_size(),
    decreases n,
{
    let mbs = a.max_block_size();
    if n == 0 {
        assert(0 * mbs == 0) by (nonlinear_arith);
    } else {
        let k = (n - 1) as nat;
        lemma_stored_starts(a, idx, k);
        assert(chain_size(a, idx, k as int) == 0);
        assert(block_span(chain_size(a, idx, k as int), mbs) == mbs);
        assert(block_start(a, idx, n) == block_start(a, idx, k) + mbs);
        assert(n * mbs == k * mbs + mbs) by (nonlinear_arith)
            requires
                n == k + 1,
        ;
    }
}

/// Where every block of an entry is marked as stored, a full read yields
/// the archive bytes from the entry's offset on, one full block per block.
#[verifier::spinoff_prover]
pub proof fn lemma_stored_entry(a: ArchiveView, data: Seq<u8>, idx: int, n: nat)
    requires
        n <= block_count(a.entries[idx].length as nat, a.max_block_size()),
        entry_blocks(a, data, idx, n) is Ok,
        forall|k: int| 0 <= k < n ==> #[trigger] chain_size(a, idx, k) == 0,
    ensures
        block_start(a, idx, n) == a.entries[idx].offset + n * a.max_block_size(),
        n > 0 ==> entry_blocks(a, data, idx, n)->Ok_0 == data.subrange(
            a.entries[idx].offset as int,
            a.entries[idx].offset + n * a.max_block_size(),
        ),
        entry_blocks(a, data, idx, n)->Ok_0.len() == n * a.max_block_size(),
    decreases n,
{
    let mbs = a.max_block_size();
    let offset = a.entries[idx].offset as int;
    lemma_stored_starts(a, idx, n);
    if n == 0 {
        assert(0 * mbs == 0) by (nonlinear_arith);
        assert(entry_blocks(a, data, idx, 0) == Ok::<Seq<u8>, Error>(Seq::empty()));
    } else {
        let k = (n - 1) as nat;
        lemma_stored_entry(a, data, idx, k);
        lemma_stored_starts(a, idx, k);
        let total = n * mbs;
        let part = k * mbs;
        assert(total == part + mbs) by (nonlinear_arith)
            requires
                n == k + 1,
                total == n * mbs,
                part == k * mbs,
        ;
        // The read of `n` blocks is the read of `k` blocks and block `k`.
        let before = entry_blocks(a, data, idx, k)->Ok_0;
        let plain = block_plain_at(a, data, idx, k)->Ok_0;
        assert(entry_blocks(a, data, idx, n) == Ok::<Seq<u8>, Error>(before + plain));
        // Block `k` is marked as stored, so it is its bytes in the archive.
        let start = offset + part;
        let window = data.subrange(start, start + mbs);
        assert(chain_size(a, idx, k as int) == 0);
        assert(block_span(chain_size(a, idx, k as int), mbs) == mbs);
        assert(block_start(a, idx, k) == start);
        assert(spec_block_plain(0, window) == Some(window));
        assert(plain == window);
        assert(window.len() == mbs);
        assert(before.len() == part);
        if k == 0 {
            assert(before =~= Seq::<u8>::empty());
            assert(before + plain =~= window);
            assert(window =~= data.subrange(offset, offset + total));
        } else {
            assert(before == data.subrange(offset, offset + part));
            assert(before + plain =~= data.subrange(offset, offset + total));
        }
    }
}

} // verus!
