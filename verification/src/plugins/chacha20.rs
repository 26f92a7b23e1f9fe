//! The ChaCha20 plugin.
//!
//! The cipher is ChaCha20 with a 32-byte key, a 12-byte nonce, and a 32-bit block
//! counter starting at zero. The pair is the secret that the receiver pastes in to
//! decrypt.
//!
//! Encrypted bytes are as many as plain ones, with no header. Splitting an encrypted
//! file into volumes is therefore the same as splitting the plain file: a byte's
//! place in the file before it was split is all that decides what it is combined
//! with.

use crate::codec::{hex_bytes, hex_decode, hex_encode, hex_fault, hex_of, is_hex, law_hex_reads_back};
use crate::num::{imax, imin};
use crate::plugins::{ByteTransform, ConfigField, FieldKind, ForwardProgress, SelectOption};
use crate::sizes::{parse_size, size_asked};
use crate::text::{
    chars_of, decimal, decimal_chars, decimal_text, find_part, join2, join3, lemma_trimmed_solid,
    part_from, slice_of, string_of, trim, trimmed, white,
};
use chacha20::cipher::{KeyIvInit, StreamCipher, StreamCipherSeek};
use chacha20::ChaCha20;
use rand::{Rng, RngCore};
use vstd::prelude::*;
use vstd::string::*;
use vstd::utf8::*;

verus! {

pub const KEY_LEN: usize = 32;

pub const NONCE_LEN: usize = 12;

/// From this position on the block counter of the cipher overflows.
pub const SEEK_LIMIT: u64 = 0x40_0000_0000;

/// As far as this the cipher gives a keystream.
pub const KEYSTREAM_LIMIT: u64 = 0x3f_ffff_ffc0;

/// The keystream of ChaCha20: the byte at `position`.
pub uninterp spec fn keystream_byte(key: Seq<u8>, nonce: Seq<u8>, position: int) -> u8;

/// Applies the keystream from `offset` on, or does nothing where the block counter
/// cannot reach `offset`. Calls `ChaCha20::new`, `try_seek` and `apply_keystream`:
/// the seek fails from 2^38 on; below that each byte is combined, by exclusive or,
/// with a keystream byte that depends on the key, the nonce and the byte's own
/// position. The last block of the counter's range is never used: `apply_keystream`
/// panics where the data would need it.
#[verifier::external_body]
pub(crate) fn xor_keystream(key: &[u8; 32], nonce: &[u8; 12], offset: u64, data: &mut [u8]) -> (out:
    bool)
    requires
        offset >= SEEK_LIMIT || offset + old(data)@.len() <= KEYSTREAM_LIMIT,
    ensures
        out == (offset < SEEK_LIMIT),
        final(data)@.len() == old(data)@.len(),
        !out ==> final(data)@ == old(data)@,
        out ==> forall|i: int|
            0 <= i < old(data)@.len() ==> #[trigger] final(data)@[i] == old(data)@[i]
                ^ keystream_byte(key@, nonce@, offset + i),
{
    let mut cipher = ChaCha20::new(key.into(), nonce.into());
    match cipher.try_seek(offset) {
        Ok(()) => {
            cipher.apply_keystream(data);
            true
        }
        Err(_) => false,
    }
}

/// `data` combined with the keystream from `offset` on.
pub open spec fn xored(key: Seq<u8>, nonce: Seq<u8>, offset: int, data: Seq<u8>) -> Seq<u8> {
    Seq::new(data.len(), |i: int| data[i] ^ keystream_byte(key, nonce, offset + i))
}

/// Holds the key and the nonce.
pub struct ChaCha20Transform {
    pub key: [u8; 32],
    pub nonce: [u8; 12],
}

impl ByteTransform for ChaCha20Transform {
    open spec fn admits(&self, merged_offset: u64, len: nat) -> bool {
        merged_offset >= SEEK_LIMIT || merged_offset + len <= KEYSTREAM_LIMIT
    }

    open spec fn transformed(&self, merged_offset: u64, data: Seq<u8>) -> Seq<u8> {
        if merged_offset >= SEEK_LIMIT {
            data
        } else {
            xored(self.key@, self.nonce@, merged_offset as int, data)
        }
    }

    fn transform(&self, merged_offset: u64, data: &mut [u8]) {
        if data.len() == 0 {
            assert(data@ =~= self.transformed(merged_offset, data@));
            return ;
        }
        let ghost had = data@;
        let _ = xor_keystream(&self.key, &self.nonce, merged_offset, data);
        assert(data@ =~= self.transformed(merged_offset, had));
    }
}


/// Applying the keystream twice gives the bytes back.
pub proof fn law_applying_twice_is_the_identity(
    key: Seq<u8>,
    nonce: Seq<u8>,
    offset: int,
    data: Seq<u8>,
)
    ensures
        xored(key, nonce, offset, xored(key, nonce, offset, data)) == data,
{
    let once = xored(key, nonce, offset, data);
    assert forall|i: int| 0 <= i < data.len() implies #[trigger] xored(
        key,
        nonce,
        offset,
        once,
    )[i] == data[i] by {
        let a = data[i];
        let b = keystream_byte(key, nonce, offset + i);
        assert((a ^ b) ^ b == a) by (bit_vector);
    }
    assert(xored(key, nonce, offset, once) =~= data);
}

/// Any stretch of the encrypted file is the encryption of that stretch of the plain
/// file, at its own place: it does not matter how the bytes are sliced, and a
/// volume of the encrypted file is the encrypted volume.
pub proof fn law_slicing_and_encrypting_commute(
    key: Seq<u8>,
    nonce: Seq<u8>,
    offset: int,
    data: Seq<u8>,
    from: int,
    to: int,
)
    requires
        0 <= from <= to <= data.len(),
    ensures
        xored(key, nonce, offset, data).subrange(from, to) == xored(
            key,
            nonce,
            offset + from,
            data.subrange(from, to),
        ),
{
    let whole = xored(key, nonce, offset, data).subrange(from, to);
    let part = xored(key, nonce, offset + from, data.subrange(from, to));
    assert forall|i: int| 0 <= i < to - from implies whole[i] == part[i] by {
        assert(offset + (from + i) == (offset + from) + i);
    }
    assert(whole =~= part);
}

/// What a client gets of a piece at its place in the file is that part of what it
/// would get of the whole file.
pub proof fn law_a_piece_is_transformed_in_its_place(
    t: ChaCha20Transform,
    file: Seq<u8>,
    at: u64,
    len: int,
)
    requires
        0 <= len,
        at + len <= file.len() <= KEYSTREAM_LIMIT,
    ensures
        t.admits(at, len as nat),
        t.transformed(at, file.subrange(at as int, at + len)) == t.transformed(0, file).subrange(
            at as int,
            at + len,
        ),
{
    law_slicing_and_encrypting_commute(t.key@, t.nonce@, 0, file, at as int, at + len);
}

/// Encrypting two stretches one behind the other is encrypting them together.
pub proof fn law_stretches_join(
    key: Seq<u8>,
    nonce: Seq<u8>,
    offset: int,
    a: Seq<u8>,
    b: Seq<u8>,
)
    ensures
        xored(key, nonce, offset, a) + xored(key, nonce, offset + a.len(), b) == xored(
            key,
            nonce,
            offset,
            a + b,
        ),
{
    let both = xored(key, nonce, offset, a) + xored(key, nonce, offset + a.len(), b);
    let whole = xored(key, nonce, offset, a + b);
    assert forall|i: int| 0 <= i < a.len() + b.len() implies both[i] == whole[i] by {
        if i >= a.len() {
            assert((offset + a.len()) + (i - a.len()) == offset + i);
        }
    }
    assert(both =~= whole);
}

// ---------------------------------------------------------------------------
// Many workers

/// Below this many bytes one worker does it all.
pub const PARALLEL_KEYSTREAM_MIN_BYTES: usize = 256 * 1024;

/// Most workers that share a buffer.
pub const MAX_PARALLEL_WORKERS: usize = 8;

/// Bytes of one keystream block.
pub const CHACHA20_BLOCK_BYTES: usize = 64;

/// How many workers share a buffer of `buf_len` bytes on a machine with so many
/// cores.
pub fn parallel_worker_count(buf_len: usize, cores: usize) -> (out: usize)
    ensures
        out == if buf_len < PARALLEL_KEYSTREAM_MIN_BYTES {
            1
        } else {
            imax(
                imin(
                    imin(cores as int, MAX_PARALLEL_WORKERS as int),
                    buf_len as int / PARALLEL_KEYSTREAM_MIN_BYTES as int,
                ),
                1,
            )
        },
        1 <= out <= MAX_PARALLEL_WORKERS,
        out <= 8,
        out == 1 || out <= cores,
        out == 1 || out * 262_144 <= buf_len,
{
    if buf_len < PARALLEL_KEYSTREAM_MIN_BYTES {
        return 1;
    }
    let by_size: usize = (buf_len / PARALLEL_KEYSTREAM_MIN_BYTES).max(1);
    cores.min(MAX_PARALLEL_WORKERS).min(by_size).max(1)
}

/// The lengths of the slices of a buffer: `chunk` bytes each, and the last one takes
/// the tail with it.
pub open spec fn slice_lens(len: int, chunk: int, tail: int) -> Seq<int>
    decreases len,
{
    if len <= 0 || chunk <= 0 || tail < 0 {
        seq![]
    } else if len <= chunk + tail {
        seq![len]
    } else {
        seq![chunk] + slice_lens(len - chunk, chunk, tail)
    }
}

/// The length of a full slice: whole keystream blocks, so that each worker begins on
/// a fresh one.
pub open spec fn chunk_len(len: int, workers: int) -> int {
    imax(crate::num::ceil_div(len / 64, workers), 1) * 64
}

/// The slices that `workers` workers share a buffer of `len` bytes in.
pub fn keystream_slices(len: usize, workers: usize) -> (out: Vec<usize>)
    requires
        workers >= 1,
    ensures
        out@.map_values(|n: usize| n as int) == slice_lens(
            len as int,
            chunk_len(len as int, workers as int),
            len as int % 64,
        ),
{
    let mut out: Vec<usize> = Vec::new();
    let ghost f = |n: usize| n as int;
    let blocks: u64 = (len / CHACHA20_BLOCK_BYTES) as u64;
    let tail: usize = len % CHACHA20_BLOCK_BYTES;
    let per: u64 = crate::num::div_ceil(blocks, workers as u64);
    proof {
        lemma_share_bound(blocks as int, workers as int);
    }
    let per_worker: u64 = per.max(1);
    let chunk: u64 = per_worker * 64;
    let mut rest: usize = len;
    let ghost goal = slice_lens(len as int, chunk as int, tail as int);
    proof {
        assert(out@.map_values(f) + goal =~= goal);
    }
    while rest > 0
        invariant
            rest <= len,
            f == (|n: usize| n as int),
            chunk >= 64,
            chunk <= len as int + 64,
            tail < 64,
            out@.map_values(f) + slice_lens(rest as int, chunk as int, tail as int) == goal,
        decreases rest,
    {
        let take: usize = if rest as u128 <= chunk as u128 + tail as u128 {
            rest
        } else {
            chunk as usize
        };
        let ghost before = out@;
        let ghost more = if take == rest {
            Seq::<int>::empty()
        } else {
            slice_lens(rest - take, chunk as int, tail as int)
        };
        out.push(take);
        proof {
            assert(out@.map_values(f) =~= before.map_values(f).push(take as int));
            if take == rest {
                assert(seq![rest as int] =~= seq![take as int] + more);
                assert(slice_lens(0, chunk as int, tail as int) =~= more);
            }
            assert(slice_lens(rest as int, chunk as int, tail as int) == seq![take as int] + more);
            assert(before.map_values(f) + (seq![take as int] + more) =~= out@.map_values(f) + more);
        }
        rest = rest - take;
    }
    proof {
        assert(out@.map_values(f) + slice_lens(0, chunk as int, tail as int) =~= out@.map_values(
            f,
        ));
    }
    out
}

proof fn lemma_share_bound(blocks: int, workers: int)
    requires
        0 <= blocks <= 0x400_0000_0000_0000,
        workers >= 1,
    ensures
        0 <= crate::num::ceil_div(blocks, workers) <= imax(blocks, 0),
{
    vstd::arithmetic::div_mod::lemma_fundamental_div_mod(blocks, workers);
    vstd::arithmetic::div_mod::lemma_div_pos_is_pos(blocks, workers);
    let q = blocks / workers;
    assert(workers * q >= q) by (nonlinear_arith)
        requires
            workers >= 1,
            q >= 0,
    ;
}

/// The sum of some lengths.
pub open spec fn lens_total(lens: Seq<int>) -> int
    decreases lens.len(),
{
    if lens.len() == 0 {
        0
    } else {
        lens[0] + lens_total(lens.drop_first())
    }
}

/// The slices are as long as the buffer, together, and none is empty.
pub proof fn law_slices_cover_the_buffer(len: int, chunk: int, tail: int)
    requires
        0 <= len,
        chunk >= 1,
        0 <= tail,
    ensures
        lens_total(slice_lens(len, chunk, tail)) == len,
        forall|i: int|
            0 <= i < slice_lens(len, chunk, tail).len() ==> #[trigger] slice_lens(
                len,
                chunk,
                tail,
            )[i] >= 1,
    decreases len,
{
    let all = slice_lens(len, chunk, tail);
    if len > 0 && len <= chunk + tail {
        assert(all.drop_first() =~= seq![]);
        assert(lens_total(all.drop_first()) == 0);
    } else if len > 0 {
        let rest = slice_lens(len - chunk, chunk, tail);
        law_slices_cover_the_buffer(len - chunk, chunk, tail);
        assert(all.drop_first() =~= rest);
        assert forall|i: int| 0 <= i < all.len() implies #[trigger] all[i] >= 1 by {
            if i > 0 {
                assert(all[i] == rest[i - 1]);
            }
        }
    }
}

/// Applies the keystream in the slices that `workers` workers would take, one after
/// the other: what comes out does not depend on the slices.
fn apply_slices(
    key: &[u8; 32],
    nonce: &[u8; 12],
    offset: u64,
    data: &mut [u8],
    lens: &Vec<usize>,
    i: usize,
)
    requires
        i <= lens@.len(),
        sum_from(lens@, i as int) == old(data)@.len(),
        offset + old(data)@.len() <= KEYSTREAM_LIMIT,
    ensures
        final(data)@ == xored(key@, nonce@, offset as int, old(data)@),
    decreases lens@.len() - i,
{
    let ghost had = data@;
    if i == lens.len() {
        assert(had.len() == 0);
        assert(data@ =~= xored(key@, nonce@, offset as int, had));
        return ;
    }
    let take: usize = lens[i];
    proof {
        lemma_sum_nonneg(lens@, i + 1);
    }
    let (head, tail) = data.split_at_mut(take);
    let ghost a = head@;
    let ghost b = tail@;
    let _ = xor_keystream(key, nonce, offset, head);
    assert(head@ =~= xored(key@, nonce@, offset as int, a));
    apply_slices(key, nonce, offset + take as u64, tail, lens, i + 1);
    proof {
        assert(had =~= a + b);
        law_stretches_join(key@, nonce@, offset as int, a, b);
    }
}

pub open spec fn sum_from(lens: Seq<usize>, i: int) -> int
    decreases lens.len() - i,
{
    if i >= lens.len() {
        0
    } else {
        lens[i] + sum_from(lens, i + 1)
    }
}

proof fn lemma_sum_nonneg(lens: Seq<usize>, i: int)
    ensures
        sum_from(lens, i) >= 0,
    decreases lens.len() - i,
{
    if i < lens.len() {
        lemma_sum_nonneg(lens, i + 1);
    }
}

proof fn lemma_slices_sum(lens: Seq<usize>, i: int, len: int, chunk: int, tail: int)
    requires
        0 <= i <= lens.len(),
        len >= 0,
        chunk >= 1,
        tail >= 0,
        lens.skip(i).map_values(|n: usize| n as int) == slice_lens(len, chunk, tail),
    ensures
        sum_from(lens, i) == len,
    decreases lens.len() - i,
{
    let f = |n: usize| n as int;
    let s = lens.skip(i).map_values(f);
    if len == 0 {
        assert(slice_lens(len, chunk, tail).len() == 0);
        assert(s.len() == lens.len() - i);
    } else if len <= chunk + tail {
        assert(slice_lens(len, chunk, tail).len() == 1);
        assert(s.len() == lens.len() - i);
        assert(s[0] == lens[i]);
        assert(sum_from(lens, i + 1) == 0);
    } else {
        let rest = slice_lens(len - chunk, chunk, tail);
        let all = seq![chunk] + rest;
        assert(all[0] == chunk);
        assert(s.len() == lens.len() - i);
        assert(s[0] == lens[i]);
        assert(lens.skip(i + 1).map_values(f) =~= s.drop_first());
        assert(all.drop_first() =~= rest);
        lemma_slices_sum(lens, i + 1, len - chunk, chunk, tail);
    }
}

/// Applies the keystream to `data`, of which the first byte lies at `merged_offset`,
/// sliced for a machine with so many cores. Past the end of what the cipher can seek
/// to, nothing is changed.
pub fn apply_keystream_parallel(
    key: &[u8; 32],
    nonce: &[u8; 12],
    merged_offset: u64,
    data: &mut [u8],
    cores: usize,
)
    requires
        merged_offset >= SEEK_LIMIT || merged_offset + old(data)@.len() <= KEYSTREAM_LIMIT,
    ensures
        final(data)@ == if merged_offset >= SEEK_LIMIT {
            old(data)@
        } else {
            xored(key@, nonce@, merged_offset as int, old(data)@)
        },
{
    let ghost had = data@;
    if data.len() == 0 {
        assert(data@ =~= xored(key@, nonce@, merged_offset as int, had));
        return ;
    }
    if merged_offset >= SEEK_LIMIT {
        return ;
    }
    let workers: usize = parallel_worker_count(data.len(), cores);
    let lens: Vec<usize> = keystream_slices(data.len(), workers);
    proof {
        assert(lens@.skip(0) =~= lens@);
        assert(chunk_len(had.len() as int, workers as int) >= 1);
        lemma_slices_sum(
            lens@,
            0,
            had.len() as int,
            chunk_len(had.len() as int, workers as int),
            had.len() as int % 64,
        );
    }
    apply_slices(key, nonce, merged_offset, data, &lens, 0);
}

// ---------------------------------------------------------------------------
// Secrets

/// A task's secret: the combined form, or the older pair.
#[derive(Debug, Clone)]
pub struct TaskCfg {
    /// Key and nonce in one hexadecimal text. When set, the pair is ignored.
    pub secret: Option<String>,
    pub key: Option<String>,
    pub nonce: Option<String>,
}

/// What is written in an optional field, without white space; nothing counts as
/// absent.
pub open spec fn written(s: Option<Seq<char>>) -> Option<Seq<char>> {
    match s {
        Some(t) => if trimmed(t).len() == 0 {
            None
        } else {
            Some(trimmed(t))
        },
        None => None,
    }
}

fn read_written(s: &Option<String>) -> (out: Option<String>)
    ensures
        crate::text::opt_view(out) == written(crate::text::opt_view(*s)),
{
    match s {
        Some(t) => {
            let u: String = trim(t.as_str());
            if u.as_str().is_empty() {
                None
            } else {
                Some(u)
            }
        },
        None => None,
    }
}

/// The bytes that a hexadecimal field of `len` bytes holds, or why it does not.
pub open spec fn hex_field(s: Option<Seq<char>>, name: Seq<char>, len: int) -> Result<
    Option<Seq<u8>>,
    Seq<char>,
> {
    match written(s) {
        None => Ok(None),
        Some(t) => {
            let bytes = hex_bytes(encode_utf8(t));
            if !is_hex(encode_utf8(t)) {
                Err(name + " hex decode: "@ + hex_fault(t))
            } else if bytes.len() != len {
                Err(
                    name + " must be exactly "@ + decimal(len as nat) + " bytes (got "@ + decimal(
                        bytes.len(),
                    ) + "); expected "@ + decimal((len * 2) as nat) + " hex chars"@,
                )
            } else {
                Ok(Some(bytes))
            }
        },
    }
}

fn read_hex_field(s: &Option<String>, name: &str, len: usize) -> (out: Result<
    Option<Vec<u8>>,
    String,
>)
    requires
        len <= 1000,
    ensures
        match (out, hex_field(crate::text::opt_view(*s), name@, len as int)) {
            (Ok(Some(b)), Ok(Some(c))) => b@ == c && b@.len() == len,
            (Ok(None), Ok(None)) => true,
            (Err(e), Err(f)) => e@ == f,
            _ => false,
        },
{
    let text: String = match read_written(s) {
        Some(t) => t,
        None => {
            return Ok(None);
        },
    };
    let bytes: Vec<u8> = match hex_decode(text.as_str()) {
        Ok(b) => b,
        Err(e) => {
            return Err(join3(name, " hex decode: ", e.as_str()));
        },
    };
    if bytes.len() != len {
        let a: String = join3(name, " must be exactly ", decimal_text(len as u64).as_str());
        let b: String = join3(
            a.as_str(),
            " bytes (got ",
            decimal_text(bytes.len() as u64).as_str(),
        );
        let c: String = join3(
            b.as_str(),
            "); expected ",
            decimal_text((len * 2) as u64).as_str(),
        );
        return Err(join2(c.as_str(), " hex chars"));
    }
    Ok(Some(bytes))
}

/// The key and nonce of a task, none where it has no secret at all, or what is wrong
/// with it. The combined form is preferred; the older pair must be there in full.
pub open spec fn secret_of(
    secret: Option<Seq<char>>,
    key: Option<Seq<char>>,
    nonce: Option<Seq<char>>,
) -> Result<Option<(Seq<u8>, Seq<u8>)>, Seq<char>> {
    match hex_field(secret, "secret"@, 44) {
        Err(e) => Err(e),
        Ok(Some(all)) => Ok(Some((all.take(32), all.skip(32)))),
        Ok(None) => match (hex_field(key, "key"@, 32), hex_field(nonce, "nonce"@, 12)) {
            (Err(e), _) => Err(e),
            (Ok(_), Err(e)) => Err(e),
            (Ok(Some(k)), Ok(Some(n))) => Ok(Some((k, n))),
            (Ok(None), Ok(None)) => Ok(None),
            (Ok(Some(_)), Ok(None)) => Err("task.key set but task.nonce missing"@),
            (Ok(None), Ok(Some(_))) => Err("task.nonce set but task.key missing"@),
        },
    }
}

impl TaskCfg {
    pub open spec fn resolved(self) -> Result<Option<(Seq<u8>, Seq<u8>)>, Seq<char>> {
        secret_of(
            crate::text::opt_view(self.secret),
            crate::text::opt_view(self.key),
            crate::text::opt_view(self.nonce),
        )
    }
}

fn take_key(bytes: &Vec<u8>) -> (out: [u8; 32])
    requires
        bytes@.len() >= 32,
    ensures
        out@ == bytes@.take(32),
{
    let mut out: [u8; 32] = [0u8; 32];
    let mut i: usize = 0;
    while i < 32
        invariant
            i <= 32,
            bytes@.len() >= 32,
            out@.len() == 32,
            forall|k: int| 0 <= k < i ==> out@[k] == bytes@[k],
        decreases 32 - i,
    {
        out[i] = bytes[i];
        i = i + 1;
    }
    assert(out@ =~= bytes@.take(32));
    out
}

fn take_nonce(bytes: &Vec<u8>, from: usize) -> (out: [u8; 12])
    requires
        from + 12 == bytes@.len(),
    ensures
        out@ == bytes@.skip(from as int),
{
    let mut out: [u8; 12] = [0u8; 12];
    let mut i: usize = 0;
    let n: usize = bytes.len();
    while i < 12
        invariant
            i <= 12,
            n == bytes@.len(),
            from + 12 == n,
            out@.len() == 12,
            forall|k: int| 0 <= k < i ==> out@[k] == bytes@[from + k],
        decreases 12 - i,
    {
        out[i] = bytes[from + i];
        i = i + 1;
    }
    assert(out@ =~= bytes@.skip(from as int));
    out
}

/// The key and nonce of a task; `None` when it carries no secret at all.
pub fn resolve_secret_opt(t: &TaskCfg) -> (out: Result<Option<([u8; 32], [u8; 12])>, String>)
    ensures
        match (out, t.resolved()) {
            (Ok(Some((k, n))), Ok(Some((a, b)))) => k@ == a && n@ == b,
            (Ok(None), Ok(None)) => true,
            (Err(e), Err(f)) => e@ == f,
            _ => false,
        },
{
    match read_hex_field(&t.secret, "secret", 44) {
        Err(e) => {
            return Err(e);
        },
        Ok(Some(all)) => {
            return Ok(Some((take_key(&all), take_nonce(&all, 32))));
        },
        Ok(None) => {},
    }
    let key: Option<Vec<u8>> = match read_hex_field(&t.key, "key", 32) {
        Ok(k) => k,
        Err(e) => {
            return Err(e);
        },
    };
    let nonce: Option<Vec<u8>> = match read_hex_field(&t.nonce, "nonce", 12) {
        Ok(n) => n,
        Err(e) => {
            return Err(e);
        },
    };
    match (key, nonce) {
        (Some(k), Some(n)) => {
            proof {
                assert(k@.take(32) =~= k@);
                assert(n@.skip(0) =~= n@);
            }
            Ok(Some((take_key(&k), take_nonce(&n, 0))))
        },
        (None, None) => Ok(None),
        (Some(_), None) => Err("task.key set but task.nonce missing".to_owned()),
        (None, Some(_)) => Err("task.nonce set but task.key missing".to_owned()),
    }
}

/// The key and nonce of a task, which must have one.
pub fn resolve_secret(t: &TaskCfg) -> (out: Result<([u8; 32], [u8; 12]), String>)
    ensures
        match (out, t.resolved()) {
            (Ok((k, n)), Ok(Some((a, b)))) => k@ == a && n@ == b,
            (
                Err(e),
                Ok(None),
            ) => e@
                == "task.secret is required (88 hex chars = 32-byte key + 12-byte nonce); the legacy `key` + `nonce` pair is also accepted"@,
            (Err(e), Err(f)) => e@ == f,
            _ => false,
        },
{
    match resolve_secret_opt(t) {
        Ok(Some(pair)) => Ok(pair),
        Ok(None) => Err(
            "task.secret is required (88 hex chars = 32-byte key + 12-byte nonce); the legacy `key` + `nonce` pair is also accepted".to_owned(),
        ),
        Err(e) => Err(e),
    }
}

/// Key and nonce as one hexadecimal text.
pub fn combine_secret_hex(key: &[u8; 32], nonce: &[u8; 12]) -> (out: String)
    ensures
        out@ == hex_of(key@ + nonce@),
{
    let mut all: Vec<u8> = Vec::new();
    let mut i: usize = 0;
    while i < 32
        invariant
            i <= 32,
            key@.len() == 32,
            all@ == key@.take(i as int),
        decreases 32 - i,
    {
        all.push(key[i]);
        proof {
            assert(key@.take(i as int).push(key@[i as int]) =~= key@.take(i + 1));
        }
        i = i + 1;
    }
    assert(key@.take(32) =~= key@);
    let mut j: usize = 0;
    while j < 12
        invariant
            j <= 12,
            nonce@.len() == 12,
            all@ == key@ + nonce@.take(j as int),
        decreases 12 - j,
    {
        all.push(nonce[j]);
        proof {
            assert(nonce@.take(j as int).push(nonce@[j as int]) =~= nonce@.take(j + 1));
        }
        j = j + 1;
    }
    assert(nonce@.take(12) =~= nonce@);
    hex_encode(&all)
}

/// The combined text that the sender is shown is read back, by the receiver, as the
/// same key and nonce.
pub proof fn law_a_combined_secret_reads_back(
    k: Seq<u8>,
    n: Seq<u8>,
    key: Option<Seq<char>>,
    nonce: Option<Seq<char>>,
)
    requires
        k.len() == 32,
        n.len() == 12,
    ensures
        secret_of(Some(hex_of(k + n)), key, nonce) == Ok::<Option<(Seq<u8>, Seq<u8>)>, Seq<char>>(
            Some((k, n)),
        ),
{
    let text = hex_of(k + n);
    law_hex_reads_back(k + n);
    assert forall|i: int| 0 <= i < text.len() implies !white(#[trigger] text[i]) by {}
    lemma_trimmed_solid(text);
    assert((k + n).take(32) =~= k);
    assert((k + n).skip(32) =~= n);
}


// ---------------------------------------------------------------------------
// Sizes in a form

/// A size as a form sends it.
#[derive(Debug, Clone)]
pub enum SizeValue {
    Null,
    /// A number; `None` if it is not a whole number that a machine word holds.
    Number(Option<u64>),
    Text(String),
    /// Anything else, as it is shown.
    Other(String),
}

/// The bytes that a form's size stands for; nothing stands for 0.
pub open spec fn size_value(v: SizeValue, field: Seq<char>) -> Result<int, Seq<char>> {
    match v {
        SizeValue::Null => Ok(0),
        SizeValue::Number(Some(n)) => Ok(n as int),
        SizeValue::Number(None) => Err(field + ": number must be a non-negative integer"@),
        SizeValue::Text(s) => if trimmed(s@).len() == 0 {
            Ok(0)
        } else {
            match size_asked(trimmed(s@)) {
                Ok(n) => Ok(n),
                Err(e) => Err(field + ": "@ + e),
            }
        },
        SizeValue::Other(shown) => Err(field + ": unexpected type "@ + shown@),
    }
}

/// Reads a size that is a text with a unit or a plain number.
pub fn coerce_size(v: &SizeValue, field: &str) -> (out: Result<u64, String>)
    ensures
        match (out, size_value(*v, field@)) {
            (Ok(n), Ok(m)) => n == m,
            (Err(e), Err(f)) => e@ == f,
            _ => false,
        },
{
    match v {
        SizeValue::Null => Ok(0),
        SizeValue::Number(n) => match n {
            Some(n) => Ok(*n),
            None => Err(join2(field, ": number must be a non-negative integer")),
        },
        SizeValue::Text(s) => {
            let t: String = trim(s.as_str());
            if t.as_str().is_empty() {
                return Ok(0);
            }
            match parse_size(t.as_str()) {
                Ok(n) => Ok(n),
                Err(e) => Err(join3(field, ": ", e.as_str())),
            }
        },
        SizeValue::Other(shown) => Err(join3(field, ": unexpected type ", shown.as_str())),
    }
}

// ---------------------------------------------------------------------------
// Volumes

/// Default buffer of the forward tool.
pub const DEFAULT_BUFFER: usize = 4 * 1024 * 1024;

pub const MIN_BUFFER: u64 = 4 * 1024;

pub const MAX_BUFFER: u64 = 64 * 1024 * 1024;

/// No volume but the last is smaller than this, where the maximum allows it.
pub const MIN_VOLUME_BYTES: u64 = 1024 * 1024;

/// How the sizes of volumes are chosen.
#[derive(Debug, Clone, Copy, PartialEq, Eq, Structural)]
pub enum SplitMode {
    /// At random between half the maximum and the maximum.
    Random,
    /// The maximum each, the last one the rest.
    Fixed,
}

/// A number at random. Calls `gen_range` of `rand`'s thread-local generator with an
/// inclusive range: the result lies in it, and nothing more is known of it.
#[verifier::external_body]
fn random_between(low: u64, high: u64) -> (out: u64)
    requires
        low <= high,
    ensures
        low <= out <= high,
{
    rand::thread_rng().gen_range(low..=high)
}

/// Fills a buffer with random bytes. Calls `fill_bytes` of `rand`'s thread-local
/// generator: every byte is overwritten, and nothing is known of the new ones.
#[verifier::external_body]
fn fill_random(buf: &mut Vec<u8>)
    ensures
        final(buf)@.len() == old(buf)@.len(),
{
    rand::thread_rng().fill_bytes(buf)
}

pub open spec fn volumes_total(sizes: Seq<u64>) -> int
    decreases sizes.len(),
{
    if sizes.len() == 0 {
        0
    } else {
        volumes_total(sizes.drop_last()) + sizes.last()
    }
}

/// The maximum each, the last one the rest.
pub open spec fn fixed_sizes(total: int, max: int) -> Seq<u64>
    decreases total,
{
    if total <= 0 || max <= 0 {
        seq![]
    } else if total <= max {
        seq![total as u64]
    } else {
        seq![max as u64] + fixed_sizes(total - max, max)
    }
}

/// Smallest size of a volume that is not the last, chosen at random.
pub open spec fn random_floor(max: u64) -> int {
    imax(max as int / 2, imin(MIN_VOLUME_BYTES as int, max as int))
}

/// Decides volume sizes from the input length. `max == 0`, or an input that fits,
/// gives a single volume. Whatever chance decides, the sizes add up to the input.
pub fn plan_volume_sizes(total: u64, max: u64, mode: SplitMode) -> (out: Vec<u64>)
    ensures
        volumes_total(out@) == total,
        out@.len() >= 1,
        max == 0 || total <= max ==> out@ == seq![total],
        max > 0 && total > max && mode == SplitMode::Fixed ==> out@ == fixed_sizes(
            total as int,
            max as int,
        ),
        max > 0 && total > max ==> forall|i: int|
            0 <= i < out@.len() ==> 1 <= #[trigger] out@[i] <= max,
        max > 0 && total > max && mode == SplitMode::Random ==> forall|i: int|
            0 <= i < out@.len() - 1 ==> random_floor(max) <= #[trigger] out@[i],
{
    let mut out: Vec<u64> = Vec::new();
    if max == 0 || total <= max {
        out.push(total);
        proof {
            assert(out@.drop_last() =~= seq![]);
            assert(volumes_total(out@.drop_last()) == 0);
        }
        return out;
    }
    let mut remaining: u64 = total;
    let ghost goal = fixed_sizes(total as int, max as int);
    proof {
        assert(out@ + goal =~= goal);
    }
    let lower: u64 = (max / 2).max(MIN_VOLUME_BYTES.min(max));
    while remaining > max
        invariant
            max > 0,
            total > max,
            1 <= remaining <= total,
            lower == random_floor(max),
            1 <= lower <= max,
            volumes_total(out@) + remaining == total,
            mode == SplitMode::Fixed ==> out@ + fixed_sizes(remaining as int, max as int) == goal,
            forall|i: int| 0 <= i < out@.len() ==> 1 <= #[trigger] out@[i] <= max,
            mode == SplitMode::Random ==> forall|i: int|
                0 <= i < out@.len() ==> random_floor(max) <= #[trigger] out@[i],
        decreases remaining,
    {
        let pick: u64 = match mode {
            SplitMode::Fixed => max,
            SplitMode::Random => {
                let high: u64 = max.min(remaining - 1);
                random_between(lower.min(high), high)
            },
        };
        let ghost before = out@;
        out.push(pick);
        proof {
            assert(out@.drop_last() =~= before);
            let rest = fixed_sizes(remaining - pick, max as int);
            if mode == SplitMode::Fixed {
                assert(before + (seq![pick] + rest) =~= out@ + rest);
            }
            assert forall|i: int| 0 <= i < out@.len() implies 1 <= #[trigger] out@[i] <= max by {
                if i < before.len() {
                    assert(out@[i] == before[i]);
                }
            }
            assert forall|i: int|
                mode == SplitMode::Random && 0 <= i < out@.len() implies random_floor(max)
                <= #[trigger] out@[i] by {
                if i < before.len() {
                    assert(out@[i] == before[i]);
                }
            }
        }
        remaining = remaining - pick;
    }
    let ghost before = out@;
    out.push(remaining);
    proof {
        assert(out@.drop_last() =~= before);
        assert(fixed_sizes(remaining as int, max as int) == seq![remaining]);
        assert(before + seq![remaining] =~= out@);
        assert forall|i: int| 0 <= i < out@.len() implies 1 <= #[trigger] out@[i] <= max by {
            if i < before.len() {
                assert(out@[i] == before[i]);
            }
        }
        assert forall|i: int|
            mode == SplitMode::Random && 0 <= i < out@.len() - 1 implies random_floor(max)
            <= #[trigger] out@[i] by {
            assert(out@[i] == before[i]);
        }
    }
    out
}

/// Digits needed to print every index up to `n`.
pub fn digit_count(n: usize) -> (out: usize)
    ensures
        out == decimal(n as nat).len(),
{
    if n <= 1 {
        return 1;
    }
    decimal_chars(n as u64).len()
}

/// A number with zeros in front, at least `width` digits long.
pub open spec fn padded(n: nat, width: int) -> Seq<char> {
    Seq::new(imax(width - decimal(n).len(), 0) as nat, |i: int| '0') + decimal(n)
}

/// `s` with each `part` in it, from the left, replaced by `with`.
pub open spec fn replaced(s: Seq<char>, part: Seq<char>, with: Seq<char>) -> Seq<char>
    decreases s.len(),
{
    match part_from(s, part, 0) {
        Some(i) if 0 <= i && i + part.len() <= s.len() && part.len() > 0 => s.take(i) + with
            + replaced(s.skip(i + part.len()), part, with),
        _ => s,
    }
}

fn replace_marker(s: &[char], with: &[char]) -> (out: Vec<char>)
    ensures
        out@ == replaced(s@, seq!['{', 'N', '}'], with@),
    decreases s@.len(),
{
    let marker: [char; 3] = ['{', 'N', '}'];
    proof {
        assert(marker@ =~= seq!['{', 'N', '}']);
    }
    let n: usize = s.len();
    match find_part(s, &marker, 0) {
        Some(i) => {
            let mut out: Vec<char> = slice_of(s, 0, i);
            let rest: Vec<char> = slice_of(s, i + 3, n);
            proof {
                assert(out@ =~= s@.take(i as int));
                assert(rest@ =~= s@.skip(i + 3));
            }
            let mut middle: Vec<char> = slice_of(with, 0, with.len());
            assert(middle@ =~= with@);
            let mut tail: Vec<char> = replace_marker(&rest, with);
            out.append(&mut middle);
            out.append(&mut tail);
            out
        },
        None => {
            let out: Vec<char> = slice_of(s, 0, n);
            assert(out@ =~= s@);
            out
        },
    }
}

/// Replaces `{N}` by the zero-padded `idx`.
pub fn substitute_volume_marker(tmpl: &str, idx: usize, width: usize) -> (out: String)
    ensures
        out@ == replaced(tmpl@, seq!['{', 'N', '}'], padded(idx as nat, width as int)),
{
    let mut digits: Vec<char> = decimal_chars(idx as u64);
    let mut number: Vec<char> = Vec::new();
    let have: usize = digits.len();
    let mut i: usize = have;
    while i < width
        invariant
            have <= i,
            have < width ==> i <= width,
            have >= width ==> i == have,
            number@ == Seq::new((i - have) as nat, |k: int| '0'),
        decreases width - i,
    {
        number.push('0');
        assert(number@ =~= Seq::new((i + 1 - have) as nat, |k: int| '0'));
        i = i + 1;
    }
    number.append(&mut digits);
    assert(number@ =~= padded(idx as nat, width as int));
    string_of(&replace_marker(&chars_of(tmpl), &number))
}

/// Runs of dots made one dot; `dot` says whether a dot stands right before.
pub open spec fn single_dots(s: Seq<char>, dot: bool) -> Seq<char>
    decreases s.len(),
{
    if s.len() == 0 {
        seq![]
    } else if s[0] == '.' {
        if dot {
            single_dots(s.drop_first(), true)
        } else {
            seq!['.'] + single_dots(s.drop_first(), true)
        }
    } else {
        seq![s[0]] + single_dots(s.drop_first(), false)
    }
}

/// What stands between the parts of a file name.
pub open spec fn separates(c: char) -> bool {
    c == '.' || c == '-' || c == '_' || c == ' '
}

fn is_separator(c: char) -> (out: bool)
    ensures
        out == separates(c),
{
    c == '.' || c == '-' || c == '_' || c == ' '
}

/// `s` without the separators at its end.
pub open spec fn unseparated(s: Seq<char>) -> Seq<char>
    decreases s.len(),
{
    if s.len() > 0 && separates(s.last()) {
        unseparated(s.drop_last())
    } else {
        s
    }
}

/// A marker stands at the end, but for separators.
pub open spec fn ends_in_marker(tmpl: Seq<char>) -> bool
    decreases tmpl.len(),
{
    let n = tmpl.len() as int;
    ||| n >= 3 && tmpl[n - 3] == '{' && tmpl[n - 2] == 'N' && tmpl[n - 1] == '}'
    ||| n > 0 && separates(tmpl.last()) && ends_in_marker(tmpl.drop_last())
}

/// A template without its markers: runs of dots are one dot, and the separators
/// round a marker at the end go with it.
pub open spec fn stripped(tmpl: Seq<char>) -> Seq<char> {
    let s = single_dots(replaced(tmpl, seq!['{', 'N', '}'], seq![]), false);
    if ends_in_marker(tmpl) {
        unseparated(s)
    } else {
        s
    }
}

/// Drops `{N}` (single-volume mode), makes runs of dots one dot, and drops the
/// separators that a marker at the end leaves behind.
pub fn strip_volume_marker(tmpl: &str) -> (out: String)
    ensures
        out@ == stripped(tmpl@),
{
    let nothing: Vec<char> = Vec::new();
    let chars: Vec<char> = chars_of(tmpl);
    let s: Vec<char> = replace_marker(&chars, &nothing);
    proof {
        assert(nothing@ =~= seq![]);
        assert(s@.skip(0) =~= s@);
    }
    let mut out: Vec<char> = Vec::new();
    let mut dot: bool = false;
    let mut i: usize = 0;
    assert(out@ + single_dots(s@, false) =~= single_dots(s@, false));
    while i < s.len()
        invariant
            i <= s@.len(),
            out@ + single_dots(s@.skip(i as int), dot) == single_dots(s@, false),
        decreases s.len() - i,
    {
        let c: char = s[i];
        let ghost had = out@;
        let ghost was = dot;
        proof {
            assert(s@.skip(i as int).drop_first() =~= s@.skip(i + 1));
        }
        if c == '.' {
            if !dot {
                out.push(c);
            }
            dot = true;
        } else {
            out.push(c);
            dot = false;
        }
        proof {
            let more = single_dots(s@.skip(i + 1), dot);
            if c == '.' && was {
                assert(had + more =~= out@ + more);
            } else {
                assert(had + (seq![c] + more) =~= out@ + more);
            }
        }
        i = i + 1;
    }
    assert(out@ + single_dots(s@.skip(i as int), dot) =~= out@);
    let mut n: usize = chars.len();
    assert(tmpl@.take(n as int) =~= tmpl@);
    while n > 0 && is_separator(chars[n - 1])
        invariant
            n <= chars@.len(),
            chars@ == tmpl@,
            ends_in_marker(tmpl@.take(n as int)) == ends_in_marker(tmpl@),
        decreases n,
    {
        proof {
            assert(tmpl@.take(n as int).drop_last() =~= tmpl@.take(n - 1));
        }
        n = n - 1;
    }
    if n >= 3 && chars[n - 3] == '{' && chars[n - 2] == 'N' && chars[n - 1] == '}' {
        while out.len() > 0 && is_separator(out[out.len() - 1])
            invariant
                unseparated(out@) == unseparated(single_dots(s@, false)),
            decreases out@.len(),
        {
            out.pop();
        }
    }
    string_of(&out)
}

// ---------------------------------------------------------------------------
// The forward tool

/// Settings of the plugin that hold for every task.
#[derive(Debug, Clone)]
pub struct GlobalCfg {
    /// Buffer size of the forward tool.
    pub buffer_size: Option<SizeValue>,
}

/// What the forward tool is asked to do.
#[derive(Debug, Clone)]
pub struct ForwardParams {
    pub input_path: String,
    pub output_dir: String,
    pub filename_prefix: Option<String>,
    pub volume_suffix: Option<String>,
    pub max_volume_size: Option<SizeValue>,
    pub split_mode: SplitMode,
    /// When false the bytes are written through as they are.
    pub encrypt: bool,
    /// When true a missing secret is made up.
    pub generate_missing: bool,
}

/// What the forward tool works with.
pub struct ForwardSettings {
    pub key: [u8; 32],
    pub nonce: [u8; 12],
    pub generated_secret: bool,
    pub buffer_size: usize,
    pub max_volume_size: u64,
}

/// The buffer: what is asked for, inside its bounds; the default where nothing, zero
/// or nonsense is asked for.
pub open spec fn buffer_for(g: GlobalCfg) -> int {
    match g.buffer_size {
        Some(v) => match size_value(v, "buffer_size"@) {
            Ok(n) => if n == 0 {
                DEFAULT_BUFFER as int
            } else {
                imax(imin(n, MAX_BUFFER as int), MIN_BUFFER as int)
            },
            Err(_) => DEFAULT_BUFFER as int,
        },
        None => DEFAULT_BUFFER as int,
    }
}

/// The largest volume; none asked for is 0.
pub open spec fn max_volume_for(p: ForwardParams) -> Result<int, Seq<char>> {
    match p.max_volume_size {
        Some(v) => size_value(v, "max_volume_size"@),
        None => Ok(0),
    }
}

/// Settles the secret, the buffer and the volume size, before any file is touched.
/// A secret is made up only where one is needed, none is given and the caller allows
/// it; a plain split needs none.
pub fn prepare_forward(g: &GlobalCfg, t: &TaskCfg, p: &ForwardParams) -> (out: Result<
    ForwardSettings,
    String,
>)
    ensures
        match out {
            Ok(s) => {
                &&& s.buffer_size == buffer_for(*g)
                &&& max_volume_for(*p) == Ok::<int, Seq<char>>(s.max_volume_size as int)
                &&& p.encrypt ==> match t.resolved() {
                    Ok(Some((k, n))) => s.key@ == k && s.nonce@ == n && !s.generated_secret,
                    Ok(None) => p.generate_missing && s.generated_secret,
                    Err(_) => false,
                }
                &&& !p.encrypt ==> !s.generated_secret
            },
            Err(e) => if p.encrypt && t.resolved() is Err {
                e@ == t.resolved()->Err_0
            } else if p.encrypt && t.resolved()->Ok_0 is None && !p.generate_missing {
                e@
                    == "missing task.secret (encryption enabled and generate_missing is false)"@
            } else {
                max_volume_for(*p) is Err && e@ == max_volume_for(*p)->Err_0
            },
        },
{
    let mut key: [u8; 32] = [0u8; 32];
    let mut nonce: [u8; 12] = [0u8; 12];
    let mut generated_secret: bool = false;
    if p.encrypt {
        match resolve_secret_opt(t) {
            Err(e) => {
                return Err(e);
            },
            Ok(Some((k, n))) => {
                key = k;
                nonce = n;
            },
            Ok(None) => {
                if !p.generate_missing {
                    return Err(
                        "missing task.secret (encryption enabled and generate_missing is false)".to_owned(),
                    );
                }
                let mut k: Vec<u8> = vec![0u8; 32];
                fill_random(&mut k);
                let mut n: Vec<u8> = vec![0u8; 12];
                fill_random(&mut n);
                key = take_key(&k);
                nonce = take_nonce(&n, 0);
                generated_secret = true;
            },
        }
    }
    let buffer_size: usize = match &g.buffer_size {
        Some(v) => match coerce_size(v, "buffer_size") {
            Ok(0) => DEFAULT_BUFFER,
            Ok(b) => b.min(MAX_BUFFER).max(MIN_BUFFER) as usize,
            Err(_) => DEFAULT_BUFFER,
        },
        None => DEFAULT_BUFFER,
    };
    let max_volume_size: u64 = match &p.max_volume_size {
        Some(v) => match coerce_size(v, "max_volume_size") {
            Ok(n) => n,
            Err(e) => {
                return Err(e);
            },
        },
        None => 0,
    };
    Ok(ForwardSettings { key, nonce, generated_secret, buffer_size, max_volume_size })
}

/// The directory for the volumes.
pub fn output_directory(p: &ForwardParams) -> (out: Result<String, String>)
    ensures
        match out {
            Ok(d) => d@ == trimmed(p.output_dir@) && d@.len() > 0,
            Err(e) => trimmed(p.output_dir@).len() == 0 && e@ == "output_dir is required"@,
        },
{
    let d: String = trim(p.output_dir.as_str());
    if d.as_str().is_empty() {
        Err("output_dir is required".to_owned())
    } else {
        Ok(d)
    }
}

/// What every volume's name begins with: what is asked for, or else the input's name
/// without its extension.
pub open spec fn prefix_for(p: ForwardParams, stem: Option<Seq<char>>) -> Seq<char> {
    match written(crate::text::opt_view(p.filename_prefix)) {
        Some(s) => s,
        None => match stem {
            Some(s) => s,
            None => "output"@,
        },
    }
}

/// What every volume's name ends with, before the number is put in.
pub open spec fn suffix_for(p: ForwardParams) -> Seq<char> {
    match written(crate::text::opt_view(p.volume_suffix)) {
        Some(s) => s,
        None => if p.encrypt {
            ".part{N}.enc"@
        } else {
            ".part{N}"@
        },
    }
}

/// The name of volume `idx` (from 0) of `count`. A single one has no number.
pub open spec fn volume_name(
    p: ForwardParams,
    stem: Option<Seq<char>>,
    idx: int,
    count: int,
) -> Seq<char> {
    prefix_for(p, stem) + if count == 1 {
        stripped(suffix_for(p))
    } else {
        replaced(
            suffix_for(p),
            seq!['{', 'N', '}'],
            padded((idx + 1) as nat, decimal(count as nat).len() as int),
        )
    }
}

/// The names of all volumes.
pub fn volume_names(p: &ForwardParams, stem: Option<&str>, count: usize) -> (out: Vec<String>)
    ensures
        out@.len() == count,
        forall|i: int|
            0 <= i < count ==> (#[trigger] out@[i])@ == volume_name(
                *p,
                match stem {
                    Some(s) => Some(s@),
                    None => None,
                },
                i,
                count as int,
            ),
{
    let prefix: String = match read_written(&p.filename_prefix) {
        Some(s) => s,
        None => match stem {
            Some(s) => s.to_owned(),
            None => "output".to_owned(),
        },
    };
    proof {
        reveal_strlit(".part{N}.enc");
        reveal_strlit(".part{N}");
    }
    let suffix: String = match read_written(&p.volume_suffix) {
        Some(s) => s,
        None => if p.encrypt {
            ".part{N}.enc".to_owned()
        } else {
            ".part{N}".to_owned()
        },
    };
    let width: usize = digit_count(count);
    let mut out: Vec<String> = Vec::new();
    let mut i: usize = 0;
    while i < count
        invariant
            i <= count,
            suffix@ == suffix_for(*p),
            prefix@ == prefix_for(
                *p,
                match stem {
                    Some(s) => Some(s@),
                    None => None,
                },
            ),
            width == decimal(count as nat).len(),
            out@.len() == i,
            forall|k: int|
                0 <= k < i ==> (#[trigger] out@[k])@ == volume_name(
                    *p,
                    match stem {
                        Some(s) => Some(s@),
                        None => None,
                    },
                    k,
                    count as int,
                ),
        decreases count - i,
    {
        let tail: String = if count == 1 {
            strip_volume_marker(suffix.as_str())
        } else {
            substitute_volume_marker(suffix.as_str(), i + 1, width)
        };
        out.push(join2(prefix.as_str(), tail.as_str()));
        i = i + 1;
    }
    out
}

/// Report progress after this many more bytes.
pub const PROGRESS_BYTES: u64 = 32 * 1024 * 1024;

/// Report progress after this many more milliseconds.
pub const PROGRESS_MILLIS: u64 = 100;

/// Volumes one behind the other.
pub open spec fn joined(volumes: Seq<Seq<u8>>) -> Seq<u8>
    decreases volumes.len(),
{
    if volumes.len() == 0 {
        seq![]
    } else {
        joined(volumes.drop_last()) + volumes.last()
    }
}

/// Writing the volumes: which one, how much of it is left, and how far into the
/// input.
pub struct ForwardRun {
    pub key: [u8; 32],
    pub nonce: [u8; 12],
    /// When false the bytes are written through as they are.
    pub encrypt: bool,
    pub plan: Vec<u64>,
    /// Bytes of the whole input.
    pub total: u64,
    /// Bytes written to the volumes that are done.
    pub written: Vec<u64>,
    /// Bytes of the current volume that are still to come.
    pub remaining: u64,
    /// Bytes of the input that have been handled.
    pub merged_offset: u64,
    /// How many of those the last report spoke of.
    pub reported: u64,
    /// The part of the input that has been handled.
    pub input: Ghost<Seq<u8>>,
    /// What was given out for each of the volumes that are done.
    pub volumes: Ghost<Seq<Seq<u8>>>,
    /// What was given out for the current volume.
    pub current: Ghost<Seq<u8>>,
}

impl ForwardRun {
    pub open spec fn done(self) -> bool {
        self.written@.len() == self.plan@.len()
    }

    /// What becomes of a stretch of the input that begins at `offset`.
    pub open spec fn changed(self, offset: int, data: Seq<u8>) -> Seq<u8> {
        if self.encrypt {
            xored(self.key@, self.nonce@, offset, data)
        } else {
            data
        }
    }

    /// The secret, the plan and the size of the input are the same.
    pub open spec fn same_task(self, other: ForwardRun) -> bool {
        &&& self.key == other.key
        &&& self.nonce == other.nonce
        &&& self.encrypt == other.encrypt
        &&& self.plan == other.plan
        &&& self.total == other.total
    }

    /// The volumes, joined, hold what becomes of the input that has been handled.
    pub open spec fn wf(self) -> bool {
        &&& self.written@.len() <= self.plan@.len()
        &&& volumes_total(self.plan@) == self.total
        &&& self.encrypt ==> self.total <= KEYSTREAM_LIMIT
        &&& !self.done() ==> self.remaining <= self.plan@[self.written@.len() as int]
        &&& self.merged_offset == volumes_total(self.written@) + if self.done() {
            0
        } else {
            self.plan@[self.written@.len() as int] - self.remaining
        }
        &&& self.reported <= self.merged_offset
        &&& forall|i: int| 0 <= i < self.written@.len() ==> (#[trigger] self.written@[i])
            <= self.plan@[i]
        &&& self.input@.len() == self.merged_offset
        &&& self.volumes@.len() == self.written@.len()
        &&& forall|i: int| 0 <= i < self.written@.len() ==> (#[trigger] self.written@[i])
            == self.volumes@[i].len()
        &&& self.done() ==> self.current@.len() == 0
        &&& !self.done() ==> self.current@.len() == self.plan@[self.written@.len() as int]
            - self.remaining
        &&& joined(self.volumes@) + self.current@ == self.changed(0, self.input@)
    }

    pub fn new(settings: &ForwardSettings, encrypt: bool, plan: Vec<u64>, total: u64) -> (out: Self)
        requires
            volumes_total(plan@) == total,
            encrypt ==> total <= KEYSTREAM_LIMIT,
        ensures
            out.wf(),
            out.key == settings.key,
            out.nonce == settings.nonce,
            out.encrypt == encrypt,
            out.plan@ == plan@,
            out.total == total,
            out.written@.len() == 0,
            out.merged_offset == 0,
            out.reported == 0,
            plan@.len() > 0 ==> out.remaining == plan@[0],
    {
        let remaining: u64 = if plan.len() > 0 {
            plan[0]
        } else {
            0
        };
        let out: ForwardRun = ForwardRun {
            key: settings.key,
            nonce: settings.nonce,
            encrypt,
            plan,
            total,
            written: Vec::new(),
            remaining,
            merged_offset: 0,
            reported: 0,
            input: Ghost(Seq::empty()),
            volumes: Ghost(Seq::empty()),
            current: Ghost(Seq::empty()),
        };
        assert(joined(out.volumes@) + out.current@ =~= out.changed(0, out.input@));
        out
    }

    /// How many bytes to read next into a buffer of `buf_len` bytes.
    pub fn want(&self, buf_len: usize) -> (out: usize)
        ensures
            out == imin(self.remaining as int, buf_len as int),
    {
        if self.remaining < buf_len as u64 {
            self.remaining as usize
        } else {
            buf_len
        }
    }

    fn progress(&self) -> (out: ForwardProgress)
        ensures
            out.tells(*self),
    {
        ForwardProgress {
            bytes_done: self.merged_offset,
            bytes_total: self.total,
            phase: if self.encrypt {
                "encrypt".to_owned()
            } else {
                "split".to_owned()
            },
        }
    }

    /// The report before the first byte.
    pub fn begin(&self) -> (out: ForwardProgress)
        requires
            self.merged_offset == 0,
        ensures
            out.tells(*self),
            out.bytes_done == 0,
    {
        self.progress()
    }

    /// Turns bytes that were read into those that are to be written to the current
    /// volume: each is combined with the keystream at its own place in the input.
    /// Gives a report where one is due.
    pub fn take(&mut self, data: &mut [u8], cores: usize, millis_since_report: u64) -> (out: Option<
        ForwardProgress,
    >)
        requires
            old(self).wf(),
            !old(self).done(),
            old(data)@.len() <= old(self).remaining,
        ensures
            final(self).wf(),
            final(self).same_task(*old(self)),
            final(data)@ == old(self).changed(old(self).merged_offset as int, old(data)@),
            final(self).input@ == old(self).input@ + old(data)@,
            final(self).current@ == old(self).current@ + final(data)@,
            final(self).volumes@ == old(self).volumes@,
            final(self).written@ == old(self).written@,
            final(self).remaining == old(self).remaining - old(data)@.len(),
            final(self).merged_offset == old(self).merged_offset + old(data)@.len(),
            out is Some == (final(self).merged_offset - old(self).reported >= PROGRESS_BYTES
                || millis_since_report >= PROGRESS_MILLIS),
            out is Some ==> (out->0).tells(*final(self)),
            final(self).merged_offset - old(self).reported >= 33_554_432 ==> out is Some,
            millis_since_report >= 100 ==> out is Some,
            out is Some ==> (out->0).bytes_done == final(self).merged_offset && (
            out->0).bytes_total == final(self).total,
            final(self).reported == if out is Some {
                final(self).merged_offset
            } else {
                old(self).reported
            },
    {
        let ghost had = data@;
        let ghost was = *self;
        let n: u64 = data.len() as u64;
        proof {
            lemma_handled_bound(*self);
        }
        if self.encrypt {
            apply_keystream_parallel(&self.key, &self.nonce, self.merged_offset, data, cores);
        }
        self.merged_offset = self.merged_offset + n;
        self.remaining = self.remaining - n;
        proof {
            let more = data@;
            assert(more == was.changed(was.merged_offset as int, had));
            self.input = Ghost(was.input@ + had);
            self.current = Ghost(was.current@ + more);
            if self.encrypt {
                law_stretches_join(self.key@, self.nonce@, 0, was.input@, had);
            }
            assert(joined(self.volumes@) + self.current@ =~= (joined(was.volumes@) + was.current@)
                + more);
            assert(self.changed(0, self.input@) == was.changed(0, was.input@) + more);
        }
        if self.merged_offset - self.reported >= PROGRESS_BYTES || millis_since_report
            >= PROGRESS_MILLIS {
            self.reported = self.merged_offset;
            Some(self.progress())
        } else {
            None
        }
    }

    /// The current volume is done: all of it is written, or the input ended early.
    pub fn close_volume(&mut self)
        requires
            old(self).wf(),
            !old(self).done(),
        ensures
            final(self).wf(),
            final(self).same_task(*old(self)),
            final(self).merged_offset == old(self).merged_offset,
            final(self).reported == old(self).reported,
            final(self).input@ == old(self).input@,
            final(self).volumes@ == old(self).volumes@.push(old(self).current@),
            final(self).current@.len() == 0,
            final(self).written@ == old(self).written@.push(
                (old(self).plan@[old(self).written@.len() as int] - old(self).remaining) as u64,
            ),
            !final(self).done() ==> final(self).remaining
                == old(self).plan@[final(self).written@.len() as int],
    {
        let ghost was = *self;
        let at: usize = self.written.len();
        let ghost before = self.written@;
        let size: u64 = self.plan[at] - self.remaining;
        self.written.push(size);
        proof {
            self.volumes = Ghost(was.volumes@.push(was.current@));
            self.current = Ghost(Seq::empty());
            assert(self.written@.drop_last() =~= before);
            assert(self.volumes@.drop_last() =~= was.volumes@);
            assert(joined(self.volumes@) + self.current@ =~= joined(was.volumes@) + was.current@);
            assert forall|i: int| 0 <= i < self.written@.len() implies (#[trigger] self.written@[i])
                <= self.plan@[i] && self.written@[i] == self.volumes@[i].len() by {
                if i < before.len() {
                    assert(self.written@[i] == before[i]);
                    assert(before[i] <= self.plan@[i]);
                }
            }
        }
        if self.plan.len() - at > 1 {
            self.remaining = self.plan[at + 1];
        }
    }

    /// The report when every volume is done.
    pub fn finish(&self) -> (out: ForwardProgress)
        requires
            self.wf(),
            self.done(),
        ensures
            out.tells(*self),
            self.written@ == self.plan@ ==> out.bytes_done == out.bytes_total,
    {
        self.progress()
    }

    /// Bytes written to all volumes.
    pub fn bytes_out(&self) -> (out: u64)
        requires
            self.wf(),
            self.done(),
        ensures
            out == volumes_total(self.written@),
            out == self.merged_offset,
    {
        self.merged_offset
    }
}

impl ForwardProgress {
    /// It tells how far the run has come.
    pub open spec fn tells(self, run: ForwardRun) -> bool {
        &&& self.bytes_done == run.merged_offset
        &&& self.bytes_total == run.total
        &&& self.phase@ == if run.encrypt {
            "encrypt"@
        } else {
            "split"@
        }
    }
}

/// The volumes of an encrypted file, joined, hold as many bytes as were read, and
/// the transform of the same secret turns them back into what was read, whatever the
/// sizes of the volumes and of the buffers. Where every volume was filled that is
/// the whole input.
pub proof fn law_the_joined_volumes_decrypt_to_the_input(run: ForwardRun, t: ChaCha20Transform)
    requires
        run.wf(),
        run.done(),
        run.encrypt,
        t.key == run.key,
        t.nonce == run.nonce,
    ensures
        joined(run.volumes@).len() == run.merged_offset,
        run.merged_offset == volumes_total(run.written@),
        t.admits(0, joined(run.volumes@).len()),
        t.transformed(0, joined(run.volumes@)) == run.input@,
        run.written@ == run.plan@ ==> run.input@.len() == run.total,
{
    let c = joined(run.volumes@);
    assert(c + run.current@ =~= c);
    law_applying_twice_is_the_identity(run.key@, run.nonce@, 0, run.input@);
    lemma_volumes_at_most(run.written@, run.plan@);
}

/// The volumes of a file that is only split, joined, are what was read.
pub proof fn law_the_joined_volumes_are_the_input(run: ForwardRun)
    requires
        run.wf(),
        run.done(),
        !run.encrypt,
    ensures
        joined(run.volumes@) == run.input@,
        run.written@ == run.plan@ ==> run.input@.len() == run.total,
{
    assert(joined(run.volumes@) + run.current@ =~= joined(run.volumes@));
}

proof fn lemma_volumes_prefix(sizes: Seq<u64>, n: int)
    requires
        0 <= n <= sizes.len(),
    ensures
        0 <= volumes_total(sizes.take(n)) <= volumes_total(sizes),
    decreases sizes.len() - n,
{
    if n < sizes.len() {
        lemma_volumes_prefix(sizes, n + 1);
        assert(sizes.take(n + 1).drop_last() =~= sizes.take(n));
        lemma_volumes_nonneg(sizes.take(n));
    } else {
        assert(sizes.take(n) =~= sizes);
        lemma_volumes_nonneg(sizes);
    }
}

proof fn lemma_volumes_nonneg(sizes: Seq<u64>)
    ensures
        volumes_total(sizes) >= 0,
    decreases sizes.len(),
{
    if sizes.len() > 0 {
        lemma_volumes_nonneg(sizes.drop_last());
    }
}

/// Smaller volumes hold less together.
proof fn lemma_volumes_at_most(a: Seq<u64>, b: Seq<u64>)
    requires
        a.len() == b.len(),
        forall|i: int| 0 <= i < a.len() ==> (#[trigger] a[i]) <= b[i],
    ensures
        volumes_total(a) <= volumes_total(b),
    decreases a.len(),
{
    if a.len() > 0 {
        assert(a[a.len() - 1] <= b[b.len() - 1]);
        assert forall|i: int| 0 <= i < a.drop_last().len() implies (#[trigger] a.drop_last()[i])
            <= b.drop_last()[i] by {
            assert(a[i] <= b[i]);
        }
        lemma_volumes_at_most(a.drop_last(), b.drop_last());
    }
}

/// What has been handled and what is left of the volume fit the plan.
proof fn lemma_handled_bound(r: ForwardRun)
    requires
        r.wf(),
        !r.done(),
    ensures
        r.merged_offset + r.remaining <= volumes_total(r.plan@),
{
    let n = r.written@.len() as int;
    lemma_volumes_at_most(r.written@, r.plan@.take(n));
    lemma_volumes_prefix(r.plan@, n + 1);
    assert(r.plan@.take(n + 1).drop_last() =~= r.plan@.take(n));
}

/// What the user is told when the tool has run.
pub fn forward_message(encrypt: bool, generated_secret: bool, volumes: usize) -> (out: String)
    ensures
        out@ == if !encrypt {
            "已切分为 "@ + decimal(volumes as nat) + " 个分卷 (未加密)。"@
        } else if generated_secret {
            "已加密。新生成的合并密钥 (secret) 见下方,请立即复制保存,关闭后无法找回。"@
        } else {
            "已加密。"@
        },
{
    if !encrypt {
        join3("已切分为 ", decimal_text(volumes as u64).as_str(), " 个分卷 (未加密)。")
    } else if generated_secret {
        "已加密。新生成的合并密钥 (secret) 见下方,请立即复制保存,关闭后无法找回。".to_owned()
    } else {
        "已加密。".to_owned()
    }
}

// ---------------------------------------------------------------------------
// The plugin

pub struct ChaCha20Plugin;

/// A field as it is described.
pub open spec fn describes(
    f: ConfigField,
    key: Seq<char>,
    label: Seq<char>,
    kind: FieldKind,
    hint: Seq<char>,
    required: bool,
) -> bool {
    &&& f.key@ == key
    &&& f.label@ == label
    &&& f.kind == kind
    &&& crate::text::opt_view(f.hint) == Some(hint)
    &&& f.required == required
    &&& f.default_filename is None
}

fn field(key: &str, label: &str, kind: FieldKind, hint: &str, required: bool) -> (out: ConfigField)
    ensures
        describes(out, key@, label@, kind, hint@, required),
        out.generate_random_bytes is None,
        out.path_mode is None,
        out.options is None,
{
    ConfigField {
        key: key.to_owned(),
        label: label.to_owned(),
        kind,
        hint: Some(hint.to_owned()),
        required,
        generate_random_bytes: None,
        default_filename: None,
        path_mode: None,
        options: None,
    }
}

impl ChaCha20Plugin {
    pub fn id(&self) -> (out: &'static str)
        ensures
            out@ == "chacha20"@,
    {
        "chacha20"
    }

    pub fn name(&self) -> (out: &'static str)
        ensures
            out@ == "ChaCha20 加解密"@,
    {
        "ChaCha20 加解密"
    }

    pub fn description(&self) -> (out: &'static str)
        ensures
            out@
                == "用 ChaCha20 流密码加密源文件后分发,代理时按密钥+nonce 实时解密。分卷顺序保持即可任意分合 (按合并后字节偏移寻址 keystream)。"@,
    {
        "用 ChaCha20 流密码加密源文件后分发,代理时按密钥+nonce 实时解密。分卷顺序保持即可任意分合 (按合并后字节偏移寻址 keystream)。"
    }

    /// The form of the settings that hold for every task.
    pub fn global_fields(&self) -> (out: Vec<ConfigField>)
        ensures
            out@.len() == 1,
            describes(
                out@[0],
                "buffer_size"@,
                "正向工具 I/O 缓冲"@,
                FieldKind::Size,
                "加密时一次读写多少字节,影响磁盘吞吐(类似 SSD 块大小);默认 64K,可用 4K..64M,单位可写 K/M/G"@,
                false,
            ),
            out@[0].generate_random_bytes is None,
            out@[0].path_mode is None,
            out@[0].options is None,
    {
        vec![
            field(
                "buffer_size",
                "正向工具 I/O 缓冲",
                FieldKind::Size,
                "加密时一次读写多少字节,影响磁盘吞吐(类似 SSD 块大小);默认 64K,可用 4K..64M,单位可写 K/M/G",
                false,
            ),
        ]
    }

    /// The form of a task's settings.
    pub fn task_fields(&self) -> (out: Vec<ConfigField>)
        ensures
            out@.len() == 1,
            describes(
                out@[0],
                "secret"@,
                "解密密钥 (key+nonce 合并)"@,
                FieldKind::Hex,
                "88 个十六进制字符 = 32 字节 key 拼接 12 字节 nonce;一次分发一次粘贴,可点击🎲随机生成"@,
                true,
            ),
            out@[0].generate_random_bytes == Some(44u32),
            out@[0].path_mode is None,
            out@[0].options is None,
    {
        let mut f: ConfigField = field(
            "secret",
            "解密密钥 (key+nonce 合并)",
            FieldKind::Hex,
            "88 个十六进制字符 = 32 字节 key 拼接 12 字节 nonce;一次分发一次粘贴,可点击🎲随机生成",
            true,
        );
        f.generate_random_bytes = Some(44);
        vec![f]
    }

    /// The form of the forward tool.
    pub fn forward_fields(&self) -> (out: Vec<ConfigField>)
        ensures
            out@.len() == 8,
            describes(
                out@[0],
                "input_path"@,
                "输入文件 (明文) 绝对路径"@,
                FieldKind::Path,
                "点击右侧📁选择;或手动粘贴绝对路径"@,
                true,
            ),
            out@[0].path_mode is Some && out@[0].path_mode->0@ == "open"@,
            describes(
                out@[1],
                "output_dir"@,
                "输出目录"@,
                FieldKind::DirPath,
                "不存在会自动创建"@,
                true,
            ),
            describes(
                out@[2],
                "filename_prefix"@,
                "文件名前缀"@,
                FieldKind::Text,
                "留空则使用输入文件的基名（无扩展名）"@,
                false,
            ),
            describes(
                out@[3],
                "volume_suffix"@,
                "分卷后缀模板"@,
                FieldKind::Text,
                "{N} 会被替换为零填充的卷号;留空时加密模式用 \".part{N}.enc\",纯分卷用 \".part{N}\""@,
                false,
            ),
            describes(
                out@[4],
                "max_volume_size"@,
                "分卷最大大小"@,
                FieldKind::Size,
                "留空或 0 = 单文件;支持 5M / 512K / 1G 这种写法"@,
                false,
            ),
            describes(
                out@[5],
                "split_mode"@,
                "分卷策略"@,
                FieldKind::Select,
                "随机大小适合伪装分发;固定大小最后一卷为余数"@,
                false,
            ),
            out@[5].options is Some,
            out@[5].options->0@.len() == 2,
            out@[5].options->0@[0].value@ == "random"@,
            out@[5].options->0@[0].label@ == "随机大小 (默认,最大/2 ~ 最大区间)"@,
            out@[5].options->0@[1].value@ == "fixed"@,
            out@[5].options->0@[1].label@ == "固定大小 (严格按最大,最后一卷为余数)"@,
            describes(
                out@[6],
                "encrypt"@,
                "启用 ChaCha20 加密"@,
                FieldKind::Boolean,
                "取消勾选 = 仅按规则切分输入文件,不加密 (此时密钥/Nonce 字段被忽略)"@,
                false,
            ),
            describes(
                out@[7],
                "generate_missing"@,
                "自动生成缺失的密钥/Nonce"@,
                FieldKind::Boolean,
                "勾选后,点击执行前 UI 会客户端随机生成并回填到上方两个字段,便于复制保存"@,
                false,
            ),
            forall|i: int| 0 <= i < 8 ==> (#[trigger] out@[i]).generate_random_bytes is None,
            forall|i: int| 0 < i < 8 ==> (#[trigger] out@[i]).path_mode is None,
            forall|i: int| 0 <= i < 8 && i != 5 ==> (#[trigger] out@[i]).options is None,
    {
        let mut input: ConfigField = field(
            "input_path",
            "输入文件 (明文) 绝对路径",
            FieldKind::Path,
            "点击右侧📁选择;或手动粘贴绝对路径",
            true,
        );
        input.path_mode = Some("open");
        let mut mode: ConfigField = field(
            "split_mode",
            "分卷策略",
            FieldKind::Select,
            "随机大小适合伪装分发;固定大小最后一卷为余数",
            false,
        );
        mode.options =
        Some(
            vec![
                SelectOption {
                    value: "random".to_owned(),
                    label: "随机大小 (默认,最大/2 ~ 最大区间)".to_owned(),
                },
                SelectOption {
                    value: "fixed".to_owned(),
                    label: "固定大小 (严格按最大,最后一卷为余数)".to_owned(),
                },
            ],
        );
        vec![
            input,
            field("output_dir", "输出目录", FieldKind::DirPath, "不存在会自动创建", true),
            field(
                "filename_prefix",
                "文件名前缀",
                FieldKind::Text,
                "留空则使用输入文件的基名（无扩展名）",
                false,
            ),
            field(
                "volume_suffix",
                "分卷后缀模板",
                FieldKind::Text,
                "{N} 会被替换为零填充的卷号;留空时加密模式用 \".part{N}.enc\",纯分卷用 \".part{N}\"",
                false,
            ),
            field(
                "max_volume_size",
                "分卷最大大小",
                FieldKind::Size,
                "留空或 0 = 单文件;支持 5M / 512K / 1G 这种写法",
                false,
            ),
            mode,
            field(
                "encrypt",
                "启用 ChaCha20 加密",
                FieldKind::Boolean,
                "取消勾选 = 仅按规则切分输入文件,不加密 (此时密钥/Nonce 字段被忽略)",
                false,
            ),
            field(
                "generate_missing",
                "自动生成缺失的密钥/Nonce",
                FieldKind::Boolean,
                "勾选后,点击执行前 UI 会客户端随机生成并回填到上方两个字段,便于复制保存",
                false,
            ),
        ]
    }

    pub fn has_forward(&self) -> (out: bool)
        ensures
            out,
    {
        true
    }

    pub fn default_global_config(&self) -> (out: GlobalCfg)
        ensures
            out.buffer_size is Some,
            out.buffer_size->0 is Text,
            out.buffer_size->0->Text_0@ == "64K"@,
    {
        GlobalCfg { buffer_size: Some(SizeValue::Text("64K".to_owned())) }
    }

    pub fn default_task_config(&self) -> (out: TaskCfg)
        ensures
            out.secret is Some,
            out.secret->0@.len() == 0,
            out.key is None,
            out.nonce is None,
    {
        TaskCfg { secret: Some(String::new()), key: None, nonce: None }
    }

    /// The settings that hold for every task: a buffer inside its bounds.
    pub fn validate_global_config(&self, config: &GlobalCfg) -> (out: Result<(), String>)
        ensures
            match out {
                Ok(_) => config.buffer_size is None || (size_value(
                    config.buffer_size->0,
                    "buffer_size"@,
                ) is Ok && MIN_BUFFER <= size_value(config.buffer_size->0, "buffer_size"@)->Ok_0
                    <= MAX_BUFFER),
                Err(e) => config.buffer_size is Some && match size_value(
                    config.buffer_size->0,
                    "buffer_size"@,
                ) {
                    Ok(n) => !(MIN_BUFFER <= n <= MAX_BUFFER) && e@
                        == "buffer_size must be between 4 KiB and 64 MiB"@,
                    Err(f) => e@ == f,
                },
            },
    {
        if let Some(raw) = &config.buffer_size {
            match coerce_size(raw, "buffer_size") {
                Ok(b) => {
                    if b < MIN_BUFFER || b > MAX_BUFFER {
                        return Err("buffer_size must be between 4 KiB and 64 MiB".to_owned());
                    }
                },
                Err(e) => {
                    return Err(e);
                },
            }
        }
        Ok(())
    }

    /// A task's settings: they must hold a secret.
    pub fn validate_task_config(&self, task: &TaskCfg) -> (out: Result<(), String>)
        ensures
            out is Ok <==> task.resolved() is Ok && task.resolved()->Ok_0 is Some,
            out is Err && task.resolved() is Err ==> out->Err_0@ == task.resolved()->Err_0,
            out is Err && task.resolved() is Ok ==> out->Err_0@
                == "task.secret is required (88 hex chars = 32-byte key + 12-byte nonce); the legacy `key` + `nonce` pair is also accepted"@,
    {
        match resolve_secret(task) {
            Ok(_) => Ok(()),
            Err(e) => Err(e),
        }
    }

    /// The transform for a task.
    pub fn build_transform(&self, task: &TaskCfg) -> (out: Result<ChaCha20Transform, String>)
        ensures
            match (out, task.resolved()) {
                (Ok(t), Ok(Some((k, n)))) => t.key@ == k && t.nonce@ == n,
                (
                    Err(e),
                    Ok(None),
                ) => e@
                    == "task.secret is required (88 hex chars = 32-byte key + 12-byte nonce); the legacy `key` + `nonce` pair is also accepted"@,
                (Err(e), Err(f)) => e@ == f,
                _ => false,
            },
    {
        match resolve_secret(task) {
            Ok((key, nonce)) => Ok(ChaCha20Transform { key, nonce }),
            Err(e) => Err(e),
        }
    }
}

} // verus!
