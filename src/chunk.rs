//! Chunked file content: a file's bytes split into fixed-size chunks keyed
//! by their start offset, with chunk-aligned read/modify/write and
//! truncation. Offsets past a chunk's stored length, and chunks that are
//! absent, read as zeros.
use std::collections::HashMap;
use vstd::prelude::*;
use vstd::std_specs::hash::spec_keys_iter;
use vstd::std_specs::iter::IteratorSpec;
use vstd::arithmetic::div_mod::{
    lemma_fundamental_div_mod, lemma_fundamental_div_mod_converse, lemma_mod_add_multiples_vanish,
};
use vstd::arithmetic::mul::lemma_mul_is_commutative;
use crate::bytes::{resize_bytes, spec_read_range, spec_resize, spec_write_bytes};

verus! {

broadcast use vstd::std_specs::hash::group_hash_axioms;

/// Default chunk size in bytes.
pub const DEFAULT_CHUNK_SIZE: usize = 4096;

/// The start of the chunk that holds offset `p`.
pub open spec fn chunk_base(p: int, c: int) -> int {
    p - p % c
}

/// The byte at offset `p` of a file stored as chunk map `m`.
pub open spec fn byte_at(m: Map<u64, Vec<u8>>, c: int, p: int) -> u8 {
    let co = chunk_base(p, c);
    if m.contains_key(co as u64) && p - co < m[co as u64]@.len() {
        m[co as u64]@[p - co]
    } else {
        0u8
    }
}

/// The first `n` bytes of a file stored as chunk map `m`.
pub open spec fn content_of(m: Map<u64, Vec<u8>>, c: int, n: int) -> Seq<u8> {
    Seq::new(n as nat, |p: int| byte_at(m, c, p))
}

/// Every chunk starts at a multiple of `c`, holds between 1 and `c`
/// bytes, and ends at or before `n`.
pub open spec fn chunks_ok(m: Map<u64, Vec<u8>>, c: int, n: int) -> bool {
    forall|off: u64| #[trigger] m.contains_key(off) ==> {
        &&& off as int % c == 0
        &&& 0 < m[off]@.len() <= c
        &&& off + m[off]@.len() <= n
    }
}

/// The chunk at `off` takes part in a write of `len` bytes at `offset`.
pub open spec fn touched(off: int, c: int, offset: int, len: int) -> bool {
    len > 0 && off % c == 0 && off < offset + len && offset < off + c
}

/// The stored length of the chunk at `off` in a file of `n` bytes: a full
/// chunk, or what is left of the file when that is less.
pub open spec fn stored_len(off: int, c: int, n: int) -> int {
    if n - off < c { n - off } else { c }
}

/// The chunk start offsets that a truncation to `n` keeps: those below
/// `n` rounded up to a multiple of `c`.
pub open spec fn truncate_cutoff(n: int, c: int) -> int {
    if n % c == 0 { n } else { chunk_base(n, c) + c }
}

proof fn lemma_base(p: int, c: int)
    requires
        p >= 0,
        c > 0,
    ensures
        0 <= p % c < c,
        chunk_base(p, c) % c == 0,
        0 <= chunk_base(p, c) <= p < chunk_base(p, c) + c,
{
    lemma_fundamental_div_mod(p, c);
    lemma_mul_is_commutative(c, p / c);
    lemma_fundamental_div_mod_converse(chunk_base(p, c), c, p / c, 0);
}

proof fn lemma_next_chunk(co: int, c: int)
    requires
        c > 0,
        co % c == 0,
    ensures
        (co + c) % c == 0,
{
    lemma_mod_add_multiples_vanish(co, c);
}

proof fn lemma_in_chunk(p: int, co: int, c: int)
    requires
        c > 0,
        co >= 0,
        co % c == 0,
        co <= p < co + c,
    ensures
        chunk_base(p, c) == co,
{
    lemma_fundamental_div_mod(co, c);
    lemma_mul_is_commutative(c, co / c);
    lemma_fundamental_div_mod_converse(p, c, co / c, p - co);
}

proof fn lemma_multiple_gap(k: int, a: int, c: int)
    requires
        c > 0,
        k >= 0,
        k % c == 0,
        a % c == 0,
        k < a,
    ensures
        k + c <= a,
{
    lemma_fundamental_div_mod(k, c);
    lemma_fundamental_div_mod(a, c);
    let q1 = k / c;
    let q2 = a / c;
    assert(q1 < q2) by (nonlinear_arith)
        requires
            k == c * q1,
            a == c * q2,
            k < a,
            c > 0,
    ;
    assert(c * q1 + c <= c * q2) by (nonlinear_arith)
        requires
            q1 < q2,
            c > 0,
    ;
}

/// Past the end that every chunk respects, the content reads as zeros.
proof fn lemma_beyond(m: Map<u64, Vec<u8>>, c: int, n: int, p: int)
    requires
        c > 0,
        p >= n,
        p >= 0,
        p <= u64::MAX,
        chunks_ok(m, c, n),
    ensures
        byte_at(m, c, p) == 0u8,
{
    lemma_base(p, c);
    let co = chunk_base(p, c);
    if m.contains_key(co as u64) {
        assert(co as u64 + m[co as u64]@.len() <= n);
    }
}

/// One step of a chunked write: chunk `co`, which holds offset `abs`, gets
/// `n` more bytes of `data`.
proof fn lemma_write_step(
    m: Map<u64, Vec<u8>>,
    c: int,
    s0: int,
    oc: Seq<u8>,
    offset: int,
    data: Seq<u8>,
    written: int,
    n: int,
    buf: Vec<u8>,
)
    requires
        c > 0,
        0 <= s0 <= u64::MAX,
        offset >= 0,
        oc.len() == s0,
        0 <= written,
        0 < n,
        written + n <= data.len(),
        offset + data.len() <= u64::MAX,
        chunks_ok(m, c, if s0 < offset + written { offset + written } else { s0 }),
        content_of(m, c, if s0 < offset + written { offset + written } else { s0 })
            == spec_write_bytes(oc, offset, data.subrange(0, written)),
        offset + written - chunk_base(offset + written, c) + n <= c,
        ({
            let abs = offset + written;
            let co = chunk_base(abs, c);
            let in_chunk = abs - co;
            let ns = if s0 < abs + n { abs + n } else { s0 };
            let stored = if ns - co < c { ns - co } else { c };
            let ex = if m.contains_key(co as u64) { Some(m[co as u64]) } else { None::<Vec<u8>> };
            &&& buf@.len() == stored
            &&& forall|q: int| 0 <= q < stored ==> #[trigger] buf@[q] == if in_chunk <= q < in_chunk + n {
                data[written + q - in_chunk]
            } else {
                padded_byte(ex, q)
            }
        }),
    ensures
        ({
            let abs = offset + written;
            let co = chunk_base(abs, c);
            let ns = if s0 < abs + n { abs + n } else { s0 };
            let m2 = m.insert(co as u64, buf);
            &&& chunks_ok(m2, c, ns)
            &&& content_of(m2, c, ns) == spec_write_bytes(oc, offset, data.subrange(0, written + n))
        }),
{
    let abs = offset + written;
    lemma_base(abs, c);
    let co = chunk_base(abs, c);
    let in_chunk = abs - co;
    let cur = if s0 < abs { abs } else { s0 };
    let ns = if s0 < abs + n { abs + n } else { s0 };
    let stored = if ns - co < c { ns - co } else { c };
    let ex = if m.contains_key(co as u64) { Some(m[co as u64]) } else { None::<Vec<u8>> };
    let m2 = m.insert(co as u64, buf);
    let prev = spec_write_bytes(oc, offset, data.subrange(0, written));
    let next = spec_write_bytes(oc, offset, data.subrange(0, written + n));
    assert forall|off: u64| #[trigger] m2.contains_key(off) implies {
        &&& off as int % c == 0
        &&& 0 < m2[off]@.len() <= c
        &&& off + m2[off]@.len() <= ns
    } by {
        if off != co as u64 {
            assert(m.contains_key(off));
        }
    }
    assert forall|p: int| 0 <= p < ns implies #[trigger] content_of(m2, c, ns)[p] == next[p] by {
        lemma_base(p, c);
        let pb = chunk_base(p, c);
        if co <= p < co + c {
            lemma_in_chunk(p, co, c);
            assert(p - co < stored);
            if abs <= p < abs + n {
                assert(data.subrange(0, written + n)[p - offset] == data[p - offset]);
            } else {
                assert(p < cur);
                assert(content_of(m, c, cur)[p] == prev[p]);
            }
        } else {
            assert(pb != co);
            assert(pb as u64 != co as u64);
            assert(p < cur);
            assert(content_of(m, c, cur)[p] == prev[p]);
            if offset <= p < abs {
                assert(data.subrange(0, written + n)[p - offset] == data.subrange(0, written)[p - offset]);
            }
        }
    }
    assert(content_of(m2, c, ns) =~= next);
}

/// Chunks outside the first `w` bytes written at `offset` are as in `m0`.
pub open spec fn untouched_kept(m: Map<u64, Vec<u8>>, m0: Map<u64, Vec<u8>>, c: int, offset: int, w: int) -> bool {
    forall|off: u64| #![trigger m.contains_key(off)]
        !touched(off as int, c, offset, w) ==> {
            &&& m.contains_key(off) == m0.contains_key(off)
            &&& m0.contains_key(off) ==> m[off] == m0[off]
        }
}

/// Every chunk within the first `w` bytes written at `offset` is stored,
/// with the length that a file of `n` bytes gives it.
pub open spec fn touched_stored(m: Map<u64, Vec<u8>>, c: int, offset: int, w: int, n: int) -> bool {
    forall|off: u64| #![trigger m.contains_key(off)]
        touched(off as int, c, offset, w) ==> {
            &&& m.contains_key(off)
            &&& m[off]@.len() == stored_len(off as int, c, n)
        }
}

proof fn lemma_write_bookkeeping(
    m0: Map<u64, Vec<u8>>,
    m: Map<u64, Vec<u8>>,
    buf: Vec<u8>,
    c: int,
    s0: int,
    offset: int,
    written: int,
    n: int,
)
    requires
        c > 0,
        offset >= 0,
        written >= 0,
        n > 0,
        offset + written + n <= u64::MAX,
        offset + written - chunk_base(offset + written, c) + n <= c,
        buf@.len() == stored_len(chunk_base(offset + written, c), c,
            if s0 < offset + written + n { offset + written + n } else { s0 }),
        untouched_kept(m, m0, c, offset, written),
        touched_stored(m, c, offset, written, if s0 < offset + written { offset + written } else { s0 }),
    ensures
        ({
            let m2 = m.insert(chunk_base(offset + written, c) as u64, buf);
            &&& untouched_kept(m2, m0, c, offset, written + n)
            &&& touched_stored(m2, c, offset, written + n,
                if s0 < offset + written + n { offset + written + n } else { s0 })
        }),
{
    let abs = offset + written;
    lemma_base(abs, c);
    let co = chunk_base(abs, c);
    let m2 = m.insert(co as u64, buf);
    let cur = if s0 < abs { abs } else { s0 };
    assert forall|off: u64| #![trigger m2.contains_key(off)] !touched(off as int, c, offset, written + n) implies {
        &&& m2.contains_key(off) == m0.contains_key(off)
        &&& m0.contains_key(off) ==> m2[off] == m0[off]
    } by {
        if off == co as u64 {
            assert(touched(off as int, c, offset, written + n));
        } else {
            assert(!touched(off as int, c, offset, written));
            assert(m.contains_key(off) == m0.contains_key(off));
        }
    }
    assert forall|off: u64| #![trigger m2.contains_key(off)] touched(off as int, c, offset, written + n) implies {
        &&& m2.contains_key(off)
        &&& m2[off]@.len() == stored_len(off as int, c, if s0 < abs + n { abs + n } else { s0 })
    } by {
        if off != co as u64 {
            if off > co {
                lemma_multiple_gap(co, off as int, c);
            }
            assert(off < co);
            lemma_multiple_gap(off as int, co, c);
            assert(touched(off as int, c, offset, written));
            assert(m.contains_key(off));
        }
    }
    assert(untouched_kept(m2, m0, c, offset, written + n));
    assert(touched_stored(m2, c, offset, written + n, if s0 < abs + n { abs + n } else { s0 }));
}

/// The bytes of one file in chunked form.
pub struct ChunkedFile {
    pub chunk_size: usize,
    pub size: u64,
    /// Chunk start offset to the chunk's stored bytes.
    pub chunks: HashMap<u64, Vec<u8>>,
}

/// The byte at `q` of an existing chunk padded with zeros.
pub open spec fn padded_byte(existing: Option<Vec<u8>>, q: int) -> u8 {
    match existing {
        Some(b) => if q < b@.len() { b@[q] } else { 0u8 },
        None => 0u8,
    }
}

/// Builds a chunk's new stored bytes: the existing chunk (or zeros),
/// padded to `c`, with `n` bytes of `src` from `from` copied in at
/// `in_chunk`, cut to `stored` bytes.
fn fill_chunk(
    existing: Option<Vec<u8>>,
    c: usize,
    in_chunk: usize,
    src: &[u8],
    from: usize,
    n: usize,
    stored: usize,
) -> (buf: Vec<u8>)
    requires
        in_chunk + n <= c,
        from + n <= src@.len(),
        stored <= c,
        existing matches Some(b) ==> b@.len() <= c,
    ensures
        buf@.len() == stored,
        forall|q: int| 0 <= q < stored ==> #[trigger] buf@[q] == if in_chunk <= q < in_chunk + n {
            src@[from + q - in_chunk]
        } else {
            padded_byte(existing, q)
        },
{
    let ghost ex = existing;
    let mut buf = match existing {
        Some(b) => b,
        None => Vec::new(),
    };
    let ghost b0 = buf@;
    assert(forall|q: int| 0 <= q < b0.len() ==> padded_byte(ex, q) == b0[q]);
    while buf.len() < c
        invariant
            b0.len() <= buf@.len() <= c,
            forall|q: int| 0 <= q < buf@.len() ==> #[trigger] buf@[q] == padded_byte(ex, q),
            forall|q: int| 0 <= q < b0.len() ==> padded_byte(ex, q) == b0[q],
            forall|q: int| b0.len() <= q ==> padded_byte(ex, q) == 0u8,
        decreases c - buf@.len(),
    {
        buf.push(0u8);
    }
    let src_len = src.len();
    let mut k: usize = 0;
    while k < n
        invariant
            in_chunk + n <= c,
            from + n <= src_len,
            src_len == src@.len(),
            k <= n,
            buf@.len() == c,
            forall|q: int| 0 <= q < c ==> #[trigger] buf@[q] == if in_chunk <= q < in_chunk + k {
                src@[from + q - in_chunk]
            } else {
                padded_byte(ex, q)
            },
        decreases n - k,
    {
        assert(from + k < from + n);
        buf.set(in_chunk + k, src[from + k]);
        k = k + 1;
    }
    buf.truncate(stored);
    buf
}

impl ChunkedFile {
    pub open spec fn wf(&self) -> bool {
        &&& self.chunk_size > 0
        &&& chunks_ok(self.chunks@, self.chunk_size as int, self.size as int)
    }

    /// The file's bytes.
    pub open spec fn content(&self) -> Seq<u8> {
        content_of(self.chunks@, self.chunk_size as int, self.size as int)
    }

    /// An empty file with chunks of `chunk_size` bytes.
    pub fn new(chunk_size: usize) -> (r: ChunkedFile)
        requires
            chunk_size > 0,
        ensures
            r.wf(),
            r.chunk_size == chunk_size,
            r.size == 0,
            r.chunks@ == Map::<u64, Vec<u8>>::empty(),
    {
        ChunkedFile { chunk_size, size: 0, chunks: HashMap::new() }
    }

    /// A file of `size` bytes with chunks of `chunk_size` bytes and no chunk
    /// stored yet: all of it reads as zeros until chunks are loaded.
    pub fn with_size(chunk_size: usize, size: u64) -> (r: ChunkedFile)
        requires
            chunk_size > 0,
        ensures
            r.wf(),
            r.chunk_size == chunk_size,
            r.size == size,
            r.chunks@ == Map::<u64, Vec<u8>>::empty(),
    {
        ChunkedFile { chunk_size, size, chunks: HashMap::new() }
    }

    /// Stores chunk `data` at `off` when it is a valid chunk of this file
    /// (aligned, 1 to `chunk_size` bytes, ending within the file); returns
    /// whether it was stored.
    pub fn insert_chunk(&mut self, off: u64, data: Vec<u8>) -> (ok: bool)
        requires
            old(self).wf(),
        ensures
            final(self).wf(),
            final(self).chunk_size == old(self).chunk_size,
            final(self).size == old(self).size,
            ok == (off as int % old(self).chunk_size as int == 0 && 0 < data@.len() <= old(self).chunk_size
                && off + data@.len() <= old(self).size),
            ok ==> final(self).chunks@ == old(self).chunks@.insert(off, data),
            !ok ==> final(self).chunks@ == old(self).chunks@,
    {
        let c = self.chunk_size as u64;
        if off % c == 0 && 0 < data.len() && data.len() <= self.chunk_size && (data.len() as u64) <= self.size
            && off <= self.size - data.len() as u64 {
            self.chunks.insert(off, data);
            true
        } else {
            false
        }
    }

    /// Reads up to `size` bytes from `offset`, clamped to the file's end:
    /// each chunk in range contributes its stored bytes, and everything
    /// else reads as zeros.
    pub fn read(&self, offset: u64, size: u64) -> (r: Vec<u8>)
        requires
            self.wf(),
        ensures
            r@ == spec_read_range(self.content(), offset as int, size as int),
    {
        let ghost cont = self.content();
        let c = self.chunk_size as u64;
        if offset >= self.size {
            assert(spec_read_range(cont, offset as int, size as int) =~= Seq::<u8>::empty());
            return Vec::new();
        }
        let avail = self.size - offset;
        let clamped: u64 = if size < avail { size } else { avail };
        let end: u64 = offset + clamped;
        let mut r: Vec<u8> = Vec::new();
        while (r.len() as u64) < clamped
            invariant
                r@.len() <= clamped,
                forall|j: int| 0 <= j < r@.len() ==> r@[j] == 0u8,
            decreases clamped - r@.len(),
        {
            r.push(0u8);
        }
        proof {
            lemma_base(offset as int, c as int);
        }
        let mut co: u64 = offset - offset % c;
        while co < end
            invariant
                self.wf(),
                c == self.chunk_size,
                cont == self.content(),
                end == offset + clamped,
                end <= self.size,
                r@.len() == clamped,
                co as int % c as int == 0 || co == end,
                co <= end,
                forall|j: int| 0 <= j < clamped ==> #[trigger] r@[j] == if offset + j < co {
                    cont[offset + j]
                } else {
                    0u8
                },
            decreases end - co,
        {
            let ghost r0 = r@;
            match self.chunks.get(&co) {
                Some(chunk) => {
                    let clen: usize = chunk.len();
                    let rlen: usize = r.len();
                    let cend: u64 = co + clen as u64;
                    let lo: u64 = if co > offset { co } else { offset };
                    let hi: u64 = if cend < end { cend } else { end };
                    let mut p: u64 = lo;
                    while p < hi
                        invariant
                            self.chunks@.contains_key(co),
                            *chunk == self.chunks@[co],
                            cend == co + chunk@.len(),
                            clen == chunk@.len(),
                            rlen == r@.len(),
                            lo <= p,
                            p <= hi || p == lo,
                            offset <= lo,
                            co <= lo,
                            lo == (if co > offset { co } else { offset }),
                            hi <= cend && hi <= end,
                            end == offset + clamped,
                            r@.len() == clamped,
                            r0.len() == clamped,
                            forall|j: int| 0 <= j < clamped ==> #[trigger] r@[j] == if lo <= offset + j < p {
                                chunk@[offset + j - co]
                            } else {
                                r0[j]
                            },
                        decreases hi - p,
                    {
                        assert(p - offset < rlen);
                        assert(p - co < clen);
                        r.set((p - offset) as usize, chunk[(p - co) as usize]);
                        p = p + 1;
                    }
                    proof {
                        assert forall|j: int| 0 <= j < clamped implies #[trigger] r@[j] == if offset + j < co + c {
                            cont[offset + j]
                        } else {
                            0u8
                        } by {
                            let pj = offset + j;
                            assert(pj < end);
                            if co <= pj < co + c {
                                lemma_in_chunk(pj, co as int, c as int);
                                assert(cont[pj] == byte_at(self.chunks@, c as int, pj));
                                if pj < cend {
                                    assert(lo <= pj < hi);
                                    assert(r@[j] == chunk@[pj - co]);
                                } else {
                                    assert(r@[j] == r0[j]);
                                }
                            } else if pj < co {
                                assert(r@[j] == r0[j]);
                            } else {
                                assert(r@[j] == r0[j]);
                            }
                        }
                    }
                },
                None => {
                    proof {
                        assert forall|j: int| 0 <= j < clamped implies #[trigger] r@[j] == if offset + j < co + c {
                            cont[offset + j]
                        } else {
                            0u8
                        } by {
                            let pj = offset + j;
                            if co <= pj < co + c {
                                lemma_in_chunk(pj, co as int, c as int);
                            }
                        }
                    }
                },
            }
            if end - co <= c {
                co = end;
            } else {
                proof {
                    lemma_next_chunk(co as int, c as int);
                }
                co = co + c;
            }
        }
        proof {
            assert(r@ =~= spec_read_range(cont, offset as int, size as int));
        }
        r
    }

    /// Writes `data` at `offset` chunk by chunk: each chunk in range is
    /// loaded (or started as zeros), padded to the chunk size, patched, cut
    /// to the file's new end and stored back.
    #[verifier::rlimit(50)]
    pub fn write(&mut self, offset: u64, data: &[u8])
        requires
            old(self).wf(),
            offset + data@.len() <= u64::MAX,
        ensures
            final(self).wf(),
            final(self).chunk_size == old(self).chunk_size,
            final(self).size == (if old(self).size < offset + data@.len() {
                offset + data@.len()
            } else {
                old(self).size as int
            }),
            final(self).content() == spec_write_bytes(old(self).content(), offset as int, data@),
            untouched_kept(final(self).chunks@, old(self).chunks@, old(self).chunk_size as int, offset as int,
                data@.len() as int),
            touched_stored(final(self).chunks@, old(self).chunk_size as int, offset as int, data@.len() as int,
                final(self).size as int),
    {
        let ghost oc = self.content();
        let ghost s0 = self.size as int;
        let ghost m0 = self.chunks@;
        let c = self.chunk_size as u64;
        let len = data.len();
        let mut written: usize = 0;
        proof {
            let cur = if s0 < offset { offset as int } else { s0 };
            assert forall|off: u64| #[trigger] m0.contains_key(off) implies {
                &&& off as int % c as int == 0
                &&& 0 < m0[off]@.len() <= c
                &&& off + m0[off]@.len() <= cur
            } by {}
            assert forall|p: int| 0 <= p < cur implies #[trigger] content_of(m0, c as int, cur)[p]
                == spec_write_bytes(oc, offset as int, data@.subrange(0, 0))[p] by {
                if p >= s0 {
                    lemma_beyond(m0, c as int, s0, p);
                }
            }
            assert(content_of(m0, c as int, cur) =~= spec_write_bytes(oc, offset as int, data@.subrange(0, 0)));
        }
        while written < len
            invariant
                c == self.chunk_size,
                c > 0,
                self.size == s0,
                oc.len() == s0,
                len == data@.len(),
                written <= len,
                offset + len <= u64::MAX,
                chunks_ok(self.chunks@, c as int, if s0 < offset + written { offset + written } else { s0 }),
                content_of(self.chunks@, c as int, if s0 < offset + written { offset + written } else { s0 })
                    == spec_write_bytes(oc, offset as int, data@.subrange(0, written as int)),
                untouched_kept(self.chunks@, m0, c as int, offset as int, written as int),
                touched_stored(self.chunks@, c as int, offset as int, written as int,
                    if s0 < offset + written { offset + written } else { s0 }),
            decreases len - written,
        {
            let abs: u64 = offset + written as u64;
            proof {
                lemma_base(abs as int, c as int);
            }
            let in_chunk: u64 = abs % c;
            let chunk_off: u64 = abs - in_chunk;
            let room: u64 = c - in_chunk;
            let remaining: u64 = (len - written) as u64;
            let n: u64 = if room < remaining { room } else { remaining };
            let new_size: u64 = if self.size < abs + n { abs + n } else { self.size };
            let stored: u64 = if new_size - chunk_off < c { new_size - chunk_off } else { c };
            let ghost m = self.chunks@;
            let existing = self.chunks.remove(&chunk_off);
            proof {
                if m.contains_key(chunk_off) {
                    assert(m[chunk_off]@.len() <= c);
                }
            }
            let buf = fill_chunk(existing, c as usize, in_chunk as usize, data, written, n as usize, stored as usize);
            proof {
                lemma_write_step(m, c as int, s0, oc, offset as int, data@, written as int, n as int, buf);
            }
            self.chunks.insert(chunk_off, buf);
            proof {
                assert(self.chunks@ == m.insert(chunk_off, buf));
                lemma_write_bookkeeping(m0, m, buf, c as int, s0, offset as int, written as int, n as int);
            }
            written = written + n as usize;
        }
        self.size = if self.size < offset + len as u64 { offset + len as u64 } else { self.size };
        proof {
            assert(data@.subrange(0, len as int) =~= data@);
            assert(untouched_kept(self.chunks@, m0, c as int, offset as int, len as int));
            assert(touched_stored(self.chunks@, c as int, offset as int, len as int, self.size as int));
        }
    }

    /// Sets the file's length to `new_size`: drops every chunk at or past
    /// `new_size` rounded up to the chunk size, and cuts or zero-pads the
    /// chunk that holds the new end.
    pub fn truncate(&mut self, new_size: u64)
        requires
            old(self).wf(),
        ensures
            final(self).wf(),
            final(self).chunk_size == old(self).chunk_size,
            final(self).size == new_size,
            final(self).content() == spec_resize(old(self).content(), new_size as int),
            forall|off: u64| #[trigger] final(self).chunks@.contains_key(off) ==>
                off < truncate_cutoff(new_size as int, old(self).chunk_size as int),
            new_size as int % old(self).chunk_size as int != 0 && old(self).chunks@.contains_key(
                chunk_base(new_size as int, old(self).chunk_size as int) as u64) ==> {
                let b = chunk_base(new_size as int, old(self).chunk_size as int) as u64;
                &&& final(self).chunks@.contains_key(b)
                &&& final(self).chunks@[b]@.len() == new_size as int % old(self).chunk_size as int
            },
    {
        let ghost oc = self.content();
        let ghost m0 = self.chunks@;
        let c = self.chunk_size as u64;
        proof {
            lemma_base(new_size as int, c as int);
        }
        let aligned: u64 = new_size - new_size % c;
        let partial: bool = new_size % c != 0;
        // chunks at or past `start` go
        let start: u64 = if !partial {
            aligned
        } else if u64::MAX - aligned < c {
            u64::MAX
        } else {
            aligned + c
        };
        proof {
            if partial && (u64::MAX - aligned) >= c {
                lemma_next_chunk(aligned as int, c as int);
            }
        }
        let doomed = keys_from(&self.chunks, start);
        let mut i: usize = 0;
        while i < doomed.len()
            invariant
                c == self.chunk_size,
                c > 0,
                self.size == old(self).size,
                i <= doomed@.len(),
                forall|j: int| 0 <= j < doomed@.len() ==> doomed@[j] >= start,
                forall|k: u64| m0.contains_key(k) && k >= start ==> doomed@.contains(k),
                forall|k: u64| #[trigger] self.chunks@.contains_key(k) ==> m0.contains_key(k) && self.chunks@[k] == m0[k],
                forall|k: u64| #[trigger] m0.contains_key(k) && k < start ==> self.chunks@.contains_key(k),
                forall|j: int| 0 <= j < i ==> !self.chunks@.contains_key(#[trigger] doomed@[j]),
            decreases doomed@.len() - i,
        {
            self.chunks.remove(&doomed[i]);
            i = i + 1;
        }
        let ghost m1 = self.chunks@;
        proof {
            assert forall|k: u64| #[trigger] m1.contains_key(k) implies m0.contains_key(k) && k < start && m1[k] == m0[k] by {
                if k >= start {
                    assert(doomed@.contains(k));
                    let j = choose|j: int| 0 <= j < doomed@.len() && doomed@[j] == k;
                    assert(!m1.contains_key(doomed@[j]));
                }
            }
        }
        if partial {
            let removed = self.chunks.remove(&aligned);
            if let Some(mut buf) = removed {
                resize_bytes(&mut buf, (new_size - aligned) as usize);
                self.chunks.insert(aligned, buf);
            }
        }
        self.size = new_size;
        proof {
            let m2 = self.chunks@;
            // what survives besides the chunk at the new end
            assert forall|k: u64| #[trigger] m2.contains_key(k) && !(partial && k == aligned) implies
                m1.contains_key(k) && m2[k] == m0[k] && k < aligned by {
                assert(m1.contains_key(k));
                if k >= aligned {
                    if k > aligned {
                        lemma_multiple_gap(aligned as int, k as int, c as int);
                    }
                }
            }
            assert forall|k: u64| #[trigger] m2.contains_key(k) implies {
                &&& k as int % c as int == 0
                &&& 0 < m2[k]@.len() <= c
                &&& k + m2[k]@.len() <= new_size
            } by {
                if !(partial && k == aligned) {
                    assert(m1.contains_key(k) && k < aligned);
                    lemma_multiple_gap(k as int, aligned as int, c as int);
                }
            }
            assert forall|k: u64| #[trigger] m2.contains_key(k) implies k < truncate_cutoff(new_size as int, c as int) by {
                if !(partial && k == aligned) {
                    assert(m1.contains_key(k) && k < aligned);
                }
            }
            assert forall|p: int| 0 <= p < new_size implies #[trigger] self.content()[p]
                == spec_resize(oc, new_size as int)[p] by {
                lemma_base(p, c as int);
                let pb = chunk_base(p, c as int);
                if p >= old(self).size {
                    lemma_beyond(m0, c as int, old(self).size as int, p);
                }
                if pb < aligned {
                    assert(pb as u64 != aligned);
                    if m0.contains_key(pb as u64) {
                        assert(m1.contains_key(pb as u64));
                    }
                } else {
                    lemma_in_chunk(p, aligned as int, c as int);
                    if m0.contains_key(aligned) {
                        assert(m1.contains_key(aligned));
                    }
                }
            }
            assert(self.content() =~= spec_resize(oc, new_size as int));
        }
    }


    /// The first chunk offset that a truncation to `new_size` drops, or
    /// `u64::MAX` when that offset would not fit: no chunk lies there.
    pub fn cutoff(&self, new_size: u64) -> (r: u64)
        requires
            self.wf(),
        ensures
            truncate_cutoff(new_size as int, self.chunk_size as int) <= u64::MAX ==> r
                == truncate_cutoff(new_size as int, self.chunk_size as int),
            truncate_cutoff(new_size as int, self.chunk_size as int) > u64::MAX ==> r == u64::MAX,
    {
        let c = self.chunk_size as u64;
        proof {
            lemma_base(new_size as int, c as int);
        }
        let rem = new_size % c;
        if rem == 0 {
            new_size
        } else if u64::MAX - (new_size - rem) < c {
            u64::MAX
        } else {
            new_size - rem + c
        }
    }
}

/// The stored chunk offsets at or past `start`.
fn keys_from(m: &HashMap<u64, Vec<u8>>, start: u64) -> (r: Vec<u64>)
    ensures
        forall|k: u64| m@.contains_key(k) && k >= start ==> r@.contains(k),
        forall|j: int| 0 <= j < r@.len() ==> r@[j] >= start,
{
    let mut doomed: Vec<u64> = Vec::new();
    let ghost ks = spec_keys_iter(m).remaining().unref();
    proof {
        assert(ks.to_set() == m@.dom());
    }
    for k in it: m.keys()
        invariant
            ks == it.seq().unref(),
            ks.to_set() == m@.dom(),
            forall|j: int| 0 <= j < it.index() && ks[j] >= start ==> doomed@.contains(#[trigger] ks[j]),
            forall|j: int| 0 <= j < doomed@.len() ==> doomed@[j] >= start,
    {
        let ghost i = it.index();
        let ghost d0 = doomed@;
        if *k >= start {
            doomed.push(*k);
        }
        proof {
            assert(ks[i] == *k);
            assert forall|j: int| 0 <= j < i + 1 && ks[j] >= start implies doomed@.contains(#[trigger] ks[j]) by {
                if j < i {
                    assert(d0.contains(ks[j]));
                    let idx = choose|idx: int| 0 <= idx < d0.len() && d0[idx] == ks[j];
                    assert(doomed@[idx] == ks[j]);
                } else {
                    assert(doomed@[doomed@.len() - 1] == *k);
                }
            }
        }
    }
    proof {
        assert forall|k: u64| m@.contains_key(k) && k >= start implies doomed@.contains(k) by {
            assert(ks.to_set().contains(k));
            let j = choose|j: int| 0 <= j < ks.len() && ks[j] == k;
        }
    }
    doomed
}

} // verus!
