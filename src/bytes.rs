//! Byte-sequence operations shared by the backends: name comparison, the
//! osx-mode name filter, and the read and write semantics of file content.
use vstd::prelude::*;

verus! {

/// Compares two byte strings.
pub fn bytes_eq(a: &[u8], b: &[u8]) -> (r: bool)
    ensures
        r == (a@ == b@),
{
    if a.len() != b.len() {
        return false;
    }
    let mut i: usize = 0;
    while i < a.len()
        invariant
            a.len() == b.len(),
            i <= a.len(),
            a@.subrange(0, i as int) == b@.subrange(0, i as int),
        decreases a.len() - i,
    {
        if a[i] != b[i] {
            assert(a@[i as int] != b@[i as int]);
            return false;
        }
        assert(a@.subrange(0, i + 1) == a@.subrange(0, i as int).push(a@[i as int]));
        assert(b@.subrange(0, i + 1) == b@.subrange(0, i as int).push(b@[i as int]));
        i = i + 1;
    }
    assert(a@ == a@.subrange(0, a@.len() as int));
    assert(b@ == b@.subrange(0, b@.len() as int));
    true
}

/// A name that the osx-mode filter blocks: one that begins with `._`.
pub open spec fn spec_is_hidden(name: Seq<u8>) -> bool {
    name.len() >= 2 && name[0] == 0x2Eu8 && name[1] == 0x5Fu8
}

/// Tells whether `name` begins with `._`.
pub fn is_hidden_name(name: &[u8]) -> (r: bool)
    ensures
        r == spec_is_hidden(name@),
{
    name.len() >= 2 && name[0] == 0x2Eu8 && name[1] == 0x5Fu8
}

/// The bytes of `data` from `offset`, at most `size` of them; empty past the end.
pub open spec fn spec_read_range(data: Seq<u8>, offset: int, size: int) -> Seq<u8> {
    let start = if offset < data.len() { offset } else { data.len() as int };
    let end = if offset + size < data.len() { offset + size } else { data.len() as int };
    data.subrange(start, end)
}

/// Copies out the bytes of `data` in `[offset, offset + size)` that exist.
pub fn read_range(data: &[u8], offset: u64, size: u64) -> (r: Vec<u8>)
    ensures
        r@ == spec_read_range(data@, offset as int, size as int),
{
    let len = data.len() as u64;
    let start: u64 = if offset < len { offset } else { len };
    let end: u64 = if size < len && offset < len - size { offset + size } else { len };
    let mut r: Vec<u8> = Vec::new();
    let mut i: u64 = start;
    while i < end
        invariant
            start <= i <= end,
            end <= data.len(),
            r@ == data@.subrange(start as int, i as int),
        decreases end - i,
    {
        r.push(data[i as usize]);
        assert(data@.subrange(start as int, i + 1) == data@.subrange(start as int, i as int).push(
            data@[i as int],
        ));
        i = i + 1;
    }
    r
}

/// The content after writing `b` at `offset`: the old content is extended
/// with zeros up to `offset + |b|` if it is shorter, then `b` is spliced in.
pub open spec fn spec_write_bytes(data: Seq<u8>, offset: int, b: Seq<u8>) -> Seq<u8> {
    let end = offset + b.len();
    let len = if data.len() < end { end } else { data.len() as int };
    Seq::new(
        len as nat,
        |i: int|
            if offset <= i < end {
                b[i - offset]
            } else if i < data.len() {
                data[i]
            } else {
                0u8
            },
    )
}

/// Writes `b` into `data` at `offset`, zero-filling any gap.
pub fn write_bytes(data: &mut Vec<u8>, offset: u64, b: &[u8])
    requires
        offset + b.len() <= usize::MAX,
    ensures
        final(data)@ == spec_write_bytes(old(data)@, offset as int, b@),
{
    let end: usize = offset as usize + b.len();
    let ghost old_data = old(data)@;
    while data.len() < end
        invariant
            end == offset + b.len(),
            old_data.len() <= data.len(),
            data.len() <= end || data.len() == old_data.len(),
            data@.subrange(0, old_data.len() as int) == old_data,
            forall|k: int| old_data.len() <= k < data.len() ==> data@[k] == 0u8,
        decreases end - data.len(),
    {
        data.push(0u8);
    }
    proof {
        assert forall|k: int| 0 <= k < old_data.len() implies data@[k] == old_data[k] by {
            assert(data@.subrange(0, old_data.len() as int)[k] == old_data[k]);
        }
    }
    let mut i: usize = 0;
    while i < b.len()
        invariant
            end == offset + b.len(),
            i <= b.len(),
            data.len() == (if old_data.len() < end { end as int } else { old_data.len() as int }),
            forall|k: int|
                0 <= k < data.len() ==> #[trigger] data@[k] == (if offset <= k < offset + i {
                    b@[k - offset]
                } else if k < old_data.len() {
                    old_data[k]
                } else {
                    0u8
                }),
        decreases b.len() - i,
    {
        data.set(offset as usize + i, b[i]);
        i = i + 1;
    }
    proof {
        let expect = spec_write_bytes(old_data, offset as int, b@);
        assert(data@ =~= expect);
    }
}

/// The content after resizing to `len`: cut, or extended with zeros.
pub open spec fn spec_resize(data: Seq<u8>, len: int) -> Seq<u8> {
    Seq::new(len as nat, |i: int| if i < data.len() { data[i] } else { 0u8 })
}

/// Resizes `data` to `len` bytes, zero-filling when it grows.
pub fn resize_bytes(data: &mut Vec<u8>, len: usize)
    ensures
        final(data)@ == spec_resize(old(data)@, len as int),
{
    let ghost old_data = old(data)@;
    if len <= data.len() {
        data.truncate(len);
        assert(data@ =~= spec_resize(old_data, len as int));
    } else {
        while data.len() < len
            invariant
                old_data.len() <= data.len() <= len,
                data@.subrange(0, old_data.len() as int) == old_data,
                forall|k: int| old_data.len() <= k < data.len() ==> data@[k] == 0u8,
            decreases len - data.len(),
        {
            data.push(0u8);
            assert(data@.subrange(0, old_data.len() as int) == old_data);
        }
        assert forall|k: int| 0 <= k < len implies data@[k] == spec_resize(old_data, len as int)[k] by {
            if k < old_data.len() {
                assert(data@.subrange(0, old_data.len() as int)[k] == old_data[k]);
            }
        }
        assert(data@ =~= spec_resize(old_data, len as int));
    }
}

/// Reading right after a write, at the written offset and for the written
/// length, returns exactly the written bytes.
pub proof fn lemma_read_after_write(data: Seq<u8>, offset: int, b: Seq<u8>)
    requires
        0 <= offset,
    ensures
        spec_read_range(spec_write_bytes(data, offset, b), offset, b.len() as int) == b,
{
    let w = spec_write_bytes(data, offset, b);
    assert(spec_read_range(w, offset, b.len() as int) =~= b);
}

/// A write that starts past the end leaves the gap between the old end and
/// the write offset reading as zeros.
pub proof fn lemma_write_gap_is_zero(data: Seq<u8>, offset: int, b: Seq<u8>, k: int)
    requires
        data.len() < offset,
        data.len() <= k < offset,
    ensures
        spec_write_bytes(data, offset, b)[k] == 0u8,
{
}

/// A single byte written inside the content changes that byte and no other,
/// and the length stays the same.
pub proof fn lemma_single_byte_write(data: Seq<u8>, offset: int, v: u8)
    requires
        0 <= offset < data.len(),
    ensures
        spec_write_bytes(data, offset, seq![v]) == data.update(offset, v),
{
    assert(spec_write_bytes(data, offset, seq![v]) =~= data.update(offset, v));
}

/// Reading one byte inside the content returns exactly the byte stored
/// there, so two such reads with no write between agree.
pub proof fn lemma_read_one_byte(data: Seq<u8>, offset: int)
    requires
        0 <= offset < data.len(),
    ensures
        spec_read_range(data, offset, 1) == seq![data[offset]],
{
    assert(spec_read_range(data, offset, 1) =~= seq![data[offset]]);
}

/// Lexicographic order on byte strings: `a` comes strictly before `b`.
pub open spec fn lex_lt(a: Seq<u8>, b: Seq<u8>) -> bool
    decreases a.len(),
{
    if a.len() == 0 {
        b.len() > 0
    } else if b.len() == 0 {
        false
    } else if a[0] != b[0] {
        a[0] < b[0]
    } else {
        lex_lt(a.drop_first(), b.drop_first())
    }
}

/// No string comes before itself, and two strings cannot each come before
/// the other.
pub proof fn lemma_lex_asym(a: Seq<u8>, b: Seq<u8>)
    ensures
        !(lex_lt(a, b) && lex_lt(b, a)),
        !lex_lt(a, a),
    decreases a.len(),
{
    if a.len() > 0 && b.len() > 0 && a[0] == b[0] {
        lemma_lex_asym(a.drop_first(), b.drop_first());
    }
    if a.len() > 0 {
        lemma_lex_asym(a.drop_first(), a.drop_first());
    }
}

/// Of two different strings, one comes before the other.
pub proof fn lemma_lex_total(a: Seq<u8>, b: Seq<u8>)
    requires
        a != b,
    ensures
        lex_lt(a, b) || lex_lt(b, a),
    decreases a.len(),
{
    if a.len() > 0 && b.len() > 0 && a[0] == b[0] {
        if a.drop_first() == b.drop_first() {
            assert(a =~= seq![a[0]] + a.drop_first());
            assert(b =~= seq![b[0]] + b.drop_first());
        }
        lemma_lex_total(a.drop_first(), b.drop_first());
    } else if a.len() == 0 && b.len() == 0 {
        assert(a =~= b);
    }
}

/// The order is transitive.
pub proof fn lemma_lex_trans(a: Seq<u8>, b: Seq<u8>, c: Seq<u8>)
    requires
        lex_lt(a, b),
        lex_lt(b, c),
    ensures
        lex_lt(a, c),
    decreases a.len(),
{
    if a.len() > 0 && b.len() > 0 && c.len() > 0 && a[0] == b[0] && b[0] == c[0] {
        lemma_lex_trans(a.drop_first(), b.drop_first(), c.drop_first());
    }
}

/// Tells whether `a` comes strictly before `b` in lexicographic order.
pub fn bytes_lt(a: &[u8], b: &[u8]) -> (r: bool)
    ensures
        r == lex_lt(a@, b@),
{
    let mut i: usize = 0;
    assert(a@.skip(0) =~= a@);
    assert(b@.skip(0) =~= b@);
    while i < a.len() && i < b.len()
        invariant
            i <= a@.len(),
            i <= b@.len(),
            lex_lt(a@, b@) == lex_lt(a@.skip(i as int), b@.skip(i as int)),
        decreases a.len() - i,
    {
        if a[i] != b[i] {
            return a[i] < b[i];
        }
        proof {
            assert(a@.skip(i as int).drop_first() =~= a@.skip(i + 1));
            assert(b@.skip(i as int).drop_first() =~= b@.skip(i + 1));
        }
        i = i + 1;
    }
    i < b.len()
}

} // verus!
