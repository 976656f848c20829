//! Byte-string helpers shared by the scanners: ASCII literals, prefix and
//! suffix tests, and the split of a document into `>`-terminated chunks.
use vstd::prelude::*;

verus! {

/// The bytes of an ASCII character sequence.
pub open spec fn ascii(chars: Seq<char>) -> Seq<u8> {
    Seq::new(chars.len(), |i: int| chars[i] as u8)
}

/// The bytes of an ASCII string literal.
pub fn lit(s: &str) -> (r: &[u8])
    requires
        vstd::utf8::is_ascii_chars(s@),
    ensures
        r@ == ascii(s@),
{
    proof {
        vstd::utf8::is_ascii_chars_encode_utf8(s@);
    }
    let r = s.as_bytes();
    assert(r@ =~= ascii(s@));
    r
}

pub open spec fn has_prefix(s: Seq<u8>, p: Seq<u8>) -> bool {
    p.len() <= s.len() && s.take(p.len() as int) == p
}

pub open spec fn has_suffix(s: Seq<u8>, p: Seq<u8>) -> bool {
    p.len() <= s.len() && s.skip(s.len() - p.len()) == p
}

pub fn starts_with(s: &[u8], p: &[u8]) -> (r: bool)
    ensures
        r == has_prefix(s@, p@),
{
    if p.len() > s.len() {
        return false;
    }
    let mut i: usize = 0;
    while i < p.len()
        invariant
            p.len() <= s.len(),
            i <= p.len(),
            forall|j: int| 0 <= j < i ==> s@[j] == p@[j],
        decreases p.len() - i,
    {
        if s[i] != p[i] {
            assert(s@.take(p.len() as int)[i as int] != p@[i as int]);
            return false;
        }
        i = i + 1;
    }
    assert(s@.take(p.len() as int) =~= p@);
    true
}

pub fn ends_with(s: &[u8], p: &[u8]) -> (r: bool)
    ensures
        r == has_suffix(s@, p@),
{
    if p.len() > s.len() {
        return false;
    }
    let off = s.len() - p.len();
    let mut i: usize = 0;
    while i < p.len()
        invariant
            p.len() <= s.len(),
            off == s.len() - p.len(),
            i <= p.len(),
            forall|j: int| 0 <= j < i ==> s@[off + j] == p@[j],
        decreases p.len() - i,
    {
        if s[off + i] != p[i] {
            assert(s@.skip(off as int)[i as int] != p@[i as int]);
            return false;
        }
        i = i + 1;
    }
    assert(s@.skip(off as int) =~= p@);
    true
}

pub fn bytes_eq(a: &[u8], b: &[u8]) -> (r: bool)
    ensures
        r == (a@ == b@),
{
    if a.len() != b.len() {
        return false;
    }
    assert(a@.take(b@.len() as int) =~= a@);
    let r = starts_with(a, b);
    r
}

/// Index of the first occurrence of `b` in `s`, if any.
pub open spec fn first_index_of(s: Seq<u8>, b: u8) -> Option<int>
    decreases s.len(),
{
    if s.len() == 0 {
        None
    } else if s[0] == b {
        Some(0)
    } else {
        match first_index_of(s.drop_first(), b) {
            Some(i) => Some(i + 1),
            None => None,
        }
    }
}

pub(crate) proof fn lemma_first_index_of(s: Seq<u8>, b: u8)
    ensures
        match first_index_of(s, b) {
            Some(i) => 0 <= i < s.len() && s[i] == b && forall|k: int| 0 <= k < i ==> s[k] != b,
            None => forall|k: int| 0 <= k < s.len() ==> s[k] != b,
        },
    decreases s.len(),
{
    if s.len() > 0 && s[0] != b {
        lemma_first_index_of(s.drop_first(), b);
        assert forall|k: int| 1 <= k < s.len() implies s[k] == s.drop_first()[k - 1] by {}
    }
}

/// Position of the first `b` in `s`.
pub fn position(s: &[u8], b: u8) -> (r: Option<usize>)
    ensures
        match r {
            Some(i) => first_index_of(s@, b) == Some(i as int),
            None => first_index_of(s@, b) is None,
        },
{
    proof {
        lemma_first_index_of(s@, b);
    }
    let mut i: usize = 0;
    while i < s.len()
        invariant
            i <= s.len(),
            forall|j: int| 0 <= j < i ==> s@[j] != b,
        decreases s.len() - i,
    {
        if s[i] == b {
            proof {
                lemma_first_index_of(s@, b);
                match first_index_of(s@, b) {
                    Some(k) => {
                        if k < i {
                            assert(s@[k] == b);
                        } else if k > i {
                            assert(s@[i as int] == b);
                        }
                    },
                    None => {
                        assert(s@[i as int] == b);
                    },
                }
            }
            return Some(i);
        }
        i = i + 1;
    }
    proof {
        lemma_first_index_of(s@, b);
        match first_index_of(s@, b) {
            Some(k) => {
                assert(s@[k] == b);
            },
            None => {},
        }
    }
    None
}

/// The end of the chunk that starts at `start`: just past the first `>`
/// at or after `start`, or the end of `s` when there is none.
pub open spec fn chunk_end(s: Seq<u8>, start: int) -> int
    decreases s.len() - start,
{
    if start >= s.len() {
        s.len() as int
    } else if s[start] == 62u8 {
        start + 1
    } else {
        chunk_end(s, start + 1)
    }
}

pub proof fn lemma_chunk_end(s: Seq<u8>, start: int)
    requires
        0 <= start < s.len(),
    ensures
        start < chunk_end(s, start) <= s.len(),
    decreases s.len() - start,
{
    reveal_with_fuel(chunk_end, 2);
    if s[start] != 62u8 && start + 1 < s.len() {
        lemma_chunk_end(s, start + 1);
    }
}

/// The chunks that repeated `read_until(b'>')` calls hand out, from `start`
/// on: each ends just after a `>`, except perhaps the last.
pub open spec fn chunks_from(s: Seq<u8>, start: int) -> Seq<Seq<u8>>
    decreases s.len() - start,
{
    if start < 0 || start >= s.len() {
        Seq::empty()
    } else {
        let e = chunk_end(s, start);
        proof {
            lemma_chunk_end(s, start);
        }
        if e <= start {
            Seq::empty()
        } else {
            seq![s.subrange(start, e)] + chunks_from(s, e)
        }
    }
}

/// All chunks of a document.
pub open spec fn chunks(s: Seq<u8>) -> Seq<Seq<u8>> {
    chunks_from(s, 0)
}

/// The end of the chunk that starts at `start`.
pub fn next_chunk_end(s: &[u8], start: usize) -> (e: usize)
    requires
        start < s.len(),
    ensures
        e as int == chunk_end(s@, start as int),
        start < e <= s.len(),
{
    proof {
        lemma_chunk_end(s@, start as int);
    }
    let mut i = start;
    while i < s.len()
        invariant
            start <= i <= s.len(),
            chunk_end(s@, start as int) == chunk_end(s@, i as int),
        decreases s.len() - i,
    {
        if s[i] == 62u8 {
            return i + 1;
        }
        i = i + 1;
    }
    i
}

/// Copies `s[from..to]` into a new vector.
pub fn copy_range(s: &[u8], from: usize, to: usize) -> (r: Vec<u8>)
    requires
        from <= to <= s.len(),
    ensures
        r@ == s@.subrange(from as int, to as int),
{
    let mut r: Vec<u8> = Vec::new();
    let mut i = from;
    while i < to
        invariant
            from <= i <= to <= s.len(),
            r@ == s@.subrange(from as int, i as int),
        decreases to - i,
    {
        r.push(s[i]);
        i = i + 1;
        assert(r@ =~= s@.subrange(from as int, i as int));
    }
    r
}

/// Appends all of `b` to `out`.
pub fn push_all(out: &mut Vec<u8>, b: &[u8])
    ensures
        final(out)@ == old(out)@ + b@,
{
    let mut i: usize = 0;
    while i < b.len()
        invariant
            i <= b.len(),
            out@ == old(out)@ + b@.take(i as int),
        decreases b.len() - i,
    {
        out.push(b[i]);
        i = i + 1;
        assert(out@ =~= old(out)@ + b@.take(i as int));
    }
    assert(b@.take(b.len() as int) =~= b@);
}

/// The part of a chunk that starts at its first `<` (the whole chunk when
/// it holds none).
pub open spec fn from_first_lt(buf: Seq<u8>) -> Seq<u8> {
    match first_index_of(buf, 60u8) {
        Some(i) => buf.skip(i),
        None => buf,
    }
}

pub fn tag_part(buf: &[u8]) -> (r: Vec<u8>)
    ensures
        r@ == from_first_lt(buf@),
{
    let pos = match position(buf, 60u8) {
        Some(p) => p,
        None => 0,
    };
    proof {
        lemma_first_index_of(buf@, 60u8);
    }
    let r = copy_range(buf, pos, buf.len());
    assert(buf@.skip(0) =~= buf@);
    r
}

/// Whether `v` is one of the byte strings in `set`.
pub fn contains_bytes(set: &Vec<Vec<u8>>, v: &[u8]) -> (r: bool)
    ensures
        r == exists|i: int| 0 <= i < set@.len() && #[trigger] set@[i]@ == v@,
{
    let mut i: usize = 0;
    while i < set.len()
        invariant
            i <= set@.len(),
            forall|j: int| 0 <= j < i ==> #[trigger] set@[j]@ != v@,
        decreases set@.len() - i,
    {
        if bytes_eq(set[i].as_slice(), v) {
            return true;
        }
        i = i + 1;
    }
    false
}

} // verus!
