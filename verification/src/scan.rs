//! Chunk-by-chunk scanner for the first occurrence of a byte signature.
//!
//! The scanner keeps a carry-over of at most `signature length - 1` trailing
//! bytes between chunks, so an occurrence straddling a chunk boundary is still
//! found, and reports the absolute offset of the first occurrence exactly as
//! if the input had been one contiguous byte sequence.

use vstd::prelude::*;
use vstd::slice::{slice_subrange, slice_to_vec};

verus! {

/// The signature `m` occurs in `s` starting at index `i`, wholly contained.
pub open spec fn is_match_at(s: Seq<u8>, m: Seq<u8>, i: int) -> bool {
    &&& 0 <= i
    &&& i + m.len() <= s.len()
    &&& s.subrange(i, i + m.len()) == m
}

/// `k` is the offset of the first occurrence of `m` in `s`.
pub open spec fn is_first_match(s: Seq<u8>, m: Seq<u8>, k: int) -> bool {
    &&& is_match_at(s, m, k)
    &&& forall|j: int| 0 <= j < k ==> !is_match_at(s, m, j)
}

/// `m` occurs nowhere in `s`.
pub open spec fn no_match(s: Seq<u8>, m: Seq<u8>) -> bool {
    forall|i: int| !is_match_at(s, m, i)
}

/// An occurrence inside `w` is an occurrence of the concatenation `a + w`,
/// shifted by the length of `a`.
pub proof fn lemma_match_shifts_right(a: Seq<u8>, w: Seq<u8>, m: Seq<u8>, p: int)
    requires
        is_match_at(w, m, p),
    ensures
        is_match_at(a + w, m, a.len() + p),
{
    assert((a + w).subrange(a.len() + p, a.len() + p + m.len()) =~= w.subrange(p, p + m.len()));
}

/// An occurrence of `a + w` that starts at or after the end of `a` is an
/// occurrence inside `w`.
pub proof fn lemma_match_shifts_left(a: Seq<u8>, w: Seq<u8>, m: Seq<u8>, j: int)
    requires
        is_match_at(a + w, m, j),
        j >= a.len(),
    ensures
        is_match_at(w, m, j - a.len()),
{
    assert(w.subrange(j - a.len(), j - a.len() + m.len()) =~= (a + w).subrange(j, j + m.len()));
}

/// An occurrence of `a + w` wholly contained in `a` is an occurrence of `a`.
pub proof fn lemma_match_in_prefix(a: Seq<u8>, w: Seq<u8>, m: Seq<u8>, j: int)
    requires
        is_match_at(a + w, m, j),
        j + m.len() <= a.len(),
    ensures
        is_match_at(a, m, j),
{
    assert(a.subrange(j, j + m.len()) =~= (a + w).subrange(j, j + m.len()));
}

/// An occurrence of `a` stays an occurrence when `w` is appended.
pub proof fn lemma_prefix_match_extends(a: Seq<u8>, w: Seq<u8>, m: Seq<u8>, j: int)
    requires
        is_match_at(a, m, j),
    ensures
        is_match_at(a + w, m, j),
{
    assert((a + w).subrange(j, j + m.len()) =~= a.subrange(j, j + m.len()));
}

/// A first occurrence found inside the prefix `s.take(c)` is the first
/// occurrence of `s` itself: nothing before it fits, and it does not move.
pub proof fn lemma_first_match_in_prefix(s: Seq<u8>, m: Seq<u8>, c: int, k: int)
    requires
        0 <= c <= s.len(),
        is_first_match(s.take(c), m, k),
    ensures
        is_first_match(s, m, k),
{
    assert(s =~= s.take(c) + s.skip(c));
    lemma_prefix_match_extends(s.take(c), s.skip(c), m, k);
    assert forall|j: int| 0 <= j < k implies !is_match_at(s, m, j) by {
        if is_match_at(s, m, j) {
            lemma_match_in_prefix(s.take(c), s.skip(c), m, j);
        }
    }
}

/// Byte-wise comparison of `m` against `hay` at position `i`.
fn matches_at(hay: &[u8], m: &[u8], i: usize) -> (r: bool)
    requires
        i + m@.len() <= hay@.len(),
    ensures
        r == is_match_at(hay@, m@, i as int),
{
    let hay_len = hay.len();
    let mut j: usize = 0;
    while j < m.len()
        invariant
            i + m@.len() <= hay@.len(),
            hay@.len() == hay_len,
            j <= m@.len(),
            forall|t: int| 0 <= t < j ==> hay@[i + t] == m@[t],
        decreases m@.len() - j,
    {
        if hay[i + j] != m[j] {
            assert(hay@.subrange(i as int, i + m@.len())[j as int] != m@[j as int]);
            return false;
        }
        j += 1;
    }
    assert(hay@.subrange(i as int, i + m@.len()) =~= m@);
    true
}

/// Sliding exact comparison: position of the first occurrence of `m` in `hay`.
fn find_first(hay: &[u8], m: &[u8]) -> (r: Option<usize>)
    requires
        m@.len() >= 1,
    ensures
        match r {
            Some(p) => is_first_match(hay@, m@, p as int),
            None => no_match(hay@, m@),
        },
{
    if hay.len() < m.len() {
        return None;
    }
    let end = hay.len() - m.len();
    let mut i: usize = 0;
    while i <= end
        invariant
            m@.len() >= 1,
            hay@.len() <= usize::MAX,
            end == hay@.len() - m@.len(),
            i <= end + 1,
            forall|j: int| 0 <= j < i ==> !is_match_at(hay@, m@, j),
        decreases end + 1 - i,
    {
        if matches_at(hay, m, i) {
            return Some(i);
        }
        i += 1;
    }
    None
}

/// Scan cursor: the state held between chunks while a stream is searched for
/// the first occurrence of a signature.
///
/// `overlap` keeps the last `signature length - 1` bytes of what has been
/// consumed (fewer while the stream is still shorter than that), so that an
/// occurrence straddling a chunk boundary is still detected. `consumed`
/// mirrors, in ghost state, every byte fed so far.
pub struct Scanner {
    sig: Vec<u8>,
    overlap: Vec<u8>,
    pos: u64,
    consumed_bytes: Ghost<Seq<u8>>,
}

impl Scanner {
    /// The signature this cursor searches for.
    pub closed spec fn sig_spec(&self) -> Seq<u8> {
        self.sig@
    }

    /// Every byte fed to this cursor so far, in order.
    pub closed spec fn consumed(&self) -> Seq<u8> {
        self.consumed_bytes@
    }

    /// Well-formedness: the carry-over is exactly the right suffix of the
    /// consumed stream, the running offset counts every consumed byte once,
    /// and no occurrence of the signature has been passed over.
    pub closed spec fn wf(&self) -> bool {
        &&& self.sig@.len() >= 1
        &&& self.pos == self.consumed_bytes@.len()
        &&& self.overlap@.len() == if self.consumed_bytes@.len() >= self.sig@.len() - 1 {
            (self.sig@.len() - 1) as int
        } else {
            self.consumed_bytes@.len() as int
        }
        &&& self.overlap@ == self.consumed_bytes@.skip(
            self.consumed_bytes@.len() - self.overlap@.len(),
        )
        &&& no_match(self.consumed_bytes@, self.sig@)
    }

    /// A fresh cursor that has consumed nothing.
    pub fn new(sig: Vec<u8>) -> (s: Scanner)
        requires
            sig@.len() >= 1,
        ensures
            s.wf(),
            s.sig_spec() == sig@,
            s.consumed() == Seq::<u8>::empty(),
    {
        let s = Scanner { sig, overlap: Vec::new(), pos: 0, consumed_bytes: Ghost(Seq::empty()) };
        proof {
            assert(s.overlap@ =~= s.consumed_bytes@.skip(0));
        }
        s
    }

    /// Consume the next chunk of the stream.
    ///
    /// Returns the absolute offset of the first occurrence of the signature as
    /// soon as the bytes consumed so far contain one; the offset is the one the
    /// occurrence has in the stream read as one contiguous byte sequence.
    /// Returns `None` while the consumed bytes hold no occurrence (one that
    /// might still be completed by future bytes does not count yet: its first
    /// chunks stay in the carry-over).
    pub fn feed(&mut self, chunk: &[u8]) -> (r: Option<u64>)
        requires
            old(self).wf(),
            old(self).consumed().len() + chunk@.len() <= u64::MAX,
        ensures
            match r {
                Some(k) => is_first_match(
                    old(self).consumed() + chunk@,
                    old(self).sig_spec(),
                    k as int,
                ),
                None => {
                    &&& final(self).wf()
                    &&& final(self).sig_spec() == old(self).sig_spec()
                    &&& final(self).consumed() == old(self).consumed() + chunk@
                    &&& no_match(old(self).consumed() + chunk@, old(self).sig_spec())
                },
            },
    {
        let ghost total = self.consumed_bytes@ + chunk@;
        let ghost prefix = self.consumed_bytes@.take(
            self.consumed_bytes@.len() - self.overlap@.len(),
        );
        let mut window: Vec<u8> = Vec::new();
        window.extend_from_slice(self.overlap.as_slice());
        window.extend_from_slice(chunk);
        proof {
            assert(window@ =~= self.overlap@ + chunk@);
            assert(self.consumed_bytes@ =~= prefix + self.overlap@);
            assert(total =~= prefix + window@);
        }
        match find_first(window.as_slice(), self.sig.as_slice()) {
            Some(p) => {
                let base = self.pos - (self.overlap.len() as u64);
                let k = base + (p as u64);
                proof {
                    lemma_match_shifts_right(prefix, window@, self.sig@, p as int);
                    assert forall|j: int| 0 <= j < k as int implies !is_match_at(
                        total,
                        self.sig@,
                        j,
                    ) by {
                        if is_match_at(total, self.sig@, j) {
                            if j >= prefix.len() {
                                lemma_match_shifts_left(prefix, window@, self.sig@, j);
                            } else {
                                lemma_match_in_prefix(
                                    self.consumed_bytes@,
                                    chunk@,
                                    self.sig@,
                                    j,
                                );
                            }
                        }
                    }
                }
                Some(k)
            },
            None => {
                proof {
                    assert forall|j: int| !is_match_at(total, self.sig@, j) by {
                        if is_match_at(total, self.sig@, j) {
                            if j >= prefix.len() {
                                lemma_match_shifts_left(prefix, window@, self.sig@, j);
                            } else {
                                lemma_match_in_prefix(
                                    self.consumed_bytes@,
                                    chunk@,
                                    self.sig@,
                                    j,
                                );
                            }
                        }
                    }
                }
                let wlen = window.len();
                let keep = if wlen >= self.sig.len() - 1 {
                    self.sig.len() - 1
                } else {
                    wlen
                };
                let tail = slice_subrange(window.as_slice(), wlen - keep, wlen);
                self.overlap = slice_to_vec(tail);
                self.pos = self.pos + (chunk.len() as u64);
                proof {
                    self.consumed_bytes@ = total;
                    assert(self.overlap@ =~= total.skip(total.len() - keep));
                }
                None
            },
        }
    }
}

/// Scan a byte buffer for the first occurrence of `sig`, consuming it in
/// chunks of `chunk_size` bytes through a [`Scanner`].
///
/// The reported offset does not depend on the chunk size: for every
/// `chunk_size >= 1` it is the offset of the first occurrence of `sig` in
/// `data` read as one contiguous byte sequence, and `None` comes back exactly
/// when `sig` does not occur in `data` at all.
pub fn scan_bytes(data: &[u8], sig: &[u8], chunk_size: usize) -> (r: Option<u64>)
    requires
        sig@.len() >= 1,
        chunk_size >= 1,
        data@.len() <= u64::MAX,
    ensures
        match r {
            Some(k) => is_first_match(data@, sig@, k as int),
            None => no_match(data@, sig@),
        },
{
    let mut scanner = Scanner::new(slice_to_vec(sig));
    let data_len = data.len();
    let mut off: usize = 0;
    while off < data_len
        invariant
            scanner.wf(),
            scanner.sig_spec() == sig@,
            sig@.len() >= 1,
            chunk_size >= 1,
            data_len == data@.len(),
            data@.len() <= u64::MAX,
            off <= data@.len(),
            scanner.consumed() == data@.take(off as int),
            no_match(scanner.consumed(), sig@),
        decreases data@.len() - off,
    {
        let end = if data_len - off < chunk_size {
            data_len
        } else {
            off + chunk_size
        };
        let chunk = slice_subrange(data, off, end);
        proof {
            assert(data@.take(off as int) + chunk@ =~= data@.take(end as int));
        }
        match scanner.feed(chunk) {
            Some(k) => {
                proof {
                    lemma_first_match_in_prefix(data@, sig@, end as int, k as int);
                }
                return Some(k);
            },
            None => {},
        }
        off = end;
    }
    proof {
        assert(data@.take(data@.len() as int) =~= data@);
    }
    None
}

/// `m` cannot overlap itself: no shifted copy of `m` agrees with `m` on the
/// overlapping part, so two occurrences of `m` can never share bytes.
pub open spec fn no_self_overlap(m: Seq<u8>) -> bool {
    forall|t: int| 1 <= t < m.len() ==> m.skip(t) != m.take(m.len() - t)
}

/// A stream has at most one first occurrence of a signature, so a scan that
/// reports a first occurrence pins its offset down completely.
pub proof fn lemma_first_match_unique(s: Seq<u8>, m: Seq<u8>, a: int, b: int)
    requires
        is_first_match(s, m, a),
        is_first_match(s, m, b),
    ensures
        a == b,
{
}

/// A signature sitting at the very start of the stream is its first
/// occurrence: it is found at offset 0.
pub proof fn lemma_match_at_start(s: Seq<u8>, m: Seq<u8>)
    requires
        is_match_at(s, m, 0),
    ensures
        is_first_match(s, m, 0),
{
}

/// A stream shorter than the signature holds no occurrence of it.
pub proof fn lemma_short_stream_has_no_match(s: Seq<u8>, m: Seq<u8>)
    requires
        s.len() < m.len(),
    ensures
        no_match(s, m),
{
}

/// Extraction is idempotent: once the stream is cut at the first occurrence
/// of the signature, the signature is gone, and re-scanning the truncated
/// carrier finds nothing.
pub proof fn lemma_truncated_carrier_clean(s: Seq<u8>, m: Seq<u8>, k: int)
    requires
        m.len() >= 1,
        is_first_match(s, m, k),
    ensures
        no_match(s.take(k), m),
{
    assert forall|j: int| !is_match_at(s.take(k), m, j) by {
        if is_match_at(s.take(k), m, j) {
            assert(s =~= s.take(k) + s.skip(k));
            lemma_prefix_match_extends(s.take(k), s.skip(k), m, j);
        }
    }
}

/// Concealing then revealing is lossless: appending a payload that begins
/// with the signature to a carrier free of it puts the first occurrence of
/// the signature exactly at the carrier's length, so cutting there gives the
/// carrier and the payload back unchanged. A signature that cannot overlap
/// itself rules out a spurious occurrence straddling the seam.
pub proof fn lemma_conceal_reveal(c: Seq<u8>, p: Seq<u8>, m: Seq<u8>)
    requires
        m.len() >= 1,
        no_self_overlap(m),
        no_match(c, m),
        m.len() <= p.len(),
        p.take(m.len() as int) == m,
    ensures
        is_first_match(c + p, m, c.len() as int),
        (c + p).take(c.len() as int) == c,
        (c + p).skip(c.len() as int) == p,
{
    let s = c + p;
    let clen = c.len() as int;
    let ml = m.len() as int;
    assert(s.subrange(clen, clen + ml) =~= m) by {
        assert forall|u: int| 0 <= u < ml implies s.subrange(clen, clen + ml)[u] == m[u] by {
            assert(s[clen + u] == p[u]);
            assert(p.take(ml)[u] == m[u]);
        }
    }
    assert forall|j: int| 0 <= j < clen implies !is_match_at(s, m, j) by {
        if is_match_at(s, m, j) {
            if j + ml <= clen {
                lemma_match_in_prefix(c, p, m, j);
            } else {
                let t = clen - j;
                assert(1 <= t < ml);
                assert forall|u: int| 0 <= u < ml - t implies m.skip(t)[u] == m.take(ml - t)[u] by {
                    assert(s.subrange(j, j + ml)[t + u] == m[t + u]);
                    assert(s.subrange(j, j + ml)[t + u] == s[j + t + u]);
                    assert(s[clen + u] == p[u]);
                    assert(p.take(ml)[u] == m[u]);
                }
                assert(m.skip(t) =~= m.take(ml - t));
                assert(m.skip(t) != m.take(m.len() - t));
                assert(false);
            }
        }
    }
    assert(s.take(clen) =~= c);
    assert(s.skip(clen) =~= p);
}

} // verus!
