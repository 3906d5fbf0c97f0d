//! The member-boundary scanner and the stream of members built on it.

use std::collections::VecDeque;
use vstd::prelude::*;

verus! {

/// Number of leading bytes of the first member that serve as the pattern.
pub const HEADER_LEN: usize = 10;

/// Number of bytes one scan pass reads at most.
pub const BUFFER_LEN: usize = 4096;

/// Why a container could not be opened or scanned.
#[derive(Debug, Clone, Copy, PartialEq, Eq, Structural)]
pub enum ScanError {
    /// The source does not begin with the two magic bytes.
    InvalidFormat,
    /// The source ended before the bytes that were asked for.
    IoFailure,
}

/// One independently compressed segment: where it starts and how many bytes it takes.
#[derive(Debug, Clone, Copy, PartialEq, Eq, Structural)]
pub struct GzipMember {
    pub offset: u64,
    pub length: u64,
}

impl GzipMember {
    /// A member that starts at `offset` and whose length is not yet known.
    pub fn new(offset: u64) -> (m: Self)
        ensures
            m.offset == offset,
            m.length == 0,
    {
        Self { offset, length: 0 }
    }
}

/// A seekable source of bytes held in memory: the bytes and a read cursor.
pub struct ByteSource {
    data: Vec<u8>,
    pos: usize,
}

impl ByteSource {
    /// All bytes of the source, read or not.
    pub closed spec fn bytes(&self) -> Seq<u8> {
        self.data@
    }

    /// The position of the next byte to be read.
    pub closed spec fn cursor(&self) -> int {
        self.pos as int
    }

    /// The cursor never lies beyond the end.
    pub closed spec fn wf(&self) -> bool {
        self.pos <= self.data.len()
    }

    /// A source over `data`, positioned at its start.
    pub fn new(data: Vec<u8>) -> (s: Self)
        ensures
            s.wf(),
            s.bytes() == data@,
            s.cursor() == 0,
    {
        Self { data, pos: 0 }
    }

    /// The cursor.
    pub fn position(&self) -> (p: usize)
        requires
            self.wf(),
        ensures
            p == self.cursor(),
            p <= self.bytes().len(),
    {
        self.pos
    }

    /// The number of bytes in the source.
    pub fn len(&self) -> (n: usize)
        ensures
            n == self.bytes().len(),
    {
        self.data.len()
    }

    /// Reads up to `max` bytes from the cursor and moves the cursor behind them.
    pub fn read(&mut self, max: usize) -> (chunk: Vec<u8>)
        requires
            old(self).wf(),
        ensures
            final(self).wf(),
            final(self).bytes() == old(self).bytes(),
            final(self).cursor() == if old(self).bytes().len() - old(self).cursor() < max {
                old(self).bytes().len() as int
            } else {
                old(self).cursor() + max
            },
            chunk@ == old(self).bytes().subrange(old(self).cursor(), final(self).cursor()),
    {
        let start: usize = self.pos;
        let left: usize = self.data.len() - start;
        let n: usize = if left < max { left } else { max };
        let mut chunk: Vec<u8> = Vec::new();
        let mut i: usize = 0;
        while i < n
            invariant
                i <= n,
                start + n <= self.data.len(),
                chunk@ == self.data@.subrange(start as int, start + i),
            decreases n - i,
        {
            chunk.push(self.data[start + i]);
            i += 1;
            assert(chunk@ =~= self.data@.subrange(start as int, start + i));
        }
        self.pos = start + n;
        chunk
    }

    /// Reads exactly `n` bytes, or fails and leaves the cursor where it is
    /// when fewer than `n` are left.
    pub fn read_exact(&mut self, n: usize) -> (r: Option<Vec<u8>>)
        requires
            old(self).wf(),
        ensures
            final(self).wf(),
            final(self).bytes() == old(self).bytes(),
            r.is_some() <==> old(self).cursor() + n <= old(self).bytes().len(),
            r matches Some(chunk) ==> final(self).cursor() == old(self).cursor() + n
                && chunk@ == old(self).bytes().subrange(old(self).cursor(), old(self).cursor() + n),
            r.is_none() ==> final(self).cursor() == old(self).cursor(),
    {
        if self.data.len() - self.pos < n {
            None
        } else {
            let chunk = self.read(n);
            Some(chunk)
        }
    }

    /// Moves the cursor `n` bytes back.
    pub fn seek_back(&mut self, n: usize)
        requires
            old(self).wf(),
            n <= old(self).cursor(),
        ensures
            final(self).wf(),
            final(self).bytes() == old(self).bytes(),
            final(self).cursor() == old(self).cursor() - n,
    {
        self.pos = self.pos - n;
    }
}

/// The whole pattern stands in `data` at position `p`.
pub open spec fn matches_at(data: Seq<u8>, pat: Seq<u8>, p: int) -> bool {
    0 <= p && p + pat.len() <= data.len() && data.subrange(p, p + pat.len()) == pat
}

/// The bytes from `p` up to `end` are a proper, non-empty prefix of the pattern.
pub open spec fn prefix_at(data: Seq<u8>, pat: Seq<u8>, p: int, end: int) -> bool {
    0 <= p < end <= data.len() && end - p < pat.len() && data.subrange(p, end)
        == pat.subrange(0, end - p)
}

/// Where the window of the pass that starts at `p` ends.
pub open spec fn window_end(data: Seq<u8>, p: int) -> int {
    if data.len() - p < BUFFER_LEN {
        data.len() as int
    } else {
        p + BUFFER_LEN
    }
}

/// The first start in the window `p..e` from which the pattern no longer fits in the window.
pub open spec fn whole_end(pat: Seq<u8>, p: int, e: int) -> int {
    if e - p >= pat.len() {
        e - pat.len() + 1
    } else {
        p
    }
}

/// The positions in `lo..hi` at which the whole pattern stands, in increasing order.
pub open spec fn matches_in(data: Seq<u8>, pat: Seq<u8>, lo: int, hi: int) -> Seq<u64>
    decreases hi - lo,
{
    if hi <= lo {
        Seq::empty()
    } else {
        let rest = matches_in(data, pat, lo, hi - 1);
        if matches_at(data, pat, hi - 1) {
            rest.push((hi - 1) as u64)
        } else {
            rest
        }
    }
}

/// The least position in `i..e` from which the bytes up to `e` begin the pattern; `e` if none.
pub open spec fn first_prefix(data: Seq<u8>, pat: Seq<u8>, i: int, e: int) -> int
    decreases e - i,
{
    if i >= e {
        e
    } else if prefix_at(data, pat, i, e) {
        i
    } else {
        first_prefix(data, pat, i + 1, e)
    }
}

/// The start of the candidate that runs over the end of the window of the
/// pass at `p`; the window's end if there is none.
pub open spec fn pass_candidate(data: Seq<u8>, pat: Seq<u8>, p: int) -> int {
    let e = window_end(data, p);
    first_prefix(data, pat, whole_end(pat, p, e), e)
}

/// The boundaries that the pass at `p` reports: every place in the window
/// where the pattern stands whole, then the candidate if the pattern stands
/// there. A candidate that the end of the source cuts off is none.
pub open spec fn pass_positions(data: Seq<u8>, pat: Seq<u8>, p: int) -> Seq<u64> {
    let e = window_end(data, p);
    let s = pass_candidate(data, pat, p);
    let inner = matches_in(data, pat, p, whole_end(pat, p, e));
    if s < e && matches_at(data, pat, s) {
        inner.push(s as u64)
    } else {
        inner
    }
}

/// Where the cursor stands after the pass at `p`.
pub open spec fn pass_cursor(data: Seq<u8>, pat: Seq<u8>, p: int) -> int {
    let e = window_end(data, p);
    let s = pass_candidate(data, pat, p);
    if s < e && matches_at(data, pat, s) {
        s + pat.len()
    } else {
        e
    }
}

/// What `first_prefix` returns lies in `i..=e`, begins the pattern unless it
/// is `e`, and nothing before it does.
pub proof fn lemma_first_prefix(data: Seq<u8>, pat: Seq<u8>, i: int, e: int)
    requires
        i <= e,
    ensures
        i <= first_prefix(data, pat, i, e) <= e,
        first_prefix(data, pat, i, e) < e ==> prefix_at(
            data,
            pat,
            first_prefix(data, pat, i, e),
            e,
        ),
        forall|j: int| i <= j < first_prefix(data, pat, i, e) ==> !prefix_at(data, pat, j, e),
    decreases e - i,
{
    if i < e && !prefix_at(data, pat, i, e) {
        lemma_first_prefix(data, pat, i + 1, e);
    }
}

/// Every boundary that scanning reports from cursor `p` on, in the order of
/// discovery: pass after pass, closed by the end of the source.
pub open spec fn scan(data: Seq<u8>, pat: Seq<u8>, p: int) -> Seq<u64>
    decreases data.len() - p,
    when p >= 0 && pat.len() > 0
    via scan_decreases
{
    if p >= data.len() {
        seq![#[verifier::truncate] (data.len() as u64)]
    } else {
        pass_positions(data, pat, p) + scan(data, pat, pass_cursor(data, pat, p))
    }
}

#[via_fn]
proof fn scan_decreases(data: Seq<u8>, pat: Seq<u8>, p: int) {
    let e = window_end(data, p);
    if p < data.len() {
        lemma_first_prefix(data, pat, whole_end(pat, p, e), e);
    }
}

/// The pass at `p` steps over a member: the pattern stands behind the
/// start of the pass's candidate and before the cursor after the pass.
pub open spec fn pass_skips(data: Seq<u8>, pat: Seq<u8>, p: int) -> bool {
    exists|q: int|
        pass_candidate(data, pat, p) < q < pass_cursor(data, pat, p) && #[trigger] matches_at(
            data,
            pat,
            q,
        )
}

/// No pass of the scan from cursor `p` on steps over a member.
pub open spec fn scan_is_whole(data: Seq<u8>, pat: Seq<u8>, p: int) -> bool
    decreases data.len() - p,
    when p >= 0 && pat.len() > 0
    via scan_is_whole_decreases
{
    if p >= data.len() {
        true
    } else {
        !pass_skips(data, pat, p) && scan_is_whole(
            data,
            pat,
            pass_cursor(data, pat, p),
        )
    }
}

#[via_fn]
proof fn scan_is_whole_decreases(data: Seq<u8>, pat: Seq<u8>, p: int) {
    let e = window_end(data, p);
    if p < data.len() {
        lemma_first_prefix(data, pat, whole_end(pat, p, e), e);
    }
}

/// Each element is smaller than every later one.
pub open spec fn increasing(b: Seq<u64>) -> bool {
    forall|i: int, j: int| 0 <= i < j < b.len() ==> b[i] < b[j]
}

/// Every element lies in `lo..hi`.
pub open spec fn within(b: Seq<u64>, lo: int, hi: int) -> bool {
    forall|i: int| 0 <= i < b.len() ==> lo <= #[trigger] b[i] < hi
}

/// The members that a sequence of boundaries delimits: each boundary but the
/// last opens a member that the next boundary closes.
pub open spec fn members_of(b: Seq<u64>) -> Seq<GzipMember> {
    Seq::new(
        if b.len() > 0 { (b.len() - 1) as nat } else { 0 },
        |i: int| (GzipMember { offset: b[i], length: (b[i + 1] - b[i]) as u64 }),
    )
}

/// The matches in a range are increasing and lie in that range.
pub proof fn lemma_matches_in(data: Seq<u8>, pat: Seq<u8>, lo: int, hi: int)
    requires
        0 <= lo,
        hi <= u64::MAX,
    ensures
        increasing(matches_in(data, pat, lo, hi)),
        within(matches_in(data, pat, lo, hi), lo, hi),
        forall|i: int|
            0 <= i < matches_in(data, pat, lo, hi).len() ==> matches_at(
                data,
                pat,
                #[trigger] matches_in(data, pat, lo, hi)[i] as int,
            ),
    decreases hi - lo,
{
    if hi > lo {
        lemma_matches_in(data, pat, lo, hi - 1);
    }
}

/// The boundaries of one pass are increasing, lie between the cursor before
/// and the cursor after, and the pattern stands at each.
pub proof fn lemma_pass(data: Seq<u8>, pat: Seq<u8>, p: int)
    requires
        0 <= p < data.len() <= u64::MAX,
        pat.len() > 0,
    ensures
        increasing(pass_positions(data, pat, p)),
        within(pass_positions(data, pat, p), p, pass_cursor(data, pat, p)),
        forall|i: int|
            0 <= i < pass_positions(data, pat, p).len() ==> matches_at(
                data,
                pat,
                #[trigger] pass_positions(data, pat, p)[i] as int,
            ),
        p < pass_cursor(data, pat, p) <= data.len(),
{
    let e = window_end(data, p);
    let w = whole_end(pat, p, e);
    lemma_first_prefix(data, pat, w, e);
    lemma_matches_in(data, pat, p, w);
}

/// Scanning reports boundaries in strictly increasing order, none before the
/// cursor and none beyond the end of the source.
pub proof fn lemma_scan_increasing(data: Seq<u8>, pat: Seq<u8>, p: int)
    requires
        0 <= p,
        data.len() <= u64::MAX,
        pat.len() > 0,
    ensures
        increasing(scan(data, pat, p)),
        p <= data.len() ==> within(scan(data, pat, p), p, data.len() as int + 1),
    decreases data.len() - p,
{
    if p < data.len() {
        lemma_pass(data, pat, p);
        let c = pass_cursor(data, pat, p);
        lemma_scan_increasing(data, pat, c);
        let a = pass_positions(data, pat, p);
        let b = scan(data, pat, c);
        assert(scan(data, pat, p) == a + b);
        assert forall|i: int| 0 <= i < (a + b).len() implies p <= #[trigger] (a + b)[i]
            < data.len() as int + 1 by {
            if i >= a.len() {
                assert((a + b)[i] == b[i - a.len()]);
            }
        }
        assert forall|i: int, j: int| 0 <= i < j < (a + b).len() implies (a + b)[i] < (a + b)[j] by {
            if j >= a.len() {
                assert((a + b)[j] == b[j - a.len()]);
            }
            if i >= a.len() {
                assert((a + b)[i] == b[i - a.len()]);
            }
        }
    }
}

/// The pattern stands whole at every boundary that scanning reports, but for
/// the last one, which is the end of the source.
pub proof fn lemma_scan_sound(data: Seq<u8>, pat: Seq<u8>, p: int, i: int)
    requires
        0 <= p,
        data.len() <= u64::MAX,
        pat.len() > 0,
        0 <= i < scan(data, pat, p).len(),
    ensures
        matches_at(data, pat, scan(data, pat, p)[i] as int) || (i == scan(data, pat, p).len() - 1
            && scan(data, pat, p)[i] == data.len()),
    decreases data.len() - p,
{
    if p < data.len() {
        lemma_pass(data, pat, p);
        let a = pass_positions(data, pat, p);
        if i >= a.len() {
            lemma_scan_sound(data, pat, pass_cursor(data, pat, p), i - a.len());
        }
    }
}

/// The sum of the lengths of the first `n` members.
pub open spec fn total_length(m: Seq<GzipMember>, n: int) -> int
    decreases n,
{
    if n <= 0 {
        0
    } else {
        total_length(m, n - 1) + m[n - 1].length
    }
}

/// The members of an increasing sequence of boundaries lie end to end: the
/// first offset plus the lengths of the first `n` members is the `n`-th boundary.
pub proof fn lemma_members_tile(b: Seq<u64>, n: int)
    requires
        increasing(b),
        0 <= n < b.len(),
    ensures
        b[0] + total_length(members_of(b), n) == b[n],
    decreases n,
{
    if n > 0 {
        lemma_members_tile(b, n - 1);
    }
}

/// The members of an increasing sequence of boundaries are in strictly
/// increasing order, none is empty, none overlaps the next, and no byte
/// lies between one and the next.
pub proof fn lemma_members_adjacent(b: Seq<u64>, i: int)
    requires
        increasing(b),
        0 <= i < members_of(b).len(),
    ensures
        members_of(b)[i].length > 0,
        members_of(b)[i].offset + members_of(b)[i].length == b[i + 1],
        i + 1 < members_of(b).len() ==> members_of(b)[i].offset + members_of(b)[i].length
            == members_of(b)[i + 1].offset,
{
}

/// The pattern's first byte occurs nowhere else in the pattern.
pub open spec fn first_byte_unique(pat: Seq<u8>) -> bool {
    forall|j: int| 0 < j < pat.len() ==> #[trigger] pat[j] != pat[0]
}

/// Every place in a range where the pattern stands is among the matches of that range.
pub proof fn lemma_matches_in_complete(data: Seq<u8>, pat: Seq<u8>, lo: int, hi: int, q: int)
    requires
        0 <= lo <= q < hi <= u64::MAX,
        matches_at(data, pat, q),
    ensures
        matches_in(data, pat, lo, hi).contains(q as u64),
    decreases hi - lo,
{
    let rest = matches_in(data, pat, lo, hi - 1);
    if q == hi - 1 {
        assert(rest.push(q as u64)[rest.len() as int] == q as u64);
    } else {
        lemma_matches_in_complete(data, pat, lo, hi - 1, q);
        let i = choose|i: int| 0 <= i < rest.len() && rest[i] == q as u64;
        assert(matches_in(data, pat, lo, hi)[i] == q as u64);
    }
}

/// Every scan is closed by the end of the source.
pub proof fn lemma_scan_closed(data: Seq<u8>, pat: Seq<u8>, p: int)
    requires
        0 <= p,
        data.len() <= u64::MAX,
        pat.len() > 0,
    ensures
        scan(data, pat, p).len() > 0,
        scan(data, pat, p).last() == data.len(),
    decreases data.len() - p,
{
    if p < data.len() {
        lemma_pass(data, pat, p);
        lemma_scan_closed(data, pat, pass_cursor(data, pat, p));
    }
}

/// Where the pattern's first byte occurs nowhere else in the pattern, no
/// scan steps over a member.
pub proof fn lemma_unique_first_byte_is_whole(data: Seq<u8>, pat: Seq<u8>, p: int)
    requires
        0 <= p,
        data.len() <= u64::MAX,
        pat.len() > 0,
        first_byte_unique(pat),
    ensures
        scan_is_whole(data, pat, p),
    decreases data.len() - p,
{
    if p < data.len() {
        let e = window_end(data, p);
        let s = pass_candidate(data, pat, p);
        lemma_first_prefix(data, pat, whole_end(pat, p, e), e);
        lemma_pass(data, pat, p);
        assert forall|q: int|
            s < q < pass_cursor(data, pat, p) implies !#[trigger] matches_at(data, pat, q) by {
            if matches_at(data, pat, q) {
                assert(data.subrange(q, q + pat.len())[0] == pat[0]);
                if q < e {
                    assert(data.subrange(s, e)[q - s] == pat.subrange(0, e - s)[q - s]);
                } else {
                    assert(data.subrange(s, s + pat.len())[q - s] == pat[q - s]);
                }
            }
        }
        lemma_unique_first_byte_is_whole(data, pat, pass_cursor(data, pat, p));
    }
}

/// No member is missed. In a scan that is whole, every place at or behind
/// the cursor where the pattern stands is a boundary of the scan, wherever
/// it lies in a window or across the end of one.
pub proof fn lemma_scan_complete(data: Seq<u8>, pat: Seq<u8>, p: int, q: int)
    requires
        0 <= p <= q,
        data.len() <= u64::MAX,
        pat.len() > 0,
        scan_is_whole(data, pat, p),
        matches_at(data, pat, q),
    ensures
        scan(data, pat, p).contains(q as u64),
    decreases data.len() - p,
{
    let e = window_end(data, p);
    let w = whole_end(pat, p, e);
    let s = pass_candidate(data, pat, p);
    let c = pass_cursor(data, pat, p);
    let a = pass_positions(data, pat, p);
    lemma_first_prefix(data, pat, w, e);
    lemma_pass(data, pat, p);
    let b = scan(data, pat, c);
    assert(scan(data, pat, p) == a + b);
    if q >= c {
        lemma_scan_complete(data, pat, c, q);
        let j = choose|j: int| 0 <= j < b.len() && b[j] == q as u64;
        assert((a + b)[a.len() + j] == q as u64);
    } else {
        if q < w {
            lemma_matches_in_complete(data, pat, p, w, q);
            let inner = matches_in(data, pat, p, w);
            let i = choose|i: int| 0 <= i < inner.len() && inner[i] == q as u64;
            assert(a[i] == q as u64);
        } else {
            if q < e {
                assert(data.subrange(q, e) =~= data.subrange(q, q + pat.len()).subrange(0, e - q));
                assert(prefix_at(data, pat, q, e));
            }
            assert(q == s);
            assert(a[a.len() - 1] == q as u64);
        }
        let i = choose|i: int| 0 <= i < a.len() && a[i] == q as u64;
        assert((a + b)[i] == q as u64);
    }
}

/// A header at the cursor is the first boundary of the scan, and the scan
/// has a boundary behind it: there is at least one member, and the first
/// member starts at the cursor.
pub proof fn lemma_first_member(data: Seq<u8>, pat: Seq<u8>, p: int)
    requires
        0 <= p,
        data.len() <= u64::MAX,
        0 < pat.len() <= BUFFER_LEN,
        matches_at(data, pat, p),
    ensures
        scan(data, pat, p).len() >= 2,
        scan(data, pat, p)[0] == p,
        members_of(scan(data, pat, p)).len() >= 1,
        members_of(scan(data, pat, p))[0].offset == p,
{
    let e = window_end(data, p);
    let w = whole_end(pat, p, e);
    let a = pass_positions(data, pat, p);
    let inner = matches_in(data, pat, p, w);
    let b = scan(data, pat, pass_cursor(data, pat, p));
    lemma_pass(data, pat, p);
    lemma_matches_in(data, pat, p, w);
    lemma_matches_in_complete(data, pat, p, w, p);
    lemma_scan_closed(data, pat, pass_cursor(data, pat, p));
    let i = choose|i: int| 0 <= i < inner.len() && inner[i] == p as u64;
    if i > 0 {
        assert(inner[0] < inner[i]);
    }
    assert(a[0] == inner[0]);
    assert(scan(data, pat, p) == a + b);
    assert((a + b)[0] == a[0]);
}

/// Two increasing sequences with the same elements are the same sequence.
pub proof fn lemma_increasing_unique(x: Seq<u64>, y: Seq<u64>)
    requires
        increasing(x),
        increasing(y),
        forall|i: int| 0 <= i < x.len() ==> y.contains(#[trigger] x[i]),
        forall|j: int| 0 <= j < y.len() ==> x.contains(#[trigger] y[j]),
    ensures
        x == y,
    decreases x.len(),
{
    if x.len() == 0 {
        if y.len() > 0 {
            assert(x.contains(y[0]));
        }
        assert(x =~= y);
    } else {
        let top = x.last();
        assert(y.contains(top));
        let at = choose|j: int| 0 <= j < y.len() && y[j] == top;
        assert(x.contains(y.last()));
        let back = choose|i: int| 0 <= i < x.len() && x[i] == y.last();
        assert(at == y.len() - 1);
        let xs = x.drop_last();
        let ys = y.drop_last();
        assert forall|i: int| 0 <= i < xs.len() implies ys.contains(#[trigger] xs[i]) by {
            assert(y.contains(x[i]));
            let j = choose|j: int| 0 <= j < y.len() && y[j] == x[i];
            assert(ys[j] == xs[i]);
        }
        assert forall|j: int| 0 <= j < ys.len() implies xs.contains(#[trigger] ys[j]) by {
            assert(x.contains(y[j]));
            let i = choose|i: int| 0 <= i < x.len() && x[i] == y[j];
            assert(xs[i] == ys[j]);
        }
        lemma_increasing_unique(xs, ys);
        assert(x =~= xs.push(top));
        assert(y =~= ys.push(top));
    }
}

/// The scan reports exactly the members that are there. Where the scan is
/// whole and `offsets` lists in increasing order the places at or behind
/// the cursor where the pattern stands, the boundaries of the scan are
/// these offsets and then the end of the source.
pub proof fn lemma_scan_exact(data: Seq<u8>, pat: Seq<u8>, p: int, offsets: Seq<u64>)
    requires
        0 <= p,
        data.len() <= u64::MAX,
        pat.len() > 0,
        scan_is_whole(data, pat, p),
        increasing(offsets),
        forall|i: int|
            0 <= i < offsets.len() ==> p <= #[trigger] offsets[i] && matches_at(
                data,
                pat,
                offsets[i] as int,
            ),
        forall|q: int| p <= q && #[trigger] matches_at(data, pat, q) ==> offsets.contains(q as u64),
    ensures
        scan(data, pat, p) == offsets.push(data.len() as u64),
{
    let b = scan(data, pat, p);
    lemma_scan_closed(data, pat, p);
    lemma_scan_increasing(data, pat, p);
    let found = b.drop_last();
    assert forall|i: int| 0 <= i < found.len() implies offsets.contains(#[trigger] found[i]) by {
        lemma_scan_sound(data, pat, p, i);
        if p <= data.len() {
            assert(p <= b[i]);
        } else {
            assert(b =~= seq![data.len() as u64]);
        }
    }
    assert forall|j: int| 0 <= j < offsets.len() implies found.contains(#[trigger] offsets[j]) by {
        let q = offsets[j] as int;
        lemma_scan_complete(data, pat, p, q);
        let i = choose|i: int| 0 <= i < b.len() && b[i] == q as u64;
        assert(found[i] == offsets[j]);
    }
    lemma_increasing_unique(found, offsets);
    assert(b =~= found.push(b.last()));
}

/// The members of a scan lie end to end from the first boundary to the end
/// of the source: the first offset and all the lengths add up to the length
/// of the source.
pub proof fn lemma_members_cover(data: Seq<u8>, pat: Seq<u8>, p: int)
    requires
        0 <= p,
        data.len() <= u64::MAX,
        pat.len() > 0,
    ensures
        scan(data, pat, p).len() > 0,
        scan(data, pat, p)[0] + total_length(
            members_of(scan(data, pat, p)),
            scan(data, pat, p).len() - 1,
        ) == data.len(),
{
    let b = scan(data, pat, p);
    lemma_scan_closed(data, pat, p);
    lemma_scan_increasing(data, pat, p);
    lemma_members_tile(b, b.len() - 1);
}

/// Whether `n` bytes of `a` from `from` on equal `n` bytes of the pattern from `pfrom` on.
fn agree(a: &Vec<u8>, from: usize, pat: &[u8; 10], pfrom: usize, n: usize) -> (r: bool)
    requires
        from + n <= a.len(),
        pfrom + n <= 10,
    ensures
        r == (a@.subrange(from as int, from + n) == pat@.subrange(pfrom as int, pfrom + n)),
{
    let mut k: usize = 0;
    while k < n
        invariant
            k <= n,
            from + n <= a.len(),
            pfrom + n <= 10,
            a@.subrange(from as int, from + k) == pat@.subrange(pfrom as int, pfrom + k),
        decreases n - k,
    {
        if a[from + k] != pat[pfrom + k] {
            assert(a@.subrange(from as int, from + n)[k as int] != pat@.subrange(
                pfrom as int,
                pfrom + n,
            )[k as int]);
            return false;
        }
        k += 1;
        assert(a@.subrange(from as int, from + k) =~= a@.subrange(from as int, from + k - 1).push(
            a@[from + k - 1],
        ));
        assert(pat@.subrange(pfrom as int, pfrom + k) =~= pat@.subrange(
            pfrom as int,
            pfrom + k - 1,
        ).push(pat@[pfrom + k - 1]));
    }
    true
}

/// A container that has been opened: its source, and the header of its first
/// member, which is the pattern that every later member is found by.
pub struct GzipOffsetReader {
    reader: ByteSource,
    gzip_header: [u8; 10],
}

impl GzipOffsetReader {
    /// The source that the container is read from.
    pub closed spec fn source(&self) -> ByteSource {
        self.reader
    }

    /// The pattern.
    pub closed spec fn header(&self) -> Seq<u8> {
        self.gzip_header@
    }

    /// The source is well formed and the header stands at its cursor.
    pub closed spec fn wf(&self) -> bool {
        self.reader.wf() && matches_at(
            self.reader.bytes(),
            self.gzip_header@,
            self.reader.cursor(),
        )
    }

    /// Opens a container: takes the ten bytes at the cursor as the pattern,
    /// checks the two magic bytes, and puts the cursor back where it was.
    pub fn new(reader: ByteSource) -> (r: Result<Self, ScanError>)
        requires
            reader.wf(),
        ensures
            reader.cursor() + HEADER_LEN > reader.bytes().len() ==> r == Err::<Self, ScanError>(
                ScanError::IoFailure,
            ),
            reader.cursor() + HEADER_LEN <= reader.bytes().len() && !(reader.bytes()[reader.cursor()]
                == 0x1f && reader.bytes()[reader.cursor() + 1] == 0x8b) ==> r == Err::<
                Self,
                ScanError,
            >(ScanError::InvalidFormat),
            reader.cursor() + HEADER_LEN <= reader.bytes().len() && reader.bytes()[reader.cursor()]
                == 0x1f && reader.bytes()[reader.cursor() + 1] == 0x8b ==> r.is_ok(),
            r matches Ok(g) ==> g.wf() && g.source().bytes() == reader.bytes()
                && g.source().cursor() == reader.cursor() && g.header()
                == reader.bytes().subrange(reader.cursor(), reader.cursor() + HEADER_LEN),
    {
        let mut reader = reader;
        let ghost start = reader.cursor();
        match reader.read_exact(HEADER_LEN) {
            None => Err(ScanError::IoFailure),
            Some(first) => {
                let mut gzip_header = [0u8;10];
                let mut k: usize = 0;
                while k < HEADER_LEN
                    invariant
                        k <= HEADER_LEN,
                        first@.len() == HEADER_LEN,
                        gzip_header@.len() == HEADER_LEN,
                        forall|j: int| 0 <= j < k ==> gzip_header@[j] == first@[j],
                    decreases HEADER_LEN - k,
                {
                    gzip_header[k] = first[k];
                    k += 1;
                }
                assert(gzip_header@ =~= first@);
                if gzip_header[0] == 0x1f && gzip_header[1] == 0x8b {
                    reader.seek_back(HEADER_LEN);
                    Ok(Self { reader, gzip_header })
                } else {
                    Err(ScanError::InvalidFormat)
                }
            },
        }
    }

    /// The stream of the container's members.
    pub fn iter_members(self) -> (it: GzipMemberIterator)
        requires
            self.wf(),
        ensures
            it.wf(),
            it.pending() == scan(self.source().bytes(), self.header(), self.source().cursor()),
            increasing(it.pending()),
    {
        GzipMemberIterator::new(self.reader, self.gzip_header)
    }

    /// All members of the container, in the order in which they lie in it.
    pub fn get_members(self) -> (members: Vec<GzipMember>)
        requires
            self.wf(),
        ensures
            members@ == members_of(
                scan(self.source().bytes(), self.header(), self.source().cursor()),
            ),
            members@.len() >= 1,
            members@[0].offset == self.source().cursor(),
    {
        proof {
            lemma_first_member(self.reader.bytes(), self.gzip_header@, self.reader.cursor());
        }
        let mut it = self.iter_members();
        it.collect_members()
    }

}

/// A forward-only stream of members. It holds the member that is open (its
/// start known, its end not yet) and the boundaries found but not yet used.
pub struct GzipMemberIterator {
    reader: ByteSource,
    gzip_header: [u8; 10],
    positions: VecDeque<u64>,
    previous_block: Option<GzipMember>,
    last_member_entered: bool,
}

impl GzipMemberIterator {
    /// The boundaries still to come, the start of the open member first:
    /// what is held, then what scanning the rest of the source will report.
    pub closed spec fn pending(&self) -> Seq<u64> {
        let head = match self.previous_block {
            Some(m) => seq![m.offset],
            None => Seq::empty(),
        };
        let rest = if self.last_member_entered {
            Seq::empty()
        } else {
            scan(self.reader.bytes(), self.gzip_header@, self.reader.cursor())
        };
        head + self.positions@ + rest
    }

    /// The source is well formed and the boundaries to come are increasing.
    pub closed spec fn wf(&self) -> bool {
        self.reader.wf() && increasing(self.pending())
    }

    /// How far the stream is from its end; falls with every pass.
    closed spec fn fuel(&self) -> int {
        if self.last_member_entered {
            0
        } else {
            self.reader.bytes().len() - self.reader.cursor() + 1
        }
    }

    /// A stream over what `reader` still holds, with `gzip_header` as the pattern.
    pub fn new(reader: ByteSource, gzip_header: [u8; 10]) -> (it: Self)
        requires
            reader.wf(),
        ensures
            it.wf(),
            it.pending() == scan(reader.bytes(), gzip_header@, reader.cursor()),
            increasing(it.pending()),
    {
        proof {
            lemma_scan_increasing(reader.bytes(), gzip_header@, reader.cursor());
        }
        let it = Self {
            reader,
            gzip_header,
            positions: VecDeque::new(),
            previous_block: None,
            last_member_entered: false,
        };
        assert(it.pending() =~= scan(reader.bytes(), gzip_header@, reader.cursor()));
        it
    }

    /// One scan pass: reads the next window and queues the boundaries in it.
    /// `Ok(None)` when the end was reached before, else whether any was queued.
    fn find_members(&mut self) -> (r: Result<Option<bool>, ScanError>)
        requires
            old(self).wf(),
            old(self).positions@.len() == 0,
        ensures
            final(self).wf(),
            final(self).pending() == old(self).pending(),
            final(self).previous_block == old(self).previous_block,
            final(self).fuel() <= old(self).fuel(),
            r.is_ok(),
            r == Ok::<Option<bool>, ScanError>(None) <==> old(self).last_member_entered,
            r matches Ok(Some(any)) ==> any == (final(self).positions@.len() > 0) && (!any
                ==> final(self).fuel() < old(self).fuel()),
            r matches Ok(None) ==> *final(self) == *old(self),
    {
        if self.last_member_entered {
            return Ok(None);
        }
        let header = self.gzip_header;
        let ghost data = self.reader.bytes();
        let ghost pat = header@;
        let pos: usize = self.reader.position();
        let ghost p = pos as int;
        self.positions.clear();
        let buffer = self.reader.read(BUFFER_LEN);
        let n: usize = buffer.len();
        let ghost e = p + n;
        if n == 0 {
            self.positions.push_back(pos as u64);
            self.last_member_entered = true;
            assert(self.positions@ =~= scan(data, pat, p));
            assert(self.pending() =~= old(self).pending());
            return Ok(Some(true));
        }
        assert(e == window_end(data, p));
        let whole: usize = if n >= HEADER_LEN { n - HEADER_LEN + 1 } else { 0 };
        let ghost w = whole_end(pat, p, e);
        assert(w == p + whole);
        let mut i: usize = 0;
        while i < whole
            invariant
                i <= whole,
                whole == 0 || whole + HEADER_LEN == n + 1,
                n == buffer.len(),
                data.len() <= usize::MAX,
                data == old(self).reader.bytes(),
                e == window_end(data, p),
                self.reader.wf(),
                self.reader.bytes() == data,
                self.reader.cursor() == e,
                self.gzip_header == old(self).gzip_header,
                header == self.gzip_header,
                self.previous_block == old(self).previous_block,
                !self.last_member_entered,
                !old(self).last_member_entered,
                old(self).positions@.len() == 0,
                old(self).reader.cursor() == p,
                old(self).wf(),
                p + n <= data.len(),
                p == pos,
                e == p + n,
                pat == header@,
                buffer@ == data.subrange(p, e),
                self.positions@ == matches_in(data, pat, p, p + i),
            decreases whole - i,
        {
            assert(buffer@.subrange(i as int, i + HEADER_LEN) =~= data.subrange(
                p + i,
                p + i + HEADER_LEN,
            ));
            if buffer[i] == header[0] && agree(&buffer, i, &header, 0, HEADER_LEN) {
                assert(pat.subrange(0, HEADER_LEN as int) =~= pat);
                self.positions.push_back((pos + i) as u64);
            } else {
                assert(pat.subrange(0, HEADER_LEN as int) =~= pat);
                assert(buffer@.subrange(i as int, i + HEADER_LEN)[0] == buffer@[i as int]);
            }
            i += 1;
        }
        proof {
            lemma_first_prefix(data, pat, w, e);
        }
        while i < n
            invariant
                whole <= i <= n,
                n == buffer.len(),
                n <= BUFFER_LEN,
                n > 0,
                p + n <= data.len(),
                data.len() <= usize::MAX,
                p == pos,
                e == p + n,
                w == p + whole,
                whole + HEADER_LEN > n,
                pat == header@,
                data == old(self).reader.bytes(),
                buffer@ == data.subrange(p, e),
                e == window_end(data, p),
                w == whole_end(pat, p, e),
                self.positions@ == matches_in(data, pat, p, w),
                first_prefix(data, pat, w, e) == first_prefix(data, pat, p + i, e),
                self.reader.wf(),
                self.reader.bytes() == data,
                self.reader.cursor() == e,
                self.gzip_header == old(self).gzip_header,
                header == self.gzip_header,
                self.previous_block == old(self).previous_block,
                !self.last_member_entered,
                !old(self).last_member_entered,
                old(self).positions@.len() == 0,
                old(self).reader.cursor() == p,
                old(self).wf(),
            decreases n - i,
        {
            let avail: usize = n - i;
            assert(buffer@.subrange(i as int, i + avail) =~= data.subrange(p + i, e));
            if buffer[i] == header[0] && agree(&buffer, i, &header, 0, avail) {
                let needed: usize = HEADER_LEN - avail;
                let ghost s = p + i;
                assert(prefix_at(data, pat, s, e));
                assert(pass_candidate(data, pat, p) == s);
                match self.reader.read_exact(needed) {
                    None => {
                        // The source ends inside the candidate: no boundary.
                        proof {
                            lemma_pass(data, pat, p);
                            assert(!matches_at(data, pat, s));
                            assert(self.positions@ =~= pass_positions(data, pat, p));
                            assert(self.reader.cursor() == pass_cursor(data, pat, p));
                            assert(self.pending() =~= old(self).pending());
                        }
                        return Ok(Some(self.positions.len() > 0));
                    },
                    Some(next) => {
                        let hit = agree(&next, 0, &header, avail, needed);
                        assert(next@.subrange(0, needed as int) =~= data.subrange(e, s + HEADER_LEN));
                        proof {
                            let whole_here = data.subrange(s, s + HEADER_LEN);
                            assert(whole_here.subrange(0, avail as int) =~= data.subrange(s, e));
                            assert(whole_here.subrange(avail as int, HEADER_LEN as int)
                                =~= data.subrange(e, s + HEADER_LEN));
                            assert(pat.subrange(0, avail as int) + pat.subrange(
                                avail as int,
                                HEADER_LEN as int,
                            ) =~= pat);
                            assert(whole_here.subrange(0, avail as int) + whole_here.subrange(
                                avail as int,
                                HEADER_LEN as int,
                            ) =~= whole_here);
                            assert(hit == matches_at(data, pat, s));
                        }
                        if hit {
                            self.positions.push_back((pos + i) as u64);
                        } else {
                            self.reader.seek_back(needed);
                        }
                        proof {
                            lemma_pass(data, pat, p);
                            assert(self.positions@ =~= pass_positions(data, pat, p));
                            assert(self.reader.cursor() == pass_cursor(data, pat, p));
                            assert(self.pending() =~= old(self).pending());
                        }
                        return Ok(Some(self.positions.len() > 0));
                    },
                }
            } else {
                assert(!prefix_at(data, pat, p + i, e)) by {
                    if prefix_at(data, pat, p + i, e) {
                        assert(data.subrange(p + i, e)[0] == pat.subrange(0, avail as int)[0]);
                    }
                }
            }
            i += 1;
        }
        proof {
            lemma_pass(data, pat, p);
            assert(pass_candidate(data, pat, p) == e);
            assert(self.positions@ =~= pass_positions(data, pat, p));
            assert(self.pending() =~= old(self).pending());
        }
        Ok(Some(self.positions.len() > 0))
    }

    /// The next member: the open one, closed by the boundary that follows it.
    /// `None` once fewer than two boundaries are left.
    pub fn next(&mut self) -> (r: Option<GzipMember>)
        requires
            old(self).wf(),
        ensures
            final(self).wf(),
            increasing(final(self).pending()),
            old(self).pending().len() >= 2 ==> r == Some(
                GzipMember {
                    offset: old(self).pending()[0],
                    length: (old(self).pending()[1] - old(self).pending()[0]) as u64,
                },
            ) && final(self).pending() == old(self).pending().skip(1),
            old(self).pending().len() < 2 ==> r.is_none() && final(self).pending() == old(
                self,
            ).pending(),
    {
        loop
            invariant
                self.wf(),
                self.pending() == old(self).pending(),
            decreases self.fuel(), (if self.previous_block.is_none() { 1int } else { 0int }),
        {
            if self.positions.len() == 0 {
                match self.find_members() {
                    Ok(Some(any)) => {
                        if !any {
                            continue ;
                        }
                    },
                    _ => {
                        return None;
                    },
                }
            }
            let ghost before = self.pending();
            match self.previous_block {
                None => {
                    let first = self.positions.pop_front();
                    match first {
                        Some(offset) => {
                            self.previous_block = Some(GzipMember::new(offset));
                            assert(self.pending() =~= before);
                        },
                        None => {},
                    }
                },
                Some(block) => {
                    let first = self.positions.pop_front();
                    match first {
                        Some(offset) => {
                            assert(before[0] == block.offset && before[1] == offset);
                            let closed = GzipMember {
                                offset: block.offset,
                                length: offset - block.offset,
                            };
                            self.previous_block = Some(GzipMember::new(offset));
                            assert(self.pending() =~= before.skip(1));
                            return Some(closed);
                        },
                        None => {},
                    }
                },
            }
        }
    }
    /// The members still to come, all of them; the stream is at its end afterwards.
    pub fn collect_members(&mut self) -> (members: Vec<GzipMember>)
        requires
            old(self).wf(),
        ensures
            final(self).wf(),
            members@ == members_of(old(self).pending()),
            final(self).pending().len() < 2,
    {
        let ghost all = self.pending();
        let mut members: Vec<GzipMember> = Vec::new();
        loop
            invariant
                self.wf(),
                all == old(self).pending(),
                members@.len() <= members_of(all).len(),
                members@.len() <= all.len(),
                self.pending() == all.skip(members@.len() as int),
                members@ == members_of(all).take(members@.len() as int),
            decreases self.pending().len(),
        {
            match self.next() {
                None => {
                    assert(members@ =~= members_of(all));
                    return members;
                },
                Some(m) => {
                    let ghost k = members@.len() as int;
                    members.push(m);
                    assert(all.skip(k).skip(1) =~= all.skip(k + 1));
                    assert(members@ =~= members_of(all).take(k + 1));
                },
            }
        }
    }
}

} // verus!
