//! Partitioning the lines into contiguous chunks, counting each chunk on
//! its own and merging the partial counts.

use crate::counts::{
    char_counts, count_chars, counts_fit, lemma_stretch_fits, lemma_total_occurrences_concat,
    lines_of, total_occurrences, CharCounts,
};
use vstd::prelude::*;
use vstd::slice::slice_subrange;

verus! {

/// The number of lines in a chunk when `len` lines are shared out among
/// `n` workers: `len / n`, rounded up.
pub open spec fn chunk_size_of(len: nat, n: nat) -> nat
    recommends
        n > 0,
{
    ((len + n - 1) / (n as int)) as nat
}

/// The number of chunks of `size` lines that `len` lines fill, the last
/// one possibly in part. No lines, no chunks.
pub open spec fn chunk_count(len: nat, size: nat) -> nat {
    if size == 0 {
        0
    } else {
        ((len + size - 1) / (size as int)) as nat
    }
}

/// Where chunk `k` ends: after `size` more items, or where the items end.
pub open spec fn chunk_end(len: nat, size: nat, k: nat) -> nat {
    if (k + 1) * size < len {
        (k + 1) * size
    } else {
        len
    }
}

/// Chunk `k` of `items` cut into chunks of `size`.
pub open spec fn chunk<A>(items: Seq<A>, size: nat, k: nat) -> Seq<A> {
    items.subrange((k * size) as int, chunk_end(items.len(), size, k) as int)
}

/// The occurrences of `c` in the first `upto` chunks, chunk by chunk.
pub open spec fn chunks_occurrences(lines: Seq<Seq<char>>, size: nat, upto: nat, c: char) -> nat
    decreases upto,
{
    if upto == 0 {
        0
    } else {
        chunks_occurrences(lines, size, (upto - 1) as nat, c) + total_occurrences(
            chunk(lines, size, (upto - 1) as nat),
            c,
        )
    }
}

/// The count of `c` in all of `parts` together.
pub open spec fn parts_count(parts: Seq<CharCounts>, c: char) -> nat
    decreases parts.len(),
{
    if parts.len() == 0 {
        0
    } else {
        parts_count(parts.drop_last(), c) + parts.last().count_of(c)
    }
}

/// Rounding up: `q` is `len / n` rounded up exactly if `q * n` reaches
/// `len` and overshoots it by less than `n`.
pub proof fn lemma_round_up(len: nat, n: nat, q: nat)
    requires
        n > 0,
    ensures
        q == chunk_size_of(len, n) <==> (len <= q * n && q * n < len + n),
{
    let d = (len + n - 1) / (n as int);
    vstd::arithmetic::div_mod::lemma_fundamental_div_mod((len + n - 1) as int, n as int);
    vstd::arithmetic::div_mod::lemma_mod_bound((len + n - 1) as int, n as int);
    assert(d >= 0) by (nonlinear_arith)
        requires
            d == (len + n - 1) / (n as int),
            n > 0,
    ;
    if len <= q * n && q * n < len + n {
        assert(q == d) by (nonlinear_arith)
            requires
                len <= q * n,
                q * n < len + n,
                len + n - 1 == n * d + (len + n - 1) % (n as int),
                0 <= (len + n - 1) % (n as int) < n,
                n > 0,
        ;
    }
    if q == d {
        assert(len <= q * n && q * n < len + n) by (nonlinear_arith)
            requires
                q == d,
                len + n - 1 == n * d + (len + n - 1) % (n as int),
                0 <= (len + n - 1) % (n as int) < n,
                n > 0,
        ;
    }
}

/// Chunks of the size chosen for `n` workers are at most `n`, and nonempty
/// input gives a positive chunk size.
pub proof fn lemma_chunk_count_bounded(len: nat, n: nat)
    requires
        n > 0,
    ensures
        chunk_count(len, chunk_size_of(len, n)) <= n,
        len > 0 ==> chunk_size_of(len, n) > 0,
        len == 0 ==> chunk_count(len, chunk_size_of(len, n)) == 0,
{
    let size = chunk_size_of(len, n);
    lemma_round_up(len, n, size);
    if len > 0 {
        assert(size > 0) by (nonlinear_arith)
            requires
                len <= size * n,
                len > 0,
        ;
        let k = chunk_count(len, size);
        lemma_round_up(len, size, k);
        assert(k <= n) by (nonlinear_arith)
            requires
                len <= size * n,
                k * size < len + size,
                size > 0,
        ;
    } else {
        if size > 0 {
            lemma_round_up(0, size, 0);
        }
    }
}

/// The first `upto` chunks of `items`, joined in order.
pub open spec fn chunks_joined<A>(items: Seq<A>, size: nat, upto: nat) -> Seq<A>
    decreases upto,
{
    if upto == 0 {
        Seq::empty()
    } else {
        chunks_joined(items, size, (upto - 1) as nat) + chunk(items, size, (upto - 1) as nat)
    }
}

/// Every chunk starts inside the items, is nonempty and no longer than
/// `size`; every chunk but the last is exactly `size` long.
pub proof fn lemma_chunk_len<A>(items: Seq<A>, size: nat, k: nat)
    requires
        size > 0,
        k < chunk_count(items.len(), size),
    ensures
        k * size < items.len(),
        0 < chunk(items, size, k).len() <= size,
        k + 1 < chunk_count(items.len(), size) ==> chunk(items, size, k).len() == size,
{
    let count = chunk_count(items.len(), size);
    lemma_round_up(items.len(), size, count);
    assert(k * size < items.len()) by (nonlinear_arith)
        requires
            k + 1 <= count,
            count * size < items.len() + size,
            size > 0,
    ;
    assert((k + 1) * size == k * size + size) by (nonlinear_arith);
    if k + 1 < count {
        assert((k + 1) * size < items.len()) by (nonlinear_arith)
            requires
                k + 2 <= count,
                count * size < items.len() + size,
                size > 0,
        ;
    }
}

/// The first `upto` chunks, joined, are the items before the end of the
/// last of them.
pub proof fn lemma_chunks_joined_prefix<A>(items: Seq<A>, size: nat, upto: nat)
    requires
        size > 0,
        upto <= chunk_count(items.len(), size),
    ensures
        chunks_joined(items, size, upto) == items.take(
            if upto * size < items.len() {
                (upto * size) as int
            } else {
                items.len() as int
            },
        ),
    decreases upto,
{
    if upto == 0 {
        assert(0 * size == 0) by (nonlinear_arith);
        assert(chunks_joined(items, size, upto) =~= items.take(0));
    } else {
        let k = (upto - 1) as nat;
        lemma_chunks_joined_prefix(items, size, k);
        lemma_chunk_len(items, size, k);
        assert((k + 1) * size == k * size + size) by (nonlinear_arith);
        let start = (k * size) as int;
        let end = chunk_end(items.len(), size, k) as int;
        assert(items.take(end) =~= items.take(start) + items.subrange(start, end));
    }
}

/// The chunks partition the items: joined in order they are the items,
/// each item in exactly one chunk.
pub proof fn lemma_chunks_partition<A>(items: Seq<A>, size: nat)
    requires
        size > 0,
    ensures
        chunks_joined(items, size, chunk_count(items.len(), size)) == items,
{
    let count = chunk_count(items.len(), size);
    lemma_round_up(items.len(), size, count);
    lemma_chunks_joined_prefix(items, size, count);
    assert(items.take(items.len() as int) =~= items);
}

/// The first `upto` chunks hold exactly the lines before the end of the
/// last of them.
pub proof fn lemma_chunks_cover_prefix(lines: Seq<Seq<char>>, size: nat, upto: nat, c: char)
    requires
        size > 0,
        upto <= chunk_count(lines.len(), size),
    ensures
        chunks_occurrences(lines, size, upto, c) == total_occurrences(
            lines.take(
                if upto * size < lines.len() {
                    (upto * size) as int
                } else {
                    lines.len() as int
                },
            ),
            c,
        ),
    decreases upto,
{
    if upto == 0 {
        assert(0 * size == 0) by (nonlinear_arith);
        assert(lines.take(0).len() == 0);
    } else {
        let k = (upto - 1) as nat;
        lemma_chunks_cover_prefix(lines, size, k, c);
        assert((k + 1) * size == k * size + size) by (nonlinear_arith);
        let start: int = if k * size < lines.len() {
            (k * size) as int
        } else {
            lines.len() as int
        };
        let end: int = if upto * size < lines.len() {
            (upto * size) as int
        } else {
            lines.len() as int
        };
        lemma_chunk_len(lines, size, k);
        assert(chunk(lines, size, k) == lines.subrange(start, end));
        assert(lines.take(end) =~= lines.take(start) + lines.subrange(start, end));
        lemma_total_occurrences_concat(lines.take(start), lines.subrange(start, end), c);
    }
}

/// Partitioning loses and doubles nothing: the occurrences of a character
/// in the chunks sum to its occurrences in all the lines.
pub proof fn lemma_chunks_sum(lines: Seq<Seq<char>>, size: nat, c: char)
    requires
        size > 0,
    ensures
        chunks_occurrences(lines, size, chunk_count(lines.len(), size), c) == total_occurrences(
            lines,
            c,
        ),
{
    let count = chunk_count(lines.len(), size);
    lemma_round_up(lines.len(), size, count);
    lemma_chunks_cover_prefix(lines, size, count, c);
    assert(lines.take(lines.len() as int) =~= lines);
}

/// The length of a chunk when `len` lines are shared out among `n`
/// workers.
pub fn chunk_size(len: usize, n: usize) -> (size: usize)
    requires
        n >= 1,
    ensures
        size == chunk_size_of(len as nat, n as nat),
        size <= len,
{
    let whole: usize = len / n;
    let rest: usize = len % n;
    proof {
        vstd::arithmetic::div_mod::lemma_fundamental_div_mod(len as int, n as int);
        assert(whole * n <= len && (whole == len ==> rest == 0) && whole <= len)
            by (nonlinear_arith)
            requires
                len == n * whole + rest,
                0 <= rest < n,
                n >= 1,
        ;
        let q: nat = if rest == 0 {
            whole as nat
        } else {
            (whole + 1) as nat
        };
        assert(len <= q * n && q * n < len + n) by (nonlinear_arith)
            requires
                len == n * whole + rest,
                0 <= rest < n,
                q == if rest == 0 {
                    whole as int
                } else {
                    whole + 1
                },
        ;
        lemma_round_up(len as nat, n as nat, q);
    }
    if rest == 0 {
        whole
    } else {
        whole + 1
    }
}

/// Cuts `input` into the chunks for `n` workers, in order.
pub fn split_chunks<'a>(input: &'a [String], n: usize) -> (chunks: Vec<&'a [String]>)
    requires
        n >= 1,
    ensures
        chunks.len() == chunk_count(input@.len(), chunk_size_of(input@.len(), n as nat)),
        chunks.len() <= n,
        forall|k: int|
            0 <= k < chunks.len() ==> (#[trigger] chunks[k])@ == chunk(
                input@,
                chunk_size_of(input@.len(), n as nat),
                k as nat,
            ),
{
    let len: usize = input.len();
    let size: usize = chunk_size(len, n);
    let mut chunks: Vec<&'a [String]> = Vec::new();
    let mut start: usize = 0;
    proof {
        lemma_chunk_count_bounded(len as nat, n as nat);
        assert(0 * size == 0) by (nonlinear_arith);
    }
    while start < len
        invariant
            len == input@.len(),
            size == chunk_size_of(len as nat, n as nat),
            len > 0 ==> size > 0,
            start <= len,
            start < len ==> start == chunks.len() * size,
            start == len && len > 0 ==> (chunks.len() - 1) * size < len <= chunks.len() * size,
            len == 0 ==> chunks.len() == 0,
            forall|k: int|
                0 <= k < chunks.len() ==> (#[trigger] chunks[k])@ == chunk(
                    input@,
                    size as nat,
                    k as nat,
                ),
        decreases len - start,
    {
        let ghost k = chunks.len() as nat;
        let end: usize = if len - start <= size {
            len
        } else {
            start + size
        };
        proof {
            assert((k + 1) * size == k * size + size) by (nonlinear_arith);
            assert((k + 1 - 1) * size == k * size) by (nonlinear_arith);
            assert(end == chunk_end(len as nat, size as nat, k));
        }
        chunks.push(slice_subrange(input, start, end));
        start = end;
    }
    proof {
        if len > 0 {
            assert(chunks.len() > 0);
            assert(chunks.len() * size < len + size) by (nonlinear_arith)
                requires
                    (chunks.len() - 1) * size < len,
            ;
            lemma_round_up(len as nat, size as nat, chunks.len() as nat);
        }
    }
    chunks
}

/// The counts of parts add up over concatenation.
pub proof fn lemma_parts_count_concat(a: Seq<CharCounts>, b: Seq<CharCounts>, c: char)
    ensures
        parts_count(a + b, c) == parts_count(a, c) + parts_count(b, c),
    decreases b.len(),
{
    if b.len() == 0 {
        assert(a + b =~= a);
    } else {
        assert((a + b).drop_last() =~= a + b.drop_last());
        assert((a + b).last() == b.last());
        lemma_parts_count_concat(a, b.drop_last(), c);
    }
}

/// Taking one part out lowers the count by the count of that part.
pub proof fn lemma_parts_count_remove(parts: Seq<CharCounts>, i: int, c: char)
    requires
        0 <= i < parts.len(),
    ensures
        parts_count(parts, c) == parts_count(parts.remove(i), c) + parts[i].count_of(c),
{
    let head = parts.take(i);
    let one = seq![parts[i]];
    let tail = parts.skip(i + 1);
    assert(parts =~= head + one + tail);
    assert(parts.remove(i) =~= head + tail);
    lemma_parts_count_concat(head + one, tail, c);
    lemma_parts_count_concat(head, one, c);
    lemma_parts_count_concat(head, tail, c);
    assert(one.drop_last().len() == 0);
    assert(parts_count(one, c) == parts[i].count_of(c)) by {
        reveal_with_fuel(parts_count, 2);
    }
}

/// Merging does not depend on the order in which the parts arrive: the
/// same parts in another order give the same count for every character.
pub proof fn lemma_parts_count_any_order(a: Seq<CharCounts>, b: Seq<CharCounts>, c: char)
    requires
        a.to_multiset() == b.to_multiset(),
    ensures
        parts_count(a, c) == parts_count(b, c),
    decreases a.len(),
{
    vstd::seq_lib::to_multiset_len(a);
    vstd::seq_lib::to_multiset_len(b);
    if a.len() > 0 {
        let last = a.len() - 1;
        let x = a[last];
        vstd::seq_lib::to_multiset_contains(a, x);
        vstd::seq_lib::to_multiset_contains(b, x);
        assert(a.contains(x));
        let i = choose|i: int| 0 <= i < b.len() && b[i] == x;
        vstd::seq_lib::to_multiset_remove(a, last);
        vstd::seq_lib::to_multiset_remove(b, i);
        assert(a.remove(last) =~= a.drop_last());
        lemma_parts_count_any_order(a.drop_last(), b.remove(i), c);
        lemma_parts_count_remove(b, i, c);
    }
}

/// One table with, for each character, the sum of its counts in `parts`.
pub fn merge_parts(parts: &[CharCounts]) -> (total: CharCounts)
    requires
        forall|i: int| 0 <= i < parts@.len() ==> (#[trigger] parts@[i]).wf(),
        forall|c: char| parts_count(parts@, c) <= usize::MAX,
    ensures
        total.wf(),
        forall|c: char| #[trigger] total.count_of(c) == parts_count(parts@, c),
{
    let mut total = CharCounts::new();
    let mut i: usize = 0;
    while i < parts.len()
        invariant
            i <= parts@.len(),
            total.wf(),
            forall|i: int| 0 <= i < parts@.len() ==> (#[trigger] parts@[i]).wf(),
            forall|c: char| parts_count(parts@, c) <= usize::MAX,
            forall|c: char| #[trigger] total.count_of(c) == parts_count(parts@.take(i as int), c),
        decreases parts@.len() - i,
    {
        proof {
            let next = parts@.take(i + 1);
            assert(next.drop_last() =~= parts@.take(i as int));
            assert(next.last() == parts@[i as int]);
            assert(parts@ =~= next + parts@.skip(i + 1));
            assert forall|c: char| total.count_of(c) + parts@[i as int].count_of(c) <= usize::MAX by {
                lemma_parts_count_concat(next, parts@.skip(i + 1), c);
                assert(total.count_of(c) == parts_count(parts@.take(i as int), c));
            }
        }
        total.merge(&parts[i]);
        i += 1;
    }
    proof {
        assert(parts@.take(i as int) =~= parts@);
    }
    total
}

/// Whether `parts` are the counts of the chunks of `lines` for `n`
/// workers, chunk by chunk.
pub open spec fn are_chunk_counts(parts: Seq<CharCounts>, lines: Seq<Seq<char>>, n: nat) -> bool {
    let size = chunk_size_of(lines.len(), n);
    &&& parts.len() == chunk_count(lines.len(), size)
    &&& forall|k: int|
        0 <= k < parts.len() ==> (#[trigger] parts[k]).wf() && parts[k]@ == char_counts(
            chunk(lines, size, k as nat),
        )
}

/// Parts that are the counts of the first chunks hold, together, the
/// occurrences in those chunks.
pub proof fn lemma_parts_match_chunks(
    parts: Seq<CharCounts>,
    lines: Seq<Seq<char>>,
    size: nat,
    c: char,
)
    requires
        forall|k: int|
            0 <= k < parts.len() ==> (#[trigger] parts[k]).wf() && parts[k]@ == char_counts(
                chunk(lines, size, k as nat),
            ),
    ensures
        parts_count(parts, c) == chunks_occurrences(lines, size, parts.len(), c),
    decreases parts.len(),
{
    if parts.len() > 0 {
        let last = (parts.len() - 1) as nat;
        lemma_parts_match_chunks(parts.drop_last(), lines, size, c);
        assert(parts.last() == parts[last as int]);
        parts.last().lemma_entries_positive();
        assert(parts.last().count_of(c) == total_occurrences(chunk(lines, size, last), c));
    }
}

/// For every character, its counts in the chunks for `n` workers sum to
/// its occurrences in all the lines.
pub proof fn lemma_chunk_counts_sum(lines: Seq<Seq<char>>, n: nat, parts: Seq<CharCounts>, c: char)
    requires
        n >= 1,
        are_chunk_counts(parts, lines, n),
    ensures
        parts_count(parts, c) == total_occurrences(lines, c),
{
    let size = chunk_size_of(lines.len(), n);
    lemma_chunk_count_bounded(lines.len(), n);
    lemma_parts_match_chunks(parts, lines, size, c);
    if lines.len() > 0 {
        lemma_chunks_sum(lines, size, c);
    }
}

/// Partitioning never changes the result: a table that holds the merged
/// counts of the chunks for `n` workers is the mapping of all the lines,
/// the one that counting them in one pass gives.
pub proof fn lemma_chunked_count_is_plain_count(
    lines: Seq<Seq<char>>,
    n: nat,
    parts: Seq<CharCounts>,
    merged: CharCounts,
)
    requires
        n >= 1,
        are_chunk_counts(parts, lines, n),
        merged.wf(),
        forall|c: char| #[trigger] merged.count_of(c) == parts_count(parts, c),
    ensures
        merged@ == char_counts(lines),
{
    assert forall|c: char| #[trigger] merged.count_of(c) == total_occurrences(lines, c) by {
        lemma_chunk_counts_sum(lines, n, parts, c);
    }
    merged.lemma_counts_determine_view(lines);
}

/// The result does not depend on the number of workers: the merged chunk
/// counts for `n1` workers and those for `n2` workers are the same
/// mapping.
pub proof fn lemma_worker_count_irrelevant(
    lines: Seq<Seq<char>>,
    n1: nat,
    parts1: Seq<CharCounts>,
    merged1: CharCounts,
    n2: nat,
    parts2: Seq<CharCounts>,
    merged2: CharCounts,
)
    requires
        n1 >= 1,
        n2 >= 1,
        are_chunk_counts(parts1, lines, n1),
        are_chunk_counts(parts2, lines, n2),
        merged1.wf(),
        merged2.wf(),
        forall|c: char| #[trigger] merged1.count_of(c) == parts_count(parts1, c),
        forall|c: char| #[trigger] merged2.count_of(c) == parts_count(parts2, c),
    ensures
        merged1@ == merged2@,
{
    lemma_chunked_count_is_plain_count(lines, n1, parts1, merged1);
    lemma_chunked_count_is_plain_count(lines, n2, parts2, merged2);
}

/// The characters of `input` counted chunk by chunk, in the chunks for
/// `n` workers, and the partial counts merged. The result is that of
/// counting all lines in one pass, whatever `n` is.
pub fn count_chars_parallel(input: &[String], n: usize) -> (counts: CharCounts)
    requires
        n >= 1,
        counts_fit(lines_of(input@)),
    ensures
        counts.wf(),
        counts@ == char_counts(lines_of(input@)),
{
    let ghost lines = lines_of(input@);
    let ghost size = chunk_size_of(input@.len(), n as nat);
    let chunks = split_chunks(input, n);
    let mut parts: Vec<CharCounts> = Vec::new();
    let mut k: usize = 0;
    proof {
        lemma_chunk_count_bounded(input@.len(), n as nat);
    }
    while k < chunks.len()
        invariant
            k <= chunks.len(),
            parts.len() == k,
            lines == lines_of(input@),
            size == chunk_size_of(input@.len(), n as nat),
            chunks.len() == chunk_count(input@.len(), size),
            chunks.len() > 0 ==> size > 0,
            counts_fit(lines),
            forall|j: int|
                0 <= j < chunks.len() ==> (#[trigger] chunks[j])@ == chunk(input@, size, j as nat),
            forall|j: int|
                0 <= j < k ==> (#[trigger] parts@[j]).wf() && parts@[j]@ == char_counts(
                    chunk(lines, size, j as nat),
                ),
        decreases chunks.len() - k,
    {
        proof {
            lemma_chunk_len(input@, size, k as nat);
            assert((k + 1) * size == k * size + size) by (nonlinear_arith);
            let start = (k * size) as int;
            let end = chunk_end(input@.len(), size, k as nat) as int;
            assert(lines.len() == input@.len());
            assert(lines_of(chunks[k as int]@) =~= lines.subrange(start, end));
            lemma_stretch_fits(lines, start, end);
        }
        let part = count_chars(chunks[k]);
        parts.push(part);
        k += 1;
    }
    proof {
        assert(are_chunk_counts(parts@, lines, n as nat));
        assert forall|c: char| #[trigger] parts_count(parts@, c) <= usize::MAX by {
            lemma_chunk_counts_sum(lines, n as nat, parts@, c);
            assert(total_occurrences(lines, c) <= usize::MAX);
        }
    }
    let counts = merge_parts(parts.as_slice());
    proof {
        lemma_chunked_count_is_plain_count(lines, n as nat, parts@, counts);
    }
    counts
}

} // verus!
