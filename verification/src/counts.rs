//! The mathematical model of character counting and the table that holds
//! the counts.

use std::collections::HashMap;
use vstd::prelude::*;
use vstd::std_specs::hash::spec_hash_map_iter;
use vstd::std_specs::iter::IteratorSpec;

verus! {

/// Number of positions of `text` that hold the character `c`.
pub open spec fn occurrences(text: Seq<char>, c: char) -> nat
    decreases text.len(),
{
    if text.len() == 0 {
        0
    } else {
        occurrences(text.drop_last(), c) + if text.last() == c {
            1nat
        } else {
            0nat
        }
    }
}

/// Number of positions, over all lines, that hold the character `c`.
pub open spec fn total_occurrences(lines: Seq<Seq<char>>, c: char) -> nat
    decreases lines.len(),
{
    if lines.len() == 0 {
        0
    } else {
        total_occurrences(lines.drop_last(), c) + occurrences(lines.last(), c)
    }
}

/// Number of characters in all lines together.
pub open spec fn total_len(lines: Seq<Seq<char>>) -> nat
    decreases lines.len(),
{
    if lines.len() == 0 {
        0
    } else {
        total_len(lines.drop_last()) + lines.last().len()
    }
}

/// The mapping from each character that occurs in `lines` to the number of
/// times it occurs; characters that do not occur have no entry.
pub open spec fn char_counts(lines: Seq<Seq<char>>) -> Map<char, nat> {
    Map::new(|c: char| total_occurrences(lines, c) > 0, |c: char| total_occurrences(lines, c))
}

/// Whether every count of `lines` is a number that a `usize` holds.
pub open spec fn counts_fit(lines: Seq<Seq<char>>) -> bool {
    forall|c: char| #[trigger] total_occurrences(lines, c) <= usize::MAX
}

/// The texts of a sequence of strings.
pub open spec fn lines_of(input: Seq<String>) -> Seq<Seq<char>> {
    input.map_values(|s: String| s@)
}

/// Whether `code` is the number of a character: any value up to 0x10FFFF
/// outside the surrogate range.
pub open spec fn is_char_code(code: u32) -> bool {
    code <= 0xD7FF || (0xE000 <= code && code <= 0x10FFFF)
}

/// The number of a character.
pub open spec fn code_of(c: char) -> u32 {
    c as u32
}

/// Two characters with the same number are the same character.
pub proof fn lemma_code_injective(a: char, b: char)
    ensures
        code_of(a) == code_of(b) <==> a == b,
        is_char_code(code_of(a)),
{
}

/// Counting is additive over concatenation of texts.
pub proof fn lemma_occurrences_concat(a: Seq<char>, b: Seq<char>, c: char)
    ensures
        occurrences(a + b, c) == occurrences(a, c) + occurrences(b, c),
    decreases b.len(),
{
    if b.len() == 0 {
        assert(a + b =~= a);
    } else {
        assert((a + b).drop_last() =~= a + b.drop_last());
        assert((a + b).last() == b.last());
        lemma_occurrences_concat(a, b.drop_last(), c);
    }
}

/// Counting is additive over concatenation of line sequences.
pub proof fn lemma_total_occurrences_concat(a: Seq<Seq<char>>, b: Seq<Seq<char>>, c: char)
    ensures
        total_occurrences(a + b, c) == total_occurrences(a, c) + total_occurrences(b, c),
    decreases b.len(),
{
    if b.len() == 0 {
        assert(a + b =~= a);
    } else {
        assert((a + b).drop_last() =~= a + b.drop_last());
        assert((a + b).last() == b.last());
        lemma_total_occurrences_concat(a, b.drop_last(), c);
    }
}

/// The lengths of line sequences add up over concatenation.
pub proof fn lemma_total_len_concat(a: Seq<Seq<char>>, b: Seq<Seq<char>>)
    ensures
        total_len(a + b) == total_len(a) + total_len(b),
    decreases b.len(),
{
    if b.len() == 0 {
        assert(a + b =~= a);
    } else {
        assert((a + b).drop_last() =~= a + b.drop_last());
        assert((a + b).last() == b.last());
        lemma_total_len_concat(a, b.drop_last());
    }
}

/// A character occurs in a text at most as often as the text is long.
pub proof fn lemma_occurrences_le_len(text: Seq<char>, c: char)
    ensures
        occurrences(text, c) <= text.len(),
    decreases text.len(),
{
    if text.len() > 0 {
        lemma_occurrences_le_len(text.drop_last(), c);
    }
}

/// A character occurs in a line sequence at most as often as the lines
/// together are long.
pub proof fn lemma_total_occurrences_le_len(lines: Seq<Seq<char>>, c: char)
    ensures
        total_occurrences(lines, c) <= total_len(lines),
    decreases lines.len(),
{
    if lines.len() > 0 {
        lemma_total_occurrences_le_len(lines.drop_last(), c);
        lemma_occurrences_le_len(lines.last(), c);
    }
}

/// Lines that together hold no more characters than a `usize` can number
/// have counts that fit.
pub proof fn lemma_len_bounds_counts(lines: Seq<Seq<char>>)
    requires
        total_len(lines) <= usize::MAX,
    ensures
        counts_fit(lines),
{
    assert forall|c: char| #[trigger] total_occurrences(lines, c) <= usize::MAX by {
        lemma_total_occurrences_le_len(lines, c);
    }
}

/// A stretch of the lines has counts that fit where those of all the
/// lines do.
pub proof fn lemma_stretch_fits(lines: Seq<Seq<char>>, start: int, end: int)
    requires
        0 <= start <= end <= lines.len(),
        counts_fit(lines),
    ensures
        counts_fit(lines.subrange(start, end)),
{
    assert forall|c: char| #[trigger]
        total_occurrences(lines.subrange(start, end), c) <= usize::MAX by {
        assert(lines =~= lines.take(start) + lines.subrange(start, end) + lines.skip(end));
        lemma_total_occurrences_concat(
            lines.take(start) + lines.subrange(start, end),
            lines.skip(end),
            c,
        );
        lemma_total_occurrences_concat(lines.take(start), lines.subrange(start, end), c);
        assert(total_occurrences(lines, c) <= usize::MAX);
    }
}

/// Counting is repeatable: two tables that each hold the counts of the
/// same lines are the same mapping.
pub proof fn lemma_count_repeatable(lines: Seq<Seq<char>>, first: CharCounts, second: CharCounts)
    requires
        first@ == char_counts(lines),
        second@ == char_counts(lines),
    ensures
        first@ == second@,
        forall|c: char| first.count_of(c) == second.count_of(c),
{
}

/// A table of occurrence counts, one entry for each character that was
/// counted at least once. Its view is the mapping from character to count.
pub struct CharCounts {
    table: HashMap<u32, usize>,
}

impl View for CharCounts {
    type V = Map<char, nat>;

    closed spec fn view(&self) -> Map<char, nat> {
        Map::new(
            |c: char| self.table@.contains_key(code_of(c)),
            |c: char| self.table@[code_of(c)] as nat,
        )
    }
}

impl CharCounts {
    /// Every key is the number of a character and every stored count is
    /// positive.
    pub closed spec fn wf(&self) -> bool {
        forall|k: u32| #[trigger]
            self.table@.contains_key(k) ==> is_char_code(k) && self.table@[k] > 0
    }

    /// The count of `c`: its entry, or zero where it has none.
    pub open spec fn count_of(&self, c: char) -> nat {
        if self@.contains_key(c) {
            self@[c]
        } else {
            0
        }
    }

    /// In a well-formed table exactly the characters with a positive count
    /// have an entry.
    pub proof fn lemma_entries_positive(&self)
        requires
            self.wf(),
        ensures
            forall|c: char| #[trigger] self@.contains_key(c) ==> self@[c] > 0,
            forall|c: char| self.count_of(c) > 0 <==> #[trigger] self@.contains_key(c),
            forall|c: char| #[trigger] self.count_of(c) <= usize::MAX,
    {
    }

    /// A well-formed table whose counts agree everywhere with those of
    /// `lines` is the mapping of `lines`.
    pub proof fn lemma_counts_determine_view(&self, lines: Seq<Seq<char>>)
        requires
            self.wf(),
            forall|c: char| #[trigger] self.count_of(c) == total_occurrences(lines, c),
        ensures
            self@ == char_counts(lines),
    {
        self.lemma_entries_positive();
        assert forall|c: char| self@.contains_key(c) <==> char_counts(lines).contains_key(c) by {
            assert(self.count_of(c) == total_occurrences(lines, c));
        }
        assert forall|c: char| self@.contains_key(c) implies self@[c] == char_counts(lines)[c] by {
            assert(self.count_of(c) == total_occurrences(lines, c));
        }
        assert(self@ =~= char_counts(lines));
    }

    /// The empty table.
    pub fn new() -> (counts: Self)
        ensures
            counts.wf(),
            counts@ == Map::<char, nat>::empty(),
    {
        broadcast use vstd::std_specs::hash::group_hash_axioms;

        let counts = CharCounts { table: HashMap::new() };
        assert(counts@ =~= Map::<char, nat>::empty());
        counts
    }

    /// The count of `c`, zero where it was never counted.
    pub fn get(&self, c: char) -> (n: usize)
        ensures
            n == self.count_of(c),
    {
        broadcast use vstd::std_specs::hash::group_hash_axioms;

        let key: u32 = c as u32;
        match self.table.get(&key) {
            Some(n) => *n,
            None => 0,
        }
    }

    /// Raises the count of `c` by `by`.
    pub fn add(&mut self, c: char, by: usize)
        requires
            old(self).wf(),
            by > 0,
            old(self).count_of(c) + by <= usize::MAX,
        ensures
            final(self).wf(),
            final(self)@ == old(self)@.insert(c, (old(self).count_of(c) + by) as nat),
            forall|d: char|
                #[trigger] final(self).count_of(d) == old(self).count_of(d) + if d == c {
                    by as nat
                } else {
                    0nat
                },
    {
        broadcast use vstd::std_specs::hash::group_hash_axioms;

        let key: u32 = c as u32;
        let current: usize = self.get(c);
        self.table.insert(key, current + by);
        proof {
            let target = old(self)@.insert(c, (old(self).count_of(c) + by) as nat);
            assert forall|d: char| #[trigger] self@.contains_key(d) <==> target.contains_key(d) by {
                lemma_code_injective(d, c);
            }
            assert forall|d: char| #[trigger] target.contains_key(d) implies self@[d] == target[d] by {
                lemma_code_injective(d, c);
            }
            assert(self@ =~= old(self)@.insert(c, (old(self).count_of(c) + by) as nat));
        }
    }

    /// Counts every character of `text` into the table.
    pub fn add_text(&mut self, text: &str)
        requires
            old(self).wf(),
            forall|c: char| old(self).count_of(c) + occurrences(text@, c) <= usize::MAX,
        ensures
            final(self).wf(),
            forall|c: char|
                #[trigger] final(self).count_of(c) == old(self).count_of(c) + occurrences(text@, c),
    {
        broadcast use vstd::string::group_string_axioms;

        let ghost before = *self;
        for ch in it: text.chars()
            invariant
                it.seq() == text@,
                self.wf(),
                forall|c: char| before.count_of(c) + occurrences(text@, c) <= usize::MAX,
                forall|c: char|
                    #[trigger] self.count_of(c) == before.count_of(c) + occurrences(
                        text@.take(it.index()),
                        c,
                    ),
        {
            proof {
                let i = it.index();
                assert(text@.take(i + 1).drop_last() =~= text@.take(i));
                assert(text@.take(i + 1).last() == ch);
                assert(text@ =~= text@.take(i + 1) + text@.skip(i + 1));
                lemma_occurrences_concat(text@.take(i + 1), text@.skip(i + 1), ch);
            }
            self.add(ch, 1);
        }
        proof {
            assert(text@.take(text@.len() as int) =~= text@);
        }
    }

    /// The entries of the table, each character with its count, in no
    /// particular order.
    pub fn entries(&self) -> (list: Vec<(char, usize)>)
        requires
            self.wf(),
        ensures
            forall|i: int|
                0 <= i < list@.len() ==> self@.contains_key((#[trigger] list@[i]).0)
                    && self@[list@[i].0] == list@[i].1,
            forall|i: int, j: int|
                0 <= i < j < list@.len() ==> (#[trigger] list@[i]).0 != (#[trigger] list@[j]).0,
            forall|c: char| #[trigger]
                self@.contains_key(c) ==> exists|i: int|
                    0 <= i < list@.len() && (#[trigger] list@[i]).0 == c,
    {
        broadcast use vstd::std_specs::hash::group_hash_axioms;

        let mut list: Vec<(char, usize)> = Vec::new();
        let ghost s = spec_hash_map_iter(&self.table).remaining();
        let ghost mut done: int = 0;
        for entry in it: self.table.iter()
            invariant
                it.seq() == s,
                it.index() == done,
                self.wf(),
                list@.len() == done,
                forall|i: int|
                    0 <= i < done ==> code_of((#[trigger] list@[i]).0) == *s[i].0 && list@[i].1
                        == *s[i].1,
        {
            let code: u32 = *entry.0;
            let n: usize = *entry.1;
            assert(s[done] == entry);
            assert(self.table@.contains_key(code) && self.table@[code] == n);
            match char_of(code) {
                Some(ch) => {
                    list.push((ch, n));
                },
                None => {},
            }
            proof {
                done = done + 1;
            }
        }
        proof {
            assert forall|i: int| 0 <= i < list@.len() implies self@.contains_key(
                (#[trigger] list@[i]).0,
            ) && self@[list@[i].0] == list@[i].1 by {
                assert(self.table@.contains_key(*s[i].0) && self.table@[*s[i].0] == *s[i].1);
            }
            assert forall|i: int, j: int| 0 <= i < j < list@.len() implies (#[trigger] list@[i]).0
                != (#[trigger] list@[j]).0 by {
                if list@[i].0 == list@[j].0 {
                    assert(self.table@[*s[i].0] == *s[i].1);
                    assert(self.table@[*s[j].0] == *s[j].1);
                    assert(s[i] == s[j]);
                }
            }
            assert forall|c: char| #[trigger] self@.contains_key(c) implies exists|i: int|
                0 <= i < list@.len() && (#[trigger] list@[i]).0 == c by {
                lemma_code_injective(c, c);
                let k = code_of(c);
                let j = choose|j: int| 0 <= j < s.len() && s[j] == (&k, &self.table@[k]);
                lemma_code_injective(list@[j].0, c);
            }
        }
        list
    }

    /// Adds every count of `part` to the count of the same character here.
    pub fn merge(&mut self, part: &CharCounts)
        requires
            old(self).wf(),
            part.wf(),
            forall|c: char| old(self).count_of(c) + part.count_of(c) <= usize::MAX,
        ensures
            final(self).wf(),
            forall|c: char|
                #[trigger] final(self).count_of(c) == old(self).count_of(c) + part.count_of(c),
    {
        broadcast use vstd::std_specs::hash::group_hash_axioms;

        let ghost before = *self;
        let ghost s = spec_hash_map_iter(&part.table).remaining();
        let ghost mut done: int = 0;
        for entry in it: part.table.iter()
            invariant
                it.seq() == s,
                it.index() == done,
                s.no_duplicates(),
                self.wf(),
                part.wf(),
                forall|c: char| before.count_of(c) + part.count_of(c) <= usize::MAX,
                forall|c: char|
                    #[trigger] self.count_of(c) == before.count_of(c) + if seen(
                        it.seq(),
                        it.index(),
                        code_of(c),
                    ) {
                        part.count_of(c)
                    } else {
                        0
                    },
        {
            let code: u32 = *entry.0;
            let by: usize = *entry.1;
            let ghost i = it.index();
            assert(s[i] == entry);
            assert(part.table@.contains_key(code) && part.table@[code] == by);
            match char_of(code) {
                Some(ch) => {
                    proof {
                        if seen(s, i, code) {
                            let j = choose|j: int| 0 <= j < i && *(#[trigger] s[j]).0 == code;
                            assert(part.table@[*s[j].0] == *s[j].1);
                            assert(s[j] == s[i]);
                        }
                        assert(self.count_of(ch) == before.count_of(ch));
                    }
                    self.add(ch, by);
                    proof {
                        assert forall|c: char|
                            #[trigger] self.count_of(c) == before.count_of(c) + if seen(
                                s,
                                i + 1,
                                code_of(c),
                            ) {
                                part.count_of(c)
                            } else {
                                0
                            } by {
                            lemma_code_injective(c, ch);
                            if c == ch {
                                assert(*s[i].0 == code_of(c));
                            } else if seen(s, i + 1, code_of(c)) {
                                let j = choose|j: int|
                                    0 <= j < i + 1 && *(#[trigger] s[j]).0 == code_of(c);
                                assert(j < i);
                            } else if seen(s, i, code_of(c)) {
                                let j = choose|j: int| 0 <= j < i && *(#[trigger] s[j]).0 == code_of(c);
                                assert(0 <= j < i + 1);
                            }
                        }
                    }
                },
                None => {},
            }
            proof {
                done = done + 1;
            }
        }
        proof {
            assert forall|c: char|
                #[trigger] self.count_of(c) == before.count_of(c) + part.count_of(c) by {
                lemma_code_injective(c, c);
                if part@.contains_key(c) {
                    let k = code_of(c);
                    assert(part.table@.contains_key(k));
                    let j = choose|j: int| 0 <= j < s.len() && s[j] == (&k, &part.table@[k]);
                    assert(*s[j].0 == code_of(c));
                    assert(seen(s, s.len() as int, code_of(c)));
                }
            }
        }
    }
}

/// Whether one of the first `upto` entries of `entries` has the key `code`.
spec fn seen<'a>(entries: Seq<(&'a u32, &'a usize)>, upto: int, code: u32) -> bool {
    exists|j: int| 0 <= j < upto && *(#[trigger] entries[j]).0 == code
}

/// `char::from_u32`: the character with the number `code`, where `code` is
/// the number of a character, and nothing otherwise.
#[verifier::external_body]
fn char_of(code: u32) -> (ch: Option<char>)
    ensures
        ch is Some <==> is_char_code(code),
        ch matches Some(c) ==> code_of(c) == code,
{
    char::from_u32(code)
}

/// The characters of `input` counted, all lines together.
pub fn count_chars(input: &[String]) -> (counts: CharCounts)
    requires
        counts_fit(lines_of(input@)),
    ensures
        counts.wf(),
        counts@ == char_counts(lines_of(input@)),
{
    let ghost lines = lines_of(input@);
    let mut counts = CharCounts::new();
    let mut i: usize = 0;
    while i < input.len()
        invariant
            i <= input.len(),
            lines == lines_of(input@),
            counts_fit(lines),
            counts.wf(),
            forall|c: char| #[trigger] counts.count_of(c) == total_occurrences(lines.take(i as int), c),
        decreases input.len() - i,
    {
        proof {
            let next = lines.take(i + 1);
            assert(next.drop_last() =~= lines.take(i as int));
            assert(next.last() == input@[i as int]@);
            assert(lines =~= next + lines.skip(i + 1));
            assert forall|c: char|
                counts.count_of(c) + occurrences(input@[i as int]@, c) <= usize::MAX by {
                lemma_total_occurrences_concat(next, lines.skip(i + 1), c);
                assert(total_occurrences(lines, c) <= usize::MAX);
            }
        }
        counts.add_text(input[i].as_str());
        i += 1;
    }
    proof {
        assert(lines.take(i as int) =~= lines);
        counts.lemma_counts_determine_view(lines);
    }
    counts
}

/// The number of characters in all of `input`, where a `usize` can hold
/// it; every count of such lines fits as well.
pub fn total_chars(input: &[String]) -> (total: Option<usize>)
    ensures
        total is Some <==> total_len(lines_of(input@)) <= usize::MAX,
        total matches Some(t) ==> t == total_len(lines_of(input@)),
        total is Some ==> counts_fit(lines_of(input@)),
{
    let ghost lines = lines_of(input@);
    let mut sum: usize = 0;
    let mut i: usize = 0;
    while i < input.len()
        invariant
            i <= input.len(),
            lines == lines_of(input@),
            sum == total_len(lines.take(i as int)),
        decreases input.len() - i,
    {
        let len: usize = input[i].as_str().unicode_len();
        proof {
            let next = lines.take(i + 1);
            assert(next.drop_last() =~= lines.take(i as int));
            assert(next.last() == input@[i as int]@);
            assert(lines =~= next + lines.skip(i + 1));
            lemma_total_len_concat(next, lines.skip(i + 1));
        }
        if len > usize::MAX - sum {
            return None;
        }
        sum += len;
        i += 1;
    }
    proof {
        assert(lines.take(i as int) =~= lines);
        lemma_len_bounds_counts(lines);
    }
    Some(sum)
}

} // verus!
