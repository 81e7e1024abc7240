use vstd::prelude::*;
use crate::segment::{cut_with_default_dictionary, jieba_words, joined, string_views};
use crate::text::chars_of;

verus! {

/// Whether `c` has the Unicode `Alphabetic` property (`char::is_alphabetic`).
pub uninterp spec fn alphabetic(c: char) -> bool;

/// `char::is_alphabetic`.
///
/// Trusted: the result is the named property `alphabetic(c)`; ASCII letters
/// have it and every other ASCII character lacks it (the Unicode
/// `Alphabetic` property restricted to ASCII). Nothing is stated of other
/// characters.
#[verifier::external_body]
fn char_is_alphabetic(c: char) -> (res: bool)
    ensures
        res == alphabetic(c),
        ('a' <= c <= 'z' || 'A' <= c <= 'Z') ==> res,
        (c < '\u{80}' && !('a' <= c <= 'z' || 'A' <= c <= 'Z')) ==> !res,
{
    c.is_alphabetic()
}

/// Number of bytes of the UTF-8 encoding of `w`.
pub open spec fn utf8_len(w: Seq<char>) -> nat {
    vstd::utf8::encode_utf8(w).len()
}

/// `c` is an ASCII letter (upper or lower case).
pub open spec fn is_ascii_letter(c: char) -> bool {
    'a' <= c <= 'z' || 'A' <= c <= 'Z'
}

/// Whether `char::is_alphabetic` holds of `c`, with what is known of ASCII
/// made explicit: an ASCII character is alphabetic exactly when it is a
/// letter; beyond ASCII it has the Unicode `Alphabetic` property.
pub open spec fn word_char(c: char) -> bool {
    if '\u{80}' <= c {
        alphabetic(c)
    } else {
        is_ascii_letter(c)
    }
}

/// A segment counts as a word when all its characters are alphabetic and
/// its UTF-8 encoding is longer than one byte.
pub open spec fn is_counted_word(w: Seq<char>) -> bool {
    &&& forall|i: int| 0 <= i < w.len() ==> #[trigger] word_char(w[i])
    &&& utf8_len(w) > 1
}

/// The segments of `s` that count as words, in order.
pub open spec fn counted_words(s: Seq<Seq<char>>) -> Seq<Seq<char>> {
    s.filter(counted_pred())
}

/// `is_counted_word` as a predicate value.
pub open spec fn counted_pred() -> spec_fn(Seq<char>) -> bool {
    |w: Seq<char>| is_counted_word(w)
}

/// How often `w` occurs in `s`.
pub open spec fn occurrences(s: Seq<Seq<char>>, w: Seq<char>) -> nat
    decreases s.len(),
{
    if s.len() == 0 {
        0
    } else {
        occurrences(s.drop_last(), w) + if s.last() == w {
            1nat
        } else {
            0nat
        }
    }
}

/// Index of the first occurrence of `w` in `s`, or -1 when it does not occur.
pub open spec fn first_index(s: Seq<Seq<char>>, w: Seq<char>) -> int
    decreases s.len(),
{
    if s.len() == 0 {
        -1
    } else if first_index(s.drop_last(), w) >= 0 {
        first_index(s.drop_last(), w)
    } else if s.last() == w {
        s.len() - 1
    } else {
        -1
    }
}

/// Sum of the counts of a table.
pub open spec fn total(e: Seq<(Seq<char>, int)>) -> int
    decreases e.len(),
{
    if e.len() == 0 {
        0
    } else {
        total(e.drop_last()) + e.last().1
    }
}

/// `e` is the frequency table of the word sequence `s`: one entry per
/// distinct word of `s`, holding how often it occurs, the entries in the
/// order in which the words first appear in `s`.
pub open spec fn is_tally_of(e: Seq<(Seq<char>, int)>, s: Seq<Seq<char>>) -> bool {
    &&& forall|i: int| 0 <= i < e.len() ==> #[trigger] e[i].1 == occurrences(s, e[i].0)
    &&& forall|i: int| 0 <= i < e.len() ==> #[trigger] e[i].1 > 0
    &&& forall|w: Seq<char>| #[trigger] occurrences(s, w) > 0 ==> exists|i: int| 0 <= i < e.len() && #[trigger] e[i].0 == w
    &&& forall|i: int, j: int| 0 <= i < j < e.len() ==> first_index(s, #[trigger] e[i].0) < first_index(s, #[trigger] e[j].0)
}

/// The count that table `e` holds for `w`, or 0 when `w` has no entry.
pub open spec fn count_in(e: Seq<(Seq<char>, int)>, w: Seq<char>) -> int {
    if exists|i: int| 0 <= i < e.len() && e[i].0 == w {
        e[choose|i: int| 0 <= i < e.len() && e[i].0 == w].1
    } else {
        0
    }
}

/// No word appears in two entries, and every count is positive.
pub open spec fn well_formed_table(e: Seq<(Seq<char>, int)>) -> bool {
    &&& forall|i: int, j: int| 0 <= i < j < e.len() ==> #[trigger] e[i].0 != #[trigger] e[j].0
    &&& forall|i: int| 0 <= i < e.len() ==> #[trigger] e[i].1 > 0
}

/// The view of an executable table.
pub open spec fn table_view(v: Seq<(String, usize)>) -> Seq<(Seq<char>, int)> {
    v.map_values(|e: (String, usize)| (e.0@, e.1 as int))
}

/// Position of the entry for `word` in `entries`, if there is one.
fn find_entry(entries: &Vec<(String, usize)>, word: &String) -> (res: Option<usize>)
    ensures
        res matches Some(k) ==> k < entries@.len() && table_view(entries@)[k as int].0 == word@
            && table_view(entries@)[k as int].1 == entries@[k as int].1,
        res is None ==> forall|j: int| 0 <= j < entries@.len() ==> table_view(entries@)[j].0 != word@,
{
    let n = entries.len();
    let mut k: usize = 0;
    while k < n
        invariant
            n == entries@.len(),
            k <= n,
            forall|j: int| 0 <= j < k ==> table_view(entries@)[j].0 != word@,
        decreases n - k,
    {
        proof {
            assert(table_view(entries@)[k as int] == (entries@[k as int].0@, entries@[k as int].1 as int));
        }
        if entries[k].0 == *word {
            return Some(k);
        }
        k = k + 1;
    }
    None
}

/// Whether the segment `word` counts as a word: all its characters are
/// alphabetic and it takes more than one byte in UTF-8.
pub fn counts_as_word(word: &str) -> (res: bool)
    ensures
        res == is_counted_word(word@),
        (exists|i: int| 0 <= i < word@.len() && is_ascii_non_letter(#[trigger] word@[i])) ==> !res,
        (word@.len() >= 2 && forall|i: int| 0 <= i < word@.len() ==> 'a' <= #[trigger] word@[i] <= 'z' || 'A' <= word@[i] <= 'Z') ==> res,
{
    proof {
        if word@.len() >= 2 && forall|i: int| 0 <= i < word@.len() ==> 'a' <= #[trigger] word@[i] <= 'z' || 'A' <= word@[i] <= 'Z' {
            law_ascii_letter_runs_are_words(word@);
        }
    }
    let cs = chars_of(word);
    let n = cs.len();
    let mut i: usize = 0;
    while i < n
        invariant
            n == cs@.len(),
            cs@ == word@,
            i <= n,
            forall|j: int| 0 <= j < i ==> word_char(#[trigger] cs@[j]),
            forall|j: int| 0 <= j < i ==> !is_ascii_non_letter(#[trigger] cs@[j]),
        decreases n - i,
    {
        if !char_is_alphabetic(cs[i]) {
            proof {
                assert(!word_char(word@[i as int]));
            }
            return false;
        }
        i = i + 1;
    }
    proof {
        lemma_utf8_len(word@);
    }
    // More than one byte: at least two characters, or one outside ASCII.
    n >= 2 || (n == 1 && (cs[0] as u32) >= 0x80)
}

/// `c` is an ASCII character other than a letter (a digit, a space, a
/// punctuation mark, a control character).
pub open spec fn is_ascii_non_letter(c: char) -> bool {
    c < '\u{80}' && !('a' <= c <= 'z' || 'A' <= c <= 'Z')
}

/// Every character takes at least one byte in UTF-8, and exactly one when it
/// is ASCII.
proof fn lemma_utf8_len(w: Seq<char>)
    ensures
        utf8_len(w) >= w.len(),
        w.len() == 1 ==> (utf8_len(w) == 1 <==> (w[0] as u32) < 0x80),
    decreases w.len(),
{
    if w.len() > 0 {
        lemma_utf8_len(w.drop_first());
    }
}

proof fn lemma_occurrences_push(s: Seq<Seq<char>>, x: Seq<char>, w: Seq<char>)
    ensures
        occurrences(s.push(x), w) == occurrences(s, w) + if x == w { 1nat } else { 0nat },
        first_index(s.push(x), w) == if first_index(s, w) >= 0 {
            first_index(s, w)
        } else if x == w {
            s.len() as int
        } else {
            -1
        },
{
    assert(s.push(x).drop_last() =~= s);
}

proof fn lemma_occurrences_bounds(s: Seq<Seq<char>>, w: Seq<char>)
    ensures
        occurrences(s, w) <= s.len(),
        -1 <= first_index(s, w) < s.len(),
        first_index(s, w) >= 0 <==> occurrences(s, w) > 0,
    decreases s.len(),
{
    if s.len() > 0 {
        lemma_occurrences_bounds(s.drop_last(), w);
    }
}

proof fn lemma_total_push(e: Seq<(Seq<char>, int)>, p: (Seq<char>, int))
    ensures
        total(e.push(p)) == total(e) + p.1,
{
    assert(e.push(p).drop_last() =~= e);
}

proof fn lemma_total_update(e: Seq<(Seq<char>, int)>, k: int, p: (Seq<char>, int))
    requires
        0 <= k < e.len(),
    ensures
        total(e.update(k, p)) == total(e) - e[k].1 + p.1,
    decreases e.len(),
{
    if k == e.len() - 1 {
        assert(e.update(k, p).drop_last() =~= e.drop_last());
    } else {
        lemma_total_update(e.drop_last(), k, p);
        assert(e.update(k, p).drop_last() =~= e.drop_last().update(k, p));
    }
}

/// Counting one more occurrence of a word already in the table.
proof fn lemma_tally_existing(e: Seq<(Seq<char>, int)>, s: Seq<Seq<char>>, k: int)
    requires
        is_tally_of(e, s),
        well_formed_table(e),
        0 <= k < e.len(),
    ensures
        is_tally_of(e.update(k, (e[k].0, e[k].1 + 1)), s.push(e[k].0)),
        well_formed_table(e.update(k, (e[k].0, e[k].1 + 1))),
        total(e.update(k, (e[k].0, e[k].1 + 1))) == total(e) + 1,
{
    let w = e[k].0;
    let e2 = e.update(k, (w, e[k].1 + 1));
    let s2 = s.push(w);
    lemma_total_update(e, k, (w, e[k].1 + 1));
    assert forall|i: int| 0 <= i < e2.len() implies #[trigger] e2[i].1 == occurrences(s2, e2[i].0) by {
        lemma_occurrences_push(s, w, e2[i].0);
    }
    assert forall|x: Seq<char>| #[trigger] occurrences(s2, x) > 0 implies exists|i: int|
        0 <= i < e2.len() && #[trigger] e2[i].0 == x by {
        lemma_occurrences_push(s, w, x);
        if x == w {
            assert(e2[k].0 == x);
        } else {
            assert(occurrences(s, x) > 0);
            let i = choose|i: int| 0 <= i < e.len() && #[trigger] e[i].0 == x;
            assert(e2[i].0 == x);
        }
    }
    assert forall|i: int, j: int| 0 <= i < j < e2.len() implies first_index(s2, #[trigger] e2[i].0)
        < first_index(s2, #[trigger] e2[j].0) by {
        lemma_occurrences_push(s, w, e2[i].0);
        lemma_occurrences_push(s, w, e2[j].0);
        lemma_occurrences_bounds(s, e2[i].0);
        lemma_occurrences_bounds(s, e2[j].0);
        assert(e2[i].0 == e[i].0 && e2[j].0 == e[j].0);
        assert(e[i].1 > 0 && e[j].1 > 0);
    }
}

/// Counting the first occurrence of a word not yet in the table.
proof fn lemma_tally_new(e: Seq<(Seq<char>, int)>, s: Seq<Seq<char>>, w: Seq<char>)
    requires
        is_tally_of(e, s),
        well_formed_table(e),
        forall|j: int| 0 <= j < e.len() ==> e[j].0 != w,
    ensures
        is_tally_of(e.push((w, 1)), s.push(w)),
        well_formed_table(e.push((w, 1))),
        total(e.push((w, 1))) == total(e) + 1,
{
    let e2 = e.push((w, 1));
    let s2 = s.push(w);
    lemma_total_push(e, (w, 1));
    lemma_occurrences_bounds(s, w);
    if occurrences(s, w) > 0 {
        let i = choose|i: int| 0 <= i < e.len() && #[trigger] e[i].0 == w;
        assert(false);
    }
    assert forall|i: int| 0 <= i < e2.len() implies #[trigger] e2[i].1 == occurrences(s2, e2[i].0) by {
        lemma_occurrences_push(s, w, e2[i].0);
    }
    assert forall|x: Seq<char>| #[trigger] occurrences(s2, x) > 0 implies exists|i: int|
        0 <= i < e2.len() && #[trigger] e2[i].0 == x by {
        lemma_occurrences_push(s, w, x);
        if x == w {
            assert(e2[e.len() as int].0 == x);
        } else {
            assert(occurrences(s, x) > 0);
            let i = choose|i: int| 0 <= i < e.len() && #[trigger] e[i].0 == x;
            assert(e2[i].0 == x);
        }
    }
    assert forall|i: int, j: int| 0 <= i < j < e2.len() implies first_index(s2, #[trigger] e2[i].0)
        < first_index(s2, #[trigger] e2[j].0) by {
        lemma_occurrences_push(s, w, e2[i].0);
        lemma_occurrences_push(s, w, e2[j].0);
        lemma_occurrences_bounds(s, e2[i].0);
        lemma_occurrences_bounds(s, e2[j].0);
        assert(e2[i].0 == e[i].0);
        assert(e[i].1 > 0);
        if j < e.len() {
            assert(e2[j].0 == e[j].0);
            assert(e[j].1 > 0);
        }
    }
}

/// Tallies the segments that count as words (see `is_counted_word`): each
/// distinct word once, with how often it occurs, in order of first
/// appearance.
pub fn count_words(segments: &Vec<String>) -> (res: WordCounts)
    ensures
        is_tally_of(res@, counted_words(string_views(segments@))),
        total(res@) == counted_words(string_views(segments@)).len(),
{
    let ghost sv = string_views(segments@);
    let mut entries: Vec<(String, usize)> = Vec::new();
    let n = segments.len();
    let mut i: usize = 0;
    proof {
        assert(sv.take(0) =~= Seq::<Seq<char>>::empty());
        reveal_with_fuel(Seq::filter, 1);
        assert(table_view(entries@) =~= Seq::<(Seq<char>, int)>::empty());
    }
    while i < n
        invariant
            n == segments@.len(),
            i <= n,
            sv == string_views(segments@),
            is_tally_of(table_view(entries@), counted_words(sv.take(i as int))),
            well_formed_table(table_view(entries@)),
            total(table_view(entries@)) == counted_words(sv.take(i as int)).len(),
            counted_words(sv.take(i as int)).len() <= i,
        decreases n - i,
    {
        let word = &segments[i];
        let ghost prefix = counted_words(sv.take(i as int));
        proof {
            assert(sv.take(i + 1) =~= sv.take(i as int).push(sv[i as int]));
            sv.take(i as int).lemma_filter_push(sv[i as int], counted_pred());
            assert(sv[i as int] == word@);
        }
        if counts_as_word(word.as_str()) {
            let ghost old_view = table_view(entries@);
            match find_entry(&entries, word) {
                Some(k) => {
                    let c = entries[k].1;
                    proof {
                        lemma_occurrences_bounds(prefix, word@);
                        lemma_tally_existing(old_view, prefix, k as int);
                    }
                    entries.set(k, (word.clone(), c + 1));
                    proof {
                        assert(table_view(entries@) =~= old_view.update(k as int, (old_view[k as int].0, old_view[k as int].1 + 1)));
                    }
                },
                None => {
                    proof {
                        lemma_tally_new(old_view, prefix, word@);
                    }
                    entries.push((word.clone(), 1));
                    proof {
                        assert(table_view(entries@) =~= old_view.push((word@, 1)));
                    }
                },
            }
        }
        i = i + 1;
    }
    proof {
        assert(sv.take(n as int) =~= sv);
    }
    WordCounts { entries }
}

/// Segments `text` with jieba's built-in dictionary and tallies the
/// segments that count as words.
pub fn count_chinese_words(text: &str) -> (res: WordCounts)
    ensures
        is_tally_of(res@, counted_words(jieba_words(text@))),
        total(res@) == counted_words(jieba_words(text@)).len(),
        forall|i: int| 0 <= i < res@.len() ==> occurs_in(#[trigger] res@[i].0, text@),
        joined(jieba_words(text@)) == text@,
        forall|i: int| 0 <= i < jieba_words(text@).len() ==> #[trigger] jieba_words(text@)[i].len() > 0,
        total(res@) <= text@.len(),
{
    let segments = cut_with_default_dictionary(text);
    let res = count_words(&segments);
    proof {
        let segs = jieba_words(text@);
        assert(string_views(segments@) == segs);
        assert forall|i: int| 0 <= i < segs.len() implies #[trigger] segs[i].len() > 0 by {
            assert(segs[i] == segments@[i]@);
        }
        lemma_joined_len(segs);
        segs.lemma_filter_len(counted_pred());
        assert forall|i: int| 0 <= i < res@.len() implies occurs_in(#[trigger] res@[i].0, text@) by {
            let w = res@[i].0;
            let cw = counted_words(segs);
            assert(res@[i].1 == occurrences(cw, w) && res@[i].1 > 0);
            lemma_occurrence_index(cw, w);
            let j = choose|j: int| 0 <= j < cw.len() && cw[j] == w;
            assert(cw.contains(w));
            segs.lemma_filter_contains_rev(counted_pred(), w);
            let m = choose|m: int| 0 <= m < segs.len() && segs[m] == w;
            lemma_joined_contains(segs, m);
        }
    }
    res
}

/// `w` stands somewhere in `text` as a run of consecutive characters.
pub open spec fn occurs_in(w: Seq<char>, text: Seq<char>) -> bool {
    exists|k: int| 0 <= k && k + w.len() <= text.len() && #[trigger] text.subrange(k, k + w.len()) == w
}

/// Occurrences add up over a concatenation.
proof fn lemma_occurrences_concat(a: Seq<Seq<char>>, b: Seq<Seq<char>>, w: Seq<char>)
    ensures
        occurrences(a + b, w) == occurrences(a, w) + occurrences(b, w),
    decreases b.len(),
{
    if b.len() == 0 {
        assert(a + b =~= a);
    } else {
        lemma_occurrences_concat(a, b.drop_last(), w);
        assert((a + b).drop_last() =~= a + b.drop_last());
        assert((a + b).last() == b.last());
    }
}

/// The table of a concatenated segment list is the key-wise sum of the
/// tables of its parts (a word absent from a table counting 0).
pub proof fn law_tally_of_concatenation_adds(
    a: Seq<Seq<char>>,
    b: Seq<Seq<char>>,
    e: Seq<(Seq<char>, int)>,
    ea: Seq<(Seq<char>, int)>,
    eb: Seq<(Seq<char>, int)>,
    w: Seq<char>,
)
    requires
        is_tally_of(e, counted_words(a + b)),
        is_tally_of(ea, counted_words(a)),
        is_tally_of(eb, counted_words(b)),
    ensures
        count_in(e, w) == count_in(ea, w) + count_in(eb, w),
{
    Seq::filter_distributes_over_add(a, b, counted_pred());
    lemma_occurrences_concat(counted_words(a), counted_words(b), w);
    law_lookup_gives_occurrences(e, counted_words(a + b), w);
    law_lookup_gives_occurrences(ea, counted_words(a), w);
    law_lookup_gives_occurrences(eb, counted_words(b), w);
}

/// Segments none of which is a word contribute nothing.
proof fn lemma_no_words_counted(t: Seq<Seq<char>>)
    requires
        forall|i: int| 0 <= i < t.len() ==> !is_counted_word(#[trigger] t[i]),
    ensures
        counted_words(t) == Seq::<Seq<char>>::empty(),
{
    if counted_words(t).len() > 0 {
        let x = counted_words(t)[0];
        t.lemma_filter_pred(counted_pred(), 0);
        assert(counted_words(t).contains(x));
        t.lemma_filter_contains_rev(counted_pred(), x);
        let k = choose|k: int| 0 <= k < t.len() && t[k] == x;
        assert(!is_counted_word(t[k]));
    }
    assert(counted_words(t) =~= Seq::<Seq<char>>::empty());
}

/// Some entry of `e` is for the word `w`.
pub open spec fn has_word(e: Seq<(Seq<char>, int)>, w: Seq<char>) -> bool {
    exists|i: int| 0 <= i < e.len() && #[trigger] e[i].0 == w
}

/// Two entry lists that both hold, for the same words, each word's number
/// of occurrences in `s`, ordered by first appearance in `s`, are equal.
proof fn lemma_tally_lists_equal(e1: Seq<(Seq<char>, int)>, e2: Seq<(Seq<char>, int)>, s: Seq<Seq<char>>)
    requires
        forall|i: int, j: int| 0 <= i < j < e1.len() ==> first_index(s, #[trigger] e1[i].0) < first_index(s, #[trigger] e1[j].0),
        forall|i: int, j: int| 0 <= i < j < e2.len() ==> first_index(s, #[trigger] e2[i].0) < first_index(s, #[trigger] e2[j].0),
        forall|i: int| 0 <= i < e1.len() ==> #[trigger] e1[i].1 == occurrences(s, e1[i].0),
        forall|i: int| 0 <= i < e2.len() ==> #[trigger] e2[i].1 == occurrences(s, e2[i].0),
        forall|w: Seq<char>| #[trigger] has_word(e1, w) <==> has_word(e2, w),
    ensures
        e1 == e2,
    decreases e1.len() + e2.len(),
{
    if e1.len() == 0 && e2.len() == 0 {
        assert(e1 =~= e2);
    } else if e1.len() == 0 {
        assert(has_word(e2, e2[0].0));
        assert(has_word(e1, e2[0].0));
    } else if e2.len() == 0 {
        assert(has_word(e1, e1[0].0));
        assert(has_word(e2, e1[0].0));
    } else {
        let w1 = e1[0].0;
        let w2 = e2[0].0;
        assert(has_word(e1, w1));
        assert(has_word(e2, w1));
        let j = choose|j: int| 0 <= j < e2.len() && #[trigger] e2[j].0 == w1;
        assert(has_word(e2, w2));
        assert(has_word(e1, w2));
        let i = choose|i: int| 0 <= i < e1.len() && #[trigger] e1[i].0 == w2;
        if j > 0 {
            assert(first_index(s, e2[0].0) < first_index(s, e2[j].0));
            if i > 0 {
                assert(first_index(s, e1[0].0) < first_index(s, e1[i].0));
            }
            assert(false);
        }
        assert(w1 == w2);
        assert(e1[0] == e2[0]);
        let t1 = e1.drop_first();
        let t2 = e2.drop_first();
        assert forall|w: Seq<char>| #[trigger] has_word(t1, w) <==> has_word(t2, w) by {
            if has_word(t1, w) {
                let a = choose|i: int| 0 <= i < t1.len() && #[trigger] t1[i].0 == w;
                assert(e1[a + 1].0 == w);
                assert(first_index(s, e1[0].0) < first_index(s, e1[a + 1].0));
                assert(has_word(e1, w));
                assert(has_word(e2, w));
                let b = choose|j: int| 0 <= j < e2.len() && #[trigger] e2[j].0 == w;
                assert(b != 0);
                assert(t2[b - 1].0 == w);
                assert(has_word(t2, w));
            }
            if has_word(t2, w) {
                let b = choose|j: int| 0 <= j < t2.len() && #[trigger] t2[j].0 == w;
                assert(e2[b + 1].0 == w);
                assert(first_index(s, e2[0].0) < first_index(s, e2[b + 1].0));
                assert(has_word(e2, w));
                assert(has_word(e1, w));
                let a = choose|i: int| 0 <= i < e1.len() && #[trigger] e1[i].0 == w;
                assert(a != 0);
                assert(t1[a - 1].0 == w);
                assert(has_word(t1, w));
            }
        }
        assert forall|i: int, j: int| 0 <= i < j < t1.len() implies first_index(s, #[trigger] t1[i].0) < first_index(s, #[trigger] t1[j].0) by {
            assert(t1[i] == e1[i + 1] && t1[j] == e1[j + 1]);
        }
        assert forall|i: int, j: int| 0 <= i < j < t2.len() implies first_index(s, #[trigger] t2[i].0) < first_index(s, #[trigger] t2[j].0) by {
            assert(t2[i] == e2[i + 1] && t2[j] == e2[j + 1]);
        }
        assert forall|i: int| 0 <= i < t1.len() implies #[trigger] t1[i].1 == occurrences(s, t1[i].0) by {
            assert(t1[i] == e1[i + 1]);
        }
        assert forall|i: int| 0 <= i < t2.len() implies #[trigger] t2[i].1 == occurrences(s, t2[i].0) by {
            assert(t2[i] == e2[i + 1]);
        }
        lemma_tally_lists_equal(t1, t2, s);
        assert(e1 =~= seq![e1[0]] + t1);
        assert(e2 =~= seq![e2[0]] + t2);
    }
}

/// A sequence has only one frequency table: any two tables of the same
/// sequence are equal.
pub proof fn law_tally_is_unique(e1: Seq<(Seq<char>, int)>, e2: Seq<(Seq<char>, int)>, s: Seq<Seq<char>>)
    requires
        is_tally_of(e1, s),
        is_tally_of(e2, s),
    ensures
        e1 == e2,
{
    assert forall|w: Seq<char>| #[trigger] has_word(e1, w) <==> has_word(e2, w) by {
        if has_word(e1, w) {
            let i = choose|i: int| 0 <= i < e1.len() && #[trigger] e1[i].0 == w;
            assert(e1[i].1 == occurrences(s, e1[i].0) && e1[i].1 > 0);
            assert(occurrences(s, w) > 0);
        }
        if has_word(e2, w) {
            let j = choose|j: int| 0 <= j < e2.len() && #[trigger] e2[j].0 == w;
            assert(e2[j].1 == occurrences(s, e2[j].0) && e2[j].1 > 0);
            assert(occurrences(s, w) > 0);
        }
    }
    lemma_tally_lists_equal(e1, e2, s);
}

/// Segments that are not words leave the table unchanged, wherever they
/// stand in the segment list.
pub proof fn law_non_words_leave_tally_unchanged(
    a: Seq<Seq<char>>,
    t: Seq<Seq<char>>,
    b: Seq<Seq<char>>,
    e1: Seq<(Seq<char>, int)>,
    e2: Seq<(Seq<char>, int)>,
)
    requires
        forall|i: int| 0 <= i < t.len() ==> !is_counted_word(#[trigger] t[i]),
        is_tally_of(e1, counted_words(a + t + b)),
        is_tally_of(e2, counted_words(a + b)),
    ensures
        e1 == e2,
{
    lemma_no_words_counted(t);
    Seq::filter_distributes_over_add(a + t, b, counted_pred());
    Seq::filter_distributes_over_add(a, t, counted_pred());
    Seq::filter_distributes_over_add(a, b, counted_pred());
    assert(counted_words(a + t) =~= counted_words(a));
    assert(counted_words(a + t + b) == counted_words(a + b));
    law_tally_is_unique(e1, e2, counted_words(a + b));
}

/// Concatenating non-empty pieces gives at least as many characters as
/// there are pieces.
proof fn lemma_joined_len(segs: Seq<Seq<char>>)
    requires
        forall|i: int| 0 <= i < segs.len() ==> #[trigger] segs[i].len() > 0,
    ensures
        joined(segs).len() >= segs.len(),
    decreases segs.len(),
{
    if segs.len() > 0 {
        assert forall|i: int| 0 <= i < segs.drop_last().len() implies #[trigger] segs.drop_last()[i].len() > 0 by {
            assert(segs.drop_last()[i] == segs[i]);
        }
        lemma_joined_len(segs.drop_last());
        assert(segs[segs.len() - 1].len() > 0);
    }
}

/// A word that occurs has an index.
proof fn lemma_occurrence_index(s: Seq<Seq<char>>, w: Seq<char>)
    requires
        occurrences(s, w) > 0,
    ensures
        exists|j: int| 0 <= j < s.len() && s[j] == w,
    decreases s.len(),
{
    if s.last() == w {
        assert(s[s.len() - 1] == w);
    } else {
        lemma_occurrence_index(s.drop_last(), w);
        let j = choose|j: int| 0 <= j < s.len() - 1 && s.drop_last()[j] == w;
        assert(s[j] == w);
    }
}

/// Each piece stands in the concatenation of all the pieces.
proof fn lemma_joined_contains(segs: Seq<Seq<char>>, m: int)
    requires
        0 <= m < segs.len(),
    ensures
        occurs_in(segs[m], joined(segs)),
    decreases segs.len(),
{
    let prefix = joined(segs.drop_last());
    let text = joined(segs);
    assert(text == prefix + segs.last());
    if m == segs.len() - 1 {
        let k = prefix.len() as int;
        assert(text.subrange(k, k + segs[m].len()) =~= segs[m]);
    } else {
        lemma_joined_contains(segs.drop_last(), m);
        assert(segs.drop_last()[m] == segs[m]);
        let k = choose|k: int| 0 <= k && k + segs[m].len() <= prefix.len() && #[trigger] prefix.subrange(k, k + segs[m].len()) == segs[m];
        assert(text.subrange(k, k + segs[m].len()) =~= prefix.subrange(k, k + segs[m].len()));
    }
}

/// Among the counted segments, a word occurs as often as in all segments
/// when it passes the word test, and not at all otherwise.
proof fn lemma_occurrences_counted(s: Seq<Seq<char>>, w: Seq<char>)
    ensures
        occurrences(counted_words(s), w) == if is_counted_word(w) {
            occurrences(s, w)
        } else {
            0
        },
    decreases s.len(),
{
    if s.len() == 0 {
        reveal_with_fuel(Seq::filter, 1);
    } else {
        let d = s.drop_last();
        lemma_occurrences_counted(d, w);
        assert(s =~= d.push(s.last()));
        d.lemma_filter_push(s.last(), counted_pred());
        lemma_occurrences_push(counted_words(d), s.last(), w);
        lemma_occurrences_push(d, s.last(), w);
    }
}

/// The table holds every segment that is a word (all characters alphabetic,
/// more than one UTF-8 byte), whatever its length, with the number of times
/// it occurs among the segments; every other segment counts 0.
pub proof fn law_every_word_segment_is_counted(s: Seq<Seq<char>>, e: Seq<(Seq<char>, int)>, w: Seq<char>)
    requires
        is_tally_of(e, counted_words(s)),
    ensures
        count_in(e, w) == if (forall|i: int|
            0 <= i < w.len() ==> if '\u{80}' <= #[trigger] w[i] {
                alphabetic(w[i])
            } else {
                'a' <= w[i] <= 'z' || 'A' <= w[i] <= 'Z'
            }) && vstd::utf8::encode_utf8(w).len() > 1 {
            occurrences(s, w)
        } else {
            0
        },
{
    law_lookup_gives_occurrences(e, counted_words(s), w);
    lemma_occurrences_counted(s, w);
    let inline = forall|i: int|
        0 <= i < w.len() ==> if '\u{80}' <= #[trigger] w[i] {
            alphabetic(w[i])
        } else {
            'a' <= w[i] <= 'z' || 'A' <= w[i] <= 'Z'
        };
    if inline {
        assert forall|i: int| 0 <= i < w.len() implies #[trigger] word_char(w[i]) by {
            assert(w[i] == w[i]);
        }
    }
    if forall|i: int| 0 <= i < w.len() ==> #[trigger] word_char(w[i]) {
        assert forall|i: int| 0 <= i < w.len() implies if '\u{80}' <= #[trigger] w[i] {
            alphabetic(w[i])
        } else {
            'a' <= w[i] <= 'z' || 'A' <= w[i] <= 'Z'
        } by {
            assert(word_char(w[i]));
        }
    }
}

/// Two or more ASCII letters, upper or lower case, always make a word.
pub proof fn law_ascii_letter_runs_are_words(w: Seq<char>)
    requires
        w.len() >= 2,
        forall|i: int| 0 <= i < w.len() ==> 'a' <= #[trigger] w[i] <= 'z' || 'A' <= w[i] <= 'Z',
    ensures
        is_counted_word(w),
{
    lemma_utf8_len(w);
}

/// A run of two or more ASCII letters among the segments is tallied with
/// the number of times it occurs.
pub proof fn law_ascii_letter_runs_are_tallied(s: Seq<Seq<char>>, e: Seq<(Seq<char>, int)>, w: Seq<char>)
    requires
        is_tally_of(e, counted_words(s)),
        w.len() >= 2,
        forall|i: int| 0 <= i < w.len() ==> 'a' <= #[trigger] w[i] <= 'z' || 'A' <= w[i] <= 'Z',
    ensures
        count_in(e, w) == occurrences(s, w),
{
    law_ascii_letter_runs_are_words(w);
    law_lookup_gives_occurrences(e, counted_words(s), w);
    lemma_occurrences_counted(s, w);
}

/// Every word in a frequency table of counted segments passes the word test:
/// all its characters are alphabetic and it takes more than one UTF-8 byte.
pub proof fn law_tallied_words_are_words(e: Seq<(Seq<char>, int)>, s: Seq<Seq<char>>)
    requires
        is_tally_of(e, counted_words(s)),
    ensures
        forall|i: int| 0 <= i < e.len() ==> is_counted_word(#[trigger] e[i].0),
{
    let cw = counted_words(s);
    assert forall|i: int| 0 <= i < e.len() implies is_counted_word(#[trigger] e[i].0) by {
        assert(e[i].1 == occurrences(cw, e[i].0) && e[i].1 > 0);
        lemma_occurrence_index(cw, e[i].0);
        let j = choose|j: int| 0 <= j < cw.len() && cw[j] == e[i].0;
        s.lemma_filter_pred(counted_pred(), j);
    }
}

/// Looking a word up in a frequency table gives how often it occurs in the
/// tallied sequence, and 0 for a word that does not occur.
pub proof fn law_lookup_gives_occurrences(e: Seq<(Seq<char>, int)>, s: Seq<Seq<char>>, w: Seq<char>)
    requires
        is_tally_of(e, s),
    ensures
        count_in(e, w) == occurrences(s, w),
{
    if exists|i: int| 0 <= i < e.len() && e[i].0 == w {
        let j = choose|i: int| 0 <= i < e.len() && e[i].0 == w;
        assert(e[j].1 == occurrences(s, e[j].0));
    } else {
        if occurrences(s, w) > 0 {
            let i = choose|i: int| 0 <= i < e.len() && #[trigger] e[i].0 == w;
            assert(false);
        }
    }
}

/// Word frequencies: each distinct word with the number of times it occurs.
pub struct WordCounts {
    entries: Vec<(String, usize)>,
}

impl View for WordCounts {
    type V = Seq<(Seq<char>, int)>;

    closed spec fn view(&self) -> Seq<(Seq<char>, int)> {
        table_view(self.entries@)
    }
}

impl WordCounts {
    #[verifier::type_invariant]
    spec fn inv(self) -> bool {
        well_formed_table(table_view(self.entries@))
    }

    /// The empty table.
    pub fn new() -> (res: WordCounts)
        ensures
            res@ == Seq::<(Seq<char>, int)>::empty(),
    {
        let res = WordCounts { entries: Vec::new() };
        proof {
            assert(table_view(res.entries@) =~= Seq::<(Seq<char>, int)>::empty());
        }
        res
    }

    /// The table holding `entries`, when they make one: no word twice and
    /// every count positive. `None` otherwise.
    pub fn from_entries(entries: Vec<(String, usize)>) -> (res: Option<WordCounts>)
        ensures
            res is Some <==> well_formed_table(table_view(entries@)),
            res matches Some(t) ==> t@ == table_view(entries@),
    {
        let ghost e = table_view(entries@);
        let n = entries.len();
        let mut i: usize = 0;
        while i < n
            invariant
                n == entries@.len(),
                e == table_view(entries@),
                i <= n,
                forall|a: int, b: int| 0 <= a < b < i ==> #[trigger] e[a].0 != #[trigger] e[b].0,
                forall|a: int| 0 <= a < i ==> #[trigger] e[a].1 > 0,
            decreases n - i,
        {
            proof {
                assert(e[i as int] == (entries@[i as int].0@, entries@[i as int].1 as int));
            }
            if entries[i].1 == 0 {
                proof {
                    assert(e[i as int].1 == 0);
                    assert(!well_formed_table(e));
                }
                return None;
            }
            let mut j: usize = 0;
            while j < i
                invariant
                    n == entries@.len(),
                    e == table_view(entries@),
                    j <= i,
                    i < n,
                    forall|a: int| 0 <= a < j ==> #[trigger] e[a].0 != e[i as int].0,
                decreases i - j,
            {
                proof {
                    assert(e[j as int] == (entries@[j as int].0@, entries@[j as int].1 as int));
                }
                if entries[j].0 == entries[i].0 {
                    proof {
                        assert(e[j as int].0 == e[i as int].0);
                        assert(!well_formed_table(e));
                    }
                    return None;
                }
                j = j + 1;
            }
            i = i + 1;
        }
        Some(WordCounts { entries })
    }

    /// Number of distinct words.
    pub fn len(&self) -> (res: usize)
        ensures
            res == self@.len(),
    {
        self.entries.len()
    }

    /// Whether the table holds no word.
    pub fn is_empty(&self) -> (res: bool)
        ensures
            res == (self@.len() == 0),
    {
        self.entries.len() == 0
    }

    /// The entries, in table order.
    pub fn entries(&self) -> (res: &Vec<(String, usize)>)
        ensures
            table_view(res@) == self@,
            well_formed_table(self@),
    {
        proof {
            use_type_invariant(self);
        }
        &self.entries
    }

    /// How often `word` was counted: its entry's count, or 0 when absent.
    pub fn get(&self, word: &str) -> (res: usize)
        ensures
            res == count_in(self@, word@),
    {
        proof {
            use_type_invariant(self);
        }
        let target = word.to_owned();
        match find_entry(&self.entries, &target) {
            Some(k) => {
                proof {
                    let e = self@;
                    assert(e[k as int].0 == word@);
                    let i = choose|i: int| 0 <= i < e.len() && e[i].0 == word@;
                    if i != k {
                        if i < k {
                            assert(e[i].0 != e[k as int].0);
                        } else {
                            assert(e[k as int].0 != e[i].0);
                        }
                    }
                }
                self.entries[k].1
            },
            None => {
                proof {
                    assert forall|i: int| 0 <= i < self@.len() implies self@[i].0 != word@ by {
                        assert(self@[i] == table_view(self.entries@)[i]);
                    }
                }
                0
            },
        }
    }
}

} // verus!
