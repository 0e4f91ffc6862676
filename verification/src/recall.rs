//! Keyword extraction and keyword-overlap ranking of long-term memories.

use vstd::prelude::*;
use crate::text::{
    chars_of, contains_chars, contains_seq, is_unicode_whitespace, string_from_range, string_views,
    trim, trim_end, trim_range, trim_start,
};
use crate::trusted::{
    ascii_lower, is_alphanumeric, is_ascii_alphanumeric, spec_is_alphanumeric, spec_to_lowercase,
    to_lowercase,
};

verus! {

// ---------------------------------------------------------------------------
// Specifications
// ---------------------------------------------------------------------------

/// The pieces of `s` between the characters that `word` marks `false`, in
/// order; like `str::split`, `n` separators give `n + 1` pieces, some of
/// them possibly empty.
pub open spec fn split_pieces(s: Seq<char>, word: Seq<bool>) -> Seq<Seq<char>>
    decreases s.len(),
{
    if s.len() == 0 {
        seq![Seq::empty()]
    } else {
        let prev = split_pieces(s.drop_last(), word);
        if !word[s.len() - 1] {
            prev.push(Seq::empty())
        } else {
            prev.update(prev.len() - 1, prev.last().push(s.last()))
        }
    }
}

/// Which characters of `s` are alphanumeric.
pub open spec fn alphanumeric_marks(s: Seq<char>) -> Seq<bool> {
    s.map_values(|c: char| spec_is_alphanumeric(c))
}

/// What a piece gives: the piece trimmed, kept only when it has at least
/// two characters.
pub open spec fn long_piece(piece: Seq<char>) -> Seq<Seq<char>> {
    let t = trim(piece);
    if t.len() >= 2 {
        seq![t]
    } else {
        Seq::empty()
    }
}

/// What a sequence of pieces gives, in order.
pub open spec fn long_pieces(pieces: Seq<Seq<char>>) -> Seq<Seq<char>>
    decreases pieces.len(),
{
    if pieces.len() == 0 {
        Seq::empty()
    } else {
        long_pieces(pieces.drop_last()) + long_piece(pieces.last())
    }
}

/// The trimmed pieces of at least two characters of `s`, split where `word`
/// marks `false`.
pub open spec fn keyword_pieces_of(s: Seq<char>, word: Seq<bool>) -> Seq<Seq<char>> {
    long_pieces(split_pieces(s, word))
}

/// The keywords of a text: its pieces between non-alphanumeric characters,
/// trimmed, kept when at least two characters long, and lower-cased.
pub open spec fn keywords_of(s: Seq<char>) -> Seq<Seq<char>> {
    keyword_pieces_of(s, alphanumeric_marks(s)).map_values(|p: Seq<char>| spec_to_lowercase(p))
}

/// Every character of `s` is ASCII.
pub open spec fn is_ascii_text(s: Seq<char>) -> bool {
    forall|i: int| 0 <= i < s.len() ==> (#[trigger] s[i] as u32) < 128
}

/// The ASCII upper case of a character: `a`..`z` become `A`..`Z`, every
/// other character stays.
pub open spec fn ascii_upper(c: char) -> char {
    let u = c as u32;
    if 0x61 <= u <= 0x7a {
        (u - 32) as char
    } else {
        c
    }
}

/// `s` with its ASCII letters in upper case (`str::to_ascii_uppercase`).
pub open spec fn to_ascii_upper(s: Seq<char>) -> Seq<char> {
    s.map_values(|c: char| ascii_upper(c))
}

/// `s` with its ASCII letters in lower case (`str::to_ascii_lowercase`).
pub open spec fn to_ascii_lower(s: Seq<char>) -> Seq<char> {
    s.map_values(|c: char| ascii_lower(c))
}

/// Which characters of `s` are ASCII letters or digits.
pub open spec fn ascii_marks(s: Seq<char>) -> Seq<bool> {
    s.map_values(|c: char| is_ascii_alphanumeric(c))
}

/// The keywords of an ASCII text, written out: its pieces between
/// characters that are not letters or digits, trimmed, kept when at least
/// two characters long, and in lower case.
pub open spec fn ascii_keywords_of(s: Seq<char>) -> Seq<Seq<char>> {
    keyword_pieces_of(s, ascii_marks(s)).map_values(|p: Seq<char>| to_ascii_lower(p))
}

/// Every character of `piece` occurs in `s`.
pub open spec fn chars_within(piece: Seq<char>, s: Seq<char>) -> bool {
    forall|j: int| 0 <= j < piece.len() ==> s.contains(#[trigger] piece[j])
}

/// Every character of every piece occurs in `s`.
pub open spec fn all_within(pieces: Seq<Seq<char>>, s: Seq<char>) -> bool {
    forall|k: int| 0 <= k < pieces.len() ==> chars_within(#[trigger] pieces[k], s)
}

/// Some keyword of a memory contains `term`.
pub open spec fn some_contains(memory_terms: Seq<Seq<char>>, term: Seq<char>) -> bool {
    exists|j: int| 0 <= j < memory_terms.len() && contains_seq(#[trigger] memory_terms[j], term)
}

/// How many of the query's keywords (counted with repetition) occur inside
/// some keyword of the memory.
pub open spec fn match_count(query_terms: Seq<Seq<char>>, memory_terms: Seq<Seq<char>>) -> nat
    decreases query_terms.len(),
{
    if query_terms.len() == 0 {
        0
    } else {
        match_count(query_terms.drop_last(), memory_terms) + if some_contains(
            memory_terms,
            query_terms.last(),
        ) {
            1nat
        } else {
            0nat
        }
    }
}

/// The score of each memory against the query's keywords.
pub open spec fn memory_scores(query_terms: Seq<Seq<char>>, memories: Seq<Seq<char>>) -> Seq<nat> {
    memories.map_values(|m: Seq<char>| match_count(query_terms, keywords_of(m)))
}

/// Memory `i` comes before memory `j`: a higher score, or the same score
/// and an earlier place.
pub open spec fn ranked_before(scores: Seq<nat>, i: int, j: int) -> bool {
    scores[i] > scores[j] || (scores[i] == scores[j] && i < j)
}

/// `order` lists, best first, exactly those of the first `n` memories that
/// have a positive score.
pub open spec fn ranks_first(order: Seq<int>, scores: Seq<nat>, n: int) -> bool {
    &&& forall|p: int| 0 <= p < order.len() ==> 0 <= #[trigger] order[p] < n
    &&& forall|p: int| 0 <= p < order.len() ==> scores[#[trigger] order[p]] > 0
    &&& forall|i: int| 0 <= i < n && #[trigger] scores[i] > 0 ==> order.contains(i)
    &&& forall|p: int, q: int|
        0 <= p < q < order.len() ==> ranked_before(scores, #[trigger] order[p], #[trigger] order[q])
}

/// `order` lists, best first, exactly the memories with a positive score.
pub open spec fn is_ranking(order: Seq<int>, scores: Seq<nat>) -> bool {
    ranks_first(order, scores, scores.len() as int)
}

/// The ranking of memories with a positive score.
pub open spec fn ranking(scores: Seq<nat>) -> Seq<int> {
    choose|order: Seq<int>| is_ranking(order, scores)
}

/// How a recalled memory is listed: `- ` before its text.
pub open spec fn listed(memory: Seq<char>) -> Seq<char> {
    "- "@ + memory
}

/// The positions of the memories recalled for `query`, at most `limit` of
/// them.  A query without keywords recalls the first memories in stored
/// order; otherwise the memories matching some keyword are recalled, best
/// first.
pub open spec fn recalled_indices(memories: Seq<Seq<char>>, query: Seq<char>, limit: nat) -> Seq<int> {
    let query_terms = keywords_of(query);
    let picked = if query_terms.len() == 0 {
        Seq::new(memories.len(), |i: int| i)
    } else {
        ranking(memory_scores(query_terms, memories))
    };
    let n = if limit < picked.len() {
        limit
    } else {
        picked.len()
    };
    picked.take(n as int)
}

/// The memories recalled for `query`, each listed.
pub open spec fn recalled(memories: Seq<Seq<char>>, query: Seq<char>, limit: nat) -> Seq<Seq<char>> {
    recalled_indices(memories, query, limit).map_values(|i: int| listed(memories[i]))
}

// ---------------------------------------------------------------------------
// Lemmas
// ---------------------------------------------------------------------------

proof fn lemma_match_count_bound(query_terms: Seq<Seq<char>>, memory_terms: Seq<Seq<char>>)
    ensures
        match_count(query_terms, memory_terms) <= query_terms.len(),
    decreases query_terms.len(),
{
    if query_terms.len() > 0 {
        lemma_match_count_bound(query_terms.drop_last(), memory_terms);
    }
}

proof fn lemma_rankings_agree_below(o1: Seq<int>, o2: Seq<int>, scores: Seq<nat>, k: int)
    requires
        is_ranking(o1, scores),
        is_ranking(o2, scores),
        0 <= k <= o1.len(),
        k <= o2.len(),
    ensures
        forall|j: int| 0 <= j < k ==> o1[j] == o2[j],
    decreases k,
{
    if k > 0 {
        lemma_rankings_agree_below(o1, o2, scores, k - 1);
        let a = o1[k - 1];
        let b = o2[k - 1];
        if a != b {
            assert(scores[b] > 0);
            assert(o1.contains(b));
            let p = choose|p: int| 0 <= p < o1.len() && o1[p] == b;
            assert(scores[a] > 0);
            assert(o2.contains(a));
            let q = choose|q: int| 0 <= q < o2.len() && o2[q] == a;
            if p < k - 1 {
                assert(o2[p] == b);
                assert(ranked_before(scores, o2[p], o2[k - 1]));
            }
            if q < k - 1 {
                assert(o1[q] == a);
                assert(ranked_before(scores, o1[q], o1[k - 1]));
            }
            assert(p > k - 1);
            assert(q > k - 1);
            assert(ranked_before(scores, o1[k - 1], o1[p]));
            assert(ranked_before(scores, o2[k - 1], o2[q]));
        }
    }
}

/// There is only one ranking of a sequence of scores: listing the memories
/// with a positive score best first, ties in their stored order, leaves no
/// choice.
pub proof fn lemma_ranking_unique(o1: Seq<int>, o2: Seq<int>, scores: Seq<nat>)
    requires
        is_ranking(o1, scores),
        is_ranking(o2, scores),
    ensures
        o1 == o2,
{
    let m = if o1.len() <= o2.len() { o1.len() as int } else { o2.len() as int };
    lemma_rankings_agree_below(o1, o2, scores, m);
    if o1.len() > o2.len() {
        let x = o1[m];
        assert(scores[x] > 0);
        assert(o2.contains(x));
        let q = choose|q: int| 0 <= q < o2.len() && o2[q] == x;
        assert(o1[q] == x);
        assert(ranked_before(scores, o1[q], o1[m]));
    }
    if o2.len() > o1.len() {
        let x = o2[m];
        assert(scores[x] > 0);
        assert(o1.contains(x));
        let p = choose|p: int| 0 <= p < o1.len() && o1[p] == x;
        assert(o2[p] == x);
        assert(ranked_before(scores, o2[p], o2[m]));
    }
    assert(o1 =~= o2);
}

/// Inserting memory `n` into a ranking of the first `n` memories, after
/// every memory that scores at least as high and before the others, ranks
/// the first `n + 1`.
pub proof fn lemma_insert_ranked(o: Seq<int>, scores: Seq<nat>, n: int, p: int)
    requires
        0 <= n < scores.len(),
        ranks_first(o, scores, n),
        scores[n] > 0,
        0 <= p <= o.len(),
        forall|q: int| 0 <= q < p ==> scores[#[trigger] o[q]] >= scores[n],
        p < o.len() ==> scores[o[p]] < scores[n],
    ensures
        ranks_first(o.insert(p, n), scores, n + 1),
{
    let r = o.insert(p, n);
    assert forall|a: int| 0 <= a < r.len() implies 0 <= #[trigger] r[a] < n + 1 && scores[r[a]] > 0 by {
        if a < p {
            assert(r[a] == o[a]);
        } else if a > p {
            assert(r[a] == o[a - 1]);
        }
    }
    assert forall|a: int, b: int| 0 <= a < b < r.len() implies ranked_before(
        scores,
        #[trigger] r[a],
        #[trigger] r[b],
    ) by {
        if b < p {
            assert(r[a] == o[a] && r[b] == o[b]);
        } else if b == p {
            assert(r[a] == o[a]);
            assert(scores[o[a]] >= scores[n]);
        } else if a < p {
            assert(r[a] == o[a] && r[b] == o[b - 1]);
            assert(ranked_before(scores, o[a], o[b - 1]));
        } else if a == p {
            assert(r[b] == o[b - 1]);
            if b - 1 > p {
                assert(ranked_before(scores, o[p], o[b - 1]));
            }
        } else {
            assert(r[a] == o[a - 1] && r[b] == o[b - 1]);
            assert(ranked_before(scores, o[a - 1], o[b - 1]));
        }
    }
    assert forall|i: int| 0 <= i < n + 1 && #[trigger] scores[i] > 0 implies r.contains(i) by {
        if i == n {
            assert(r[p] == i);
        } else {
            assert(o.contains(i));
            let k = choose|k: int| 0 <= k < o.len() && #[trigger] o[k] == i;
            if k < p {
                assert(r[k] == i);
            } else {
                assert(r[k + 1] == i);
            }
        }
    }
}

/// The place where memory `n` goes in a ranking of the first `n`: after
/// the memories from `k` on that score at least as high.
proof fn lemma_insertion_point(o: Seq<int>, scores: Seq<nat>, n: int, k: int) -> (p: int)
    requires
        0 <= n < scores.len(),
        ranks_first(o, scores, n),
        0 <= k <= o.len(),
        forall|q: int| 0 <= q < k ==> scores[#[trigger] o[q]] >= scores[n],
    ensures
        k <= p <= o.len(),
        forall|q: int| 0 <= q < p ==> scores[#[trigger] o[q]] >= scores[n],
        p < o.len() ==> scores[o[p]] < scores[n],
    decreases o.len() - k,
{
    if k == o.len() || scores[o[k]] < scores[n] {
        k
    } else {
        lemma_insertion_point(o, scores, n, k + 1)
    }
}

proof fn lemma_ranks_first_exists(scores: Seq<nat>, n: int) -> (o: Seq<int>)
    requires
        0 <= n <= scores.len(),
    ensures
        ranks_first(o, scores, n),
    decreases n,
{
    if n == 0 {
        Seq::empty()
    } else {
        let o = lemma_ranks_first_exists(scores, n - 1);
        if scores[n - 1] > 0 {
            let p = lemma_insertion_point(o, scores, n - 1, 0);
            lemma_insert_ranked(o, scores, n - 1, p);
            o.insert(p, n - 1)
        } else {
            assert forall|p: int| 0 <= p < o.len() implies 0 <= #[trigger] o[p] < n by {}
            o
        }
    }
}

/// Every sequence of scores has a ranking, and [`ranking`] is it.
pub proof fn lemma_ranking_is_ranking(scores: Seq<nat>)
    ensures
        is_ranking(ranking(scores), scores),
{
    let o = lemma_ranks_first_exists(scores, scores.len() as int);
    assert(is_ranking(o, scores));
}

/// No memory appears twice in a ranking.
pub proof fn lemma_ranking_no_duplicates(o: Seq<int>, scores: Seq<nat>)
    requires
        is_ranking(o, scores),
    ensures
        forall|p: int, q: int| 0 <= p < q < o.len() ==> #[trigger] o[p] != #[trigger] o[q],
{
    assert forall|p: int, q: int| 0 <= p < q < o.len() implies #[trigger] o[p] != #[trigger] o[q] by {
        assert(ranked_before(scores, o[p], o[q]));
    }
}

/// A sequence of distinct indices below `n` has at most `n` elements.
proof fn lemma_distinct_indices_bound(o: Seq<int>, n: int)
    requires
        0 <= n,
        forall|p: int| 0 <= p < o.len() ==> 0 <= #[trigger] o[p] < n,
        forall|p: int, q: int| 0 <= p < q < o.len() ==> #[trigger] o[p] != #[trigger] o[q],
    ensures
        o.len() <= n,
{
    let s = o.to_set();
    let full = Set::new(|i: int| 0 <= i < n);
    assert(full =~= vstd::set_lib::set_int_range(0, n));
    vstd::set_lib::lemma_int_range(0, n);
    assert(s.subset_of(full)) by {
        assert forall|x: int| s.contains(x) implies full.contains(x) by {
            let p = choose|p: int| 0 <= p < o.len() && o[p] == x;
        }
    }
    vstd::set_lib::lemma_len_subset(s, full);
    assert(o.no_duplicates());
    o.unique_seq_to_set();
}

/// Recall gives at most `limit` memories, distinct stored memories, each
/// listed.
pub proof fn lemma_recall_bounded(memories: Seq<Seq<char>>, query: Seq<char>, limit: nat)
    ensures
        recalled_indices(memories, query, limit).len() <= limit,
        recalled_indices(memories, query, limit).len() <= memories.len(),
        forall|k: int|
            0 <= k < recalled_indices(memories, query, limit).len() ==> 0
                <= #[trigger] recalled_indices(memories, query, limit)[k] < memories.len(),
        forall|p: int, q: int|
            0 <= p < q < recalled_indices(memories, query, limit).len() ==> #[trigger] recalled_indices(
                memories,
                query,
                limit,
            )[p] != #[trigger] recalled_indices(memories, query, limit)[q],
        recalled(memories, query, limit).len() == recalled_indices(memories, query, limit).len(),
{
    let query_terms = keywords_of(query);
    let scores = memory_scores(query_terms, memories);
    if query_terms.len() > 0 {
        let o = ranking(scores);
        lemma_ranking_is_ranking(scores);
        lemma_ranking_no_duplicates(o, scores);
        lemma_distinct_indices_bound(o, memories.len() as int);
    }
}

/// With a query that has keywords, recall is best first: a memory that
/// scores higher than a recalled one is recalled before it.
pub proof fn lemma_recall_best_first(
    memories: Seq<Seq<char>>,
    query: Seq<char>,
    limit: nat,
    k: int,
    j: int,
)
    requires
        keywords_of(query).len() > 0,
        0 <= k < recalled_indices(memories, query, limit).len(),
        0 <= j < memories.len(),
        memory_scores(keywords_of(query), memories)[j] > memory_scores(
            keywords_of(query),
            memories,
        )[recalled_indices(memories, query, limit)[k]],
    ensures
        exists|p: int| 0 <= p < k && recalled_indices(memories, query, limit)[p] == j,
{
    let scores = memory_scores(keywords_of(query), memories);
    let o = ranking(scores);
    lemma_ranking_is_ranking(scores);
    let r = recalled_indices(memories, query, limit);
    assert(r[k] == o[k]);
    assert(scores[o[k]] > 0);
    assert(o.contains(j));
    let p = choose|p: int| 0 <= p < o.len() && o[p] == j;
    if p >= k {
        if p > k {
            assert(ranked_before(scores, o[k], o[p]));
        }
        assert(false);
    }
    assert(r[p] == j);
}

/// A query keyword counts toward a memory's score only when it occurs
/// inside one of the memory's keywords: with none occurring, the score is
/// zero.
pub proof fn lemma_match_count_zero(query_terms: Seq<Seq<char>>, memory_terms: Seq<Seq<char>>)
    requires
        forall|i: int, j: int|
            0 <= i < query_terms.len() && 0 <= j < memory_terms.len() ==> !contains_seq(
                #[trigger] memory_terms[j],
                #[trigger] query_terms[i],
            ),
    ensures
        match_count(query_terms, memory_terms) == 0,
    decreases query_terms.len(),
{
    if query_terms.len() > 0 {
        let q = query_terms.drop_last();
        assert forall|i: int, j: int|
            0 <= i < q.len() && 0 <= j < memory_terms.len() implies !contains_seq(
            #[trigger] memory_terms[j],
            #[trigger] q[i],
        ) by {
            assert(q[i] == query_terms[i]);
        }
        lemma_match_count_zero(q, memory_terms);
        assert(!some_contains(memory_terms, query_terms.last())) by {
            if some_contains(memory_terms, query_terms.last()) {
                let j = choose|j: int|
                    0 <= j < memory_terms.len() && contains_seq(
                        #[trigger] memory_terms[j],
                        query_terms.last(),
                    );
                assert(query_terms[query_terms.len() - 1] == query_terms.last());
            }
        }
    }
}

/// Every query keyword counts exactly when each of them occurs inside some
/// keyword of the memory.
pub proof fn lemma_match_count_full(query_terms: Seq<Seq<char>>, memory_terms: Seq<Seq<char>>)
    ensures
        match_count(query_terms, memory_terms) == query_terms.len() <==> forall|i: int|
            0 <= i < query_terms.len() ==> exists|j: int|
                0 <= j < memory_terms.len() && contains_seq(
                    #[trigger] memory_terms[j],
                    #[trigger] query_terms[i],
                ),
    decreases query_terms.len(),
{
    if query_terms.len() > 0 {
        let q = query_terms.drop_last();
        lemma_match_count_full(q, memory_terms);
        lemma_match_count_bound(q, memory_terms);
        let all_q = forall|i: int|
            0 <= i < q.len() ==> exists|j: int|
                0 <= j < memory_terms.len() && contains_seq(
                    #[trigger] memory_terms[j],
                    #[trigger] q[i],
                );
        let all = forall|i: int|
            0 <= i < query_terms.len() ==> exists|j: int|
                0 <= j < memory_terms.len() && contains_seq(
                    #[trigger] memory_terms[j],
                    #[trigger] query_terms[i],
                );
        let last = query_terms.last();
        if all {
            assert forall|i: int| 0 <= i < q.len() implies exists|j: int|
                0 <= j < memory_terms.len() && contains_seq(
                    #[trigger] memory_terms[j],
                    #[trigger] q[i],
                ) by {
                assert(q[i] == query_terms[i]);
            }
            assert(query_terms[query_terms.len() - 1] == last);
            let j = choose|j: int|
                0 <= j < memory_terms.len() && contains_seq(
                    #[trigger] memory_terms[j],
                    #[trigger] query_terms[query_terms.len() - 1],
                );
            assert(some_contains(memory_terms, last));
        }
        if match_count(query_terms, memory_terms) == query_terms.len() {
            assert(match_count(q, memory_terms) == q.len());
            assert(some_contains(memory_terms, last));
            assert forall|i: int| 0 <= i < query_terms.len() implies exists|j: int|
                0 <= j < memory_terms.len() && contains_seq(
                    #[trigger] memory_terms[j],
                    #[trigger] query_terms[i],
                ) by {
                if i < q.len() {
                    assert(q[i] == query_terms[i]);
                    let j = choose|j: int|
                        0 <= j < memory_terms.len() && contains_seq(
                            #[trigger] memory_terms[j],
                            #[trigger] q[i],
                        );
                } else {
                    assert(query_terms[i] == last);
                    let j = choose|j: int|
                        0 <= j < memory_terms.len() && contains_seq(#[trigger] memory_terms[j], last);
                }
            }
        }
    }
}

/// A memory none of whose keywords contains any of the query's keywords is
/// never recalled for a query that has keywords.
pub proof fn lemma_unrelated_memory_not_recalled(
    memories: Seq<Seq<char>>,
    query: Seq<char>,
    limit: nat,
    m: int,
)
    requires
        keywords_of(query).len() > 0,
        0 <= m < memories.len(),
        forall|i: int, j: int|
            0 <= i < keywords_of(query).len() && 0 <= j < keywords_of(memories[m]).len()
                ==> !contains_seq(
                #[trigger] keywords_of(memories[m])[j],
                #[trigger] keywords_of(query)[i],
            ),
    ensures
        forall|k: int|
            0 <= k < recalled_indices(memories, query, limit).len() ==> #[trigger] recalled_indices(
                memories,
                query,
                limit,
            )[k] != m,
{
    let qt = keywords_of(query);
    let scores = memory_scores(qt, memories);
    lemma_match_count_zero(qt, keywords_of(memories[m]));
    assert(scores[m] == 0);
    lemma_ranking_is_ranking(scores);
    let o = ranking(scores);
    let r = recalled_indices(memories, query, limit);
    assert forall|k: int| 0 <= k < r.len() implies #[trigger] r[k] != m by {
        assert(r[k] == o[k]);
        assert(scores[o[k]] > 0);
    }
}

/// A text splits into at least one piece.
proof fn lemma_split_pieces_nonempty(s: Seq<char>, word: Seq<bool>)
    ensures
        split_pieces(s, word).len() >= 1,
    decreases s.len(),
{
    if s.len() > 0 {
        lemma_split_pieces_nonempty(s.drop_last(), word);
    }
}

proof fn lemma_upper_char(c: char)
    ensures
        is_ascii_alphanumeric(ascii_upper(c)) == is_ascii_alphanumeric(c),
        is_unicode_whitespace(ascii_upper(c)) == is_unicode_whitespace(c),
        ascii_lower(ascii_upper(c)) == ascii_lower(c),
        (c as u32) < 128 ==> (ascii_upper(c) as u32) < 128,
{
}

proof fn lemma_upper_split(s: Seq<char>, word: Seq<bool>)
    ensures
        split_pieces(to_ascii_upper(s), word) == split_pieces(s, word).map_values(
            |p: Seq<char>| to_ascii_upper(p),
        ),
    decreases s.len(),
{
    let u = to_ascii_upper(s);
    let prev = split_pieces(s.drop_last(), word);
    if s.len() == 0 {
        assert(to_ascii_upper(Seq::<char>::empty()) =~= Seq::<char>::empty());
        assert(split_pieces(s, word).map_values(|p: Seq<char>| to_ascii_upper(p)) =~= seq![
            Seq::<char>::empty(),
        ]);
    } else {
        assert(u.drop_last() =~= to_ascii_upper(s.drop_last()));
        lemma_upper_split(s.drop_last(), word);
        lemma_split_pieces_nonempty(s.drop_last(), word);
        let mapped = prev.map_values(|p: Seq<char>| to_ascii_upper(p));
        if !word[s.len() - 1] {
            assert(to_ascii_upper(Seq::<char>::empty()) =~= Seq::<char>::empty());
            assert(split_pieces(s, word).map_values(|p: Seq<char>| to_ascii_upper(p))
                =~= mapped.push(Seq::empty()));
        } else {
            assert(to_ascii_upper(prev.last().push(s.last())) =~= mapped.last().push(
                ascii_upper(s.last()),
            ));
            assert(split_pieces(s, word).map_values(|p: Seq<char>| to_ascii_upper(p))
                =~= mapped.update(mapped.len() - 1, mapped.last().push(u.last())));
        }
    }
}

proof fn lemma_upper_trim_start(p: Seq<char>)
    ensures
        trim_start(to_ascii_upper(p)) == to_ascii_upper(trim_start(p)),
    decreases p.len(),
{
    if p.len() > 0 {
        lemma_upper_char(p[0]);
        if is_unicode_whitespace(p[0]) {
            assert(to_ascii_upper(p).drop_first() =~= to_ascii_upper(p.drop_first()));
            lemma_upper_trim_start(p.drop_first());
        }
    }
}

proof fn lemma_upper_trim_end(p: Seq<char>)
    ensures
        trim_end(to_ascii_upper(p)) == to_ascii_upper(trim_end(p)),
    decreases p.len(),
{
    if p.len() > 0 {
        lemma_upper_char(p.last());
        if is_unicode_whitespace(p.last()) {
            assert(to_ascii_upper(p).drop_last() =~= to_ascii_upper(p.drop_last()));
            lemma_upper_trim_end(p.drop_last());
        }
    }
}

proof fn lemma_upper_long_pieces(pieces: Seq<Seq<char>>)
    ensures
        long_pieces(pieces.map_values(|p: Seq<char>| to_ascii_upper(p))) == long_pieces(
            pieces,
        ).map_values(|p: Seq<char>| to_ascii_upper(p)),
    decreases pieces.len(),
{
    let mapped = pieces.map_values(|p: Seq<char>| to_ascii_upper(p));
    if pieces.len() == 0 {
        assert(long_pieces(pieces).map_values(|p: Seq<char>| to_ascii_upper(p)) =~= Seq::<
            Seq<char>,
        >::empty());
    } else {
        assert(mapped.drop_last() =~= pieces.drop_last().map_values(
            |p: Seq<char>| to_ascii_upper(p),
        ));
        lemma_upper_long_pieces(pieces.drop_last());
        let last = pieces.last();
        lemma_upper_trim_start(last);
        lemma_upper_trim_end(trim_start(last));
        assert(trim(to_ascii_upper(last)) == to_ascii_upper(trim(last)));
        assert(long_pieces(pieces).map_values(|p: Seq<char>| to_ascii_upper(p)) =~= long_pieces(
            pieces.drop_last(),
        ).map_values(|p: Seq<char>| to_ascii_upper(p)) + long_piece(last).map_values(
            |p: Seq<char>| to_ascii_upper(p),
        ));
        assert(long_piece(to_ascii_upper(last)) =~= long_piece(last).map_values(
            |p: Seq<char>| to_ascii_upper(p),
        ));
    }
}

proof fn lemma_split_all_word(s: Seq<char>, word: Seq<bool>)
    requires
        forall|i: int| 0 <= i < s.len() ==> #[trigger] word[i],
    ensures
        split_pieces(s, word) == seq![s],
    decreases s.len(),
{
    if s.len() == 0 {
        assert(s =~= Seq::<char>::empty());
    } else {
        lemma_split_all_word(s.drop_last(), word);
        assert(word[s.len() - 1]);
        assert(s.drop_last().push(s.last()) =~= s);
        assert(seq![s.drop_last()].update(0, s.drop_last().push(s.last())) =~= seq![s]);
    }
}

proof fn lemma_split_marks_agree(s: Seq<char>, w1: Seq<bool>, w2: Seq<bool>)
    requires
        forall|i: int| 0 <= i < s.len() ==> #[trigger] w1[i] == w2[i],
    ensures
        split_pieces(s, w1) == split_pieces(s, w2),
    decreases s.len(),
{
    if s.len() > 0 {
        lemma_split_marks_agree(s.drop_last(), w1, w2);
        assert(w1[s.len() - 1] == w2[s.len() - 1]);
    }
}

proof fn lemma_split_concat(a: Seq<char>, c: char, b: Seq<char>, w: Seq<bool>)
    requires
        w.len() >= a.len() + 1 + b.len(),
        !w[a.len() as int],
    ensures
        split_pieces(a + seq![c] + b, w) == split_pieces(a, w) + split_pieces(
            b,
            w.skip(a.len() + 1int),
        ),
    decreases b.len(),
{
    let s = a + seq![c] + b;
    let wb = w.skip(a.len() + 1int);
    let x = split_pieces(a, w);
    if b.len() == 0 {
        assert(s.drop_last() =~= a);
        assert(split_pieces(b, wb) =~= seq![Seq::<char>::empty()]);
        assert(x.push(Seq::empty()) =~= x + seq![Seq::<char>::empty()]);
    } else {
        let b1 = b.drop_last();
        assert(s.drop_last() =~= a + seq![c] + b1);
        lemma_split_concat(a, c, b1, w);
        let y = split_pieces(b1, wb);
        lemma_split_pieces_nonempty(b1, wb);
        assert(w[s.len() - 1] == wb[b.len() - 1]);
        assert(s.last() == b.last());
        if !wb[b.len() - 1] {
            assert((x + y).push(Seq::empty()) =~= x + y.push(Seq::empty()));
        } else {
            assert((x + y).update((x + y).len() - 1, (x + y).last().push(b.last())) =~= x
                + y.update(y.len() - 1, y.last().push(b.last())));
        }
    }
}

proof fn lemma_long_pieces_concat(x: Seq<Seq<char>>, y: Seq<Seq<char>>)
    ensures
        long_pieces(x + y) == long_pieces(x) + long_pieces(y),
    decreases y.len(),
{
    if y.len() == 0 {
        assert(x + y =~= x);
        assert(long_pieces(x) + long_pieces(y) =~= long_pieces(x));
    } else {
        assert((x + y).drop_last() =~= x + y.drop_last());
        lemma_long_pieces_concat(x, y.drop_last());
        assert(long_pieces(x + y) =~= long_pieces(x) + long_pieces(y));
    }
}

/// A word of at least two ASCII letters and digits is a keyword, whatever
/// its length: its keywords are exactly the word itself in lower case.
pub proof fn lemma_word_is_keyword(w: Seq<char>)
    requires
        w.len() >= 2,
        forall|i: int| 0 <= i < w.len() ==> is_ascii_alphanumeric(#[trigger] w[i]),
    ensures
        ascii_keywords_of(w) == seq![to_ascii_lower(w)],
{
    let m = ascii_marks(w);
    lemma_split_all_word(w, m);
    assert(!is_unicode_whitespace(w[0]));
    assert(!is_unicode_whitespace(w.last()));
    assert(trim_start(w) == w);
    assert(trim_end(w) == w);
    assert(trim(w) == w);
    assert(long_piece(w) =~= seq![w]);
    assert(seq![w].drop_last() =~= Seq::<Seq<char>>::empty());
    assert(seq![w].last() == w);
    assert(long_pieces(Seq::<Seq<char>>::empty()) =~= Seq::<Seq<char>>::empty());
    assert(long_pieces(seq![w]) =~= seq![w]);
    assert(ascii_keywords_of(w) =~= seq![to_ascii_lower(w)]);
}

/// A character that is not an ASCII letter or digit separates keywords: the
/// keywords of `a`, such a character and `b` are the keywords of `a`
/// followed by those of `b`.
pub proof fn lemma_keywords_split_at_separator(a: Seq<char>, c: char, b: Seq<char>)
    requires
        !is_ascii_alphanumeric(c),
    ensures
        ascii_keywords_of(a + seq![c] + b) == ascii_keywords_of(a) + ascii_keywords_of(b),
{
    let s = a + seq![c] + b;
    let m = ascii_marks(s);
    assert(m[a.len() as int] == is_ascii_alphanumeric(c));
    lemma_split_concat(a, c, b, m);
    assert forall|i: int| 0 <= i < a.len() implies #[trigger] m[i] == ascii_marks(a)[i] by {
        assert(s[i] == a[i]);
    }
    lemma_split_marks_agree(a, m, ascii_marks(a));
    assert(m.skip(a.len() + 1int) =~= ascii_marks(b));
    let x = split_pieces(a, ascii_marks(a));
    let y = split_pieces(b, ascii_marks(b));
    lemma_long_pieces_concat(x, y);
    assert(ascii_keywords_of(s) =~= ascii_keywords_of(a) + ascii_keywords_of(b));
}

/// A run of at least two alphanumeric characters, none of them whitespace,
/// is one keyword whatever its length or script: its keywords are exactly
/// the run itself, lower-cased.
pub proof fn lemma_alphanumeric_run_is_keyword(w: Seq<char>)
    requires
        w.len() >= 2,
        forall|i: int|
            0 <= i < w.len() ==> spec_is_alphanumeric(#[trigger] w[i]) && !is_unicode_whitespace(
                w[i],
            ),
    ensures
        keywords_of(w) == seq![spec_to_lowercase(w)],
{
    let m = alphanumeric_marks(w);
    lemma_split_all_word(w, m);
    assert(!is_unicode_whitespace(w[0]));
    assert(!is_unicode_whitespace(w.last()));
    assert(trim_start(w) == w);
    assert(trim_end(w) == w);
    assert(trim(w) == w);
    assert(long_piece(w) =~= seq![w]);
    assert(seq![w].drop_last() =~= Seq::<Seq<char>>::empty());
    assert(seq![w].last() == w);
    assert(long_pieces(Seq::<Seq<char>>::empty()) =~= Seq::<Seq<char>>::empty());
    assert(long_pieces(seq![w]) =~= seq![w]);
    assert(keywords_of(w) =~= seq![spec_to_lowercase(w)]);
}

/// A character that is not alphanumeric separates keywords: the keywords
/// of `a`, such a character and `b` are the keywords of `a` followed by
/// those of `b`.
pub proof fn lemma_keywords_of_split_at_separator(a: Seq<char>, c: char, b: Seq<char>)
    requires
        !spec_is_alphanumeric(c),
    ensures
        keywords_of(a + seq![c] + b) == keywords_of(a) + keywords_of(b),
{
    let s = a + seq![c] + b;
    let m = alphanumeric_marks(s);
    assert(m[a.len() as int] == spec_is_alphanumeric(c));
    lemma_split_concat(a, c, b, m);
    assert forall|i: int| 0 <= i < a.len() implies #[trigger] m[i] == alphanumeric_marks(a)[i] by {
        assert(s[i] == a[i]);
    }
    lemma_split_marks_agree(a, m, alphanumeric_marks(a));
    assert(m.skip(a.len() + 1int) =~= alphanumeric_marks(b));
    let x = split_pieces(a, alphanumeric_marks(a));
    let y = split_pieces(b, alphanumeric_marks(b));
    lemma_long_pieces_concat(x, y);
    assert(keywords_of(s) =~= keywords_of(a) + keywords_of(b));
}

/// ASCII case does not change the keywords of a text: putting its ASCII
/// letters in upper case leaves the written-out keywords as they were, and
/// keeps an ASCII text ASCII (so [`keywords`] gives the same keywords for
/// both).
pub proof fn lemma_keywords_ignore_ascii_case(s: Seq<char>)
    ensures
        ascii_keywords_of(to_ascii_upper(s)) == ascii_keywords_of(s),
        is_ascii_text(s) ==> is_ascii_text(to_ascii_upper(s)),
{
    let u = to_ascii_upper(s);
    assert forall|i: int| 0 <= i < s.len() implies #[trigger] ascii_marks(u)[i] == ascii_marks(
        s,
    )[i] by {
        lemma_upper_char(s[i]);
    }
    assert(ascii_marks(u) =~= ascii_marks(s));
    let m = ascii_marks(s);
    lemma_upper_split(s, m);
    lemma_upper_long_pieces(split_pieces(s, m));
    let k = long_pieces(split_pieces(s, m));
    assert forall|i: int| 0 <= i < k.len() implies #[trigger] to_ascii_lower(
        to_ascii_upper(k[i]),
    ) == to_ascii_lower(k[i]) by {
        assert forall|j: int| 0 <= j < k[i].len() implies #[trigger] to_ascii_lower(
            to_ascii_upper(k[i]),
        )[j] == to_ascii_lower(k[i])[j] by {
            lemma_upper_char(k[i][j]);
        }
        assert(to_ascii_lower(to_ascii_upper(k[i])) =~= to_ascii_lower(k[i]));
    }
    assert(ascii_keywords_of(u) =~= ascii_keywords_of(s));
    if is_ascii_text(s) {
        assert forall|i: int| 0 <= i < u.len() implies (#[trigger] u[i] as u32) < 128 by {
            lemma_upper_char(s[i]);
        }
    }
}

// ---------------------------------------------------------------------------
// Executable functions
// ---------------------------------------------------------------------------

/// Appends what the piece `cs[from..to]` gives, if anything.
fn push_long_piece(r: &mut Vec<String>, cs: &Vec<char>, from: usize, to: usize)
    requires
        from <= to <= cs.len(),
    ensures
        string_views(final(r)@) == string_views(old(r)@) + long_piece(
            cs@.subrange(from as int, to as int),
        ),
        all_within(string_views(old(r)@), cs@) ==> all_within(string_views(final(r)@), cs@),
{
    let (a, b) = trim_range(cs, from, to);
    if b - a >= 2 {
        let piece = string_from_range(cs, a, b);
        assert forall|j: int| 0 <= j < piece@.len() implies cs@.contains(#[trigger] piece@[j]) by {
            assert(piece@[j] == cs@[a + j]);
        }
        let ghost before = r@;
        r.push(piece);
        assert(string_views(r@) =~= string_views(before) + long_piece(
            cs@.subrange(from as int, to as int),
        ));
    } else {
        assert(string_views(r@) =~= string_views(old(r)@) + long_piece(
            cs@.subrange(from as int, to as int),
        ));
    }
}

/// The pieces of `text` between the characters that `word` marks `false`,
/// trimmed, and kept when at least two characters long.
pub fn keyword_pieces(text: &Vec<char>, word: &Vec<bool>) -> (r: Vec<String>)
    requires
        word.len() == text.len(),
    ensures
        string_views(r@) == keyword_pieces_of(text@, word@),
        all_within(string_views(r@), text@),
{
    let cs = text;
    let mut r: Vec<String> = Vec::new();
    let mut start: usize = 0;
    let mut i: usize = 0;
    proof {
        assert(cs@.take(0) =~= Seq::<char>::empty());
        assert(split_pieces(cs@.take(0), word@) =~= seq![Seq::<char>::empty()]);
        assert(cs@.subrange(0, 0) =~= Seq::<char>::empty());
        assert(split_pieces(cs@.take(0), word@).drop_last() =~= Seq::<Seq<char>>::empty());
    }
    while i < cs.len()
        invariant
            start <= i <= cs.len(),
            word.len() == cs.len(),
            split_pieces(cs@.take(i as int), word@).len() >= 1,
            split_pieces(cs@.take(i as int), word@).last() == cs@.subrange(start as int, i as int),
            string_views(r@) == long_pieces(split_pieces(cs@.take(i as int), word@).drop_last()),
            all_within(string_views(r@), cs@),
        decreases cs.len() - i,
    {
        let c = cs[i];
        let ghost prev = split_pieces(cs@.take(i as int), word@);
        proof {
            assert(cs@.take(i + 1).drop_last() =~= cs@.take(i as int));
            assert(cs@.take(i + 1).last() == c);
        }
        if !word[i] {
            push_long_piece(&mut r, cs, start, i);
            proof {
                let next = split_pieces(cs@.take(i + 1), word@);
                assert(next == prev.push(Seq::empty()));
                assert(next.drop_last() =~= prev);
                assert(prev.drop_last().push(prev.last()) =~= prev);
                assert(long_pieces(prev) == long_pieces(prev.drop_last()) + long_piece(
                    prev.last(),
                ));
                assert(cs@.subrange(i + 1, i + 1) =~= Seq::<char>::empty());
            }
            start = i + 1;
        } else {
            proof {
                let next = split_pieces(cs@.take(i + 1), word@);
                assert(next == prev.update(prev.len() - 1, prev.last().push(c)));
                assert(next.drop_last() =~= prev.drop_last());
                assert(cs@.subrange(start as int, i + 1) =~= cs@.subrange(start as int, i as int).push(
                    c,
                ));
            }
        }
        i = i + 1;
    }
    push_long_piece(&mut r, cs, start, cs.len());
    proof {
        let all = split_pieces(cs@.take(cs.len() as int), word@);
        assert(cs@.take(cs.len() as int) =~= cs@);
        assert(long_pieces(all) == long_pieces(all.drop_last()) + long_piece(all.last()));
    }
    r
}

/// The keywords of `text`: the pieces between non-alphanumeric characters,
/// trimmed, kept when at least two characters long, and lower-cased.
pub fn keywords(text: &str) -> (r: Vec<String>)
    ensures
        string_views(r@) == keywords_of(text@),
        is_ascii_text(text@) ==> string_views(r@) == ascii_keywords_of(text@),
{
    let cs = chars_of(text);
    let mut word: Vec<bool> = Vec::new();
    let mut i: usize = 0;
    while i < cs.len()
        invariant
            i <= cs.len(),
            word@ == alphanumeric_marks(cs@.take(i as int)),
            cs@ == text@,
            is_ascii_text(text@) ==> word@ == ascii_marks(cs@.take(i as int)),
        decreases cs.len() - i,
    {
        let mark = is_alphanumeric(cs[i]);
        word.push(mark);
        assert(alphanumeric_marks(cs@.take(i + 1)) =~= alphanumeric_marks(cs@.take(i as int)).push(
            spec_is_alphanumeric(cs@[i as int]),
        ));
        assert(ascii_marks(cs@.take(i + 1)) =~= ascii_marks(cs@.take(i as int)).push(
            is_ascii_alphanumeric(cs@[i as int]),
        ));
        i = i + 1;
    }
    assert(cs@.take(cs.len() as int) =~= cs@);
    let pieces = keyword_pieces(&cs, &word);
    let ghost piece_views = string_views(pieces@);
    let mut r: Vec<String> = Vec::new();
    let mut k: usize = 0;
    while k < pieces.len()
        invariant
            k <= pieces.len(),
            piece_views == string_views(pieces@),
            string_views(r@) == piece_views.take(k as int).map_values(
                |p: Seq<char>| spec_to_lowercase(p),
            ),
            cs@ == text@,
            all_within(piece_views, cs@),
            is_ascii_text(text@) ==> string_views(r@) == piece_views.take(k as int).map_values(
                |p: Seq<char>| to_ascii_lower(p),
            ),
        decreases pieces.len() - k,
    {
        proof {
            if is_ascii_text(text@) {
                assert(chars_within(piece_views[k as int], cs@));
                assert forall|j: int| 0 <= j < pieces@[k as int]@.len() implies (
                #[trigger] pieces@[k as int]@[j] as u32) < 128 by {
                    assert(piece_views[k as int] == pieces@[k as int]@);
                    assert(cs@.contains(piece_views[k as int][j]));
                }
            }
        }
        let lower = to_lowercase(pieces[k].as_str());
        assert(is_ascii_text(text@) ==> piece_views.take(k + 1).map_values(
            |p: Seq<char>| to_ascii_lower(p),
        ) =~= piece_views.take(k as int).map_values(|p: Seq<char>| to_ascii_lower(p)).push(
            lower@,
        ));
        let ghost before = r@;
        r.push(lower);
        assert(string_views(r@) =~= string_views(before).push(lower@));
        assert(piece_views.take(k + 1).map_values(|p: Seq<char>| spec_to_lowercase(p))
            =~= piece_views.take(k as int).map_values(|p: Seq<char>| spec_to_lowercase(p)).push(
            spec_to_lowercase(piece_views[k as int]),
        ));
        k = k + 1;
    }
    assert(piece_views.take(pieces.len() as int) =~= piece_views);
    r
}

/// Whether some of `memory_terms` contains `term`.
fn some_term_contains(memory_terms: &Vec<Vec<char>>, term: &Vec<char>) -> (r: bool)
    ensures
        r == some_contains(memory_terms@.map_values(|t: Vec<char>| t@), term@),
{
    let ghost views = memory_terms@.map_values(|t: Vec<char>| t@);
    let mut j: usize = 0;
    while j < memory_terms.len()
        invariant
            j <= memory_terms.len(),
            views == memory_terms@.map_values(|t: Vec<char>| t@),
            forall|k: int| 0 <= k < j ==> !contains_seq(#[trigger] views[k], term@),
        decreases memory_terms.len() - j,
    {
        if contains_chars(&memory_terms[j], term) {
            assert(contains_seq(views[j as int], term@));
            return true;
        }
        j = j + 1;
    }
    false
}

/// The characters of each string, in order.
pub fn chars_of_all(list: &Vec<String>) -> (r: Vec<Vec<char>>)
    ensures
        r@.map_values(|t: Vec<char>| t@) == string_views(list@),
{
    let mut r: Vec<Vec<char>> = Vec::new();
    let mut i: usize = 0;
    while i < list.len()
        invariant
            i <= list.len(),
            r@.map_values(|t: Vec<char>| t@) == string_views(list@.take(i as int)),
        decreases list.len() - i,
    {
        let cs = chars_of(list[i].as_str());
        let ghost before = r@;
        r.push(cs);
        assert(r@.map_values(|t: Vec<char>| t@) =~= before.map_values(|t: Vec<char>| t@).push(
            cs@,
        ));
        assert(string_views(list@.take(i + 1)) =~= string_views(list@.take(i as int)).push(
            list@[i as int]@,
        ));
        i = i + 1;
    }
    assert(list@.take(list.len() as int) =~= list@);
    r
}

/// The score of the memory `memory` against the query keywords: how many
/// of them occur inside some keyword of the memory.
pub fn memory_score(query_terms: &Vec<Vec<char>>, memory: &str) -> (r: usize)
    ensures
        r == match_count(query_terms@.map_values(|t: Vec<char>| t@), keywords_of(memory@)),
{
    let ghost qviews = query_terms@.map_values(|t: Vec<char>| t@);
    let memory_words = keywords(memory);
    let memory_terms = chars_of_all(&memory_words);
    let ghost mviews = memory_terms@.map_values(|t: Vec<char>| t@);
    assert(mviews == keywords_of(memory@));
    let mut count: usize = 0;
    let mut i: usize = 0;
    while i < query_terms.len()
        invariant
            i <= query_terms.len(),
            qviews == query_terms@.map_values(|t: Vec<char>| t@),
            mviews == memory_terms@.map_values(|t: Vec<char>| t@),
            count == match_count(qviews.take(i as int), mviews),
        decreases query_terms.len() - i,
    {
        proof {
            assert(qviews.take(i + 1).drop_last() =~= qviews.take(i as int));
            lemma_match_count_bound(qviews.take(i as int), mviews);
        }
        if some_term_contains(&memory_terms, &query_terms[i]) {
            count = count + 1;
        }
        i = i + 1;
    }
    assert(qviews.take(query_terms.len() as int) =~= qviews);
    count
}

/// The positions of the memories with a positive score, best first, ties
/// in their stored order.
pub fn rank_by_score(scores: &Vec<usize>) -> (r: Vec<usize>)
    ensures
        is_ranking(r@.map_values(|x: usize| x as int), scores@.map_values(|x: usize| x as nat)),
{
    let ghost s = scores@.map_values(|x: usize| x as nat);
    let mut order: Vec<usize> = Vec::new();
    let mut i: usize = 0;
    while i < scores.len()
        invariant
            i <= scores.len(),
            s == scores@.map_values(|x: usize| x as nat),
            ranks_first(order@.map_values(|x: usize| x as int), s, i as int),
        decreases scores.len() - i,
    {
        if scores[i] > 0 {
            let ghost o = order@.map_values(|x: usize| x as int);
            assert forall|q: int| 0 <= q < order.len() implies #[trigger] order@[q] < i by {
                assert(o[q] == order@[q] as int);
            }
            let mut p: usize = 0;
            while p < order.len() && scores[order[p]] >= scores[i]
                invariant
                    p <= order.len(),
                    i < scores.len(),
                    s == scores@.map_values(|x: usize| x as nat),
                    o == order@.map_values(|x: usize| x as int),
                    ranks_first(o, s, i as int),
                    forall|q: int| 0 <= q < order.len() ==> #[trigger] order@[q] < i,
                    forall|q: int| 0 <= q < p ==> s[#[trigger] o[q]] >= s[i as int],
                decreases order.len() - p,
            {
                assert(o[p as int] == order@[p as int] as int);
                p = p + 1;
            }
            proof {
                if p < order.len() {
                    assert(o[p as int] == order@[p as int] as int);
                }
                lemma_insert_ranked(o, s, i as int, p as int);
            }
            order.insert(p, i);
            assert(order@.map_values(|x: usize| x as int) =~= o.insert(p as int, i as int));
        } else {
            proof {
                let o = order@.map_values(|x: usize| x as int);
                assert forall|q: int| 0 <= q < o.len() implies 0 <= #[trigger] o[q] < i + 1 by {}
            }
        }
        i = i + 1;
    }
    order
}

} // verus!
