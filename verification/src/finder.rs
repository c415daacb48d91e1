//! The exhaustive finder and end-of-round scoring: every stored word
//! is scored and validated against the board, and the survivors are
//! listed without duplicates, best score first, ties in alphabetical
//! order.

use vstd::prelude::*;
use crate::board::Board;
use crate::chars::{lex_le, lex_le_exec, str_to_chars};
use crate::dict::Dictionary;
use crate::score::{score_of, score_word};
use crate::search::{is_valid_word, word_is_valid};

verus! {

/// The word and score a found entry carries.
pub open spec fn pair_view(p: (String, u32)) -> (Seq<char>, u32) {
    (p.0@, p.1)
}

/// The words and scores a list of entries carries.
pub open spec fn pairs_view(s: Seq<(String, u32)>) -> Seq<(Seq<char>, u32)> {
    s.map_values(|p: (String, u32)| pair_view(p))
}

/// Entry `a` may stand before entry `b`: a strictly higher score, or
/// an equal score and a word no later in lexicographic order.
pub open spec fn pair_before(a: (Seq<char>, u32), b: (Seq<char>, u32)) -> bool {
    a.1 > b.1 || (a.1 == b.1 && lex_le(a.0, b.0))
}

/// Lexicographic order is total.
proof fn lemma_lex_total(a: Seq<char>, b: Seq<char>)
    ensures
        lex_le(a, b) || lex_le(b, a),
    decreases a.len(),
{
    if a.len() > 0 && b.len() > 0 && (a[0] as u32) == (b[0] as u32) {
        lemma_lex_total(a.skip(1), b.skip(1));
    }
}

/// Lexicographic order is transitive.
proof fn lemma_lex_trans(a: Seq<char>, b: Seq<char>, c: Seq<char>)
    requires
        lex_le(a, b),
        lex_le(b, c),
    ensures
        lex_le(a, c),
    decreases a.len(),
{
    if a.len() > 0 && b.len() > 0 && c.len() > 0 && (a[0] as u32) == (b[0] as u32) && (b[0]
        as u32) == (c[0] as u32) {
        lemma_lex_trans(a.skip(1), b.skip(1), c.skip(1));
    }
}

/// The entry order is total.
proof fn lemma_pair_total(a: (Seq<char>, u32), b: (Seq<char>, u32))
    ensures
        pair_before(a, b) || pair_before(b, a),
{
    lemma_lex_total(a.0, b.0);
}

/// The entry order is transitive.
proof fn lemma_pair_trans(a: (Seq<char>, u32), b: (Seq<char>, u32), c: (Seq<char>, u32))
    requires
        pair_before(a, b),
        pair_before(b, c),
    ensures
        pair_before(a, c),
{
    if a.1 == b.1 && b.1 == c.1 {
        lemma_lex_trans(a.0, b.0, c.0);
    }
}

/// Decide whether entry `a` may stand before entry `b`.
fn pair_before_exec(a: &(String, u32), b: &(String, u32)) -> (r: bool)
    ensures
        r == pair_before(pair_view(*a), pair_view(*b)),
{
    if a.1 > b.1 {
        true
    } else if a.1 == b.1 {
        let ca = str_to_chars(a.0.as_str());
        let cb = str_to_chars(b.0.as_str());
        lex_le_exec(&ca, &cb)
    } else {
        false
    }
}

/// Sort found entries: highest score first, ties in ascending word
/// order; the entries themselves are exactly those given.
#[verifier::loop_isolation(false)]
fn sort_found(v: Vec<(String, u32)>) -> (r: Vec<(String, u32)>)
    ensures
        pairs_view(r@).to_multiset() == pairs_view(v@).to_multiset(),
        forall|i: int, j: int|
            0 <= i < j < r@.len() ==> pair_before(pair_view(r@[i]), pair_view(r@[j])),
{
    broadcast use vstd::seq_lib::group_to_multiset_ensures;

    let mut src = v;
    let mut r: Vec<(String, u32)> = Vec::new();
    proof {
        assert(pairs_view(src@).to_multiset().add(pairs_view(r@).to_multiset()) =~= pairs_view(v@).to_multiset());
    }
    while src.len() > 0
        invariant
            pairs_view(src@).to_multiset().add(pairs_view(r@).to_multiset()) == pairs_view(v@).to_multiset(),
            forall|i: int, j: int|
                0 <= i < j < r@.len() ==> pair_before(pair_view(r@[i]), pair_view(r@[j])),
        decreases src@.len(),
    {
        let ghost src0 = src@;
        let p = src.pop().unwrap();
        proof {
            assert(src0 =~= src@.push(p));
            assert(pairs_view(src0) =~= pairs_view(src@).push(pair_view(p)));
        }
        let mut at: usize = 0;
        while at < r.len() && pair_before_exec(&r[at], &p)
            invariant
                at <= r@.len(),
                forall|k: int| 0 <= k < at ==> pair_before(pair_view(r@[k]), pair_view(p)),
            decreases r@.len() - at,
        {
            at = at + 1;
        }
        proof {
            if at < r@.len() {
                lemma_pair_total(pair_view(r@[at as int]), pair_view(p));
            }
            assert forall|k: int| at <= k < r@.len() implies pair_before(
                pair_view(p),
                pair_view(r@[k]),
            ) by {
                if k > at {
                    lemma_pair_trans(pair_view(p), pair_view(r@[at as int]), pair_view(r@[k]));
                }
            }
        }
        let ghost r0 = r@;
        r.insert(at, p);
        proof {
            assert(pairs_view(r@) =~= pairs_view(r0).insert(at as int, pair_view(p)));
            vstd::seq_lib::to_multiset_insert(pairs_view(r0), at as int, pair_view(p));
            assert(pairs_view(src@).to_multiset().add(pairs_view(r@).to_multiset()) =~= pairs_view(
                v@,
            ).to_multiset());
        }
    }
    proof {
        assert(pairs_view(src@) =~= Seq::<(Seq<char>, u32)>::empty());
        assert(pairs_view(r@).to_multiset() =~= pairs_view(v@).to_multiset());
    }
    r
}

/// The word `w` is stored in some bucket of the dictionary.
pub open spec fn dict_has_word(dict: Dictionary, w: Seq<char>) -> bool {
    exists|i: int|
        0 <= i < dict.buckets@.len() && #[trigger] dict.buckets@[i].deep_view().contains(w)
}

/// An entry listing word `w` with score `s` has a right to appear: the
/// word is stored in the dictionary, `s` is its (positive) score, and
/// the word can be traced on the board.
pub open spec fn entry_ok(w: Seq<char>, s: u32, dict: Dictionary, board: Board) -> bool {
    &&& dict_has_word(dict, w)
    &&& s == score_of(w)
    &&& s > 0
    &&& word_is_valid(w, dict, board)
}

/// The entries collected from the buckets before `bi_lim`, and from
/// the first `wj_lim` words of bucket `bi_lim`, already list every
/// positive-scoring valid word of that region.
pub open spec fn region_covered(
    found: Seq<(String, u32)>,
    dict: Dictionary,
    board: Board,
    bi_lim: int,
    wj_lim: int,
) -> bool {
    forall|bi: int, wj: int|
        #![auto]
        0 <= bi < dict.buckets@.len() && 0 <= wj < dict.buckets@[bi]@.len() && (bi < bi_lim || (bi
            == bi_lim && wj < wj_lim)) && score_of(dict.buckets@[bi]@[wj]@) > 0 && word_is_valid(
            dict.buckets@[bi]@[wj]@,
            dict,
            board,
        ) ==> exists|t: int| 0 <= t < found.len() && #[trigger] found[t].0@ == dict.buckets@[bi]@[wj]@
}

/// Whether an entry with this word and score was already collected.
fn contains_entry(found: &Vec<(String, u32)>, w: &String, s: u32) -> (r: bool)
    ensures
        r == exists|t: int|
            0 <= t < found@.len() && #[trigger] found@[t].0@ == w@ && found@[t].1 == s,
{
    let mut t: usize = 0;
    while t < found.len()
        invariant
            t <= found@.len(),
            forall|k: int| 0 <= k < t ==> !(#[trigger] found@[k].0@ == w@ && found@[k].1 == s),
        decreases found@.len() - t,
    {
        if found[t].0 == *w && found[t].1 == s {
            return true;
        }
        t = t + 1;
    }
    false
}

/// Search the board for all possible words: every stored word that
/// scores and can be traced appears exactly once, listed by descending
/// score and, within a score, in ascending word order.
#[verifier::loop_isolation(false)]
pub fn find_all_words(dict: &Dictionary, board: &Board) -> (found: Vec<(String, u32)>)
    requires
        dict.wf(),
        board.wf(),
    ensures
        forall|t: int|
            0 <= t < found@.len() ==> entry_ok(
                #[trigger] found@[t].0@,
                found@[t].1,
                *dict,
                *board,
            ),
        forall|t1: int, t2: int| 0 <= t1 < t2 < found@.len() ==> found@[t1].0@ != found@[t2].0@,
        forall|w: Seq<char>|
            dict_has_word(*dict, w) && score_of(w) > 0 && word_is_valid(w, *dict, *board)
                ==> exists|t: int| 0 <= t < found@.len() && #[trigger] found@[t].0@ == w,
        forall|t1: int, t2: int|
            0 <= t1 < t2 < found@.len() ==> pair_before(
                pair_view(found@[t1]),
                pair_view(found@[t2]),
            ),
{
    broadcast use vstd::seq_lib::group_to_multiset_ensures;

    let mut work: Vec<(String, u32)> = Vec::new();
    let nb = dict.num_buckets();
    let mut i: usize = 0;
    while i < nb
        invariant
            i <= nb,
            forall|t: int|
                0 <= t < work@.len() ==> entry_ok(
                    #[trigger] work@[t].0@,
                    work@[t].1,
                    *dict,
                    *board,
                ),
            forall|t1: int, t2: int| 0 <= t1 < t2 < work@.len() ==> work@[t1].0@ != work@[t2].0@,
            region_covered(work@, *dict, *board, i as int, 0),
        decreases nb - i,
    {
        let bucket = dict.bucket_at(i);
        let mut j: usize = 0;
        while j < bucket.len()
            invariant
                j <= bucket@.len(),
                bucket@ == dict.buckets@[i as int]@,
                forall|t: int|
                    0 <= t < work@.len() ==> entry_ok(
                        #[trigger] work@[t].0@,
                        work@[t].1,
                        *dict,
                        *board,
                    ),
                forall|t1: int, t2: int|
                    0 <= t1 < t2 < work@.len() ==> work@[t1].0@ != work@[t2].0@,
                region_covered(work@, *dict, *board, i as int, j as int),
            decreases bucket@.len() - j,
        {
            let w = &bucket[j];
            let s = score_word(w.as_str());
            if s > 0 && !contains_entry(&work, w, s) && is_valid_word(w.as_str(), dict, board) {
                proof {
                    // no collected entry already lists this word: any such
                    // entry would carry this very score
                    assert forall|t: int| 0 <= t < work@.len() implies #[trigger] work@[t].0@
                        != w@ by {
                        if work@[t].0@ == w@ {
                            assert(work@[t].1 == score_of(w@));
                        }
                    }
                }
                let entry = (w.clone(), s);
                found_push(&mut work, entry, Ghost(*dict), Ghost(*board), i, j);
            }
            j = j + 1;
        }
        i = i + 1;
    }
    let sorted = sort_found(work);
    proof {
        let fv = pairs_view(work@);
        let sv = pairs_view(sorted@);
        assert(fv.to_multiset() == sv.to_multiset());
        assert forall|t: int| 0 <= t < sorted@.len() implies entry_ok(
            #[trigger] sorted@[t].0@,
            sorted@[t].1,
            *dict,
            *board,
        ) by {
            let p = sv[t];
            assert(sv.contains(p));
            assert(sv.to_multiset().count(p) > 0);
            assert(fv.to_multiset().count(p) > 0);
            assert(fv.contains(p));
            let t2 = choose|t2: int| 0 <= t2 < fv.len() && fv[t2] == p;
            assert(work@[t2].0@ == p.0 && work@[t2].1 == p.1);
        }
        assert forall|w: Seq<char>|
            dict_has_word(*dict, w) && score_of(w) > 0 && word_is_valid(w, *dict, *board)
            implies exists|t: int| 0 <= t < sorted@.len() && #[trigger] sorted@[t].0@ == w by {
            let bi = choose|bi: int|
                0 <= bi < dict.buckets@.len() && #[trigger] dict.buckets@[bi].deep_view().contains(
                    w,
                );
            let wj = choose|wj: int|
                0 <= wj < dict.buckets@[bi].deep_view().len() && dict.buckets@[
                    bi].deep_view()[wj] == w;
            assert(dict.buckets@[bi]@[wj]@ == w);
            let t2 = choose|t2: int| 0 <= t2 < work@.len() && #[trigger] work@[t2].0@ == w;
            assert(fv[t2] == (w, work@[t2].1));
            assert(fv.contains(fv[t2]));
            assert(fv.to_multiset().count(fv[t2]) > 0);
            assert(sv.to_multiset().count(fv[t2]) > 0);
            assert(sv.contains(fv[t2]));
            let t = choose|t: int| 0 <= t < sv.len() && sv[t] == fv[t2];
            assert(sorted@[t].0@ == w);
        }
        assert(fv.no_duplicates()) by {
            assert forall|t1: int, t2: int| 0 <= t1 < t2 < fv.len() implies fv[t1] != fv[t2] by {
                assert(work@[t1].0@ != work@[t2].0@);
            }
        }
        fv.lemma_multiset_has_no_duplicates();
        sv.lemma_multiset_has_no_duplicates_conv();
        assert forall|t1: int, t2: int| 0 <= t1 < t2 < sorted@.len() implies sorted@[t1].0@
            != sorted@[t2].0@ by {
            if sorted@[t1].0@ == sorted@[t2].0@ {
                assert(sorted@[t1].1 == score_of(sorted@[t1].0@));
                assert(sorted@[t2].1 == score_of(sorted@[t2].0@));
                assert(sv[t1] == sv[t2]);
                assert(false);
            }
        }
    }
    sorted
}

/// Append a sound new entry taken from bucket `i` at index `j`,
/// keeping every collection invariant.
#[verifier::loop_isolation(false)]
fn found_push(
    work: &mut Vec<(String, u32)>,
    entry: (String, u32),
    Ghost(dict): Ghost<Dictionary>,
    Ghost(board): Ghost<Board>,
    i: usize,
    j: usize,
)
    requires
        i < dict.buckets@.len(),
        j < dict.buckets@[i as int]@.len(),
        entry.0@ == dict.buckets@[i as int]@[j as int]@,
        entry.1 == score_of(entry.0@),
        entry.1 > 0,
        word_is_valid(entry.0@, dict, board),
        forall|t: int|
            0 <= t < old(work)@.len() ==> entry_ok(
                #[trigger] old(work)@[t].0@,
                old(work)@[t].1,
                dict,
                board,
            ),
        forall|t1: int, t2: int|
            0 <= t1 < t2 < old(work)@.len() ==> old(work)@[t1].0@ != old(work)@[t2].0@,
        forall|t: int| 0 <= t < old(work)@.len() ==> #[trigger] old(work)@[t].0@ != entry.0@,
        region_covered(old(work)@, dict, board, i as int, j as int),
    ensures
        final(work)@ == old(work)@.push(entry),
        forall|t: int|
            0 <= t < final(work)@.len() ==> entry_ok(
                #[trigger] final(work)@[t].0@,
                final(work)@[t].1,
                dict,
                board,
            ),
        forall|t1: int, t2: int|
            0 <= t1 < t2 < final(work)@.len() ==> final(work)@[t1].0@ != final(work)@[t2].0@,
        region_covered(final(work)@, dict, board, i as int, j + 1),
{
    proof {
        assert(dict.buckets@[i as int].deep_view()[j as int] == entry.0@);
        assert(dict.buckets@[i as int].deep_view().contains(entry.0@));
        assert(dict_has_word(dict, entry.0@));
    }
    work.push(entry);
    proof {
        let post = work@;
        let n = post.len() - 1;
        assert(post[n].0@ == entry.0@);
        assert forall|bi: int, wj: int|
            #![auto]
            0 <= bi < dict.buckets@.len() && 0 <= wj < dict.buckets@[bi]@.len() && (bi < i as int
                || (bi == i as int && wj < j + 1)) && score_of(dict.buckets@[bi]@[wj]@) > 0
                && word_is_valid(dict.buckets@[bi]@[wj]@, dict, board) implies exists|t: int|
            0 <= t < post.len() && #[trigger] post[t].0@ == dict.buckets@[bi]@[wj]@ by {
            if bi == i as int && wj == j as int {
                assert(post[n].0@ == dict.buckets@[bi]@[wj]@);
            } else {
                assert(region_covered(old(work)@, dict, board, i as int, j as int));
                let t = choose|t: int|
                    0 <= t < old(work)@.len() && #[trigger] old(work)@[t].0@ == dict.buckets@[
                        bi]@[wj]@;
                assert(post[t].0@ == dict.buckets@[bi]@[wj]@);
            }
        }
    }
}

/// A submitted word counts when it scores at all and is valid against
/// the dictionary and the board.
pub open spec fn qualifies(w: Seq<char>, dict: Dictionary, board: Board) -> bool {
    score_of(w) > 0 && word_is_valid(w, dict, board)
}

/// The entries the final score table lists, in submission order: each
/// qualifying word beside its score.
pub open spec fn qualifying_entries(
    words: Seq<Seq<char>>,
    dict: Dictionary,
    board: Board,
) -> Seq<(Seq<char>, u32)> {
    words.filter(|w: Seq<char>| qualifies(w, dict, board)).map_values(
        |w: Seq<char>| (w, score_of(w)),
    )
}

/// Score the words a player submitted: each word that scores and is
/// valid appears beside its score, highest score first, ties in
/// ascending word order.
#[verifier::loop_isolation(false)]
pub fn score_submitted_words(words: &Vec<String>, dict: &Dictionary, board: &Board) -> (scored:
    Vec<(String, u32)>)
    requires
        dict.wf(),
        board.wf(),
    ensures
        pairs_view(scored@).to_multiset() == qualifying_entries(
            words.deep_view(),
            *dict,
            *board,
        ).to_multiset(),
        forall|t1: int, t2: int|
            0 <= t1 < t2 < scored@.len() ==> pair_before(
                pair_view(scored@[t1]),
                pair_view(scored@[t2]),
            ),
{
    let ghost pred = |w: Seq<char>| qualifies(w, *dict, *board);
    let ghost score_map = |w: Seq<char>| (w, score_of(w));
    let mut work: Vec<(String, u32)> = Vec::new();
    let mut i: usize = 0;
    proof {
        assert(words.deep_view().take(0) =~= Seq::<Seq<char>>::empty());
        reveal(Seq::filter);
        assert(pairs_view(work@) =~= words.deep_view().take(0).filter(pred).map_values(score_map));
    }
    while i < words.len()
        invariant
            i <= words@.len(),
            pairs_view(work@) == words.deep_view().take(i as int).filter(pred).map_values(
                score_map,
            ),
        decreases words@.len() - i,
    {
        let ghost pre = words.deep_view().take(i as int);
        let ghost post = words.deep_view().take(i + 1);
        proof {
            reveal(Seq::filter);
            assert(post.drop_last() =~= pre);
            assert(post.last() == words.deep_view()[i as int]);
        }
        let w = &words[i];
        let s = score_word(w.as_str());
        let ghost work0 = work@;
        if s > 0 && is_valid_word(w.as_str(), dict, board) {
            let entry = (w.clone(), s);
            work.push(entry);
            proof {
                assert(pred(post.last()));
                assert(post.filter(pred) =~= pre.filter(pred).push(post.last()));
                assert(pairs_view(work@) =~= pairs_view(work0).push((w@, s)));
                assert(post.filter(pred).map_values(score_map) =~= pre.filter(pred).map_values(
                    score_map,
                ).push(score_map(post.last())));
                assert(pairs_view(work@) =~= post.filter(pred).map_values(score_map));
            }
        } else {
            proof {
                assert(!pred(post.last()));
                assert(post.filter(pred) =~= pre.filter(pred));
            }
        }
        i = i + 1;
    }
    proof {
        assert(words.deep_view().take(words@.len() as int) =~= words.deep_view());
    }
    sort_found(work)
}

/// The sum of the scores in a list of entries.
pub open spec fn total_of(s: Seq<(Seq<char>, u32)>) -> int
    decreases s.len(),
{
    if s.len() == 0 {
        0
    } else {
        total_of(s.drop_last()) + s.last().1
    }
}

/// Add up the scores of a table of scored words.
#[verifier::loop_isolation(false)]
pub fn total_score(scored: &Vec<(String, u32)>) -> (total: u32)
    requires
        total_of(pairs_view(scored@)) <= u32::MAX,
        forall|t: int| 0 <= t < scored@.len() ==> (#[trigger] scored@[t]).1 <= u32::MAX,
    ensures
        total == total_of(pairs_view(scored@)),
{
    proof {
        lemma_total_nonneg(pairs_view(scored@));
        assert(pairs_view(scored@).take(0) =~= Seq::<(Seq<char>, u32)>::empty());
    }
    let mut total: u32 = 0;
    let mut i: usize = 0;
    while i < scored.len()
        invariant
            i <= scored@.len(),
            total == total_of(pairs_view(scored@).take(i as int)),
        decreases scored@.len() - i,
    {
        proof {
            lemma_total_prefix(pairs_view(scored@), i as int);
            lemma_total_nonneg(pairs_view(scored@).take(i + 1));
            assert(pairs_view(scored@).take(i + 1).drop_last() =~= pairs_view(scored@).take(
                i as int,
            ));
            assert(pairs_view(scored@).take(i + 1).last() == pair_view(scored@[i as int]));
        }
        total = total + scored[i].1;
        i = i + 1;
    }
    proof {
        assert(pairs_view(scored@).take(scored@.len() as int) =~= pairs_view(scored@));
    }
    total
}

/// A score total is never negative.
proof fn lemma_total_nonneg(s: Seq<(Seq<char>, u32)>)
    ensures
        total_of(s) >= 0,
    decreases s.len(),
{
    if s.len() > 0 {
        lemma_total_nonneg(s.drop_last());
    }
}

/// The total of a prefix never exceeds the total of the whole list.
proof fn lemma_total_prefix(s: Seq<(Seq<char>, u32)>, i: int)
    requires
        0 <= i < s.len(),
    ensures
        total_of(s.take(i + 1)) <= total_of(s),
    decreases s.len() - i,
{
    if i + 1 == s.len() {
        assert(s.take(i + 1) =~= s);
    } else {
        lemma_total_prefix(s, i + 1);
        assert(s.take(i + 2).drop_last() =~= s.take(i + 1));
    }
}

} // verus!
