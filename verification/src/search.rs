//! The path search: backtracking depth-first search that decides
//! whether a word can be traced over adjacent, non-reused board cells,
//! and the validator that combines it with the dictionary lookup.

use vstd::prelude::*;
use crate::board::Board;
use crate::chars::{chars_to_string, normal_form, normalize, sort_chars, sort_chars_exec,
    str_to_chars};
use crate::dict::Dictionary;

verus! {

/// Cells `pos` and `q` of a board of side `dim` are adjacent: both on
/// the board, distinct, and their column and row each differ by at
/// most one.
pub open spec fn is_neighbor(pos: int, q: int, dim: int) -> bool {
    &&& 0 <= q < dim * dim
    &&& q != pos
    &&& -1 <= (pos % dim) - (q % dim) <= 1
    &&& -1 <= (pos / dim) - (q / dim) <= 1
}

/// Get all of the squares that neighbor the given square, each exactly
/// once, on a board of side `dim`.
#[verifier::loop_isolation(false)]
pub fn get_neighbor_positions(pos: usize, dim: usize) -> (r: Vec<usize>)
    requires
        1 <= dim,
        (pos as int) < (dim as int) * (dim as int),
        (dim as int) * (dim as int) <= usize::MAX as int,
    ensures
        forall|k: int|
            0 <= k < r@.len() ==> is_neighbor(pos as int, #[trigger] (r@[k] as int), dim as int),
        forall|q: usize| is_neighbor(pos as int, q as int, dim as int) ==> r@.contains(q),
        forall|k1: int, k2: int| 0 <= k1 < k2 < r@.len() ==> r@[k1] != r@[k2],
{
    let n = dim * dim;
    let x = pos % dim;
    let y = pos / dim;
    let mut r: Vec<usize> = Vec::new();
    let mut q: usize = 0;
    while q < n
        invariant
            q <= n,
            forall|k: int|
                0 <= k < r@.len() ==> is_neighbor(
                    pos as int,
                    #[trigger] (r@[k] as int),
                    dim as int,
                ),
            forall|k: int| 0 <= k < r@.len() ==> #[trigger] (r@[k] as int) < q,
            forall|k1: int, k2: int| 0 <= k1 < k2 < r@.len() ==> r@[k1] < r@[k2],
            forall|p: usize| p < q && is_neighbor(pos as int, p as int, dim as int)
                ==> r@.contains(p),
        decreases n - q,
    {
        let ghost r_old = r@;
        if q != pos {
            let qx = q % dim;
            let qy = q / dim;
            if x <= qx + 1 && qx <= x + 1 && y <= qy + 1 && qy <= y + 1 {
                r.push(q);
            }
        }
        proof {
            assert forall|p: usize| p < q + 1 && is_neighbor(pos as int, p as int, dim as int)
                implies r@.contains(p) by {
                if p < q {
                    assert(r_old.contains(p));
                    let k = choose|k: int| 0 <= k < r_old.len() && r_old[k] == p;
                    assert(r@[k] == p);
                } else {
                    assert(p == q);
                    assert(r@[r@.len() - 1] == p);
                }
            }
        }
        q = q + 1;
    }
    r
}

/// The backtracking search, stated as a recursive predicate.  With `k`
/// past the end of the word the whole sequence has been matched.
/// Otherwise the cell `pos` must carry the word's `k`-th letter; it is
/// then claimed, and some adjacent unclaimed cell must let the rest of
/// the word continue.
pub open spec fn can_spell(
    letters: Seq<char>,
    dim: int,
    word: Seq<char>,
    k: int,
    vis: Seq<bool>,
    pos: int,
) -> bool
    decreases word.len() - k,
{
    if k >= word.len() {
        true
    } else if letters[pos] != word[k] {
        false
    } else {
        exists|q: int|
            is_neighbor(pos, q, dim) && !vis.update(pos, true)[q] && can_spell(
                letters,
                dim,
                word,
                k + 1,
                vis.update(pos, true),
                q,
            )
    }
}

/// Determine whether a word continues from a given cell: the
/// backtracking step of the search.  On failure every tentative mark
/// has been taken back and the visited mask is exactly as it was.
#[verifier::loop_isolation(false)]
pub fn word_continues_from(
    pos: usize,
    visited: &mut Vec<bool>,
    curr_ch: usize,
    board: &Board,
    word: &Vec<char>,
    dim: usize,
) -> (found: bool)
    requires
        1 <= dim,
        (dim as int) * (dim as int) == board.squares@.len(),
        board.squares@.len() <= usize::MAX as int,
        old(visited)@.len() == board.squares@.len(),
        pos < board.squares@.len(),
        old(visited)@[pos as int] == false,
    ensures
        final(visited)@.len() == old(visited)@.len(),
        found == can_spell(
            board.letters(),
            dim as int,
            word@,
            curr_ch as int,
            old(visited)@,
            pos as int,
        ),
        !found ==> final(visited)@ == old(visited)@,
    decreases word@.len() - curr_ch,
{
    if curr_ch >= word.len() {
        return true;
    }
    if board.at(pos) != word[curr_ch] {
        return false;
    }
    let ghost vis0 = old(visited)@;
    let ghost vis1 = vis0.update(pos as int, true);
    visited.set(pos, true);
    let neighbors = get_neighbor_positions(pos, dim);
    let mut t: usize = 0;
    while t < neighbors.len()
        invariant
            t <= neighbors@.len(),
            visited@ == vis1,
            forall|kk: int|
                0 <= kk < t ==> !(!vis1[#[trigger] (neighbors@[kk] as int)] && can_spell(
                    board.letters(),
                    dim as int,
                    word@,
                    curr_ch + 1,
                    vis1,
                    neighbors@[kk] as int,
                )),
        decreases neighbors@.len() - t,
    {
        let npos = neighbors[t];
        if !visited[npos] {
            let found = word_continues_from(npos, visited, curr_ch + 1, board, word, dim);
            if found {
                return true;
            }
        }
        t = t + 1;
    }
    visited.set(pos, false);
    proof {
        assert(visited@ =~= vis0);
        if can_spell(board.letters(), dim as int, word@, curr_ch as int, vis0, pos as int) {
            let q = choose|q: int|
                is_neighbor(pos as int, q, dim as int) && !vis1[q] && can_spell(
                    board.letters(),
                    dim as int,
                    word@,
                    curr_ch + 1,
                    vis1,
                    q,
                );
            assert(0 <= q < (dim as int) * (dim as int));
            assert((q as usize) as int == q);
            assert(neighbors@.contains(q as usize));
            let kk = choose|kk: int| 0 <= kk < neighbors@.len() && neighbors@[kk] == q as usize;
            assert(!(!vis1[neighbors@[kk] as int] && can_spell(
                board.letters(),
                dim as int,
                word@,
                curr_ch + 1,
                vis1,
                neighbors@[kk] as int,
            )));
            assert(false);
        }
    }
    false
}

/// A visited mask of the given length with no cell claimed.
pub open spec fn blank_mask(len: int) -> Seq<bool> {
    Seq::new(len as nat, |i: int| false)
}

/// The normalized word `w` can be traced on the board, starting from
/// some cell, over adjacent cells never reused within the path.
pub open spec fn board_has_path(board: Board, w: Seq<char>) -> bool {
    exists|pos: int|
        0 <= pos < board.squares@.len() && #[trigger] can_spell(
            board.letters(),
            board.side(),
            w,
            0,
            blank_mask(board.squares@.len() as int),
            pos,
        )
}

/// A submitted word is valid when its normal form is stored in the
/// dictionary under its own signature and can be traced on the board.
pub open spec fn word_is_valid(word: Seq<char>, dict: Dictionary, board: Board) -> bool {
    let w = normal_form(word);
    &&& dict.contains_word(sort_chars(w), w)
    &&& board_has_path(board, w)
}

/// Determine whether a word is valid: it is normalized, looked up in
/// the dictionary by signature and exact membership, and then searched
/// for on the board from every starting cell.
#[verifier::loop_isolation(false)]
pub fn is_valid_word(word: &str, dict: &Dictionary, board: &Board) -> (valid: bool)
    requires
        dict.wf(),
        board.wf(),
    ensures
        valid == word_is_valid(word@, *dict, *board),
{
    let chars = str_to_chars(word);
    let norm = normalize(&chars);
    let w = chars_to_string(&norm);
    let sorted = sort_chars_exec(&norm);
    let sig = chars_to_string(&sorted);
    if !dict.contains_exact(&sig, &w) {
        return false;
    }
    let dim = board.dim();
    let len = board.len();
    let mut visited: Vec<bool> = Vec::new();
    let mut i: usize = 0;
    while i < len
        invariant
            i <= len,
            visited@ == Seq::new(i as nat, |t: int| false),
        decreases len - i,
    {
        visited.push(false);
        i = i + 1;
        proof {
            assert(visited@ =~= Seq::new(i as nat, |t: int| false));
        }
    }
    let ghost blank = blank_mask(board.squares@.len() as int);
    let mut pos: usize = 0;
    while pos < len
        invariant
            pos <= len,
            visited@ == blank,
            forall|p: int|
                0 <= p < pos ==> !can_spell(
                    board.letters(),
                    board.side(),
                    norm@,
                    0,
                    blank,
                    p,
                ),
        decreases len - pos,
    {
        if word_continues_from(pos, &mut visited, 0, board, &norm, dim) {
            return true;
        }
        pos = pos + 1;
    }
    false
}

/// `path` lists, cell by cell, a trace of `word` on a board with the
/// given letters: one on-board cell per letter, consecutive cells
/// adjacent, and no cell used twice.
pub open spec fn is_word_path(letters: Seq<char>, dim: int, word: Seq<char>, path: Seq<int>) -> bool {
    &&& path.len() == word.len()
    &&& forall|t: int| 0 <= t < path.len() ==> 0 <= #[trigger] path[t] < dim * dim
    &&& forall|t: int| 0 <= t < path.len() ==> letters[#[trigger] path[t]] == word[t]
    &&& forall|t: int| 0 <= t < path.len() - 1 ==> is_neighbor(#[trigger] path[t], path[t + 1], dim)
    &&& forall|t1: int, t2: int| 0 <= t1 < t2 < path.len() ==> path[t1] != path[t2]
}

/// A successful search step yields a concrete path for the rest of the
/// word whose cells are pairwise distinct and all unclaimed in `vis`.
proof fn lemma_can_spell_gives_path(
    letters: Seq<char>,
    dim: int,
    word: Seq<char>,
    k: int,
    vis: Seq<bool>,
    pos: int,
) -> (path: Seq<int>)
    requires
        0 <= k < word.len(),
        0 <= pos < dim * dim,
        vis.len() == dim * dim,
        vis[pos] == false,
        can_spell(letters, dim, word, k, vis, pos),
    ensures
        path.len() == word.len() - k,
        path[0] == pos,
        forall|t: int| 0 <= t < path.len() ==> 0 <= #[trigger] path[t] < dim * dim,
        forall|t: int| 0 <= t < path.len() ==> !vis[#[trigger] path[t]],
        forall|t: int| 0 <= t < path.len() ==> letters[#[trigger] path[t]] == word[k + t],
        forall|t: int|
            0 <= t < path.len() - 1 ==> is_neighbor(#[trigger] path[t], path[t + 1], dim),
        forall|t1: int, t2: int| 0 <= t1 < t2 < path.len() ==> path[t1] != path[t2],
    decreases word.len() - k,
{
    if k + 1 >= word.len() {
        seq![pos]
    } else {
        let vis1 = vis.update(pos, true);
        let q = choose|q: int|
            is_neighbor(pos, q, dim) && !vis1[q] && can_spell(letters, dim, word, k + 1, vis1, q);
        let rest = lemma_can_spell_gives_path(letters, dim, word, k + 1, vis1, q);
        let path = seq![pos] + rest;
        assert(path[0] == pos);
        assert(vis1[pos] == true);
        assert forall|t: int| 1 <= t < path.len() implies path[t] == rest[t - 1] by {}
        assert forall|t: int| 0 <= t < path.len() implies !vis[#[trigger] path[t]] by {
            if t > 0 {
                assert(path[t] == rest[t - 1]);
                assert(!vis1[rest[t - 1]]);
                assert(rest[t - 1] != pos);
            }
        }
        assert forall|t1: int, t2: int| 0 <= t1 < t2 < path.len() implies path[t1] != path[t2] by {
            if t1 == 0 {
                assert(path[t2] == rest[t2 - 1]);
                assert(!vis1[rest[t2 - 1]]);
            } else {
                assert(path[t1] == rest[t1 - 1] && path[t2] == rest[t2 - 1]);
            }
        }
        path
    }
}

/// A cell is never reused within one successful match: whenever a word
/// can be traced on a well-formed board, some path realizes it whose
/// cells are pairwise distinct, so the set of cells visited along it
/// has exactly as many members as the word has letters.
pub proof fn lemma_no_cell_reuse(board: Board, w: Seq<char>)
    requires
        board.wf(),
        board_has_path(board, w),
    ensures
        exists|path: Seq<int>|
            #[trigger] is_word_path(board.letters(), board.side(), w, path) && path.to_set().len()
                == w.len(),
{
    let letters = board.letters();
    let dim = board.side();
    assert(dim * dim == board.squares@.len());
    let n = board.squares@.len() as int;
    if w.len() == 0 {
        let path = Seq::<int>::empty();
        assert(is_word_path(letters, dim, w, path));
        assert(path.to_set() =~= Set::<int>::empty());
        vstd::set_lib::lemma_set_empty_equivalency_len(path.to_set());
    } else {
        let pos = choose|pos: int|
            0 <= pos < board.squares@.len() && #[trigger] can_spell(
                letters,
                dim,
                w,
                0,
                blank_mask(n),
                pos,
            );
        let path = lemma_can_spell_gives_path(letters, dim, w, 0, blank_mask(n), pos);
        assert(is_word_path(letters, dim, w, path));
        assert(path.no_duplicates()) by {
            assert forall|t1: int, t2: int|
                0 <= t1 < path.len() && 0 <= t2 < path.len() && t1 != t2 implies path[t1]
                != path[t2] by {
                if t2 < t1 {
                    assert(path[t2] != path[t1]);
                }
            }
        }
        path.unique_seq_to_set();
        assert(path.to_set().len() == w.len());
    }
}

/// Validation is repeatable: its outcome is a function of the word,
/// the dictionary and the board alone, so checking the same word twice
/// gives the same answer; the inputs themselves are only read, and the
/// search's scratch mask is rebuilt from nothing on every call.
pub proof fn lemma_validation_repeatable(
    first: bool,
    second: bool,
    word: Seq<char>,
    dict: Dictionary,
    board: Board,
)
    requires
        first == word_is_valid(word, dict, board),
        second == word_is_valid(word, dict, board),
    ensures
        first == second,
{
}

/// A word whose signature keys no bucket is not valid, on any board:
/// it is not in the dictionary at all, not even as an anagram.
pub proof fn lemma_unknown_signature_invalid(word: Seq<char>, dict: Dictionary, board: Board)
    requires
        !dict.contains_sig(sort_chars(normal_form(word))),
    ensures
        !word_is_valid(word, dict, board),
{
}

/// A word absent from the bucket its signature keys is not valid, on
/// any board: an anagram collision alone never counts as a match.
pub proof fn lemma_anagram_alone_invalid(word: Seq<char>, dict: Dictionary, board: Board)
    requires
        !dict.bucket_for(sort_chars(normal_form(word))).contains(normal_form(word)),
    ensures
        !word_is_valid(word, dict, board),
{
}

} // verus!
