//! Character-level utilities: conversion between `&str` and character
//! vectors, upper-casing, the "QU" -> "Q" collapse that models the Qu
//! die face, signatures (letter-sorted words) and lexicographic order.

use vstd::prelude::*;

verus! {

/// Collect the characters of a string into a vector.
pub fn str_to_chars(s: &str) -> (v: Vec<char>)
    ensures
        v@ == s@,
{
    let n = s.unicode_len();
    let mut v: Vec<char> = Vec::new();
    let mut i: usize = 0;
    while i < n
        invariant
            n == s@.len(),
            i <= n,
            v@ == s@.subrange(0, i as int),
        decreases n - i,
    {
        let c = s.get_char(i);
        v.push(c);
        i = i + 1;
        proof {
            assert(v@ =~= s@.subrange(0, i as int));
        }
    }
    proof {
        assert(v@ =~= s@);
    }
    v
}

/// Build a string out of a vector of characters.
///
/// Relies on `String`'s `FromIterator` implementation (through
/// `Iterator::collect`): the collected string holds exactly the
/// iterated characters, in order.
#[verifier::external_body]
pub fn chars_to_string(v: &Vec<char>) -> (s: String)
    ensures
        s@ == v@,
{
    v.iter().collect()
}

/// An ASCII lower-case letter is mapped to its upper-case form; every
/// other character is left alone.
pub open spec fn upper_char(c: char) -> char {
    if 'a' <= c && c <= 'z' {
        ((c as u8) - 32) as char
    } else {
        c
    }
}

/// The upper-cased form of a character sequence.
pub open spec fn upper_seq(s: Seq<char>) -> Seq<char> {
    s.map_values(|c: char| upper_char(c))
}

/// Upper-case one character.
pub fn to_upper_char(c: char) -> (r: char)
    ensures
        r == upper_char(c),
{
    if 'a' <= c && c <= 'z' {
        ((c as u8) - 32) as char
    } else {
        c
    }
}

/// Upper-case a vector of characters.
pub fn to_upper(v: &Vec<char>) -> (r: Vec<char>)
    ensures
        r@ == upper_seq(v@),
{
    let mut r: Vec<char> = Vec::new();
    let mut i: usize = 0;
    while i < v.len()
        invariant
            i <= v@.len(),
            r@ == upper_seq(v@.subrange(0, i as int)),
        decreases v@.len() - i,
    {
        r.push(to_upper_char(v[i]));
        i = i + 1;
        proof {
            assert(r@ =~= upper_seq(v@.subrange(0, i as int)));
        }
    }
    proof {
        assert(v@.subrange(0, v@.len() as int) =~= v@);
    }
    r
}

/// Each occurrence of "QU" is replaced by a single "Q", scanning left
/// to right without rescanning replaced text, as the die face "Q"
/// stands for the two letters "Qu".
pub open spec fn collapse_qu(s: Seq<char>) -> Seq<char>
    decreases s.len(),
{
    if s.len() >= 2 && s[0] == 'Q' && s[1] == 'U' {
        seq!['Q'] + collapse_qu(s.skip(2))
    } else if s.len() >= 1 {
        seq![s[0]] + collapse_qu(s.skip(1))
    } else {
        Seq::<char>::empty()
    }
}

/// Replace every occurrence of "QU" by "Q".
pub fn collapse_qu_exec(v: &Vec<char>) -> (r: Vec<char>)
    ensures
        r@ == collapse_qu(v@),
{
    let mut r: Vec<char> = Vec::new();
    let mut i: usize = 0;
    proof {
        assert(v@.skip(0) =~= v@);
        assert(collapse_qu(v@) =~= Seq::<char>::empty() + collapse_qu(v@.skip(0)));
    }
    while i < v.len()
        invariant
            i <= v@.len(),
            collapse_qu(v@) == r@ + collapse_qu(v@.skip(i as int)),
        decreases v@.len() - i,
    {
        if i + 1 < v.len() && v[i] == 'Q' && v[i + 1] == 'U' {
            proof {
                assert(v@.skip(i as int).skip(2) =~= v@.skip(i as int + 2));
                assert(collapse_qu(v@.skip(i as int)) == seq!['Q'] + collapse_qu(
                    v@.skip(i as int + 2),
                ));
            }
            r.push('Q');
            i = i + 2;
        } else {
            proof {
                assert(v@.skip(i as int).skip(1) =~= v@.skip(i as int + 1));
                assert(collapse_qu(v@.skip(i as int)) == seq![v@[i as int]] + collapse_qu(
                    v@.skip(i as int + 1),
                ));
            }
            r.push(v[i]);
            i = i + 1;
        }
        proof {
            assert(collapse_qu(v@) =~= r@ + collapse_qu(v@.skip(i as int)));
        }
    }
    proof {
        assert(v@.skip(v@.len() as int) =~= Seq::<char>::empty());
        assert(collapse_qu(v@) =~= r@);
    }
    r
}

/// The normal form of a submitted word: upper-cased, with "QU"
/// collapsed to "Q".
pub open spec fn normal_form(s: Seq<char>) -> Seq<char> {
    collapse_qu(upper_seq(s))
}

/// Normalize a word: upper-case it and collapse "QU" to "Q".
pub fn normalize(v: &Vec<char>) -> (r: Vec<char>)
    ensures
        r@ == normal_form(v@),
{
    let u = to_upper(v);
    collapse_qu_exec(&u)
}

/// The whitespace characters a dictionary line may carry around a word.
pub open spec fn is_space(c: char) -> bool {
    c == ' ' || c == '\t' || c == '\r' || c == '\n'
}

/// `s` without its leading whitespace.
pub open spec fn trim_front(s: Seq<char>) -> Seq<char>
    decreases s.len(),
{
    if s.len() > 0 && is_space(s[0]) {
        trim_front(s.skip(1))
    } else {
        s
    }
}

/// `s` without its trailing whitespace.
pub open spec fn trim_back(s: Seq<char>) -> Seq<char>
    decreases s.len(),
{
    if s.len() > 0 && is_space(s[s.len() - 1]) {
        trim_back(s.take(s.len() - 1))
    } else {
        s
    }
}

/// `s` without leading and trailing whitespace.
pub open spec fn trim_spaces(s: Seq<char>) -> Seq<char> {
    trim_back(trim_front(s))
}

/// Dropping a fully-space prefix that ends at the first non-space
/// character realizes `trim_front`.
proof fn lemma_trim_front_at(s: Seq<char>, a: int)
    requires
        0 <= a <= s.len(),
        forall|i: int| 0 <= i < a ==> is_space(#[trigger] s[i]),
        a < s.len() ==> !is_space(s[a]),
    ensures
        trim_front(s) == s.skip(a),
    decreases a,
{
    if a == 0 {
        assert(s.skip(0) =~= s);
    } else {
        lemma_trim_front_at(s.skip(1), a - 1);
        assert(s.skip(1).skip(a - 1) =~= s.skip(a));
    }
}

/// Dropping a fully-space suffix that starts right after the last
/// non-space character realizes `trim_back`.
proof fn lemma_trim_back_at(s: Seq<char>, b: int)
    requires
        0 <= b <= s.len(),
        forall|i: int| b <= i < s.len() ==> is_space(#[trigger] s[i]),
        b > 0 ==> !is_space(s[b - 1]),
    ensures
        trim_back(s) == s.take(b),
    decreases s.len(),
{
    if b == s.len() {
        assert(s.take(b) =~= s);
    } else {
        lemma_trim_back_at(s.take(s.len() - 1), b);
    }
}

/// Decide whether a character is whitespace.
pub fn is_space_char(c: char) -> (r: bool)
    ensures
        r == is_space(c),
{
    c == ' ' || c == '\t' || c == '\r' || c == '\n'
}

/// Strip leading and trailing whitespace from a vector of characters.
pub fn trim_exec(v: &Vec<char>) -> (r: Vec<char>)
    ensures
        r@ == trim_spaces(v@),
{
    let mut a: usize = 0;
    while a < v.len() && is_space_char(v[a])
        invariant
            a <= v@.len(),
            forall|i: int| 0 <= i < a ==> is_space(#[trigger] v@[i]),
        decreases v@.len() - a,
    {
        a = a + 1;
    }
    let mut b: usize = v.len();
    while b > a && is_space_char(v[b - 1])
        invariant
            a <= b <= v@.len(),
            forall|i: int| b <= i < v@.len() ==> is_space(#[trigger] v@[i]),
        decreases b,
    {
        b = b - 1;
    }
    let mut r: Vec<char> = Vec::new();
    let mut i: usize = a;
    while i < b
        invariant
            a <= i <= b <= v@.len(),
            r@ == v@.subrange(a as int, i as int),
        decreases b - i,
    {
        r.push(v[i]);
        i = i + 1;
        proof {
            assert(r@ =~= v@.subrange(a as int, i as int));
        }
    }
    proof {
        lemma_trim_front_at(v@, a as int);
        let t = v@.skip(a as int);
        assert(forall|i: int|
            (b - a) <= i < t.len() ==> is_space(#[trigger] t[i]) == is_space(v@[i + a]));
        lemma_trim_back_at(t, b - a);
        assert(r@ =~= t.take(b - a));
    }
    r
}

/// The form in which a dictionary line is stored: whitespace trimmed,
/// then upper-cased with "QU" collapsed to "Q".
pub open spec fn entry_form(s: Seq<char>) -> Seq<char> {
    normal_form(trim_spaces(s))
}

/// The sequence obtained by placing `c` in front of the first element
/// of `s` that is not below it; insertion sort's inner step.
pub open spec fn insert_sorted(c: char, s: Seq<char>) -> Seq<char>
    decreases s.len(),
{
    if s.len() == 0 {
        seq![c]
    } else if (c as u32) <= (s[0] as u32) {
        seq![c] + s
    } else {
        seq![s[0]] + insert_sorted(c, s.skip(1))
    }
}

/// The characters of `s` sorted into ascending code-point order by
/// insertion sort.
pub open spec fn sort_chars(s: Seq<char>) -> Seq<char>
    decreases s.len(),
{
    if s.len() == 0 {
        Seq::<char>::empty()
    } else {
        insert_sorted(s[0], sort_chars(s.skip(1)))
    }
}

/// Placing `c` at the first index `p` whose element is not below `c`
/// realizes `insert_sorted`.
proof fn lemma_insert_sorted_at(c: char, s: Seq<char>, p: int)
    requires
        0 <= p <= s.len(),
        forall|j: int| 0 <= j < p ==> (s[j] as u32) < (c as u32),
        p < s.len() ==> (c as u32) <= (s[p] as u32),
    ensures
        insert_sorted(c, s) == s.insert(p, c),
    decreases p,
{
    if s.len() == 0 {
        assert(insert_sorted(c, s) =~= s.insert(p, c));
    } else if p == 0 {
        assert(insert_sorted(c, s) =~= s.insert(0, c));
    } else {
        lemma_insert_sorted_at(c, s.skip(1), p - 1);
        assert(insert_sorted(c, s) == seq![s[0]] + s.skip(1).insert(p - 1, c));
        assert(seq![s[0]] + s.skip(1).insert(p - 1, c) =~= s.insert(p, c));
    }
}

/// Insert `c` in front of the first element of `v` not below it.
fn insert_sorted_exec(c: char, v: &Vec<char>) -> (r: Vec<char>)
    ensures
        r@ == insert_sorted(c, v@),
{
    let mut p: usize = 0;
    while p < v.len() && (v[p] as u32) < (c as u32)
        invariant
            p <= v@.len(),
            forall|j: int| 0 <= j < p ==> (v@[j] as u32) < (c as u32),
        decreases v@.len() - p,
    {
        p = p + 1;
    }
    let mut r = v.clone();
    r.insert(p, c);
    proof {
        lemma_insert_sorted_at(c, v@, p as int);
    }
    r
}

/// Sort a vector of characters into ascending code-point order.
pub fn sort_chars_exec(v: &Vec<char>) -> (r: Vec<char>)
    ensures
        r@ == sort_chars(v@),
{
    let mut r: Vec<char> = Vec::new();
    let mut i: usize = v.len();
    proof {
        assert(v@.skip(v@.len() as int) =~= Seq::<char>::empty());
    }
    while i > 0
        invariant
            i <= v@.len(),
            r@ == sort_chars(v@.skip(i as int)),
        decreases i,
    {
        i = i - 1;
        r = insert_sorted_exec(v[i], &r);
        proof {
            assert(v@.skip(i as int).skip(1) =~= v@.skip(i as int + 1));
            assert(v@.skip(i as int)[0] == v@[i as int]);
        }
    }
    proof {
        assert(v@.skip(0) =~= v@);
    }
    r
}

/// Put the letters of a word into ascending order; two words get the
/// same result exactly when they are anagrams of one another.
pub fn sort_word(word: &str) -> (r: String)
    ensures
        r@ == sort_chars(word@),
{
    let v = str_to_chars(word);
    let sorted = sort_chars_exec(&v);
    chars_to_string(&sorted)
}

/// The characters of `s` stand in ascending code-point order.
pub open spec fn sorted_chars(s: Seq<char>) -> bool {
    forall|i: int, j: int| 0 <= i < j < s.len() ==> (s[i] as u32) <= (s[j] as u32)
}

/// Inserting a character adds exactly it to the collection of letters.
proof fn lemma_insert_sorted_multiset(c: char, s: Seq<char>)
    ensures
        insert_sorted(c, s).to_multiset() == s.to_multiset().insert(c),
    decreases s.len(),
{
    broadcast use vstd::seq_lib::group_to_multiset_ensures;
    broadcast use vstd::multiset::group_multiset_axioms;

    if s.len() == 0 {
        assert(insert_sorted(c, s) =~= Seq::<char>::empty().push(c));
        assert(insert_sorted(c, s).to_multiset() =~= s.to_multiset().insert(c));
    } else if (c as u32) <= (s[0] as u32) {
        assert(seq![c] + s =~= s.insert(0, c));
        vstd::seq_lib::to_multiset_insert(s, 0, c);
    } else {
        lemma_insert_sorted_multiset(c, s.skip(1));
        let rest = insert_sorted(c, s.skip(1));
        assert(seq![s[0]] + rest =~= rest.insert(0, s[0]));
        vstd::seq_lib::to_multiset_insert(rest, 0, s[0]);
        assert(s =~= s.skip(1).insert(0, s[0]));
        vstd::seq_lib::to_multiset_insert(s.skip(1), 0, s[0]);
        assert(s.skip(1).to_multiset().insert(c).insert(s[0]) =~= s.skip(1).to_multiset().insert(
            s[0],
        ).insert(c));
    }
}

/// Sorting a word neither adds nor drops a letter.
pub proof fn lemma_sort_chars_multiset(s: Seq<char>)
    ensures
        sort_chars(s).to_multiset() == s.to_multiset(),
    decreases s.len(),
{
    broadcast use vstd::seq_lib::group_to_multiset_ensures;

    if s.len() > 0 {
        lemma_sort_chars_multiset(s.skip(1));
        lemma_insert_sorted_multiset(s[0], sort_chars(s.skip(1)));
        assert(s =~= s.skip(1).insert(0, s[0]));
        vstd::seq_lib::to_multiset_insert(s.skip(1), 0, s[0]);
    }
}

/// Inserting into a sorted sequence keeps it sorted.
proof fn lemma_insert_sorted_sorted(c: char, s: Seq<char>)
    requires
        sorted_chars(s),
    ensures
        sorted_chars(insert_sorted(c, s)),
    decreases s.len(),
{
    broadcast use vstd::seq_lib::group_to_multiset_ensures;
    broadcast use vstd::multiset::group_multiset_axioms;

    if s.len() == 0 {
    } else if (c as u32) <= (s[0] as u32) {
        let r = seq![c] + s;
        assert forall|i: int, j: int| 0 <= i < j < r.len() implies (r[i] as u32) <= (r[j]
            as u32) by {
            if i == 0 && j > 1 {
                assert((s[0] as u32) <= (s[j - 1] as u32));
            }
        }
    } else {
        assert(sorted_chars(s.skip(1)));
        lemma_insert_sorted_sorted(c, s.skip(1));
        lemma_insert_sorted_multiset(c, s.skip(1));
        let rest = insert_sorted(c, s.skip(1));
        let r = seq![s[0]] + rest;
        assert forall|i: int, j: int| 0 <= i < j < r.len() implies (r[i] as u32) <= (r[j]
            as u32) by {
            if i == 0 {
                let e = rest[j - 1];
                assert(rest.contains(e));
                assert(rest.to_multiset().count(e) > 0);
                if e == c {
                    assert((s[0] as u32) <= (c as u32));
                } else {
                    assert(s.skip(1).to_multiset().count(e) > 0);
                    assert(s.skip(1).contains(e));
                    let k = choose|k: int| 0 <= k < s.skip(1).len() && s.skip(1)[k] == e;
                    assert(s[k + 1] == e);
                    assert((s[0] as u32) <= (s[k + 1] as u32));
                }
            }
        }
    }
}

/// The signature of a word is sorted.
pub proof fn lemma_sort_chars_sorted(s: Seq<char>)
    ensures
        sorted_chars(sort_chars(s)),
    decreases s.len(),
{
    if s.len() > 0 {
        lemma_sort_chars_sorted(s.skip(1));
        lemma_insert_sorted_sorted(s[0], sort_chars(s.skip(1)));
    }
}

/// Characters with the same code point are the same character.
proof fn lemma_char_eq(c1: char, c2: char)
    requires
        (c1 as u32) == (c2 as u32),
    ensures
        c1 == c2,
{
}

/// Two sorted sequences with the same letters are the same sequence.
proof fn lemma_sorted_multiset_unique(a: Seq<char>, b: Seq<char>)
    requires
        sorted_chars(a),
        sorted_chars(b),
        a.to_multiset() == b.to_multiset(),
    ensures
        a == b,
    decreases a.len(),
{
    broadcast use vstd::seq_lib::group_to_multiset_ensures;
    broadcast use vstd::multiset::group_multiset_axioms;

    a.to_multiset_ensures();
    b.to_multiset_ensures();
    if a.len() == 0 {
        assert(b.to_multiset().len() == 0);
        assert(a =~= b);
    } else {
        assert(b.len() == a.len());
        assert(a.to_multiset().count(a[0]) > 0);
        assert(b.contains(a[0]));
        assert(b.to_multiset().count(b[0]) > 0);
        assert(a.contains(b[0]));
        let ka = choose|k: int| 0 <= k < a.len() && a[k] == b[0];
        let kb = choose|k: int| 0 <= k < b.len() && b[k] == a[0];
        assert(0 <= ka < a.len() && a[ka] == b[0]);
        assert(0 <= kb < b.len() && b[kb] == a[0]);
        assert((a[0] as u32) <= (b[0] as u32)) by {
            if ka != 0 {
                assert((a[0] as u32) <= (a[ka] as u32));
            }
        }
        assert((b[0] as u32) <= (a[0] as u32)) by {
            if kb != 0 {
                assert((b[0] as u32) <= (b[kb] as u32));
            }
        }
        lemma_char_eq(a[0], b[0]);
        assert(a[0] == b[0]);
        assert(a.remove(0) =~= a.skip(1));
        assert(b.remove(0) =~= b.skip(1));
        vstd::seq_lib::to_multiset_remove(a, 0);
        vstd::seq_lib::to_multiset_remove(b, 0);
        assert(sorted_chars(a.skip(1)));
        assert(sorted_chars(b.skip(1)));
        lemma_sorted_multiset_unique(a.skip(1), b.skip(1));
        assert forall|i: int| 0 <= i < a.len() implies a[i] == b[i] by {
            if i > 0 {
                assert(a[i] == a.skip(1)[i - 1]);
                assert(b[i] == b.skip(1)[i - 1]);
            }
        }
        assert(a =~= b);
    }
}

/// Two words have the same signature exactly when they are anagrams:
/// the letters of one, with multiplicity, are the letters of the other.
pub proof fn lemma_signature_iff_anagram(a: Seq<char>, b: Seq<char>)
    ensures
        sort_chars(a) == sort_chars(b) <==> a.to_multiset() == b.to_multiset(),
{
    lemma_sort_chars_multiset(a);
    lemma_sort_chars_multiset(b);
    if a.to_multiset() == b.to_multiset() {
        lemma_sort_chars_sorted(a);
        lemma_sort_chars_sorted(b);
        lemma_sorted_multiset_unique(sort_chars(a), sort_chars(b));
    }
}

/// Lexicographic order on character sequences by code point, the order
/// `str` comparison gives on the words this library builds.
pub open spec fn lex_le(a: Seq<char>, b: Seq<char>) -> bool
    decreases a.len(),
{
    if a.len() == 0 {
        true
    } else if b.len() == 0 {
        false
    } else if (a[0] as u32) < (b[0] as u32) {
        true
    } else if (a[0] as u32) > (b[0] as u32) {
        false
    } else {
        lex_le(a.skip(1), b.skip(1))
    }
}

/// Decide whether `a` comes no later than `b` in lexicographic order.
pub fn lex_le_exec(a: &Vec<char>, b: &Vec<char>) -> (r: bool)
    ensures
        r == lex_le(a@, b@),
{
    let mut i: usize = 0;
    proof {
        assert(a@.skip(0) =~= a@);
        assert(b@.skip(0) =~= b@);
    }
    loop
        invariant
            i <= a@.len(),
            i <= b@.len(),
            lex_le(a@, b@) == lex_le(a@.skip(i as int), b@.skip(i as int)),
        decreases a@.len() - i,
    {
        if i >= a.len() {
            return true;
        }
        if i >= b.len() {
            return false;
        }
        let ca = a[i];
        let cb = b[i];
        proof {
            assert(a@.skip(i as int).skip(1) =~= a@.skip(i as int + 1));
            assert(b@.skip(i as int).skip(1) =~= b@.skip(i as int + 1));
        }
        if (ca as u32) < (cb as u32) {
            return true;
        }
        if (ca as u32) > (cb as u32) {
            return false;
        }
        i = i + 1;
    }
}

} // verus!
