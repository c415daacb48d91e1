//! The dictionary index: words grouped by their letter-sorted
//! signature, so that all anagrams of a candidate share one bucket and
//! membership is checked inside that bucket alone.

use vstd::prelude::*;
use crate::chars::{
    chars_to_string,
    entry_form,
    normalize,
    sort_chars,
    sort_chars_exec,
    str_to_chars,
    trim_exec,
};

verus! {

/// Maps each signature (a word's letters in sorted order) to the
/// bucket of stored words having that signature.  The two vectors run
/// in parallel: `buckets[i]` belongs to `sigs[i]`.
pub struct Dictionary {
    pub sigs: Vec<String>,
    pub buckets: Vec<Vec<String>>,
}

impl Dictionary {
    /// Buckets and signatures correspond one to one, and no signature
    /// repeats.
    pub open spec fn wf(self) -> bool {
        &&& self.buckets@.len() == self.sigs@.len()
        &&& forall|i: int, j: int|
            0 <= i < j < self.sigs@.len() ==> self.sigs@[i]@ != self.sigs@[j]@
    }

    /// Whether some bucket is keyed by `sig`.
    pub open spec fn contains_sig(self, sig: Seq<char>) -> bool {
        exists|i: int| 0 <= i < self.sigs@.len() && self.sigs@[i]@ == sig
    }

    /// The index of the bucket keyed by `sig`.
    pub open spec fn sig_index(self, sig: Seq<char>) -> int {
        choose|i: int| 0 <= i < self.sigs@.len() && self.sigs@[i]@ == sig
    }

    /// The words stored under `sig`: the keyed bucket, or empty when
    /// no bucket has that signature.
    pub open spec fn bucket_for(self, sig: Seq<char>) -> Seq<Seq<char>> {
        if self.contains_sig(sig) {
            self.buckets@[self.sig_index(sig)].deep_view()
        } else {
            Seq::<Seq<char>>::empty()
        }
    }

    /// Whether the bucket keyed by `sig` holds exactly the word `w`.
    pub open spec fn contains_word(self, sig: Seq<char>, w: Seq<char>) -> bool {
        self.bucket_for(sig).contains(w)
    }

    /// In a well-formed dictionary the bucket index of a present
    /// signature is the one position carrying it.
    pub proof fn lemma_sig_index(self, sig: Seq<char>)
        requires
            self.wf(),
            self.contains_sig(sig),
        ensures
            0 <= self.sig_index(sig) < self.sigs@.len(),
            self.sigs@[self.sig_index(sig)]@ == sig,
            forall|i: int|
                0 <= i < self.sigs@.len() && self.sigs@[i]@ == sig ==> i == self.sig_index(sig),
    {
        let x = self.sig_index(sig);
        assert(0 <= x < self.sigs@.len() && self.sigs@[x]@ == sig);
    }

    /// Create an empty dictionary.
    pub fn new() -> (d: Dictionary)
        ensures
            d.wf(),
            d.sigs@.len() == 0,
            forall|sig: Seq<char>| !d.contains_sig(sig),
    {
        Dictionary { sigs: Vec::new(), buckets: Vec::new() }
    }

    /// Find the bucket index of a signature, if present.
    fn find_sig(&self, sig: &String) -> (r: Option<usize>)
        ensures
            match r {
                Some(i) => i < self.sigs@.len() && self.sigs@[i as int]@ == sig@,
                None => !self.contains_sig(sig@),
            },
    {
        let mut i: usize = 0;
        while i < self.sigs.len()
            invariant
                i <= self.sigs@.len(),
                forall|j: int| 0 <= j < i ==> self.sigs@[j]@ != sig@,
            decreases self.sigs@.len() - i,
        {
            if self.sigs[i] == *sig {
                return Some(i);
            }
            i = i + 1;
        }
        None
    }

    /// Store one dictionary line: the word is trimmed and normalized,
    /// and appended to the bucket of its signature, which is created
    /// if it is new.  Every other bucket is left alone.
    pub fn insert_word(&mut self, word: &str)
        requires
            old(self).wf(),
        ensures
            final(self).wf(),
            ({
                let w = entry_form(word@);
                let sig = sort_chars(w);
                &&& final(self).bucket_for(sig) == old(self).bucket_for(sig).push(w)
                &&& forall|s: Seq<char>|
                    s != sig ==> final(self).bucket_for(s) == old(self).bucket_for(s)
                &&& forall|s: Seq<char>|
                    final(self).contains_sig(s) <==> (old(self).contains_sig(s) || s == sig)
            }),
    {
        let chars = str_to_chars(word);
        let trimmed = trim_exec(&chars);
        let norm = normalize(&trimmed);
        let w = chars_to_string(&norm);
        let sorted = sort_chars_exec(&norm);
        let sig = chars_to_string(&sorted);
        let ghost wspec = entry_form(word@);
        let ghost sigspec = sort_chars(wspec);
        proof {
            assert(w@ == wspec && sig@ == sigspec);
        }
        match self.find_sig(&sig) {
            Some(i) => {
                proof {
                    old(self).lemma_sig_index(sig@);
                    assert(old(self).sig_index(sig@) == i);
                }
                let mut b: Vec<String> = Vec::new();
                self.buckets.set_and_swap(i, &mut b);
                b.push(w);
                self.buckets.set_and_swap(i, &mut b);
                proof {
                    let post = *self;
                    let pre = *old(self);
                    assert(post.sigs@ == pre.sigs@);
                    assert(post.buckets@.len() == pre.buckets@.len());
                    assert(post.buckets@[i as int]@ =~= pre.buckets@[i as int]@.push(w));
                    assert(forall|j: int|
                        0 <= j < pre.buckets@.len() && j != i ==> post.buckets@[j]
                            == pre.buckets@[j]);
                    assert forall|s: Seq<char>| post.contains_sig(s) <==> pre.contains_sig(
                        s,
                    ) by {}
                    assert(post.contains_sig(sigspec) && pre.contains_sig(sigspec));
                    post.lemma_sig_index(sigspec);
                    pre.lemma_sig_index(sigspec);
                    assert(post.sig_index(sigspec) == i && pre.sig_index(sigspec) == i);
                    assert(post.buckets@[i as int].deep_view() =~= pre.buckets@[
                        i as int].deep_view().push(wspec));
                    assert forall|s: Seq<char>| s != sigspec implies post.bucket_for(s)
                        == pre.bucket_for(s) by {
                        if pre.contains_sig(s) {
                            post.lemma_sig_index(s);
                            pre.lemma_sig_index(s);
                            assert(post.sig_index(s) == pre.sig_index(s));
                            assert(pre.sig_index(s) != i);
                        }
                    }
                }
            },
            None => {
                self.sigs.push(sig);
                let mut b: Vec<String> = Vec::new();
                b.push(w);
                self.buckets.push(b);
                proof {
                    let post = *self;
                    let pre = *old(self);
                    let n = pre.sigs@.len() as int;
                    assert(post.sigs@ =~= pre.sigs@.push(sig));
                    assert(post.sigs@[n]@ == sigspec);
                    assert forall|s: Seq<char>| post.contains_sig(s) <==> (pre.contains_sig(s)
                        || s == sigspec) by {
                        if post.contains_sig(s) {
                            let i = choose|i: int|
                                0 <= i < post.sigs@.len() && post.sigs@[i]@ == s;
                            if i < n {
                                assert(pre.sigs@[i]@ == s);
                            }
                        }
                        if pre.contains_sig(s) {
                            let i = choose|i: int|
                                0 <= i < pre.sigs@.len() && pre.sigs@[i]@ == s;
                            assert(post.sigs@[i]@ == s);
                        }
                        if s == sigspec {
                            assert(post.sigs@[n]@ == s);
                        }
                    }
                    assert(post.wf());
                    assert(!pre.contains_sig(sigspec));
                    post.lemma_sig_index(sigspec);
                    assert(post.sig_index(sigspec) == n);
                    assert(post.buckets@[n].deep_view() =~= Seq::<Seq<char>>::empty().push(
                        wspec,
                    ));
                    assert(pre.bucket_for(sigspec) == Seq::<Seq<char>>::empty());
                    assert forall|s: Seq<char>| s != sigspec implies post.bucket_for(s)
                        == pre.bucket_for(s) by {
                        if pre.contains_sig(s) {
                            post.lemma_sig_index(s);
                            pre.lemma_sig_index(s);
                            assert(pre.sig_index(s) < n);
                            assert(post.sigs@[pre.sig_index(s)]@ == s);
                            assert(post.sig_index(s) == pre.sig_index(s));
                        } else {
                            assert(!post.contains_sig(s));
                        }
                    }
                }
            },
        }
    }

    /// Whether the normalized word `w` is stored under signature `sig`.
    pub fn contains_exact(&self, sig: &String, w: &String) -> (r: bool)
        requires
            self.wf(),
        ensures
            r == self.contains_word(sig@, w@),
    {
        match self.find_sig(sig) {
            Some(i) => {
                proof {
                    self.lemma_sig_index(sig@);
                    assert(self.sig_index(sig@) == i);
                }
                let bucket = &self.buckets[i];
                let mut j: usize = 0;
                while j < bucket.len()
                    invariant
                        self.wf(),
                        self.contains_sig(sig@),
                        self.sig_index(sig@) == i,
                        i < self.buckets@.len(),
                        j <= bucket@.len(),
                        bucket@ == self.buckets@[i as int]@,
                        forall|t: int| 0 <= t < j ==> bucket@[t]@ != w@,
                    decreases bucket@.len() - j,
                {
                    if bucket[j] == *w {
                        proof {
                            assert(0 <= j < self.bucket_for(sig@).len());
                            assert(self.bucket_for(sig@)[j as int] == self.buckets@[
                                self.sig_index(sig@)]@[j as int]@);
                            assert(self.bucket_for(sig@)[j as int] == w@);
                        }
                        return true;
                    }
                    j = j + 1;
                }
                proof {
                    if self.bucket_for(sig@).contains(w@) {
                        let t = choose|t: int|
                            0 <= t < self.bucket_for(sig@).len() && self.bucket_for(sig@)[t]
                                == w@;
                        assert(bucket@[t]@ == w@);
                    }
                }
                false
            },
            None => false,
        }
    }

    /// The words stored under a signature: a copy of the keyed bucket,
    /// or an empty list when no bucket has that signature; lookup never
    /// errors.
    pub fn words_with_signature(&self, sig: &String) -> (words: Vec<String>)
        requires
            self.wf(),
        ensures
            words.deep_view() == self.bucket_for(sig@),
    {
        match self.find_sig(sig) {
            Some(i) => {
                proof {
                    self.lemma_sig_index(sig@);
                    assert(self.sig_index(sig@) == i);
                }
                let b = self.buckets[i].clone();
                proof {
                    assert forall|t: int| 0 <= t < b@.len() implies b@[t] == self.buckets@[
                        i as int]@[t] by {}
                    assert(b.deep_view() =~= self.bucket_for(sig@));
                }
                b
            },
            None => {
                let words: Vec<String> = Vec::new();
                proof {
                    assert(words.deep_view() =~= Seq::<Seq<char>>::empty());
                }
                words
            },
        }
    }

    /// The number of signature buckets.
    pub fn num_buckets(&self) -> (n: usize)
        ensures
            n == self.buckets@.len(),
    {
        self.buckets.len()
    }

    /// The bucket at a given index.
    pub fn bucket_at(&self, i: usize) -> (b: &Vec<String>)
        requires
            i < self.buckets@.len(),
        ensures
            b@ == self.buckets@[i as int]@,
    {
        &self.buckets[i]
    }
}

} // verus!
