//! Pattern counting with the bad-character heuristic of the Boyer-Moore
//! search.

use vstd::prelude::*;

use vstd::utf8::encode_utf8;

verus! {

/// The source information for one search: the text and the pattern to count
/// in it.
pub struct Source {
    pub text: String,
    pub pattern: String,
}

/// A match result from a Boyer-Moore search.
#[derive(Debug, Default)]
pub struct Match {
    pub ocurrences: usize,
}

/// The pattern occurs in the text at shift `i`.
pub open spec fn occurs_at(text: Seq<u8>, pat: Seq<u8>, i: int) -> bool {
    0 <= i <= text.len() - pat.len() && text.subrange(i, i + pat.len()) == pat
}

/// How many shifts below `upto` the pattern occurs at.
pub open spec fn count_occurrences(text: Seq<u8>, pat: Seq<u8>, upto: int) -> int
    decreases upto,
{
    if upto <= 0 {
        0
    } else {
        count_occurrences(text, pat, upto - 1) + if occurs_at(text, pat, upto - 1) {
            1int
        } else {
            0int
        }
    }
}

/// The last position of byte `c` in the pattern, `-1` when absent.
pub open spec fn last_occurrence(pat: Seq<u8>, c: int) -> int
    decreases pat.len(),
{
    if pat.len() == 0 {
        -1
    } else if pat.last() == c {
        pat.len() - 1
    } else {
        last_occurrence(pat.drop_last(), c)
    }
}

proof fn lemma_count_le(text: Seq<u8>, pat: Seq<u8>, upto: int)
    requires
        upto >= 0,
    ensures
        0 <= count_occurrences(text, pat, upto) <= upto,
    decreases upto,
{
    if upto > 0 {
        lemma_count_le(text, pat, upto - 1);
    }
}

/// No occurrence within `[a, b)` leaves the count unchanged across it.
proof fn lemma_count_skip(text: Seq<u8>, pat: Seq<u8>, a: int, b: int)
    requires
        0 <= a <= b,
        forall|i: int| a <= i < b ==> !occurs_at(text, pat, i),
    ensures
        count_occurrences(text, pat, b) == count_occurrences(text, pat, a),
    decreases b - a,
{
    if a < b {
        lemma_count_skip(text, pat, a, b - 1);
        assert(!occurs_at(text, pat, b - 1));
    }
}

/// The last occurrence really is one, and nothing of that byte follows it.
proof fn lemma_last_occurrence(pat: Seq<u8>, c: int)
    ensures
        last_occurrence(pat, c) >= 0 ==> last_occurrence(pat, c) < pat.len() && pat[last_occurrence(
            pat,
            c,
        )] == c,
        forall|p: int| last_occurrence(pat, c) < p < pat.len() ==> pat[p] != c,
        last_occurrence(pat, c) >= -1,
    decreases pat.len(),
{
    if pat.len() > 0 {
        if pat.last() != c {
            lemma_last_occurrence(pat.drop_last(), c);
            assert forall|p: int| last_occurrence(pat, c) < p < pat.len() implies pat[p] != c by {
                if p < pat.len() - 1 {
                    assert(pat.drop_last()[p] == pat[p]);
                    assert(pat.drop_last()[p] != c);
                } else {
                    assert(pat.last() != c);
                }
            }
        }
    }
}

/// The implementation of the bad character heuristic of the Boyer-Moore
/// pattern searching algorithm.
#[derive(Debug)]
pub struct BoyerMooreSearcher {
    text: Vec<u8>,
    pattern: Vec<u8>,
}

impl BoyerMooreSearcher {
    /// The searched text, as bytes.
    pub closed spec fn spec_text(&self) -> Seq<u8> {
        self.text@
    }

    /// The counted pattern, as bytes.
    pub closed spec fn spec_pattern(&self) -> Seq<u8> {
        self.pattern@
    }

    /// Creates a searcher over the given source.
    pub fn new(src: Source) -> (r: Self)
        ensures
            r.spec_text() == encode_utf8(src.text@),
            r.spec_pattern() == encode_utf8(src.pattern@),
    {
        Self {
            text: src.text.as_str().as_bytes_vec(),
            pattern: src.pattern.as_str().as_bytes_vec(),
        }
    }

    /// Counts how often the pattern occurs in the text.
    ///
    /// Fails exactly when the pattern is longer than the text; otherwise the
    /// count is the number of shifts at which the pattern matches.
    #[verifier::rlimit(60)]
    #[verifier::loop_isolation(false)]
    pub fn search(self) -> (r: Result<Match, &'static str>)
        requires
            self.spec_pattern().len() >= 1,
            self.spec_pattern().len() <= isize::MAX,
            forall|i: int| 0 <= i < self.spec_text().len() ==> #[trigger] self.spec_text()[i] < 255,
            forall|i: int|
                0 <= i < self.spec_pattern().len() ==> #[trigger] self.spec_pattern()[i] < 255,
        ensures
            match r {
                Result::Err(msg) => self.spec_text().len() < self.spec_pattern().len() && msg@
                    == "pattern greater than file's content"@,
                Result::Ok(m) => self.spec_text().len() >= self.spec_pattern().len()
                    && m.ocurrences as int == count_occurrences(
                    self.spec_text(),
                    self.spec_pattern(),
                    self.spec_text().len() - self.spec_pattern().len() + 1,
                ),
            },
    {
        let ghost text = self.text@;
        let ghost pat = self.pattern@;
        let txt_len = self.text.len();
        let pat_len = self.pattern.len();
        if txt_len < pat_len {
            return Err("pattern greater than file's content");
        }
        let ghost limit = txt_len - pat_len;
        let bad_char = Self::preprocess_pattern(&self.pattern);
        let mut shift: usize = 0;
        let mut ocurrences: usize = 0;
        while shift <= txt_len - pat_len
            invariant
                shift <= txt_len + 1,
                ocurrences as int == count_occurrences(text, pat, shift as int),
            decreases txt_len + 1 - shift,
        {
            let mut j: usize = pat_len;
            while j > 0 && self.pattern[j - 1] == self.text[shift + j - 1]
                invariant
                    j <= pat_len,
                    shift + pat_len <= txt_len,
                    forall|m: int| j <= m < pat_len ==> pat[m] == text[shift + m],
                decreases j,
            {
                j -= 1;
            }
            if j == 0 {
                proof {
                    assert(occurs_at(text, pat, shift as int)) by {
                        assert(text.subrange(shift as int, shift + pat.len()) =~= pat);
                    }
                    lemma_count_le(text, pat, shift as int);
                }
                ocurrences += 1;
                let old_shift = shift;
                if shift + pat_len < txt_len {
                    let c = self.text[shift + pat_len];
                    proof {
                        assert(self.spec_text()[shift + pat_len] < 255);
                    }
                    let b = bad_char[c as usize];
                    proof {
                        lemma_last_occurrence(pat, c as int);
                    }
                    if b >= 0 {
                        shift += pat_len - (b as usize);
                    } else {
                        shift += pat_len + 1;
                    }
                    proof {
                        let b_spec = last_occurrence(pat, c as int);
                        assert forall|s2: int| old_shift < s2 < shift implies !occurs_at(
                            text,
                            pat,
                            s2,
                        ) by {
                            if occurs_at(text, pat, s2) {
                                let p = old_shift + pat_len - s2;
                                assert(0 <= p < pat.len());
                                assert(text.subrange(s2, s2 + pat.len())[p] == pat[p]);
                                assert(pat[p] == text[s2 + p]);
                                assert(s2 + p == old_shift + pat_len);
                                assert(pat[p] == c);
                                assert(b_spec >= p);
                                assert(false);
                            }
                        }
                        lemma_count_skip(text, pat, old_shift + 1, shift as int);
                    }
                } else {
                    shift += 1;
                }
            } else {
                let jm = j - 1;
                proof {
                    assert(pat[jm as int] != text[shift + jm]);
                    assert(!occurs_at(text, pat, shift as int)) by {
                        if occurs_at(text, pat, shift as int) {
                            assert(text.subrange(shift as int, shift + pat.len())[jm as int]
                                == pat[jm as int]);
                        }
                    }
                }
                let c = self.text[shift + jm];
                proof {
                    assert(self.spec_text()[(shift + jm) as int] < 255);
                }
                let b = bad_char[c as usize];
                proof {
                    lemma_last_occurrence(pat, c as int);
                }
                let old_shift = shift;
                if b >= 0 && (b as usize) >= jm {
                    shift += 1;
                } else if b >= 0 {
                    shift += jm - (b as usize);
                } else {
                    shift += jm + 1;
                }
                proof {
                    let b_spec = last_occurrence(pat, c as int);
                    assert forall|s2: int| old_shift < s2 < shift implies !occurs_at(
                        text,
                        pat,
                        s2,
                    ) by {
                        if occurs_at(text, pat, s2) {
                            let p = old_shift + jm - s2;
                            assert(0 <= p < pat.len());
                            assert(text.subrange(s2, s2 + pat.len())[p] == pat[p]);
                            assert(pat[p] == text[s2 + p]);
                            assert(s2 + p == old_shift + jm);
                            assert(pat[p] == c);
                            assert(b_spec >= p);
                            assert(false);
                        }
                    }
                    lemma_count_skip(text, pat, old_shift + 1, shift as int);
                }
            }
        }
        proof {
            assert forall|i: int| limit + 1 <= i < shift implies !occurs_at(text, pat, i) by {
                assert(i > text.len() - pat.len());
            }
            lemma_count_skip(text, pat, limit + 1, shift as int);
        }
        Ok(Match { ocurrences })
    }

    /// Builds the bad character table: the last position in the pattern of
    /// every byte the table covers.
    #[verifier::loop_isolation(false)]
    fn preprocess_pattern(pattern: &Vec<u8>) -> (r: Vec<isize>)
        requires
            pattern@.len() <= isize::MAX,
            forall|i: int| 0 <= i < pattern@.len() ==> #[trigger] pattern@[i] < 255,
        ensures
            r@.len() == 255,
            forall|c: int| 0 <= c < 255 ==> r@[c] == last_occurrence(pattern@, c),
    {
        let mut bad_char: Vec<isize> = Vec::new();
        let mut i: usize = 0;
        while i < 255
            invariant
                i <= 255,
                bad_char@.len() == i,
                forall|c: int| 0 <= c < i ==> bad_char@[c] == -1,
            decreases 255 - i,
        {
            bad_char.push(-1);
            i += 1;
        }
        proof {
            assert forall|c: int| 0 <= c < 255 implies bad_char@[c] == last_occurrence(
                pattern@.take(0),
                c,
            ) by {
                assert(pattern@.take(0).len() == 0);
            }
        }
        let mut k: usize = 0;
        while k < pattern.len()
            invariant
                k <= pattern@.len(),
                bad_char@.len() == 255,
                forall|c: int|
                    0 <= c < 255 ==> bad_char@[c] == last_occurrence(pattern@.take(k as int), c),
            decreases pattern@.len() - k,
        {
            let c = pattern[k];
            bad_char.set(c as usize, k as isize);
            proof {
                assert forall|c2: int| 0 <= c2 < 255 implies bad_char@[c2] == last_occurrence(
                    pattern@.take(k + 1),
                    c2,
                ) by {
                    assert(pattern@.take(k + 1).drop_last() =~= pattern@.take(k as int));
                    assert(pattern@.take(k + 1).last() == pattern@[k as int]);
                }
            }
            k += 1;
        }
        proof {
            assert(pattern@.take(pattern@.len() as int) =~= pattern@);
        }
        bad_char
    }
}

} // verus!
