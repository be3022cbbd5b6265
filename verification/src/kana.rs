use vstd::prelude::*;
use vstd::string::StrSliceExecFns;
use vstd::string::StringExecFns;

verus! {

/// The combining set: the small kana that attach to the preceding base
/// character when a reading is divided into morae. These are the small
/// vowels, the gemination mark and the small y-row kana, in hiragana and
/// katakana, plus the katakana small wa.
pub open spec fn is_small_kana(c: char) -> bool {
    ||| c == 'ぁ'
    ||| c == 'ぃ'
    ||| c == 'ぅ'
    ||| c == 'ぇ'
    ||| c == 'ぉ'
    ||| c == 'っ'
    ||| c == 'ゃ'
    ||| c == 'ゅ'
    ||| c == 'ょ'
    ||| c == 'ァ'
    ||| c == 'ィ'
    ||| c == 'ゥ'
    ||| c == 'ェ'
    ||| c == 'ォ'
    ||| c == 'ッ'
    ||| c == 'ャ'
    ||| c == 'ュ'
    ||| c == 'ョ'
    ||| c == 'ヮ'
}

/// Executable test for membership in the combining set.
pub fn small_kana(c: char) -> (r: bool)
    ensures
        r == is_small_kana(c),
{
    c == 'ぁ' || c == 'ぃ' || c == 'ぅ' || c == 'ぇ' || c == 'ぉ' || c == 'っ' || c == 'ゃ'
        || c == 'ゅ' || c == 'ょ' || c == 'ァ' || c == 'ィ' || c == 'ゥ' || c == 'ェ' || c == 'ォ'
        || c == 'ッ' || c == 'ャ' || c == 'ュ' || c == 'ョ' || c == 'ヮ'
}

/// Length of the longest prefix of `s` made entirely of small kana.
pub open spec fn small_run_len(s: Seq<char>) -> nat
    decreases s.len(),
{
    if s.len() > 0 && is_small_kana(s[0]) {
        small_run_len(s.drop_first()) + 1
    } else {
        0
    }
}

/// `small_run_len` never exceeds the length of the sequence.
pub proof fn lemma_small_run_len_le(s: Seq<char>)
    ensures
        small_run_len(s) <= s.len(),
    decreases s.len(),
{
    if s.len() > 0 && is_small_kana(s[0]) {
        lemma_small_run_len_le(s.drop_first());
    }
}

/// The run length is pinned by its boundary: if the first `k` characters are
/// small and the one at `k` (if any) is not, the run has length exactly `k`.
pub proof fn lemma_small_run_len_exact(s: Seq<char>, k: int)
    requires
        0 <= k <= s.len(),
        forall|j: int| 0 <= j < k ==> is_small_kana(s[j]),
        k < s.len() ==> !is_small_kana(s[k]),
    ensures
        small_run_len(s) == k,
    decreases s.len(),
{
    if k == 0 {
    } else {
        assert(is_small_kana(s[0]));
        assert forall|j: int| 0 <= j < k - 1 implies is_small_kana(s.drop_first()[j]) by {
            assert(s.drop_first()[j] == s[j + 1]);
        }
        if k - 1 < s.drop_first().len() {
            assert(s.drop_first()[k - 1] == s[k]);
        }
        lemma_small_run_len_exact(s.drop_first(), k - 1);
    }
}

/// Length of the first mora of a non-empty reading: its base character plus
/// the small kana that follow it.
pub open spec fn first_mora_len(s: Seq<char>) -> nat {
    small_run_len(s.skip(1)) + 1
}

/// The first mora never reaches past the end of the reading.
pub proof fn lemma_first_mora_len_le(s: Seq<char>)
    requires
        s.len() > 0,
    ensures
        1 <= first_mora_len(s) <= s.len(),
{
    lemma_small_run_len_le(s.skip(1));
}

/// Division of a reading into morae: each mora is one character plus the run
/// of small kana after it.
pub open spec fn segment(s: Seq<char>) -> Seq<Seq<char>>
    decreases s.len(),
{
    if s.len() == 0 {
        Seq::empty()
    } else {
        let k = if first_mora_len(s) <= s.len() {
            first_mora_len(s) as int
        } else {
            s.len() as int
        };
        seq![s.take(k)] + segment(s.skip(k))
    }
}

/// One unfolding of `segment` on a non-empty reading.
pub proof fn lemma_segment_step(s: Seq<char>)
    requires
        s.len() > 0,
    ensures
        segment(s) == seq![s.take(first_mora_len(s) as int)] + segment(
            s.skip(first_mora_len(s) as int),
        ),
{
    lemma_first_mora_len_le(s);
}

/// The number of morae in a reading.
pub open spec fn mora_count(s: Seq<char>) -> nat {
    segment(s).len()
}

/// Appending a character that is not small kana leaves the run untouched.
proof fn lemma_small_run_len_push(u: Seq<char>, c: char)
    requires
        !is_small_kana(c),
    ensures
        small_run_len(u.push(c)) == small_run_len(u),
    decreases u.len(),
{
    if u.len() == 0 {
        assert(u.push(c)[0] == c);
    } else if is_small_kana(u[0]) {
        assert(u.push(c)[0] == u[0]);
        assert(u.push(c).drop_first() =~= u.drop_first().push(c));
        lemma_small_run_len_push(u.drop_first(), c);
    } else {
        assert(u.push(c)[0] == u[0]);
    }
}

/// A character outside the combining set, appended to a reading, stands as
/// one further mora of its own: the division of the reading itself does not
/// move. The renderer leans on this when it extends a reading by the
/// trailing ellipsis and re-divides it.
pub proof fn lemma_segment_push_non_small(s: Seq<char>, c: char)
    requires
        !is_small_kana(c),
    ensures
        segment(s.push(c)) =~= segment(s).push(seq![c]),
        mora_count(s.push(c)) == mora_count(s) + 1,
    decreases s.len(),
{
    let t = s.push(c);
    if s.len() == 0 {
        assert(t.skip(1) =~= Seq::<char>::empty());
        assert(first_mora_len(t) == 1);
        assert(t.take(1) =~= seq![c]);
        assert(segment(t) =~= seq![seq![c]] + segment(t.skip(1)));
        assert(segment(t) =~= segment(s).push(seq![c]));
    } else {
        lemma_first_mora_len_le(s);
        let m = first_mora_len(s) as int;
        assert(t.skip(1) =~= s.skip(1).push(c));
        lemma_small_run_len_push(s.skip(1), c);
        assert(first_mora_len(t) == m);
        assert(t.take(m) =~= s.take(m));
        assert(t.skip(m) =~= s.skip(m).push(c));
        lemma_segment_push_non_small(s.skip(m), c);
        lemma_segment_step(s);
        assert(segment(t) == seq![t.take(m)] + segment(t.skip(m)));
        assert(segment(t) =~= (seq![s.take(m)] + segment(s.skip(m))).push(seq![c]));
    }
}

/// A word's phonetic reading in kana script.
#[derive(Debug, Clone, Eq, PartialEq, Hash)]
pub struct KanaString(pub String);

impl View for KanaString {
    type V = Seq<char>;

    open spec fn view(&self) -> Seq<char> {
        self.0@
    }
}

impl From<String> for KanaString {
    fn from(string: String) -> (r: Self) {
        KanaString(string)
    }
}

impl vstd::std_specs::convert::FromSpecImpl<String> for KanaString {
    open spec fn obeys_from_spec() -> bool {
        true
    }

    open spec fn from_spec(v: String) -> Self {
        KanaString(v)
    }
}

impl KanaString {
    /// The reading's morae, in order. An empty reading yields no morae.
    pub fn iter_mora(&self) -> (morae: Vec<String>)
        ensures
            morae.deep_view() == segment(self@),
    {
        let s: &str = self.0.as_str();
        let len: usize = s.unicode_len();
        let mut morae: Vec<String> = Vec::new();
        let mut start: usize = 0;
        let mut i: usize = 0;
        proof {
            assert(morae.deep_view() =~= Seq::<Seq<char>>::empty());
            assert(s@.skip(0) =~= s@);
            assert(Seq::<Seq<char>>::empty() + segment(s@) =~= segment(s@));
        }
        while i < len
            invariant
                s@ == self@,
                len == s@.len(),
                start <= i <= len,
                start < i ==> i < len,
                forall|j: int| start < j <= i ==> is_small_kana(s@[j]),
                segment(s@) == morae.deep_view() + segment(s@.skip(start as int)),
            decreases len - i,
        {
            let flush = if i + 1 < len {
                !small_kana(s.get_char(i + 1))
            } else {
                true
            };
            if flush {
                let mora: String = String::from_str(s.substring_char(start, i + 1));
                proof {
                    let u = s@.skip(start as int);
                    let v = s@.skip(start as int + 1);
                    assert forall|j: int| 0 <= j < i - start implies is_small_kana(v[j]) by {
                        assert(v[j] == s@[start + 1 + j]);
                    }
                    if i + 1 < len {
                        assert(v[i - start] == s@[i + 1]);
                    }
                    lemma_small_run_len_exact(v, i - start);
                    assert(u.skip(1) =~= v);
                    assert(first_mora_len(u) == i + 1 - start);
                    lemma_segment_step(u);
                    assert(u.take(i + 1 - start) =~= s@.subrange(start as int, i + 1));
                    assert(u.skip(i + 1 - start) =~= s@.skip(i + 1));
                    let dv = morae.deep_view();
                    assert(segment(s@) == dv + (seq![s@.subrange(start as int, i + 1)] + segment(
                        s@.skip(i + 1),
                    )));
                    assert(dv + (seq![s@.subrange(start as int, i + 1)] + segment(s@.skip(i + 1)))
                        =~= dv.push(s@.subrange(start as int, i + 1)) + segment(s@.skip(i + 1)));
                }
                let ghost old_dv = morae.deep_view();
                morae.push(mora);
                proof {
                    assert(morae.deep_view() =~= old_dv.push(mora@));
                }
                start = i + 1;
            }
            i = i + 1;
        }
        proof {
            assert(s@.skip(len as int) =~= Seq::<char>::empty());
            assert(morae.deep_view() + Seq::<Seq<char>>::empty() =~= morae.deep_view());
        }
        morae
    }
}

} // verus!
