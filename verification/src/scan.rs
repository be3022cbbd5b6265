use vstd::prelude::*;
use vstd::string::StringExecFns;

verus! {

/// The pieces from position `i` on, each preceded by the separator.
pub open spec fn join_from(parts: Seq<Seq<char>>, sep: Seq<char>, i: int) -> Seq<char>
    decreases parts.len() - i,
{
    if i < 0 || i >= parts.len() {
        Seq::empty()
    } else {
        sep + parts[i] + join_from(parts, sep, i + 1)
    }
}

/// The pieces concatenated with the separator between adjacent ones.
pub open spec fn join(parts: Seq<Seq<char>>, sep: Seq<char>) -> Seq<char> {
    if parts.len() == 0 {
        Seq::empty()
    } else {
        parts[0] + join_from(parts, sep, 1)
    }
}

/// Joins rendered pieces with a separator.
pub fn join_strings(parts: &Vec<String>, sep: &str) -> (r: String)
    ensures
        r@ == join(parts.deep_view(), sep@),
{
    let ghost p = parts.deep_view();
    let n = parts.len();
    let mut out = String::new();
    if n == 0 {
        proof {
            assert(out@ =~= join(p, sep@));
        }
        return out;
    }
    out.append(parts[0].as_str());
    proof {
        assert(p[0] == parts@[0]@);
        assert(out@ =~= p[0]);
    }
    let mut i: usize = 1;
    while i < n
        invariant
            1 <= i <= n,
            n == parts@.len(),
            p == parts.deep_view(),
            out@ + join_from(p, sep@, i as int) == join(p, sep@),
        decreases n - i,
    {
        let ghost old_out = out@;
        out.append(sep);
        out.append(parts[i].as_str());
        proof {
            assert(p[i as int] == parts@[i as int]@);
            assert(out@ =~= old_out + (sep@ + p[i as int]));
            assert(join_from(p, sep@, i as int) == sep@ + p[i as int] + join_from(
                p,
                sep@,
                i as int + 1,
            ));
            assert(old_out + (sep@ + p[i as int]) + join_from(p, sep@, i as int + 1) =~= old_out
                + join_from(p, sep@, i as int));
        }
        i = i + 1;
    }
    proof {
        assert(join_from(p, sep@, n as int) =~= Seq::<char>::empty());
        assert(out@ + Seq::<char>::empty() =~= out@);
    }
    out
}

/// A decimal digit.
pub open spec fn is_digit(c: char) -> bool {
    48 <= c as u32 <= 57
}

/// The numeric value of a decimal digit.
pub open spec fn digit_val(c: char) -> int {
    c as u32 - 48
}

/// Index of the first occurrence of `c` in `s`, or `s.len()` if there is
/// none.
pub open spec fn first_of(s: Seq<char>, c: char) -> nat
    decreases s.len(),
{
    if s.len() == 0 {
        0
    } else if s[0] == c {
        0
    } else {
        first_of(s.drop_first(), c) + 1
    }
}

pub proof fn lemma_first_of_props(s: Seq<char>, c: char)
    ensures
        first_of(s, c) <= s.len(),
        forall|j: int| 0 <= j < first_of(s, c) ==> s[j] != c,
        first_of(s, c) < s.len() ==> s[first_of(s, c) as int] == c,
    decreases s.len(),
{
    if s.len() > 0 && s[0] != c {
        lemma_first_of_props(s.drop_first(), c);
        assert forall|j: int| 0 <= j < first_of(s, c) implies s[j] != c by {
            if j > 0 {
                assert(s.drop_first()[j - 1] == s[j]);
            }
        }
        if first_of(s, c) < s.len() {
            assert(s.drop_first()[first_of(s, c) - 1] == s[first_of(s, c) as int]);
        }
    }
}

pub proof fn lemma_first_of_exact(s: Seq<char>, c: char, k: int)
    requires
        0 <= k <= s.len(),
        forall|j: int| 0 <= j < k ==> s[j] != c,
        k < s.len() ==> s[k] == c,
    ensures
        first_of(s, c) == k,
    decreases s.len(),
{
    if k > 0 {
        assert forall|j: int| 0 <= j < k - 1 implies s.drop_first()[j] != c by {
            assert(s.drop_first()[j] == s[j + 1]);
        }
        if k - 1 < s.drop_first().len() {
            assert(s.drop_first()[k - 1] == s[k]);
        }
        lemma_first_of_exact(s.drop_first(), c, k - 1);
    }
}

/// Index of the first decimal digit in `s`, or `s.len()` if there is none.
pub open spec fn first_digit(s: Seq<char>) -> nat
    decreases s.len(),
{
    if s.len() == 0 {
        0
    } else if is_digit(s[0]) {
        0
    } else {
        first_digit(s.drop_first()) + 1
    }
}

pub proof fn lemma_first_digit_exact(s: Seq<char>, k: int)
    requires
        0 <= k <= s.len(),
        forall|j: int| 0 <= j < k ==> !is_digit(s[j]),
        k < s.len() ==> is_digit(s[k]),
    ensures
        first_digit(s) == k,
    decreases s.len(),
{
    if k > 0 {
        assert forall|j: int| 0 <= j < k - 1 implies !is_digit(s.drop_first()[j]) by {
            assert(s.drop_first()[j] == s[j + 1]);
        }
        if k - 1 < s.drop_first().len() {
            assert(s.drop_first()[k - 1] == s[k]);
        }
        lemma_first_digit_exact(s.drop_first(), k - 1);
    }
}

/// Length of the longest prefix of `s` made entirely of decimal digits.
pub open spec fn digit_run(s: Seq<char>) -> nat
    decreases s.len(),
{
    if s.len() > 0 && is_digit(s[0]) {
        digit_run(s.drop_first()) + 1
    } else {
        0
    }
}

pub proof fn lemma_digit_run_props(s: Seq<char>)
    ensures
        digit_run(s) <= s.len(),
        forall|j: int| 0 <= j < digit_run(s) ==> is_digit(s[j]),
        digit_run(s) < s.len() ==> !is_digit(s[digit_run(s) as int]),
    decreases s.len(),
{
    if s.len() > 0 && is_digit(s[0]) {
        lemma_digit_run_props(s.drop_first());
        assert forall|j: int| 0 <= j < digit_run(s) implies is_digit(s[j]) by {
            if j > 0 {
                assert(s.drop_first()[j - 1] == s[j]);
            }
        }
        if digit_run(s) < s.len() {
            assert(s.drop_first()[digit_run(s) - 1] == s[digit_run(s) as int]);
        }
    }
}

pub proof fn lemma_digit_run_exact(s: Seq<char>, k: int)
    requires
        0 <= k <= s.len(),
        forall|j: int| 0 <= j < k ==> is_digit(s[j]),
        k < s.len() ==> !is_digit(s[k]),
    ensures
        digit_run(s) == k,
    decreases s.len(),
{
    if k > 0 {
        assert(is_digit(s[0]));
        assert forall|j: int| 0 <= j < k - 1 implies is_digit(s.drop_first()[j]) by {
            assert(s.drop_first()[j] == s[j + 1]);
        }
        if k - 1 < s.drop_first().len() {
            assert(s.drop_first()[k - 1] == s[k]);
        }
        lemma_digit_run_exact(s.drop_first(), k - 1);
    }
}

/// Length of the longest prefix of `s` that contains no decimal digit.
pub open spec fn nondigit_run(s: Seq<char>) -> nat
    decreases s.len(),
{
    if s.len() > 0 && !is_digit(s[0]) {
        nondigit_run(s.drop_first()) + 1
    } else {
        0
    }
}

pub proof fn lemma_nondigit_run_exact(s: Seq<char>, k: int)
    requires
        0 <= k <= s.len(),
        forall|j: int| 0 <= j < k ==> !is_digit(s[j]),
        k < s.len() ==> is_digit(s[k]),
    ensures
        nondigit_run(s) == k,
    decreases s.len(),
{
    if k > 0 {
        assert forall|j: int| 0 <= j < k - 1 implies !is_digit(s.drop_first()[j]) by {
            assert(s.drop_first()[j] == s[j + 1]);
        }
        if k - 1 < s.drop_first().len() {
            assert(s.drop_first()[k - 1] == s[k]);
        }
        lemma_nondigit_run_exact(s.drop_first(), k - 1);
    }
}

/// Index of the last closing parenthesis in `s`, or -1 if there is none.
pub open spec fn last_close(s: Seq<char>) -> int
    decreases s.len(),
{
    if s.len() == 0 {
        -1
    } else if s.last() == ')' {
        s.len() - 1
    } else {
        last_close(s.drop_last())
    }
}

pub proof fn lemma_last_close_exact(s: Seq<char>, k: int)
    requires
        -1 <= k < s.len(),
        k >= 0 ==> s[k] == ')',
        forall|j: int| k < j < s.len() ==> s[j] != ')',
    ensures
        last_close(s) == k,
    decreases s.len(),
{
    if s.len() > 0 {
        if s.last() == ')' {
            assert(k == s.len() - 1);
        } else {
            assert(k < s.len() - 1);
            assert forall|j: int| k < j < s.drop_last().len() implies s.drop_last()[j] != ')' by {
                assert(s.drop_last()[j] == s[j]);
            }
            if k >= 0 {
                assert(s.drop_last()[k] == s[k]);
            }
            lemma_last_close_exact(s.drop_last(), k);
        }
    }
}

/// The number denoted by a sequence of decimal digits, most significant
/// first. An empty sequence denotes zero.
pub open spec fn digits_val(s: Seq<char>) -> int
    decreases s.len(),
{
    if s.len() == 0 {
        0
    } else {
        digits_val(s.drop_last()) * 10 + digit_val(s.last())
    }
}

/// The value of a digit sequence is non-negative and grows (weakly) with
/// every digit appended.
pub proof fn lemma_digits_val_nonneg(s: Seq<char>)
    requires
        forall|j: int| 0 <= j < s.len() ==> is_digit(s[j]),
    ensures
        digits_val(s) >= 0,
    decreases s.len(),
{
    if s.len() > 0 {
        assert forall|j: int| 0 <= j < s.drop_last().len() implies is_digit(s.drop_last()[j]) by {
            assert(s.drop_last()[j] == s[j]);
        }
        lemma_digits_val_nonneg(s.drop_last());
        assert(is_digit(s.last()));
    }
}

/// Extending a digit sequence on the right never decreases its value.
pub proof fn lemma_digits_val_prefix_le(s: Seq<char>, i: int)
    requires
        0 <= i <= s.len(),
        forall|j: int| 0 <= j < s.len() ==> is_digit(s[j]),
    ensures
        digits_val(s.take(i)) <= digits_val(s),
    decreases s.len() - i,
{
    if i < s.len() {
        lemma_digits_val_prefix_le(s, i + 1);
        let t = s.take(i + 1);
        assert(t.drop_last() =~= s.take(i));
        assert(t.last() == s[i]);
        assert forall|j: int| 0 <= j < s.take(i).len() implies is_digit(s.take(i)[j]) by {
            assert(s.take(i)[j] == s[j]);
        }
        lemma_digits_val_nonneg(s.take(i));
        assert(is_digit(s[i]));
        assert(digits_val(s.take(i)) <= digits_val(s.take(i)) * 10 + digit_val(t.last()));
    } else {
        assert(s.take(i) =~= s);
    }
}

} // verus!
