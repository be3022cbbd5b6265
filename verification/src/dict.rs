use vstd::prelude::*;
use crate::accent::accent_type_wf;
use crate::accent::classify;
use crate::accent::word_accents_wf;
use crate::accent::classify_spec;
use crate::accent::Accent;
use crate::accent::AccentType;
use crate::accent::AccentV;
use crate::accent::WordAccents;
use crate::accent::WordAccentsV;
use crate::kana::mora_count;
use crate::kana::KanaString;
use crate::scan::digit_run;
use crate::scan::digits_val;
use crate::scan::first_digit;
use crate::scan::first_of;
use crate::scan::is_digit;
use crate::scan::last_close;
use crate::scan::lemma_digit_run_exact;
use crate::scan::lemma_digit_run_props;
use crate::scan::lemma_digits_val_prefix_le;
use crate::scan::lemma_first_digit_exact;
use crate::scan::lemma_first_of_exact;
use crate::scan::lemma_first_of_props;
use crate::scan::lemma_last_close_exact;
use crate::scan::lemma_nondigit_run_exact;
use crate::scan::nondigit_run;
use vstd::string::StrSliceExecFns;
use vstd::string::StringExecFns;

verus! {

/// A dictionary key: the orthographic word of a row.
pub type Word = String;

/// What went wrong with one line of the dictionary resource.
#[derive(Debug, Clone, Copy, PartialEq, Eq, Structural)]
pub enum LoadErrorKind {
    /// The line does not have three tab-separated fields.
    MissingField,
    /// A code carries no digit run, or one too large to represent.
    MissingIndex,
    /// A code names a mid-word pitch drop past the end of the reading.
    IndexOutOfRange,
}

/// A malformed line in the dictionary resource, with its 1-based position
/// and its content.
#[derive(Debug, Clone)]
pub struct LoadError {
    pub line_number: usize,
    pub line: String,
    pub kind: LoadErrorKind,
}

/// Mathematical image of a `LoadError`.
pub ghost struct LoadErrorV {
    pub line_number: int,
    pub line: Seq<char>,
    pub kind: LoadErrorKind,
}

impl View for LoadError {
    type V = LoadErrorV;

    open spec fn view(&self) -> LoadErrorV {
        LoadErrorV { line_number: self.line_number as int, line: self.line@, kind: self.kind }
    }
}

/// The lines of the resource text: segments between newlines, each with a
/// carriage return stripped when it stood directly before the newline. A
/// final newline does not open an extra empty line.
pub open spec fn lines_spec(s: Seq<char>) -> Seq<Seq<char>>
    decreases s.len(),
{
    if s.len() == 0 {
        Seq::empty()
    } else {
        let j = if first_of(s, '\n') <= s.len() {
            first_of(s, '\n') as int
        } else {
            s.len() as int
        };
        let seg = s.take(j);
        if j == s.len() {
            seq![seg]
        } else {
            let line = if seg.len() > 0 && seg.last() == '\r' {
                seg.drop_last()
            } else {
                seg
            };
            seq![line] + lines_spec(s.skip(j + 1))
        }
    }
}

/// The three tab-separated fields of a row: word, reading and codes. The
/// codes field ends at the next tab or at the end of the line; anything
/// after a third tab is ignored. `None` when the line has fewer than three
/// fields.
pub open spec fn fields_spec(line: Seq<char>) -> Option<(Seq<char>, Seq<char>, Seq<char>)> {
    let t1 = first_of(line, '\t') as int;
    if t1 >= line.len() {
        None
    } else {
        let u1 = line.skip(t1 + 1);
        let t2 = first_of(u1, '\t') as int;
        if t2 >= u1.len() {
            None
        } else {
            let u2 = u1.skip(t2 + 1);
            let t3 = if first_of(u2, '\t') <= u2.len() {
                first_of(u2, '\t') as int
            } else {
                u2.len() as int
            };
            Some((line.take(t1), u1.take(t2), u2.take(t3)))
        }
    }
}

/// The comma-separated parts of the codes field. A field without commas is
/// one part; an empty field is one empty part.
pub open spec fn split_commas(s: Seq<char>) -> Seq<Seq<char>>
    decreases s.len(),
{
    let j = if first_of(s, ',') <= s.len() {
        first_of(s, ',') as int
    } else {
        s.len() as int
    };
    if j == s.len() {
        seq![s]
    } else {
        seq![s.take(j)] + split_commas(s.skip(j + 1))
    }
}

/// The raw accent index of one code: the value of the first digit run, or
/// `None` when the code holds no digit.
pub open spec fn index_spec(s: Seq<char>) -> Option<int> {
    let d0 = first_digit(s) as int;
    if d0 >= s.len() {
        None
    } else {
        Some(digits_val(s.skip(d0).take(digit_run(s.skip(d0)) as int)))
    }
}

/// The annotation captured by an opening parenthesis at position `i`: the
/// longest non-empty run of non-digits after it that is followed by a
/// closing parenthesis. `None` when no closing parenthesis fits.
pub open spec fn match_at(s: Seq<char>, i: int) -> Option<Seq<char>> {
    let u = s.skip(i + 1);
    let r = nondigit_run(u) as int;
    if r < 2 {
        None
    } else {
        let j = last_close(u.subrange(1, r));
        if j < 0 {
            None
        } else {
            Some(u.take(j + 1))
        }
    }
}

/// The first parenthesized annotation found at or after position `i`.
pub open spec fn find_note(s: Seq<char>, i: int) -> Option<Seq<char>>
    decreases s.len() - i,
{
    if !(0 <= i < s.len()) {
        None
    } else if s[i] == '(' && match_at(s, i) is Some {
        match_at(s, i)
    } else {
        find_note(s, i + 1)
    }
}

/// The annotation of one code: the first parenthesized run of non-digits.
pub open spec fn note_spec(s: Seq<char>) -> Option<Seq<char>> {
    find_note(s, 0)
}

/// The accent entries denoted by the comma-separated code parts, against the
/// mora count of the row's reading; or the first code's defect.
pub open spec fn accents_spec(parts: Seq<Seq<char>>, n_mora: nat) -> Result<
    Seq<AccentV>,
    LoadErrorKind,
>
    decreases parts.len(),
{
    if parts.len() == 0 {
        Ok(Seq::empty())
    } else {
        let code = parts[0];
        match index_spec(code) {
            Option::None => Err(LoadErrorKind::MissingIndex),
            Option::Some(ix) => {
                if ix > usize::MAX as int {
                    Err(LoadErrorKind::MissingIndex)
                } else {
                    let a = classify_spec(ix as nat, n_mora);
                    if !accent_type_wf(a, n_mora) {
                        Err(LoadErrorKind::IndexOutOfRange)
                    } else {
                        match accents_spec(parts.drop_first(), n_mora) {
                            Ok(rest) => Ok(
                                seq![AccentV { accent_type: a, note: note_spec(code) }] + rest,
                            ),
                            Err(e) => Err(e),
                        }
                    }
                }
            },
        }
    }
}

/// One row of the dictionary: its key and its reading with accent entries,
/// or the defect of the line. A row whose reading field is empty reads as
/// its word.
pub open spec fn row_spec(line: Seq<char>) -> Result<(Seq<char>, WordAccentsV), LoadErrorKind> {
    match fields_spec(line) {
        Option::None => Err(LoadErrorKind::MissingField),
        Option::Some((word, kana_field, codes)) => {
            let kana = if kana_field.len() == 0 {
                word
            } else {
                kana_field
            };
            match accents_spec(split_commas(codes), mora_count(kana)) {
                Ok(accs) => Ok((word, WordAccentsV { kana: kana, accents: accs })),
                Err(k) => Err(k),
            }
        },
    }
}

/// Adds one row under its word: appended to the word's existing entry if
/// the word is already a key, or opening a new entry at the end.
pub open spec fn insert_row(
    m: Seq<(Seq<char>, Seq<WordAccentsV>)>,
    word: Seq<char>,
    wa: WordAccentsV,
) -> Seq<(Seq<char>, Seq<WordAccentsV>)>
    decreases m.len(),
{
    if m.len() == 0 {
        seq![(word, seq![wa])]
    } else if m[0].0 == word {
        seq![(m[0].0, m[0].1.push(wa))] + m.drop_first()
    } else {
        seq![m[0]] + insert_row(m.drop_first(), word, wa)
    }
}

/// Folds the rows of the resource, line by line, into the dictionary; or the
/// first malformed line with its 1-based position.
pub open spec fn load_lines_spec(
    lines: Seq<Seq<char>>,
    i: int,
    acc: Seq<(Seq<char>, Seq<WordAccentsV>)>,
) -> Result<Seq<(Seq<char>, Seq<WordAccentsV>)>, LoadErrorV>
    decreases lines.len() - i,
{
    if !(0 <= i < lines.len()) {
        Ok(acc)
    } else {
        match row_spec(lines[i]) {
            Ok(p) => load_lines_spec(lines, i + 1, insert_row(acc, p.0, p.1)),
            Err(k) => Err(LoadErrorV { line_number: i + 1, line: lines[i], kind: k }),
        }
    }
}

/// The dictionary denoted by a resource text, or its first defect.
pub open spec fn load_spec(text: Seq<char>) -> Result<
    Seq<(Seq<char>, Seq<WordAccentsV>)>,
    LoadErrorV,
> {
    load_lines_spec(lines_spec(text), 0, Seq::empty())
}

/// No two entries of the dictionary share a word.
pub open spec fn distinct_keys(m: Seq<(Seq<char>, Seq<WordAccentsV>)>) -> bool {
    forall|i: int, j: int| 0 <= i < j < m.len() ==> m[i].0 != m[j].0
}

/// Every accent pattern of every row respects the mora count of the row's
/// reading.
pub open spec fn rows_wf(m: Seq<(Seq<char>, Seq<WordAccentsV>)>) -> bool {
    forall|i: int, j: int|
        0 <= i < m.len() && 0 <= j < m[i].1.len() ==> word_accents_wf(#[trigger] m[i].1[j])
}

/// Accent entries that parsed successfully all respect the mora count they
/// were classified against.
proof fn lemma_accents_spec_wf(parts: Seq<Seq<char>>, n: nat, accs: Seq<AccentV>)
    requires
        accents_spec(parts, n) == Ok::<Seq<AccentV>, LoadErrorKind>(accs),
    ensures
        forall|k: int| 0 <= k < accs.len() ==> accent_type_wf(#[trigger] accs[k].accent_type, n),
    decreases parts.len(),
{
    if parts.len() > 0 {
        let rest = accents_spec(parts.drop_first(), n);
        if rest is Ok {
            lemma_accents_spec_wf(parts.drop_first(), n, rest->Ok_0);
            assert forall|k: int| 0 <= k < accs.len() implies accent_type_wf(
                #[trigger] accs[k].accent_type,
                n,
            ) by {
                if k > 0 {
                    assert(accs[k] == rest->Ok_0[k - 1]);
                }
            }
        }
    }
}

/// A row that parsed successfully is well formed.
proof fn lemma_row_spec_wf(line: Seq<char>, word: Seq<char>, wa: WordAccentsV)
    requires
        row_spec(line) == Ok::<(Seq<char>, WordAccentsV), LoadErrorKind>((word, wa)),
    ensures
        word_accents_wf(wa),
{
    let f = fields_spec(line);
    let kana = if f->Some_0.1.len() == 0 {
        f->Some_0.0
    } else {
        f->Some_0.1
    };
    let accs = accents_spec(split_commas(f->Some_0.2), mora_count(kana));
    lemma_accents_spec_wf(split_commas(f->Some_0.2), mora_count(kana), accs->Ok_0);
}

/// Inserting a well-formed row keeps the dictionary's keys distinct and its
/// rows well formed.
proof fn lemma_insert_row_preserves(
    m: Seq<(Seq<char>, Seq<WordAccentsV>)>,
    word: Seq<char>,
    wa: WordAccentsV,
)
    requires
        distinct_keys(m),
        rows_wf(m),
        word_accents_wf(wa),
    ensures
        distinct_keys(insert_row(m, word, wa)),
        rows_wf(insert_row(m, word, wa)),
{
    if exists|j: int| 0 <= j < m.len() && m[j].0 == word {
        let j = choose|j: int| 0 <= j < m.len() && m[j].0 == word;
        assert forall|k: int| 0 <= k < j implies m[k].0 != word by {
            if m[k].0 == word {
                assert(m[k].0 != m[j].0);
            }
        }
        lemma_insert_row_found(m, word, wa, j);
        let r = insert_row(m, word, wa);
        assert(r =~= m.update(j, (m[j].0, m[j].1.push(wa))));
        assert forall|i: int, k: int|
            0 <= i < r.len() && 0 <= k < r[i].1.len() implies word_accents_wf(
            #[trigger] r[i].1[k],
        ) by {
            if i == j {
                if k < m[j].1.len() {
                    assert(r[i].1[k] == m[j].1[k]);
                } else {
                    assert(r[i].1[k] == wa);
                }
            } else {
                assert(r[i] == m[i]);
            }
        }
    } else {
        lemma_insert_row_absent(m, word, wa);
        let r = insert_row(m, word, wa);
        assert(r =~= m.push((word, seq![wa])));
        assert forall|i: int, k: int|
            0 <= i < r.len() && 0 <= k < r[i].1.len() implies word_accents_wf(
            #[trigger] r[i].1[k],
        ) by {
            if i < m.len() {
                assert(r[i] == m[i]);
            } else {
                assert(r[i].1[k] == wa);
            }
        }
    }
}

/// Folding well-formed rows into a dictionary with distinct keys gives a
/// dictionary with distinct keys and well-formed rows.
proof fn lemma_load_lines_wf(
    lines: Seq<Seq<char>>,
    i: int,
    acc: Seq<(Seq<char>, Seq<WordAccentsV>)>,
    m: Seq<(Seq<char>, Seq<WordAccentsV>)>,
)
    requires
        distinct_keys(acc),
        rows_wf(acc),
        load_lines_spec(lines, i, acc) == Ok::<Seq<(Seq<char>, Seq<WordAccentsV>)>, LoadErrorV>(m),
    ensures
        distinct_keys(m),
        rows_wf(m),
    decreases lines.len() - i,
{
    if 0 <= i < lines.len() {
        let row = row_spec(lines[i]);
        match row {
            Ok(p) => {
                lemma_row_spec_wf(lines[i], p.0, p.1);
                lemma_insert_row_preserves(acc, p.0, p.1);
                lemma_load_lines_wf(lines, i + 1, insert_row(acc, p.0, p.1), m);
            },
            Err(_) => {},
        }
    }
}

/// The invariants of a loaded dictionary: no two entries share a word, and
/// every accent pattern respects the mora count of its row's reading — a
/// mid-word drop lies strictly between the second mora and the end.
pub proof fn lemma_load_wf(text: Seq<char>, m: Seq<(Seq<char>, Seq<WordAccentsV>)>)
    requires
        load_spec(text) == Ok::<Seq<(Seq<char>, Seq<WordAccentsV>)>, LoadErrorV>(m),
    ensures
        distinct_keys(m),
        rows_wf(m),
{
    lemma_load_lines_wf(lines_spec(text), 0, Seq::empty(), m);
}

/// Executable test for a decimal digit.
fn is_digit_char(c: char) -> (r: bool)
    ensures
        r == is_digit(c),
{
    let u = c as u32;
    48 <= u && u <= 57
}

/// Position of the first occurrence of `c` in `s` at or after `from`, or
/// `len` when there is none.
fn find_char_from(s: &str, len: usize, from: usize, c: char) -> (r: usize)
    requires
        len == s@.len(),
        from <= len,
    ensures
        from <= r <= len,
        r - from == first_of(s@.skip(from as int), c),
        r < len ==> s@[r as int] == c,
        forall|j: int| from <= j < r ==> s@[j] != c,
{
    let mut i: usize = from;
    while i < len
        invariant
            from <= i <= len,
            len == s@.len(),
            forall|j: int| from <= j < i ==> s@[j] != c,
        decreases len - i,
    {
        if s.get_char(i) == c {
            proof {
                let u = s@.skip(from as int);
                assert forall|j: int| 0 <= j < i - from implies u[j] != c by {
                    assert(u[j] == s@[from + j]);
                }
                assert(u[i - from] == s@[i as int]);
                lemma_first_of_exact(u, c, i - from);
            }
            return i;
        }
        i = i + 1;
    }
    proof {
        let u = s@.skip(from as int);
        assert forall|j: int| 0 <= j < len - from implies u[j] != c by {
            assert(u[j] == s@[from + j]);
        }
        lemma_first_of_exact(u, c, len - from);
    }
    len
}

/// Divides the resource text into lines.
fn split_lines(text: &str) -> (lines: Vec<String>)
    ensures
        lines.deep_view() == lines_spec(text@),
{
    let len = text.unicode_len();
    let mut lines: Vec<String> = Vec::new();
    let mut start: usize = 0;
    proof {
        assert(lines.deep_view() =~= Seq::<Seq<char>>::empty());
        assert(text@.skip(0) =~= text@);
        assert(Seq::<Seq<char>>::empty() + lines_spec(text@) =~= lines_spec(text@));
    }
    while start < len
        invariant
            start <= len,
            len == text@.len(),
            lines_spec(text@) == lines.deep_view() + lines_spec(text@.skip(start as int)),
        decreases len - start,
    {
        let j = find_char_from(text, len, start, '\n');
        let seg_end = if j > start && text.get_char(j - 1) == '\r' && j < len {
            j - 1
        } else {
            j
        };
        let line = String::from_str(text.substring_char(start, seg_end));
        proof {
            let u = text@.skip(start as int);
            lemma_first_of_props(u, '\n');
            let ju = j - start;
            let seg = u.take(ju);
            assert(seg =~= text@.subrange(start as int, j as int));
            if j < len {
                if seg.len() > 0 && seg.last() == '\r' {
                    assert(seg.drop_last() =~= text@.subrange(start as int, j - 1));
                    assert(seg.last() == text@[j - 1]);
                } else {
                }
            }
            assert(line@ == if j < len && seg.len() > 0 && seg.last() == '\r' {
                seg.drop_last()
            } else {
                seg
            });
            if j < len {
                assert(u.skip(ju + 1) =~= text@.skip(j + 1));
                assert(lines_spec(u) == seq![line@] + lines_spec(text@.skip(j + 1)));
            } else {
                assert(lines_spec(u) == seq![line@]);
                assert(text@.skip(len as int) =~= Seq::<char>::empty());
                assert(seq![line@] =~= seq![line@] + lines_spec(text@.skip(len as int)));
            }
        }
        let ghost old_dv = lines.deep_view();
        lines.push(line);
        proof {
            assert(lines.deep_view() =~= old_dv.push(line@));
            assert(old_dv.push(line@) + lines_spec(text@.skip(j + 1)) =~= old_dv + (seq![line@]
                + lines_spec(text@.skip(j + 1))));
        }
        start = if j < len {
            j + 1
        } else {
            len
        };
    }
    proof {
        assert(text@.skip(len as int) =~= Seq::<char>::empty());
        assert(lines.deep_view() + lines_spec(Seq::<char>::empty()) =~= lines.deep_view());
    }
    lines
}

/// Divides a row into its word, reading and codes fields.
fn split_fields(line: &str) -> (r: Option<(String, String, String)>)
    ensures
        match r {
            Some(f) => fields_spec(line@) == Some((f.0@, f.1@, f.2@)),
            None => fields_spec(line@) is None,
        },
{
    let len = line.unicode_len();
    proof {
        assert(line@.skip(0) =~= line@);
    }
    let t1 = find_char_from(line, len, 0, '\t');
    if t1 == len {
        return None;
    }
    let t2 = find_char_from(line, len, t1 + 1, '\t');
    proof {
        assert(line@.skip(t1 + 1).len() == len - t1 - 1);
    }
    if t2 == len {
        return None;
    }
    let t3 = find_char_from(line, len, t2 + 1, '\t');
    let word = String::from_str(line.substring_char(0, t1));
    let kana = String::from_str(line.substring_char(t1 + 1, t2));
    let codes = String::from_str(line.substring_char(t2 + 1, t3));
    proof {
        let u1 = line@.skip(t1 + 1);
        let u2 = u1.skip(t2 - t1);
        assert(u2 =~= line@.skip(t2 + 1));
        assert(first_of(u1, '\t') == t2 - (t1 + 1));
        assert(first_of(u2, '\t') == t3 - (t2 + 1));
        assert(word@ =~= line@.take(t1 as int));
        assert(kana@ =~= u1.take(t2 - (t1 + 1)));
        assert(codes@ =~= u2.take(t3 - (t2 + 1)));
    }
    Some((word, kana, codes))
}

/// Divides the codes field at its commas.
fn split_codes(codes: &str) -> (parts: Vec<String>)
    ensures
        parts.deep_view() == split_commas(codes@),
{
    let len = codes.unicode_len();
    let mut parts: Vec<String> = Vec::new();
    let mut start: usize = 0;
    proof {
        assert(parts.deep_view() =~= Seq::<Seq<char>>::empty());
        assert(codes@.skip(0) =~= codes@);
        assert(Seq::<Seq<char>>::empty() + split_commas(codes@) =~= split_commas(codes@));
    }
    loop
        invariant_except_break
            start <= len,
            len == codes@.len(),
            split_commas(codes@) == parts.deep_view() + split_commas(codes@.skip(start as int)),
        ensures
            parts.deep_view() == split_commas(codes@),
        decreases len - start,
    {
        let j = find_char_from(codes, len, start, ',');
        let piece = String::from_str(codes.substring_char(start, j));
        proof {
            let u = codes@.skip(start as int);
            lemma_first_of_props(u, ',');
            assert(piece@ =~= u.take(j - start));
            if j < len {
                assert(u.skip(j - start + 1) =~= codes@.skip(j + 1));
                assert(split_commas(u) == seq![piece@] + split_commas(codes@.skip(j + 1)));
            } else {
                assert(piece@ =~= u);
                assert(split_commas(u) == seq![piece@]);
            }
        }
        let ghost old_dv = parts.deep_view();
        parts.push(piece);
        proof {
            assert(parts.deep_view() =~= old_dv.push(piece@));
        }
        if j == len {
            proof {
                assert(old_dv.push(piece@) =~= old_dv + seq![piece@]);
            }
            break;
        }
        proof {
            assert(old_dv.push(piece@) + split_commas(codes@.skip(j + 1)) =~= old_dv + (seq![piece@]
                + split_commas(codes@.skip(j + 1))));
        }
        start = j + 1;
    }
    parts
}

/// Position of the first decimal digit in `s`, or `len` when there is none.
fn find_first_digit(s: &str, len: usize) -> (r: usize)
    requires
        len == s@.len(),
    ensures
        r <= len,
        r as nat == first_digit(s@),
        r < len ==> is_digit(s@[r as int]),
{
    let mut i: usize = 0;
    while i < len
        invariant
            i <= len,
            len == s@.len(),
            forall|j: int| 0 <= j < i ==> !is_digit(s@[j]),
        decreases len - i,
    {
        if is_digit_char(s.get_char(i)) {
            proof {
                lemma_first_digit_exact(s@, i as int);
            }
            return i;
        }
        i = i + 1;
    }
    proof {
        lemma_first_digit_exact(s@, len as int);
    }
    len
}

/// The raw accent index of one code: the value of its first digit run.
/// `None` when the code has no digit, or the run's value does not fit.
fn parse_index(code: &str) -> (r: Option<usize>)
    ensures
        match r {
            Some(v) => index_spec(code@) == Some(v as int),
            None => index_spec(code@) is None || (index_spec(code@) matches Option::Some(w) && w
                > usize::MAX as int),
        },
{
    let len = code.unicode_len();
    let d0 = find_first_digit(code, len);
    if d0 == len {
        return None;
    }
    let ghost run = code@.skip(d0 as int).take(digit_run(code@.skip(d0 as int)) as int);
    proof {
        lemma_digit_run_props(code@.skip(d0 as int));
    }
    let mut i: usize = d0;
    let mut v: usize = 0;
    while i < len && is_digit_char(code.get_char(i))
        invariant
            d0 <= i <= len,
            len == code@.len(),
            d0 < len,
            d0 as nat == first_digit(code@),
            is_digit(code@[d0 as int]),
            run == code@.skip(d0 as int).take(digit_run(code@.skip(d0 as int)) as int),
            forall|j: int| d0 <= j < i ==> is_digit(code@[j]),
            v as int == digits_val(code@.subrange(d0 as int, i as int)),
        decreases len - i,
    {
        let c = code.get_char(i);
        let d = (c as u32 - 48) as usize;
        proof {
            let t = code@.subrange(d0 as int, i + 1);
            assert(t.drop_last() =~= code@.subrange(d0 as int, i as int));
            assert(t.last() == code@[i as int]);
            assert(digits_val(t) == (v as int) * 10 + (d as int));
        }
        if v > usize::MAX / 10 || (v == usize::MAX / 10 && d > usize::MAX % 10) {
            proof {
                let u = code@.skip(d0 as int);
                assert((v as int) * 10 + (d as int) > usize::MAX as int) by {
                    assert(usize::MAX as int == (usize::MAX as int / 10) * 10 + (
                    usize::MAX as int % 10));
                };
                lemma_digit_run_props(u);
                assert(run == u.take(digit_run(u) as int));
                assert forall|j: int| d0 <= j <= i implies is_digit(code@[j]) by {}
                assert(digit_run(u) >= i + 1 - d0) by {
                    if digit_run(u) < i + 1 - d0 {
                        assert(u[digit_run(u) as int] == code@[d0 + digit_run(u)]);
                    }
                }
                assert(run.take(i + 1 - d0) =~= code@.subrange(d0 as int, i + 1));
                assert forall|j: int| 0 <= j < run.len() implies is_digit(run[j]) by {
                    assert(run[j] == u[j]);
                }
                lemma_digits_val_prefix_le(run, i + 1 - d0);
                assert(index_spec(code@) == Some(digits_val(run)));
            }
            return None;
        }
        proof {
            assert((v as int) * 10 + (d as int) <= usize::MAX as int) by {
                assert(usize::MAX as int == (usize::MAX as int / 10) * 10 + (usize::MAX as int
                    % 10));
            };
        }
        v = v * 10 + d;
        i = i + 1;
    }
    proof {
        let u = code@.skip(d0 as int);
        assert forall|j: int| 0 <= j < i - d0 implies is_digit(u[j]) by {
            assert(u[j] == code@[d0 + j]);
        }
        if i < len {
            assert(u[i - d0] == code@[i as int]);
        }
        lemma_digit_run_exact(u, i - d0);
        assert(run =~= code@.subrange(d0 as int, i as int));
        assert(index_spec(code@) == Some(digits_val(run)));
    }
    Some(v)
}

/// The annotation of one code: the first parenthesized run of non-digits,
/// or `None` when the code carries no such annotation.
fn parse_note(code: &str) -> (r: Option<String>)
    ensures
        match r {
            Some(s) => note_spec(code@) == Some(s@),
            None => note_spec(code@) is None,
        },
{
    let len = code.unicode_len();
    let mut i: usize = 0;
    while i < len
        invariant
            i <= len,
            len == code@.len(),
            find_note(code@, 0) == find_note(code@, i as int),
        decreases len - i,
    {
        let c = code.get_char(i);
        if c == '(' {
            let mut e: usize = i + 1;
            while e < len && !is_digit_char(code.get_char(e))
                invariant
                    i + 1 <= e <= len,
                    len == code@.len(),
                    forall|j: int| i + 1 <= j < e ==> !is_digit(code@[j]),
                decreases len - e,
            {
                e = e + 1;
            }
            let ghost u = code@.skip(i + 1);
            proof {
                assert forall|j: int| 0 <= j < e - i - 1 implies !is_digit(u[j]) by {
                    assert(u[j] == code@[i + 1 + j]);
                }
                if e < len {
                    assert(u[e - i - 1] == code@[e as int]);
                }
                lemma_nondigit_run_exact(u, e - i - 1);
            }
            let r = e - (i + 1);
            if r >= 2 {
                let ghost w = u.subrange(1, r as int);
                let mut k: usize = e;
                while k > i + 2
                    invariant
                        i + 2 <= k <= e,
                        e <= len,
                        len == code@.len(),
                        i < len,
                        code@[i as int] == '(',
                        find_note(code@, 0) == find_note(code@, i as int),
                        u == code@.skip(i + 1),
                        r == e - i - 1,
                        2 <= r,
                        nondigit_run(u) == r as nat,
                        w == u.subrange(1, r as int),
                        forall|p: int| k <= p < e ==> code@[p] != ')',
                    decreases k,
                {
                    if code.get_char(k - 1) == ')' {
                        let cap = String::from_str(code.substring_char(i + 1, k - 1));
                        proof {
                            assert(w.len() == r - 1);
                            assert forall|j: int| k - i - 3 < j < w.len() implies w[j] != ')' by {
                                assert(w[j] == code@[i + 2 + j]);
                            }
                            assert(w[k - i - 3] == code@[k - 1]);
                            lemma_last_close_exact(w, k - i - 3);
                            assert(u.take(k - i - 2) =~= code@.subrange(i + 1, k - 1));
                            assert(match_at(code@, i as int) == Some(cap@));
                            assert(find_note(code@, i as int) == Some(cap@));
                        }
                        return Some(cap);
                    }
                    proof {
                        assert(code@[k - 1] != ')');
                    }
                    k = k - 1;
                }
                proof {
                    assert forall|j: int| -1 < j < w.len() implies w[j] != ')' by {
                        assert(w[j] == code@[i + 2 + j]);
                    }
                    lemma_last_close_exact(w, -1);
                    assert(match_at(code@, i as int) is None);
                }
            } else {
                proof {
                    assert(match_at(code@, i as int) is None);
                }
            }
        }
        proof {
            assert(find_note(code@, i as int) == find_note(code@, i as int + 1));
        }
        i = i + 1;
    }
    proof {
        assert(find_note(code@, len as int) is None);
    }
    None
}

/// `insert_row` on a map whose first entry for `word` stands at `j` updates
/// that entry in place.
proof fn lemma_insert_row_found(
    m: Seq<(Seq<char>, Seq<WordAccentsV>)>,
    word: Seq<char>,
    wa: WordAccentsV,
    j: int,
)
    requires
        0 <= j < m.len(),
        m[j].0 == word,
        forall|k: int| 0 <= k < j ==> m[k].0 != word,
    ensures
        insert_row(m, word, wa) =~= m.update(j, (m[j].0, m[j].1.push(wa))),
    decreases m.len(),
{
    if j == 0 {
        assert(insert_row(m, word, wa) =~= m.update(0, (m[0].0, m[0].1.push(wa))));
    } else {
        assert(m[0].0 != word);
        assert forall|k: int| 0 <= k < j - 1 implies m.drop_first()[k].0 != word by {
            assert(m.drop_first()[k] == m[k + 1]);
        }
        assert(m.drop_first()[j - 1] == m[j]);
        lemma_insert_row_found(m.drop_first(), word, wa, j - 1);
        assert(insert_row(m, word, wa) =~= m.update(j, (m[j].0, m[j].1.push(wa))));
    }
}

/// `insert_row` on a map without an entry for `word` opens one at the end.
proof fn lemma_insert_row_absent(
    m: Seq<(Seq<char>, Seq<WordAccentsV>)>,
    word: Seq<char>,
    wa: WordAccentsV,
)
    requires
        forall|k: int| 0 <= k < m.len() ==> m[k].0 != word,
    ensures
        insert_row(m, word, wa) =~= m.push((word, seq![wa])),
    decreases m.len(),
{
    if m.len() == 0 {
        assert(insert_row(m, word, wa) =~= m.push((word, seq![wa])));
    } else {
        assert forall|k: int| 0 <= k < m.drop_first().len() implies m.drop_first()[k].0 != word by {
            assert(m.drop_first()[k] == m[k + 1]);
        }
        lemma_insert_row_absent(m.drop_first(), word, wa);
        assert(insert_row(m, word, wa) =~= m.push((word, seq![wa])));
    }
}

/// Parses the comma-separated code parts of one row into accent entries,
/// against the mora count of the row's reading.
fn parse_accents(parts: &Vec<String>, n_mora: usize) -> (r: Result<Vec<Accent>, LoadErrorKind>)
    ensures
        match r {
            Ok(accs) => accents_spec(parts.deep_view(), n_mora as nat) == Ok::<
                Seq<AccentV>,
                LoadErrorKind,
            >(accs.deep_view()),
            Err(k) => accents_spec(parts.deep_view(), n_mora as nat) == Err::<
                Seq<AccentV>,
                LoadErrorKind,
            >(k),
        },
{
    let ghost p = parts.deep_view();
    let np = parts.len();
    let mut accents: Vec<Accent> = Vec::new();
    let mut pi: usize = 0;
    proof {
        assert(p.skip(0) =~= p);
        assert(accents.deep_view() =~= Seq::<AccentV>::empty());
        if accents_spec(p, n_mora as nat) is Ok {
            let rest = accents_spec(p, n_mora as nat)->Ok_0;
            assert(Seq::<AccentV>::empty() + rest =~= rest);
        }
    }
    while pi < np
        invariant
            pi <= np,
            np == parts@.len(),
            p == parts.deep_view(),
            match accents_spec(p.skip(pi as int), n_mora as nat) {
                Ok(rest) => accents_spec(p, n_mora as nat) == Ok::<Seq<AccentV>, LoadErrorKind>(
                    accents.deep_view() + rest,
                ),
                Err(k) => accents_spec(p, n_mora as nat) == Err::<Seq<AccentV>, LoadErrorKind>(k),
            },
        decreases np - pi,
    {
        let code: &String = &parts[pi];
        proof {
            assert(p[pi as int] == parts@[pi as int].deep_view());
            assert(p.skip(pi as int)[0] == p[pi as int]);
            assert(p.skip(pi as int).drop_first() =~= p.skip(pi as int + 1));
        }
        let ix = match parse_index(code.as_str()) {
            Some(ix) => ix,
            None => {
                return Err(LoadErrorKind::MissingIndex);
            },
        };
        let a = classify(ix, n_mora);
        let wf = match a {
            AccentType::Nakadaka(d) => 2 <= d && d < n_mora,
            _ => true,
        };
        if !wf {
            return Err(LoadErrorKind::IndexOutOfRange);
        }
        let note = parse_note(code.as_str());
        let ghost old_dv = accents.deep_view();
        let ghost av = AccentV {
            accent_type: classify_spec(ix as nat, n_mora as nat),
            note: note_spec(code@),
        };
        accents.push(Accent { accent_type: a, note });
        proof {
            assert(accents.deep_view() =~= old_dv.push(av));
            let rest_now = accents_spec(p.skip(pi as int + 1), n_mora as nat);
            assert(accents_spec(p.skip(pi as int), n_mora as nat) == (match rest_now {
                Ok(rest) => Ok::<Seq<AccentV>, LoadErrorKind>(seq![av] + rest),
                Err(k) => Err::<Seq<AccentV>, LoadErrorKind>(k),
            }));
            if rest_now is Ok {
                assert(old_dv + (seq![av] + rest_now->Ok_0) =~= old_dv.push(av) + rest_now->Ok_0);
            }
        }
        pi = pi + 1;
    }
    proof {
        assert(p.skip(np as int) =~= Seq::<Seq<char>>::empty());
        assert(accents.deep_view() + Seq::<AccentV>::empty() =~= accents.deep_view());
    }
    Ok(accents)
}

/// Parses one line of the resource into its word and its reading with
/// accent entries.
fn parse_row(line: &String) -> (r: Result<(Word, WordAccents), LoadErrorKind>)
    ensures
        match r {
            Ok(p) => row_spec(line@) == Ok::<(Seq<char>, WordAccentsV), LoadErrorKind>(
                (p.0@, p.1@),
            ),
            Err(k) => row_spec(line@) == Err::<(Seq<char>, WordAccentsV), LoadErrorKind>(k),
        },
{
    let f = match split_fields(line.as_str()) {
        Some(f) => f,
        None => {
            return Err(LoadErrorKind::MissingField);
        },
    };
    let (word, kana_field, codes) = f;
    let kana = KanaString(
        if kana_field.as_str().is_empty() {
            word.clone()
        } else {
            kana_field
        },
    );
    let morae = kana.iter_mora();
    let n_mora = morae.len();
    proof {
        assert(morae.deep_view().len() == morae@.len());
        assert(n_mora as nat == mora_count(kana@));
    }
    let parts = split_codes(codes.as_str());
    let accents = match parse_accents(&parts, n_mora) {
        Ok(accs) => accs,
        Err(k) => {
            return Err(k);
        },
    };
    let wa = WordAccents { kana, accents };
    Ok((word, wa))
}

/// Position of the first entry keyed by `word`, or `None` when no entry is.
fn find_entry(entries: &Vec<(Word, Vec<WordAccents>)>, word: &Word) -> (r: Option<usize>)
    ensures
        match r {
            Some(j) => j < entries@.len() && entries.deep_view()[j as int].0 == word@ && forall|
                k: int,
            | 0 <= k < j ==> entries.deep_view()[k].0 != word@,
            None => forall|k: int| 0 <= k < entries@.len() ==> entries.deep_view()[k].0 != word@,
        },
{
    let n = entries.len();
    let mut i: usize = 0;
    while i < n
        invariant
            i <= n,
            n == entries@.len(),
            forall|k: int| 0 <= k < i ==> entries.deep_view()[k].0 != word@,
        decreases n - i,
    {
        proof {
            assert(entries.deep_view()[i as int] == entries@[i as int].deep_view());
        }
        if entries[i].0 == *word {
            return Some(i);
        }
        i = i + 1;
    }
    None
}

/// Builds the accent dictionary from the resource text: one row per line,
/// three tab-separated fields (word, reading, comma-separated accent codes).
/// The first malformed line is reported with its content and 1-based
/// position.
pub fn load_accents(resource: &str) -> (r: Result<AccentMap, LoadError>)
    ensures
        match r {
            Ok(m) => load_spec(resource@) == Ok::<Seq<(Seq<char>, Seq<WordAccentsV>)>, LoadErrorV>(
                m@,
            ),
            Err(e) => load_spec(resource@) == Err::<
                Seq<(Seq<char>, Seq<WordAccentsV>)>,
                LoadErrorV,
            >(e@),
        },
{
    let lines = split_lines(resource);
    let ghost ldv = lines.deep_view();
    let n = lines.len();
    let mut entries: Vec<(Word, Vec<WordAccents>)> = Vec::new();
    let mut li: usize = 0;
    proof {
        assert(ldv.len() == lines@.len());
        assert(entries.deep_view() =~= Seq::<(Seq<char>, Seq<WordAccentsV>)>::empty());
    }
    while li < n
        invariant
            li <= n,
            n == lines@.len(),
            ldv == lines.deep_view(),
            ldv == lines_spec(resource@),
            load_spec(resource@) == load_lines_spec(ldv, li as int, entries.deep_view()),
        decreases n - li,
    {
        let line: &String = &lines[li];
        proof {
            assert(ldv[li as int] == lines@[li as int]@);
        }
        match parse_row(line) {
            Ok(p) => {
                let (word, wa) = p;
                let ghost w0 = word@;
                let ghost wav = wa@;
                let ghost old_dv = entries.deep_view();
                match find_entry(&entries, &word) {
                    Some(j) => {
                        let ghost old_pair = entries@[j as int];
                        entries[j].1.push(wa);
                        proof {
                            assert(entries@[j as int].1@ == old_pair.1@.push(wa));
                            assert(entries@[j as int].1.deep_view() =~= old_pair.1.deep_view().push(
                                wav,
                            ));
                            assert(entries.deep_view() =~= old_dv.update(
                                j as int,
                                (old_dv[j as int].0, old_dv[j as int].1.push(wav)),
                            ));
                            lemma_insert_row_found(old_dv, w0, wav, j as int);
                            assert(entries.deep_view() =~= insert_row(old_dv, w0, wav));
                        }
                    },
                    None => {
                        let mut rows: Vec<WordAccents> = Vec::new();
                        rows.push(wa);
                        proof {
                            assert(rows.deep_view() =~= seq![wav]);
                        }
                        entries.push((word, rows));
                        proof {
                            lemma_insert_row_absent(old_dv, w0, wav);
                            assert(entries.deep_view() =~= old_dv.push((w0, seq![wav])));
                            assert(entries.deep_view() =~= insert_row(old_dv, w0, wav));
                        }
                    },
                }
                proof {
                    assert(load_lines_spec(ldv, li as int, old_dv) == load_lines_spec(
                        ldv,
                        li as int + 1,
                        insert_row(old_dv, w0, wav),
                    ));
                }
            },
            Err(k) => {
                let err = LoadError { line_number: li + 1, line: line.clone(), kind: k };
                proof {
                    assert(load_lines_spec(ldv, li as int, entries.deep_view()) == Err::<
                        Seq<(Seq<char>, Seq<WordAccentsV>)>,
                        LoadErrorV,
                    >(LoadErrorV { line_number: li + 1, line: ldv[li as int], kind: k }));
                }
                return Err(err);
            },
        }
        li = li + 1;
    }
    let m = AccentMap { entries };
    Ok(m)
}

/// The accent dictionary: rows grouped under their word, words in the order
/// of their first source row, rows of one word in source order.
#[derive(Debug)]
pub struct AccentMap {
    pub entries: Vec<(Word, Vec<WordAccents>)>,
}

impl View for AccentMap {
    type V = Seq<(Seq<char>, Seq<WordAccentsV>)>;

    open spec fn view(&self) -> Seq<(Seq<char>, Seq<WordAccentsV>)> {
        self.entries.deep_view()
    }
}

/// The rows under a word: those of the first entry keyed by it, or `None`
/// when no entry is.
pub open spec fn spec_get(m: Seq<(Seq<char>, Seq<WordAccentsV>)>, w: Seq<char>) -> Option<
    Seq<WordAccentsV>,
>
    decreases m.len(),
{
    if m.len() == 0 {
        None
    } else if m[0].0 == w {
        Some(m[0].1)
    } else {
        spec_get(m.drop_first(), w)
    }
}

impl AccentMap {
    /// Looks a word up; `None` for a word no row carries.
    pub fn get(&self, word: &Word) -> (r: Option<&Vec<WordAccents>>)
        ensures
            match r {
                Some(v) => spec_get(self@, word@) == Some(v.deep_view()),
                None => spec_get(self@, word@) is None,
            },
    {
        let n = self.entries.len();
        let mut i: usize = 0;
        proof {
            assert(self@.skip(0) =~= self@);
        }
        while i < n
            invariant
                i <= n,
                n == self.entries.len(),
                spec_get(self@, word@) == spec_get(self@.skip(i as int), word@),
            decreases n - i,
        {
            proof {
                assert(self@.len() == self.entries@.len());
                assert(self@.skip(i as int)[0] == self@[i as int]);
                assert(self@[i as int] == self.entries@[i as int].deep_view());
            }
            if self.entries[i].0 == *word {
                proof {
                    assert(self@.skip(i as int)[0].0 == word@);
                }
                return Some(&self.entries[i].1);
            }
            proof {
                assert(self@.skip(i as int)[0].0 != word@);
                assert(self@.skip(i as int).drop_first() =~= self@.skip(i as int + 1));
            }
            i = i + 1;
        }
        proof {
            assert(self@.skip(n as int) =~= Seq::<(Seq<char>, Seq<WordAccentsV>)>::empty());
        }
        None
    }
}

} // verus!
