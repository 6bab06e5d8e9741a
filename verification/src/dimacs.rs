use vstd::prelude::*;
use crate::literal::SimpleLiteral;
use crate::clause::{Clause, TwoPointerClause, ClauseState, ClauseView};
use crate::formula::{Formula, FormulaInstance, has_view};

verus! {

/// Why a text is not a formula in the DIMACS CNF format.
#[derive(Debug, Clone, Copy, PartialEq, Eq, Structural)]
pub enum DimacsError {
    /// A line before the problem line starts with neither `p` nor `c`.
    WrongFormat,
    /// The text ends before a problem line.
    NoProblemLine,
    /// The problem line has no third word, or it is not a number of variables.
    BadVariableCount,
    /// A word after the problem line is not a literal.
    BadLiteral,
}

/// The characters that separate words: those with the Unicode `White_Space` property.
pub open spec fn is_whitespace(c: char) -> bool {
    let v = c as u32;
    ||| 0x09 <= v <= 0x0D
    ||| v == 0x20
    ||| v == 0x85
    ||| v == 0xA0
    ||| v == 0x1680
    ||| 0x2000 <= v <= 0x200A
    ||| v == 0x2028
    ||| v == 0x2029
    ||| v == 0x202F
    ||| v == 0x205F
    ||| v == 0x3000
}

pub open spec fn is_digit(c: char) -> bool {
    '0' as u32 <= c as u32 <= '9' as u32
}

pub open spec fn all_digits(d: Seq<char>) -> bool {
    forall|i: int| 0 <= i < d.len() ==> is_digit(#[trigger] d[i])
}

/// The number that the decimal digits `d` spell.
pub open spec fn digits_value(d: Seq<char>) -> nat
    decreases d.len(),
{
    if d.len() == 0 {
        0
    } else {
        digits_value(d.drop_last()) * 10 + ((d.last() as u32) - ('0' as u32)) as nat
    }
}

/// The value of an unsigned decimal word: an optional `+` and at least one digit.
pub open spec fn unsigned_value(t: Seq<char>) -> Option<nat> {
    let body = if t.len() > 0 && t[0] == '+' { t.drop_first() } else { t };
    if body.len() > 0 && all_digits(body) {
        Some(digits_value(body))
    } else {
        None
    }
}

/// The value of a signed decimal word: an optional `+` or `-` and at least one digit.
pub open spec fn signed_value(t: Seq<char>) -> Option<int> {
    if t.len() > 0 && t[0] == '-' {
        let body = t.drop_first();
        if body.len() > 0 && all_digits(body) {
            Some(-digits_value(body))
        } else {
            None
        }
    } else {
        match unsigned_value(t) {
            Some(v) => Some(v as int),
            None => None,
        }
    }
}

/// The word read as a number of variables, as `str::parse::<usize>` reads it.
pub open spec fn variable_count(t: Seq<char>) -> Option<usize> {
    match unsigned_value(t) {
        Some(v) => if v <= usize::MAX {
            Some(v as usize)
        } else {
            None
        },
        None => None,
    }
}

/// The word read as a literal: a value of `i32` other than its minimum, whose
/// negation does not fit.
pub open spec fn literal_value(t: Seq<char>) -> Option<int> {
    match signed_value(t) {
        Some(v) => if i32::MIN < v <= i32::MAX {
            Some(v)
        } else {
            None
        },
        None => None,
    }
}

/// A longer prefix of digits spells a number at least as large.
pub proof fn lemma_digits_value_grows(d: Seq<char>, j: int, k: int)
    requires
        0 <= j <= k <= d.len(),
    ensures
        digits_value(d.take(j)) <= digits_value(d.take(k)),
    decreases k - j,
{
    if j < k {
        lemma_digits_value_grows(d, j, k - 1);
        assert(d.take(k).drop_last() =~= d.take(k - 1));
    }
}

fn is_ws(c: char) -> (r: bool)
    ensures
        r == is_whitespace(c),
{
    let v = c as u32;
    (0x09 <= v && v <= 0x0D) || v == 0x20 || v == 0x85 || v == 0xA0 || v == 0x1680 || (0x2000 <= v
        && v <= 0x200A) || v == 0x2028 || v == 0x2029 || v == 0x202F || v == 0x205F || v == 0x3000
}

/// The number spelled by the digits `s[a..b]` if they are all digits, there is at
/// least one and the number is at most `limit`; `None` otherwise.
fn digits_at_most(s: &Vec<char>, a: usize, b: usize, limit: u64) -> (r: Option<u64>)
    requires
        a <= b <= s@.len(),
        limit >= 9,
    ensures
        ({
            let d = s@.subrange(a as int, b as int);
            match r {
                Some(v) => d.len() > 0 && all_digits(d) && v == digits_value(d) && v <= limit,
                None => !(d.len() > 0 && all_digits(d) && digits_value(d) <= limit),
            }
        }),
{
    let ghost d = s@.subrange(a as int, b as int);
    if a == b {
        return None;
    }
    let mut acc: u64 = 0;
    let mut i: usize = a;
    while i < b
        invariant
            a <= i <= b <= s@.len(),
            d == s@.subrange(a as int, b as int),
            limit >= 9,
            all_digits(d.take(i - a)),
            acc == digits_value(d.take(i - a)),
            acc <= limit,
        decreases b - i,
    {
        let c = s[i];
        let cv = c as u32;
        if cv < '0' as u32 || cv > '9' as u32 {
            assert(!is_digit(d[i - a]));
            return None;
        }
        let digit = (cv - ('0' as u32)) as u64;
        proof {
            assert(d.take(i - a + 1).drop_last() =~= d.take(i - a));
            assert(d.take(i - a + 1).last() == c);
        }
        if acc > (limit - digit) / 10 {
            proof {
                assert(acc * 10 + digit > limit) by (nonlinear_arith)
                    requires
                        acc > (limit - digit) / 10,
                        digit <= 9,
                        limit >= 9,
                ;
                lemma_digits_value_grows(d, i - a + 1, d.len() as int);
                assert(d.take(d.len() as int) =~= d);
            }
            return None;
        }
        proof {
            assert(acc * 10 + digit <= limit) by (nonlinear_arith)
                requires
                    acc <= (limit - digit) / 10,
                    digit <= 9,
                    limit >= 9,
            ;
        }
        acc = acc * 10 + digit;
        i += 1;
        proof {
            assert forall|k: int| 0 <= k < d.take(i - a).len() implies is_digit(#[trigger] d.take(i - a)[k]) by {
                if k < i - a - 1 {
                    assert(d.take(i - a)[k] == d.take(i - a - 1)[k]);
                }
            }
        }
    }
    assert(d.take(b - a) =~= d);
    Some(acc)
}

/// Reads the word `s[a..b]` as a number of variables.
fn parse_variable_count(s: &Vec<char>, a: usize, b: usize) -> (r: Option<usize>)
    requires
        a <= b <= s@.len(),
    ensures
        r == variable_count(s@.subrange(a as int, b as int)),
{
    let ghost t = s@.subrange(a as int, b as int);
    let start = if a < b && s[a] == '+' { a + 1 } else { a };
    assert(s@.subrange(start as int, b as int) =~= (if t.len() > 0 && t[0] == '+' { t.drop_first() } else { t }));
    match digits_at_most(s, start, b, usize::MAX as u64) {
        Some(v) => Some(v as usize),
        None => None,
    }
}

/// Reads the word `s[a..b]` as a literal.
fn parse_literal(s: &Vec<char>, a: usize, b: usize) -> (r: Option<i64>)
    requires
        a <= b <= s@.len(),
    ensures
        match literal_value(s@.subrange(a as int, b as int)) {
            Some(v) => r == Some(v as i64),
            None => r is None,
        },
{
    let ghost t = s@.subrange(a as int, b as int);
    let limit: u64 = 0x7fff_ffff;
    if a < b && s[a] == '-' {
        assert(s@.subrange(a + 1, b as int) =~= t.drop_first());
        match digits_at_most(s, a + 1, b, limit) {
            Some(v) => {
                if v == 0 {
                    Some(0)
                } else {
                    Some(-(v as i64))
                }
            },
            None => None,
        }
    } else {
        let start = if a < b && s[a] == '+' { a + 1 } else { a };
        assert(s@.subrange(start as int, b as int) =~= (if t.len() > 0 && t[0] == '+' { t.drop_first() } else { t }));
        match digits_at_most(s, start, b, limit) {
            Some(v) => Some(v as i64),
            None => None,
        }
    }
}

/// The end of the word that continues at position `i`: the first position from `i`
/// on, below `end`, holding whitespace, or `end`.
pub open spec fn word_end(s: Seq<char>, i: int, end: int) -> int
    decreases end - i,
{
    if i >= end || is_whitespace(s[i]) {
        i
    } else {
        word_end(s, i + 1, end)
    }
}

pub proof fn lemma_word_end(s: Seq<char>, i: int, end: int)
    requires
        i <= end,
    ensures
        i <= word_end(s, i, end) <= end,
        forall|k: int| i <= k < word_end(s, i, end) ==> !is_whitespace(#[trigger] s[k]),
    decreases end - i,
{
    if i < end && !is_whitespace(s[i]) {
        lemma_word_end(s, i + 1, end);
    }
}

/// The words of `s[i..end]`, as `str::split_whitespace` yields them.
pub open spec fn words(s: Seq<char>, i: int, end: int) -> Seq<Seq<char>>
    decreases end - i,
{
    if i >= end {
        seq![]
    } else if is_whitespace(s[i]) {
        words(s, i + 1, end)
    } else {
        proof {
            lemma_word_end(s, i + 1, end);
        }
        let k = word_end(s, i + 1, end);
        seq![s.subrange(i, k)] + words(s, k, end)
    }
}

/// Texts that have whitespace at the same positions and the same characters elsewhere
/// end a word at the same position.
proof fn lemma_word_end_same(s: Seq<char>, t: Seq<char>, i: int, end: int)
    requires
        0 <= i <= end <= s.len(),
        s.len() == t.len(),
        forall|k: int| i <= k < end ==> is_whitespace(#[trigger] s[k]) == is_whitespace(t[k]),
    ensures
        word_end(s, i, end) == word_end(t, i, end),
    decreases end - i,
{
    if i < end && !is_whitespace(s[i]) {
        lemma_word_end_same(s, t, i + 1, end);
    }
}

/// Texts that have whitespace at the same positions and the same characters elsewhere
/// have the same words.
pub proof fn lemma_words_same(s: Seq<char>, t: Seq<char>, i: int, end: int)
    requires
        0 <= i <= end <= s.len(),
        s.len() == t.len(),
        forall|k: int| i <= k < end ==> is_whitespace(#[trigger] s[k]) == is_whitespace(t[k]),
        forall|k: int| i <= k < end && !is_whitespace(#[trigger] s[k]) ==> s[k] == t[k],
    ensures
        words(s, i, end) == words(t, i, end),
    decreases end - i,
{
    if i < end {
        if is_whitespace(s[i]) {
            lemma_words_same(s, t, i + 1, end);
        } else {
            lemma_word_end(s, i + 1, end);
            lemma_word_end_same(s, t, i + 1, end);
            let k = word_end(s, i + 1, end);
            assert(s.subrange(i, k) =~= t.subrange(i, k));
            lemma_words_same(s, t, k, end);
        }
    }
}

/// Words are separated by every character with the Unicode `White_Space` property, as
/// `str::split_whitespace` separates them: a text with any of its separators replaced
/// by any such character, a carriage return among them, has the same words.
pub proof fn law_every_white_space_separates(s: Seq<char>, j: int, w: char)
    requires
        0 <= j < s.len(),
        is_whitespace(s[j]),
        w == '\u{9}' || w == '\u{A}' || w == '\u{B}' || w == '\u{C}' || w == '\u{D}' || w == ' ' || w == '\u{85}'
            || w == '\u{A0}' || w == '\u{1680}' || ('\u{2000}' as u32 <= w as u32 <= '\u{200A}' as u32) || w == '\u{2028}'
            || w == '\u{2029}' || w == '\u{202F}' || w == '\u{205F}' || w == '\u{3000}',
    ensures
        words(s.update(j, w), 0, s.len() as int) == words(s, 0, s.len() as int),
{
    let t = s.update(j, w);
    assert(is_whitespace(w));
    assert forall|k: int| 0 <= k < s.len() implies is_whitespace(#[trigger] s[k]) == is_whitespace(t[k]) by {
        if k == j {
            assert(t[k] == w);
        }
    }
    lemma_words_same(s, t, 0, s.len() as int);
}

/// The end of the line that starts at position `i`: the position of the next line
/// break, or the length of `s`.
pub open spec fn line_end(s: Seq<char>, i: int) -> int
    decreases s.len() - i,
{
    if i >= s.len() || s[i] == '\n' {
        i
    } else {
        line_end(s, i + 1)
    }
}

pub proof fn lemma_line_end(s: Seq<char>, i: int)
    requires
        0 <= i <= s.len(),
    ensures
        i <= line_end(s, i) <= s.len(),
    decreases s.len() - i,
{
    if i < s.len() && s[i] != '\n' {
        lemma_line_end(s, i + 1);
    }
}

/// The start and end of the problem line, looking from the line that starts at `i`:
/// comment lines (starting with `c`) are skipped, a line starting with `p` is the
/// problem line, and any other line (an empty one too) is an error.
pub open spec fn problem_line(s: Seq<char>, i: int) -> Result<(int, int), DimacsError>
    decreases s.len() - i,
{
    if i < 0 || i >= s.len() {
        Err(DimacsError::NoProblemLine)
    } else if s[i] == 'p' {
        Ok((i, line_end(s, i)))
    } else if s[i] == 'c' {
        proof {
            lemma_line_end(s, i);
        }
        let e = line_end(s, i);
        if e >= s.len() {
            Err(DimacsError::NoProblemLine)
        } else {
            problem_line(s, e + 1)
        }
    } else {
        Err(DimacsError::WrongFormat)
    }
}

/// The literal that a nonzero literal value names: variable `|v| - 1` with the sign of `v`.
pub open spec fn literal_of(v: int) -> SimpleLiteral {
    if v < 0 {
        SimpleLiteral::Negative((-v - 1) as usize)
    } else {
        SimpleLiteral::Positive((v - 1) as usize)
    }
}

/// `cur` with `l` appended unless it is already there.
pub open spec fn push_unique(cur: Seq<SimpleLiteral>, l: SimpleLiteral) -> Seq<SimpleLiteral> {
    if cur.contains(l) {
        cur
    } else {
        cur.push(l)
    }
}

/// The clauses that the words `toks` close, after the clauses `done` and with the
/// literals `cur` of an open clause: a word `0` closes the open clause, any other
/// literal joins it (once), a word `%` ends the list, and an open clause that is
/// never closed is dropped.
pub open spec fn collect_clauses(
    toks: Seq<Seq<char>>,
    cur: Seq<SimpleLiteral>,
    done: Seq<Seq<SimpleLiteral>>,
) -> Result<Seq<Seq<SimpleLiteral>>, DimacsError>
    decreases toks.len(),
{
    if toks.len() == 0 {
        Ok(done)
    } else if toks[0] == seq!['%'] {
        Ok(done)
    } else {
        match literal_value(toks[0]) {
            None => Err(DimacsError::BadLiteral),
            Some(v) => if v == 0 {
                collect_clauses(toks.drop_first(), seq![], done.push(cur))
            } else {
                collect_clauses(toks.drop_first(), push_unique(cur, literal_of(v)), done)
            },
        }
    }
}

/// What a DIMACS CNF text holds: the number of variables (the third word of the problem
/// line) and the literal lists of the clauses that follow the problem line.
pub open spec fn dimacs_content(s: Seq<char>) -> Result<(usize, Seq<Seq<SimpleLiteral>>), DimacsError> {
    match problem_line(s, 0) {
        Err(e) => Err(e),
        Ok((p, e)) => {
            let header = words(s, p, e);
            if header.len() < 3 {
                Err(DimacsError::BadVariableCount)
            } else {
                match variable_count(header[2]) {
                    None => Err(DimacsError::BadVariableCount),
                    Some(n) => {
                        let rest = if e < s.len() { e + 1 } else { s.len() as int };
                        match collect_clauses(words(s, rest, s.len() as int), seq![], seq![]) {
                            Err(x) => Err(x),
                            Ok(cls) => Ok((n, cls)),
                        }
                    },
                }
            }
        },
    }
}

/// Where the problem line lies.
proof fn lemma_problem_line_bounds(s: Seq<char>, i: int)
    ensures
        problem_line(s, i) matches Ok((p, e)) ==> 0 <= i <= p <= e <= s.len() && s[p] == 'p',
    decreases s.len() - i,
{
    if 0 <= i < s.len() {
        lemma_line_end(s, i);
        if s[i] == 'c' {
            let e = line_end(s, i);
            if e < s.len() {
                lemma_problem_line_bounds(s, e + 1);
            }
        }
    }
}

/// Texts with line breaks at the same positions have the same line ends.
proof fn lemma_line_end_same(s: Seq<char>, t: Seq<char>, i: int)
    requires
        0 <= i <= s.len(),
        s.len() == t.len(),
        forall|k: int| 0 <= k < s.len() ==> (#[trigger] s[k] == '\n') == (t[k] == '\n'),
    ensures
        line_end(s, i) == line_end(t, i),
    decreases s.len() - i,
{
    if i < s.len() && s[i] != '\n' {
        lemma_line_end_same(s, t, i + 1);
    }
}

/// Texts with line breaks at the same positions and the same characters up to the
/// problem line of the first find the same problem line.
proof fn lemma_problem_line_same(s: Seq<char>, t: Seq<char>, i: int)
    requires
        0 <= i,
        s.len() == t.len(),
        forall|k: int| 0 <= k < s.len() ==> (#[trigger] s[k] == '\n') == (t[k] == '\n'),
        problem_line(s, i) matches Ok((p, _)) && forall|k: int| 0 <= k <= p ==> #[trigger] s[k] == t[k],
    ensures
        problem_line(t, i) == problem_line(s, i),
    decreases s.len() - i,
{
    lemma_problem_line_bounds(s, i);
    if 0 <= i < s.len() {
        lemma_line_end_same(s, t, i);
        assert(s[i] == t[i]);
        if s[i] == 'c' {
            lemma_line_end(s, i);
            let e = line_end(s, i);
            if e < s.len() {
                lemma_problem_line_same(s, t, e + 1);
            }
        }
    }
}

/// Replacing a separator after the start of the problem line by another one that is
/// not a line break leaves what the text holds unchanged: in particular a text whose
/// words are separated by carriage returns reads like one with spaces.
pub proof fn law_separators_after_header_do_not_matter(s: Seq<char>, j: int, w: char)
    requires
        0 <= j < s.len(),
        problem_line(s, 0) matches Ok((p, _)) && p < j,
        is_whitespace(s[j]),
        s[j] != '\n',
        w != '\n',
        w == '\u{9}' || w == '\u{B}' || w == '\u{C}' || w == '\u{D}' || w == ' ' || w == '\u{85}' || w == '\u{A0}'
            || w == '\u{1680}' || ('\u{2000}' as u32 <= w as u32 <= '\u{200A}' as u32) || w == '\u{2028}' || w == '\u{2029}'
            || w == '\u{202F}' || w == '\u{205F}' || w == '\u{3000}',
    ensures
        dimacs_content(s.update(j, w)) == dimacs_content(s),
{
    let t = s.update(j, w);
    assert(is_whitespace(w));
    assert forall|k: int| 0 <= k < s.len() implies (#[trigger] s[k] == '\n') == (t[k] == '\n') by {
        if k == j {
            assert(t[k] == w);
        }
    }
    assert forall|k: int| 0 <= k < s.len() implies is_whitespace(#[trigger] s[k]) == is_whitespace(t[k]) by {
        if k == j {
            assert(t[k] == w);
        }
    }
    lemma_problem_line_same(s, t, 0);
    if let Ok((p, e)) = problem_line(s, 0) {
        lemma_problem_line_bounds(s, 0);
        lemma_words_same(s, t, p, e);
        let rest = if e < s.len() { e + 1 } else { s.len() as int };
        lemma_words_same(s, t, rest, s.len() as int);
    }
}

proof fn lemma_collect_keeps_distinct(
    toks: Seq<Seq<char>>,
    cur: Seq<SimpleLiteral>,
    done: Seq<Seq<SimpleLiteral>>,
)
    requires
        cur.no_duplicates(),
        forall|i: int| 0 <= i < done.len() ==> (#[trigger] done[i]).no_duplicates(),
    ensures
        collect_clauses(toks, cur, done) matches Ok(cls) ==> forall|i: int|
            0 <= i < cls.len() ==> (#[trigger] cls[i]).no_duplicates(),
    decreases toks.len(),
{
    if toks.len() > 0 && toks[0] != seq!['%'] {
        match literal_value(toks[0]) {
            None => {},
            Some(v) => {
                if v == 0 {
                    let empty: Seq<SimpleLiteral> = seq![];
                    assert(empty.no_duplicates());
                    assert forall|i: int| 0 <= i < done.push(cur).len() implies (#[trigger] done.push(cur)[i]).no_duplicates() by {
                        if i < done.len() {
                            assert(done.push(cur)[i] == done[i]);
                        }
                    }
                    lemma_collect_keeps_distinct(toks.drop_first(), seq![], done.push(cur));
                } else {
                    let l = literal_of(v);
                    let next = push_unique(cur, l);
                    assert(next.no_duplicates()) by {
                        if !cur.contains(l) {
                            assert forall|i: int, j: int| 0 <= i < j < next.len() implies next[i] != next[j] by {
                                if j == cur.len() {
                                    assert(next[i] == cur[i]);
                                }
                            }
                        }
                    }
                    lemma_collect_keeps_distinct(toks.drop_first(), next, done);
                }
            },
        }
    }
}

/// A clause read from a DIMACS text names each of its literals once.
pub proof fn law_read_clauses_repeat_no_literal(s: Seq<char>)
    ensures
        dimacs_content(s) matches Ok((n, cls)) ==> forall|i: int|
            0 <= i < cls.len() ==> (#[trigger] cls[i]).no_duplicates(),
{
    if let Ok((p, e)) = problem_line(s, 0) {
        let rest = if e < s.len() { e + 1 } else { s.len() as int };
        let empty: Seq<SimpleLiteral> = seq![];
        assert(empty.no_duplicates());
        lemma_collect_keeps_distinct(words(s, rest, s.len() as int), seq![], seq![]);
    }
}

/// The view of the clause that `Clause::new` makes from the literals `lits`.
pub open spec fn fresh_clause(lits: Seq<SimpleLiteral>) -> ClauseView {
    ClauseView {
        literals: lits,
        state: if lits.len() > 1 { ClauseState::Open } else { ClauseState::Unit(0) },
        pointer: if lits.len() > 1 { (0usize, 1usize) } else { (0usize, 0usize) },
    }
}

/// The next word of `s[i..end]`, by its start and end, if there is one.
fn next_word(s: &Vec<char>, i: usize, end: usize) -> (r: Option<(usize, usize)>)
    requires
        i <= end <= s@.len(),
    ensures
        match r {
            None => words(s@, i as int, end as int) == Seq::<Seq<char>>::empty(),
            Some((a, b)) => i <= a < b <= end && words(s@, i as int, end as int) == seq![
                s@.subrange(a as int, b as int),
            ] + words(s@, b as int, end as int),
        },
{
    let mut a = i;
    while a < end && is_ws(s[a])
        invariant
            i <= a <= end <= s@.len(),
            words(s@, i as int, end as int) == words(s@, a as int, end as int),
        decreases end - a,
    {
        a += 1;
    }
    if a >= end {
        return None;
    }
    let mut b = a + 1;
    while b < end && !is_ws(s[b])
        invariant
            a < b <= end <= s@.len(),
            word_end(s@, a + 1, end as int) == word_end(s@, b as int, end as int),
        decreases end - b,
    {
        b += 1;
    }
    proof {
        lemma_word_end(s@, a + 1, end as int);
    }
    Some((a, b))
}

/// The end of the line that starts at position `i`.
fn find_line_end(s: &Vec<char>, i: usize) -> (r: usize)
    requires
        i <= s@.len(),
    ensures
        r == line_end(s@, i as int),
        i <= r <= s@.len(),
{
    let mut e = i;
    while e < s.len() && s[e] != '\n'
        invariant
            i <= e <= s@.len(),
            line_end(s@, i as int) == line_end(s@, e as int),
        decreases s.len() - e,
    {
        e += 1;
    }
    e
}

/// Reads a formula in the DIMACS CNF format: comment lines (`c ...`), then the
/// problem line (`p cnf <variables> <clauses>`), then the clauses as words, each
/// clause a list of nonzero literals closed by `0`; a word `%` ends the list.
/// Variable `k` of the text is variable `k - 1` of the formula; a literal repeated
/// within a clause is kept once, and a clause repeated is kept once.
pub fn parse_cnf(text: &Vec<char>) -> (r: Result<FormulaInstance, DimacsError>)
    ensures
        match dimacs_content(text@) {
            Err(e) => r == Err::<FormulaInstance, DimacsError>(e),
            Ok((n, cls)) => r matches Ok(f) && f.assignments@ == Seq::new(n as nat, |i: int| None::<bool>)
                && f.clause_set() == Set::new(|c: ClauseView| exists|k: int| 0 <= k < cls.len() && c == fresh_clause(cls[k]))
                && f.distinct(),
        },
{
    let ghost s = text@;
    let len = text.len();
    let mut pos: usize = 0;
    loop
        invariant
            pos <= len,
            len == s.len(),
            s == text@,
            problem_line(s, 0) == problem_line(s, pos as int),
        ensures
            pos < len,
            problem_line(s, 0) == Ok::<(int, int), DimacsError>((pos as int, line_end(s, pos as int))),
        decreases len - pos,
    {
        if pos >= len {
            return Err(DimacsError::NoProblemLine);
        }
        let c = text[pos];
        if c == 'p' {
            break;
        }
        if c != 'c' {
            return Err(DimacsError::WrongFormat);
        }
        let e = find_line_end(text, pos);
        if e >= len {
            return Err(DimacsError::NoProblemLine);
        }
        pos = e + 1;
    }
    let p = pos;
    let e = find_line_end(text, p);

    let w1 = next_word(text, p, e);
    let (a1, b1) = match w1 {
        Some(w) => w,
        None => {
            return Err(DimacsError::BadVariableCount);
        },
    };
    let w2 = next_word(text, b1, e);
    let (a2, b2) = match w2 {
        Some(w) => w,
        None => {
            return Err(DimacsError::BadVariableCount);
        },
    };
    let w3 = next_word(text, b2, e);
    let (a3, b3) = match w3 {
        Some(w) => w,
        None => {
            return Err(DimacsError::BadVariableCount);
        },
    };
    assert(words(s, p as int, e as int)[2] == s.subrange(a3 as int, b3 as int));
    let variables = match parse_variable_count(text, a3, b3) {
        Some(n) => n,
        None => {
            return Err(DimacsError::BadVariableCount);
        },
    };

    let start = if e < len { e + 1 } else { len };
    assert(dimacs_content(s) == match collect_clauses(words(s, start as int, len as int), seq![], seq![]) {
        Err(x) => Err(x),
        Ok(cls) => Ok((variables, cls)),
    });
    let mut cur: Vec<SimpleLiteral> = Vec::new();
    let mut clauses: Vec<TwoPointerClause> = Vec::new();
    let ghost mut done: Seq<Seq<SimpleLiteral>> = seq![];
    let mut i = start;
    loop
        invariant_except_break
            collect_clauses(words(s, start as int, len as int), seq![], seq![]) == collect_clauses(
                words(s, i as int, len as int), cur@, done),
        invariant
            start <= i <= len,
            len == s.len(),
            s == text@,
            dimacs_content(s) == match collect_clauses(words(s, start as int, len as int), seq![], seq![]) {
                Err(x) => Err(x),
                Ok(cls) => Ok((variables, cls)),
            },
            clauses@.len() == done.len(),
            forall|k: int| 0 <= k < done.len() ==> (#[trigger] clauses@[k])@ == fresh_clause(done[k]),
        ensures
            collect_clauses(words(s, start as int, len as int), seq![], seq![]) == Ok::<Seq<Seq<SimpleLiteral>>, DimacsError>(done),
        decreases len - i,
    {
        match next_word(text, i, len) {
            None => {
                break;
            },
            Some((a, b)) => {
                let ghost tok = s.subrange(a as int, b as int);
                let ghost toks = words(s, i as int, len as int);
                assert(toks[0] == tok);
                assert(toks.drop_first() =~= words(s, b as int, len as int));
                if b == a + 1 && text[a] == '%' {
                    assert(tok =~= seq!['%']);
                    break;
                }
                assert(tok != seq!['%']) by {
                    if tok == seq!['%'] {
                        assert(tok.len() == 1);
                        assert(tok[0] == '%');
                    }
                }
                match parse_literal(text, a, b) {
                    None => {
                        return Err(DimacsError::BadLiteral);
                    },
                    Some(v) => {
                        if v == 0 {
                            let mut closed: Vec<SimpleLiteral> = Vec::new();
                            std::mem::swap(&mut closed, &mut cur);
                            let ghost closed_lits = closed@;
                            let clause = TwoPointerClause::new(closed);
                            clauses.push(clause);
                            proof {
                                done = done.push(closed_lits);
                                assert(clauses@[done.len() - 1]@ == fresh_clause(done[done.len() - 1]));
                            }
                        } else {
                            let lit = if v < 0 {
                                SimpleLiteral::Negative((-v - 1) as usize)
                            } else {
                                SimpleLiteral::Positive((v - 1) as usize)
                            };
                            assert(lit == literal_of(v as int));
                            if !crate::clause::contains_literal(&cur, lit) {
                                cur.push(lit);
                            }
                        }
                    },
                }
                i = b;
            },
        }
    }
    let f = FormulaInstance::new(variables, clauses);
    proof {
        assert forall|c: ClauseView| f.clause_set().contains(c) <==> (exists|k: int| 0 <= k < done.len() && c == fresh_clause(done[k])) by {
            if exists|k: int| 0 <= k < done.len() && c == fresh_clause(done[k]) {
                let k = choose|k: int| 0 <= k < done.len() && c == fresh_clause(done[k]);
                assert(clauses@[k]@ == c);
                assert(has_view(clauses@, c));
            }
            if f.clause_set().contains(c) {
                assert(has_view(clauses@, c));
                let k = choose|k: int| 0 <= k < clauses@.len() && clauses@[k]@ == c;
                assert(c == fresh_clause(done[k]));
            }
        }
        assert(f.clause_set() =~= Set::new(|c: ClauseView| exists|k: int| 0 <= k < done.len() && c == fresh_clause(done[k])));
    }
    Ok(f)
}

} // verus!
