//! Text codec for the configuration document.
//!
//! The on-disk form is a line-oriented structured text format: top-level
//! scalars first as `key = "value"` lines, then each section as a
//! `[name]` header followed by its own `key = "value"` lines.  Keys are
//! written bare when they consist of letters, digits, `_`, `-` and `.`,
//! and quoted otherwise; values are always quoted, with `\"`, `\\` and
//! `\n` escapes.  Blank lines and `#` comment lines are ignored when
//! reading.  Duplicate names corrupt the file: reading rejects them, so
//! a parsed document is always well formed.

use vstd::prelude::*;

use crate::document::ConfigDoc;
use crate::document::ConfigEntry;
use crate::document::ConfigSection;
use crate::document::DocModel;
use crate::document::Pair;
use crate::document::entries_view;
use crate::document::model_empty;
use crate::document::model_wf;
use crate::document::pairs_has;
use crate::document::pairs_wf;
use crate::document::sections_has;
use crate::document::sections_wf;
use crate::document::pairs_vec_lookup;
use crate::document::sections_vec_find;
use crate::errors::ConfigError;

verus! {

/// Characters allowed in a bare (unquoted) key: ASCII letters, digits,
/// `_`, `-` and `.`.
pub open spec fn is_bare_char(c: char) -> bool {
    let u = c as u32;
    (97 <= u && u <= 122) || (65 <= u && u <= 90) || (48 <= u && u <= 57) || u == 95 || u == 45
        || u == 46
}

/// A key that can be written without quotes: nonempty, bare chars only.
pub open spec fn is_bare_key(k: Seq<char>) -> bool {
    k.len() > 0 && forall|i: int| 0 <= i < k.len() ==> is_bare_char(k[i])
}

/// How one character appears inside a quoted string.
pub open spec fn escape_one(c: char) -> Seq<char> {
    if c == '"' {
        seq!['\\', '"']
    } else if c == '\\' {
        seq!['\\', '\\']
    } else if c == '\n' {
        seq!['\\', 'n']
    } else {
        seq![c]
    }
}

/// The body of a quoted string: every character escaped as needed.
pub open spec fn escape_seq(s: Seq<char>) -> Seq<char>
    decreases s.len(),
{
    if s.len() == 0 {
        Seq::empty()
    } else {
        escape_one(s[0]) + escape_seq(s.drop_first())
    }
}

/// A string as written: quotes around its escaped body.
pub open spec fn quote_text(s: Seq<char>) -> Seq<char> {
    seq!['"'] + escape_seq(s) + seq!['"']
}

/// A key as written: bare where possible, quoted otherwise.
pub open spec fn render_key(k: Seq<char>) -> Seq<char> {
    if is_bare_key(k) {
        k
    } else {
        quote_text(k)
    }
}

/// One `key = "value"` line, without its newline.
pub open spec fn entry_line(k: Seq<char>, v: Seq<char>) -> Seq<char> {
    render_key(k) + seq![' ', '=', ' '] + quote_text(v)
}

/// One `[name]` header line, without its newline.
pub open spec fn header_line(name: Seq<char>) -> Seq<char> {
    seq!['['] + render_key(name) + seq![']']
}

/// The text of a list of leaves, one line each.
pub open spec fn render_pairs_text(es: Seq<Pair>) -> Seq<char>
    decreases es.len(),
{
    if es.len() == 0 {
        Seq::empty()
    } else {
        entry_line(es[0].0, es[0].1) + seq!['\n'] + render_pairs_text(es.drop_first())
    }
}

/// The text of a list of sections: header line, then leaves, for each.
pub open spec fn render_sections_text(ss: Seq<(Seq<char>, Seq<Pair>)>) -> Seq<char>
    decreases ss.len(),
{
    if ss.len() == 0 {
        Seq::empty()
    } else {
        header_line(ss[0].0) + seq!['\n'] + render_pairs_text(ss[0].1) + render_sections_text(
            ss.drop_first(),
        )
    }
}

/// The whole document as text: top-level scalars, then sections.
pub open spec fn spec_render(d: DocModel) -> Seq<char> {
    render_pairs_text(d.tops) + render_sections_text(d.sections)
}

/// What one escape letter stands for, reading.  The reader also takes
/// `\t` and `\r`, which the writer leaves raw.
pub open spec fn unescape_one(c: char) -> Option<char> {
    if c == '"' {
        Some('"')
    } else if c == '\\' {
        Some('\\')
    } else if c == 'n' {
        Some('\n')
    } else if c == 't' {
        Some('\t')
    } else if c == 'r' {
        Some('\r')
    } else {
        None
    }
}

/// Read a quoted string's remainder starting just after the opening
/// quote at position `i`: the decoded content and the position just
/// after the closing quote, or `None` when unterminated or badly
/// escaped.
pub open spec fn scan_string(s: Seq<char>, i: int) -> Option<(Seq<char>, int)>
    decreases s.len() - i,
{
    if i < 0 || i >= s.len() {
        None
    } else if s[i] == '"' {
        Some((Seq::empty(), i + 1))
    } else if s[i] == '\\' {
        if i + 1 >= s.len() {
            None
        } else {
            match unescape_one(s[i + 1]) {
                Some(c) => match scan_string(s, i + 2) {
                    Some((t, j)) => Some((seq![c] + t, j)),
                    None => None,
                },
                None => None,
            }
        }
    } else {
        match scan_string(s, i + 1) {
            Some((t, j)) => Some((seq![s[i]] + t, j)),
            None => None,
        }
    }
}

/// Length of the run of bare characters starting at position `i`.
pub open spec fn bare_len_from(s: Seq<char>, i: int) -> nat
    decreases s.len() - i,
{
    if i < 0 || i >= s.len() || !is_bare_char(s[i]) {
        0
    } else {
        1 + bare_len_from(s, i + 1)
    }
}

/// Read a key starting at position `i`: quoted if it opens with a
/// quote, else a nonempty bare run; the key and the position after it.
pub open spec fn parse_key_at(s: Seq<char>, i: int) -> Option<(Seq<char>, int)> {
    if 0 <= i < s.len() && s[i] == '"' {
        scan_string(s, i + 1)
    } else {
        let n = bare_len_from(s, i);
        if n == 0 {
            None
        } else {
            Some((s.subrange(i, i + n), i + n))
        }
    }
}

/// What one line of the file means.
#[verifier::ext_equal]
pub enum LineForm {
    /// Empty or comment: carries nothing.
    Blank,
    /// A `[name]` header opening a section.
    SectionHead(Seq<char>),
    /// A `key = "value"` leaf.
    LeafPair(Seq<char>, Seq<char>),
    /// Anything else: the file is corrupt.
    Malformed,
}

/// Classify one line (without its newline).
pub open spec fn classify_line(line: Seq<char>) -> LineForm {
    if line.len() == 0 {
        LineForm::Blank
    } else if line[0] == '#' {
        LineForm::Blank
    } else if line[0] == '[' {
        match parse_key_at(line, 1) {
            Some((name, j)) => if j + 1 == line.len() && line[j] == ']' {
                LineForm::SectionHead(name)
            } else {
                LineForm::Malformed
            },
            None => LineForm::Malformed,
        }
    } else {
        match parse_key_at(line, 0) {
            Some((k, j)) => if j + 4 <= line.len() && line[j] == ' ' && line[j + 1] == '='
                && line[j + 2] == ' ' && line[j + 3] == '"' {
                match scan_string(line, j + 4) {
                    Some((v, m)) => if m == line.len() {
                        LineForm::LeafPair(k, v)
                    } else {
                        LineForm::Malformed
                    },
                    None => LineForm::Malformed,
                }
            } else {
                LineForm::Malformed
            },
            None => LineForm::Malformed,
        }
    }
}

/// Number of leading lines before the next section header (or the end).
pub open spec fn body_len(lines: Seq<Seq<char>>) -> nat
    decreases lines.len(),
{
    if lines.len() == 0 {
        0
    } else if classify_line(lines[0]) is SectionHead {
        0
    } else {
        1 + body_len(lines.drop_first())
    }
}

/// Read a run of leaves: blanks skipped, any header or malformed line
/// refused, duplicate keys refused.
pub open spec fn parse_entries(lines: Seq<Seq<char>>) -> Option<Seq<Pair>>
    decreases lines.len(),
{
    if lines.len() == 0 {
        Some(Seq::empty())
    } else {
        match classify_line(lines[0]) {
            LineForm::Blank => parse_entries(lines.drop_first()),
            LineForm::LeafPair(k, v) => match parse_entries(lines.drop_first()) {
                Some(es) => if pairs_has(es, k) {
                    None
                } else {
                    Some(seq![(k, v)] + es)
                },
                None => None,
            },
            _ => None,
        }
    }
}

/// Read a whole document.  Leaves before the first header are top-level
/// scalars; every header opens a section that runs to the next header.
/// Any duplicate name, reuse of a name across the two shapes, or
/// malformed line refuses the whole document.
pub open spec fn parse_lines(lines: Seq<Seq<char>>) -> Option<DocModel>
    decreases lines.len(),
{
    if lines.len() == 0 {
        Some(model_empty())
    } else {
        match classify_line(lines[0]) {
            LineForm::Blank => parse_lines(lines.drop_first()),
            LineForm::Malformed => None,
            LineForm::LeafPair(k, v) => match parse_lines(lines.drop_first()) {
                Some(d) => if pairs_has(d.tops, k) || sections_has(d.sections, k) {
                    None
                } else {
                    Some(DocModel { tops: seq![(k, v)] + d.tops, sections: d.sections })
                },
                None => None,
            },
            LineForm::SectionHead(name) => {
                let rest = lines.drop_first();
                let n0 = body_len(rest);
                let n: int = if n0 <= rest.len() {
                    n0 as int
                } else {
                    0
                };
                match parse_entries(rest.take(n)) {
                    Some(es) => match parse_lines(rest.skip(n)) {
                        Some(d) => if d.tops.len() != 0 || sections_has(d.sections, name) {
                            None
                        } else {
                            Some(
                                DocModel {
                                    tops: Seq::empty(),
                                    sections: seq![(name, es)] + d.sections,
                                },
                            )
                        },
                        None => None,
                    },
                    None => None,
                }
            },
        }
    }
}

/// Distance from `i` to the next newline (or the end).
pub open spec fn first_nl_from(s: Seq<char>, i: int) -> nat
    decreases s.len() - i,
{
    if i < 0 || i >= s.len() {
        0
    } else if s[i] == '\n' {
        0
    } else {
        1 + first_nl_from(s, i + 1)
    }
}

/// The text cut into lines at each newline.  A missing final newline
/// still yields the last line.
pub open spec fn split_lines(s: Seq<char>) -> Seq<Seq<char>>
    decreases s.len(),
{
    if s.len() == 0 {
        Seq::empty()
    } else {
        let n = first_nl_from(s, 0);
        if n >= s.len() {
            seq![s]
        } else {
            seq![s.take(n as int)] + split_lines(s.skip(n as int + 1))
        }
    }
}

/// The whole reading direction: text to document, if the text is a
/// well-formed rendering.
pub open spec fn spec_parse(text: Seq<char>) -> Option<DocModel> {
    parse_lines(split_lines(text))
}

/// The characters of a list of split lines.
pub open spec fn lines_view(v: Seq<Vec<char>>) -> Seq<Seq<char>> {
    v.map_values(|l: Vec<char>| l@)
}

pub(crate) fn chars_of_str(s: &str) -> (r: Vec<char>)
    ensures
        r@ == s@,
{
    let n = s.unicode_len();
    let mut r: Vec<char> = Vec::new();
    let mut i: usize = 0;
    while i < n
        invariant
            i <= n,
            n == s@.len(),
            r@ == s@.take(i as int),
        decreases n - i,
    {
        let c = s.get_char(i);
        r.push(c);
        proof {
            assert(s@.take(i + 1 as int) =~= s@.take(i as int).push(s@[i as int]));
        }
        i += 1;
    }
    proof {
        assert(s@.take(n as int) =~= s@);
    }
    r
}

/// Relies on `String: FromIterator<char>`: collecting characters yields
/// the string of exactly those characters in order.
#[verifier::external_body]
fn string_of_chars(v: &Vec<char>) -> (r: String)
    ensures
        r@ == v@,
{
    v.iter().collect()
}

fn copy_range(v: &Vec<char>, a: usize, b: usize) -> (r: Vec<char>)
    requires
        a <= b <= v@.len(),
    ensures
        r@ == v@.subrange(a as int, b as int),
{
    let mut r: Vec<char> = Vec::new();
    let mut j: usize = a;
    while j < b
        invariant
            a <= j <= b <= v@.len(),
            r@ == v@.subrange(a as int, j as int),
        decreases b - j,
    {
        r.push(v[j]);
        proof {
            assert(v@.subrange(a as int, j + 1 as int) =~= v@.subrange(a as int, j as int).push(
                v@[j as int],
            ));
        }
        j += 1;
    }
    r
}

fn is_bare_char_exec(c: char) -> (r: bool)
    ensures
        r == is_bare_char(c),
{
    let u = c as u32;
    (97 <= u && u <= 122) || (65 <= u && u <= 90) || (48 <= u && u <= 57) || u == 95 || u == 45
        || u == 46
}

fn unescape_exec(c: char) -> (r: Option<char>)
    ensures
        r == unescape_one(c),
{
    if c == '"' {
        Some('"')
    } else if c == '\\' {
        Some('\\')
    } else if c == 'n' {
        Some('\n')
    } else if c == 't' {
        Some('\t')
    } else if c == 'r' {
        Some('\r')
    } else {
        None
    }
}

fn bare_len_exec(line: &Vec<char>, i: usize) -> (n: usize)
    requires
        i <= line@.len(),
    ensures
        n == bare_len_from(line@, i as int),
        i + n <= line@.len(),
    decreases line@.len() - i,
{
    if i >= line.len() {
        0
    } else if !is_bare_char_exec(line[i]) {
        0
    } else {
        let m = bare_len_exec(line, i + 1);
        1 + m
    }
}

fn scan_string_exec(line: &Vec<char>, i: usize) -> (r: Option<(Vec<char>, usize)>)
    ensures
        match r {
            Some(p) => scan_string(line@, i as int) == Some((p.0@, p.1 as int)) && p.1
                <= line@.len(),
            None => scan_string(line@, i as int) is None,
        },
    decreases line@.len() - i,
{
    if i >= line.len() {
        None
    } else {
        let c = line[i];
        if c == '"' {
            Some((Vec::new(), i + 1))
        } else if c == '\\' {
            if i + 1 >= line.len() {
                None
            } else {
                match unescape_exec(line[i + 1]) {
                    Some(u) => match scan_string_exec(line, i + 2) {
                        Some((t, j)) => {
                            let mut t = t;
                            let ghost t0 = t@;
                            t.insert(0, u);
                            proof {
                                assert(t@ =~= seq![u] + t0);
                            }
                            Some((t, j))
                        },
                        None => None,
                    },
                    None => None,
                }
            }
        } else {
            match scan_string_exec(line, i + 1) {
                Some((t, j)) => {
                    let mut t = t;
                    let ghost t0 = t@;
                    t.insert(0, c);
                    proof {
                        assert(t@ =~= seq![c] + t0);
                    }
                    Some((t, j))
                },
                None => None,
            }
        }
    }
}

fn parse_key_exec(line: &Vec<char>, i: usize) -> (r: Option<(String, usize)>)
    requires
        i <= line@.len(),
    ensures
        match r {
            Some(p) => parse_key_at(line@, i as int) == Some((p.0@, p.1 as int)) && p.1
                <= line@.len(),
            None => parse_key_at(line@, i as int) is None,
        },
{
    if i < line.len() && line[i] == '"' {
        match scan_string_exec(line, i + 1) {
            Some((t, j)) => Some((string_of_chars(&t), j)),
            None => None,
        }
    } else {
        let n = bare_len_exec(line, i);
        if n == 0 {
            None
        } else {
            let sub = copy_range(line, i, i + n);
            Some((string_of_chars(&sub), i + n))
        }
    }
}

/// One classified line of the file, with its decoded pieces.
pub enum LineValue {
    /// Empty or comment line.
    BlankLine,
    /// A `[name]` header.
    SectionLine(String),
    /// A `key = "value"` leaf.
    LeafLine(String, String),
    /// A line in no recognized shape.
    BadLine,
}

impl View for LineValue {
    type V = LineForm;

    open spec fn view(&self) -> LineForm {
        match self {
            LineValue::BlankLine => LineForm::Blank,
            LineValue::SectionLine(n) => LineForm::SectionHead(n@),
            LineValue::LeafLine(k, v) => LineForm::LeafPair(k@, v@),
            LineValue::BadLine => LineForm::Malformed,
        }
    }
}

fn classify_exec(line: &Vec<char>) -> (r: LineValue)
    ensures
        r@ == classify_line(line@),
{
    if line.len() == 0 {
        return LineValue::BlankLine;
    }
    let c0 = line[0];
    if c0 == '#' {
        return LineValue::BlankLine;
    }
    if c0 == '[' {
        match parse_key_exec(line, 1) {
            Some((name, j)) => {
                if j < line.len() && j + 1 == line.len() && line[j] == ']' {
                    LineValue::SectionLine(name)
                } else {
                    LineValue::BadLine
                }
            },
            None => LineValue::BadLine,
        }
    } else {
        match parse_key_exec(line, 0) {
            Some((k, j)) => {
                if line.len() - j >= 4 && line[j] == ' ' && line[j + 1] == '=' && line[j + 2]
                    == ' ' && line[j + 3] == '"' {
                    match scan_string_exec(line, j + 4) {
                        Some((v, m)) => {
                            if m == line.len() {
                                LineValue::LeafLine(k, string_of_chars(&v))
                            } else {
                                LineValue::BadLine
                            }
                        },
                        None => LineValue::BadLine,
                    }
                } else {
                    LineValue::BadLine
                }
            },
            None => LineValue::BadLine,
        }
    }
}

fn first_nl_exec(v: &Vec<char>, i: usize) -> (n: usize)
    requires
        i <= v@.len(),
    ensures
        n == first_nl_from(v@, i as int),
        i + n <= v@.len(),
    decreases v@.len() - i,
{
    if i >= v.len() {
        0
    } else if v[i] == '\n' {
        0
    } else {
        let m = first_nl_exec(v, i + 1);
        1 + m
    }
}

proof fn lemma_first_nl_shift(s: Seq<char>, i: int, j: int)
    requires
        0 <= i,
        0 <= j,
        i + j <= s.len(),
    ensures
        first_nl_from(s, i + j) == first_nl_from(s.skip(i), j),
    decreases s.len() - i - j,
{
    if i + j < s.len() {
        assert(s.skip(i)[j] == s[i + j]);
        if s[i + j] != '\n' {
            lemma_first_nl_shift(s, i, j + 1);
        }
    }
}

fn split_from_exec(v: &Vec<char>, i: usize) -> (r: Vec<Vec<char>>)
    requires
        i <= v@.len(),
    ensures
        lines_view(r@) == split_lines(v@.skip(i as int)),
    decreases v@.len() - i,
{
    if i >= v.len() {
        let r: Vec<Vec<char>> = Vec::new();
        proof {
            assert(v@.skip(i as int) =~= Seq::<char>::empty());
            assert(lines_view(r@) =~= split_lines(v@.skip(i as int)));
        }
        r
    } else {
        let n = first_nl_exec(v, i);
        proof {
            lemma_first_nl_shift(v@, i as int, 0);
        }
        if i + n >= v.len() {
            let line = copy_range(v, i, v.len());
            let mut r: Vec<Vec<char>> = Vec::new();
            let ghost lv = line@;
            r.push(line);
            proof {
                assert(lv =~= v@.skip(i as int));
                assert(lines_view(r@) =~= seq![lv]);
            }
            r
        } else {
            let line = copy_range(v, i, i + n);
            let mut rest = split_from_exec(v, i + n + 1);
            let ghost restv = lines_view(rest@);
            let ghost lv = line@;
            rest.insert(0, line);
            proof {
                assert(lv =~= v@.skip(i as int).take(n as int));
                assert(v@.skip(i as int).skip(n + 1) =~= v@.skip(i + n + 1 as int));
                assert(lines_view(rest@) =~= seq![lv] + restv);
            }
            rest
        }
    }
}

fn body_len_exec(cv: &Vec<LineValue>, i: usize, Ghost(lines): Ghost<Seq<Seq<char>>>) -> (n: usize)
    requires
        cv@.len() == lines.len(),
        forall|j: int| 0 <= j < lines.len() ==> #[trigger] cv@[j]@ == classify_line(lines[j]),
        i <= cv@.len(),
    ensures
        n == body_len(lines.skip(i as int)),
        i + n <= cv@.len(),
    decreases cv@.len() - i,
{
    if i >= cv.len() {
        proof {
            assert(lines.skip(i as int) =~= Seq::<Seq<char>>::empty());
        }
        0
    } else {
        proof {
            assert(cv@[i as int]@ == classify_line(lines[i as int]));
            assert(lines.skip(i as int)[0] == lines[i as int]);
            assert(lines.skip(i as int).drop_first() =~= lines.skip(i + 1 as int));
        }
        match &cv[i] {
            LineValue::SectionLine(_) => 0,
            _ => {
                let m = body_len_exec(cv, i + 1, Ghost(lines));
                1 + m
            },
        }
    }
}

fn parse_entries_exec(
    cv: &Vec<LineValue>,
    i: usize,
    end: usize,
    Ghost(lines): Ghost<Seq<Seq<char>>>,
) -> (r: Option<Vec<ConfigEntry>>)
    requires
        cv@.len() == lines.len(),
        forall|j: int| 0 <= j < lines.len() ==> #[trigger] cv@[j]@ == classify_line(lines[j]),
        i <= end <= cv@.len(),
    ensures
        match r {
            Some(es) => parse_entries(lines.subrange(i as int, end as int)) == Some(
                entries_view(es@),
            ),
            None => parse_entries(lines.subrange(i as int, end as int)) is None,
        },
    decreases end - i,
{
    if i >= end {
        let r: Vec<ConfigEntry> = Vec::new();
        proof {
            assert(lines.subrange(i as int, end as int) =~= Seq::<Seq<char>>::empty());
            assert(entries_view(r@) =~= Seq::<Pair>::empty());
        }
        Some(r)
    } else {
        proof {
            assert(cv@[i as int]@ == classify_line(lines[i as int]));
            assert(lines.subrange(i as int, end as int)[0] == lines[i as int]);
            assert(lines.subrange(i as int, end as int).drop_first() =~= lines.subrange(
                i + 1 as int,
                end as int,
            ));
        }
        match &cv[i] {
            LineValue::BlankLine => parse_entries_exec(cv, i + 1, end, Ghost(lines)),
            LineValue::LeafLine(k, v) => match parse_entries_exec(cv, i + 1, end, Ghost(lines)) {
                Some(es) => {
                    match pairs_vec_lookup(&es, k) {
                        Some(_) => None,
                        None => {
                            let mut es = es;
                            let ghost es0 = entries_view(es@);
                            let e = ConfigEntry { key: k.clone(), value: v.clone() };
                            let ghost ev = e@;
                            es.insert(0, e);
                            proof {
                                assert(entries_view(es@) =~= seq![ev] + es0);
                            }
                            Some(es)
                        },
                    }
                },
                None => None,
            },
            _ => None,
        }
    }
}

fn parse_from_exec(cv: &Vec<LineValue>, i: usize, Ghost(lines): Ghost<Seq<Seq<char>>>) -> (r:
    Option<ConfigDoc>)
    requires
        cv@.len() == lines.len(),
        forall|j: int| 0 <= j < lines.len() ==> #[trigger] cv@[j]@ == classify_line(lines[j]),
        i <= cv@.len(),
    ensures
        match r {
            Some(d) => parse_lines(lines.skip(i as int)) == Some(d@),
            None => parse_lines(lines.skip(i as int)) is None,
        },
    decreases cv@.len() - i,
{
    if i >= cv.len() {
        let d = ConfigDoc::new();
        proof {
            assert(lines.skip(i as int) =~= Seq::<Seq<char>>::empty());
        }
        Some(d)
    } else {
        proof {
            assert(cv@[i as int]@ == classify_line(lines[i as int]));
            assert(lines.skip(i as int)[0] == lines[i as int]);
            assert(lines.skip(i as int).drop_first() =~= lines.skip(i + 1 as int));
        }
        match &cv[i] {
            LineValue::BlankLine => parse_from_exec(cv, i + 1, Ghost(lines)),
            LineValue::BadLine => None,
            LineValue::LeafLine(k, v) => match parse_from_exec(cv, i + 1, Ghost(lines)) {
                Some(d) => {
                    let has_top = pairs_vec_lookup(&d.tops, k).is_some();
                    let has_sec = sections_vec_find(&d.sections, k).is_some();
                    if has_top || has_sec {
                        None
                    } else {
                        let mut d = d;
                        let ghost t0 = entries_view(d.tops@);
                        let e = ConfigEntry { key: k.clone(), value: v.clone() };
                        let ghost ev = e@;
                        d.tops.insert(0, e);
                        proof {
                            assert(entries_view(d.tops@) =~= seq![ev] + t0);
                        }
                        Some(d)
                    }
                },
                None => None,
            },
            LineValue::SectionLine(name) => {
                let n = body_len_exec(cv, i + 1, Ghost(lines));
                proof {
                    assert(lines.skip(i + 1 as int).take(n as int) =~= lines.subrange(
                        i + 1 as int,
                        i + 1 + n as int,
                    ));
                    assert(lines.skip(i + 1 as int).skip(n as int) =~= lines.skip(
                        i + 1 + n as int,
                    ));
                }
                match parse_entries_exec(cv, i + 1, i + 1 + n, Ghost(lines)) {
                    Some(es) => match parse_from_exec(cv, i + 1 + n, Ghost(lines)) {
                        Some(d) => {
                            if d.tops.len() != 0 {
                                None
                            } else {
                                match sections_vec_find(&d.sections, name) {
                                    Some(_) => None,
                                    None => {
                                        let mut d = d;
                                        let ghost s0 = crate::document::sections_view(d.sections@);
                                        let sec = ConfigSection {
                                            name: name.clone(),
                                            entries: es,
                                        };
                                        let ghost sv = sec@;
                                        d.sections.insert(0, sec);
                                        proof {
                                            assert(crate::document::sections_view(d.sections@)
                                                =~= seq![sv] + s0);
                                        }
                                        Some(d)
                                    },
                                }
                            }
                        },
                        None => None,
                    },
                    None => None,
                }
            },
        }
    }
}

impl ConfigDoc {
    /// Read a document from the config file's text.  Succeeds exactly on
    /// a text the codec understands; anything else is `ConfigCorrupt`,
    /// and absence of a file is the caller's empty-document case, not an
    /// error of this function.
    pub fn parse_text(text: &str) -> (r: Result<ConfigDoc, ConfigError>)
        ensures
            r matches Ok(d) ==> spec_parse(text@) == Some(d@) && model_wf(d@),
            r is Err ==> spec_parse(text@) is None && r == Err::<ConfigDoc, ConfigError>(
                ConfigError::ConfigCorrupt,
            ),
    {
        let chars = chars_of_str(text);
        let linevecs = split_from_exec(&chars, 0);
        proof {
            assert(chars@.skip(0) =~= text@);
        }
        let ghost lines = lines_view(linevecs@);
        let n = linevecs.len();
        let mut cv: Vec<LineValue> = Vec::new();
        let mut i: usize = 0;
        while i < n
            invariant
                i <= n,
                n == linevecs@.len(),
                lines == lines_view(linevecs@),
                cv@.len() == i,
                forall|j: int| 0 <= j < i ==> #[trigger] cv@[j]@ == classify_line(lines[j]),
            decreases n - i,
        {
            let c = classify_exec(&linevecs[i]);
            cv.push(c);
            i += 1;
        }
        proof {
            assert(lines.skip(0) =~= lines);
        }
        match parse_from_exec(&cv, 0, Ghost(lines)) {
            Some(d) => {
                proof {
                    lemma_parse_lines_wf(lines);
                }
                Ok(d)
            },
            None => Err(ConfigError::ConfigCorrupt),
        }
    }
}

proof fn lemma_escape_append(s: Seq<char>, c: char)
    ensures
        escape_seq(s.push(c)) == escape_seq(s) + escape_one(c),
    decreases s.len(),
{
    if s.len() == 0 {
        assert(s.push(c).drop_first() =~= Seq::<char>::empty());
        assert(escape_seq(s.push(c).drop_first()) == Seq::<char>::empty());
        assert(s.push(c)[0] == c);
        assert(escape_seq(s.push(c)) =~= escape_seq(s) + escape_one(c));
    } else {
        assert(s.push(c).drop_first() =~= s.drop_first().push(c));
        lemma_escape_append(s.drop_first(), c);
        assert(escape_one(s[0]) + (escape_seq(s.drop_first()) + escape_one(c)) =~= (escape_one(
            s[0],
        ) + escape_seq(s.drop_first())) + escape_one(c));
    }
}

fn push_escaped(out: &mut Vec<char>, s: &Vec<char>)
    ensures
        final(out)@ == old(out)@ + escape_seq(s@),
{
    let n = s.len();
    let mut i: usize = 0;
    while i < n
        invariant
            i <= n,
            n == s@.len(),
            out@ == old(out)@ + escape_seq(s@.take(i as int)),
        decreases n - i,
    {
        let c = s[i];
        if c == '"' {
            out.push('\\');
            out.push('"');
        } else if c == '\\' {
            out.push('\\');
            out.push('\\');
        } else if c == '\n' {
            out.push('\\');
            out.push('n');
        } else {
            out.push(c);
        }
        proof {
            assert(s@.take(i + 1 as int) =~= s@.take(i as int).push(s@[i as int]));
            lemma_escape_append(s@.take(i as int), s@[i as int]);
            assert(out@ =~= old(out)@ + escape_seq(s@.take(i + 1 as int)));
        }
        i += 1;
    }
    proof {
        assert(s@.take(n as int) =~= s@);
    }
}

fn push_quoted(out: &mut Vec<char>, s: &Vec<char>)
    ensures
        final(out)@ == old(out)@ + quote_text(s@),
{
    out.push('"');
    push_escaped(out, s);
    out.push('"');
    proof {
        assert(out@ =~= old(out)@ + quote_text(s@));
    }
}

fn is_bare_key_exec(k: &Vec<char>) -> (r: bool)
    ensures
        r == is_bare_key(k@),
{
    if k.len() == 0 {
        return false;
    }
    let n = k.len();
    let mut i: usize = 0;
    while i < n
        invariant
            i <= n,
            n == k@.len(),
            forall|j: int| 0 <= j < i ==> is_bare_char(k@[j]),
        decreases n - i,
    {
        if !is_bare_char_exec(k[i]) {
            return false;
        }
        i += 1;
    }
    true
}

fn push_key(out: &mut Vec<char>, k: &Vec<char>)
    ensures
        final(out)@ == old(out)@ + render_key(k@),
{
    if is_bare_key_exec(k) {
        let n = k.len();
        let mut i: usize = 0;
        while i < n
            invariant
                i <= n,
                n == k@.len(),
                out@ == old(out)@ + k@.take(i as int),
            decreases n - i,
        {
            out.push(k[i]);
            proof {
                assert(k@.take(i + 1 as int) =~= k@.take(i as int).push(k@[i as int]));
                assert(out@ =~= old(out)@ + k@.take(i + 1 as int));
            }
            i += 1;
        }
        proof {
            assert(k@.take(n as int) =~= k@);
        }
    } else {
        push_quoted(out, k);
    }
}

fn push_entry_line(out: &mut Vec<char>, k: &Vec<char>, v: &Vec<char>)
    ensures
        final(out)@ == old(out)@ + entry_line(k@, v@) + seq!['\n'],
{
    push_key(out, k);
    out.push(' ');
    out.push('=');
    out.push(' ');
    push_quoted(out, v);
    out.push('\n');
    proof {
        assert(out@ =~= old(out)@ + entry_line(k@, v@) + seq!['\n']);
    }
}

fn push_header_line(out: &mut Vec<char>, name: &Vec<char>)
    ensures
        final(out)@ == old(out)@ + header_line(name@) + seq!['\n'],
{
    out.push('[');
    push_key(out, name);
    out.push(']');
    out.push('\n');
    proof {
        assert(out@ =~= old(out)@ + header_line(name@) + seq!['\n']);
    }
}

proof fn lemma_render_pairs_append(es: Seq<Pair>, p: Pair)
    ensures
        render_pairs_text(es.push(p)) == render_pairs_text(es) + entry_line(p.0, p.1)
            + seq!['\n'],
    decreases es.len(),
{
    if es.len() == 0 {
        assert(es.push(p).drop_first() =~= Seq::<Pair>::empty());
        assert(render_pairs_text(es.push(p).drop_first()) == Seq::<char>::empty());
        assert(es.push(p)[0] == p);
        assert(render_pairs_text(es.push(p)) =~= render_pairs_text(es) + entry_line(p.0, p.1)
            + seq!['\n']);
    } else {
        assert(es.push(p).drop_first() =~= es.drop_first().push(p));
        lemma_render_pairs_append(es.drop_first(), p);
        assert(render_pairs_text(es.push(p)) =~= render_pairs_text(es) + entry_line(p.0, p.1)
            + seq!['\n']);
    }
}

proof fn lemma_render_sections_append(ss: Seq<(Seq<char>, Seq<Pair>)>, x: (Seq<char>, Seq<Pair>))
    ensures
        render_sections_text(ss.push(x)) == render_sections_text(ss) + header_line(x.0)
            + seq!['\n'] + render_pairs_text(x.1),
    decreases ss.len(),
{
    if ss.len() == 0 {
        assert(ss.push(x).drop_first() =~= Seq::<(Seq<char>, Seq<Pair>)>::empty());
        assert(render_sections_text(ss.push(x).drop_first()) == Seq::<char>::empty());
        assert(ss.push(x)[0] == x);
        assert(render_sections_text(ss.push(x)) =~= render_sections_text(ss) + header_line(x.0)
            + seq!['\n'] + render_pairs_text(x.1));
    } else {
        assert(ss.push(x).drop_first() =~= ss.drop_first().push(x));
        lemma_render_sections_append(ss.drop_first(), x);
        assert(render_sections_text(ss.push(x)) =~= render_sections_text(ss) + header_line(x.0)
            + seq!['\n'] + render_pairs_text(x.1));
    }
}

fn render_pairs_into(out: &mut Vec<char>, es: &Vec<ConfigEntry>)
    ensures
        final(out)@ == old(out)@ + render_pairs_text(entries_view(es@)),
{
    let n = es.len();
    let mut i: usize = 0;
    proof {
        assert(entries_view(es@).take(0) =~= Seq::<Pair>::empty());
        assert(out@ =~= old(out)@ + render_pairs_text(entries_view(es@).take(0)));
    }
    while i < n
        invariant
            i <= n,
            n == es@.len(),
            out@ == old(out)@ + render_pairs_text(entries_view(es@).take(i as int)),
        decreases n - i,
    {
        let kc = chars_of_str(es[i].key.as_str());
        let vc = chars_of_str(es[i].value.as_str());
        push_entry_line(out, &kc, &vc);
        proof {
            assert(entries_view(es@).take(i + 1 as int) =~= entries_view(es@).take(
                i as int,
            ).push(es@[i as int]@));
            lemma_render_pairs_append(entries_view(es@).take(i as int), es@[i as int]@);
            assert(out@ =~= old(out)@ + render_pairs_text(entries_view(es@).take(i + 1 as int)));
        }
        i += 1;
    }
    proof {
        assert(entries_view(es@).take(n as int) =~= entries_view(es@));
    }
}

fn render_sections_into(out: &mut Vec<char>, ss: &Vec<ConfigSection>)
    ensures
        final(out)@ == old(out)@ + render_sections_text(crate::document::sections_view(ss@)),
{
    let n = ss.len();
    let mut i: usize = 0;
    proof {
        assert(crate::document::sections_view(ss@).take(0) =~= Seq::<(Seq<char>, Seq<Pair>)>::empty());
        assert(out@ =~= old(out)@ + render_sections_text(
            crate::document::sections_view(ss@).take(0),
        ));
    }
    while i < n
        invariant
            i <= n,
            n == ss@.len(),
            out@ == old(out)@ + render_sections_text(
                crate::document::sections_view(ss@).take(i as int),
            ),
        decreases n - i,
    {
        let nc = chars_of_str(ss[i].name.as_str());
        push_header_line(out, &nc);
        render_pairs_into(out, &ss[i].entries);
        proof {
            assert(crate::document::sections_view(ss@).take(i + 1 as int)
                =~= crate::document::sections_view(ss@).take(i as int).push(ss@[i as int]@));
            lemma_render_sections_append(
                crate::document::sections_view(ss@).take(i as int),
                ss@[i as int]@,
            );
            assert(out@ =~= old(out)@ + render_sections_text(
                crate::document::sections_view(ss@).take(i + 1 as int),
            ));
        }
        i += 1;
    }
    proof {
        assert(crate::document::sections_view(ss@).take(n as int) =~= crate::document::sections_view(
            ss@,
        ));
    }
}

impl ConfigDoc {
    /// Write the whole document back out as text, in the stable
    /// canonical form that `parse_text` reads.
    pub fn render(&self) -> (r: String)
        ensures
            r@ == spec_render(self@),
    {
        let mut out: Vec<char> = Vec::new();
        render_pairs_into(&mut out, &self.tops);
        render_sections_into(&mut out, &self.sections);
        proof {
            assert(out@ =~= spec_render(self@));
        }
        string_of_chars(&out)
    }
}


/// No newline anywhere in the sequence.
pub open spec fn no_nl(s: Seq<char>) -> bool {
    forall|j: int| 0 <= j < s.len() ==> s[j] != '\n'
}

proof fn lemma_escape_no_nl(s: Seq<char>)
    ensures
        no_nl(escape_seq(s)),
    decreases s.len(),
{
    if s.len() > 0 {
        lemma_escape_no_nl(s.drop_first());
        assert forall|j: int| 0 <= j < escape_seq(s).len() implies escape_seq(s)[j] != '\n' by {
            let e1 = escape_one(s[0]);
            if j < e1.len() {
                assert(escape_seq(s)[j] == e1[j]);
            } else {
                assert(escape_seq(s)[j] == escape_seq(s.drop_first())[j - e1.len()]);
            }
        }
    }
}

proof fn lemma_render_key_no_nl(k: Seq<char>)
    ensures
        no_nl(render_key(k)),
{
    if is_bare_key(k) {
    } else {
        lemma_escape_no_nl(k);
    }
}

proof fn lemma_entry_line_no_nl(k: Seq<char>, v: Seq<char>)
    ensures
        no_nl(entry_line(k, v)),
{
    lemma_render_key_no_nl(k);
    lemma_escape_no_nl(v);
}

proof fn lemma_header_line_no_nl(name: Seq<char>)
    ensures
        no_nl(header_line(name)),
{
    lemma_render_key_no_nl(name);
}

proof fn lemma_first_nl_from_at(s: Seq<char>, i: int, n: int)
    requires
        0 <= i,
        0 <= n,
        i + n <= s.len(),
        forall|j: int| i <= j < i + n ==> s[j] != '\n',
        i + n < s.len() ==> s[i + n] == '\n',
    ensures
        first_nl_from(s, i) == n,
    decreases n,
{
    if n > 0 {
        lemma_first_nl_from_at(s, i + 1, n - 1);
    }
}

/// Splitting text that starts with one newline-free line takes exactly
/// that line off the front.
proof fn lemma_split_prepend(line: Seq<char>, rest: Seq<char>)
    requires
        no_nl(line),
    ensures
        split_lines(line + seq!['\n'] + rest) == seq![line] + split_lines(rest),
{
    let s = line + seq!['\n'] + rest;
    assert forall|j: int| 0 <= j < line.len() implies s[j] != '\n' by {
        assert(s[j] == line[j]);
    }
    assert(s[line.len() as int] == '\n');
    lemma_first_nl_from_at(s, 0, line.len() as int);
    assert(s.take(line.len() as int) =~= line);
    assert(s.skip(line.len() as int + 1) =~= rest);
    assert(split_lines(s) =~= seq![line] + split_lines(rest));
}

proof fn lemma_scan_escaped(line: Seq<char>, p: int, s: Seq<char>)
    requires
        0 <= p,
        p + escape_seq(s).len() + 1 <= line.len(),
        line.subrange(p, p + escape_seq(s).len() + 1) == escape_seq(s) + seq!['"'],
    ensures
        scan_string(line, p) == Some((s, p + escape_seq(s).len() + 1)),
    decreases s.len(),
{
    let esc = escape_seq(s);
    if s.len() == 0 {
        assert(line[p] == (esc + seq!['"'])[0]);
        assert(line[p] == '"');
        assert(s =~= Seq::<char>::empty());
    } else {
        let c = s[0];
        let e1 = escape_one(c);
        let rest_esc = escape_seq(s.drop_first());
        assert(esc == e1 + rest_esc);
        assert(line[p] == (esc + seq!['"'])[0]);
        if c == '"' || c == '\\' || c == '\n' {
            assert(e1.len() == 2);
            assert(line[p] == '\\');
            assert(line[p + 1] == (esc + seq!['"'])[1]);
            assert(line[p + 1] == e1[1]);
            assert(unescape_one(e1[1]) == Some(c));
            assert(line.subrange(p + 2, p + 2 + rest_esc.len() + 1) =~= rest_esc + seq!['"']) by {
                assert forall|j: int| 0 <= j < rest_esc.len() + 1 implies line.subrange(
                    p + 2,
                    p + 2 + rest_esc.len() + 1,
                )[j] == (rest_esc + seq!['"'])[j] by {
                    assert(line.subrange(p + 2, p + 2 + rest_esc.len() + 1)[j] == line[p + 2 + j]);
                    assert(line[p + 2 + j] == (esc + seq!['"'])[2 + j]);
                }
            }
            lemma_scan_escaped(line, p + 2, s.drop_first());
            assert(seq![c] + s.drop_first() =~= s);
        } else {
            assert(e1.len() == 1);
            assert(line[p] == c);
            assert(line.subrange(p + 1, p + 1 + rest_esc.len() + 1) =~= rest_esc + seq!['"']) by {
                assert forall|j: int| 0 <= j < rest_esc.len() + 1 implies line.subrange(
                    p + 1,
                    p + 1 + rest_esc.len() + 1,
                )[j] == (rest_esc + seq!['"'])[j] by {
                    assert(line.subrange(p + 1, p + 1 + rest_esc.len() + 1)[j] == line[p + 1 + j]);
                    assert(line[p + 1 + j] == (esc + seq!['"'])[1 + j]);
                }
            }
            lemma_scan_escaped(line, p + 1, s.drop_first());
            assert(seq![c] + s.drop_first() =~= s);
        }
    }
}

proof fn lemma_bare_at(line: Seq<char>, p: int, k: Seq<char>)
    requires
        0 <= p,
        p + k.len() <= line.len(),
        forall|j: int| 0 <= j < k.len() ==> is_bare_char(k[j]),
        line.subrange(p, p + k.len()) == k,
        p + k.len() == line.len() || !is_bare_char(line[p + k.len()]),
    ensures
        bare_len_from(line, p) == k.len(),
    decreases k.len(),
{
    if k.len() == 0 {
    } else {
        assert(line[p] == line.subrange(p, p + k.len())[0]);
        assert(line[p] == k[0]);
        assert(line.subrange(p + 1, p + k.len()) =~= k.drop_first()) by {
            assert forall|j: int| 0 <= j < k.len() - 1 implies line.subrange(
                p + 1,
                p + k.len(),
            )[j] == k.drop_first()[j] by {
                assert(line.subrange(p + 1, p + k.len())[j] == line[p + 1 + j]);
                assert(line[p + 1 + j] == line.subrange(p, p + k.len())[1 + j]);
            }
        }
        lemma_bare_at(line, p + 1, k.drop_first());
    }
}

proof fn lemma_parse_key_rendered(line: Seq<char>, p: int, k: Seq<char>)
    requires
        0 <= p,
        p + render_key(k).len() <= line.len(),
        line.subrange(p, p + render_key(k).len()) == render_key(k),
        p + render_key(k).len() == line.len() || !is_bare_char(line[p + render_key(k).len()]),
    ensures
        parse_key_at(line, p) == Some((k, p + render_key(k).len())),
{
    let rk = render_key(k);
    if is_bare_key(k) {
        assert(line[p] == line.subrange(p, p + rk.len())[0]);
        assert(line[p] == k[0]);
        assert(!is_bare_char('"')) by {
            assert('"' as u32 == 34);
        }
        assert(line[p] != '"');
        lemma_bare_at(line, p, k);
        assert(line.subrange(p, p + k.len()) == k);
    } else {
        assert(line[p] == line.subrange(p, p + rk.len())[0]);
        assert(line[p] == '"');
        let esc = escape_seq(k);
        assert(line.subrange(p + 1, p + 1 + esc.len() + 1) =~= esc + seq!['"']) by {
            assert forall|j: int| 0 <= j < esc.len() + 1 implies line.subrange(
                p + 1,
                p + 1 + esc.len() + 1,
            )[j] == (esc + seq!['"'])[j] by {
                assert(line.subrange(p + 1, p + 1 + esc.len() + 1)[j] == line[p + 1 + j]);
                assert(line[p + 1 + j] == line.subrange(p, p + rk.len())[1 + j]);
                assert(rk[1 + j] == (seq!['"'] + esc + seq!['"'])[1 + j]);
            }
        }
        lemma_scan_escaped(line, p + 1, k);
    }
}

/// A rendered leaf line reads back as exactly that leaf.
proof fn lemma_classify_entry(k: Seq<char>, v: Seq<char>)
    ensures
        classify_line(entry_line(k, v)) == LineForm::LeafPair(k, v),
{
    let line = entry_line(k, v);
    let rk = render_key(k);
    let j = rk.len() as int;
    assert(line[0] == rk[0]);
    assert(line[j] == ' ' && line[j + 1] == '=' && line[j + 2] == ' ');
    assert(line[j + 3] == '"');
    assert(!is_bare_char(' ')) by {
        assert(' ' as u32 == 32);
    }
    if is_bare_key(k) {
        assert(is_bare_char(line[0]));
        assert(line[0] != '#') by {
            assert('#' as u32 == 35);
        }
        assert(line[0] != '[') by {
            assert('[' as u32 == 91);
        }
    } else {
        assert(line[0] == '"');
    }
    assert(line.subrange(0, j) =~= rk);
    lemma_parse_key_rendered(line, 0, k);
    let esc = escape_seq(v);
    assert(line.subrange(j + 4, j + 4 + esc.len() + 1) =~= esc + seq!['"']) by {
        assert forall|q: int| 0 <= q < esc.len() + 1 implies line.subrange(
            j + 4,
            j + 4 + esc.len() + 1,
        )[q] == (esc + seq!['"'])[q] by {
            assert(line.subrange(j + 4, j + 4 + esc.len() + 1)[q] == line[j + 4 + q]);
            assert(line[j + 4 + q] == quote_text(v)[1 + q]);
        }
    }
    lemma_scan_escaped(line, j + 4, v);
    assert(j + 4 + esc.len() + 1 == line.len());
}

/// A rendered header line reads back as exactly that section name.
proof fn lemma_classify_header(name: Seq<char>)
    ensures
        classify_line(header_line(name)) == LineForm::SectionHead(name),
{
    let line = header_line(name);
    let rk = render_key(name);
    let j = 1 + rk.len() as int;
    assert(line[0] == '[');
    assert(line[j] == ']');
    assert(!is_bare_char(']')) by {
        assert(']' as u32 == 93);
    }
    assert(line.subrange(1, j) =~= rk);
    lemma_parse_key_rendered(line, 1, name);
    assert(j + 1 == line.len());
}

/// The rendered lines of a list of leaves.
spec fn entry_lines(es: Seq<Pair>) -> Seq<Seq<char>>
    decreases es.len(),
{
    if es.len() == 0 {
        Seq::empty()
    } else {
        seq![entry_line(es[0].0, es[0].1)] + entry_lines(es.drop_first())
    }
}

proof fn lemma_entry_lines_len(es: Seq<Pair>)
    ensures
        entry_lines(es).len() == es.len(),
    decreases es.len(),
{
    if es.len() > 0 {
        lemma_entry_lines_len(es.drop_first());
    }
}

/// Splitting leaf text followed by anything yields the leaf lines and
/// then the split of the rest.
proof fn lemma_split_pairs(es: Seq<Pair>, rest: Seq<char>)
    ensures
        split_lines(render_pairs_text(es) + rest) == entry_lines(es) + split_lines(rest),
    decreases es.len(),
{
    if es.len() == 0 {
        assert(render_pairs_text(es) + rest =~= rest);
        assert(entry_lines(es) + split_lines(rest) =~= split_lines(rest));
    } else {
        let l0 = entry_line(es[0].0, es[0].1);
        let tail_text = render_pairs_text(es.drop_first()) + rest;
        assert(render_pairs_text(es) + rest =~= l0 + seq!['\n'] + tail_text);
        lemma_entry_line_no_nl(es[0].0, es[0].1);
        lemma_split_prepend(l0, tail_text);
        lemma_split_pairs(es.drop_first(), rest);
        assert(seq![l0] + (entry_lines(es.drop_first()) + split_lines(rest)) =~= entry_lines(es)
            + split_lines(rest));
    }
}

/// Leaf lines followed by a header (or nothing) form exactly the body
/// of a section.
proof fn lemma_body_len_entries(es: Seq<Pair>, tail: Seq<Seq<char>>)
    requires
        tail.len() == 0 || classify_line(tail[0]) is SectionHead,
    ensures
        body_len(entry_lines(es) + tail) == es.len(),
    decreases es.len(),
{
    if es.len() == 0 {
        assert(entry_lines(es) + tail =~= tail);
    } else {
        lemma_classify_entry(es[0].0, es[0].1);
        let lines = entry_lines(es) + tail;
        assert(lines[0] == entry_line(es[0].0, es[0].1));
        assert(lines.drop_first() =~= entry_lines(es.drop_first()) + tail);
        lemma_body_len_entries(es.drop_first(), tail);
    }
}

/// Reading back the rendered leaf lines yields exactly those leaves.
proof fn lemma_parse_entries_round(es: Seq<Pair>)
    requires
        pairs_wf(es),
    ensures
        parse_entries(entry_lines(es)) == Some(es),
    decreases es.len(),
{
    if es.len() == 0 {
        assert(es =~= Seq::<Pair>::empty());
    } else {
        lemma_classify_entry(es[0].0, es[0].1);
        let lines = entry_lines(es);
        assert(lines[0] == entry_line(es[0].0, es[0].1));
        assert(lines.drop_first() =~= entry_lines(es.drop_first()));
        lemma_parse_entries_round(es.drop_first());
        assert(seq![(es[0].0, es[0].1)] + es.drop_first() =~= es);
    }
}

/// The split of rendered sections starts with a header, if anything.
proof fn lemma_sections_lines_head(ss: Seq<(Seq<char>, Seq<Pair>)>)
    ensures
        split_lines(render_sections_text(ss)).len() == 0 || classify_line(
            split_lines(render_sections_text(ss))[0],
        ) is SectionHead,
    decreases ss.len(),
{
    if ss.len() == 0 {
        assert(split_lines(render_sections_text(ss)).len() == 0);
    } else {
        let h = header_line(ss[0].0);
        let tail_text = render_pairs_text(ss[0].1) + render_sections_text(ss.drop_first());
        assert(render_sections_text(ss) =~= h + seq!['\n'] + tail_text);
        lemma_header_line_no_nl(ss[0].0);
        lemma_split_prepend(h, tail_text);
        lemma_classify_header(ss[0].0);
    }
}

/// Reading back rendered sections yields exactly those sections and no
/// top-level scalars.
proof fn lemma_sections_round(ss: Seq<(Seq<char>, Seq<Pair>)>)
    requires
        sections_wf(ss, Seq::empty()),
    ensures
        parse_lines(split_lines(render_sections_text(ss))) == Some(
            DocModel { tops: Seq::empty(), sections: ss },
        ),
    decreases ss.len(),
{
    if ss.len() == 0 {
        assert(render_sections_text(ss).len() == 0);
        assert(split_lines(render_sections_text(ss)) =~= Seq::<Seq<char>>::empty());
        assert(DocModel { tops: Seq::<Pair>::empty(), sections: ss } =~= model_empty());
    } else {
        let name = ss[0].0;
        let es = ss[0].1;
        let h = header_line(name);
        let tail_text = render_pairs_text(es) + render_sections_text(ss.drop_first());
        assert(render_sections_text(ss) =~= h + seq!['\n'] + tail_text);
        lemma_header_line_no_nl(name);
        lemma_split_prepend(h, tail_text);
        lemma_classify_header(name);
        let sec_lines = split_lines(render_sections_text(ss.drop_first()));
        lemma_split_pairs(es, render_sections_text(ss.drop_first()));
        let lines = split_lines(render_sections_text(ss));
        assert(lines =~= seq![h] + (entry_lines(es) + sec_lines));
        assert(lines[0] == h);
        let rest = lines.drop_first();
        assert(rest =~= entry_lines(es) + sec_lines);
        lemma_sections_lines_head(ss.drop_first());
        lemma_body_len_entries(es, sec_lines);
        lemma_entry_lines_len(es);
        let n = es.len() as int;
        assert(body_len(rest) == n);
        assert(rest.take(n) =~= entry_lines(es));
        assert(rest.skip(n) =~= sec_lines);
        lemma_parse_entries_round(es);
        lemma_sections_round(ss.drop_first());
        assert(seq![(name, es)] + ss.drop_first() =~= ss);
        assert(parse_lines(lines) == Some(DocModel { tops: Seq::<Pair>::empty(), sections: ss }));
    }
}

proof fn lemma_sections_wf_weaken(ss: Seq<(Seq<char>, Seq<Pair>)>, tops: Seq<Pair>)
    requires
        sections_wf(ss, tops),
    ensures
        sections_wf(ss, Seq::empty()),
    decreases ss.len(),
{
    if ss.len() > 0 {
        lemma_sections_wf_weaken(ss.drop_first(), tops);
        assert(!pairs_has(Seq::<Pair>::empty(), ss[0].0));
    }
}

proof fn lemma_sections_wf_tops_drop(ss: Seq<(Seq<char>, Seq<Pair>)>, tops: Seq<Pair>)
    requires
        sections_wf(ss, tops),
        tops.len() > 0,
    ensures
        sections_wf(ss, tops.drop_first()),
    decreases ss.len(),
{
    if ss.len() > 0 {
        lemma_sections_wf_tops_drop(ss.drop_first(), tops);
        assert(!pairs_has(tops.drop_first(), ss[0].0));
    }
}

proof fn lemma_sections_wf_no_top_name(
    ss: Seq<(Seq<char>, Seq<Pair>)>,
    tops: Seq<Pair>,
    k: Seq<char>,
)
    requires
        sections_wf(ss, tops),
        pairs_has(tops, k),
    ensures
        !sections_has(ss, k),
    decreases ss.len(),
{
    if ss.len() > 0 {
        assert(ss[0].0 != k);
        lemma_sections_wf_no_top_name(ss.drop_first(), tops, k);
    }
}

/// Reading back the full rendering yields exactly the document.
proof fn lemma_tops_round(tops: Seq<Pair>, ss: Seq<(Seq<char>, Seq<Pair>)>)
    requires
        pairs_wf(tops),
        sections_wf(ss, tops),
    ensures
        parse_lines(split_lines(render_pairs_text(tops) + render_sections_text(ss))) == Some(
            DocModel { tops: tops, sections: ss },
        ),
    decreases tops.len(),
{
    if tops.len() == 0 {
        assert(render_pairs_text(tops) + render_sections_text(ss) =~= render_sections_text(ss));
        lemma_sections_wf_weaken(ss, tops);
        lemma_sections_round(ss);
        assert(DocModel { tops: Seq::<Pair>::empty(), sections: ss } =~= DocModel {
            tops: tops,
            sections: ss,
        });
    } else {
        let k = tops[0].0;
        let v = tops[0].1;
        let l0 = entry_line(k, v);
        let tail_text = render_pairs_text(tops.drop_first()) + render_sections_text(ss);
        assert(render_pairs_text(tops) + render_sections_text(ss) =~= l0 + seq!['\n']
            + tail_text);
        lemma_entry_line_no_nl(k, v);
        lemma_split_prepend(l0, tail_text);
        lemma_classify_entry(k, v);
        let lines = split_lines(render_pairs_text(tops) + render_sections_text(ss));
        assert(lines =~= seq![l0] + split_lines(tail_text));
        assert(lines[0] == l0);
        assert(lines.drop_first() =~= split_lines(tail_text));
        lemma_sections_wf_tops_drop(ss, tops);
        lemma_tops_round(tops.drop_first(), ss);
        assert(pairs_has(tops, k));
        lemma_sections_wf_no_top_name(ss, tops, k);
        assert(!pairs_has(tops.drop_first(), k));
        assert(seq![(k, v)] + tops.drop_first() =~= tops);
    }
}

/// LAW.  Rendering a well-formed document and parsing the result gives
/// back exactly the same document: nothing written with `set` and
/// nothing already present is lost or changed by a save-and-load cycle.
pub proof fn lemma_render_parse_round_trip(d: DocModel)
    requires
        model_wf(d),
    ensures
        spec_parse(spec_render(d)) == Some(d),
{
    lemma_tops_round(d.tops, d.sections);
    assert(DocModel { tops: d.tops, sections: d.sections } =~= d);
}

proof fn lemma_parse_entries_wf(lines: Seq<Seq<char>>)
    requires
        parse_entries(lines) is Some,
    ensures
        pairs_wf(parse_entries(lines).unwrap()),
    decreases lines.len(),
{
    if lines.len() == 0 {
        assert(pairs_wf(Seq::<Pair>::empty()));
    } else {
        match classify_line(lines[0]) {
            LineForm::Blank => {
                lemma_parse_entries_wf(lines.drop_first());
            },
            LineForm::LeafPair(k, v) => {
                lemma_parse_entries_wf(lines.drop_first());
                let es = parse_entries(lines.drop_first()).unwrap();
                let up = seq![(k, v)] + es;
                assert(up.drop_first() =~= es);
                assert(pairs_wf(up));
            },
            _ => {},
        }
    }
}

proof fn lemma_sections_wf_tops_cons(
    ss: Seq<(Seq<char>, Seq<Pair>)>,
    tops: Seq<Pair>,
    p: Pair,
)
    requires
        sections_wf(ss, tops),
        !sections_has(ss, p.0),
    ensures
        sections_wf(ss, seq![p] + tops),
    decreases ss.len(),
{
    if ss.len() > 0 {
        crate::document::lemma_sections_has_exists(ss, p.0);
        assert(ss[0].0 != p.0);
        crate::document::lemma_sections_has_exists(ss.drop_first(), p.0);
        lemma_sections_wf_tops_cons(ss.drop_first(), tops, p);
        let nt = seq![p] + tops;
        assert(nt.drop_first() =~= tops);
        assert(!pairs_has(nt, ss[0].0));
    }
}

/// Whatever parses is well formed: the reader refuses duplicate names.
pub proof fn lemma_parse_lines_wf(lines: Seq<Seq<char>>)
    requires
        parse_lines(lines) is Some,
    ensures
        model_wf(parse_lines(lines).unwrap()),
    decreases lines.len(),
{
    if lines.len() == 0 {
        assert(pairs_wf(Seq::<Pair>::empty()));
        assert(sections_wf(Seq::<(Seq<char>, Seq<Pair>)>::empty(), Seq::<Pair>::empty()));
    } else {
        match classify_line(lines[0]) {
            LineForm::Blank => {
                lemma_parse_lines_wf(lines.drop_first());
            },
            LineForm::LeafPair(k, v) => {
                lemma_parse_lines_wf(lines.drop_first());
                let d = parse_lines(lines.drop_first()).unwrap();
                let nt = seq![(k, v)] + d.tops;
                assert(nt.drop_first() =~= d.tops);
                assert(pairs_wf(nt));
                lemma_sections_wf_tops_cons(d.sections, d.tops, (k, v));
            },
            LineForm::SectionHead(name) => {
                let rest = lines.drop_first();
                let n0 = body_len(rest);
                let n: int = if n0 <= rest.len() {
                    n0 as int
                } else {
                    0
                };
                if parse_entries(rest.take(n)) is Some && parse_lines(rest.skip(n)) is Some {
                    lemma_parse_entries_wf(rest.take(n));
                    lemma_parse_lines_wf(rest.skip(n));
                    let es = parse_entries(rest.take(n)).unwrap();
                    let d = parse_lines(rest.skip(n)).unwrap();
                    if d.tops.len() == 0 && !sections_has(d.sections, name) {
                        assert(d.tops =~= Seq::<Pair>::empty());
                        let ns = seq![(name, es)] + d.sections;
                        assert(ns.drop_first() =~= d.sections);
                        assert(!pairs_has(Seq::<Pair>::empty(), name));
                        assert(sections_wf(ns, Seq::<Pair>::empty()));
                    }
                }
            },
            LineForm::Malformed => {},
        }
    }
}

} // verus!
