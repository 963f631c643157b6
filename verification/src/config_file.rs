//! The configuration file, `alarms.toml`: its grammar, reading it and writing it.
//!
//! The file is a small part of TOML, plain enough to edit by hand:
//!
//! ```toml
//! sound = "/path/to/ring.ogg"
//!
//! [[alarm]]
//! label = "午休结束"
//! time = "13:30"
//! days = ["mon", "tue", "wed", "thu", "fri"]
//! enabled = true
//! require_headset = true
//! ```
//!
//! Each line is blank, a comment (`#`), the header `[[alarm]]`, or `key = value`, where a
//! value is a quoted string (escapes `\"`, `\\`, `\n`, `\r`, `\t`), `true`, `false`, or a
//! bracketed list of quoted strings; a comment may follow a value. Times and weekday names
//! are checked while the file is read, so a typo is reported with the offending value.

use vstd::prelude::*;
use crate::clock::{format_time, parse_time_field, time_from_text, time_text, TimeOfDay, Weekday};
use crate::config::{alarm_views, Alarm, AlarmView, Config, ConfigView};
use crate::text::{chars_of, decimal_string, decimal_text, push_chars, string_of};
use vstd::string::StringExecFns;

verus! {

// ---------------------------------------------------------------------------------------
// Lines
// ---------------------------------------------------------------------------------------

/// Splits `s` at line feeds; `cur` is the part of the current line already read.
pub open spec fn split_lines_from(s: Seq<char>, cur: Seq<char>) -> Seq<Seq<char>>
    decreases s.len(),
{
    if s.len() == 0 {
        seq![cur]
    } else if s[0] == '\n' {
        seq![cur] + split_lines_from(s.drop_first(), Seq::empty())
    } else {
        split_lines_from(s.drop_first(), cur.push(s[0]))
    }
}

/// The lines of `s`: the pieces between line feeds (a final line feed leaves an empty last
/// line).
pub open spec fn lines_of(s: Seq<char>) -> Seq<Seq<char>> {
    split_lines_from(s, Seq::empty())
}

/// Splits text into its lines.
pub fn split_lines(s: &Vec<char>) -> (lines: Vec<Vec<char>>)
    ensures
        lines@.map_values(|l: Vec<char>| l@) == lines_of(s@),
{
    let mut lines: Vec<Vec<char>> = Vec::new();
    let mut cur: Vec<char> = Vec::new();
    let mut i: usize = 0;
    proof {
        assert(s@.skip(0) =~= s@);
    }
    while i < s.len()
        invariant
            i <= s.len(),
            lines@.map_values(|l: Vec<char>| l@) + split_lines_from(s@.skip(i as int), cur@)
                == lines_of(s@),
        decreases s.len() - i,
    {
        let c = s[i];
        let ghost rest = s@.skip(i as int);
        proof {
            assert(rest.drop_first() =~= s@.skip(i + 1));
            assert(rest[0] == c);
        }
        if c == '\n' {
            let ghost before = lines@.map_values(|l: Vec<char>| l@);
            let done = cur;
            cur = Vec::new();
            lines.push(done);
            proof {
                assert(lines@.map_values(|l: Vec<char>| l@) =~= before.push(done@));
                assert(before + split_lines_from(rest, done@) =~= before.push(done@)
                    + split_lines_from(s@.skip(i + 1), Seq::empty()));
            }
        } else {
            cur.push(c);
        }
        i = i + 1;
    }
    let ghost before = lines@.map_values(|l: Vec<char>| l@);
    proof {
        assert(s@.skip(i as int) =~= Seq::<char>::empty());
    }
    lines.push(cur);
    proof {
        assert(lines@.map_values(|l: Vec<char>| l@) =~= before.push(cur@));
        assert(before + split_lines_from(Seq::<char>::empty(), cur@) =~= before.push(cur@));
    }
    lines
}

/// Lines put back together with a line feed between consecutive ones.
pub open spec fn lines_text(ls: Seq<Seq<char>>) -> Seq<char>
    decreases ls.len(),
{
    if ls.len() == 0 {
        Seq::empty()
    } else if ls.len() == 1 {
        ls[0]
    } else {
        ls[0] + seq!['\n'] + lines_text(ls.drop_first())
    }
}

proof fn lemma_split_lines_from_text(s: Seq<char>, cur: Seq<char>)
    requires
        no_newline(cur),
    ensures
        split_lines_from(s, cur).len() >= 1,
        lines_text(split_lines_from(s, cur)) == cur + s,
        forall|k: int|
            0 <= k < split_lines_from(s, cur).len() ==> no_newline(
                #[trigger] split_lines_from(s, cur)[k],
            ),
    decreases s.len(),
{
    if s.len() == 0 {
        assert(cur + s =~= cur);
    } else if s[0] == '\n' {
        let rest = split_lines_from(s.drop_first(), Seq::empty());
        lemma_split_lines_from_text(s.drop_first(), Seq::empty());
        let all = seq![cur] + rest;
        assert(all.drop_first() =~= rest);
        assert(all[0] == cur);
        assert(Seq::<char>::empty() + s.drop_first() =~= s.drop_first());
        assert(cur + seq!['\n'] + s.drop_first() =~= cur + s);
        assert forall|k: int| 0 <= k < all.len() implies no_newline(#[trigger] all[k]) by {
            if k > 0 {
                assert(all[k] == rest[k - 1]);
            }
        }
    } else {
        lemma_split_lines_from_text(s.drop_first(), cur.push(s[0]));
        assert(cur.push(s[0]) + s.drop_first() =~= cur + s);
        assert(no_newline(cur.push(s[0]))) by {
            assert forall|k: int| 0 <= k < cur.push(s[0]).len() implies cur.push(s[0])[k]
                != '\n' by {
                if k < cur.len() {
                    assert(cur.push(s[0])[k] == cur[k]);
                }
            }
        }
    }
}

/// Splitting into lines loses nothing: there is always at least one line, no line holds a
/// line feed, and the lines with a line feed between consecutive ones give back the text,
/// whether or not its last line ends with a line feed.
pub proof fn lemma_lines_of_loses_nothing(s: Seq<char>)
    ensures
        lines_of(s).len() >= 1,
        lines_text(lines_of(s)) == s,
        forall|k: int| 0 <= k < lines_of(s).len() ==> no_newline(#[trigger] lines_of(s)[k]),
{
    lemma_split_lines_from_text(s, Seq::empty());
    assert(Seq::<char>::empty() + s =~= s);
}

// ---------------------------------------------------------------------------------------
// One line
// ---------------------------------------------------------------------------------------

/// White space within a line.
pub open spec fn is_blank(c: char) -> bool {
    c == ' ' || c == '\t' || c == '\r'
}

/// The first position at or after `i` that is not white space.
pub open spec fn skip_blanks(l: Seq<char>, i: int) -> int
    decreases l.len() - i,
{
    if 0 <= i < l.len() && is_blank(l[i]) {
        skip_blanks(l, i + 1)
    } else {
        i
    }
}

/// The characters a bare key is made of.
pub open spec fn is_key_char(c: char) -> bool {
    ('a' <= c && c <= 'z') || ('A' <= c && c <= 'Z') || ('0' <= c && c <= '9') || c == '_'
        || c == '-'
}

/// The end of the bare key that starts at `i`.
pub open spec fn key_end(l: Seq<char>, i: int) -> int
    decreases l.len() - i,
{
    if 0 <= i < l.len() && is_key_char(l[i]) {
        key_end(l, i + 1)
    } else {
        i
    }
}

/// The character an escape `\c` stands for.
pub open spec fn unescape(c: char) -> Option<char> {
    if c == '"' {
        Some('"')
    } else if c == '\\' {
        Some('\\')
    } else if c == 'n' {
        Some('\n')
    } else if c == 'r' {
        Some('\r')
    } else if c == 't' {
        Some('\t')
    } else {
        None
    }
}

/// Reads the rest of a quoted string whose opening quote was just before `i`; `acc` holds
/// what was read so far. Gives the string and the position after the closing quote.
pub open spec fn scan_text(l: Seq<char>, i: int, acc: Seq<char>) -> Option<(Seq<char>, int)>
    decreases l.len() - i,
{
    if i < 0 || i >= l.len() {
        None
    } else if l[i] == '"' {
        Some((acc, i + 1))
    } else if l[i] == '\\' {
        if i + 1 < l.len() {
            match unescape(l[i + 1]) {
                Some(e) => scan_text(l, i + 2, acc.push(e)),
                None => None,
            }
        } else {
            None
        }
    } else {
        scan_text(l, i + 1, acc.push(l[i]))
    }
}

/// A value on the right of `=`.
pub enum Value {
    Text(Seq<char>),
    Flag(bool),
    List(Seq<Seq<char>>),
}

/// Whether `word` stands in `l` at position `i`.
pub open spec fn word_at(l: Seq<char>, i: int, word: Seq<char>) -> bool {
    0 <= i && i + word.len() <= l.len() && l.subrange(i, i + word.len()) == word
}

pub open spec fn true_word() -> Seq<char> {
    seq!['t', 'r', 'u', 'e']
}

pub open spec fn false_word() -> Seq<char> {
    seq!['f', 'a', 'l', 's', 'e']
}

/// Reads the rest of a list of quoted strings; `i` is past the opening bracket and any
/// white space, `acc` holds the strings read so far.
pub open spec fn scan_list(l: Seq<char>, i: int, acc: Seq<Seq<char>>) -> Option<(Seq<Seq<char>>, int)>
    decreases l.len() - i,
{
    if i < 0 || i >= l.len() {
        None
    } else if l[i] == ']' {
        Some((acc, i + 1))
    } else if l[i] == '"' {
        match scan_text(l, i + 1, Seq::empty()) {
            Some((s, j)) => {
                let k = skip_blanks(l, j);
                if i < k < l.len() && l[k] == ',' {
                    proof {
                        lemma_skip_blanks_bounds(l, k + 1);
                    }
                    scan_list(l, skip_blanks(l, k + 1), acc.push(s))
                } else if i < k < l.len() && l[k] == ']' {
                    Some((acc.push(s), k + 1))
                } else {
                    None
                }
            },
            None => None,
        }
    } else {
        None
    }
}

/// Reads the value that starts at `i`, giving it and the position after it.
pub open spec fn scan_value(l: Seq<char>, i: int) -> Option<(Value, int)> {
    if i < 0 || i >= l.len() {
        None
    } else if l[i] == '"' {
        match scan_text(l, i + 1, Seq::empty()) {
            Some((s, j)) => Some((Value::Text(s), j)),
            None => None,
        }
    } else if word_at(l, i, true_word()) {
        Some((Value::Flag(true), i + 4))
    } else if word_at(l, i, false_word()) {
        Some((Value::Flag(false), i + 5))
    } else if l[i] == '[' {
        match scan_list(l, skip_blanks(l, i + 1), Seq::empty()) {
            Some((items, j)) => Some((Value::List(items), j)),
            None => None,
        }
    } else {
        None
    }
}

/// Nothing but white space, or a comment, from `i` to the end of the line.
pub open spec fn line_ends(l: Seq<char>, i: int) -> bool {
    let j = skip_blanks(l, i);
    j >= l.len() || l[j] == '#'
}

pub open spec fn header_word() -> Seq<char> {
    seq!['[', '[', 'a', 'l', 'a', 'r', 'm', ']', ']']
}

/// What one line of the file says.
pub enum Line {
    /// Blank, or only a comment.
    Blank,
    /// `[[alarm]]`: a new alarm starts.
    AlarmHeader,
    /// `key = value`.
    Entry(Seq<char>, Value),
}

/// Reads one line; `None` when it is none of the forms the file allows.
#[verifier::opaque]
pub open spec fn parse_line(l: Seq<char>) -> Option<Line> {
    let i = skip_blanks(l, 0);
    if i >= l.len() || l[i] == '#' {
        Some(Line::Blank)
    } else if word_at(l, i, header_word()) && line_ends(l, i + 9) {
        Some(Line::AlarmHeader)
    } else {
        let e = key_end(l, i);
        let j = skip_blanks(l, e);
        if e > i && j < l.len() && l[j] == '=' {
            match scan_value(l, skip_blanks(l, j + 1)) {
                Some((v, r)) => if line_ends(l, r) {
                    Some(Line::Entry(l.subrange(i, e), v))
                } else {
                    None
                },
                None => None,
            }
        } else {
            None
        }
    }
}

pub proof fn lemma_skip_blanks_bounds(l: Seq<char>, i: int)
    requires
        0 <= i,
    ensures
        i <= skip_blanks(l, i),
        i <= l.len() ==> skip_blanks(l, i) <= l.len(),
        forall|k: int| i <= k < skip_blanks(l, i) ==> is_blank(#[trigger] l[k]),
        skip_blanks(l, i) < l.len() ==> !is_blank(l[skip_blanks(l, i)]),
    decreases l.len() - i,
{
    if 0 <= i < l.len() && is_blank(l[i]) {
        lemma_skip_blanks_bounds(l, i + 1);
    }
}

proof fn lemma_key_end_bounds(l: Seq<char>, i: int)
    requires
        0 <= i,
    ensures
        i <= key_end(l, i),
        i <= l.len() ==> key_end(l, i) <= l.len(),
    decreases l.len() - i,
{
    if 0 <= i < l.len() && is_key_char(l[i]) {
        lemma_key_end_bounds(l, i + 1);
    }
}

proof fn lemma_scan_text_bounds(l: Seq<char>, i: int, acc: Seq<char>)
    ensures
        scan_text(l, i, acc) matches Some((s, j)) ==> i < j <= l.len(),
    decreases l.len() - i,
{
    if 0 <= i < l.len() && l[i] != '"' {
        if l[i] == '\\' {
            if i + 1 < l.len() {
                if let Some(e) = unescape(l[i + 1]) {
                    lemma_scan_text_bounds(l, i + 2, acc.push(e));
                }
            }
        } else {
            lemma_scan_text_bounds(l, i + 1, acc.push(l[i]));
        }
    }
}

proof fn lemma_scan_list_bounds(l: Seq<char>, i: int, acc: Seq<Seq<char>>)
    ensures
        scan_list(l, i, acc) matches Some((s, j)) ==> i < j <= l.len(),
    decreases l.len() - i,
{
    if 0 <= i < l.len() && l[i] == '"' {
        lemma_scan_text_bounds(l, i + 1, Seq::empty());
        if let Some((s, j)) = scan_text(l, i + 1, Seq::empty()) {
            lemma_skip_blanks_bounds(l, j);
            let k = skip_blanks(l, j);
            if i < k < l.len() && l[k] == ',' {
                lemma_skip_blanks_bounds(l, k + 1);
                lemma_scan_list_bounds(l, skip_blanks(l, k + 1), acc.push(s));
            }
        }
    }
}

/// The exec form of a [`Value`].
pub enum ValueData {
    Text(Vec<char>),
    Flag(bool),
    List(Vec<Vec<char>>),
}

impl View for ValueData {
    type V = Value;

    open spec fn view(&self) -> Value {
        match self {
            ValueData::Text(s) => Value::Text(s@),
            ValueData::Flag(b) => Value::Flag(*b),
            ValueData::List(items) => Value::List(items@.map_values(|s: Vec<char>| s@)),
        }
    }
}

/// The exec form of a [`Line`].
pub enum LineData {
    Blank,
    AlarmHeader,
    Entry(Vec<char>, ValueData),
}

impl View for LineData {
    type V = Line;

    open spec fn view(&self) -> Line {
        match self {
            LineData::Blank => Line::Blank,
            LineData::AlarmHeader => Line::AlarmHeader,
            LineData::Entry(k, v) => Line::Entry(k@, v@),
        }
    }
}

fn blank_char(c: char) -> (r: bool)
    ensures
        r == is_blank(c),
{
    c == ' ' || c == '\t' || c == '\r'
}

fn skip_blanks_at(l: &Vec<char>, i: usize) -> (r: usize)
    requires
        i <= l.len(),
    ensures
        r == skip_blanks(l@, i as int),
        i <= r <= l.len(),
{
    let mut j = i;
    while j < l.len() && blank_char(l[j])
        invariant
            i <= j <= l.len(),
            skip_blanks(l@, i as int) == skip_blanks(l@, j as int),
        decreases l.len() - j,
    {
        j = j + 1;
    }
    j
}

fn key_char(c: char) -> (r: bool)
    ensures
        r == is_key_char(c),
{
    ('a' <= c && c <= 'z') || ('A' <= c && c <= 'Z') || ('0' <= c && c <= '9') || c == '_'
        || c == '-'
}

fn key_end_at(l: &Vec<char>, i: usize) -> (r: usize)
    requires
        i <= l.len(),
    ensures
        r == key_end(l@, i as int),
        i <= r <= l.len(),
{
    let mut j = i;
    while j < l.len() && key_char(l[j])
        invariant
            i <= j <= l.len(),
            key_end(l@, i as int) == key_end(l@, j as int),
        decreases l.len() - j,
    {
        j = j + 1;
    }
    j
}

fn unescape_char(c: char) -> (r: Option<char>)
    ensures
        r == unescape(c),
{
    if c == '"' {
        Some('"')
    } else if c == '\\' {
        Some('\\')
    } else if c == 'n' {
        Some('\n')
    } else if c == 'r' {
        Some('\r')
    } else if c == 't' {
        Some('\t')
    } else {
        None
    }
}

fn scan_text_at(l: &Vec<char>, i: usize) -> (r: Option<(Vec<char>, usize)>)
    requires
        i <= l.len(),
    ensures
        r matches Some((s, j)) ==> scan_text(l@, i as int, Seq::empty()) == Some((s@, j as int)),
        r is None ==> scan_text(l@, i as int, Seq::empty()) is None,
{
    let mut acc: Vec<char> = Vec::new();
    let mut j = i;
    while j < l.len()
        invariant
            i <= j <= l.len(),
            scan_text(l@, i as int, Seq::empty()) == scan_text(l@, j as int, acc@),
        decreases l.len() - j,
    {
        let c = l[j];
        if c == '"' {
            return Some((acc, j + 1));
        } else if c == '\\' {
            if j + 1 < l.len() {
                match unescape_char(l[j + 1]) {
                    Some(e) => {
                        acc.push(e);
                        j = j + 2;
                    },
                    None => {
                        return None;
                    },
                }
            } else {
                return None;
            }
        } else {
            acc.push(c);
            j = j + 1;
        }
    }
    None
}

pub(crate) fn word_at_pos(l: &Vec<char>, i: usize, word: &[char]) -> (r: bool)
    requires
        i <= l.len(),
    ensures
        r == word_at(l@, i as int, word@),
{
    if word.len() > l.len() - i {
        return false;
    }
    let mut k: usize = 0;
    while k < word.len()
        invariant
            k <= word@.len(),
            i + word@.len() <= l.len(),
            forall|m: int| 0 <= m < k ==> l@[i + m] == word@[m],
        decreases word@.len() - k,
    {
        if l[i + k] != word[k] {
            proof {
                assert(l@.subrange(i as int, i + word@.len())[k as int] != word@[k as int]);
            }
            return false;
        }
        k = k + 1;
    }
    proof {
        assert(l@.subrange(i as int, i + word@.len()) =~= word@);
    }
    true
}

fn scan_list_at(l: &Vec<char>, i: usize) -> (r: Option<(Vec<Vec<char>>, usize)>)
    requires
        i <= l.len(),
    ensures
        r matches Some((items, j)) ==> scan_list(l@, i as int, Seq::empty()) == Some(
            (items@.map_values(|s: Vec<char>| s@), j as int),
        ),
        r is None ==> scan_list(l@, i as int, Seq::empty()) is None,
{
    let mut acc: Vec<Vec<char>> = Vec::new();
    let mut j = i;
    proof {
        assert(acc@.map_values(|s: Vec<char>| s@) =~= Seq::<Seq<char>>::empty());
    }
    while j < l.len()
        invariant
            i <= j <= l.len(),
            scan_list(l@, i as int, Seq::empty()) == scan_list(
                l@,
                j as int,
                acc@.map_values(|s: Vec<char>| s@),
            ),
        decreases l.len() - j,
    {
        let ghost accv = acc@.map_values(|s: Vec<char>| s@);
        if l[j] == ']' {
            return Some((acc, j + 1));
        } else if l[j] == '"' {
            match scan_text_at(l, j + 1) {
                Some((s, after)) => {
                    proof {
                        lemma_scan_text_bounds(l@, j + 1, Seq::empty());
                    }
                    let k = skip_blanks_at(l, after);
                    if j < k && k < l.len() && l[k] == ',' {
                        let next = skip_blanks_at(l, k + 1);
                        acc.push(s);
                        proof {
                            assert(acc@.map_values(|s: Vec<char>| s@) =~= accv.push(s@));
                        }
                        j = next;
                    } else if j < k && k < l.len() && l[k] == ']' {
                        acc.push(s);
                        proof {
                            assert(acc@.map_values(|s: Vec<char>| s@) =~= accv.push(s@));
                        }
                        return Some((acc, k + 1));
                    } else {
                        return None;
                    }
                },
                None => {
                    return None;
                },
            }
        } else {
            return None;
        }
    }
    None
}

fn scan_value_at(l: &Vec<char>, i: usize) -> (r: Option<(ValueData, usize)>)
    requires
        i <= l.len(),
    ensures
        r matches Some((v, j)) ==> scan_value(l@, i as int) == Some((v@, j as int)),
        r is None ==> scan_value(l@, i as int) is None,
{
    if i >= l.len() {
        None
    } else if l[i] == '"' {
        match scan_text_at(l, i + 1) {
            Some((s, j)) => Some((ValueData::Text(s), j)),
            None => None,
        }
    } else if word_at_pos(l, i, &['t', 'r', 'u', 'e']) {
        Some((ValueData::Flag(true), i + 4))
    } else if word_at_pos(l, i, &['f', 'a', 'l', 's', 'e']) {
        Some((ValueData::Flag(false), i + 5))
    } else if l[i] == '[' {
        let start = skip_blanks_at(l, i + 1);
        match scan_list_at(l, start) {
            Some((items, j)) => Some((ValueData::List(items), j)),
            None => None,
        }
    } else {
        None
    }
}

fn line_ends_at(l: &Vec<char>, i: usize) -> (r: bool)
    requires
        i <= l.len(),
    ensures
        r == line_ends(l@, i as int),
{
    let j = skip_blanks_at(l, i);
    j >= l.len() || l[j] == '#'
}

/// Reads one line of the file.
pub fn read_line(l: &Vec<char>) -> (r: Option<LineData>)
    ensures
        r matches Some(d) ==> parse_line(l@) == Some(d@),
        r is None ==> parse_line(l@) is None,
{
    reveal(parse_line);
    let i = skip_blanks_at(l, 0);
    if i >= l.len() || l[i] == '#' {
        return Some(LineData::Blank);
    }
    if word_at_pos(l, i, &['[', '[', 'a', 'l', 'a', 'r', 'm', ']', ']']) {
        proof {
            assert(i + 9 <= l.len());
        }
        if line_ends_at(l, i + 9) {
            return Some(LineData::AlarmHeader);
        }
    }
    let e = key_end_at(l, i);
    let j = skip_blanks_at(l, e);
    if e > i && j < l.len() && l[j] == '=' {
        let start = skip_blanks_at(l, j + 1);
        match scan_value_at(l, start) {
            Some((v, r)) => {
                proof {
                    assert(r <= l.len()) by {
                        let vv = v@;
                        if l@[start as int] == '"' {
                            lemma_scan_text_bounds(l@, start + 1, Seq::empty());
                        } else if l@[start as int] == '[' {
                            lemma_skip_blanks_bounds(l@, start + 1);
                            lemma_scan_list_bounds(l@, skip_blanks(l@, start + 1), Seq::empty());
                        }
                    }
                }
                if line_ends_at(l, r) {
                    let mut key: Vec<char> = Vec::new();
                    let mut k = i;
                    while k < e
                        invariant
                            i <= k <= e,
                            e <= l.len(),
                            key@ == l@.subrange(i as int, k as int),
                        decreases e - k,
                    {
                        key.push(l[k]);
                        proof {
                            assert(l@.subrange(i as int, k + 1) =~= l@.subrange(
                                i as int,
                                k as int,
                            ).push(l@[k as int]));
                        }
                        k = k + 1;
                    }
                    Some(LineData::Entry(key, v))
                } else {
                    None
                }
            },
            None => None,
        }
    } else {
        None
    }
}

// ---------------------------------------------------------------------------------------
// Weekday names
// ---------------------------------------------------------------------------------------

/// How the file names a weekday: its first three letters, lower case.
pub open spec fn weekday_code(d: Weekday) -> Seq<char> {
    match d {
        Weekday::Mon => seq!['m', 'o', 'n'],
        Weekday::Tue => seq!['t', 'u', 'e'],
        Weekday::Wed => seq!['w', 'e', 'd'],
        Weekday::Thu => seq!['t', 'h', 'u'],
        Weekday::Fri => seq!['f', 'r', 'i'],
        Weekday::Sat => seq!['s', 'a', 't'],
        Weekday::Sun => seq!['s', 'u', 'n'],
    }
}

/// The weekday a name in the file stands for.
pub open spec fn weekday_from_code(s: Seq<char>) -> Option<Weekday> {
    if s == seq!['m', 'o', 'n'] {
        Some(Weekday::Mon)
    } else if s == seq!['t', 'u', 'e'] {
        Some(Weekday::Tue)
    } else if s == seq!['w', 'e', 'd'] {
        Some(Weekday::Wed)
    } else if s == seq!['t', 'h', 'u'] {
        Some(Weekday::Thu)
    } else if s == seq!['f', 'r', 'i'] {
        Some(Weekday::Fri)
    } else if s == seq!['s', 'a', 't'] {
        Some(Weekday::Sat)
    } else if s == seq!['s', 'u', 'n'] {
        Some(Weekday::Sun)
    } else {
        None
    }
}

pub proof fn lemma_weekday_code_round_trip(d: Weekday)
    ensures
        weekday_from_code(weekday_code(d)) == Some(d),
{
    match d {
        Weekday::Mon => {},
        Weekday::Tue => {
            assert(seq!['t', 'u', 'e'] != seq!['m', 'o', 'n']);
        },
        Weekday::Wed => {
            assert(seq!['w', 'e', 'd'] != seq!['m', 'o', 'n']);
            assert(seq!['w', 'e', 'd'] != seq!['t', 'u', 'e']);
        },
        Weekday::Thu => {
            assert(seq!['t', 'h', 'u'] != seq!['m', 'o', 'n']);
            assert(seq!['t', 'h', 'u'][1] != seq!['t', 'u', 'e'][1]);
            assert(seq!['t', 'h', 'u'] != seq!['w', 'e', 'd']);
        },
        Weekday::Fri => {
            assert(seq!['f', 'r', 'i'][0] != seq!['m', 'o', 'n'][0]);
            assert(seq!['f', 'r', 'i'][0] != seq!['t', 'u', 'e'][0]);
            assert(seq!['f', 'r', 'i'][0] != seq!['w', 'e', 'd'][0]);
            assert(seq!['f', 'r', 'i'][0] != seq!['t', 'h', 'u'][0]);
        },
        Weekday::Sat => {
            assert(seq!['s', 'a', 't'][0] != seq!['m', 'o', 'n'][0]);
            assert(seq!['s', 'a', 't'][0] != seq!['t', 'u', 'e'][0]);
            assert(seq!['s', 'a', 't'][0] != seq!['w', 'e', 'd'][0]);
            assert(seq!['s', 'a', 't'][0] != seq!['t', 'h', 'u'][0]);
            assert(seq!['s', 'a', 't'][0] != seq!['f', 'r', 'i'][0]);
        },
        Weekday::Sun => {
            assert(seq!['s', 'u', 'n'][0] != seq!['m', 'o', 'n'][0]);
            assert(seq!['s', 'u', 'n'][0] != seq!['t', 'u', 'e'][0]);
            assert(seq!['s', 'u', 'n'][0] != seq!['w', 'e', 'd'][0]);
            assert(seq!['s', 'u', 'n'][0] != seq!['t', 'h', 'u'][0]);
            assert(seq!['s', 'u', 'n'][0] != seq!['f', 'r', 'i'][0]);
            assert(seq!['s', 'u', 'n'][1] != seq!['s', 'a', 't'][1]);
        },
    }
}

fn eq_word(a: &Vec<char>, b: &[char]) -> (r: bool)
    ensures
        r == (a@ == b@),
{
    if a.len() != b.len() {
        return false;
    }
    let mut i: usize = 0;
    while i < a.len()
        invariant
            a.len() == b@.len(),
            i <= a.len(),
            forall|j: int| 0 <= j < i ==> a@[j] == b@[j],
        decreases a.len() - i,
    {
        if a[i] != b[i] {
            return false;
        }
        i = i + 1;
    }
    proof {
        assert(a@ =~= b@);
    }
    true
}

/// Reads a weekday name of the file.
pub fn weekday_from_name(s: &Vec<char>) -> (d: Option<Weekday>)
    ensures
        d == weekday_from_code(s@),
{
    if eq_word(s, &['m', 'o', 'n']) {
        Some(Weekday::Mon)
    } else if eq_word(s, &['t', 'u', 'e']) {
        Some(Weekday::Tue)
    } else if eq_word(s, &['w', 'e', 'd']) {
        Some(Weekday::Wed)
    } else if eq_word(s, &['t', 'h', 'u']) {
        Some(Weekday::Thu)
    } else if eq_word(s, &['f', 'r', 'i']) {
        Some(Weekday::Fri)
    } else if eq_word(s, &['s', 'a', 't']) {
        Some(Weekday::Sat)
    } else if eq_word(s, &['s', 'u', 'n']) {
        Some(Weekday::Sun)
    } else {
        None
    }
}

/// The weekdays a list of names stands for, or the first name that is no weekday.
pub open spec fn days_from_names(names: Seq<Seq<char>>) -> Result<Seq<Weekday>, Seq<char>>
    decreases names.len(),
{
    if names.len() == 0 {
        Ok(Seq::empty())
    } else {
        match days_from_names(names.drop_last()) {
            Err(bad) => Err(bad),
            Ok(days) => match weekday_from_code(names.last()) {
                Some(d) => Ok(days.push(d)),
                None => Err(names.last()),
            },
        }
    }
}

proof fn lemma_days_error_sticks(names: Seq<Seq<char>>, i: int)
    requires
        0 <= i <= names.len(),
        days_from_names(names.take(i)) is Err,
    ensures
        days_from_names(names) == days_from_names(names.take(i)),
    decreases names.len() - i,
{
    if i < names.len() {
        assert(names.take(i + 1).drop_last() =~= names.take(i));
        lemma_days_error_sticks(names, i + 1);
    } else {
        assert(names.take(i) =~= names);
    }
}

fn days_from_list(names: &Vec<Vec<char>>) -> (r: Result<Vec<Weekday>, Vec<char>>)
    ensures
        r matches Ok(days) ==> days_from_names(names@.map_values(|s: Vec<char>| s@)) == Ok::<
            Seq<Weekday>,
            Seq<char>,
        >(days@),
        r matches Err(bad) ==> days_from_names(names@.map_values(|s: Vec<char>| s@)) == Err::<
            Seq<Weekday>,
            Seq<char>,
        >(bad@),
{
    let ghost all = names@.map_values(|s: Vec<char>| s@);
    let mut days: Vec<Weekday> = Vec::new();
    let mut i: usize = 0;
    proof {
        assert(all.take(0) =~= Seq::<Seq<char>>::empty());
    }
    while i < names.len()
        invariant
            i <= names.len(),
            all == names@.map_values(|s: Vec<char>| s@),
            days_from_names(all.take(i as int)) == Ok::<Seq<Weekday>, Seq<char>>(days@),
        decreases names.len() - i,
    {
        proof {
            assert(all.take(i + 1).drop_last() =~= all.take(i as int));
            assert(all.take(i + 1).last() == names@[i as int]@);
        }
        match weekday_from_name(&names[i]) {
            Some(d) => {
                days.push(d);
            },
            None => {
                proof {
                    lemma_days_error_sticks(all, i + 1);
                }
                return Err(names[i].clone());
            },
        }
        i = i + 1;
    }
    proof {
        assert(all.take(i as int) =~= all);
    }
    Ok(days)
}

// ---------------------------------------------------------------------------------------
// The whole file
// ---------------------------------------------------------------------------------------

pub open spec fn sound_key() -> Seq<char> {
    seq!['s', 'o', 'u', 'n', 'd']
}

pub open spec fn label_key() -> Seq<char> {
    seq!['l', 'a', 'b', 'e', 'l']
}

pub open spec fn time_key() -> Seq<char> {
    seq!['t', 'i', 'm', 'e']
}

pub open spec fn days_key() -> Seq<char> {
    seq!['d', 'a', 'y', 's']
}

pub open spec fn enabled_key() -> Seq<char> {
    seq!['e', 'n', 'a', 'b', 'l', 'e', 'd']
}

pub open spec fn require_headset_key() -> Seq<char> {
    seq!['r', 'e', 'q', 'u', 'i', 'r', 'e', '_', 'h', 'e', 'a', 'd', 's', 'e', 't']
}

/// Why a configuration file was refused. `line` counts from 1.
pub enum ConfigError {
    /// A line that is none of the forms the file allows.
    BadLine { line: usize, text: String },
    /// A key this file does not know, or one in the wrong place.
    UnknownKey { line: usize, key: String },
    /// A key given a value of the wrong kind.
    WrongType { line: usize, key: String },
    /// A key given twice.
    DuplicateKey { line: usize, key: String },
    /// A time that is not `HH:MM`.
    BadTime { line: usize, value: String },
    /// A weekday name that is none of `mon` to `sun`.
    BadWeekday { line: usize, value: String },
    /// An alarm, starting at this line, without a time.
    MissingTime { line: usize },
}

/// The mathematical content of a [`ConfigError`].
pub enum ConfigErrorView {
    BadLine { line: int, text: Seq<char> },
    UnknownKey { line: int, key: Seq<char> },
    WrongType { line: int, key: Seq<char> },
    DuplicateKey { line: int, key: Seq<char> },
    BadTime { line: int, value: Seq<char> },
    BadWeekday { line: int, value: Seq<char> },
    MissingTime { line: int },
}

impl View for ConfigError {
    type V = ConfigErrorView;

    open spec fn view(&self) -> ConfigErrorView {
        match self {
            ConfigError::BadLine { line, text } => ConfigErrorView::BadLine {
                line: *line as int,
                text: text@,
            },
            ConfigError::UnknownKey { line, key } => ConfigErrorView::UnknownKey {
                line: *line as int,
                key: key@,
            },
            ConfigError::WrongType { line, key } => ConfigErrorView::WrongType {
                line: *line as int,
                key: key@,
            },
            ConfigError::DuplicateKey { line, key } => ConfigErrorView::DuplicateKey {
                line: *line as int,
                key: key@,
            },
            ConfigError::BadTime { line, value } => ConfigErrorView::BadTime {
                line: *line as int,
                value: value@,
            },
            ConfigError::BadWeekday { line, value } => ConfigErrorView::BadWeekday {
                line: *line as int,
                value: value@,
            },
            ConfigError::MissingTime { line } => ConfigErrorView::MissingTime { line: *line as int },
        }
    }
}

/// An alarm being read: the fields its lines gave so far.
pub struct Draft {
    pub line: int,
    pub label: Option<Seq<char>>,
    pub time: Option<TimeOfDay>,
    pub days: Option<Seq<Weekday>>,
    pub enabled: Option<bool>,
    pub require_headset: Option<bool>,
}

/// What the lines read so far gave.
pub struct Doc {
    pub sound: Option<Seq<char>>,
    pub alarms: Seq<AlarmView>,
    pub current: Option<Draft>,
}

pub open spec fn empty_draft(line: int) -> Draft {
    Draft { line, label: None, time: None, days: None, enabled: None, require_headset: None }
}

pub open spec fn initial_doc() -> Doc {
    Doc { sound: None, alarms: Seq::empty(), current: None }
}

/// The alarm a finished draft describes: no label and no weekday when not given, and
/// enabled and headset-only unless said otherwise.
pub open spec fn draft_alarm(d: Draft, t: TimeOfDay) -> AlarmView {
    AlarmView {
        label: match d.label {
            Some(l) => l,
            None => Seq::empty(),
        },
        time: t,
        days: match d.days {
            Some(ds) => ds,
            None => Seq::empty(),
        },
        enabled: match d.enabled {
            Some(b) => b,
            None => true,
        },
        require_headset: match d.require_headset {
            Some(b) => b,
            None => true,
        },
    }
}

/// Closes the alarm being read, if any; it must have a time.
pub open spec fn finish(doc: Doc) -> Result<Doc, ConfigErrorView> {
    match doc.current {
        None => Ok(doc),
        Some(d) => match d.time {
            None => Err(ConfigErrorView::MissingTime { line: d.line }),
            Some(t) => Ok(Doc { sound: doc.sound, alarms: doc.alarms.push(draft_alarm(d, t)), current: None }),
        },
    }
}

/// Applies `key = value`, on line `n`, to the alarm being read.
pub open spec fn apply_alarm_entry(d: Draft, n: int, key: Seq<char>, v: Value) -> Result<
    Draft,
    ConfigErrorView,
> {
    if key == label_key() {
        if d.label is Some {
            Err(ConfigErrorView::DuplicateKey { line: n, key })
        } else {
            match v {
                Value::Text(s) => Ok(Draft { label: Some(s), ..d }),
                _ => Err(ConfigErrorView::WrongType { line: n, key }),
            }
        }
    } else if key == time_key() {
        if d.time is Some {
            Err(ConfigErrorView::DuplicateKey { line: n, key })
        } else {
            match v {
                Value::Text(s) => match time_from_text(s) {
                    Some(t) => Ok(Draft { time: Some(t), ..d }),
                    None => Err(ConfigErrorView::BadTime { line: n, value: s }),
                },
                _ => Err(ConfigErrorView::WrongType { line: n, key }),
            }
        }
    } else if key == days_key() {
        if d.days is Some {
            Err(ConfigErrorView::DuplicateKey { line: n, key })
        } else {
            match v {
                Value::List(names) => match days_from_names(names) {
                    Ok(ds) => Ok(Draft { days: Some(ds), ..d }),
                    Err(bad) => Err(ConfigErrorView::BadWeekday { line: n, value: bad }),
                },
                _ => Err(ConfigErrorView::WrongType { line: n, key }),
            }
        }
    } else if key == enabled_key() {
        if d.enabled is Some {
            Err(ConfigErrorView::DuplicateKey { line: n, key })
        } else {
            match v {
                Value::Flag(b) => Ok(Draft { enabled: Some(b), ..d }),
                _ => Err(ConfigErrorView::WrongType { line: n, key }),
            }
        }
    } else if key == require_headset_key() {
        if d.require_headset is Some {
            Err(ConfigErrorView::DuplicateKey { line: n, key })
        } else {
            match v {
                Value::Flag(b) => Ok(Draft { require_headset: Some(b), ..d }),
                _ => Err(ConfigErrorView::WrongType { line: n, key }),
            }
        }
    } else {
        Err(ConfigErrorView::UnknownKey { line: n, key })
    }
}

/// Applies `key = value` on line `n`: before the first `[[alarm]]` only `sound` is known.
pub open spec fn apply_entry(doc: Doc, n: int, key: Seq<char>, v: Value) -> Result<
    Doc,
    ConfigErrorView,
> {
    match doc.current {
        None => if key == sound_key() {
            if doc.sound is Some {
                Err(ConfigErrorView::DuplicateKey { line: n, key })
            } else {
                match v {
                    Value::Text(s) => Ok(Doc { sound: Some(s), ..doc }),
                    _ => Err(ConfigErrorView::WrongType { line: n, key }),
                }
            }
        } else {
            Err(ConfigErrorView::UnknownKey { line: n, key })
        },
        Some(d) => match apply_alarm_entry(d, n, key, v) {
            Ok(d2) => Ok(Doc { current: Some(d2), ..doc }),
            Err(e) => Err(e),
        },
    }
}

/// Applies line number `n`, whose text is `l`.
pub open spec fn apply_line(doc: Doc, n: int, l: Seq<char>) -> Result<Doc, ConfigErrorView> {
    match parse_line(l) {
        None => Err(ConfigErrorView::BadLine { line: n, text: l }),
        Some(Line::Blank) => Ok(doc),
        Some(Line::AlarmHeader) => match finish(doc) {
            Ok(d) => Ok(Doc { current: Some(empty_draft(n)), ..d }),
            Err(e) => Err(e),
        },
        Some(Line::Entry(key, v)) => apply_entry(doc, n, key, v),
    }
}

/// Applies the lines from index `k` on, then closes the last alarm.
pub open spec fn apply_lines(doc: Doc, lines: Seq<Seq<char>>, k: int) -> Result<Doc, ConfigErrorView>
    decreases lines.len() - k,
{
    if k >= lines.len() || k < 0 {
        finish(doc)
    } else {
        match apply_line(doc, k + 1, lines[k]) {
            Ok(d) => apply_lines(d, lines, k + 1),
            Err(e) => Err(e),
        }
    }
}

/// What a configuration file holds: its alarms in file order, and the sound (empty when
/// not given); or the first mistake in it.
pub open spec fn config_from_text(text: Seq<char>) -> Result<ConfigView, ConfigErrorView> {
    match apply_lines(initial_doc(), lines_of(text), 0) {
        Ok(d) => Ok(
            ConfigView {
                sound: match d.sound {
                    Some(s) => s,
                    None => Seq::empty(),
                },
                alarms: d.alarms,
            },
        ),
        Err(e) => Err(e),
    }
}

/// The exec form of a [`Draft`].
struct DraftData {
    line: usize,
    label: Option<Vec<char>>,
    time: Option<TimeOfDay>,
    days: Option<Vec<Weekday>>,
    enabled: Option<bool>,
    require_headset: Option<bool>,
}

impl View for DraftData {
    type V = Draft;

    closed spec fn view(&self) -> Draft {
        Draft {
            line: self.line as int,
            label: match self.label {
                Some(l) => Some(l@),
                None => None,
            },
            time: self.time,
            days: match self.days {
                Some(ds) => Some(ds@),
                None => None,
            },
            enabled: self.enabled,
            require_headset: self.require_headset,
        }
    }
}

/// The exec form of a [`Doc`].
struct DocData {
    sound: Option<Vec<char>>,
    alarms: Vec<Alarm>,
    current: Option<DraftData>,
}

impl View for DocData {
    type V = Doc;

    closed spec fn view(&self) -> Doc {
        Doc {
            sound: match self.sound {
                Some(s) => Some(s@),
                None => None,
            },
            alarms: alarm_views(self.alarms@),
            current: match self.current {
                Some(d) => Some(d@),
                None => None,
            },
        }
    }
}

/// Whether every alarm read so far has a valid time.
spec fn times_wf(doc: Doc) -> bool {
    &&& forall|i: int| 0 <= i < doc.alarms.len() ==> (#[trigger] doc.alarms[i]).time.wf()
    &&& (doc.current matches Some(d) ==> (d.time matches Some(t) ==> t.wf()))
}

fn finish_doc(doc: DocData) -> (r: Result<DocData, ConfigError>)
    requires
        times_wf(doc@),
    ensures
        r matches Ok(d) ==> finish(doc@) == Ok::<Doc, ConfigErrorView>(d@) && times_wf(d@)
            && d@.current is None,
        r matches Err(e) ==> finish(doc@) == Err::<Doc, ConfigErrorView>(e@),
{
    let DocData { sound, mut alarms, current } = doc;
    match current {
        None => Ok(DocData { sound, alarms, current: None }),
        Some(d) => match d.time {
            None => Err(ConfigError::MissingTime { line: d.line }),
            Some(t) => {
                let ghost dv = d@;
                let ghost before = alarm_views(alarms@);
                let label = match d.label {
                    Some(l) => string_of(&l),
                    None => String::new(),
                };
                let days = match d.days {
                    Some(ds) => ds,
                    None => Vec::new(),
                };
                let enabled = match d.enabled {
                    Some(b) => b,
                    None => true,
                };
                let require_headset = match d.require_headset {
                    Some(b) => b,
                    None => true,
                };
                let alarm = Alarm { label, time: t, days, enabled, require_headset };
                proof {
                    assert(alarm@ == draft_alarm(dv, t));
                }
                alarms.push(alarm);
                proof {
                    assert(alarm_views(alarms@) =~= before.push(draft_alarm(dv, t)));
                }
                Ok(DocData { sound, alarms, current: None })
            },
        },
    }
}

fn error_key(key: &Vec<char>) -> (s: String)
    ensures
        s@ == key@,
{
    string_of(key)
}

fn apply_alarm_entry_data(d: DraftData, n: usize, key: Vec<char>, v: ValueData) -> (r: Result<
    DraftData,
    ConfigError,
>)
    requires
        d@.time matches Some(t) ==> t.wf(),
    ensures
        r matches Ok(d2) ==> apply_alarm_entry(d@, n as int, key@, v@) == Ok::<
            Draft,
            ConfigErrorView,
        >(d2@) && (d2@.time matches Some(t) ==> t.wf()) && d2@.line == d@.line,
        r matches Err(e) ==> apply_alarm_entry(d@, n as int, key@, v@) == Err::<
            Draft,
            ConfigErrorView,
        >(e@),
{
    let DraftData { line, label, time, days, enabled, require_headset } = d;
    if eq_word(&key, &['l', 'a', 'b', 'e', 'l']) {
        if label.is_some() {
            return Err(ConfigError::DuplicateKey { line: n, key: error_key(&key) });
        }
        match v {
            ValueData::Text(s) => Ok(
                DraftData { line, label: Some(s), time, days, enabled, require_headset },
            ),
            _ => Err(ConfigError::WrongType { line: n, key: error_key(&key) }),
        }
    } else if eq_word(&key, &['t', 'i', 'm', 'e']) {
        if time.is_some() {
            return Err(ConfigError::DuplicateKey { line: n, key: error_key(&key) });
        }
        match v {
            ValueData::Text(s) => match parse_time_field(&s) {
                Some(t) => Ok(DraftData { line, label, time: Some(t), days, enabled, require_headset }),
                None => Err(ConfigError::BadTime { line: n, value: string_of(&s) }),
            },
            _ => Err(ConfigError::WrongType { line: n, key: error_key(&key) }),
        }
    } else if eq_word(&key, &['d', 'a', 'y', 's']) {
        if days.is_some() {
            return Err(ConfigError::DuplicateKey { line: n, key: error_key(&key) });
        }
        match v {
            ValueData::List(names) => match days_from_list(&names) {
                Ok(ds) => Ok(DraftData { line, label, time, days: Some(ds), enabled, require_headset }),
                Err(bad) => Err(ConfigError::BadWeekday { line: n, value: string_of(&bad) }),
            },
            _ => Err(ConfigError::WrongType { line: n, key: error_key(&key) }),
        }
    } else if eq_word(&key, &['e', 'n', 'a', 'b', 'l', 'e', 'd']) {
        if enabled.is_some() {
            return Err(ConfigError::DuplicateKey { line: n, key: error_key(&key) });
        }
        match v {
            ValueData::Flag(b) => Ok(
                DraftData { line, label, time, days, enabled: Some(b), require_headset },
            ),
            _ => Err(ConfigError::WrongType { line: n, key: error_key(&key) }),
        }
    } else if eq_word(
        &key,
        &['r', 'e', 'q', 'u', 'i', 'r', 'e', '_', 'h', 'e', 'a', 'd', 's', 'e', 't'],
    ) {
        if require_headset.is_some() {
            return Err(ConfigError::DuplicateKey { line: n, key: error_key(&key) });
        }
        match v {
            ValueData::Flag(b) => Ok(
                DraftData { line, label, time, days, enabled, require_headset: Some(b) },
            ),
            _ => Err(ConfigError::WrongType { line: n, key: error_key(&key) }),
        }
    } else {
        Err(ConfigError::UnknownKey { line: n, key: error_key(&key) })
    }
}

fn apply_entry_data(doc: DocData, n: usize, key: Vec<char>, v: ValueData) -> (r: Result<
    DocData,
    ConfigError,
>)
    requires
        times_wf(doc@),
    ensures
        r matches Ok(d) ==> apply_entry(doc@, n as int, key@, v@) == Ok::<Doc, ConfigErrorView>(
            d@,
        ) && times_wf(d@),
        r matches Err(e) ==> apply_entry(doc@, n as int, key@, v@) == Err::<Doc, ConfigErrorView>(
            e@,
        ),
{
    let DocData { sound, alarms, current } = doc;
    match current {
        None => {
            if eq_word(&key, &['s', 'o', 'u', 'n', 'd']) {
                if sound.is_some() {
                    return Err(ConfigError::DuplicateKey { line: n, key: error_key(&key) });
                }
                match v {
                    ValueData::Text(s) => Ok(DocData { sound: Some(s), alarms, current: None }),
                    _ => Err(ConfigError::WrongType { line: n, key: error_key(&key) }),
                }
            } else {
                Err(ConfigError::UnknownKey { line: n, key: error_key(&key) })
            }
        },
        Some(d) => match apply_alarm_entry_data(d, n, key, v) {
            Ok(d2) => Ok(DocData { sound, alarms, current: Some(d2) }),
            Err(e) => Err(e),
        },
    }
}

fn apply_line_data(doc: DocData, n: usize, l: &Vec<char>) -> (r: Result<DocData, ConfigError>)
    requires
        times_wf(doc@),
    ensures
        r matches Ok(d) ==> apply_line(doc@, n as int, l@) == Ok::<Doc, ConfigErrorView>(d@)
            && times_wf(d@),
        r matches Err(e) ==> apply_line(doc@, n as int, l@) == Err::<Doc, ConfigErrorView>(e@),
{
    match read_line(l) {
        None => Err(ConfigError::BadLine { line: n, text: string_of(l) }),
        Some(LineData::Blank) => Ok(doc),
        Some(LineData::AlarmHeader) => match finish_doc(doc) {
            Ok(d) => {
                let DocData { sound, alarms, current: _ } = d;
                let draft = DraftData {
                    line: n,
                    label: None,
                    time: None,
                    days: None,
                    enabled: None,
                    require_headset: None,
                };
                Ok(DocData { sound, alarms, current: Some(draft) })
            },
            Err(e) => Err(e),
        },
        Some(LineData::Entry(key, v)) => apply_entry_data(doc, n, key, v),
    }
}

/// Reads a configuration file. The result is the configuration [`config_from_text`] gives,
/// or the first mistake in the file.
pub fn parse(text: &str) -> (r: Result<Config, ConfigError>)
    ensures
        r matches Ok(c) ==> config_from_text(text@) == Ok::<ConfigView, ConfigErrorView>(c@),
        r matches Ok(c) ==> forall|i: int| 0 <= i < c.alarms@.len() ==> (#[trigger] c.alarms@[i]).time.wf(),
        r matches Err(e) ==> config_from_text(text@) == Err::<ConfigView, ConfigErrorView>(e@),
{
    let chars = chars_of(text);
    let lines = split_lines(&chars);
    let ghost ls = lines@.map_values(|l: Vec<char>| l@);
    let mut doc = DocData { sound: None, alarms: Vec::new(), current: None };
    proof {
        assert(alarm_views(doc.alarms@) =~= Seq::<AlarmView>::empty());
        assert(doc@ == initial_doc());
    }
    let mut k: usize = 0;
    while k < lines.len()
        invariant
            k <= lines.len(),
            ls == lines@.map_values(|l: Vec<char>| l@),
            ls == lines_of(text@),
            times_wf(doc@),
            apply_lines(initial_doc(), ls, 0) == apply_lines(doc@, ls, k as int),
        decreases lines.len() - k,
    {
        proof {
            assert(ls[k as int] == lines@[k as int]@);
        }
        if k == usize::MAX {
            // a text this long cannot be in memory
            return Err(ConfigError::BadLine { line: k, text: String::new() });
        }
        match apply_line_data(doc, k + 1, &lines[k]) {
            Ok(d) => {
                doc = d;
            },
            Err(e) => {
                return Err(e);
            },
        }
        k = k + 1;
    }
    match finish_doc(doc) {
        Ok(d) => {
            let sound = match d.sound {
                Some(s) => string_of(&s),
                None => String::new(),
            };
            let c = Config { sound, alarms: d.alarms };
            proof {
                assert(c@.alarms == d@.alarms);
                assert forall|i: int| 0 <= i < c.alarms@.len() implies (#[trigger] c.alarms@[i]).time.wf() by {
                    assert(d@.alarms[i] == c.alarms@[i]@);
                }
            }
            Ok(c)
        },
        Err(e) => Err(e),
    }
}

// ---------------------------------------------------------------------------------------
// Writing the file
// ---------------------------------------------------------------------------------------

/// How one character is written inside quotes.
pub open spec fn escape_char(c: char) -> Seq<char> {
    if c == '"' {
        seq!['\\', '"']
    } else if c == '\\' {
        seq!['\\', '\\']
    } else if c == '\n' {
        seq!['\\', 'n']
    } else if c == '\r' {
        seq!['\\', 'r']
    } else if c == '\t' {
        seq!['\\', 't']
    } else {
        seq![c]
    }
}

/// `s` with its special characters escaped.
pub open spec fn escaped(s: Seq<char>) -> Seq<char>
    decreases s.len(),
{
    if s.len() == 0 {
        Seq::empty()
    } else {
        escape_char(s[0]) + escaped(s.drop_first())
    }
}

/// `s` as a quoted string.
pub open spec fn quoted(s: Seq<char>) -> Seq<char> {
    seq!['"'] + escaped(s) + seq!['"']
}

/// Quoted strings separated by `, `.
pub open spec fn list_items(ns: Seq<Seq<char>>) -> Seq<char>
    decreases ns.len(),
{
    if ns.len() == 0 {
        Seq::empty()
    } else if ns.len() == 1 {
        quoted(ns[0])
    } else {
        quoted(ns[0]) + seq![',', ' '] + list_items(ns.drop_first())
    }
}

/// A bracketed list of quoted strings.
pub open spec fn list_text(ns: Seq<Seq<char>>) -> Seq<char> {
    seq!['['] + list_items(ns) + seq![']']
}

/// The names of `days`.
pub open spec fn day_names(days: Seq<Weekday>) -> Seq<Seq<char>> {
    days.map_values(|d: Weekday| weekday_code(d))
}

pub open spec fn flag_text(b: bool) -> Seq<char> {
    if b {
        true_word()
    } else {
        false_word()
    }
}

/// `key = value`.
pub open spec fn entry_text(key: Seq<char>, value: Seq<char>) -> Seq<char> {
    key + seq![' ', '=', ' '] + value
}

/// The lines that describe one alarm, starting with a blank line.
pub open spec fn alarm_lines(a: AlarmView) -> Seq<Seq<char>> {
    seq![
        Seq::empty(),
        header_word(),
        entry_text(label_key(), quoted(a.label)),
        entry_text(time_key(), quoted(time_text(a.time))),
        entry_text(days_key(), list_text(day_names(a.days))),
        entry_text(enabled_key(), flag_text(a.enabled)),
        entry_text(require_headset_key(), flag_text(a.require_headset)),
    ]
}

pub open spec fn alarms_lines(alarms: Seq<AlarmView>) -> Seq<Seq<char>>
    decreases alarms.len(),
{
    if alarms.len() == 0 {
        Seq::empty()
    } else {
        alarms_lines(alarms.drop_last()) + alarm_lines(alarms.last())
    }
}

/// The lines of the file written for `c`.
pub open spec fn config_lines(c: ConfigView) -> Seq<Seq<char>> {
    seq![entry_text(sound_key(), quoted(c.sound))] + alarms_lines(c.alarms)
}

/// Lines, each ended by a line feed.
pub open spec fn joined_lines(ls: Seq<Seq<char>>) -> Seq<char>
    decreases ls.len(),
{
    if ls.len() == 0 {
        Seq::empty()
    } else {
        joined_lines(ls.drop_last()) + ls.last() + seq!['\n']
    }
}

/// The text of the file written for `c`.
pub open spec fn config_text(c: ConfigView) -> Seq<char> {
    joined_lines(config_lines(c))
}

proof fn lemma_escaped_append(a: Seq<char>, b: Seq<char>)
    ensures
        escaped(a + b) == escaped(a) + escaped(b),
    decreases a.len(),
{
    if a.len() == 0 {
        assert(a + b =~= b);
    } else {
        assert((a + b).drop_first() =~= a.drop_first() + b);
        lemma_escaped_append(a.drop_first(), b);
        assert((a + b)[0] == a[0]);
    }
}

proof fn lemma_escaped_one(c: char)
    ensures
        escaped(seq![c]) == escape_char(c),
{
    assert(seq![c].drop_first() =~= Seq::<char>::empty());
    assert(escaped(Seq::<char>::empty()) =~= Seq::<char>::empty());
    assert(seq![c][0] == c);
    assert(escape_char(c) + Seq::<char>::empty() =~= escape_char(c));
}

/// Appends `s`, escaped.
fn push_escaped(out: &mut String, s: &str)
    ensures
        final(out)@ == old(out)@ + escaped(s@),
{
    let cs = chars_of(s);
    let mut i: usize = 0;
    proof {
        assert(cs@.take(0) =~= Seq::<char>::empty());
        assert(out@ =~= old(out)@ + escaped(Seq::<char>::empty()));
    }
    while i < cs.len()
        invariant
            i <= cs.len(),
            cs@ == s@,
            out@ == old(out)@ + escaped(cs@.take(i as int)),
        decreases cs.len() - i,
    {
        let c = cs[i];
        let ghost before = out@;
        if c == '"' {
            push_chars(out, &['\\', '"']);
        } else if c == '\\' {
            push_chars(out, &['\\', '\\']);
        } else if c == '\n' {
            push_chars(out, &['\\', 'n']);
        } else if c == '\r' {
            push_chars(out, &['\\', 'r']);
        } else if c == '\t' {
            push_chars(out, &['\\', 't']);
        } else {
            out.push(c);
        }
        proof {
            assert(cs@.take(i + 1) =~= cs@.take(i as int) + seq![c]);
            lemma_escaped_append(cs@.take(i as int), seq![c]);
            lemma_escaped_one(c);
            assert(out@ =~= before + escape_char(c));
        }
        i = i + 1;
    }
    proof {
        assert(cs@.take(cs@.len() as int) =~= cs@);
    }
}

fn push_quoted(out: &mut String, s: &str)
    ensures
        final(out)@ == old(out)@ + quoted(s@),
{
    out.push('"');
    push_escaped(out, s);
    out.push('"');
    proof {
        assert(final(out)@ =~= old(out)@ + quoted(s@));
    }
}

proof fn lemma_list_items_push(ns: Seq<Seq<char>>, n: Seq<char>)
    requires
        ns.len() >= 1,
    ensures
        list_items(ns.push(n)) == list_items(ns) + seq![',', ' '] + quoted(n),
    decreases ns.len(),
{
    let m = ns.push(n);
    assert(m[0] == ns[0]);
    if ns.len() == 1 {
        assert(m.drop_first() =~= seq![n]);
        assert(seq![n][0] == n);
        assert(list_items(seq![n]) == quoted(n));
    } else {
        assert(m.drop_first() =~= ns.drop_first().push(n));
        lemma_list_items_push(ns.drop_first(), n);
        assert(list_items(m) =~= list_items(ns) + seq![',', ' '] + quoted(n));
    }
}

fn weekday_name_code(d: Weekday) -> (s: &'static str)
    ensures
        s@ == weekday_code(d),
{
    match d {
        Weekday::Mon => {
            proof {
                reveal_strlit("mon");
            }
            "mon"
        },
        Weekday::Tue => {
            proof {
                reveal_strlit("tue");
            }
            "tue"
        },
        Weekday::Wed => {
            proof {
                reveal_strlit("wed");
            }
            "wed"
        },
        Weekday::Thu => {
            proof {
                reveal_strlit("thu");
            }
            "thu"
        },
        Weekday::Fri => {
            proof {
                reveal_strlit("fri");
            }
            "fri"
        },
        Weekday::Sat => {
            proof {
                reveal_strlit("sat");
            }
            "sat"
        },
        Weekday::Sun => {
            proof {
                reveal_strlit("sun");
            }
            "sun"
        },
    }
}

fn push_days(out: &mut String, days: &Vec<Weekday>)
    ensures
        final(out)@ == old(out)@ + list_text(day_names(days@)),
{
    let ghost names = day_names(days@);
    out.push('[');
    let mut i: usize = 0;
    proof {
        assert(names.take(0) =~= Seq::<Seq<char>>::empty());
    }
    while i < days.len()
        invariant
            i <= days.len(),
            names == day_names(days@),
            out@ == old(out)@ + seq!['['] + list_items(names.take(i as int)),
        decreases days.len() - i,
    {
        let ghost before = out@;
        if i > 0 {
            out.push(',');
            out.push(' ');
        }
        push_quoted(out, weekday_name_code(days[i]));
        proof {
            assert(names.take(i + 1) =~= names.take(i as int).push(names[i as int]));
            if i > 0 {
                lemma_list_items_push(names.take(i as int), names[i as int]);
            } else {
                assert(names.take(1) =~= seq![names[0]]);
            }
            assert(out@ =~= old(out)@ + seq!['['] + list_items(names.take(i + 1)));
        }
        i = i + 1;
    }
    out.push(']');
    proof {
        assert(names.take(days@.len() as int) =~= names);
        assert(final(out)@ =~= old(out)@ + list_text(day_names(days@)));
    }
}

fn push_flag(out: &mut String, b: bool)
    ensures
        final(out)@ == old(out)@ + flag_text(b),
{
    if b {
        push_chars(out, &['t', 'r', 'u', 'e']);
    } else {
        push_chars(out, &['f', 'a', 'l', 's', 'e']);
    }
}

/// The text of the lines of one alarm, line by line.
proof fn lemma_alarm_text(a: AlarmView)
    ensures
        joined_lines(alarm_lines(a)) == seq!['\n'] + (header_word() + seq!['\n']) + (entry_text(
            label_key(),
            quoted(a.label),
        ) + seq!['\n']) + (entry_text(time_key(), quoted(time_text(a.time))) + seq!['\n'])
            + (entry_text(days_key(), list_text(day_names(a.days))) + seq!['\n']) + (entry_text(
            enabled_key(),
            flag_text(a.enabled),
        ) + seq!['\n']) + (entry_text(require_headset_key(), flag_text(a.require_headset))
            + seq!['\n']),
{
    let ls = alarm_lines(a);
    assert(ls.take(0) =~= Seq::<Seq<char>>::empty());
    lemma_joined_lines_take(ls, 0);
    lemma_joined_lines_take(ls, 1);
    lemma_joined_lines_take(ls, 2);
    lemma_joined_lines_take(ls, 3);
    lemma_joined_lines_take(ls, 4);
    lemma_joined_lines_take(ls, 5);
    lemma_joined_lines_take(ls, 6);
    assert(ls.take(7) =~= ls);
    assert(joined_lines(ls) =~= seq!['\n'] + (header_word() + seq!['\n']) + (ls[2] + seq!['\n'])
        + (ls[3] + seq!['\n']) + (ls[4] + seq!['\n']) + (ls[5] + seq!['\n']) + (ls[6] + seq![
        '\n',
    ]));
}

fn push_label_line(out: &mut String, a: &Alarm)
    ensures
        final(out)@ == old(out)@ + (entry_text(label_key(), quoted(a.label@)) + seq!['\n']),
{
    push_chars(out, &['l', 'a', 'b', 'e', 'l', ' ', '=', ' ']);
    push_quoted(out, a.label.as_str());
    out.push('\n');
    proof {
        assert(final(out)@ =~= old(out)@ + (entry_text(label_key(), quoted(a.label@)) + seq![
            '\n',
        ]));
    }
}

fn push_time_line(out: &mut String, a: &Alarm)
    requires
        a.time.wf(),
    ensures
        final(out)@ == old(out)@ + (entry_text(time_key(), quoted(time_text(a.time))) + seq![
            '\n',
        ]),
{
    push_chars(out, &['t', 'i', 'm', 'e', ' ', '=', ' ']);
    let t = format_time(a.time);
    push_quoted(out, t.as_str());
    out.push('\n');
    proof {
        assert(final(out)@ =~= old(out)@ + (entry_text(time_key(), quoted(time_text(a.time)))
            + seq!['\n']));
    }
}

fn push_days_line(out: &mut String, a: &Alarm)
    ensures
        final(out)@ == old(out)@ + (entry_text(days_key(), list_text(day_names(a.days@))) + seq![
            '\n',
        ]),
{
    push_chars(out, &['d', 'a', 'y', 's', ' ', '=', ' ']);
    push_days(out, &a.days);
    out.push('\n');
    proof {
        assert(final(out)@ =~= old(out)@ + (entry_text(days_key(), list_text(day_names(a.days@)))
            + seq!['\n']));
    }
}

fn push_flag_lines(out: &mut String, a: &Alarm)
    ensures
        final(out)@ == old(out)@ + (entry_text(enabled_key(), flag_text(a.enabled)) + seq!['\n'])
            + (entry_text(require_headset_key(), flag_text(a.require_headset)) + seq!['\n']),
{
    push_chars(out, &['e', 'n', 'a', 'b', 'l', 'e', 'd', ' ', '=', ' ']);
    push_flag(out, a.enabled);
    out.push('\n');
    let ghost mid = out@;
    push_chars(
        out,
        &['r', 'e', 'q', 'u', 'i', 'r', 'e', '_', 'h', 'e', 'a', 'd', 's', 'e', 't', ' ', '=', ' '],
    );
    push_flag(out, a.require_headset);
    out.push('\n');
    proof {
        assert(mid =~= old(out)@ + (entry_text(enabled_key(), flag_text(a.enabled)) + seq!['\n']));
        assert(final(out)@ =~= mid + (entry_text(require_headset_key(), flag_text(a.require_headset))
            + seq!['\n']));
    }
}

#[verifier::spinoff_prover]
#[verifier::rlimit(40)]
fn push_alarm(out: &mut String, a: &Alarm)
    requires
        a.time.wf(),
    ensures
        final(out)@ == old(out)@ + joined_lines(alarm_lines(a@)),
{
    out.push('\n');
    push_chars(out, &['[', '[', 'a', 'l', 'a', 'r', 'm', ']', ']', '\n']);
    let ghost s1 = out@;
    push_label_line(out, a);
    let ghost s2 = out@;
    push_time_line(out, a);
    let ghost s3 = out@;
    push_days_line(out, a);
    let ghost s4 = out@;
    push_flag_lines(out, a);
    proof {
        lemma_alarm_text(a@);
        let l0 = seq!['\n'] + (header_word() + seq!['\n']);
        let l2 = entry_text(label_key(), quoted(a.label@)) + seq!['\n'];
        let l3 = entry_text(time_key(), quoted(time_text(a.time))) + seq!['\n'];
        let l4 = entry_text(days_key(), list_text(day_names(a.days@))) + seq!['\n'];
        let l56 = (entry_text(enabled_key(), flag_text(a.enabled)) + seq!['\n']) + (entry_text(
            require_headset_key(),
            flag_text(a.require_headset),
        ) + seq!['\n']);
        assert(s1 =~= old(out)@ + l0);
        assert(joined_lines(alarm_lines(a@)) =~= l0 + l2 + l3 + l4 + l56);
        assert(out@ =~= old(out)@ + (l0 + l2 + l3 + l4 + l56));
    }
}

proof fn lemma_joined_lines_take(ls: Seq<Seq<char>>, k: int)
    requires
        0 <= k < ls.len(),
    ensures
        joined_lines(ls.take(k + 1)) == joined_lines(ls.take(k)) + ls[k] + seq!['\n'],
{
    assert(ls.take(k + 1).drop_last() =~= ls.take(k));
}

proof fn lemma_joined_lines_append(a: Seq<Seq<char>>, b: Seq<Seq<char>>)
    ensures
        joined_lines(a + b) == joined_lines(a) + joined_lines(b),
    decreases b.len(),
{
    if b.len() == 0 {
        assert(a + b =~= a);
    } else {
        assert((a + b).drop_last() =~= a + b.drop_last());
        lemma_joined_lines_append(a, b.drop_last());
    }
}

/// Writes the configuration file for `config`. Reading the text back gives `config` again
/// (see [`lemma_config_round_trip`]).
pub fn to_text(config: &Config) -> (text: String)
    requires
        forall|i: int| 0 <= i < config.alarms@.len() ==> (#[trigger] config.alarms@[i]).time.wf(),
    ensures
        text@ == config_text(config@),
{
    let mut out = String::new();
    push_chars(&mut out, &['s', 'o', 'u', 'n', 'd', ' ', '=', ' ']);
    push_quoted(&mut out, config.sound.as_str());
    out.push('\n');
    let ghost views = alarm_views(config.alarms@);
    let ghost first = seq![entry_text(sound_key(), quoted(config.sound@))];
    proof {
        assert(first.drop_last() =~= Seq::<Seq<char>>::empty());
        assert(joined_lines(first.drop_last()) =~= Seq::<char>::empty());
        assert(out@ =~= joined_lines(first));
        assert(views.take(0) =~= Seq::<AlarmView>::empty());
        assert(first + alarms_lines(views.take(0)) =~= first);
    }
    let mut i: usize = 0;
    while i < config.alarms.len()
        invariant
            i <= config.alarms.len(),
            views == alarm_views(config.alarms@),
            forall|j: int| 0 <= j < config.alarms@.len() ==> (#[trigger] config.alarms@[j]).time.wf(),
            out@ == joined_lines(first + alarms_lines(views.take(i as int))),
        decreases config.alarms.len() - i,
    {
        let ghost before = out@;
        push_alarm(&mut out, &config.alarms[i]);
        proof {
            assert(views.take(i + 1).drop_last() =~= views.take(i as int));
            assert(views.take(i + 1).last() == config.alarms@[i as int]@);
            assert(first + alarms_lines(views.take(i + 1)) =~= (first + alarms_lines(views.take(i as int)))
                + alarm_lines(config.alarms@[i as int]@));
            lemma_joined_lines_append(
                first + alarms_lines(views.take(i as int)),
                alarm_lines(config.alarms@[i as int]@),
            );
        }
        i = i + 1;
    }
    proof {
        assert(views.take(config.alarms@.len() as int) =~= views);
    }
    out
}

// ---------------------------------------------------------------------------------------
// Reading back what was written
// ---------------------------------------------------------------------------------------

/// `s` holds no line feed.
pub open spec fn no_newline(s: Seq<char>) -> bool {
    forall|i: int| 0 <= i < s.len() ==> s[i] != '\n'
}

proof fn lemma_no_newline_concat(a: Seq<char>, b: Seq<char>)
    requires
        no_newline(a),
        no_newline(b),
    ensures
        no_newline(a + b),
{
    assert forall|i: int| 0 <= i < (a + b).len() implies (a + b)[i] != '\n' by {
        if i < a.len() {
            assert((a + b)[i] == a[i]);
        } else {
            assert((a + b)[i] == b[i - a.len()]);
        }
    }
}

proof fn lemma_escaped_no_newline(s: Seq<char>)
    ensures
        no_newline(escaped(s)),
    decreases s.len(),
{
    if s.len() > 0 {
        lemma_escaped_no_newline(s.drop_first());
        let e = escape_char(s[0]);
        assert(no_newline(e));
        lemma_no_newline_concat(e, escaped(s.drop_first()));
    }
}

proof fn lemma_quoted_no_newline(s: Seq<char>)
    ensures
        no_newline(quoted(s)),
{
    lemma_escaped_no_newline(s);
    lemma_no_newline_concat(seq!['"'], escaped(s));
    lemma_no_newline_concat(seq!['"'] + escaped(s), seq!['"']);
}

proof fn lemma_list_items_no_newline(ns: Seq<Seq<char>>)
    ensures
        no_newline(list_items(ns)),
    decreases ns.len(),
{
    if ns.len() == 1 {
        lemma_quoted_no_newline(ns[0]);
    } else if ns.len() > 1 {
        lemma_quoted_no_newline(ns[0]);
        lemma_list_items_no_newline(ns.drop_first());
        lemma_no_newline_concat(quoted(ns[0]), seq![',', ' ']);
        lemma_no_newline_concat(quoted(ns[0]) + seq![',', ' '], list_items(ns.drop_first()));
    }
}

proof fn lemma_entry_no_newline(key: Seq<char>, v: Seq<char>)
    requires
        no_newline(key),
        no_newline(v),
    ensures
        no_newline(entry_text(key, v)),
{
    lemma_no_newline_concat(key, seq![' ', '=', ' ']);
    lemma_no_newline_concat(key + seq![' ', '=', ' '], v);
}

proof fn lemma_split_no_newline(a: Seq<char>, b: Seq<char>, cur: Seq<char>)
    requires
        no_newline(a),
    ensures
        split_lines_from(a + b, cur) == split_lines_from(b, cur + a),
    decreases a.len(),
{
    if a.len() == 0 {
        assert(a + b =~= b);
        assert(cur + a =~= cur);
    } else {
        assert((a + b)[0] == a[0]);
        assert((a + b).drop_first() =~= a.drop_first() + b);
        lemma_split_no_newline(a.drop_first(), b, cur.push(a[0]));
        assert(cur.push(a[0]) + a.drop_first() =~= cur + a);
    }
}

proof fn lemma_split_joined(ls: Seq<Seq<char>>, rest: Seq<char>)
    requires
        forall|k: int| 0 <= k < ls.len() ==> no_newline(#[trigger] ls[k]),
    ensures
        split_lines_from(joined_lines(ls) + rest, Seq::empty()) == ls + split_lines_from(
            rest,
            Seq::empty(),
        ),
    decreases ls.len(),
{
    if ls.len() == 0 {
        assert(joined_lines(ls) + rest =~= rest);
        assert(ls + split_lines_from(rest, Seq::empty()) =~= split_lines_from(rest, Seq::empty()));
    } else {
        let init = ls.drop_last();
        let last = ls.last();
        assert(no_newline(ls[ls.len() - 1]));
        let tail = seq!['\n'] + rest;
        assert(joined_lines(ls) + rest =~= joined_lines(init) + (last + tail));
        lemma_split_joined(init, last + tail);
        lemma_split_no_newline(last, tail, Seq::empty());
        assert(Seq::<char>::empty() + last =~= last);
        assert(tail[0] == '\n');
        assert(tail.drop_first() =~= rest);
        assert(split_lines_from(tail, last) == seq![last] + split_lines_from(rest, Seq::empty()));
        assert(init + (seq![last] + split_lines_from(rest, Seq::empty())) =~= ls + split_lines_from(
            rest,
            Seq::empty(),
        ));
    }
}

proof fn lemma_scan_escaped(p: Seq<char>, s: Seq<char>, r: Seq<char>, acc: Seq<char>)
    ensures
        scan_text(p + escaped(s) + seq!['"'] + r, p.len() as int, acc) == Some(
            (acc + s, (p.len() + escaped(s).len() + 1) as int),
        ),
    decreases s.len(),
{
    let l = p + escaped(s) + seq!['"'] + r;
    if s.len() == 0 {
        assert(acc + s =~= acc);
        assert(escaped(s) =~= Seq::<char>::empty());
        assert(l[p.len() as int] == '"');
    } else {
        let c = s[0];
        let e = escape_char(c);
        let p2 = p + e;
        assert(l =~= p2 + escaped(s.drop_first()) + seq!['"'] + r);
        lemma_scan_escaped(p2, s.drop_first(), r, acc.push(c));
        assert(acc.push(c) + s.drop_first() =~= acc + s);
        if c == '"' || c == '\\' || c == '\n' || c == '\r' || c == '\t' {
            assert(l[p.len() as int] == '\\');
            assert(l[p.len() as int + 1] == e[1]);
            assert(unescape(e[1]) == Some(c));
        } else {
            assert(l[p.len() as int] == c);
        }
    }
}

proof fn lemma_skip_blanks_stop(l: Seq<char>, i: int)
    requires
        0 <= i < l.len(),
        !is_blank(l[i]),
    ensures
        skip_blanks(l, i) == i,
{
}

proof fn lemma_scan_quoted(p: Seq<char>, s: Seq<char>, r: Seq<char>)
    ensures
        scan_value(p + quoted(s) + r, p.len() as int) == Some(
            (Value::Text(s), (p.len() + quoted(s).len()) as int),
        ),
{
    let l = p + quoted(s) + r;
    assert(l =~= (p + seq!['"']) + escaped(s) + seq!['"'] + r);
    lemma_scan_escaped(p + seq!['"'], s, r, Seq::empty());
    assert(Seq::<char>::empty() + s =~= s);
    assert(l[p.len() as int] == '"');
}

proof fn lemma_scan_flag(p: Seq<char>, b: bool, r: Seq<char>)
    ensures
        scan_value(p + flag_text(b) + r, p.len() as int) == Some(
            (Value::Flag(b), (p.len() + flag_text(b).len()) as int),
        ),
{
    let l = p + flag_text(b) + r;
    let i = p.len() as int;
    if b {
        assert(l.subrange(i, i + 4) =~= true_word());
        assert(l[i] == 't');
    } else {
        assert(l.subrange(i, i + 5) =~= false_word());
        assert(l[i] == 'f');
        assert(!word_at(l, i, true_word())) by {
            if word_at(l, i, true_word()) {
                assert(l.subrange(i, i + 4)[0] == 't');
            }
        }
    }
}

proof fn lemma_scan_items(p: Seq<char>, ns: Seq<Seq<char>>, r: Seq<char>, acc: Seq<Seq<char>>)
    requires
        ns.len() >= 1,
    ensures
        scan_list(p + list_items(ns) + seq![']'] + r, p.len() as int, acc) == Some(
            (acc + ns, (p.len() + list_items(ns).len() + 1) as int),
        ),
    decreases ns.len(),
{
    let n0 = ns[0];
    let i = p.len() as int;
    let q = quoted(n0);
    if ns.len() == 1 {
        let l = p + q + seq![']'] + r;
        assert(list_items(ns) == q);
        assert(l =~= (p + seq!['"']) + escaped(n0) + seq!['"'] + (seq![']'] + r));
        lemma_scan_escaped(p + seq!['"'], n0, seq![']'] + r, Seq::empty());
        assert(Seq::<char>::empty() + n0 =~= n0);
        assert(l[i] == '"');
        let j = i + q.len();
        assert(l[j] == ']');
        lemma_skip_blanks_stop(l, j);
        assert(acc.push(n0) =~= acc + ns);
    } else {
        let rest = ns.drop_first();
        let l = p + list_items(ns) + seq![']'] + r;
        assert(list_items(ns) == q + seq![',', ' '] + list_items(rest));
        let tail = seq![',', ' '] + list_items(rest) + seq![']'] + r;
        assert(l =~= (p + seq!['"']) + escaped(n0) + seq!['"'] + tail);
        lemma_scan_escaped(p + seq!['"'], n0, tail, Seq::empty());
        assert(Seq::<char>::empty() + n0 =~= n0);
        assert(l[i] == '"');
        let j = i + q.len();
        assert(l[j] == ',');
        lemma_skip_blanks_stop(l, j);
        assert(l[j + 1] == ' ');
        assert(quoted(rest[0])[0] == '"');
        assert(list_items(rest)[0] == '"');
        assert(l[j + 2] == '"');
        lemma_skip_blanks_stop(l, j + 2);
        let p2 = p + q + seq![',', ' '];
        assert(l =~= p2 + list_items(rest) + seq![']'] + r);
        lemma_scan_items(p2, rest, r, acc.push(n0));
        assert(acc.push(n0) + rest =~= acc + ns);
    }
}

proof fn lemma_scan_list_value(p: Seq<char>, ns: Seq<Seq<char>>, r: Seq<char>)
    ensures
        scan_value(p + list_text(ns) + r, p.len() as int) == Some(
            (Value::List(ns), (p.len() + list_text(ns).len()) as int),
        ),
{
    let l = p + list_text(ns) + r;
    let i = p.len() as int;
    assert(l[i] == '[');
    assert(!word_at(l, i, true_word())) by {
        if word_at(l, i, true_word()) {
            assert(l.subrange(i, i + 4)[0] == 't');
        }
    }
    assert(!word_at(l, i, false_word())) by {
        if word_at(l, i, false_word()) {
            assert(l.subrange(i, i + 5)[0] == 'f');
        }
    }
    if ns.len() == 0 {
        assert(list_items(ns) =~= Seq::<char>::empty());
        assert(l[i + 1] == ']');
        lemma_skip_blanks_stop(l, i + 1);
        assert(Seq::<Seq<char>>::empty() =~= ns);
    } else {
        assert(quoted(ns[0])[0] == '"');
        assert(list_items(ns)[0] == '"');
        assert(l[i + 1] == '"');
        lemma_skip_blanks_stop(l, i + 1);
        assert(l =~= (p + seq!['[']) + list_items(ns) + seq![']'] + r);
        lemma_scan_items(p + seq!['['], ns, r, Seq::empty());
        assert(Seq::<Seq<char>>::empty() + ns =~= ns);
    }
}

/// `b` is made of white space only.
pub open spec fn all_blank(b: Seq<char>) -> bool {
    forall|k: int| 0 <= k < b.len() ==> is_blank(#[trigger] b[k])
}

/// Quoted strings separated by commas, with the white space `before[k]` and `after[k]`
/// around the comma that follows the `k`th string.
pub open spec fn spaced_items(
    ns: Seq<Seq<char>>,
    before: Seq<Seq<char>>,
    after: Seq<Seq<char>>,
) -> Seq<char>
    decreases ns.len(),
{
    if ns.len() == 0 {
        Seq::empty()
    } else if ns.len() == 1 {
        quoted(ns[0])
    } else {
        quoted(ns[0]) + before[0] + seq![','] + after[0] + spaced_items(
            ns.drop_first(),
            before.drop_first(),
            after.drop_first(),
        )
    }
}

/// A bracketed list of quoted strings written with the white space `open` after the opening
/// bracket, `close` before the closing one, and `before`/`after` around each comma.
pub open spec fn spaced_list(
    ns: Seq<Seq<char>>,
    open: Seq<char>,
    before: Seq<Seq<char>>,
    after: Seq<Seq<char>>,
    close: Seq<char>,
) -> Seq<char> {
    seq!['['] + open + spaced_items(ns, before, after) + close + seq![']']
}

proof fn lemma_skip_blank_run(l: Seq<char>, i: int, b: Seq<char>)
    requires
        0 <= i,
        i + b.len() < l.len(),
        l.subrange(i, i + b.len()) == b,
        all_blank(b),
        !is_blank(l[i + b.len()]),
    ensures
        skip_blanks(l, i) == i + b.len(),
    decreases b.len(),
{
    if b.len() > 0 {
        assert(l[i] == l.subrange(i, i + b.len())[0]);
        assert(is_blank(b[0]));
        let rest = b.drop_first();
        assert(l.subrange(i + 1, i + 1 + rest.len()) =~= rest);
        assert forall|k: int| 0 <= k < rest.len() implies is_blank(#[trigger] rest[k]) by {
            assert(rest[k] == b[k + 1]);
        }
        lemma_skip_blank_run(l, i + 1, rest);
    }
}

proof fn lemma_spaced_items_start(ns: Seq<Seq<char>>, before: Seq<Seq<char>>, after: Seq<Seq<char>>)
    requires
        ns.len() >= 1,
    ensures
        spaced_items(ns, before, after).len() > 0,
        spaced_items(ns, before, after)[0] == '"',
{
    assert(quoted(ns[0])[0] == '"');
    if ns.len() > 1 {
        assert(spaced_items(ns, before, after) =~= quoted(ns[0]) + (before[0] + seq![','] + after[0]
            + spaced_items(ns.drop_first(), before.drop_first(), after.drop_first())));
    }
}

proof fn lemma_blank_runs_drop_first(bs: Seq<Seq<char>>)
    requires
        bs.len() >= 1,
        forall|k: int| 0 <= k < bs.len() ==> all_blank(#[trigger] bs[k]),
    ensures
        forall|k: int| 0 <= k < bs.drop_first().len() ==> all_blank(#[trigger] bs.drop_first()[k]),
{
    assert forall|k: int| 0 <= k < bs.drop_first().len() implies all_blank(
        #[trigger] bs.drop_first()[k],
    ) by {
        assert(bs.drop_first()[k] == bs[k + 1]);
    }
}

#[verifier::spinoff_prover]
#[verifier::rlimit(30)]
proof fn lemma_scan_spaced_items(
    p: Seq<char>,
    ns: Seq<Seq<char>>,
    before: Seq<Seq<char>>,
    after: Seq<Seq<char>>,
    close: Seq<char>,
    r: Seq<char>,
    acc: Seq<Seq<char>>,
)
    requires
        ns.len() >= 1,
        before.len() >= ns.len() - 1,
        after.len() >= ns.len() - 1,
        forall|k: int| 0 <= k < before.len() ==> all_blank(#[trigger] before[k]),
        forall|k: int| 0 <= k < after.len() ==> all_blank(#[trigger] after[k]),
        all_blank(close),
    ensures
        scan_list(p + spaced_items(ns, before, after) + close + seq![']'] + r, p.len() as int, acc)
            == Some(
            (acc + ns, (p.len() + spaced_items(ns, before, after).len() + close.len() + 1) as int),
        ),
    decreases ns.len(),
{
    let n0 = ns[0];
    let i = p.len() as int;
    let q = quoted(n0);
    let j = i + q.len();
    if ns.len() == 1 {
        let tail = close + seq![']'] + r;
        let l = p + spaced_items(ns, before, after) + close + seq![']'] + r;
        assert(spaced_items(ns, before, after) == q);
        assert(l =~= (p + seq!['"']) + escaped(n0) + seq!['"'] + tail);
        lemma_scan_escaped(p + seq!['"'], n0, tail, Seq::empty());
        assert(Seq::<char>::empty() + n0 =~= n0);
        assert(l[i] == '"');
        assert(l.subrange(j, j + close.len()) =~= close);
        assert(l[j + close.len()] == ']');
        lemma_skip_blank_run(l, j, close);
        assert(acc.push(n0) =~= acc + ns);
    } else {
        let rest = ns.drop_first();
        let b0 = before[0];
        let a0 = after[0];
        let items = spaced_items(rest, before.drop_first(), after.drop_first());
        let l = p + spaced_items(ns, before, after) + close + seq![']'] + r;
        assert(spaced_items(ns, before, after) == q + b0 + seq![','] + a0 + items);
        let tail = b0 + seq![','] + a0 + items + close + seq![']'] + r;
        assert(l =~= (p + seq!['"']) + escaped(n0) + seq!['"'] + tail);
        lemma_scan_escaped(p + seq!['"'], n0, tail, Seq::empty());
        assert(Seq::<char>::empty() + n0 =~= n0);
        assert(l[i] == '"');
        assert(all_blank(b0));
        assert(all_blank(a0));
        let k = j + b0.len();
        assert(l.subrange(j, k) =~= b0);
        assert(l[k] == ',');
        lemma_skip_blank_run(l, j, b0);
        lemma_spaced_items_start(rest, before.drop_first(), after.drop_first());
        let m = k + 1 + a0.len();
        assert(l.subrange(k + 1, m) =~= a0);
        assert(l[m] == '"');
        lemma_skip_blank_run(l, k + 1, a0);
        let p2 = p + q + b0 + seq![','] + a0;
        assert(l =~= p2 + items + close + seq![']'] + r);
        lemma_blank_runs_drop_first(before);
        lemma_blank_runs_drop_first(after);
        lemma_scan_spaced_items(
            p2,
            rest,
            before.drop_first(),
            after.drop_first(),
            close,
            r,
            acc.push(n0),
        );
        assert(acc.push(n0) + rest =~= acc + ns);
    }
}

/// White space around the brackets and commas of a list does not matter: whatever blanks
/// stand after `[`, before `]` and on either side of each comma, the list reads as the
/// strings written in it, and reading ends just after its `]`.
pub proof fn lemma_scan_spaced_list(
    p: Seq<char>,
    ns: Seq<Seq<char>>,
    open: Seq<char>,
    before: Seq<Seq<char>>,
    after: Seq<Seq<char>>,
    close: Seq<char>,
    r: Seq<char>,
)
    requires
        all_blank(open),
        all_blank(close),
        before.len() >= ns.len() - 1,
        after.len() >= ns.len() - 1,
        forall|k: int| 0 <= k < before.len() ==> all_blank(#[trigger] before[k]),
        forall|k: int| 0 <= k < after.len() ==> all_blank(#[trigger] after[k]),
    ensures
        scan_value(p + spaced_list(ns, open, before, after, close) + r, p.len() as int) == Some(
            (Value::List(ns), (p.len() + spaced_list(ns, open, before, after, close).len()) as int),
        ),
{
    let items = spaced_items(ns, before, after);
    let l = p + spaced_list(ns, open, before, after, close) + r;
    let i = p.len() as int;
    assert(l[i] == '[');
    assert(!word_at(l, i, true_word())) by {
        if word_at(l, i, true_word()) {
            assert(l.subrange(i, i + 4)[0] == 't');
        }
    }
    assert(!word_at(l, i, false_word())) by {
        if word_at(l, i, false_word()) {
            assert(l.subrange(i, i + 5)[0] == 'f');
        }
    }
    if ns.len() == 0 {
        assert(items =~= Seq::<char>::empty());
        let oc = open + close;
        assert forall|k: int| 0 <= k < oc.len() implies is_blank(#[trigger] oc[k]) by {
            if k < open.len() {
                assert(oc[k] == open[k]);
            } else {
                assert(oc[k] == close[k - open.len()]);
            }
        }
        assert(l.subrange(i + 1, i + 1 + oc.len()) =~= oc);
        assert(l[i + 1 + oc.len()] == ']');
        lemma_skip_blank_run(l, i + 1, oc);
        assert(Seq::<Seq<char>>::empty() =~= ns);
    } else {
        lemma_spaced_items_start(ns, before, after);
        assert(l.subrange(i + 1, i + 1 + open.len()) =~= open);
        assert(l[i + 1 + open.len()] == '"');
        lemma_skip_blank_run(l, i + 1, open);
        assert(l =~= (p + seq!['['] + open) + items + close + seq![']'] + r);
        lemma_scan_spaced_items(p + seq!['['] + open, ns, before, after, close, r, Seq::empty());
        assert(Seq::<Seq<char>>::empty() + ns =~= ns);
    }
}

proof fn lemma_key_end_run(l: Seq<char>, i: int, e: int)
    requires
        0 <= i <= e <= l.len(),
        forall|k: int| i <= k < e ==> is_key_char(#[trigger] l[k]),
        e < l.len() ==> !is_key_char(l[e]),
    ensures
        key_end(l, i) == e,
    decreases e - i,
{
    if i < e {
        lemma_key_end_run(l, i + 1, e);
    }
}

/// `key = value` reads back as that key and value.
proof fn lemma_entry_line(key: Seq<char>, vt: Seq<char>, v: Value)
    requires
        key.len() > 0,
        forall|i: int| 0 <= i < key.len() ==> is_key_char(#[trigger] key[i]),
        vt.len() > 0,
        !is_blank(vt[0]),
        scan_value(entry_text(key, vt), key.len() as int + 3) == Some(
            (v, entry_text(key, vt).len() as int),
        ),
    ensures
        parse_line(entry_text(key, vt)) == Some(Line::Entry(key, v)),
{
    reveal(parse_line);
    let l = entry_text(key, vt);
    let n = key.len() as int;
    assert(l[0] == key[0]);
    assert(is_key_char(key[0]));
    lemma_skip_blanks_stop(l, 0);
    assert(!word_at(l, 0, header_word())) by {
        if word_at(l, 0, header_word()) {
            assert(l.subrange(0, 9)[0] == '[');
        }
    }
    assert forall|k: int| 0 <= k < n implies is_key_char(#[trigger] l[k]) by {
        assert(l[k] == key[k]);
    }
    assert(l[n] == ' ');
    lemma_key_end_run(l, 0, n);
    assert(l[n + 1] == '=');
    lemma_skip_blanks_stop(l, n + 1);
    assert(skip_blanks(l, n) == n + 1);
    assert(l[n + 2] == ' ');
    assert(l[n + 3] == vt[0]);
    lemma_skip_blanks_stop(l, n + 3);
    assert(skip_blanks(l, n + 2) == n + 3);
    assert(l.subrange(0, n) =~= key);
}

proof fn lemma_header_line()
    ensures
        parse_line(header_word()) == Some(Line::AlarmHeader),
{
    reveal(parse_line);
    let l = header_word();
    lemma_skip_blanks_stop(l, 0);
    assert(l.subrange(0, 9) =~= header_word());
}

proof fn lemma_blank_line()
    ensures
        parse_line(Seq::<char>::empty()) == Some(Line::Blank),
{
    reveal(parse_line);
}

proof fn lemma_keys()
    ensures
        forall|i: int| 0 <= i < sound_key().len() ==> is_key_char(#[trigger] sound_key()[i]),
        forall|i: int| 0 <= i < label_key().len() ==> is_key_char(#[trigger] label_key()[i]),
        forall|i: int| 0 <= i < time_key().len() ==> is_key_char(#[trigger] time_key()[i]),
        forall|i: int| 0 <= i < days_key().len() ==> is_key_char(#[trigger] days_key()[i]),
        forall|i: int| 0 <= i < enabled_key().len() ==> is_key_char(#[trigger] enabled_key()[i]),
        forall|i: int|
            0 <= i < require_headset_key().len() ==> is_key_char(
                #[trigger] require_headset_key()[i],
            ),
        no_newline(sound_key()),
        no_newline(label_key()),
        no_newline(time_key()),
        no_newline(days_key()),
        no_newline(enabled_key()),
        no_newline(require_headset_key()),
        label_key() != time_key(),
        label_key() != days_key(),
        label_key() != enabled_key(),
        label_key() != require_headset_key(),
        time_key() != days_key(),
        time_key() != enabled_key(),
        time_key() != require_headset_key(),
        days_key() != enabled_key(),
        days_key() != require_headset_key(),
        enabled_key() != require_headset_key(),
{
    assert(label_key()[0] != time_key()[0]);
    assert(label_key()[0] != days_key()[0]);
    assert(label_key()[0] != enabled_key()[0]);
    assert(label_key()[0] != require_headset_key()[0]);
    assert(time_key()[0] != days_key()[0]);
    assert(time_key()[0] != enabled_key()[0]);
    assert(time_key()[0] != require_headset_key()[0]);
    assert(days_key()[0] != enabled_key()[0]);
    assert(days_key()[0] != require_headset_key()[0]);
    assert(enabled_key()[0] != require_headset_key()[0]);
}

proof fn lemma_days_round_trip(days: Seq<Weekday>)
    ensures
        days_from_names(day_names(days)) == Ok::<Seq<Weekday>, Seq<char>>(days),
    decreases days.len(),
{
    let names = day_names(days);
    if days.len() > 0 {
        lemma_days_round_trip(days.drop_last());
        assert(names.drop_last() =~= day_names(days.drop_last()));
        assert(names.last() == weekday_code(days.last()));
        lemma_weekday_code_round_trip(days.last());
        assert(days.drop_last().push(days.last()) =~= days);
    } else {
        assert(names.len() == 0);
        assert(days =~= Seq::<Weekday>::empty());
    }
}

proof fn lemma_label_line(a: AlarmView)
    ensures
        parse_line(entry_text(label_key(), quoted(a.label))) == Some(
            Line::Entry(label_key(), Value::Text(a.label)),
        ),
{
    lemma_keys();
    let pl = label_key() + seq![' ', '=', ' '];
    lemma_scan_quoted(pl, a.label, Seq::empty());
    assert(pl + quoted(a.label) + Seq::<char>::empty() =~= entry_text(label_key(), quoted(a.label)));
    lemma_entry_line(label_key(), quoted(a.label), Value::Text(a.label));
}

proof fn lemma_time_line(a: AlarmView)
    ensures
        parse_line(entry_text(time_key(), quoted(time_text(a.time)))) == Some(
            Line::Entry(time_key(), Value::Text(time_text(a.time))),
        ),
{
    lemma_keys();
    let pt = time_key() + seq![' ', '=', ' '];
    lemma_scan_quoted(pt, time_text(a.time), Seq::empty());
    assert(pt + quoted(time_text(a.time)) + Seq::<char>::empty() =~= entry_text(
        time_key(),
        quoted(time_text(a.time)),
    ));
    lemma_entry_line(time_key(), quoted(time_text(a.time)), Value::Text(time_text(a.time)));
}

proof fn lemma_days_line(a: AlarmView)
    ensures
        parse_line(entry_text(days_key(), list_text(day_names(a.days)))) == Some(
            Line::Entry(days_key(), Value::List(day_names(a.days))),
        ),
{
    lemma_keys();
    let pd = days_key() + seq![' ', '=', ' '];
    lemma_scan_list_value(pd, day_names(a.days), Seq::empty());
    assert(pd + list_text(day_names(a.days)) + Seq::<char>::empty() =~= entry_text(
        days_key(),
        list_text(day_names(a.days)),
    ));
    lemma_entry_line(days_key(), list_text(day_names(a.days)), Value::List(day_names(a.days)));
}

proof fn lemma_flag_line(key: Seq<char>, b: bool)
    requires
        key.len() > 0,
        forall|i: int| 0 <= i < key.len() ==> is_key_char(#[trigger] key[i]),
    ensures
        parse_line(entry_text(key, flag_text(b))) == Some(Line::Entry(key, Value::Flag(b))),
{
    let pe = key + seq![' ', '=', ' '];
    lemma_scan_flag(pe, b, Seq::empty());
    assert(pe + flag_text(b) + Seq::<char>::empty() =~= entry_text(key, flag_text(b)));
    lemma_entry_line(key, flag_text(b), Value::Flag(b));
}

/// Every line written for an alarm reads back as what it says.
proof fn lemma_alarm_lines_parse(a: AlarmView)
    ensures
        parse_line(alarm_lines(a)[0]) == Some(Line::Blank),
        parse_line(alarm_lines(a)[1]) == Some(Line::AlarmHeader),
        parse_line(alarm_lines(a)[2]) == Some(Line::Entry(label_key(), Value::Text(a.label))),
        parse_line(alarm_lines(a)[3]) == Some(
            Line::Entry(time_key(), Value::Text(time_text(a.time))),
        ),
        parse_line(alarm_lines(a)[4]) == Some(
            Line::Entry(days_key(), Value::List(day_names(a.days))),
        ),
        parse_line(alarm_lines(a)[5]) == Some(Line::Entry(enabled_key(), Value::Flag(a.enabled))),
        parse_line(alarm_lines(a)[6]) == Some(
            Line::Entry(require_headset_key(), Value::Flag(a.require_headset)),
        ),
{
    lemma_keys();
    lemma_blank_line();
    lemma_header_line();
    lemma_label_line(a);
    lemma_time_line(a);
    lemma_days_line(a);
    lemma_flag_line(enabled_key(), a.enabled);
    lemma_flag_line(require_headset_key(), a.require_headset);
    assert(alarm_lines(a)[0] =~= Seq::<char>::empty());
}

proof fn lemma_alarm_lines_no_newline(a: AlarmView)
    ensures
        forall|k: int| 0 <= k < 7 ==> no_newline(#[trigger] alarm_lines(a)[k]),
{
    lemma_keys();
    let ls = alarm_lines(a);
    assert(no_newline(header_word()));
    lemma_quoted_no_newline(a.label);
    lemma_entry_no_newline(label_key(), quoted(a.label));
    lemma_quoted_no_newline(time_text(a.time));
    lemma_entry_no_newline(time_key(), quoted(time_text(a.time)));
    lemma_list_items_no_newline(day_names(a.days));
    lemma_no_newline_concat(seq!['['], list_items(day_names(a.days)));
    lemma_no_newline_concat(seq!['['] + list_items(day_names(a.days)), seq![']']);
    lemma_entry_no_newline(days_key(), list_text(day_names(a.days)));
    assert(no_newline(flag_text(a.enabled)));
    assert(no_newline(flag_text(a.require_headset)));
    lemma_entry_no_newline(enabled_key(), flag_text(a.enabled));
    lemma_entry_no_newline(require_headset_key(), flag_text(a.require_headset));
    assert(ls[0] =~= Seq::<char>::empty());
}

proof fn lemma_alarms_lines_index(alarms: Seq<AlarmView>)
    ensures
        alarms_lines(alarms).len() == 7 * alarms.len(),
        forall|j: int, m: int|
            0 <= j < alarms.len() && 0 <= m < 7 ==> #[trigger] alarms_lines(alarms)[7 * j + m]
                == alarm_lines(alarms[j])[m],
    decreases alarms.len(),
{
    if alarms.len() > 0 {
        let init = alarms.drop_last();
        lemma_alarms_lines_index(init);
        assert forall|j: int, m: int|
            0 <= j < alarms.len() && 0 <= m < 7 implies #[trigger] alarms_lines(alarms)[7 * j + m]
            == alarm_lines(alarms[j])[m] by {
            if j < alarms.len() - 1 {
                assert(alarms_lines(init)[7 * j + m] == alarm_lines(init[j])[m]);
                assert(init[j] == alarms[j]);
            }
        }
    }
}

/// An alarm with every field given, its header on line `line`.
pub open spec fn full_draft(a: AlarmView, line: int) -> Draft {
    Draft {
        line,
        label: Some(a.label),
        time: Some(a.time),
        days: Some(a.days),
        enabled: Some(a.enabled),
        require_headset: Some(a.require_headset),
    }
}

/// What the lines written for `c` have given once the first `j` alarms were read.
pub open spec fn doc_after(c: ConfigView, j: int) -> Doc {
    if j == 0 {
        Doc { sound: Some(c.sound), alarms: Seq::empty(), current: None }
    } else {
        Doc {
            sound: Some(c.sound),
            alarms: c.alarms.take(j - 1),
            current: Some(full_draft(c.alarms[j - 1], 7 * (j - 1) + 3)),
        }
    }
}

proof fn lemma_apply_step(doc: Doc, ls: Seq<Seq<char>>, k: int, next: Doc)
    requires
        0 <= k < ls.len(),
        apply_line(doc, k + 1, ls[k]) == Ok::<Doc, ConfigErrorView>(next),
    ensures
        apply_lines(doc, ls, k) == apply_lines(next, ls, k + 1),
{
}

proof fn lemma_alarm_block(c: ConfigView, ls: Seq<Seq<char>>, j: int)
    requires
        0 <= j < c.alarms.len(),
        c.alarms[j].time.wf(),
        ls.len() == 7 * c.alarms.len() + 2,
        forall|m: int| 0 <= m < 7 ==> #[trigger] ls[1 + 7 * j + m] == alarm_lines(c.alarms[j])[m],
    ensures
        apply_lines(doc_after(c, j), ls, 1 + 7 * j) == apply_lines(
            doc_after(c, j + 1),
            ls,
            1 + 7 * (j + 1),
        ),
{
    let a = c.alarms[j];
    let k = 1 + 7 * j;
    lemma_alarm_lines_parse(a);
    lemma_keys();
    assert(ls[k + 0] == alarm_lines(a)[0]);
    assert(ls[k + 1] == alarm_lines(a)[1]);
    assert(ls[k + 2] == alarm_lines(a)[2]);
    assert(ls[k + 3] == alarm_lines(a)[3]);
    assert(ls[k + 4] == alarm_lines(a)[4]);
    assert(ls[k + 5] == alarm_lines(a)[5]);
    assert(ls[k + 6] == alarm_lines(a)[6]);
    let d0 = doc_after(c, j);
    lemma_apply_step(d0, ls, k, d0);
    let closed = Doc { sound: Some(c.sound), alarms: c.alarms.take(j), current: None };
    assert(finish(d0) == Ok::<Doc, ConfigErrorView>(closed)) by {
        if j > 0 {
            let prev = c.alarms[j - 1];
            assert(draft_alarm(full_draft(prev, 7 * (j - 1) + 3), prev.time) == prev);
            assert(c.alarms.take(j - 1).push(prev) =~= c.alarms.take(j));
        } else {
            assert(c.alarms.take(0) =~= Seq::<AlarmView>::empty());
        }
    }
    let line = 7 * j + 3;
    let d1 = Doc { current: Some(empty_draft(line)), ..closed };
    lemma_apply_step(d0, ls, k + 1, d1);
    let e0 = empty_draft(line);
    let e1 = Draft { label: Some(a.label), ..e0 };
    let d2 = Doc { current: Some(e1), ..closed };
    lemma_apply_step(d1, ls, k + 2, d2);
    crate::clock::lemma_time_text_round_trip(a.time);
    let e2 = Draft { time: Some(a.time), ..e1 };
    let d3 = Doc { current: Some(e2), ..closed };
    lemma_apply_step(d2, ls, k + 3, d3);
    lemma_days_round_trip(a.days);
    let e3 = Draft { days: Some(a.days), ..e2 };
    let d4 = Doc { current: Some(e3), ..closed };
    lemma_apply_step(d3, ls, k + 4, d4);
    let e4 = Draft { enabled: Some(a.enabled), ..e3 };
    let d5 = Doc { current: Some(e4), ..closed };
    lemma_apply_step(d4, ls, k + 5, d5);
    let e5 = Draft { require_headset: Some(a.require_headset), ..e4 };
    let d6 = Doc { current: Some(e5), ..closed };
    lemma_apply_step(d5, ls, k + 6, d6);
    assert(d6 == doc_after(c, j + 1));
}

proof fn lemma_blocks(c: ConfigView, ls: Seq<Seq<char>>, j: int)
    requires
        0 <= j <= c.alarms.len(),
        ls.len() == 7 * c.alarms.len() + 2,
        forall|i: int| 0 <= i < c.alarms.len() ==> (#[trigger] c.alarms[i]).time.wf(),
        forall|jj: int, m: int|
            0 <= jj < c.alarms.len() && 0 <= m < 7 ==> #[trigger] ls[1 + 7 * jj + m]
                == alarm_lines(c.alarms[jj])[m],
    ensures
        apply_lines(doc_after(c, 0), ls, 1) == apply_lines(doc_after(c, j), ls, 1 + 7 * j),
    decreases j,
{
    if j > 0 {
        lemma_blocks(c, ls, j - 1);
        assert forall|m: int| 0 <= m < 7 implies #[trigger] ls[1 + 7 * (j - 1) + m] == alarm_lines(
            c.alarms[j - 1],
        )[m] by {
            assert(ls[1 + 7 * (j - 1) + m] == alarm_lines(c.alarms[j - 1])[m]);
        }
        lemma_alarm_block(c, ls, j - 1);
    }
}

/// Reading back the text written for a configuration gives the configuration, unchanged:
/// saving from the settings window and loading again loses nothing.
pub proof fn lemma_config_round_trip(c: ConfigView)
    requires
        forall|i: int| 0 <= i < c.alarms.len() ==> (#[trigger] c.alarms[i]).time.wf(),
    ensures
        config_from_text(config_text(c)) == Ok::<ConfigView, ConfigErrorView>(c),
{
    let cl = config_lines(c);
    let n = c.alarms.len() as int;
    lemma_alarms_lines_index(c.alarms);
    lemma_keys();
    lemma_quoted_no_newline(c.sound);
    lemma_entry_no_newline(sound_key(), quoted(c.sound));
    assert forall|k: int| 0 <= k < cl.len() implies no_newline(#[trigger] cl[k]) by {
        if k > 0 {
            let j = (k - 1) / 7;
            let m = (k - 1) % 7;
            assert(cl[k] == alarms_lines(c.alarms)[7 * j + m]);
            lemma_alarm_lines_no_newline(c.alarms[j]);
        }
    }
    lemma_split_joined(cl, Seq::empty());
    assert(joined_lines(cl) + Seq::<char>::empty() =~= joined_lines(cl));
    let ls = cl + seq![Seq::<char>::empty()];
    assert(lines_of(config_text(c)) == ls);
    assert(ls.len() == 7 * n + 2);
    // the sound line
    let sl = entry_text(sound_key(), quoted(c.sound));
    let ps = sound_key() + seq![' ', '=', ' '];
    lemma_scan_quoted(ps, c.sound, Seq::empty());
    assert(ps + quoted(c.sound) + Seq::<char>::empty() =~= sl);
    lemma_entry_line(sound_key(), quoted(c.sound), Value::Text(c.sound));
    assert(ls[0] == sl);
    lemma_apply_step(initial_doc(), ls, 0, doc_after(c, 0));
    assert forall|jj: int, m: int|
        0 <= jj < c.alarms.len() && 0 <= m < 7 implies #[trigger] ls[1 + 7 * jj + m]
            == alarm_lines(c.alarms[jj])[m] by {
        assert(ls[1 + 7 * jj + m] == alarms_lines(c.alarms)[7 * jj + m]);
    }
    // the alarms, one block of lines each
    lemma_blocks(c, ls, n);
    // the empty line after the last line feed, then the end
    assert(ls[1 + 7 * n] =~= Seq::<char>::empty());
    lemma_blank_line();
    lemma_apply_step(doc_after(c, n), ls, 1 + 7 * n, doc_after(c, n));
    assert(finish(doc_after(c, n)) == Ok::<Doc, ConfigErrorView>(
        Doc { sound: Some(c.sound), alarms: c.alarms, current: None },
    )) by {
        if n > 0 {
            let prev = c.alarms[n - 1];
            assert(draft_alarm(full_draft(prev, 7 * (n - 1) + 3), prev.time) == prev);
            assert(c.alarms.take(n - 1).push(prev) =~= c.alarms);
        } else {
            assert(c.alarms =~= Seq::<AlarmView>::empty());
        }
    }
}

// ---------------------------------------------------------------------------------------
// Loading, and saying what went wrong
// ---------------------------------------------------------------------------------------

/// What loading gives: a missing file means no alarms yet; a file that exists is read.
pub open spec fn config_from_file(contents: Option<Seq<char>>) -> Result<ConfigView, ConfigErrorView> {
    match contents {
        None => Ok(ConfigView { sound: Seq::empty(), alarms: Seq::empty() }),
        Some(text) => config_from_text(text),
    }
}

/// The contents of a file, if there is one, as characters.
pub open spec fn file_chars(contents: Option<&str>) -> Option<Seq<char>> {
    match contents {
        Some(t) => Some(t@),
        None => None,
    }
}

/// The configuration from the file's contents, `None` when there is no file.
pub fn load_from(contents: Option<&str>) -> (r: Result<Config, ConfigError>)
    ensures
        r matches Ok(c) ==> config_from_file(file_chars(contents)) == Ok::<
            ConfigView,
            ConfigErrorView,
        >(c@),
        r matches Ok(c) ==> crate::config::times_valid(c@.alarms),
        r matches Err(e) ==> config_from_file(file_chars(contents)) == Err::<
            ConfigView,
            ConfigErrorView,
        >(e@),
{
    match contents {
        None => {
            let c = Config::default();
            Ok(c)
        },
        Some(text) => {
            match parse(text) {
                Ok(c) => {
                    proof {
                        assert forall|i: int| 0 <= i < c@.alarms.len() implies (
                        #[trigger] c@.alarms[i]).time.wf() by {
                            assert(c@.alarms[i] == c.alarms@[i]@);
                        }
                    }
                    Ok(c)
                },
                Err(e) => Err(e),
            }
        },
    }
}

/// The message for an error, naming the line and the offending value.
pub open spec fn error_message(e: ConfigErrorView) -> Seq<char> {
    match e {
        ConfigErrorView::BadLine { line, text } => "配置第 "@ + decimal_text(line as nat)
            + " 行认不出来:"@ + text,
        ConfigErrorView::UnknownKey { line, key } => "配置第 "@ + decimal_text(line as nat)
            + " 行:不认识的键 "@ + key,
        ConfigErrorView::WrongType { line, key } => "配置第 "@ + decimal_text(line as nat)
            + " 行:"@ + key + " 的值类型不对"@,
        ConfigErrorView::DuplicateKey { line, key } => "配置第 "@ + decimal_text(line as nat)
            + " 行:"@ + key + " 写了两次"@,
        ConfigErrorView::BadTime { line, value } => "配置第 "@ + decimal_text(line as nat)
            + " 行:时间 \""@ + value + "\" 认不出来,应当形如 13:30"@,
        ConfigErrorView::BadWeekday { line, value } => "配置第 "@ + decimal_text(line as nat)
            + " 行:星期 \""@ + value + "\" 认不出来,应当是 mon 到 sun 之一"@,
        ConfigErrorView::MissingTime { line } => "配置第 "@ + decimal_text(line as nat)
            + " 行起的闹钟没有写时间"@,
    }
}

impl ConfigError {
    /// What to tell the user.
    pub fn message(&self) -> (m: String)
        ensures
            m@ == error_message(self@),
    {
        let mut m = String::from_str("配置第 ");
        match self {
            ConfigError::BadLine { line, text } => {
                m.append(decimal_string(*line as u64).as_str());
                m.append(" 行认不出来:");
                m.append(text.as_str());
            },
            ConfigError::UnknownKey { line, key } => {
                m.append(decimal_string(*line as u64).as_str());
                m.append(" 行:不认识的键 ");
                m.append(key.as_str());
            },
            ConfigError::WrongType { line, key } => {
                m.append(decimal_string(*line as u64).as_str());
                m.append(" 行:");
                m.append(key.as_str());
                m.append(" 的值类型不对");
            },
            ConfigError::DuplicateKey { line, key } => {
                m.append(decimal_string(*line as u64).as_str());
                m.append(" 行:");
                m.append(key.as_str());
                m.append(" 写了两次");
            },
            ConfigError::BadTime { line, value } => {
                m.append(decimal_string(*line as u64).as_str());
                m.append(" 行:时间 \"");
                m.append(value.as_str());
                m.append("\" 认不出来,应当形如 13:30");
            },
            ConfigError::BadWeekday { line, value } => {
                m.append(decimal_string(*line as u64).as_str());
                m.append(" 行:星期 \"");
                m.append(value.as_str());
                m.append("\" 认不出来,应当是 mon 到 sun 之一");
            },
            ConfigError::MissingTime { line } => {
                m.append(decimal_string(*line as u64).as_str());
                m.append(" 行起的闹钟没有写时间");
            },
        }
        m
    }
}

} // verus!
