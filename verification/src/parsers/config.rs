//! The configuration file: lines of the form `key = value`.
//!
//! A value is a text between double quotes, `true` or `false`, a number
//! written in digits, or a list of texts between square brackets, all on
//! one line. A line may end in a comment, which starts with `#`; a line
//! that holds nothing else is passed over. Where several files are read,
//! a key takes the value of the last file that names it.

use vstd::prelude::*;
use crate::settings::{clone_strings, empty_settings, strings, Settings, SettingsView};
use crate::text::{from_chars, same_chars, to_chars};

verus! {

/// A value as a configuration file writes it.
#[derive(Clone, Debug, PartialEq, Eq)]
pub enum Value {
    Text(String),
    Flag(bool),
    Number(u64),
    List(Vec<String>),
}

/// The mathematical value of a `Value`.
pub enum ValueView {
    Text(Seq<char>),
    Flag(bool),
    Number(nat),
    List(Seq<Seq<char>>),
}

impl View for Value {
    type V = ValueView;

    open spec fn view(&self) -> ValueView {
        match self {
            Value::Text(t) => ValueView::Text(t@),
            Value::Flag(b) => ValueView::Flag(*b),
            Value::Number(n) => ValueView::Number(*n as nat),
            Value::List(l) => ValueView::List(strings(l@)),
        }
    }
}

/// Whether a character is a blank inside a line.
pub open spec fn is_blank(c: char) -> bool {
    c == ' ' || c == '\t'
}

/// The first place from `i` on that holds no blank.
pub open spec fn skip_blanks(s: Seq<char>, i: int) -> int
    decreases s.len() - i,
{
    if 0 <= i < s.len() && is_blank(s[i]) {
        skip_blanks(s, i + 1)
    } else {
        i
    }
}

/// Whether a character may stand in a key: a letter, a digit, `_` or `-`.
pub open spec fn is_key_char(c: char) -> bool {
    ('a' <= c && c <= 'z') || ('A' <= c && c <= 'Z') || ('0' <= c && c <= '9') || c == '_' || c == '-'
}

/// The first place from `i` on that holds no character of a key.
pub open spec fn key_end(s: Seq<char>, i: int) -> int
    decreases s.len() - i,
{
    if 0 <= i < s.len() && is_key_char(s[i]) {
        key_end(s, i + 1)
    } else {
        i
    }
}

/// The character that stands for an escape after a backslash.
pub open spec fn escaped(c: char) -> Option<char> {
    if c == '"' {
        Some('"')
    } else if c == '\\' {
        Some('\\')
    } else if c == 'n' {
        Some('\n')
    } else if c == 't' {
        Some('\t')
    } else if c == 'r' {
        Some('\r')
    } else {
        None
    }
}

/// Reads a text from behind its opening quote: the text, and the place
/// behind its closing quote.
pub open spec fn text_from(s: Seq<char>, i: int, so_far: Seq<char>) -> Option<(Seq<char>, int)>
    decreases s.len() - i,
{
    if i < 0 || i >= s.len() {
        None
    } else if s[i] == '"' {
        Some((so_far, i + 1))
    } else if s[i] == '\\' {
        if i + 1 < s.len() && escaped(s[i + 1]) is Some {
            text_from(s, i + 2, so_far.push(escaped(s[i + 1])->0))
        } else {
            None
        }
    } else {
        text_from(s, i + 1, so_far.push(s[i]))
    }
}

/// Reads a list from behind its opening bracket: the texts, and the place
/// behind its closing bracket.
pub open spec fn list_from(s: Seq<char>, i: int, so_far: Seq<Seq<char>>) -> Option<(Seq<Seq<char>>, int)>
    decreases s.len() - i,
{
    let j = skip_blanks(s, i);
    if i < 0 || j < i || j >= s.len() {
        None
    } else if s[j] == ']' {
        Some((so_far, j + 1))
    } else if s[j] == '"' {
        match text_from(s, j + 1, Seq::empty()) {
            None => None,
            Some((text, k)) => {
                let after = skip_blanks(s, k);
                if after < i || after >= s.len() {
                    None
                } else if s[after] == ',' {
                    list_from(s, after + 1, so_far.push(text))
                } else if s[after] == ']' {
                    Some((so_far.push(text), after + 1))
                } else {
                    None
                }
            },
        }
    } else {
        None
    }
}

/// Whether a character is a digit.
pub open spec fn is_digit(c: char) -> bool {
    '0' <= c && c <= '9'
}

/// Reads the digits from `i` on: the number they write after `so_far`, and
/// the place behind them.
pub open spec fn number_from(s: Seq<char>, i: int, so_far: nat) -> (nat, int)
    decreases s.len() - i,
{
    if 0 <= i < s.len() && is_digit(s[i]) {
        number_from(s, i + 1, so_far * 10 + ((s[i] as int) - ('0' as int)) as nat)
    } else {
        (so_far, i)
    }
}

/// Whether `word` stands in `s` at place `i`.
pub open spec fn stands_at(s: Seq<char>, i: int, word: Seq<char>) -> bool {
    0 <= i && i + word.len() <= s.len() && s.subrange(i, i + word.len()) == word
}

/// The largest number that a configuration file may hold.
pub open spec fn number_limit() -> nat {
    0xffff_ffff_ffff_ffff
}

/// Reads a value at place `i`: the value, and the place behind it.
pub open spec fn value_from(s: Seq<char>, i: int) -> Option<(ValueView, int)> {
    if i < 0 || i >= s.len() {
        None
    } else if s[i] == '"' {
        match text_from(s, i + 1, Seq::empty()) {
            Some((text, next)) => Some((ValueView::Text(text), next)),
            None => None,
        }
    } else if s[i] == '[' {
        match list_from(s, i + 1, Seq::empty()) {
            Some((texts, next)) => Some((ValueView::List(texts), next)),
            None => None,
        }
    } else if stands_at(s, i, "true"@) {
        Some((ValueView::Flag(true), i + 4))
    } else if stands_at(s, i, "false"@) {
        Some((ValueView::Flag(false), i + 5))
    } else if is_digit(s[i]) {
        let read = number_from(s, i, 0);
        if read.0 <= number_limit() {
            Some((ValueView::Number(read.0), read.1))
        } else {
            None
        }
    } else {
        None
    }
}

/// Whether the line holds nothing more from `i` on: blanks, then its end or a comment.
pub open spec fn ends_at(s: Seq<char>, i: int) -> bool {
    let j = skip_blanks(s, i);
    j >= s.len() || s[j] == '#'
}

/// What a line says.
pub enum LineView {
    /// Nothing: the line is empty or a comment.
    Nothing,
    /// A key and its value.
    Entry(Seq<char>, ValueView),
    /// The line is not of the form that a configuration file has.
    Malformed,
}

/// Reads one line.
pub open spec fn line_of(s: Seq<char>) -> LineView {
    let start = skip_blanks(s, 0);
    if ends_at(s, 0) {
        LineView::Nothing
    } else {
        let end = key_end(s, start);
        let sign = skip_blanks(s, end);
        if end == start || sign >= s.len() || s[sign] != '=' {
            LineView::Malformed
        } else {
            match value_from(s, skip_blanks(s, sign + 1)) {
                None => LineView::Malformed,
                Some((value, next)) => if ends_at(s, next) {
                    LineView::Entry(s.subrange(start, end), value)
                } else {
                    LineView::Malformed
                },
            }
        }
    }
}

/// The first place from `i` on that holds no blank.
fn pass_blanks(s: &Vec<char>, i: usize) -> (j: usize)
    requires
        i <= s.len(),
    ensures
        j == skip_blanks(s@, i as int),
        i <= j <= s.len(),
{
    let mut j: usize = i;
    while j < s.len() && (s[j] == ' ' || s[j] == '\t')
        invariant
            i <= j <= s.len(),
            skip_blanks(s@, i as int) == skip_blanks(s@, j as int),
        decreases s.len() - j,
    {
        j = j + 1;
    }
    j
}

/// Whether a character may stand in a key.
fn key_char(c: char) -> (r: bool)
    ensures
        r == is_key_char(c),
{
    ('a' <= c && c <= 'z') || ('A' <= c && c <= 'Z') || ('0' <= c && c <= '9') || c == '_' || c == '-'
}

/// The first place from `i` on that holds no character of a key.
fn pass_key(s: &Vec<char>, i: usize) -> (j: usize)
    requires
        i <= s.len(),
    ensures
        j == key_end(s@, i as int),
        i <= j <= s.len(),
{
    let mut j: usize = i;
    while j < s.len() && key_char(s[j])
        invariant
            i <= j <= s.len(),
            key_end(s@, i as int) == key_end(s@, j as int),
        decreases s.len() - j,
    {
        j = j + 1;
    }
    j
}

/// The character that stands for an escape after a backslash.
fn escape(c: char) -> (r: Option<char>)
    ensures
        r == escaped(c),
{
    if c == '"' {
        Some('"')
    } else if c == '\\' {
        Some('\\')
    } else if c == 'n' {
        Some('\n')
    } else if c == 't' {
        Some('\t')
    } else if c == 'r' {
        Some('\r')
    } else {
        None
    }
}

/// Reads a text from behind its opening quote.
fn read_text(s: &Vec<char>, i: usize) -> (res: Option<(String, usize)>)
    requires
        i <= s.len(),
    ensures
        res is Some <==> text_from(s@, i as int, Seq::empty()) is Some,
        res matches Some((text, next)) ==> text_from(s@, i as int, Seq::empty()) == Some((text@, next as int)) && i
            < next <= s.len(),
{
    let mut text: Vec<char> = Vec::new();
    let mut j: usize = i;
    while j < s.len()
        invariant
            i <= j <= s.len(),
            text_from(s@, i as int, Seq::empty()) == text_from(s@, j as int, text@),
        decreases s.len() - j,
    {
        let c = s[j];
        if c == '"' {
            return Some((from_chars(&text), j + 1));
        } else if c == '\\' {
            if j + 1 < s.len() {
                match escape(s[j + 1]) {
                    Some(e) => {
                        text.push(e);
                        j = j + 2;
                    },
                    None => {
                        return None;
                    },
                }
            } else {
                return None;
            }
        } else {
            text.push(c);
            j = j + 1;
        }
    }
    None
}

/// Reads a list from behind its opening bracket.
fn read_list(s: &Vec<char>, i: usize) -> (res: Option<(Vec<String>, usize)>)
    requires
        i <= s.len(),
    ensures
        res is Some <==> list_from(s@, i as int, Seq::empty()) is Some,
        res matches Some((texts, next)) ==> list_from(s@, i as int, Seq::empty()) == Some((strings(texts@), next as int))
            && i < next <= s.len(),
{
    let mut texts: Vec<String> = Vec::new();
    let mut at: usize = i;
    assert(strings(texts@) =~= Seq::<Seq<char>>::empty());
    loop
        invariant
            i <= at <= s.len(),
            list_from(s@, i as int, Seq::empty()) == list_from(s@, at as int, strings(texts@)),
        decreases s.len() - at,
    {
        let j = pass_blanks(s, at);
        if j >= s.len() {
            return None;
        }
        if s[j] == ']' {
            return Some((texts, j + 1));
        }
        if s[j] != '"' {
            return None;
        }
        match read_text(s, j + 1) {
            None => {
                return None;
            },
            Some((text, k)) => {
                let after = pass_blanks(s, k);
                if after >= s.len() {
                    return None;
                }
                let ghost before = strings(texts@);
                if s[after] == ',' {
                    texts.push(text);
                    assert(strings(texts@) =~= before.push(text@));
                    at = after + 1;
                } else if s[after] == ']' {
                    texts.push(text);
                    assert(strings(texts@) =~= before.push(text@));
                    return Some((texts, after + 1));
                } else {
                    return None;
                }
            },
        }
    }
}

/// What the digits from `i` on write is not less than what stands before them.
pub proof fn lemma_number_grows(s: Seq<char>, i: int, so_far: nat)
    ensures
        number_from(s, i, so_far).0 >= so_far,
        number_from(s, i, so_far).1 >= i,
        0 <= i <= s.len() ==> number_from(s, i, so_far).1 <= s.len(),
    decreases s.len() - i,
{
    if 0 <= i < s.len() && is_digit(s[i]) {
        lemma_number_grows(s, i + 1, so_far * 10 + ((s[i] as int) - ('0' as int)) as nat);
    }
}

/// Reads the number that the digits from `i` on write, where a machine word holds it.
fn read_number(s: &Vec<char>, i: usize) -> (res: Option<(u64, usize)>)
    requires
        i <= s.len(),
    ensures
        res is Some <==> number_from(s@, i as int, 0).0 <= number_limit(),
        res matches Some((n, next)) ==> (n as nat, next as int) == number_from(s@, i as int, 0) && i <= next <= s.len(),
{
    let mut n: u64 = 0;
    let mut j: usize = i;
    while j < s.len() && '0' <= s[j] && s[j] <= '9'
        invariant
            i <= j <= s.len(),
            number_from(s@, i as int, 0) == number_from(s@, j as int, n as nat),
        decreases s.len() - j,
    {
        let c: char = s[j];
        let digit: u64 = ((c as u32) - ('0' as u32)) as u64;
        assert(digit as int == (s@[j as int] as int) - ('0' as int));
        if n > (u64::MAX - digit) / 10 {
            proof {
                lemma_number_grows(s@, j + 1, n as nat * 10 + digit as nat);
            }
            return None;
        }
        n = n * 10 + digit;
        j = j + 1;
    }
    Some((n, j))
}

/// Whether `word` stands in `s` at place `i`.
fn stands(s: &Vec<char>, i: usize, word: &str) -> (r: bool)
    requires
        i <= s.len(),
    ensures
        r == stands_at(s@, i as int, word@),
{
    let w = to_chars(word);
    if w.len() > s.len() - i {
        return false;
    }
    let mut k: usize = 0;
    while k < w.len()
        invariant
            k <= w.len(),
            w@ == word@,
            i + w.len() <= s.len(),
            forall|m: int| 0 <= m < k ==> s@[i + m] == w@[m],
        decreases w.len() - k,
    {
        if s[i + k] != w[k] {
            assert(s@.subrange(i as int, i + w.len())[k as int] != w@[k as int]);
            return false;
        }
        k = k + 1;
    }
    assert(s@.subrange(i as int, i + w.len()) =~= w@);
    true
}

/// Reads a value at place `i`.
fn read_value(s: &Vec<char>, i: usize) -> (res: Option<(Value, usize)>)
    requires
        i <= s.len(),
    ensures
        res is Some <==> value_from(s@, i as int) is Some,
        res matches Some((value, next)) ==> value_from(s@, i as int) == Some((value@, next as int)) && i < next
            <= s.len(),
{
    if i >= s.len() {
        return None;
    }
    let c: char = s[i];
    if c == '"' {
        match read_text(s, i + 1) {
            Some((text, next)) => Some((Value::Text(text), next)),
            None => None,
        }
    } else if c == '[' {
        match read_list(s, i + 1) {
            Some((texts, next)) => Some((Value::List(texts), next)),
            None => None,
        }
    } else if stands(s, i, "true") {
        proof {
            reveal_strlit("true");
        }
        Some((Value::Flag(true), i + 4))
    } else if stands(s, i, "false") {
        proof {
            reveal_strlit("false");
        }
        Some((Value::Flag(false), i + 5))
    } else if '0' <= c && c <= '9' {
        proof {
            lemma_number_grows(s@, i + 1, ((c as int) - ('0' as int)) as nat);
        }
        match read_number(s, i) {
            Some((n, next)) => Some((Value::Number(n), next)),
            None => None,
        }
    } else {
        None
    }
}

/// What a line says, as a value of the program.
#[derive(Clone, Debug, PartialEq, Eq)]
pub enum Line {
    /// Nothing: the line is empty or a comment.
    Nothing,
    /// A key and its value.
    Entry(String, Value),
    /// The line is not of the form that a configuration file has.
    Malformed,
}

impl View for Line {
    type V = LineView;

    open spec fn view(&self) -> LineView {
        match self {
            Line::Nothing => LineView::Nothing,
            Line::Entry(key, value) => LineView::Entry(key@, value@),
            Line::Malformed => LineView::Malformed,
        }
    }
}

/// Whether the line holds nothing more from `i` on.
fn line_ends(s: &Vec<char>, i: usize) -> (r: bool)
    requires
        i <= s.len(),
    ensures
        r == ends_at(s@, i as int),
{
    let j = pass_blanks(s, i);
    j >= s.len() || s[j] == '#'
}

/// Reads one line of a configuration file.
pub fn read_line(line: &str) -> (res: Line)
    ensures
        res@ == line_of(line@),
{
    let s = to_chars(line);
    if line_ends(&s, 0) {
        return Line::Nothing;
    }
    let start = pass_blanks(&s, 0);
    let end = pass_key(&s, start);
    let sign = pass_blanks(&s, end);
    if end == start || sign >= s.len() || s[sign] != '=' {
        return Line::Malformed;
    }
    let at = pass_blanks(&s, sign + 1);
    match read_value(&s, at) {
        None => Line::Malformed,
        Some((value, next)) => {
            if line_ends(&s, next) {
                let mut key: Vec<char> = Vec::new();
                let mut k: usize = start;
                while k < end
                    invariant
                        start <= k <= end,
                        end <= s.len(),
                        key@ == s@.subrange(start as int, k as int),
                    decreases end - k,
                {
                    key.push(s[k]);
                    k = k + 1;
                    assert(key@ =~= s@.subrange(start as int, k as int));
                }
                Line::Entry(from_chars(&key), value)
            } else {
                Line::Malformed
            }
        },
    }
}


/// The lines that are closed so far and the line still open after reading `s`.
pub open spec fn lines_scan(s: Seq<char>) -> (Seq<Seq<char>>, Seq<char>)
    decreases s.len(),
{
    if s.len() == 0 {
        (Seq::empty(), Seq::empty())
    } else {
        let before = lines_scan(s.drop_last());
        if s.last() == '\n' {
            (before.0.push(before.1), Seq::empty())
        } else {
            (before.0, before.1.push(s.last()))
        }
    }
}

/// A line without the carriage return at its end, if it ends in one.
pub open spec fn without_return(line: Seq<char>) -> Seq<char> {
    if line.len() > 0 && line.last() == '\r' {
        line.drop_last()
    } else {
        line
    }
}

/// The lines of a file: what stands between line feeds, each without the
/// carriage return at its end.
pub open spec fn lines_of(s: Seq<char>) -> Seq<Seq<char>> {
    let end = lines_scan(s);
    end.0.push(end.1).map_values(|line: Seq<char>| without_return(line))
}

/// Splits a file into its lines.
pub fn split_lines(content: &str) -> (res: Vec<String>)
    ensures
        strings(res@) == lines_of(content@),
{
    let s = to_chars(content);
    let mut done: Vec<String> = Vec::new();
    let mut cur: Vec<char> = Vec::new();
    let ghost mut closed: Seq<Seq<char>> = Seq::empty();
    let mut i: usize = 0;
    assert(strings(done@) =~= closed.map_values(|line: Seq<char>| without_return(line)));
    while i < s.len()
        invariant
            i <= s.len(),
            (closed, cur@) == lines_scan(s@.subrange(0, i as int)),
            strings(done@) == closed.map_values(|line: Seq<char>| without_return(line)),
        decreases s.len() - i,
    {
        let c = s[i];
        proof {
            let next = s@.subrange(0, i + 1);
            assert(next.drop_last() =~= s@.subrange(0, i as int));
            assert(next.last() == c);
        }
        if c == '\n' {
            let ghost whole = cur@;
            let ghost before = strings(done@);
            if cur.len() > 0 && cur[cur.len() - 1] == '\r' {
                cur.pop();
            }
            assert(cur@ =~= without_return(whole));
            let line = from_chars(&cur);
            done.push(line);
            assert(strings(done@) =~= before.push(without_return(whole)));
            proof {
                closed = closed.push(whole);
            }
            assert(strings(done@) =~= closed.map_values(|line: Seq<char>| without_return(line)));
            cur = Vec::new();
        } else {
            cur.push(c);
        }
        i = i + 1;
    }
    assert(s@.subrange(0, s.len() as int) =~= s@);
    let ghost whole = cur@;
    let ghost before = strings(done@);
    if cur.len() > 0 && cur[cur.len() - 1] == '\r' {
        cur.pop();
    }
    assert(cur@ =~= without_return(whole));
    done.push(from_chars(&cur));
    assert(strings(done@) =~= before.push(without_return(whole)));
    assert(strings(done@) =~= closed.push(whole).map_values(|line: Seq<char>| without_return(line)));
    done
}

/// The configuration with one key set to a value, or nothing where the value
/// is not of the kind that the key takes. A key that the program does not
/// know changes nothing.
pub open spec fn applied(s: SettingsView, key: Seq<char>, value: ValueView) -> Option<SettingsView> {
    if key == "tags"@ {
        match value {
            ValueView::List(l) => Some(SettingsView { tags: l, ..s }),
            _ => None,
        }
    } else if key == "excludes"@ {
        match value {
            ValueView::List(l) => Some(SettingsView { excludes: l, ..s }),
            _ => None,
        }
    } else if key == "includes"@ {
        match value {
            ValueView::List(l) => Some(SettingsView { includes: l, ..s }),
            _ => None,
        }
    } else if key == "directories"@ {
        match value {
            ValueView::List(l) => Some(SettingsView { directories: l, ..s }),
            _ => None,
        }
    } else if key == "destination"@ {
        match value {
            ValueView::Text(t) => Some(SettingsView { destination: t, ..s }),
            _ => None,
        }
    } else if key == "hostname"@ {
        match value {
            ValueView::Text(t) => Some(SettingsView { hostname: t, ..s }),
            _ => None,
        }
    } else if key == "force"@ {
        match value {
            ValueView::Flag(b) => Some(SettingsView { force: b, ..s }),
            _ => None,
        }
    } else if key == "down"@ {
        match value {
            ValueView::Flag(b) => Some(SettingsView { down: b, ..s }),
            _ => None,
        }
    } else if key == "dry-run"@ {
        match value {
            ValueView::Flag(b) => Some(SettingsView { dry_run: b, ..s }),
            _ => None,
        }
    } else if key == "verbose"@ {
        match value {
            ValueView::Number(n) => if n <= 255 {
                Some(SettingsView { verbose: n as u8, ..s })
            } else {
                None
            },
            _ => None,
        }
    } else {
        Some(s)
    }
}

/// Whether a key is the given name.
fn key_is(key: &Vec<char>, name: &str) -> (r: bool)
    ensures
        r == (key@ == name@),
{
    let wanted = to_chars(name);
    same_chars(key, &wanted)
}

/// Sets one key of a configuration. Hands back whether the value is of the
/// kind that the key takes; where it is not, the configuration stays as it is.
pub fn apply(settings: &mut Settings, key: &str, value: Value) -> (ok: bool)
    ensures
        ok <==> applied(old(settings)@, key@, value@) is Some,
        ok ==> Some(final(settings)@) == applied(old(settings)@, key@, value@),
        !ok ==> final(settings)@ == old(settings)@,
{
    let k = to_chars(key);
    if key_is(&k, "tags") {
        match value {
            Value::List(l) => {
                settings.tags = l;
                true
            },
            _ => false,
        }
    } else if key_is(&k, "excludes") {
        match value {
            Value::List(l) => {
                settings.excludes = l;
                true
            },
            _ => false,
        }
    } else if key_is(&k, "includes") {
        match value {
            Value::List(l) => {
                settings.includes = l;
                true
            },
            _ => false,
        }
    } else if key_is(&k, "directories") {
        match value {
            Value::List(l) => {
                settings.directories = l;
                true
            },
            _ => false,
        }
    } else if key_is(&k, "destination") {
        match value {
            Value::Text(t) => {
                settings.destination = t;
                true
            },
            _ => false,
        }
    } else if key_is(&k, "hostname") {
        match value {
            Value::Text(t) => {
                settings.hostname = t;
                true
            },
            _ => false,
        }
    } else if key_is(&k, "force") {
        match value {
            Value::Flag(b) => {
                settings.force = b;
                true
            },
            _ => false,
        }
    } else if key_is(&k, "down") {
        match value {
            Value::Flag(b) => {
                settings.down = b;
                true
            },
            _ => false,
        }
    } else if key_is(&k, "dry-run") {
        match value {
            Value::Flag(b) => {
                settings.dry_run = b;
                true
            },
            _ => false,
        }
    } else if key_is(&k, "verbose") {
        match value {
            Value::Number(n) => {
                if n <= 255 {
                    settings.verbose = n as u8;
                    true
                } else {
                    false
                }
            },
            _ => false,
        }
    } else {
        true
    }
}

/// Why a configuration file was not taken, with the place of the file
/// among the files and of the line among its lines, both counted from 0.
#[derive(Clone, Copy, Debug, PartialEq, Eq, Structural)]
pub enum ConfigError {
    /// The line is not of the form `key = value`.
    Malformed { file: usize, line: usize },
    /// The value is not of the kind that the key takes.
    WrongType { file: usize, line: usize },
}

/// What reading the first `upto` lines makes of a configuration: the
/// configuration with each key set in turn, or the place of the first line in fault
/// and whether the line is malformed.
pub open spec fn read_lines(s: SettingsView, lines: Seq<Seq<char>>, upto: int) -> Result<SettingsView, (int, bool)>
    decreases upto,
{
    if upto <= 0 {
        Ok(s)
    } else {
        match read_lines(s, lines, upto - 1) {
            Err(fault) => Err(fault),
            Ok(before) => match line_of(lines[upto - 1]) {
                LineView::Nothing => Ok(before),
                LineView::Malformed => Err((upto - 1, true)),
                LineView::Entry(key, value) => match applied(before, key, value) {
                    Some(after) => Ok(after),
                    None => Err((upto - 1, false)),
                },
            },
        }
    }
}

/// What reading the first `upto` files makes of a configuration.
pub open spec fn read_files(s: SettingsView, files: Seq<Seq<char>>, upto: int) -> Result<SettingsView, ConfigError>
    decreases upto,
{
    if upto <= 0 {
        Ok(s)
    } else {
        match read_files(s, files, upto - 1) {
            Err(fault) => Err(fault),
            Ok(before) => {
                let lines = lines_of(files[upto - 1]);
                match read_lines(before, lines, lines.len() as int) {
                    Ok(after) => Ok(after),
                    Err((line, malformed)) => if malformed {
                        Err(ConfigError::Malformed { file: (upto - 1) as usize, line: line as usize })
                    } else {
                        Err(ConfigError::WrongType { file: (upto - 1) as usize, line: line as usize })
                    },
                }
            },
        }
    }
}

/// A fault stays: once a line is in fault, reading on finds the same fault.
pub proof fn lemma_read_lines_fault(s: SettingsView, lines: Seq<Seq<char>>, at: int, upto: int)
    requires
        at <= upto,
        read_lines(s, lines, at) is Err,
    ensures
        read_lines(s, lines, upto) == read_lines(s, lines, at),
    decreases upto - at,
{
    if at < upto {
        lemma_read_lines_fault(s, lines, at, upto - 1);
    }
}

/// A fault stays: once a file is in fault, reading on finds the same fault.
pub proof fn lemma_read_files_fault(s: SettingsView, files: Seq<Seq<char>>, at: int, upto: int)
    requires
        at <= upto,
        read_files(s, files, at) is Err,
    ensures
        read_files(s, files, upto) == read_files(s, files, at),
    decreases upto - at,
{
    if at < upto {
        lemma_read_files_fault(s, files, at, upto - 1);
    }
}

/// The reader of configuration files.
#[derive(Clone, Debug)]
pub struct ConfigParser {
    /// What each file holds, in the order in which the files are read.
    pub files: Vec<String>,
}

impl ConfigParser {
    /// A reader of the files that hold `files`; a file that does not exist
    /// is left out.
    pub fn new(files: &Vec<String>) -> (res: ConfigParser)
        ensures
            strings(res.files@) == strings(files@),
    {
        ConfigParser { files: clone_strings(files) }
    }

    /// Reads the files into a configuration: each key has the value that
    /// was written last, and a key that no file names has none.
    pub fn into_settings(self) -> (res: Result<Settings, ConfigError>)
        ensures
            match read_files(empty_settings(), strings(self.files@), self.files.len() as int) {
                Ok(settings) => res matches Ok(given) && given@ == settings,
                Err(fault) => res == Err::<Settings, ConfigError>(fault),
            },
    {
        let mut settings = Settings::default();
        let ghost files = strings(self.files@);
        let mut f: usize = 0;
        while f < self.files.len()
            invariant
                f <= self.files.len(),
                files == strings(self.files@),
                read_files(empty_settings(), files, f as int) == Ok::<SettingsView, ConfigError>(settings@),
            decreases self.files.len() - f,
        {
            let lines = split_lines(self.files[f].as_str());
            let ghost start = settings@;
            let ghost all = strings(lines@);
            assert(all == lines_of(files[f as int]));
            let mut l: usize = 0;
            while l < lines.len()
                invariant
                    l <= lines.len(),
                    f < self.files.len(),
                    files == strings(self.files@),
                    all == strings(lines@),
                    all == lines_of(files[f as int]),
                    read_files(empty_settings(), files, f as int) == Ok::<SettingsView, ConfigError>(start),
                    read_lines(start, all, l as int) == Ok::<SettingsView, (int, bool)>(settings@),
                decreases lines.len() - l,
            {
                assert(all[l as int] == lines@[l as int]@);
                match read_line(lines[l].as_str()) {
                    Line::Nothing => {},
                    Line::Malformed => {
                        proof {
                            assert(read_lines(start, all, l + 1) == Err::<SettingsView, (int, bool)>((l as int, true)));
                            lemma_read_lines_fault(start, all, l + 1, all.len() as int);
                            assert(read_files(empty_settings(), files, f + 1) is Err);
                            lemma_read_files_fault(empty_settings(), files, f + 1, files.len() as int);
                        }
                        return Err(ConfigError::Malformed { file: f, line: l });
                    },
                    Line::Entry(key, value) => {
                        if !apply(&mut settings, key.as_str(), value) {
                            proof {
                                assert(read_lines(start, all, l + 1) == Err::<SettingsView, (int, bool)>((l as int, false)));
                                lemma_read_lines_fault(start, all, l + 1, all.len() as int);
                                assert(read_files(empty_settings(), files, f + 1) is Err);
                                lemma_read_files_fault(empty_settings(), files, f + 1, files.len() as int);
                            }
                            return Err(ConfigError::WrongType { file: f, line: l });
                        }
                    },
                }
                l = l + 1;
            }
            f = f + 1;
        }
        Ok(settings)
    }
}


} // verus!
